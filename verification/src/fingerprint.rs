//! Content classes of chunks. The statistics behind a class (entropy, ratios, scores) are
//! floating-point and computed by the caller's classifier.
use vstd::prelude::*;
use crate::chunk::Chunk;
use crate::format::DataType;

verus! {

/// Sets the data type of every chunk to what `classify` says of its bytes.
pub fn fingerprint_chunks<F: Fn(&[u8]) -> DataType>(chunks: &mut Vec<Chunk>, classify: &F)
    requires
        forall|s: &[u8]| #[trigger] classify.requires((s,)),
    ensures
        final(chunks)@.len() == old(chunks)@.len(),
        forall|k: int| 0 <= k < old(chunks)@.len() ==> {
            &&& (#[trigger] final(chunks)@[k]).data@ == old(chunks)@[k].data@
            &&& final(chunks)@[k].original_offset == old(chunks)@[k].original_offset
            &&& exists|s: &[u8]| s@ == old(chunks)@[k].data@ && classify.ensures((s,), final(chunks)@[k].data_type)
        },
{
    let mut i: usize = 0;
    while i < chunks.len()
        invariant
            forall|s: &[u8]| #[trigger] classify.requires((s,)),
            i <= chunks@.len(),
            chunks@.len() == old(chunks)@.len(),
            forall|k: int| 0 <= k < chunks@.len() ==> {
                &&& (#[trigger] chunks@[k]).data@ == old(chunks)@[k].data@
                &&& chunks@[k].original_offset == old(chunks)@[k].original_offset
            },
            forall|k: int| 0 <= k < i ==> exists|s: &[u8]| s@ == old(chunks)@[k].data@
                && classify.ensures((s,), (#[trigger] chunks@[k]).data_type),
        decreases chunks@.len() - i,
    {
        let s = chunks[i].data.as_slice();
        let t = classify(s);
        assert(s@ == old(chunks)@[i as int].data@ && classify.ensures((s,), t));
        let n = chunks[i].data.len();
        let c = Chunk {
            data: crate::bytes::copy_range(chunks[i].data.as_slice(), 0, n),
            original_offset: chunks[i].original_offset,
            data_type: t,
        };
        assert(c.data@ =~= chunks@[i as int].data@);
        let ghost prev = chunks@;
        chunks.set(i, c);
        assert forall|k: int| 0 <= k < i + 1 implies exists|s: &[u8]| s@ == old(chunks)@[k].data@
            && classify.ensures((s,), (#[trigger] chunks@[k]).data_type) by {
            if k < i {
                assert(chunks@[k] == prev[k]);
            }
        }
        i = i + 1;
    }
}

} // verus!
