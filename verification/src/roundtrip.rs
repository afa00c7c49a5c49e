//! Reading back a chunked container: the segment map, the chunk bodies and the placement of
//! each restored chunk, and what decompressing a container built from verified chunks gives.
use vstd::prelude::*;
use crate::chunk::{Chunk, chunks_cover, tiles};
use crate::compress::{
    CompressedChunk, bodies, chunk_header, container, coded_len, metas_bytes, metas_from, restores, total_len,
};
use crate::decompress::{DecompressError, apply_chunks, decompressed, place, read_metas, xxh32_of};
use crate::entropy::codec_decoded;
use crate::format::{ChunkMeta, FileHeader, FormatError, FORMAT_VERSION, header_bytes, meta_bytes, header_read};
use crate::transform::{reversible, reversed};

verus! {

/// `n` zero bytes.
pub open spec fn zeros(n: int) -> Seq<u8> {
    Seq::new(n as nat, |k: int| 0u8)
}

/// The outcome is a checksum mismatch.
pub open spec fn mismatch(r: Option<Result<Seq<u8>, DecompressError>>) -> bool {
    match r {
        Some(Err(DecompressError::ChecksumMismatch { .. })) => true,
        _ => false,
    }
}

/// Decoding `c` and reversing its transform gives exactly `data`.
pub open spec fn restores_exactly(c: CompressedChunk, data: Seq<u8>) -> bool {
    match codec_decoded(c.codec, c.data@) {
        None => false,
        Some(dec) => reversible(c.transform, dec) && reversed(c.transform, dec) == data,
    }
}

/// The chunks of `data` within `bounds`, coded as `cc`: each record restores its chunk and
/// carries its checksum, and the sizes fit the container's fields.
pub open spec fn verified_chunks(chunks: Seq<Chunk>, cc: Seq<CompressedChunk>, data: Seq<u8>, bounds: Seq<(int, int)>) -> bool {
    &&& chunks_cover(chunks, data, bounds)
    &&& tiles(bounds, data.len() as int)
    &&& cc.len() == chunks.len()
    &&& chunks.len() <= u32::MAX
    &&& data.len() <= crate::compress::MAX_INPUT
    &&& data.len() <= usize::MAX
    &&& forall|k: int| 0 <= k < chunks.len() ==> {
        &&& (#[trigger] cc[k]).checksum == xxh32_of(chunks[k].data@, 0)
        &&& chunks[k].data@.len() <= u32::MAX
        &&& restores(cc[k], chunks[k].data@)
        &&& cc[k].data@.len() <= chunks[k].data@.len()
    }
}

/// The record of chunk `i`, its body starting after the header and the bodies before it.
pub open spec fn meta_at(chunks: Seq<Chunk>, cc: Seq<CompressedChunk>, i: int) -> ChunkMeta {
    ChunkMeta {
        offset_in_file: (27 + bodies(chunks, cc, i).len()) as u64,
        original_offset: chunks[i].original_offset,
        original_size: chunks[i].data@.len() as u32,
        compressed_size: cc[i].data@.len() as u32,
        data_type: chunks[i].data_type,
        transform: cc[i].transform,
        codec: cc[i].codec,
        checksum: cc[i].checksum,
    }
}

proof fn lemma_bodies_step(chunks: Seq<Chunk>, cc: Seq<CompressedChunk>, i: int)
    requires
        0 <= i,
    ensures
        bodies(chunks, cc, i + 1) == bodies(chunks, cc, i) + chunk_header(cc[i], chunks[i]) + cc[i].data@,
        chunk_header(cc[i], chunks[i]).len() == 15,
{
    crate::bytes::lemma_le_lengths();
}

proof fn lemma_bodies_prefix(chunks: Seq<Chunk>, cc: Seq<CompressedChunk>, k: int, m: int)
    requires
        0 <= k <= m,
    ensures
        bodies(chunks, cc, k).len() <= bodies(chunks, cc, m).len(),
        bodies(chunks, cc, m).subrange(0, bodies(chunks, cc, k).len() as int) == bodies(chunks, cc, k),
    decreases m - k,
{
    if k < m {
        lemma_bodies_prefix(chunks, cc, k, m - 1);
        lemma_bodies_step(chunks, cc, m - 1);
        let bm1 = bodies(chunks, cc, m - 1);
        let bk = bodies(chunks, cc, k);
        assert(bodies(chunks, cc, m).subrange(0, bk.len() as int) =~= bm1.subrange(0, bk.len() as int));
    } else {
        assert(bodies(chunks, cc, m).subrange(0, bodies(chunks, cc, m).len() as int) =~= bodies(chunks, cc, m));
    }
}

proof fn lemma_bodies_bound(chunks: Seq<Chunk>, cc: Seq<CompressedChunk>, k: int)
    requires
        0 <= k <= chunks.len(),
        k <= cc.len(),
        forall|q: int| 0 <= q < k ==> (#[trigger] cc[q]).data@.len() <= chunks[q].data@.len(),
    ensures
        bodies(chunks, cc, k).len() <= 15 * k + total_len(chunks, k),
    decreases k,
{
    if k > 0 {
        lemma_bodies_bound(chunks, cc, k - 1);
        lemma_bodies_step(chunks, cc, k - 1);
    }
}

proof fn lemma_metas_at(chunks: Seq<Chunk>, cc: Seq<CompressedChunk>, k: int)
    requires
        0 <= k <= chunks.len(),
    ensures
        metas_from(chunks, cc, k, 27int + bodies(chunks, cc, k).len()).len() == chunks.len() - k,
        forall|j: int| 0 <= j < chunks.len() - k ==>
            #[trigger] metas_from(chunks, cc, k, 27int + bodies(chunks, cc, k).len())[j] == meta_at(chunks, cc, k + j),
    decreases chunks.len() - k,
{
    if k < chunks.len() {
        lemma_bodies_step(chunks, cc, k);
        let off: int = 27int + bodies(chunks, cc, k).len();
        assert(off + 15 + cc[k].data@.len() == 27int + bodies(chunks, cc, k + 1).len());
        lemma_metas_at(chunks, cc, k + 1);
        let tail = metas_from(chunks, cc, k + 1, 27int + bodies(chunks, cc, k + 1).len());
        let ms = metas_from(chunks, cc, k, off);
        assert forall|j: int| 0 <= j < chunks.len() - k implies #[trigger] ms[j] == meta_at(chunks, cc, k + j) by {
            if j > 0 {
                assert(ms[j] == tail[j - 1]);
            }
        }
    }
}

proof fn lemma_metas_bytes_prefix(metas: Seq<ChunkMeta>, q: int, k: int)
    requires
        0 <= q < k <= metas.len(),
    ensures
        metas_bytes(metas, k).len() == 31 * k,
        metas_bytes(metas, k).subrange(31 * q, 31 * q + 31) == meta_bytes(metas[q]),
    decreases k,
{
    crate::format::lemma_meta_roundtrip(metas[k - 1], Seq::empty());
    if q < k - 1 {
        lemma_metas_bytes_prefix(metas, q, k - 1);
        let prev = metas_bytes(metas, k - 1);
        assert(metas_bytes(metas, k).subrange(31 * q, 31 * q + 31) =~= prev.subrange(31 * q, 31 * q + 31));
    } else {
        if k - 1 > 0 {
            lemma_metas_bytes_prefix(metas, 0, k - 1);
        }
        let prev = metas_bytes(metas, k - 1);
        assert(prev.len() == 31 * (k - 1));
        assert(metas_bytes(metas, k).subrange(31 * q, 31 * q + 31) =~= meta_bytes(metas[q]));
    }
}

proof fn lemma_read_metas(d: Seq<u8>, p: int, metas: Seq<ChunkMeta>, k: int)
    requires
        0 <= p,
        0 <= k <= metas.len(),
        p + 31 * metas.len() <= d.len(),
        forall|q: int| 0 <= q < metas.len() ==> d.subrange(p + 31 * q, p + 31 * q + 31) == meta_bytes(#[trigger] metas[q]),
    ensures
        read_metas(d, p, k) == Ok::<Seq<ChunkMeta>, DecompressError>(metas.take(k)),
    decreases k,
{
    if k > 0 {
        lemma_read_metas(d, p, metas, k - 1);
        let at = p + 31 * (k - 1);
        let rest = d.subrange(at + 31, d.len() as int);
        assert(d.subrange(at, d.len() as int) =~= d.subrange(at, at + 31) + rest);
        crate::format::lemma_meta_roundtrip(metas[k - 1], rest);
        assert(metas.take(k - 1).push(metas[k - 1]) =~= metas.take(k));
    } else {
        assert(metas.take(0) =~= Seq::<ChunkMeta>::empty());
    }
}

proof fn lemma_chunk_body(chunks: Seq<Chunk>, cc: Seq<CompressedChunk>, i: int)
    requires
        0 <= i < chunks.len(),
    ensures
        ({
            let d = container(chunks, cc);
            let pos: int = 27int + bodies(chunks, cc, i).len();
            &&& pos + 15 + cc[i].data@.len() <= d.len()
            &&& d.subrange(pos + 15, pos + 15 + cc[i].data@.len()) == cc[i].data@
        }),
{
    let n = chunks.len() as int;
    let d = container(chunks, cc);
    let bi = bodies(chunks, cc, i);
    let bi1 = bodies(chunks, cc, i + 1);
    let bn = bodies(chunks, cc, n);
    let c = cc[i];
    lemma_bodies_step(chunks, cc, i);
    lemma_bodies_prefix(chunks, cc, i + 1, n);
    let h = FileHeader {
        version: FORMAT_VERSION,
        flags: 0,
        original_size: total_len(chunks, n) as u64,
        chunk_count: n as u32,
        segment_map_offset: (27 + bn.len()) as u64,
    };
    let metas = metas_from(chunks, cc, 0, 27);
    crate::format::lemma_header_roundtrip(h, Seq::empty());
    assert(d == header_bytes(h) + bn + metas_bytes(metas, metas.len() as int));
    let pos: int = 27int + bi.len();
    assert(d.subrange(27, 27int + bn.len()) =~= bn);
    assert(bn.subrange(0, bi1.len() as int) == bi1);
    assert(bi1.subrange(bi.len() + 15int, bi1.len() as int) =~= c.data@);
    assert(d.subrange(pos + 15, pos + 15 + c.data@.len()) =~= bn.subrange(bi.len() + 15int, bi1.len() as int));
}

proof fn lemma_place_step(data: Seq<u8>, b0: int, b1: int, restored: Seq<u8>)
    requires
        0 <= b0 <= b1 <= data.len(),
        restored.len() >= b1 - b0,
        restored.subrange(0, b1 - b0) == data.subrange(b0, b1),
    ensures
        place(data.subrange(0, b0) + zeros(data.len() - b0), restored, b0, b1 - b0)
            == data.subrange(0, b1) + zeros(data.len() - b1),
{
    let out = data.subrange(0, b0) + zeros(data.len() - b0);
    assert(place(out, restored, b0, b1 - b0) =~= data.subrange(0, b1) + zeros(data.len() - b1));
}

#[verifier::spinoff_prover]
#[verifier::rlimit(50)]
proof fn lemma_apply(chunks: Seq<Chunk>, cc: Seq<CompressedChunk>, data: Seq<u8>, bounds: Seq<(int, int)>, i: int)
    requires
        verified_chunks(chunks, cc, data, bounds),
        0 <= i <= chunks.len(),
    ensures
        ({
            let d = container(chunks, cc);
            let metas = metas_from(chunks, cc, 0, 27);
            let start: int = if i == 0 { 0 } else { bounds[i - 1].1 };
            let r = apply_chunks(d, metas, i, data.subrange(0, start) + zeros(data.len() - start));
            &&& r == Some(Ok::<Seq<u8>, DecompressError>(data)) || mismatch(r)
            &&& (forall|k: int| i <= k < chunks.len() ==> restores_exactly(#[trigger] cc[k], chunks[k].data@))
                ==> r == Some(Ok::<Seq<u8>, DecompressError>(data))
        }),
    decreases chunks.len() - i,
{
    let n = chunks.len() as int;
    let d = container(chunks, cc);
    let metas = metas_from(chunks, cc, 0, 27);
    let start: int = if i == 0 { 0 } else { bounds[i - 1].1 };
    let out = data.subrange(0, start) + zeros(data.len() - start);
    assert(bodies(chunks, cc, 0) == Seq::<u8>::empty());
    lemma_metas_at(chunks, cc, 0);
    if i == n {
        assert(start == data.len());
        assert(out =~= data);
    } else {
        let b = bounds[i];
        assert(0 <= b.0 <= b.1 <= data.len());
        assert(b.0 == start);
        let m = metas[i];
        assert(m == meta_at(chunks, cc, i));
        lemma_bodies_bound(chunks, cc, n);
        crate::compress::lemma_tiled_cover_total(chunks, data, bounds, n);
        lemma_chunk_body(chunks, cc, i);
        let ch = chunks[i];
        let c = cc[i];
        assert(ch.data@ == data.subrange(b.0, b.1));
        assert(c.data@.len() <= ch.data@.len());
        lemma_bodies_prefix(chunks, cc, i, n);
        let pos: int = 27int + bodies(chunks, cc, i).len();
        assert(m.offset_in_file as int == pos);
        assert(m.compressed_size as int == c.data@.len());
        assert(m.original_size as int == ch.data@.len());
        assert(m.original_offset as int == b.0);
        let dec = codec_decoded(c.codec, c.data@)->0;
        let restored = reversed(c.transform, dec);
        assert(restored.len() >= ch.data@.len() && restored.subrange(0, ch.data@.len() as int) == ch.data@);
        let actual = xxh32_of(restored, 0);
        if actual != m.checksum {
            if restores_exactly(c, ch.data@) {
                assert(restored == ch.data@);
            }
        } else {
            assert(m.original_offset + m.original_size <= usize::MAX);
            lemma_place_step(data, b.0, b.1, restored);
            lemma_apply(chunks, cc, data, bounds, i + 1);
        }
    }
}

/// Decompressing a container whose records each restore their chunk gives back the data, or
/// reports a checksum mismatch (where a chunk restores to more bytes than it holds); where
/// every record restores exactly its chunk, it gives back the data.
pub proof fn lemma_container_roundtrip(chunks: Seq<Chunk>, cc: Seq<CompressedChunk>, data: Seq<u8>, bounds: Seq<(int, int)>)
    requires
        verified_chunks(chunks, cc, data, bounds),
    ensures
        decompressed(container(chunks, cc)) == Some(Ok::<Seq<u8>, DecompressError>(data))
            || mismatch(decompressed(container(chunks, cc))),
        (forall|k: int| 0 <= k < chunks.len() ==> restores_exactly(#[trigger] cc[k], chunks[k].data@))
            ==> decompressed(container(chunks, cc)) == Some(Ok::<Seq<u8>, DecompressError>(data)),
{
    let n = chunks.len() as int;
    let d = container(chunks, cc);
    let bn = bodies(chunks, cc, n);
    let metas = metas_from(chunks, cc, 0, 27);
    crate::compress::lemma_tiled_cover_total(chunks, data, bounds, n);
    lemma_bodies_bound(chunks, cc, n);
    lemma_metas_at(chunks, cc, 0);
    assert(bodies(chunks, cc, 0) == Seq::<u8>::empty());
    let h = FileHeader {
        version: FORMAT_VERSION,
        flags: 0,
        original_size: total_len(chunks, n) as u64,
        chunk_count: n as u32,
        segment_map_offset: (27 + bn.len()) as u64,
    };
    let mb = metas_bytes(metas, metas.len() as int);
    crate::format::lemma_header_roundtrip(h, bn + mb);
    assert(d =~= header_bytes(h) + (bn + mb));
    assert(header_read(d) == Ok::<FileHeader, FormatError>(h));
    let p: int = 27int + bn.len();
    assert(h.segment_map_offset as int == p);
    assert(h.chunk_count as int == n);
    if n > 0 {
        lemma_metas_bytes_prefix(metas, 0, n);
    } else {
        assert(mb == Seq::<u8>::empty());
    }
    assert forall|q: int| 0 <= q < metas.len() implies d.subrange(p + 31 * q, p + 31 * q + 31) == meta_bytes(#[trigger] metas[q]) by {
        lemma_metas_bytes_prefix(metas, q, n);
        assert(d.subrange(p + 31 * q, p + 31 * q + 31) =~= mb.subrange(31 * q, 31 * q + 31));
    }
    lemma_read_metas(d, p, metas, n);
    assert(metas.take(n) =~= metas);
    assert(h.original_size as int == data.len());
    assert(Seq::new((h.original_size as usize) as nat, |k: int| 0u8) =~= data.subrange(0, 0) + zeros(data.len() as int));
    lemma_apply(chunks, cc, data, bounds, 0);
}

} // verus!
