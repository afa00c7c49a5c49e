//! Splitting input into chunks: fixed-size chunks for large inputs, and for small ones chunks
//! cut at 4 KiB regions where the data changes character.
use vstd::prelude::*;
use crate::format::DataType;

verus! {

pub const DEFAULT_CHUNK_SIZE: usize = 262144;
pub const MIN_CHUNK_SIZE: usize = 4096;
pub const MAX_CHUNK_SIZE: usize = 1048576;

/// The region size of the adaptive split.
pub const REGION_SIZE: usize = 4096;

/// A piece of the input, with its position and content class.
#[derive(Debug, Clone)]
pub struct Chunk {
    pub data: Vec<u8>,
    pub original_offset: u64,
    pub data_type: DataType,
}

/// The number of 4 KiB regions of an input of `len` bytes.
pub open spec fn region_count(len: int) -> int {
    (len + 4095) / 4096
}

/// The chunk bounds of the adaptive split, from region `i` on, with the current chunk starting
/// at `cs` and the bounds found so far in `acc`. A chunk ends before region `i` when the
/// region starts a transition and the chunk (through region `i`) has at least
/// `MIN_CHUNK_SIZE` bytes; independently, when that length reaches `MAX_CHUNK_SIZE` (measured
/// before a cut at the same region, which then leaves an empty chunk).
pub open spec fn adaptive_from(len: int, trans: Seq<bool>, i: int, cs: int, acc: Seq<(int, int)>) -> Seq<(int, int)>
    decreases region_count(len) - i,
{
    if i >= region_count(len) {
        if cs < len { acc.push((cs, len)) } else { acc }
    } else {
        let start = 4096 * i;
        let end = if 4096 * (i + 1) < len { 4096 * (i + 1) } else { len };
        let cl = end - cs;
        let cut1 = trans[i] && cl >= MIN_CHUNK_SIZE;
        let acc1 = if cut1 { acc.push((cs, start)) } else { acc };
        let cs1 = if cut1 { start } else { cs };
        let cut2 = cl >= MAX_CHUNK_SIZE;
        let acc2 = if cut2 { acc1.push((cs1, start)) } else { acc1 };
        let cs2 = if cut2 { start } else { cs1 };
        adaptive_from(len, trans, i + 1, cs2, acc2)
    }
}

/// The chunk bounds of the adaptive split of an input of `len` bytes.
pub open spec fn adaptive_bounds(len: int, trans: Seq<bool>) -> Seq<(int, int)> {
    if len == 0 { Seq::empty() } else { adaptive_from(len, trans, 1, 0, Seq::empty()) }
}

/// The chunk size used above the adaptive limit.
pub open spec fn fixed_size(chunk_size: int) -> int {
    if chunk_size < MIN_CHUNK_SIZE { MIN_CHUNK_SIZE as int } else if chunk_size > MAX_CHUNK_SIZE { MAX_CHUNK_SIZE as int } else { chunk_size }
}

/// The bounds of fixed-size chunks from `off` on.
pub open spec fn fixed_from(len: int, size: int, off: int) -> Seq<(int, int)>
    decreases len - off,
{
    if off >= len || size <= 0 {
        Seq::empty()
    } else {
        let end = if off + size < len { off + size } else { len };
        seq![(off, end)] + fixed_from(len, size, end)
    }
}

/// The bounds of fixed-size chunks.
pub open spec fn fixed_bounds(len: int, size: int) -> Seq<(int, int)> {
    fixed_from(len, size, 0)
}

/// The chunk bounds of `split_into_chunks`.
pub open spec fn chunk_bounds(len: int, chunk_size: int, trans: Seq<bool>) -> Seq<(int, int)> {
    if len <= chunk_size * 2 {
        adaptive_bounds(len, trans)
    } else {
        fixed_bounds(len, fixed_size(chunk_size))
    }
}

/// The chunks hold the bytes within `bounds`, at those offsets, as binary data.
pub open spec fn chunks_match(chunks: Seq<Chunk>, data: Seq<u8>, bounds: Seq<(int, int)>) -> bool {
    &&& chunks.len() == bounds.len()
    &&& forall|k: int| 0 <= k < bounds.len() ==> {
        let b = #[trigger] bounds[k];
        &&& 0 <= b.0 <= b.1 <= data.len()
        &&& chunks[k].data@ == data.subrange(b.0, b.1)
        &&& chunks[k].original_offset == b.0
        &&& chunks[k].data_type == DataType::Binary
    }
}

/// The chunks hold the bytes within `bounds`, at those offsets (whatever their class).
pub open spec fn chunks_cover(chunks: Seq<Chunk>, data: Seq<u8>, bounds: Seq<(int, int)>) -> bool {
    &&& chunks.len() == bounds.len()
    &&& forall|k: int| 0 <= k < bounds.len() ==> {
        let b = #[trigger] bounds[k];
        &&& 0 <= b.0 <= b.1 <= data.len()
        &&& chunks[k].data@ == data.subrange(b.0, b.1)
        &&& chunks[k].original_offset == b.0
    }
}

/// Bounds tile `0 .. len`: each starts where the previous ended, the first at 0, the last at
/// `len`.
pub open spec fn tiles(bounds: Seq<(int, int)>, len: int) -> bool {
    &&& forall|k: int| 0 <= k < bounds.len() ==> (#[trigger] bounds[k]).0 <= bounds[k].1
    &&& forall|k: int| 0 < k < bounds.len() ==> (#[trigger] bounds[k]).0 == bounds[k - 1].1
    &&& (bounds.len() == 0 ==> len == 0)
    &&& (bounds.len() > 0 ==> bounds[0].0 == 0 && bounds.last().1 == len)
}

proof fn lemma_fixed_tiles(len: int, size: int, off: int)
    requires
        0 <= off <= len,
        size > 0,
    ensures
        forall|k: int| 0 <= k < fixed_from(len, size, off).len() ==>
            off <= (#[trigger] fixed_from(len, size, off)[k]).0 <= fixed_from(len, size, off)[k].1 <= len,
        forall|k: int| 0 < k < fixed_from(len, size, off).len() ==>
            (#[trigger] fixed_from(len, size, off)[k]).0 == fixed_from(len, size, off)[k - 1].1,
        fixed_from(len, size, off).len() <= len - off,
        forall|k: int| 0 <= k < fixed_from(len, size, off).len() ==>
            (#[trigger] fixed_from(len, size, off)[k]).1 - fixed_from(len, size, off)[k].0 <= size,
        fixed_from(len, size, off).len() == 0 ==> off == len,
        fixed_from(len, size, off).len() > 0 ==> fixed_from(len, size, off)[0].0 == off
            && fixed_from(len, size, off).last().1 == len,
    decreases len - off,
{
    if off < len {
        let end = if off + size < len { off + size } else { len };
        lemma_fixed_tiles(len, size, end);
        let rest = fixed_from(len, size, end);
        let all = fixed_from(len, size, off);
        assert(all == seq![(off, end)] + rest);
        assert forall|k: int| 0 < k < all.len() implies (#[trigger] all[k]).0 == all[k - 1].1 by {
            if k > 1 {
                assert(all[k] == rest[k - 1]);
                assert(all[k - 1] == rest[k - 2]);
            }
        }
        if rest.len() > 0 {
            assert(all.last() == rest.last());
        }
    }
}

proof fn lemma_match_push(chunks: Seq<Chunk>, data: Seq<u8>, acc: Seq<(int, int)>, c: Chunk, b: (int, int))
    requires
        chunks_match(chunks, data, acc),
        0 <= b.0 <= b.1 <= data.len(),
        c.data@ == data.subrange(b.0, b.1),
        c.original_offset == b.0,
        c.data_type == DataType::Binary,
    ensures
        chunks_match(chunks.push(c), data, acc.push(b)),
{
    let cs = chunks.push(c);
    let a = acc.push(b);
    assert forall|k: int| 0 <= k < a.len() implies {
        let bb = #[trigger] a[k];
        &&& 0 <= bb.0 <= bb.1 <= data.len()
        &&& cs[k].data@ == data.subrange(bb.0, bb.1)
        &&& cs[k].original_offset == bb.0
        &&& cs[k].data_type == DataType::Binary
    } by {
        if k < acc.len() {
            assert(a[k] == acc[k]);
            assert(cs[k] == chunks[k]);
        }
    }
}

fn slice_chunk(data: &[u8], start: usize, end: usize) -> (c: Chunk)
    requires
        start <= end <= data@.len(),
    ensures
        c.data@ == data@.subrange(start as int, end as int),
        c.original_offset == start,
        c.data_type == DataType::Binary,
{
    Chunk { data: crate::bytes::copy_range(data, start, end), original_offset: start as u64, data_type: DataType::Binary }
}

proof fn lemma_adaptive_tiles(len: int, trans: Seq<bool>, i: int, cs: int, acc: Seq<(int, int)>)
    requires
        1 <= i,
        0 <= cs <= len,
        cs <= 4096 * i || i >= region_count(len),
        len > 0,
        tiles(acc, cs),
        forall|k: int| 0 <= k < acc.len() ==> 0 <= (#[trigger] acc[k]).0 <= acc[k].1 <= len,
        cs <= 4096 * i,
    ensures
        tiles(adaptive_from(len, trans, i, cs, acc), len),
        forall|k: int| 0 <= k < adaptive_from(len, trans, i, cs, acc).len() ==>
            0 <= (#[trigger] adaptive_from(len, trans, i, cs, acc)[k]).0 <= adaptive_from(len, trans, i, cs, acc)[k].1 <= len,
    decreases region_count(len) - i,
{
    if i >= region_count(len) {
        if cs < len {
            let r = acc.push((cs, len));
            assert(tiles(r, len));
        } else {
            assert(cs == len);
        }
    } else {
        let start = 4096 * i;
        let end = if 4096 * (i + 1) < len { 4096 * (i + 1) } else { len };
        let cl = end - cs;
        let cut1 = trans[i] && cl >= MIN_CHUNK_SIZE;
        let acc1 = if cut1 { acc.push((cs, start)) } else { acc };
        let cs1 = if cut1 { start } else { cs };
        let cut2 = cl >= MAX_CHUNK_SIZE;
        let acc2 = if cut2 { acc1.push((cs1, start)) } else { acc1 };
        let cs2 = if cut2 { start } else { cs1 };
        assert(start < len);
        assert(tiles(acc1, cs1));
        assert(tiles(acc2, cs2));
        lemma_adaptive_tiles(len, trans, i + 1, cs2, acc2);
    }
}

/// The adaptive split: chunks cut at 4 KiB regions marked by `transitions`.
fn split_adaptive(data: &[u8], transitions: &[bool]) -> (r: Vec<Chunk>)
    requires
        transitions@.len() >= region_count(data@.len() as int),
    ensures
        chunks_match(r@, data@, adaptive_bounds(data@.len() as int, transitions@)),
        tiles(adaptive_bounds(data@.len() as int, transitions@), data@.len() as int),
{
    let n = data.len();
    let mut chunks: Vec<Chunk> = Vec::new();
    if n == 0 {
        assert(tiles(Seq::<(int, int)>::empty(), 0));
        return chunks;
    }
    let nreg: usize = n / 4096 + if n % 4096 == 0 { 0 } else { 1 };
    assert(nreg as int == region_count(n as int));
    let mut chunk_start: usize = 0;
    let mut i: usize = 1;
    let ghost mut acc: Seq<(int, int)> = Seq::empty();
    proof {
        lemma_adaptive_tiles(n as int, transitions@, 1, 0, Seq::empty());
    }
    while i < nreg
        invariant
            n == data@.len() > 0,
            nreg as int == region_count(n as int),
            transitions@.len() >= nreg,
            1 <= i <= nreg,
            chunk_start <= 4096 * i,
            chunk_start <= n,
            adaptive_from(n as int, transitions@, i as int, chunk_start as int, acc) == adaptive_bounds(n as int, transitions@),
            chunks_match(chunks@, data@, acc),
        decreases nreg - i,
    {
        let start = 4096 * i;
        let end: usize = if n - start > 4096 { start + 4096 } else { n };
        let chunk_len = end - chunk_start;
        if transitions[i] && chunk_len >= MIN_CHUNK_SIZE {
            let c = slice_chunk(data, chunk_start, start);
            proof {
                lemma_match_push(chunks@, data@, acc, c, (chunk_start as int, start as int));
                acc = acc.push((chunk_start as int, start as int));
            }
            chunks.push(c);
            chunk_start = start;
        }
        if chunk_len >= MAX_CHUNK_SIZE {
            let c = slice_chunk(data, chunk_start, start);
            proof {
                lemma_match_push(chunks@, data@, acc, c, (chunk_start as int, start as int));
                acc = acc.push((chunk_start as int, start as int));
            }
            chunks.push(c);
            chunk_start = start;
        }
        i = i + 1;
    }
    if chunk_start < n {
        let c = slice_chunk(data, chunk_start, n);
        proof {
            lemma_match_push(chunks@, data@, acc, c, (chunk_start as int, n as int));
            acc = acc.push((chunk_start as int, n as int));
        }
        chunks.push(c);
    }
    chunks
}

/// Fixed-size chunks of `size` bytes (the last one shorter).
fn split_fixed(data: &[u8], size: usize) -> (r: Vec<Chunk>)
    requires
        size >= MIN_CHUNK_SIZE,
    ensures
        chunks_match(r@, data@, fixed_bounds(data@.len() as int, size as int)),
        tiles(fixed_bounds(data@.len() as int, size as int), data@.len() as int),
{
    let n = data.len();
    let mut chunks: Vec<Chunk> = Vec::new();
    let mut off: usize = 0;
    let ghost mut acc: Seq<(int, int)> = Seq::empty();
    proof {
        lemma_fixed_tiles(n as int, size as int, 0);
    }
    while off < n
        invariant
            n == data@.len(),
            size >= MIN_CHUNK_SIZE,
            off <= n,
            acc + fixed_from(n as int, size as int, off as int) == fixed_bounds(n as int, size as int),
            chunks_match(chunks@, data@, acc),
        decreases n - off,
    {
        let end: usize = if n - off > size { off + size } else { n };
        let c = slice_chunk(data, off, end);
        proof {
            lemma_match_push(chunks@, data@, acc, c, (off as int, end as int));
            let rest = fixed_from(n as int, size as int, end as int);
            assert(fixed_from(n as int, size as int, off as int) == seq![(off as int, end as int)] + rest);
            assert(acc.push((off as int, end as int)) + rest =~= acc + (seq![(off as int, end as int)] + rest));
            acc = acc.push((off as int, end as int));
        }
        chunks.push(c);
        off = end;
    }
    assert(acc =~= fixed_bounds(n as int, size as int));
    chunks
}

proof fn lemma_adaptive_count(len: int, trans: Seq<bool>, i: int, cs: int, acc: Seq<(int, int)>)
    requires
        1 <= i,
        len > 0,
    ensures
        adaptive_from(len, trans, i, cs, acc).len() <= acc.len() + 2 * (if region_count(len) > i { region_count(len) - i } else { 0 }) + 1,
    decreases region_count(len) - i,
{
    if i < region_count(len) {
        let start = 4096 * i;
        let end = if 4096 * (i + 1) < len { 4096 * (i + 1) } else { len };
        let cl = end - cs;
        let cut1 = trans[i] && cl >= MIN_CHUNK_SIZE;
        let acc1 = if cut1 { acc.push((cs, start)) } else { acc };
        let cs1 = if cut1 { start } else { cs };
        let cut2 = cl >= MAX_CHUNK_SIZE;
        let acc2 = if cut2 { acc1.push((cs1, start)) } else { acc1 };
        let cs2 = if cut2 { start } else { cs1 };
        lemma_adaptive_count(len, trans, i + 1, cs2, acc2);
    }
}

proof fn lemma_fixed_count(len: int, size: int, off: int)
    requires
        0 <= off <= len,
        size > 0,
    ensures
        fixed_from(len, size, off).len() <= (len - off) / size + 1,
    decreases len - off,
{
    if off < len {
        let end = if off + size < len { off + size } else { len };
        lemma_fixed_count(len, size, end);
        if off + size < len {
            assert((len - end) / size + 1 == (len - off) / size) by {
                vstd::arithmetic::div_mod::lemma_div_plus_one(len - end, size);
            }
        } else {
            assert(fixed_from(len, size, end).len() == 0);
            assert((len - off) / size >= 0) by {
                vstd::arithmetic::div_mod::lemma_div_pos_is_pos(len - off, size);
            }
        }
    }
}

/// The split of an input of `len` bytes at the default chunk size has at most one chunk per
/// 256 KiB, plus 300.
pub proof fn lemma_chunk_count(len: int, trans: Seq<bool>)
    requires
        0 <= len,
    ensures
        chunk_bounds(len, DEFAULT_CHUNK_SIZE as int, trans).len() <= len / (DEFAULT_CHUNK_SIZE as int) + 300,
{
    if len <= DEFAULT_CHUNK_SIZE * 2 {
        if len > 0 {
            lemma_adaptive_count(len, trans, 1, 0, Seq::empty());
            assert(region_count(len) <= 128);
        }
        assert(len / (DEFAULT_CHUNK_SIZE as int) >= 0) by {
            vstd::arithmetic::div_mod::lemma_div_pos_is_pos(len, DEFAULT_CHUNK_SIZE as int);
        }
    } else {
        assert(fixed_size(DEFAULT_CHUNK_SIZE as int) == DEFAULT_CHUNK_SIZE);
        lemma_fixed_count(len, DEFAULT_CHUNK_SIZE as int, 0);
    }
}

/// Splits `data` into chunks. Inputs of at most twice `chunk_size` bytes get the adaptive
/// split, cut where `transitions` marks a 4 KiB region as changing character (entry `i` for
/// region `i`; entry 0 is not read); larger inputs get chunks of `chunk_size` clamped to
/// `MIN_CHUNK_SIZE ..= MAX_CHUNK_SIZE`. The chunks tile the input in order.
pub fn split_into_chunks(data: &[u8], chunk_size: usize, transitions: &[bool]) -> (r: Vec<Chunk>)
    requires
        chunk_size <= usize::MAX / 2,
        data@.len() <= chunk_size * 2 ==> transitions@.len() >= region_count(data@.len() as int),
    ensures
        chunks_match(r@, data@, chunk_bounds(data@.len() as int, chunk_size as int, transitions@)),
        tiles(chunk_bounds(data@.len() as int, chunk_size as int, transitions@), data@.len() as int),
        r@.len() <= 2 * data@.len() + 1,
        forall|k: int| 0 <= k < r@.len() ==> (#[trigger] r@[k]).data@.len() <= (if 2 * chunk_size > MAX_CHUNK_SIZE { 2 * chunk_size } else { MAX_CHUNK_SIZE as int }),
{
    if data.len() <= chunk_size * 2 {
        let r = split_adaptive(data, transitions);
        proof {
            if data@.len() > 0 {
                lemma_adaptive_count(data@.len() as int, transitions@, 1, 0, Seq::empty());
            }
            let bs = chunk_bounds(data@.len() as int, chunk_size as int, transitions@);
            assert forall|k: int| 0 <= k < r@.len() implies (#[trigger] r@[k]).data@.len() <= (if 2 * chunk_size > MAX_CHUNK_SIZE { 2 * chunk_size } else { MAX_CHUNK_SIZE as int }) by {
                let b = bs[k];
                assert(0 <= b.0 <= b.1 <= data@.len());
            }
        }
        return r;
    }
    let size: usize = if chunk_size < MIN_CHUNK_SIZE { MIN_CHUNK_SIZE } else if chunk_size > MAX_CHUNK_SIZE { MAX_CHUNK_SIZE } else { chunk_size };
    let r = split_fixed(data, size);
    proof {
        lemma_fixed_tiles(data@.len() as int, size as int, 0);
        let bs = fixed_bounds(data@.len() as int, size as int);
        assert forall|k: int| 0 <= k < r@.len() implies (#[trigger] r@[k]).data@.len() <= (if 2 * chunk_size > MAX_CHUNK_SIZE { 2 * chunk_size } else { MAX_CHUNK_SIZE as int }) by {
            let b = bs[k];
            assert(b.1 - b.0 <= size);
        }
    }
    r
}

} // verus!
