//! Little-endian integer framing shared by every on-disk layout of the crate.
use vstd::prelude::*;
use vstd::bytes::{
    spec_u16_from_le_bytes, spec_u16_to_le_bytes, spec_u32_from_le_bytes, spec_u32_to_le_bytes,
    spec_u64_from_le_bytes, spec_u64_to_le_bytes, lemma_auto_spec_u16_to_from_le_bytes,
    lemma_auto_spec_u32_to_from_le_bytes, lemma_auto_spec_u64_to_from_le_bytes,
};

verus! {

/// The four little-endian bytes of `x`.
pub open spec fn le32(x: u32) -> Seq<u8> {
    spec_u32_to_le_bytes(x)
}

/// The two little-endian bytes of `x`.
pub open spec fn le16(x: u16) -> Seq<u8> {
    spec_u16_to_le_bytes(x)
}

/// The eight little-endian bytes of `x`.
pub open spec fn le64(x: u64) -> Seq<u8> {
    spec_u64_to_le_bytes(x)
}

/// The `u32` stored little-endian at `s[pos..pos + 4]`.
pub open spec fn u32_at(s: Seq<u8>, pos: int) -> u32 {
    spec_u32_from_le_bytes(s.subrange(pos, pos + 4))
}

/// The `u16` stored little-endian at `s[pos..pos + 2]`.
pub open spec fn u16_at(s: Seq<u8>, pos: int) -> u16 {
    spec_u16_from_le_bytes(s.subrange(pos, pos + 2))
}

/// The `u64` stored little-endian at `s[pos..pos + 8]`.
pub open spec fn u64_at(s: Seq<u8>, pos: int) -> u64 {
    spec_u64_from_le_bytes(s.subrange(pos, pos + 8))
}

/// Encoded integers have their width, and reading back what was written gives the value.
pub proof fn lemma_le_lengths()
    ensures
        forall|x: u32| #[trigger] le32(x).len() == 4,
        forall|x: u16| #[trigger] le16(x).len() == 2,
        forall|x: u64| #[trigger] le64(x).len() == 8,
{
    lemma_auto_spec_u32_to_from_le_bytes();
    lemma_auto_spec_u16_to_from_le_bytes();
    lemma_auto_spec_u64_to_from_le_bytes();
}

/// A little-endian `u32` written at offset `a.len()` reads back unchanged.
pub proof fn lemma_u32_at(a: Seq<u8>, x: u32, b: Seq<u8>)
    ensures
        le32(x).len() == 4,
        u32_at(a + le32(x) + b, a.len() as int) == x,
{
    lemma_auto_spec_u32_to_from_le_bytes();
    assert((a + le32(x) + b).subrange(a.len() as int, a.len() + 4int) =~= le32(x));
}

/// A little-endian `u16` written at offset `a.len()` reads back unchanged.
pub proof fn lemma_u16_at(a: Seq<u8>, x: u16, b: Seq<u8>)
    ensures
        le16(x).len() == 2,
        u16_at(a + le16(x) + b, a.len() as int) == x,
{
    lemma_auto_spec_u16_to_from_le_bytes();
    assert((a + le16(x) + b).subrange(a.len() as int, a.len() + 2int) =~= le16(x));
}

/// A little-endian `u64` written at offset `a.len()` reads back unchanged.
pub proof fn lemma_u64_at(a: Seq<u8>, x: u64, b: Seq<u8>)
    ensures
        le64(x).len() == 8,
        u64_at(a + le64(x) + b, a.len() as int) == x,
{
    lemma_auto_spec_u64_to_from_le_bytes();
    assert((a + le64(x) + b).subrange(a.len() as int, a.len() + 8int) =~= le64(x));
}

/// Appends `src` to `out`.
pub fn append_bytes(out: &mut Vec<u8>, src: &[u8])
    ensures
        final(out)@ == old(out)@ + src@,
{
    let mut i: usize = 0;
    while i < src.len()
        invariant
            i <= src.len(),
            out@ == old(out)@ + src@.subrange(0, i as int),
        decreases src.len() - i,
    {
        out.push(src[i]);
        i = i + 1;
        assert(src@.subrange(0, i as int) =~= src@.subrange(0, i - 1).push(src@[i - 1]));
    }
    assert(src@.subrange(0, i as int) =~= src@);
}

/// Appends the little-endian bytes of `x`.
pub fn push_u32_le(out: &mut Vec<u8>, x: u32)
    ensures
        final(out)@ == old(out)@ + le32(x),
{
    let b = vstd::bytes::u32_to_le_bytes(x);
    append_bytes(out, b.as_slice());
}

/// Appends the little-endian bytes of `x`.
pub fn push_u16_le(out: &mut Vec<u8>, x: u16)
    ensures
        final(out)@ == old(out)@ + le16(x),
{
    let b = vstd::bytes::u16_to_le_bytes(x);
    append_bytes(out, b.as_slice());
}

/// Appends the little-endian bytes of `x`.
pub fn push_u64_le(out: &mut Vec<u8>, x: u64)
    ensures
        final(out)@ == old(out)@ + le64(x),
{
    let b = vstd::bytes::u64_to_le_bytes(x);
    append_bytes(out, b.as_slice());
}

/// Reads the little-endian `u32` at `data[pos..pos + 4]`.
pub fn read_u32_le(data: &[u8], pos: usize) -> (r: u32)
    requires
        pos + 4 <= data.len(),
    ensures
        r == u32_at(data@, pos as int),
{
    vstd::bytes::u32_from_le_bytes(&data[pos..pos + 4])
}

/// Reads the little-endian `u16` at `data[pos..pos + 2]`.
pub fn read_u16_le(data: &[u8], pos: usize) -> (r: u16)
    requires
        pos + 2 <= data.len(),
    ensures
        r == u16_at(data@, pos as int),
{
    vstd::bytes::u16_from_le_bytes(&data[pos..pos + 2])
}

/// Reads the little-endian `u64` at `data[pos..pos + 8]`.
pub fn read_u64_le(data: &[u8], pos: usize) -> (r: u64)
    requires
        pos + 8 <= data.len(),
    ensures
        r == u64_at(data@, pos as int),
{
    vstd::bytes::u64_from_le_bytes(&data[pos..pos + 8])
}

/// Copies `data[start..end]` into a new vector.
pub fn copy_range(data: &[u8], start: usize, end: usize) -> (r: Vec<u8>)
    requires
        start <= end <= data@.len(),
    ensures
        r@ == data@.subrange(start as int, end as int),
{
    let mut out: Vec<u8> = Vec::new();
    append_bytes(&mut out, &data[start..end]);
    out
}

} // verus!
