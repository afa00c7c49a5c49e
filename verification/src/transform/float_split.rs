//! Splits 4-byte words into four byte streams (most significant byte first), so that the
//! exponent bytes of `f32` arrays sit together.
//!
//! Layout: `[u32 length] [byte 3 of every word] [byte 2...] [byte 1...] [byte 0...]`; inputs
//! shorter than 4 bytes or not a multiple of 4 are stored after the length unchanged.
use vstd::prelude::*;
use crate::bytes::{le32, u32_at, append_bytes, push_u32_le, read_u32_le, lemma_u32_at, lemma_le_lengths};

verus! {

/// Byte `k` of every 4-byte word of `d`.
pub open spec fn column(d: Seq<u8>, k: int) -> Seq<u8> {
    Seq::new(d.len() / 4, |i: int| d[4 * i + k])
}

/// True when the encoder splits `d` (at least one word, whole words only).
pub open spec fn splits(len: nat) -> bool {
    len >= 4 && len % 4 == 0
}

/// The encoding of `d`.
pub open spec fn float_split_encoded(d: Seq<u8>) -> Seq<u8> {
    if !splits(d.len()) {
        le32(d.len() as u32) + d
    } else {
        le32(d.len() as u32) + column(d, 3) + column(d, 2) + column(d, 1) + column(d, 0)
    }
}

/// The words rebuilt from four streams of `n` bytes stored most significant first in `p`.
pub open spec fn interleave(p: Seq<u8>, n: int) -> Seq<u8> {
    Seq::new((4 * n) as nat, |j: int| p[(3 - j % 4) * n + j / 4])
}

/// What decoding `data` yields.
pub open spec fn float_split_decoded(data: Seq<u8>) -> Seq<u8> {
    if data.len() < 4 {
        Seq::empty()
    } else {
        let len = u32_at(data, 0) as nat;
        let payload = data.subrange(4, data.len() as int);
        if !splits(len) {
            payload
        } else if payload.len() < len {
            payload
        } else {
            interleave(payload, (len / 4) as int)
        }
    }
}

/// Decoding an encoding gives back the input, for inputs shorter than 2^32 bytes.
pub proof fn lemma_float_split_roundtrip(d: Seq<u8>)
    requires
        d.len() <= u32::MAX,
    ensures
        float_split_decoded(float_split_encoded(d)) == d,
{
    lemma_le_lengths();
    let e = float_split_encoded(d);
    let body = e.subrange(4, e.len() as int);
    if !splits(d.len()) {
        lemma_u32_at(Seq::empty(), d.len() as u32, d);
        assert(Seq::<u8>::empty() + le32(d.len() as u32) + d =~= e);
        assert(body =~= d);
    } else {
        let n = (d.len() / 4) as int;
        let cols = column(d, 3) + column(d, 2) + column(d, 1) + column(d, 0);
        lemma_u32_at(Seq::empty(), d.len() as u32, cols);
        assert(Seq::<u8>::empty() + le32(d.len() as u32) + cols =~= e);
        assert(body =~= cols);
        assert(interleave(body, n) =~= d) by {
            assert forall|j: int| 0 <= j < d.len() implies #[trigger] interleave(body, n)[j] == d[j] by {
                let k = j % 4;
                let i = j / 4;
                assert(j == 4 * i + k);
                assert(0 <= i < n);
                assert((3 - k) * n + i < 4 * n) by (nonlinear_arith)
                    requires 0 <= k < 4, 0 <= i < n;
                if k == 3 {
                    assert((3 - k) * n + i == i) by (nonlinear_arith) requires k == 3;
                    assert(body[(3 - k) * n + i] == column(d, 3)[i]);
                } else if k == 2 {
                    assert((3 - k) * n + i == n + i) by (nonlinear_arith) requires k == 2;
                    assert(body[(3 - k) * n + i] == column(d, 2)[i]);
                } else if k == 1 {
                    assert((3 - k) * n + i == 2 * n + i) by (nonlinear_arith) requires k == 1;
                    assert(body[(3 - k) * n + i] == column(d, 1)[i]);
                } else {
                    assert((3 - k) * n + i == 3 * n + i) by (nonlinear_arith) requires k == 0;
                    assert(body[(3 - k) * n + i] == column(d, 0)[i]);
                }
            }
        }
    }
}

fn push_column(out: &mut Vec<u8>, data: &[u8], k: usize)
    requires
        k < 4,
        data.len() % 4 == 0,
    ensures
        final(out)@ == old(out)@ + column(data@, k as int),
{
    let n = data.len() / 4;
    let mut i: usize = 0;
    while i < n
        invariant
            k < 4,
            n == data.len() / 4,
            data.len() % 4 == 0,
            i <= n,
            out@ == old(out)@ + column(data@, k as int).subrange(0, i as int),
        decreases n - i,
    {
        out.push(data[4 * i + k]);
        i = i + 1;
        assert(column(data@, k as int).subrange(0, i as int)
            =~= column(data@, k as int).subrange(0, i - 1).push(data@[4 * (i - 1) + k]));
    }
    assert(column(data@, k as int).subrange(0, i as int) =~= column(data@, k as int));
}

/// Splits 4-byte words into byte streams.
pub fn encode(data: &[u8]) -> (r: Vec<u8>)
    ensures
        r@ == float_split_encoded(data@),
{
    let len = data.len();
    let mut out: Vec<u8> = Vec::new();
    push_u32_le(&mut out, len as u32);
    if len < 4 || len % 4 != 0 {
        append_bytes(&mut out, data);
        return out;
    }
    push_column(&mut out, data, 3);
    push_column(&mut out, data, 2);
    push_column(&mut out, data, 1);
    push_column(&mut out, data, 0);
    out
}

/// Reverses [`encode`].
pub fn decode(data: &[u8]) -> (r: Vec<u8>)
    ensures
        r@ == float_split_decoded(data@),
{
    if data.len() < 4 {
        return Vec::new();
    }
    let len = read_u32_le(data, 0) as usize;
    let payload = &data[4..data.len()];
    if len < 4 || len % 4 != 0 {
        let mut out: Vec<u8> = Vec::new();
        append_bytes(&mut out, payload);
        return out;
    }
    let n = len / 4;
    if payload.len() < n * 4 {
        let mut out: Vec<u8> = Vec::new();
        append_bytes(&mut out, payload);
        return out;
    }
    let mut out: Vec<u8> = Vec::new();
    let mut i: usize = 0;
    while i < n
        invariant
            4 * n <= payload.len(),
            i <= n,
            out@ == interleave(payload@, n as int).subrange(0, 4 * i),
        decreases n - i,
    {
        out.push(payload[3 * n + i]);
        out.push(payload[2 * n + i]);
        out.push(payload[n + i]);
        out.push(payload[i]);
        i = i + 1;
        assert(out@ =~= interleave(payload@, n as int).subrange(0, 4 * i)) by {
            assert forall|j: int| 4 * (i - 1) <= j < 4 * i implies
                #[trigger] interleave(payload@, n as int)[j] == out@[j] by {
                let m = j - 4 * (i - 1);
                assert(j / 4 == i - 1 && j % 4 == m);
                let nn = n as int;
                let ii = (i - 1) as int;
                if m == 0 {
                    assert((3 - j % 4) * nn + j / 4 == 3 * nn + ii) by (nonlinear_arith) requires j % 4 == 0, j / 4 == ii;
                } else if m == 1 {
                    assert((3 - j % 4) * nn + j / 4 == 2 * nn + ii) by (nonlinear_arith) requires j % 4 == 1, j / 4 == ii;
                } else if m == 2 {
                    assert((3 - j % 4) * nn + j / 4 == nn + ii) by (nonlinear_arith) requires j % 4 == 2, j / 4 == ii;
                } else {
                    assert((3 - j % 4) * nn + j / 4 == ii) by (nonlinear_arith) requires j % 4 == 3, j / 4 == ii;
                }
            }
        }
    }
    assert(interleave(payload@, n as int).subrange(0, 4 * i) =~= interleave(payload@, n as int));
    out
}

} // verus!
