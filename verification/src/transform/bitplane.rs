//! Bit-plane decomposition: bit `b` of every byte goes to plane `b`, eight bytes per plane
//! byte, first byte in the most significant bit.
//!
//! Layout: `[u32 length] [plane 0] ... [plane 7]`, each plane `ceil(length / 8)` bytes.
use vstd::prelude::*;
use crate::bytes::{le32, u32_at, push_u32_le, read_u32_le, lemma_u32_at, lemma_le_lengths, append_bytes};

verus! {

/// Bit `b` of `x`.
pub open spec fn bit(x: u8, b: int) -> u8 {
    (x >> (b as u8)) & 1
}

/// Plane bytes per plane for `n` input bytes.
pub open spec fn plane_len(n: int) -> int {
    (n + 7) / 8
}

/// Byte `j` of plane `b`, built from the first `k` of its eight input positions.
pub open spec fn plane_byte(d: Seq<u8>, b: int, j: int, k: int) -> u8
    decreases k,
{
    if k <= 0 {
        0
    } else {
        let prev = plane_byte(d, b, j, k - 1);
        let i = 8 * j + (k - 1);
        if i < d.len() && bit(d[i], b) == 1 {
            prev | (1u8 << ((7 - (k - 1)) as u8))
        } else {
            prev
        }
    }
}

/// Plane `b` of `d`.
pub open spec fn plane(d: Seq<u8>, b: int) -> Seq<u8> {
    Seq::new(plane_len(d.len() as int) as nat, |j: int| plane_byte(d, b, j, 8))
}

/// Planes `0..k` of `d`, one after the other.
pub open spec fn planes(d: Seq<u8>, k: int) -> Seq<u8>
    decreases k,
{
    if k <= 0 { Seq::empty() } else { planes(d, k - 1) + plane(d, k - 1) }
}

/// The encoding of `d`.
pub open spec fn bitplane_encoded(d: Seq<u8>) -> Seq<u8> {
    if d.len() == 0 {
        le32(0)
    } else {
        le32(d.len() as u32) + planes(d, 8)
    }
}

/// Output byte `i` rebuilt from the first `kb` planes stored in `p`, `psz` bytes each.
pub open spec fn rebuilt_byte(p: Seq<u8>, psz: int, i: int, kb: int) -> u8
    decreases kb,
{
    if kb <= 0 {
        0
    } else {
        let prev = rebuilt_byte(p, psz, i, kb - 1);
        if p[(kb - 1) * psz + i / 8] & (1u8 << ((7 - i % 8) as u8)) != 0 {
            prev | (1u8 << ((kb - 1) as u8))
        } else {
            prev
        }
    }
}

/// What decoding `data` yields.
pub open spec fn bitplane_decoded(data: Seq<u8>) -> Seq<u8> {
    if data.len() < 4 {
        Seq::empty()
    } else {
        let n = u32_at(data, 0) as int;
        let payload = data.subrange(4, data.len() as int);
        if n == 0 || payload.len() < plane_len(n) * 8 {
            Seq::empty()
        } else {
            Seq::new(n as nat, |i: int| rebuilt_byte(payload, plane_len(n), i, 8))
        }
    }
}

proof fn lemma_set_bit(acc: u8, s: u8, t: u8)
    requires
        s < 8,
        t < 8,
    ensures
        ((acc | (1u8 << s)) >> t) & 1 == if t == s { 1u8 } else { (acc >> t) & 1 },
{
    assert(s < 8 && t < 8 ==> ((acc | (1u8 << s)) >> t) & 1 == if t == s { 1u8 } else { (acc >> t) & 1 })
        by (bit_vector);
}

proof fn lemma_plane_byte_bits(d: Seq<u8>, b: int, j: int, k: int)
    requires
        0 <= k <= 8,
        0 <= b < 8,
        0 <= j,
    ensures
        forall|m: int| 0 <= m < 8 ==> #[trigger] bit(plane_byte(d, b, j, k), 7 - m)
            == if m < k && 8 * j + m < d.len() { bit(d[8 * j + m], b) } else { 0u8 },
    decreases k,
{
    if k == 0 {
        assert forall|m: int| 0 <= m < 8 implies #[trigger] bit(plane_byte(d, b, j, k), 7 - m) == 0u8 by {
            let t = (7 - m) as u8;
            assert((0u8 >> t) & 1 == 0) by (bit_vector);
        }
    } else {
        lemma_plane_byte_bits(d, b, j, k - 1);
        let prev = plane_byte(d, b, j, k - 1);
        let i = 8 * j + (k - 1);
        assert forall|m: int| 0 <= m < 8 implies #[trigger] bit(plane_byte(d, b, j, k), 7 - m)
            == if m < k && 8 * j + m < d.len() { bit(d[8 * j + m], b) } else { 0u8 } by {
            assert(bit(prev, 7 - m) == if m < k - 1 && 8 * j + m < d.len() { bit(d[8 * j + m], b) } else { 0u8 });
            if i < d.len() && bit(d[i], b) == 1 {
                lemma_set_bit(prev, (7 - (k - 1)) as u8, (7 - m) as u8);
            } else if m == k - 1 && i < d.len() {
                let x = d[i];
                let bb = b as u8;
                assert((x >> bb) & 1 != 1 ==> (x >> bb) & 1 == 0) by (bit_vector);
            }
        }
    }
}

proof fn lemma_rebuilt(p: Seq<u8>, psz: int, i: int, x: u8, kb: int)
    requires
        0 <= kb <= 8,
        0 <= i,
        forall|b: int| 0 <= b < 8 ==>
            (#[trigger] p[b * psz + i / 8] & (1u8 << ((7 - i % 8) as u8)) != 0) == (bit(x, b) == 1),
    ensures
        rebuilt_byte(p, psz, i, kb) == x & (((1u16 << (kb as u16)) - 1) as u8),
    decreases kb,
{
    if kb == 0 {
        assert(x & (((1u16 << 0u16) - 1) as u8) == 0) by (bit_vector);
    } else {
        lemma_rebuilt(p, psz, i, x, kb - 1);
        let has = p[(kb - 1) * psz + i / 8] & (1u8 << ((7 - i % 8) as u8)) != 0;
        assert(has == (bit(x, kb - 1) == 1));
        let km = (kb - 1) as u8;
        let k1 = (kb - 1) as u16;
        assert(km < 8 && k1 == km as u16 ==> {
            &&& ((x >> km) & 1 == 1 ==> (x & (((1u16 << k1) - 1) as u8)) | (1u8 << km) == x & (((1u16 << (k1 + 1)) - 1) as u8))
            &&& ((x >> km) & 1 != 1 ==> x & (((1u16 << k1) - 1) as u8) == x & (((1u16 << (k1 + 1)) - 1) as u8))
        }) by (bit_vector);
        assert((k1 + 1) as u16 == kb as u16);
    }
}

/// Decoding an encoding gives back the input, for inputs shorter than 2^32 bytes.
pub proof fn lemma_bitplane_roundtrip(d: Seq<u8>)
    requires
        d.len() <= u32::MAX,
    ensures
        bitplane_decoded(bitplane_encoded(d)) == d,
{
    lemma_le_lengths();
    let e = bitplane_encoded(d);
    if d.len() == 0 {
        lemma_u32_at(Seq::empty(), 0u32, Seq::empty());
        assert(Seq::<u8>::empty() + le32(0u32) + Seq::<u8>::empty() =~= e);
        assert(bitplane_decoded(e) =~= d);
    } else {
        let n = d.len() as int;
        let psz = plane_len(n);
        lemma_planes_shape(d, 8);
        lemma_u32_at(Seq::empty(), d.len() as u32, planes(d, 8));
        assert(Seq::<u8>::empty() + le32(d.len() as u32) + planes(d, 8) =~= e);
        let payload = e.subrange(4, e.len() as int);
        assert(payload =~= planes(d, 8));
        assert forall|i: int| 0 <= i < n implies #[trigger] rebuilt_byte(payload, psz, i, 8) == d[i] by {
            let j = i / 8;
            let m = i % 8;
            assert(0 <= j < psz);
            assert forall|b: int| 0 <= b < 8 implies
                (#[trigger] payload[b * psz + i / 8] & (1u8 << ((7 - i % 8) as u8)) != 0) == (bit(d[i], b) == 1) by {
                assert(payload[b * psz + j] == plane_byte(d, b, j, 8)) by {
                    lemma_planes_index(d, 8, b, j);
                }
                lemma_plane_byte_bits(d, b, j, 8);
                assert(8 * j + m == i);
                let y = plane_byte(d, b, j, 8);
                let t = (7 - m) as u8;
                assert(bit(y, 7 - m) == (y >> t) & 1);
                assert(t < 8 ==> ((y & (1u8 << t) != 0) == ((y >> t) & 1 == 1))) by (bit_vector);
            }
            lemma_rebuilt(payload, psz, i, d[i], 8);
            let x = d[i];
            assert(x & (((1u16 << 8u16) - 1) as u8) == x) by (bit_vector);
        }
        assert(bitplane_decoded(e) =~= d);
    }
}

proof fn lemma_planes_shape(d: Seq<u8>, k: int)
    requires
        0 <= k <= 8,
        d.len() > 0,
    ensures
        planes(d, k).len() == k * plane_len(d.len() as int),
    decreases k,
{
    if k > 0 {
        lemma_planes_shape(d, k - 1);
        let p = plane_len(d.len() as int);
        assert(plane(d, k - 1).len() == p);
        assert((k - 1) * p + p == k * p) by (nonlinear_arith);
    } else {
        let p = plane_len(d.len() as int);
        assert(k * p == 0) by (nonlinear_arith) requires k == 0;
    }
}

proof fn lemma_planes_index(d: Seq<u8>, k: int, b: int, j: int)
    requires
        0 <= b < k <= 8,
        0 <= j < plane_len(d.len() as int),
        d.len() > 0,
    ensures
        planes(d, k)[b * plane_len(d.len() as int) + j] == plane_byte(d, b, j, 8),
    decreases k,
{
    let psz = plane_len(d.len() as int);
    lemma_planes_shape(d, k - 1);
    assert(b * psz + j < k * psz) by (nonlinear_arith) requires b < k, j < psz, b >= 0, j >= 0;
    if b < k - 1 {
        assert(b * psz + j < (k - 1) * psz) by (nonlinear_arith) requires b < k - 1, j < psz, b >= 0, j >= 0;
        lemma_planes_index(d, k - 1, b, j);
    } else {
        assert(b * psz == (k - 1) * psz);
    }
}

fn plane_bytes(n: usize) -> (r: usize)
    ensures
        r == plane_len(n as int),
{
    n / 8 + if n % 8 != 0 { 1 } else { 0 }
}

/// Splits `data` into its eight bit planes.
pub fn encode(data: &[u8]) -> (r: Vec<u8>)
    ensures
        r@ == bitplane_encoded(data@),
{
    if data.len() == 0 {
        let mut z: Vec<u8> = Vec::new();
        push_u32_le(&mut z, 0);
        return z;
    }
    let n = data.len();
    let plane_sz = plane_bytes(n);
    let mut out: Vec<u8> = Vec::new();
    push_u32_le(&mut out, n as u32);
    let ghost header = out@;
    let mut bit_index: u8 = 0;
    while bit_index < 8
        invariant
            bit_index <= 8,
            n == data.len() > 0,
            plane_sz == plane_len(n as int),
            out@ == header + planes(data@, bit_index as int),
        decreases 8 - bit_index,
    {
        let mut pv: Vec<u8> = vec![0u8; plane_sz];
        let mut i: usize = 0;
        while i < n
            invariant
                i <= n == data.len(),
                bit_index < 8,
                plane_sz == plane_len(n as int),
                pv@.len() == plane_sz,
                forall|j: int| 0 <= j < plane_sz ==> #[trigger] pv@[j]
                    == plane_byte(data@, bit_index as int, j,
                        if i - 8 * j < 0 { 0 } else if i - 8 * j > 8 { 8 } else { i - 8 * j }),
            decreases n - i,
        {
            let b = data[i];
            if (b >> bit_index) & 1 != 0 {
                let j = i / 8;
                let s = (7 - i % 8) as u8;
                let cur = pv[j];
                pv.set(j, cur | (1u8 << s));
            }
            i = i + 1;
            assert forall|j: int| 0 <= j < plane_sz implies #[trigger] pv@[j]
                == plane_byte(data@, bit_index as int, j,
                    if i - 8 * j < 0 { 0 } else if i - 8 * j > 8 { 8 } else { i - 8 * j }) by {
                if j == (i - 1) / 8 {
                    assert(i - 8 * j == (i - 1) % 8 + 1);
                    assert((b >> bit_index) & 1 != 0 <==> bit(b, bit_index as int) == 1) by {
                        assert(((b >> bit_index) & 1 != 0) == ((b >> bit_index) & 1 == 1)) by (bit_vector);
                    }
                }
            }
        }
        assert(pv@ =~= plane(data@, bit_index as int)) by {
            assert forall|j: int| 0 <= j < plane_sz implies #[trigger] pv@[j] == plane_byte(data@, bit_index as int, j, 8) by {
                if n - 8 * j < 8 {
                    lemma_plane_byte_tail(data@, bit_index as int, j, n - 8 * j);
                }
            }
        }
        append_bytes(&mut out, pv.as_slice());
        bit_index = bit_index + 1;
        assert(out@ =~= header + planes(data@, bit_index as int));
    }
    out
}

proof fn lemma_plane_byte_tail(d: Seq<u8>, b: int, j: int, k: int)
    requires
        0 <= k <= 8,
        8 * j + k >= d.len(),
    ensures
        plane_byte(d, b, j, 8) == plane_byte(d, b, j, k),
{
    assert forall|kk: int| k <= kk <= 8 implies #[trigger] plane_byte(d, b, j, kk) == plane_byte(d, b, j, k) by {
        lemma_plane_byte_stable(d, b, j, k, kk);
    }
}

proof fn lemma_plane_byte_stable(d: Seq<u8>, b: int, j: int, k: int, kk: int)
    requires
        0 <= k <= kk,
        8 * j + k >= d.len(),
    ensures
        plane_byte(d, b, j, kk) == plane_byte(d, b, j, k),
    decreases kk,
{
    if kk > k {
        lemma_plane_byte_stable(d, b, j, k, kk - 1);
    }
}

/// Reassembles bytes from their bit planes.
pub fn decode(data: &[u8]) -> (r: Vec<u8>)
    ensures
        r@ == bitplane_decoded(data@),
{
    if data.len() < 4 {
        return Vec::new();
    }
    let n32 = read_u32_le(data, 0);
    if n32 == 0 {
        return Vec::new();
    }
    let payload = &data[4..data.len()];
    let psz64: u64 = (n32 as u64 + 7) / 8;
    if (payload.len() as u64) < psz64 * 8 {
        return Vec::new();
    }
    let n = n32 as usize;
    let plane_sz = psz64 as usize;
    let mut out: Vec<u8> = vec![0u8; n];
    let mut bit_index: usize = 0;
    while bit_index < 8
        invariant
            bit_index <= 8,
            n == n32 as int,
            plane_sz == plane_len(n as int),
            plane_sz * 8 <= payload.len(),
            n <= plane_sz * 8,
            out@.len() == n,
            forall|i: int| 0 <= i < n ==> #[trigger] out@[i] == rebuilt_byte(payload@, plane_sz as int, i, bit_index as int),
        decreases 8 - bit_index,
    {
        let mut i: usize = 0;
        while i < n
            invariant
                i <= n,
                bit_index < 8,
                n == n32 as int,
                plane_sz == plane_len(n as int),
                plane_sz * 8 <= payload.len(),
                n <= plane_sz * 8,
                out@.len() == n,
                forall|t: int| 0 <= t < n ==> #[trigger] out@[t] == rebuilt_byte(payload@, plane_sz as int, t,
                    if t < i { bit_index + 1 } else { bit_index as int }),
            decreases n - i,
        {
            assert(bit_index * plane_sz + i / 8 < 8 * plane_sz) by (nonlinear_arith)
                requires bit_index < 8, i / 8 < plane_sz;
            let pb = payload[bit_index * plane_sz + i / 8];
            let s = (7 - i % 8) as u8;
            if pb & (1u8 << s) != 0 {
                let cur = out[i];
                out.set(i, cur | (1u8 << (bit_index as u8)));
            }
            i = i + 1;
        }
        bit_index = bit_index + 1;
    }
    let r = out;
    assert(r@ =~= bitplane_decoded(data@));
    r
}

} // verus!
