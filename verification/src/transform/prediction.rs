//! Adaptive-order linear prediction over 1024-byte blocks.
//!
//! Each block is coded with the prediction order (0 to 3) whose residuals have the smallest
//! total magnitude: order 0 predicts 0, order 1 the previous byte, order 2 a linear and order 3 a
//! quadratic extrapolation of the previous bytes, all modulo 256.
//!
//! Layout: `[u32 length] [u16 block size] [orders, four 2-bit fields per byte] [residuals]`.
use vstd::prelude::*;
use vstd::wrapping::u8_specs;
use crate::bytes::{
    le16, le32, u16_at, u32_at, push_u16_le, push_u32_le, read_u16_le, read_u32_le, lemma_u16_at,
    lemma_u32_at, lemma_le_lengths, append_bytes,
};

verus! {

/// Size of a prediction block.
pub const BLOCK_SIZE: usize = 1024;

/// `2a - b` modulo 256.
pub open spec fn linear(a: u8, b: u8) -> u8 {
    u8_specs::wrapping_sub(u8_specs::wrapping_add(a, a), b)
}

/// `3a - 3b + c` modulo 256.
pub open spec fn quadratic(a: u8, b: u8, c: u8) -> u8 {
    u8_specs::wrapping_add(
        u8_specs::wrapping_sub(u8_specs::wrapping_add(u8_specs::wrapping_add(a, a), a),
            u8_specs::wrapping_add(u8_specs::wrapping_add(b, b), b)),
        c,
    )
}

/// The value predicted for `s[i]` from the bytes before it.
pub open spec fn predicted(s: Seq<u8>, i: int, order: u8) -> u8 {
    if order == 1 {
        if i >= 1 { s[i - 1] } else { 0 }
    } else if order == 2 {
        if i >= 2 {
            linear(s[i - 1], s[i - 2])
        } else if i >= 1 {
            s[i - 1]
        } else {
            0
        }
    } else if order == 3 {
        if i >= 3 {
            quadratic(s[i - 1], s[i - 2], s[i - 3])
        } else if i >= 2 {
            linear(s[i - 1], s[i - 2])
        } else if i >= 1 {
            s[i - 1]
        } else {
            0
        }
    } else {
        0
    }
}

/// Residuals of `block` under `order`.
pub open spec fn residuals_of(block: Seq<u8>, order: u8) -> Seq<u8> {
    Seq::new(block.len(), |i: int| u8_specs::wrapping_sub(block[i], predicted(block, i, order)))
}

/// The first `n` bytes rebuilt from residuals `r` under `order`.
pub open spec fn rebuilt(r: Seq<u8>, order: u8, n: int) -> Seq<u8>
    decreases n,
{
    if n <= 0 {
        Seq::empty()
    } else {
        let prev = rebuilt(r, order, n - 1);
        prev.push(u8_specs::wrapping_add(r[n - 1], predicted(prev, n - 1, order)))
    }
}

/// Total residual magnitude (each residual counted as its distance to 0 or to 255) over the
/// first `k` bytes.
pub open spec fn cost(block: Seq<u8>, order: u8, k: int) -> int
    decreases k,
{
    if k <= 0 {
        0
    } else {
        let r = u8_specs::wrapping_sub(block[k - 1], predicted(block, k - 1, order));
        cost(block, order, k - 1) + if r < 255 - r { r as int } else { 255 - r }
    }
}

/// The first order among 0..=3 with the smallest cost.
pub open spec fn best_order(block: Seq<u8>) -> u8 {
    let c0 = cost(block, 0, block.len() as int);
    let c1 = cost(block, 1, block.len() as int);
    let c2 = cost(block, 2, block.len() as int);
    let c3 = cost(block, 3, block.len() as int);
    let b1: (u8, int) = if c1 < c0 { (1, c1) } else { (0, c0) };
    let b2: (u8, int) = if c2 < b1.1 { (2, c2) } else { b1 };
    let b3: (u8, int) = if c3 < b2.1 { (3, c3) } else { b2 };
    b3.0
}

/// Block `k` of `d`.
pub open spec fn block(d: Seq<u8>, k: int) -> Seq<u8> {
    let start = k * 1024;
    let end = if (k + 1) * 1024 < d.len() { (k + 1) * 1024 } else { d.len() as int };
    d.subrange(start, end)
}

/// Number of blocks of `d`.
pub open spec fn block_count(n: int) -> int {
    (n + 1023) / 1024
}

/// Residuals of blocks `k..` of `d`.
pub open spec fn residual_stream(d: Seq<u8>, k: int) -> Seq<u8>
    decreases block_count(d.len() as int) - k,
{
    if k >= block_count(d.len() as int) || k < 0 {
        Seq::empty()
    } else {
        residuals_of(block(d, k), best_order(block(d, k))) + residual_stream(d, k + 1)
    }
}

/// Order of block `k` of `d`, 0 past the last block.
pub open spec fn order_at(d: Seq<u8>, k: int) -> u8 {
    if 0 <= k < block_count(d.len() as int) { best_order(block(d, k)) } else { 0 }
}

/// The orders of `d`, four 2-bit fields per byte, first block in the low bits.
pub open spec fn order_bytes(d: Seq<u8>) -> Seq<u8> {
    Seq::new(((block_count(d.len() as int) + 3) / 4) as nat, |j: int|
        order_at(d, 4 * j) | (order_at(d, 4 * j + 1) << 2u8) | (order_at(d, 4 * j + 2) << 4u8)
            | (order_at(d, 4 * j + 3) << 6u8))
}

/// Order byte `j` once the first `b` blocks have been chosen.
pub open spec fn packed_so_far(d: Seq<u8>, b: int, j: int) -> u8 {
    (if 4 * j < b { order_at(d, 4 * j) } else { 0u8 })
        | ((if 4 * j + 1 < b { order_at(d, 4 * j + 1) } else { 0u8 }) << 2u8)
        | ((if 4 * j + 2 < b { order_at(d, 4 * j + 2) } else { 0u8 }) << 4u8)
        | ((if 4 * j + 3 < b { order_at(d, 4 * j + 3) } else { 0u8 }) << 6u8)
}

proof fn lemma_or_field(a0: u8, a1: u8, a2: u8, a3: u8, x: u8)
    requires
        a0 <= 3 && a1 <= 3 && a2 <= 3 && a3 <= 3 && x <= 3,
    ensures
        (0u8 | (a1 << 2u8) | (a2 << 4u8) | (a3 << 6u8)) | (x << 0u8) == (x | (a1 << 2u8) | (a2 << 4u8) | (a3 << 6u8)),
        (a0 | (0u8 << 2u8) | (a2 << 4u8) | (a3 << 6u8)) | (x << 2u8) == (a0 | (x << 2u8) | (a2 << 4u8) | (a3 << 6u8)),
        (a0 | (a1 << 2u8) | (0u8 << 4u8) | (a3 << 6u8)) | (x << 4u8) == (a0 | (a1 << 2u8) | (x << 4u8) | (a3 << 6u8)),
        (a0 | (a1 << 2u8) | (a2 << 4u8) | (0u8 << 6u8)) | (x << 6u8) == (a0 | (a1 << 2u8) | (a2 << 4u8) | (x << 6u8)),
        x & 3 == x,
{
    assert(a0 <= 3 && a1 <= 3 && a2 <= 3 && a3 <= 3 && x <= 3 ==> {
        &&& (0u8 | (a1 << 2u8) | (a2 << 4u8) | (a3 << 6u8)) | (x << 0u8) == (x | (a1 << 2u8) | (a2 << 4u8) | (a3 << 6u8))
        &&& (a0 | (0u8 << 2u8) | (a2 << 4u8) | (a3 << 6u8)) | (x << 2u8) == (a0 | (x << 2u8) | (a2 << 4u8) | (a3 << 6u8))
        &&& (a0 | (a1 << 2u8) | (0u8 << 4u8) | (a3 << 6u8)) | (x << 4u8) == (a0 | (a1 << 2u8) | (x << 4u8) | (a3 << 6u8))
        &&& (a0 | (a1 << 2u8) | (a2 << 4u8) | (0u8 << 6u8)) | (x << 6u8) == (a0 | (a1 << 2u8) | (a2 << 4u8) | (x << 6u8))
        &&& x & 3 == x
    }) by (bit_vector);
}

/// Setting block `b`'s field in its byte moves the packing from `b` to `b + 1` blocks.
proof fn lemma_pack_step(d: Seq<u8>, b: int)
    requires
        0 <= b < block_count(d.len() as int),
    ensures
        packed_so_far(d, b, b / 4) | (order_at(d, b) << (((b % 4) * 2) as u8)) == packed_so_far(d, b + 1, b / 4),
        forall|j: int| j != b / 4 ==> #[trigger] packed_so_far(d, b + 1, j) == packed_so_far(d, b, j),
        order_at(d, b) & 3 == order_at(d, b),
        order_at(d, b) <= 3,
{
    let j = b / 4;
    let m = b % 4;
    let c0 = if 4 * j < b { order_at(d, 4 * j) } else { 0u8 };
    let c1 = if 4 * j + 1 < b { order_at(d, 4 * j + 1) } else { 0u8 };
    let c2 = if 4 * j + 2 < b { order_at(d, 4 * j + 2) } else { 0u8 };
    let c3 = if 4 * j + 3 < b { order_at(d, 4 * j + 3) } else { 0u8 };
    lemma_order_at_small(d, 4 * j);
    lemma_order_at_small(d, 4 * j + 1);
    lemma_order_at_small(d, 4 * j + 2);
    lemma_order_at_small(d, 4 * j + 3);
    lemma_order_at_small(d, b);
    let x = order_at(d, b);
    lemma_or_field(c0, c1, c2, c3, x);
    assert(b == 4 * j + m);
    if m == 0 {
        assert(c0 == 0u8);
        assert(c1 == 0u8 && c2 == 0u8 && c3 == 0u8);
    } else if m == 1 {
        assert(c1 == 0u8 && c2 == 0u8 && c3 == 0u8);
    } else if m == 2 {
        assert(c2 == 0u8 && c3 == 0u8);
    } else {
        assert(c3 == 0u8);
    }
    assert forall|jj: int| jj != b / 4 implies #[trigger] packed_so_far(d, b + 1, jj) == packed_so_far(d, b, jj) by {
        assert(4 * jj != b && 4 * jj + 1 != b && 4 * jj + 2 != b && 4 * jj + 3 != b);
    }
}

proof fn lemma_order_at_small(d: Seq<u8>, k: int)
    ensures
        order_at(d, k) <= 3,
{
}

/// The encoding of `d`.
pub open spec fn prediction_encoded(d: Seq<u8>) -> Seq<u8> {
    if d.len() == 0 {
        le32(0)
    } else {
        le32(d.len() as u32) + le16(1024) + order_bytes(d) + residual_stream(d, 0)
    }
}

/// Blocks `k..nb` rebuilt from residual data `rd` starting at `pos`; stops at the first block
/// whose residuals are not all present.
pub open spec fn rebuilt_blocks(ob: Seq<u8>, rd: Seq<u8>, n: int, bs: int, nb: int, k: int, pos: int) -> Seq<u8>
    decreases nb - k,
{
    if k >= nb || k < 0 || bs <= 0 || pos < 0 {
        Seq::empty()
    } else {
        let order = (ob[k / 4] >> (((k % 4) * 2) as u8)) & 3;
        let len = if k == nb - 1 { n - k * bs } else { bs };
        if len < 0 || pos + len > rd.len() {
            Seq::empty()
        } else {
            rebuilt(rd.subrange(pos, pos + len), order, len) + rebuilt_blocks(ob, rd, n, bs, nb, k + 1, pos + len)
        }
    }
}

/// What decoding `data` yields.
pub open spec fn prediction_decoded(data: Seq<u8>) -> Seq<u8> {
    if data.len() < 6 {
        Seq::empty()
    } else {
        let n = u32_at(data, 0) as int;
        let bs = u16_at(data, 4) as int;
        if n == 0 || bs == 0 {
            Seq::empty()
        } else {
            let nb = (n + bs - 1) / bs;
            let obl = (nb + 3) / 4;
            if data.len() < 6 + obl {
                Seq::empty()
            } else {
                let all = rebuilt_blocks(data.subrange(6, 6 + obl), data.subrange(6 + obl, data.len() as int),
                    n, bs, nb, 0, 0);
                if all.len() > n { all.subrange(0, n) } else { all }
            }
        }
    }
}

proof fn lemma_rebuilt_len(r: Seq<u8>, order: u8, n: int)
    requires
        0 <= n,
    ensures
        rebuilt(r, order, n).len() == n,
    decreases n,
{
    if n > 0 {
        lemma_rebuilt_len(r, order, n - 1);
    }
}

proof fn lemma_predicted_prefix(s: Seq<u8>, t: Seq<u8>, i: int, order: u8)
    requires
        0 <= i <= s.len(),
        i <= t.len(),
        s.subrange(0, i) == t.subrange(0, i),
    ensures
        predicted(s, i, order) == predicted(t, i, order),
{
    if i >= 1 {
        assert(s[i - 1] == s.subrange(0, i)[i - 1]);
        assert(t[i - 1] == t.subrange(0, i)[i - 1]);
    }
    if i >= 2 {
        assert(s[i - 2] == s.subrange(0, i)[i - 2]);
        assert(t[i - 2] == t.subrange(0, i)[i - 2]);
    }
    if i >= 3 {
        assert(s[i - 3] == s.subrange(0, i)[i - 3]);
        assert(t[i - 3] == t.subrange(0, i)[i - 3]);
    }
}

/// Rebuilding from the residuals of a block under any order gives the block back.
pub proof fn lemma_block_roundtrip(b: Seq<u8>, order: u8, n: int)
    requires
        0 <= n <= b.len(),
    ensures
        rebuilt(residuals_of(b, order), order, n) == b.subrange(0, n),
    decreases n,
{
    if n > 0 {
        lemma_block_roundtrip(b, order, n - 1);
        let prev = rebuilt(residuals_of(b, order), order, n - 1);
        lemma_rebuilt_len(residuals_of(b, order), order, n - 1);
        assert(prev.subrange(0, n - 1) =~= b.subrange(0, n - 1));
        lemma_predicted_prefix(prev, b, n - 1, order);
        assert(b.subrange(0, n) =~= b.subrange(0, n - 1).push(b[n - 1]));
    }
}

fn predict_value(s: &[u8], i: usize, order: u8) -> (r: u8)
    requires
        i <= s@.len(),
    ensures
        r == predicted(s@, i as int, order),
{
    if order == 1 {
        if i >= 1 { s[i - 1] } else { 0 }
    } else if order == 2 {
        if i >= 2 {
            let a = s[i - 1];
            a.wrapping_add(a).wrapping_sub(s[i - 2])
        } else if i >= 1 {
            s[i - 1]
        } else {
            0
        }
    } else if order == 3 {
        if i >= 3 {
            let a = s[i - 1];
            let b = s[i - 2];
            a.wrapping_add(a).wrapping_add(a).wrapping_sub(b.wrapping_add(b).wrapping_add(b)).wrapping_add(s[i - 3])
        } else if i >= 2 {
            let a = s[i - 1];
            a.wrapping_add(a).wrapping_sub(s[i - 2])
        } else if i >= 1 {
            s[i - 1]
        } else {
            0
        }
    } else {
        0
    }
}

/// The prediction cost of `block` under `order`: the sum over its bytes of the residual's
/// distance to 0 or to 255.
pub fn predict_cost(block: &[u8], order: u8) -> (r: u64)
    requires
        block.len() <= u32::MAX,
    ensures
        r == cost(block@, order, block.len() as int),
{
    let mut c: u64 = 0;
    let mut i: usize = 0;
    while i < block.len()
        invariant
            block.len() <= u32::MAX,
            i <= block.len(),
            c == cost(block@, order, i as int),
            c <= 255 * i,
        decreases block.len() - i,
    {
        let residual = block[i].wrapping_sub(predict_value(block, i, order));
        let m = if residual < 255 - residual { residual } else { 255 - residual };
        c = c + m as u64;
        i = i + 1;
    }
    c
}

fn predict_encode(block: &[u8], order: u8, out: &mut Vec<u8>)
    ensures
        final(out)@ == old(out)@ + residuals_of(block@, order),
{
    let ghost start = out@;
    let mut i: usize = 0;
    while i < block.len()
        invariant
            i <= block.len(),
            out@ == start + residuals_of(block@, order).subrange(0, i as int),
        decreases block.len() - i,
    {
        out.push(block[i].wrapping_sub(predict_value(block, i, order)));
        i = i + 1;
        assert(out@ =~= start + residuals_of(block@, order).subrange(0, i as int));
    }
    assert(residuals_of(block@, order).subrange(0, i as int) =~= residuals_of(block@, order));
}

fn predict_decode(res: &[u8], order: u8) -> (r: Vec<u8>)
    ensures
        r@ == rebuilt(res@, order, res@.len() as int),
{
    let mut result: Vec<u8> = Vec::new();
    let mut i: usize = 0;
    while i < res.len()
        invariant
            i <= res.len(),
            result@ == rebuilt(res@, order, i as int),
        decreases res.len() - i,
    {
        proof { lemma_rebuilt_len(res@, order, i as int); }
        let p = predict_value(result.as_slice(), i, order);
        result.push(res[i].wrapping_add(p));
        i = i + 1;
    }
    result
}

fn choose_order(block: &[u8]) -> (r: u8)
    requires
        block.len() <= 1024,
    ensures
        r == best_order(block@),
        r <= 3,
{
    let mut best_order: u8 = 0;
    let mut best_cost: u64 = predict_cost(block, 0);
    let c1 = predict_cost(block, 1);
    if c1 < best_cost {
        best_cost = c1;
        best_order = 1;
    }
    let c2 = predict_cost(block, 2);
    if c2 < best_cost {
        best_cost = c2;
        best_order = 2;
    }
    let c3 = predict_cost(block, 3);
    if c3 < best_cost {
        best_cost = c3;
        best_order = 3;
    }
    best_order
}

proof fn lemma_pack_orders(o0: u8, o1: u8, o2: u8, o3: u8)
    requires
        o0 <= 3 && o1 <= 3 && o2 <= 3 && o3 <= 3,
    ensures
        ((o0 | (o1 << 2u8) | (o2 << 4u8) | (o3 << 6u8)) >> 0u8) & 3 == o0,
        ((o0 | (o1 << 2u8) | (o2 << 4u8) | (o3 << 6u8)) >> 2u8) & 3 == o1,
        ((o0 | (o1 << 2u8) | (o2 << 4u8) | (o3 << 6u8)) >> 4u8) & 3 == o2,
        ((o0 | (o1 << 2u8) | (o2 << 4u8) | (o3 << 6u8)) >> 6u8) & 3 == o3,
{
    assert(o0 <= 3 && o1 <= 3 && o2 <= 3 && o3 <= 3 ==> {
        &&& ((o0 | (o1 << 2u8) | (o2 << 4u8) | (o3 << 6u8)) >> 0u8) & 3 == o0
        &&& ((o0 | (o1 << 2u8) | (o2 << 4u8) | (o3 << 6u8)) >> 2u8) & 3 == o1
        &&& ((o0 | (o1 << 2u8) | (o2 << 4u8) | (o3 << 6u8)) >> 4u8) & 3 == o2
        &&& ((o0 | (o1 << 2u8) | (o2 << 4u8) | (o3 << 6u8)) >> 6u8) & 3 == o3
    }) by (bit_vector);
}

/// Layout facts about the blocks of `d`.
proof fn lemma_blocks(d: Seq<u8>, k: int)
    requires
        0 <= k < block_count(d.len() as int),
    ensures
        k * 1024 < d.len(),
        block(d, k).len() == if k == block_count(d.len() as int) - 1 { d.len() - k * 1024 } else { 1024 },
        block(d, k).len() <= 1024,
{
}

proof fn lemma_stream_len(d: Seq<u8>, k: int)
    requires
        0 <= k <= block_count(d.len() as int),
    ensures
        residual_stream(d, k).len() == d.len() - k * 1024 || (k == block_count(d.len() as int) && residual_stream(d, k).len() == 0),
        k < block_count(d.len() as int) ==> residual_stream(d, k).len() == d.len() - k * 1024,
    decreases block_count(d.len() as int) - k,
{
    if k < block_count(d.len() as int) {
        lemma_blocks(d, k);
        lemma_stream_len(d, k + 1);
    }
}

proof fn lemma_rebuilt_blocks(d: Seq<u8>, ob: Seq<u8>, rd: Seq<u8>, k: int, pos: int)
    requires
        0 <= k <= block_count(d.len() as int),
        0 <= pos <= rd.len(),
        d.len() > 0,
        rd.subrange(pos, rd.len() as int) == residual_stream(d, k),
        forall|m: int| 0 <= m < block_count(d.len() as int) ==>
            #[trigger] ((ob[m / 4] >> (((m % 4) * 2) as u8)) & 3) == best_order(block(d, m)),
    ensures
        rebuilt_blocks(ob, rd, d.len() as int, 1024, block_count(d.len() as int), k, pos)
            == d.subrange(k * 1024, d.len() as int) || k == block_count(d.len() as int),
        k < block_count(d.len() as int) ==>
            rebuilt_blocks(ob, rd, d.len() as int, 1024, block_count(d.len() as int), k, pos)
            == d.subrange(k * 1024, d.len() as int),
    decreases block_count(d.len() as int) - k,
{
    let nb = block_count(d.len() as int);
    if k < nb {
        lemma_blocks(d, k);
        let b = block(d, k);
        let len = b.len() as int;
        let rk = residuals_of(b, best_order(b));
        let tail = residual_stream(d, k + 1);
        assert(residual_stream(d, k) == rk + tail);
        assert(rd.subrange(pos, rd.len() as int).subrange(0, len) =~= rd.subrange(pos, pos + len));
        assert(rd.subrange(pos, pos + len) =~= rk);
        let sub = rd.subrange(pos, rd.len() as int);
        assert(sub.subrange(len, sub.len() as int) =~= tail);
        assert(rd.subrange(pos + len, rd.len() as int) =~= sub.subrange(len, sub.len() as int));
        lemma_block_roundtrip(b, best_order(b), len);
        assert(b.subrange(0, len) =~= b);
        lemma_rebuilt_blocks(d, ob, rd, k + 1, pos + len);
        if k + 1 < nb {
            assert(d.subrange(k * 1024, d.len() as int) =~= b + d.subrange((k + 1) * 1024, d.len() as int));
        } else {
            assert(rebuilt_blocks(ob, rd, d.len() as int, 1024, nb, k + 1, pos + len) =~= Seq::<u8>::empty());
            assert(d.subrange(k * 1024, d.len() as int) =~= b + Seq::<u8>::empty());
        }
    }
}

#[verifier::spinoff_prover]
#[verifier::rlimit(40)]
proof fn lemma_order_field(d: Seq<u8>, m: int)
    requires
        0 <= m < block_count(d.len() as int),
    ensures
        ((order_bytes(d)[m / 4] >> (((m % 4) * 2) as u8)) & 3) == best_order(block(d, m)),
{
    let j = m / 4;
    lemma_order_at_small(d, 4 * j);
    lemma_order_at_small(d, 4 * j + 1);
    lemma_order_at_small(d, 4 * j + 2);
    lemma_order_at_small(d, 4 * j + 3);
    lemma_pack_orders(order_at(d, 4 * j), order_at(d, 4 * j + 1), order_at(d, 4 * j + 2), order_at(d, 4 * j + 3));
    assert(m == 4 * j + m % 4);
}

/// Decoding an encoding gives back the input, for inputs shorter than 2^32 bytes.
pub proof fn lemma_prediction_roundtrip(d: Seq<u8>)
    requires
        d.len() <= u32::MAX,
    ensures
        prediction_decoded(prediction_encoded(d)) == d,
{
    lemma_le_lengths();
    let e = prediction_encoded(d);
    if d.len() == 0 {
        lemma_u32_at(Seq::empty(), 0u32, Seq::empty());
        assert(Seq::<u8>::empty() + le32(0u32) + Seq::<u8>::empty() =~= e);
    } else {
        let ob = order_bytes(d);
        let rs = residual_stream(d, 0);
        lemma_u32_at(Seq::empty(), d.len() as u32, le16(1024) + ob + rs);
        assert(Seq::<u8>::empty() + le32(d.len() as u32) + (le16(1024) + ob + rs) =~= e);
        lemma_u16_at(le32(d.len() as u32), 1024u16, ob + rs);
        assert(le32(d.len() as u32) + le16(1024) + (ob + rs) =~= e);
        let nb = block_count(d.len() as int);
        let obl = (nb + 3) / 4;
        assert(e.subrange(6, 6 + obl) =~= ob);
        assert(e.subrange(6 + obl, e.len() as int) =~= rs);
        assert forall|m: int| 0 <= m < nb implies
            #[trigger] ((ob[m / 4] >> (((m % 4) * 2) as u8)) & 3) == best_order(block(d, m)) by {
            lemma_order_field(d, m);
        }
        assert(rs.subrange(0, rs.len() as int) =~= rs);
        lemma_rebuilt_blocks(d, ob, rs, 0, 0);
        assert(d.subrange(0, d.len() as int) =~= d);
    }
}

/// Encodes `data` with per-block adaptive prediction.
pub fn encode(data: &[u8]) -> (r: Vec<u8>)
    ensures
        r@ == prediction_encoded(data@),
{
    let mut result: Vec<u8> = Vec::new();
    if data.len() == 0 {
        push_u32_le(&mut result, 0);
        return result;
    }
    let num_blocks = data.len() / BLOCK_SIZE + if data.len() % BLOCK_SIZE != 0 { 1 } else { 0 };
    assert(num_blocks == block_count(data@.len() as int));
    let order_len = num_blocks / 4 + if num_blocks % 4 != 0 { 1 } else { 0 };
    let mut order_buf: Vec<u8> = vec![0u8; order_len];
    let mut residuals: Vec<u8> = Vec::new();
    let mut b: usize = 0;
    assert(0u8 | (0u8 << 2u8) | (0u8 << 4u8) | (0u8 << 6u8) == 0) by (bit_vector);
    while b < num_blocks
        invariant
            num_blocks == block_count(data@.len() as int),
            order_len == (num_blocks + 3) / 4,
            order_buf@.len() == order_len,
            b <= num_blocks,
            residuals@ + residual_stream(data@, b as int) == residual_stream(data@, 0),
            forall|j: int| 0 <= j < order_len ==> #[trigger] order_buf@[j] == packed_so_far(data@, b as int, j),
        decreases num_blocks - b,
    {
        proof { lemma_blocks(data@, b as int); }
        assert(b * 1024 < data.len());
        let start = b * BLOCK_SIZE;
        let end = if data.len() - start > BLOCK_SIZE { start + BLOCK_SIZE } else { data.len() };
        let blk = &data[start..end];
        let order = choose_order(blk);
        predict_encode(blk, order, &mut residuals);
        let j = b / 4;
        let shift = ((b % 4) * 2) as u8;
        let cur = order_buf[j];
        proof {
            assert(blk@ == block(data@, b as int));
            lemma_pack_step(data@, b as int);
        }
        order_buf.set(j, cur | ((order & 3) << shift));
        b = b + 1;
        assert(residuals@ + residual_stream(data@, b as int) =~= residual_stream(data@, 0));
    }
    assert(order_buf@ =~= order_bytes(data@)) by {
        assert forall|j: int| 0 <= j < order_len implies #[trigger] order_buf@[j] == order_bytes(data@)[j] by {
            assert(packed_so_far(data@, num_blocks as int, j) == order_bytes(data@)[j]);
        }
    }
    push_u32_le(&mut result, data.len() as u32);
    push_u16_le(&mut result, BLOCK_SIZE as u16);
    append_bytes(&mut result, order_buf.as_slice());
    append_bytes(&mut result, residuals.as_slice());
    assert(residuals@ =~= residual_stream(data@, 0));
    result
}

/// Reverses [`encode`].
pub fn decode(data: &[u8]) -> (r: Vec<u8>)
    ensures
        r@ == prediction_decoded(data@),
{
    if data.len() < 6 {
        return Vec::new();
    }
    let n32 = read_u32_le(data, 0);
    let bs16 = read_u16_le(data, 4);
    if n32 == 0 || bs16 == 0 {
        return Vec::new();
    }
    let original_len = n32 as u64;
    let block_size = bs16 as u64;
    let num_blocks: u64 = original_len / block_size + if original_len % block_size != 0 { 1 } else { 0 };
    assert(num_blocks == (original_len + block_size - 1) as int / block_size as int) by (nonlinear_arith)
        requires num_blocks == original_len / block_size + if original_len % block_size != 0 { 1int } else { 0int },
            block_size > 0;
    let order_len64: u64 = (num_blocks + 3) / 4;
    if (data.len() as u64) < 6 + order_len64 {
        return Vec::new();
    }
    let order_len = order_len64 as usize;
    let order_bytes = &data[6..6 + order_len];
    let residual_data = &data[6 + order_len..data.len()];
    let ghost ob = order_bytes@;
    let ghost rd = residual_data@;
    let ghost n = original_len as int;
    let ghost bs = block_size as int;
    let ghost nb = num_blocks as int;
    let ghost whole = rebuilt_blocks(ob, rd, n, bs, nb, 0, 0);
    let mut result: Vec<u8> = Vec::new();
    let mut pos: usize = 0;
    let mut b: u64 = 0;
    assert(Seq::<u8>::empty() + whole =~= whole);
    while b < num_blocks
        invariant
            0 < block_size <= 65535,
            0 < original_len <= u32::MAX,
            n == original_len,
            bs == block_size,
            nb == num_blocks,
            ob == order_bytes@,
            rd == residual_data@,
            whole == rebuilt_blocks(ob, rd, n, bs, nb, 0, 0),
            num_blocks == (original_len + block_size - 1) as int / block_size as int,
            order_len == (num_blocks + 3) / 4,
            order_bytes@.len() == order_len,
            b <= num_blocks,
            pos <= residual_data@.len(),
            b < num_blocks ==> b * block_size < original_len,
            result@ + rebuilt_blocks(ob, rd, n, bs, nb, b as int, pos as int) == whole,
        ensures
            result@ == whole,
        decreases num_blocks - b,
    {
        let order = (order_bytes[(b / 4) as usize] >> (((b % 4) * 2) as u8)) & 3;
        let block_len64: u64 = if b == num_blocks - 1 { original_len - b * block_size } else { block_size };
        let block_len = block_len64 as usize;
        if block_len > residual_data.len() - pos {
            assert(rebuilt_blocks(ob, rd, n, bs, nb, b as int, pos as int) =~= Seq::<u8>::empty());
            assert(result@ + Seq::<u8>::empty() =~= result@);
            break;
        }
        let dec = predict_decode(&residual_data[pos..pos + block_len], order);
        let ghost before = result@;
        append_bytes(&mut result, dec.as_slice());
        pos = pos + block_len;
        b = b + 1;
        proof {
            if b < num_blocks {
                assert(b * block_size < original_len) by (nonlinear_arith)
                    requires b < num_blocks, num_blocks == (original_len + block_size - 1) as int / block_size as int, block_size > 0;
            }
            assert(before + (dec@ + rebuilt_blocks(ob, rd, n, bs, nb, b as int, pos as int))
                =~= result@ + rebuilt_blocks(ob, rd, n, bs, nb, b as int, pos as int));
        }
        proof {
            if b == num_blocks {
                assert(rebuilt_blocks(ob, rd, n, bs, nb, b as int, pos as int) =~= Seq::<u8>::empty());
                assert(result@ + Seq::<u8>::empty() =~= result@);
            }
        }
    }
    if result.len() > n32 as usize {
        result.truncate(n32 as usize);
    }
    result
}

} // verus!
