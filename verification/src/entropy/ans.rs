//! rANS (range asymmetric numeral systems) entropy coder with a 32-bit state, byte-wise
//! renormalisation and 14-bit probabilities.
//!
//! Format: `[4-byte original length] [256 x 4-byte frequency table] [4-byte final state]
//! [renormalisation bytes]`; the empty input encodes as four zero bytes.
use vstd::prelude::*;
use crate::bytes::{le32, u32_at, lemma_le_lengths, push_u32_le, read_u32_le};

verus! {

pub const RANS_L: u32 = 0x80_0000;
pub const PROB_SCALE: u32 = 16384;

// ---------------------------------------------------------------------------------------------
// Frequencies
// ---------------------------------------------------------------------------------------------

/// How often `b` occurs in `d`.
pub open spec fn count_of(d: Seq<u8>, b: int) -> nat
    decreases d.len(),
{
    if d.len() == 0 {
        0
    } else {
        count_of(d.drop_last(), b) + if d.last() == b { 1nat } else { 0nat }
    }
}

/// The byte histogram of `d`.
pub open spec fn histogram(d: Seq<u8>) -> Seq<int> {
    Seq::new(256, |b: int| count_of(d, b) as int)
}

/// A count scaled to the probability scale, at least 1 when the count is positive.
pub open spec fn scaled(c: int, total: int) -> int {
    if c <= 0 {
        0
    } else {
        let f = c * (PROB_SCALE as int) / total;
        if f < 1 { 1 } else { f }
    }
}

/// The sum of `s[0..k]`.
pub open spec fn sum_to(s: Seq<int>, k: int) -> int
    decreases k,
{
    if k <= 0 {
        0
    } else {
        sum_to(s, k - 1) + s[k - 1]
    }
}

/// The index of the last largest positive count among `raw[0..k]`, or `best` when none beats it.
pub open spec fn last_max_from(raw: Seq<int>, k: int, best: int) -> int
    decreases 256 - k,
{
    if k >= 256 {
        best
    } else if raw[k] > 0 && (best < 0 || raw[k] >= raw[best]) {
        last_max_from(raw, k + 1, k)
    } else {
        last_max_from(raw, k + 1, best)
    }
}

/// The index of the last most frequent byte (0 when every count is zero).
pub open spec fn last_max(raw: Seq<int>) -> int {
    let m = last_max_from(raw, 0, -1);
    if m < 0 { 0 } else { m }
}

/// The number of positive counts.
pub open spec fn nonzero_count(raw: Seq<int>, k: int) -> int
    decreases k,
{
    if k <= 0 {
        0
    } else {
        nonzero_count(raw, k - 1) + if raw[k - 1] > 0 { 1int } else { 0int }
    }
}

/// The counts scaled to sum to `PROB_SCALE`: each positive count scaled down (at least 1), then
/// the difference to `PROB_SCALE` added to the last most frequent byte when that leaves it
/// positive.
pub open spec fn normalized(raw: Seq<int>, total: int) -> Seq<int> {
    let pre = Seq::new(256, |i: int| scaled(raw[i], total));
    let assigned = sum_to(pre, 256);
    if assigned != PROB_SCALE as int && nonzero_count(raw, 256) > 0 {
        let m = last_max(raw);
        let nv = pre[m] + (PROB_SCALE as int - assigned);
        if nv > 0 { pre.update(m, nv) } else { pre }
    } else {
        pre
    }
}

proof fn lemma_count_bound(d: Seq<u8>, b: int)
    ensures
        count_of(d, b) <= d.len(),
    decreases d.len(),
{
    if d.len() > 0 {
        lemma_count_bound(d.drop_last(), b);
    }
}

proof fn lemma_sum_nonneg_bound(s: Seq<int>, k: int, i: int, hi: int)
    requires
        0 <= i < k <= s.len(),
        forall|j: int| 0 <= j < s.len() ==> 0 <= #[trigger] s[j] <= hi,
    ensures
        s[i] <= sum_to(s, k),
        0 <= sum_to(s, k) <= k * hi,
    decreases k,
{
    lemma_sum_bound(s, k, hi);
    assert(sum_to(s, k) == sum_to(s, k - 1) + s[k - 1]);
    if k - 1 > i {
        lemma_sum_nonneg_bound(s, k - 1, i, hi);
        assert(0 <= s[k - 1]);
    } else {
        lemma_sum_bound(s, k - 1, hi);
    }
}

proof fn lemma_sum_bound(s: Seq<int>, k: int, hi: int)
    requires
        0 <= k <= s.len(),
        forall|j: int| 0 <= j < s.len() ==> 0 <= #[trigger] s[j] <= hi,
    ensures
        0 <= sum_to(s, k) <= k * hi,
    decreases k,
{
    if k > 0 {
        lemma_sum_bound(s, k - 1, hi);
        assert(sum_to(s, k) == sum_to(s, k - 1) + s[k - 1]);
        assert(0 <= s[k - 1] <= hi);
        let a = sum_to(s, k - 1);
        let b = s[k - 1];
        assert(a + b <= k * hi) by (nonlinear_arith)
            requires
                a <= (k - 1) * hi,
                b <= hi,
        ;
    } else {
        assert(k * hi == 0) by (nonlinear_arith)
            requires
                k == 0,
        ;
    }
}

proof fn lemma_last_max_range(raw: Seq<int>, k: int, best: int)
    requires
        0 <= k <= 256,
        -1 <= best < 256,
    ensures
        -1 <= last_max_from(raw, k, best) < 256,
    decreases 256 - k,
{
    if k < 256 {
        if raw[k] > 0 && (best < 0 || raw[k] >= raw[best]) {
            lemma_last_max_range(raw, k + 1, k);
        } else {
            lemma_last_max_range(raw, k + 1, best);
        }
    }
}

/// Every normalised frequency lies in `0 ..= PROB_SCALE`.
proof fn lemma_normalized_bound(raw: Seq<int>, total: int)
    requires
        raw.len() == 256,
        total > 0,
        forall|i: int| 0 <= i < 256 ==> 0 <= #[trigger] raw[i] <= total,
    ensures
        normalized(raw, total).len() == 256,
        forall|i: int| 0 <= i < 256 ==> 0 <= #[trigger] normalized(raw, total)[i] <= PROB_SCALE,
        forall|i: int| 0 <= i < 256 ==> 0 <= #[trigger] scaled(raw[i], total) <= PROB_SCALE,
{
    let pre = Seq::new(256, |i: int| scaled(raw[i], total));
    assert forall|i: int| 0 <= i < 256 implies 0 <= #[trigger] scaled(raw[i], total) <= PROB_SCALE by {
        let c = raw[i];
        if c > 0 {
            assert(c * (PROB_SCALE as int) / total <= PROB_SCALE) by (nonlinear_arith)
                requires
                    0 < c <= total,
            ;
            assert(c * (PROB_SCALE as int) / total >= 0) by (nonlinear_arith)
                requires
                    0 < c <= total,
            ;
        }
    }
    lemma_sum_bound(pre, 256, PROB_SCALE as int);
    lemma_last_max_range(raw, 0, -1);
    let m = last_max(raw);
    lemma_sum_nonneg_bound(pre, 256, m, PROB_SCALE as int);
}

// ---------------------------------------------------------------------------------------------
// Encoding
// ---------------------------------------------------------------------------------------------

/// The start of symbol `s`'s slot range: the sum of the frequencies below it.
pub open spec fn cum(norm: Seq<int>, s: int) -> int {
    sum_to(norm, s)
}

/// Renormalisation before encoding a symbol of frequency `freq`: the low bytes shifted out
/// while the state is too large, and the state left.
pub open spec fn shift_out(state: int, freq: int) -> (int, Seq<u8>)
    decreases state,
{
    if freq > 0 && state >= freq * 131072 && state > 0 {
        let r = shift_out(state / 256, freq);
        (r.0, seq![(state % 256) as u8] + r.1)
    } else {
        (state, Seq::empty())
    }
}

/// One encoding step of `sym` on `(state, bytes)`.
pub open spec fn enc_step(st: (int, Seq<u8>), sym: int, norm: Seq<int>) -> (int, Seq<u8>) {
    let freq = norm[sym];
    if freq == 0 {
        st
    } else {
        let r = shift_out(st.0, freq);
        (r.0 / freq * (PROB_SCALE as int) + r.0 % freq + cum(norm, sym), st.1 + r.1)
    }
}

/// State and renormalisation bytes after encoding the last `m` symbols of `d`, last first.
pub open spec fn enc_run(d: Seq<u8>, norm: Seq<int>, m: int) -> (int, Seq<u8>)
    decreases m,
{
    if m <= 0 {
        (RANS_L as int, Seq::empty())
    } else {
        enc_step(enc_run(d, norm, m - 1), d[d.len() - m] as int, norm)
    }
}

/// The little-endian bytes of each entry of `s`, in order.
pub open spec fn table_bytes(s: Seq<int>) -> Seq<u8>
    decreases s.len(),
{
    if s.len() == 0 {
        Seq::empty()
    } else {
        table_bytes(s.drop_last()) + le32(s.last() as u32)
    }
}

/// The rANS encoding of `d`.
pub open spec fn ans_encoded(d: Seq<u8>) -> Seq<u8> {
    if d.len() == 0 {
        seq![0u8, 0u8, 0u8, 0u8]
    } else {
        let norm = normalized(histogram(d), d.len() as int);
        let r = enc_run(d, norm, d.len() as int);
        le32(d.len() as u32) + table_bytes(norm) + le32(r.0 as u32) + r.1.reverse()
    }
}

fn normalize_freqs(raw: &Vec<u32>, total: usize) -> (r: Vec<u32>)
    requires
        raw@.len() == 256,
        total > 0,
        forall|i: int| 0 <= i < 256 ==> #[trigger] raw@[i] <= total,
    ensures
        r@.len() == 256,
        forall|i: int| 0 <= i < 256 ==> #[trigger] r@[i] as int == normalized(raw@.map_values(|c: u32| c as int), total as int)[i],
        forall|i: int| 0 <= i < 256 ==> #[trigger] r@[i] <= PROB_SCALE,
{
    let ghost rawi = raw@.map_values(|c: u32| c as int);
    let ghost pre = Seq::new(256, |i: int| scaled(rawi[i], total as int));
    proof {
        lemma_normalized_bound(rawi, total as int);
        assert(normalized(rawi, total as int) == {
            let assigned = sum_to(pre, 256);
            if assigned != PROB_SCALE as int && nonzero_count(rawi, 256) > 0 {
                let m = last_max(rawi);
                let nv = pre[m] + (PROB_SCALE as int - assigned);
                if nv > 0 { pre.update(m, nv) } else { pre }
            } else {
                pre
            }
        });
    }
    let mut result: Vec<u32> = Vec::new();
    let mut assigned: u32 = 0;
    let mut num_nonzero: u32 = 0;
    let mut max_idx: usize = 0;
    let mut have_max = false;
    let mut i: usize = 0;
    while i < 256
        invariant
            raw@.len() == 256,
            total > 0,
            forall|k: int| 0 <= k < 256 ==> #[trigger] raw@[k] <= total,
            rawi == raw@.map_values(|c: u32| c as int),
            pre == Seq::new(256, |k: int| scaled(rawi[k], total as int)),
            forall|k: int| 0 <= k < 256 ==> 0 <= #[trigger] pre[k] <= PROB_SCALE,
            i <= 256,
            result@.len() == i,
            forall|k: int| 0 <= k < i ==> #[trigger] result@[k] as int == pre[k],
            assigned as int == sum_to(pre, i as int),
            assigned <= i * PROB_SCALE,
            num_nonzero as int == nonzero_count(rawi, i as int),
            num_nonzero <= i,
            last_max_from(rawi, i as int, if have_max { max_idx as int } else { -1 }) == last_max_from(rawi, 0, -1),
            have_max ==> max_idx < i && rawi[max_idx as int] > 0,
        decreases 256 - i,
    {
        let c = raw[i];
        let mut f: u32 = 0;
        if c > 0 {
            num_nonzero = num_nonzero + 1;
            let q: u64 = (c as u64 * 16384) / (total as u64);
            proof {
                let ci = c as int;
                let ti = total as int;
                assert(ci * 16384 <= ti * 16384) by (nonlinear_arith)
                    requires
                        ci <= ti,
                ;
                assert((ci * 16384) / ti <= 16384) by (nonlinear_arith)
                    requires
                        ci * 16384 <= ti * 16384,
                        ti > 0,
                ;
            }
            f = if q < 1 { 1 } else { q as u32 };
            assert(f as int == pre[i as int]);
            assigned = assigned + f;
            if !have_max || c >= raw[max_idx] {
                max_idx = i;
                have_max = true;
            }
        }
        result.push(f);
        i = i + 1;
    }
    proof {
        lemma_sum_bound(pre, 256, PROB_SCALE as int);
    }
    if assigned != PROB_SCALE && num_nonzero > 0 {
        let m: usize = if have_max { max_idx } else { 0 };
        let diff: i64 = PROB_SCALE as i64 - assigned as i64;
        let new_val: i64 = result[m] as i64 + diff;
        if new_val > 0 {
            proof {
                lemma_sum_nonneg_bound(pre, 256, m as int, PROB_SCALE as int);
            }
            result.set(m, new_val as u32);
        }
    }
    proof {
        let norm = normalized(rawi, total as int);
        assert forall|k: int| 0 <= k < 256 implies #[trigger] result@[k] as int == norm[k] by {}
    }
    result
}

/// Encodes `data` with rANS.
pub fn encode(data: &[u8]) -> (r: Vec<u8>)
    requires
        data@.len() <= u32::MAX,
    ensures
        r@ == ans_encoded(data@),
        ans_decoded(r@) == Some(data@),
{
    proof {
        lemma_ans_roundtrip(data@);
    }
    if data.len() == 0 {
        let mut e: Vec<u8> = Vec::new();
        e.push(0);
        e.push(0);
        e.push(0);
        e.push(0);
        assert(e@ =~= seq![0u8, 0u8, 0u8, 0u8]);
        return e;
    }
    let n = data.len();
    let mut freqs: Vec<u32> = vec![0u32; 256];
    let mut i: usize = 0;
    while i < n
        invariant
            n == data@.len() <= u32::MAX,
            i <= n,
            freqs@.len() == 256,
            forall|b: int| 0 <= b < 256 ==> #[trigger] freqs@[b] as int == count_of(data@.subrange(0, i as int), b),
        decreases n - i,
    {
        let b = data[i] as usize;
        proof {
            let p = data@.subrange(0, i as int + 1);
            assert(p.drop_last() =~= data@.subrange(0, i as int));
            lemma_count_bound(data@.subrange(0, i as int), b as int);
        }
        freqs.set(b, freqs[b] + 1);
        i = i + 1;
        proof {
            let p = data@.subrange(0, i as int);
            assert(p.drop_last() =~= data@.subrange(0, i - 1));
        }
    }
    proof {
        assert(data@.subrange(0, n as int) =~= data@);
        assert forall|b: int| 0 <= b < 256 implies #[trigger] freqs@[b] <= n by {
            lemma_count_bound(data@, b);
        }
        assert(freqs@.map_values(|c: u32| c as int) =~= histogram(data@));
    }
    let norm = normalize_freqs(&freqs, n);
    let ghost normi = normalized(histogram(data@), n as int);
    proof {
        assert forall|b: int| 0 <= b < 256 implies 0 <= #[trigger] histogram(data@)[b] <= n by {
            lemma_count_bound(data@, b);
        }
        lemma_normalized_bound(histogram(data@), n as int);
    }
    // cumulative frequencies
    let mut cumf: Vec<u32> = Vec::new();
    cumf.push(0);
    let mut s: usize = 0;
    while s < 256
        invariant
            norm@.len() == 256,
            forall|k: int| 0 <= k < 256 ==> #[trigger] norm@[k] as int == normi[k],
            forall|k: int| 0 <= k < 256 ==> #[trigger] norm@[k] <= PROB_SCALE,
            s <= 256,
            cumf@.len() == s + 1,
            forall|k: int| 0 <= k <= s ==> #[trigger] cumf@[k] as int == cum(normi, k),
            forall|k: int| 0 <= k <= s ==> #[trigger] cumf@[k] <= k * PROB_SCALE,
        decreases 256 - s,
    {
        let next = cumf[s] + norm[s];
        cumf.push(next);
        s = s + 1;
    }
    let mut state: u32 = RANS_L;
    let mut out: Vec<u8> = Vec::new();
    let mut m: usize = 0;
    while m < n
        invariant
            n == data@.len(),
            norm@.len() == 256,
            forall|k: int| 0 <= k < 256 ==> #[trigger] norm@[k] as int == normi[k],
            forall|k: int| 0 <= k < 256 ==> #[trigger] norm@[k] <= PROB_SCALE,
            cumf@.len() == 257,
            forall|k: int| 0 <= k <= 256 ==> #[trigger] cumf@[k] as int == cum(normi, k),
            forall|k: int| 0 <= k <= 256 ==> #[trigger] cumf@[k] <= k * PROB_SCALE,
            m <= n,
            enc_run(data@, normi, m as int) == (state as int, out@),
        decreases n - m,
    {
        let sym = data[n - 1 - m] as usize;
        let freq = norm[sym];
        let start = cumf[sym];
        let ghost st0 = (state as int, out@);
        if freq != 0 {
            let ghost r = shift_out(state as int, freq as int);
            let ghost out0 = out@;
            let ghost s0 = state as int;
            while state >= freq * 131072
                invariant
                    0 < freq <= PROB_SCALE,
                    shift_out(state as int, freq as int).0 == r.0,
                    out0 + r.1 == out@ + shift_out(state as int, freq as int).1,
                decreases state,
            {
                let ghost sh = shift_out(state as int, freq as int);
                out.push((state % 256) as u8);
                state = state / 256;
                assert(out0 + r.1 =~= out@ + shift_out(state as int, freq as int).1);
            }
            assert(out@ =~= out0 + r.1);
            proof {
                assert((state as int) / (freq as int) <= 131072) by (nonlinear_arith)
                    requires
                        state < freq * 131072,
                        freq > 0,
                ;
                assert(((state as int) / (freq as int)) * 16384 <= 131072 * 16384) by (nonlinear_arith)
                    requires
                        (state as int) / (freq as int) <= 131072,
                ;
                assert((state as int) % (freq as int) < freq) by (nonlinear_arith)
                    requires
                        freq > 0,
                ;
            }
            state = (state / freq) * PROB_SCALE + (state % freq) + start;
        }
        m = m + 1;
        assert(data@[data@.len() - m as int] == data@[(n - m) as int]);
    }
    let mut result: Vec<u8> = Vec::new();
    push_u32_le(&mut result, n as u32);
    let mut t: usize = 0;
    let ghost head = result@;
    while t < 256
        invariant
            norm@.len() == 256,
            forall|k: int| 0 <= k < 256 ==> #[trigger] norm@[k] as int == normi[k],
            forall|k: int| 0 <= k < 256 ==> 0 <= #[trigger] normi[k],
            normi.len() == 256,
            t <= 256,
            result@ == head + table_bytes(normi.subrange(0, t as int)),
        decreases 256 - t,
    {
        push_u32_le(&mut result, norm[t]);
        t = t + 1;
        assert(normi.subrange(0, t as int).drop_last() =~= normi.subrange(0, t - 1));
    }
    assert(normi.subrange(0, 256) =~= normi);
    push_u32_le(&mut result, state);
    let ghost before = result@;
    let mut k: usize = out.len();
    while k > 0
        invariant
            k <= out@.len(),
            result@ == before + out@.subrange(k as int, out@.len() as int).reverse(),
        decreases k,
    {
        k = k - 1;
        result.push(out[k]);
        assert(out@.subrange(k as int, out@.len() as int).reverse() =~= out@.subrange(k + 1, out@.len() as int).reverse().push(out@[k as int]));
    }
    assert(out@.subrange(0, out@.len() as int) =~= out@);
    result
}

// ---------------------------------------------------------------------------------------------
// Decoding
// ---------------------------------------------------------------------------------------------

/// True when symbol `s` owns `slot`: the slot lies in `cum(s) .. cum(s + 1)`.
pub open spec fn owns(norm: Seq<int>, s: int, slot: int) -> bool {
    cum(norm, s) <= slot < cum(norm, s + 1)
}

/// The largest symbol below `s` that owns `slot`, or 0 when none does.
pub open spec fn owner_below(norm: Seq<int>, slot: int, s: int) -> int
    decreases s,
{
    if s <= 0 {
        0
    } else if owns(norm, s - 1, slot) {
        s - 1
    } else {
        owner_below(norm, slot, s - 1)
    }
}

/// Renormalisation after decoding a symbol: bytes shifted in (zero bytes once the input is
/// used up) until the state reaches `RANS_L`. `None` when the state is zero with no input left,
/// where shifting would never end.
pub open spec fn shift_in(state: int, enc: Seq<u8>, pos: int) -> Option<(int, int)>
    decreases enc.len() - pos, (if state >= RANS_L { 0 } else { RANS_L - state }),
{
    if state >= RANS_L || state < 0 || pos < 0 {
        Some((state, pos))
    } else if pos < enc.len() {
        shift_in(state * 256 + enc[pos], enc, pos + 1)
    } else if state == 0 {
        None
    } else {
        shift_in(state * 256, enc, pos)
    }
}

/// Decodes symbols `k ..` of `orig` into `out`. `None` where the arithmetic would overflow or
/// renormalisation would never end.
pub open spec fn dec_run(norm: Seq<int>, enc: Seq<u8>, state: int, pos: int, k: int, orig: int, out: Seq<u8>) -> Option<Seq<u8>>
    decreases orig - k,
{
    if k >= orig {
        Some(out)
    } else {
        let slot = state % (PROB_SCALE as int);
        let sym = owner_below(norm, slot, 256);
        let out2 = out.push(sym as u8);
        let freq = norm[sym];
        if freq == 0 {
            Some(out2)
        } else {
            let up = freq * (state / (PROB_SCALE as int)) + slot;
            if up > u32::MAX || up < cum(norm, sym) {
                None
            } else {
                match shift_in(up - cum(norm, sym), enc, pos) {
                    None => None,
                    Some(r) => dec_run(norm, enc, r.0, r.1, k + 1, orig, out2),
                }
            }
        }
    }
}

/// The frequency table stored in a header.
pub open spec fn stored_freqs(d: Seq<u8>) -> Seq<int> {
    Seq::new(256, |i: int| u32_at(d, 4 + 4 * i) as int)
}

/// What decoding `d` gives: `None` exactly where the decoder would overflow or never end.
pub open spec fn ans_decoded(d: Seq<u8>) -> Option<Seq<u8>> {
    if d.len() < 1032 || u32_at(d, 0) == 0 {
        Some(Seq::empty())
    } else {
        let norm = stored_freqs(d);
        if cum(norm, 256) > u32::MAX {
            None
        } else {
            dec_run(norm, d.subrange(1032, d.len() as int), u32_at(d, 1028) as int, 0, 0, u32_at(d, 0) as int, Seq::empty())
        }
    }
}

proof fn lemma_cum_mono(norm: Seq<int>, a: int, b: int)
    requires
        0 <= a <= b <= norm.len(),
        forall|i: int| 0 <= i < norm.len() ==> 0 <= #[trigger] norm[i],
    ensures
        cum(norm, a) <= cum(norm, b),
    decreases b - a,
{
    if a < b {
        lemma_cum_mono(norm, a, b - 1);
        assert(sum_to(norm, b) == sum_to(norm, b - 1) + norm[b - 1]);
    }
}

proof fn lemma_owner_below(norm: Seq<int>, slot: int, s: int)
    requires
        0 <= s <= 256,
    ensures
        0 <= owner_below(norm, slot, s) < 256,
        owner_below(norm, slot, s) == 0 || owns(norm, owner_below(norm, slot, s), slot),
    decreases s,
{
    if s > 0 && !owns(norm, s - 1, slot) {
        lemma_owner_below(norm, slot, s - 1);
    }
}

/// Decodes rANS data, or `None` on input where decoding would overflow or never end.
pub fn decode_checked(data: &[u8]) -> (r: Option<Vec<u8>>)
    ensures
        match r {
            Some(v) => ans_decoded(data@) == Some(v@),
            None => ans_decoded(data@) is None,
        },
{
    if data.len() < 1032 {
        return Some(Vec::new());
    }
    let original_len = read_u32_le(data, 0);
    if original_len == 0 {
        return Some(Vec::new());
    }
    let ghost norm = stored_freqs(data@);
    let mut freqs: Vec<u32> = Vec::new();
    let mut cumf: Vec<u32> = Vec::new();
    cumf.push(0);
    let mut i: usize = 0;
    while i < 256
        invariant
            data@.len() >= 1032,
            original_len == u32_at(data@, 0),
            original_len != 0,
            norm == stored_freqs(data@),
            i <= 256,
            freqs@.len() == i,
            cumf@.len() == i + 1,
            forall|k: int| 0 <= k < i ==> #[trigger] freqs@[k] as int == norm[k],
            forall|k: int| 0 <= k <= i ==> #[trigger] cumf@[k] as int == cum(norm, k),
        decreases 256 - i,
    {
        let f = read_u32_le(data, 4 + i * 4);
        freqs.push(f);
        let c = cumf[i] as u64 + f as u64;
        if c > u32::MAX as u64 {
            proof {
                assert forall|k: int| 0 <= k < 256 implies 0 <= #[trigger] norm[k] by {}
                assert(cum(norm, i as int + 1) == cum(norm, i as int) + norm[i as int]);
                lemma_cum_mono(norm, i as int + 1, 256);
                assert(u32_at(data@, 0) == original_len);
            }
            return None;
        }
        cumf.push(c as u32);
        i = i + 1;
        assert(cum(norm, i as int) == cum(norm, i - 1) + norm[i - 1]);
    }
    proof {
        assert forall|k: int| 0 <= k < 256 implies 0 <= #[trigger] norm[k] by {}
    }
    // slot -> symbol table
    let mut table: Vec<u8> = vec![0u8; 16384];
    let mut s: usize = 0;
    while s < 256
        invariant
            freqs@.len() == 256,
            cumf@.len() == 257,
            forall|k: int| 0 <= k <= 256 ==> #[trigger] cumf@[k] as int == cum(norm, k),
            s <= 256,
            table@.len() == 16384,
            forall|slot: int| 0 <= slot < 16384 ==> #[trigger] table@[slot] as int == owner_below(norm, slot, s as int),
        decreases 256 - s,
    {
        let start = cumf[s] as usize;
        let end = cumf[s + 1] as usize;
        let stop: usize = if end < 16384 { end } else { 16384 };
        let mut slot: usize = start;
        let ghost t0 = table@;
        while slot < stop
            invariant
                table@.len() == 16384,
                stop <= 16384,
                start <= slot,
                slot <= stop || slot == start,
                start == cum(norm, s as int),
                end == cum(norm, s as int + 1),
                stop == (if end < 16384 { end } else { 16384 }),
                forall|q: int| 0 <= q < 16384 ==> #[trigger] table@[q] == (if start <= q < slot { s as u8 } else { t0[q] }),
            decreases stop - slot,
        {
            table.set(slot, s as u8);
            slot = slot + 1;
        }
        s = s + 1;
        proof {
            assert forall|q: int| 0 <= q < 16384 implies #[trigger] table@[q] as int == owner_below(norm, q, s as int) by {
                if owns(norm, s - 1, q) {
                    assert(start <= q < slot);
                } else {
                    assert(!(start <= q < slot));
                }
            }
        }
    }
    let mut state = read_u32_le(data, 1028);
    let enc = &data[1032..data.len()];
    let ghost encs = data@.subrange(1032, data@.len() as int);
    assert(enc@ == encs);
    let mut pos: usize = 0;
    let mut result: Vec<u8> = Vec::new();
    let mut k: u32 = 0;
    assert(cumf@[256] as int == cum(norm, 256));
    assert(u32_at(data@, 0) == original_len);
    while k < original_len
        invariant
            freqs@.len() == 256,
            cumf@.len() == 257,
            forall|q: int| 0 <= q < 256 ==> #[trigger] freqs@[q] as int == norm[q],
            forall|q: int| 0 <= q <= 256 ==> #[trigger] cumf@[q] as int == cum(norm, q),
            table@.len() == 16384,
            forall|q: int| 0 <= q < 16384 ==> #[trigger] table@[q] as int == owner_below(norm, q, 256),
            enc@ == encs,
            pos <= enc@.len(),
            k <= original_len,
            dec_run(norm, encs, state as int, pos as int, k as int, original_len as int, result@)
                == ans_decoded(data@),
        decreases original_len - k,
    {
        let slot = (state % PROB_SCALE) as usize;
        let sym = table[slot];
        let ghost out_before = result@;
        result.push(sym);
        proof {
            lemma_owner_below(norm, slot as int, 256);
        }
        let freq = freqs[sym as usize];
        let start = cumf[sym as usize];
        if freq == 0 {
            return Some(result);
        }
        assert((freq as int) * ((state / PROB_SCALE) as int) <= 0xFFFF_FFFF * 0x4_0000) by (nonlinear_arith)
            requires
                freq <= 0xFFFF_FFFF,
                (state / PROB_SCALE) as int <= 0x4_0000,
        ;
        let up: u64 = freq as u64 * (state / PROB_SCALE) as u64 + slot as u64;
        if up > u32::MAX as u64 || up < start as u64 {
            return None;
        }
        let mut st: u32 = (up - start as u64) as u32;
        let ghost v0 = st as int;
        let ghost p0 = pos as int;
        assert(v0 == freq * ((state as int) / 16384) + (state as int) % 16384 - start);
        assert(ans_decoded(data@) == match shift_in(v0, encs, p0) {
            None => None,
            Some(r) => dec_run(norm, encs, r.0, r.1, k + 1, original_len as int, result@),
        });
        while st < RANS_L
            invariant
                enc@ == encs,
                pos <= enc@.len(),
                shift_in(st as int, encs, pos as int) == shift_in(v0, encs, p0),
                ans_decoded(data@) == match shift_in(v0, encs, p0) {
                    None => None,
                    Some(r) => dec_run(norm, encs, r.0, r.1, k + 1, original_len as int, result@),
                },
            ensures
                st >= RANS_L,
                pos <= enc@.len(),
                shift_in(v0, encs, p0) == Some((st as int, pos as int)),
            decreases enc@.len() - pos, (if st >= RANS_L { 0 } else { RANS_L - st }),
        {
            if pos < enc.len() {
                st = st * 256 + enc[pos] as u32;
                pos = pos + 1;
            } else {
                if st == 0 {
                    assert(shift_in(st as int, encs, pos as int) is None);
                    return None;
                }
                st = st * 256;
            }
        }
        state = st;
        k = k + 1;
    }
    Some(result)
}

/// Decodes rANS data. The input must be one on which decoding neither overflows nor runs
/// forever (`ans_decoded` is `Some`); `decode_checked` tests that.
pub fn decode(data: &[u8]) -> (r: Vec<u8>)
    requires
        ans_decoded(data@) is Some,
    ensures
        Some(r@) == ans_decoded(data@),
{
    match decode_checked(data) {
        Some(v) => v,
        None => Vec::new(),
    }
}

// ---------------------------------------------------------------------------------------------
// Reading back what `encode` writes
// ---------------------------------------------------------------------------------------------

proof fn lemma_shift_out_bounds(v: int, f: int)
    requires
        v >= 0,
        f >= 1,
    ensures
        0 <= shift_out(v, f).0 < f * 131072,
        shift_out(v, f).0 == v || shift_out(v, f).0 >= f * 512,
    decreases v,
{
    if v >= f * 131072 && v > 0 {
        let w = v / 256;
        assert(w >= f * 512) by (nonlinear_arith)
            requires
                v >= f * 131072,
                w == v / 256,
                f >= 1,
        ;
        assert(w < v) by (nonlinear_arith)
            requires
                v > 0,
                w == v / 256,
        ;
        lemma_shift_out_bounds(w, f);
    }
}

/// Shifting in the bytes that encoding shifted out, last first, brings the state back.
proof fn lemma_shift_in_out(v: int, f: int, enc: Seq<u8>, pos: int)
    requires
        0 <= v < 256 * (RANS_L as int),
        f >= 1,
        0 <= pos,
        pos + shift_out(v, f).1.len() <= enc.len(),
        enc.subrange(pos, pos + shift_out(v, f).1.len()) == shift_out(v, f).1.reverse(),
    ensures
        shift_in(shift_out(v, f).0, enc, pos) == shift_in(v, enc, pos + shift_out(v, f).1.len()),
    decreases v,
{
    if v >= f * 131072 && v > 0 {
        let w = v / 256;
        let r = shift_out(w, f);
        let seg = shift_out(v, f).1;
        assert(seg == seq![(v % 256) as u8] + r.1);
        assert(seg.reverse() =~= r.1.reverse() + seq![(v % 256) as u8]);
        let p2 = pos + r.1.len();
        assert(enc.subrange(pos, p2) =~= enc.subrange(pos, pos + seg.len()).subrange(0, r.1.len() as int));
        assert(enc.subrange(pos, p2) =~= r.1.reverse());
        assert(enc[p2] == enc.subrange(pos, pos + seg.len())[r.1.len() as int]);
        assert(enc[p2] == (v % 256) as u8);
        assert(w < v && w < RANS_L && w * 256 + v % 256 == v) by (nonlinear_arith)
            requires
                v > 0,
                v < 256 * (RANS_L as int),
                w == v / 256,
        ;
        lemma_shift_in_out(w, f, enc, pos);
        assert(shift_in(w, enc, p2) == shift_in(w * 256 + enc[p2], enc, p2 + 1));
    }
}

proof fn lemma_owner(norm: Seq<int>, sym: int, slot: int, s: int)
    requires
        norm.len() == 256,
        forall|i: int| 0 <= i < 256 ==> 0 <= #[trigger] norm[i],
        0 <= sym < s <= 256,
        owns(norm, sym, slot),
    ensures
        owner_below(norm, slot, s) == sym,
    decreases s,
{
    if s - 1 > sym {
        lemma_cum_mono(norm, sym + 1, s - 1);
        lemma_owner(norm, sym, slot, s - 1);
    }
}

proof fn lemma_table_bytes(t: Seq<int>, i: int)
    requires
        0 <= i < t.len(),
    ensures
        table_bytes(t).len() == 4 * t.len(),
        table_bytes(t).subrange(4 * i, 4 * i + 4) == le32(t[i] as u32),
    decreases t.len(),
{
    lemma_le_lengths();
    lemma_table_len(t.drop_last());
    let pre = table_bytes(t.drop_last());
    if i == t.len() - 1 {
        assert((pre + le32(t.last() as u32)).subrange(4 * i, 4 * i + 4) =~= le32(t.last() as u32));
    } else {
        lemma_table_bytes(t.drop_last(), i);
        assert((pre + le32(t.last() as u32)).subrange(4 * i, 4 * i + 4) =~= pre.subrange(4 * i, 4 * i + 4));
    }
}

proof fn lemma_table_len(t: Seq<int>)
    ensures
        table_bytes(t).len() == 4 * t.len(),
    decreases t.len(),
{
    lemma_le_lengths();
    if t.len() > 0 {
        lemma_table_len(t.drop_last());
    }
}

/// The conditions on a frequency table under which decoding inverts encoding: entries are
/// nonnegative and sum to `PROB_SCALE`, and every byte of `d` has a positive one.
pub open spec fn table_fits(norm: Seq<int>, d: Seq<u8>) -> bool {
    &&& norm.len() == 256
    &&& forall|i: int| 0 <= i < 256 ==> 0 <= #[trigger] norm[i]
    &&& cum(norm, 256) == PROB_SCALE as int
    &&& forall|i: int| 0 <= i < d.len() ==> norm[#[trigger] d[i] as int] > 0
}

proof fn lemma_freq_fits(norm: Seq<int>, sym: int)
    requires
        norm.len() == 256,
        forall|i: int| 0 <= i < 256 ==> 0 <= #[trigger] norm[i],
        cum(norm, 256) == PROB_SCALE as int,
        0 <= sym < 256,
    ensures
        cum(norm, sym) >= 0,
        cum(norm, sym) + norm[sym] <= PROB_SCALE,
        cum(norm, sym + 1) == cum(norm, sym) + norm[sym],
{
    lemma_cum_mono(norm, 0, sym);
    lemma_cum_mono(norm, sym + 1, 256);
    assert(sum_to(norm, sym + 1) == sum_to(norm, sym) + norm[sym]);
}

/// Every state of the encoder lies in `RANS_L .. 256 * RANS_L`.
proof fn lemma_enc_state(d: Seq<u8>, norm: Seq<int>, m: int)
    requires
        table_fits(norm, d),
        0 <= m <= d.len(),
    ensures
        RANS_L <= enc_run(d, norm, m).0 < 256 * (RANS_L as int),
    decreases m,
{
    if m > 0 {
        lemma_enc_state(d, norm, m - 1);
        let x = enc_run(d, norm, m - 1).0;
        let sym = d[d.len() - m] as int;
        let f = norm[sym];
        assert(f > 0);
        lemma_freq_fits(norm, sym);
        let c = cum(norm, sym);
        let xs = shift_out(x, f).0;
        lemma_shift_out_bounds(x, f);
        let q = xs / f;
        let rm = xs % f;
        assert(512 <= q < 131072 && 0 <= rm < f) by (nonlinear_arith)
            requires
                1 <= f <= 16384,
                0 <= xs < f * 131072,
                xs == x || xs >= f * 512,
                x >= 0x80_0000,
                q == xs / f,
                rm == xs % f,
        ;
        assert(RANS_L <= q * 16384 + rm + c < 256 * (RANS_L as int)) by (nonlinear_arith)
            requires
                512 <= q < 131072,
                0 <= rm < f,
                0 <= c,
                c + f <= 16384,
        ;
    }
}

/// Decoding from the state and the reversed bytes of the last `m` symbols' encoding gives
/// those symbols back.
proof fn lemma_dec_enc(d: Seq<u8>, norm: Seq<int>, m: int, enc: Seq<u8>, out: Seq<u8>)
    requires
        table_fits(norm, d),
        0 <= m <= d.len(),
        enc_run(d, norm, m).1.len() <= enc.len(),
        enc.subrange(enc.len() - enc_run(d, norm, m).1.len(), enc.len() as int) == enc_run(d, norm, m).1.reverse(),
    ensures
        dec_run(norm, enc, enc_run(d, norm, m).0, enc.len() - enc_run(d, norm, m).1.len(), d.len() - m, d.len() as int, out)
            == Some(out + d.subrange(d.len() - m, d.len() as int)),
    decreases m,
{
    let n = d.len() as int;
    if m == 0 {
        assert(out + d.subrange(n, n) =~= out);
    } else {
        let prev = enc_run(d, norm, m - 1);
        let x = prev.0;
        let sym = d[n - m] as int;
        let f = norm[sym];
        assert(f > 0);
        lemma_freq_fits(norm, sym);
        lemma_enc_state(d, norm, m - 1);
        let c = cum(norm, sym);
        let so = shift_out(x, f);
        let xs = so.0;
        let seg = so.1;
        lemma_shift_out_bounds(x, f);
        let q = xs / f;
        let rm = xs % f;
        assert(0 <= rm < f && xs == q * f + rm && 0 <= q) by (nonlinear_arith)
            requires
                f >= 1,
                xs >= 0,
                q == xs / f,
                rm == xs % f,
        ;
        let st = q * 16384 + rm + c;
        assert(enc_run(d, norm, m) == (st, prev.1 + seg));
        let b = prev.1 + seg;
        let p = enc.len() - b.len();
        assert(b.reverse() =~= seg.reverse() + prev.1.reverse());
        assert(enc.subrange(p, enc.len() as int) == b.reverse());
        assert((seg.reverse() + prev.1.reverse()).subrange(0, seg.len() as int) =~= seg.reverse());
        assert((seg.reverse() + prev.1.reverse()).subrange(seg.len() as int, b.len() as int) =~= prev.1.reverse());
        assert(enc.subrange(p, p + seg.len()) =~= enc.subrange(p, enc.len() as int).subrange(0, seg.len() as int));
        assert(enc.subrange(p + seg.len(), enc.len() as int) =~= enc.subrange(p, enc.len() as int).subrange(seg.len() as int, b.len() as int));
        // the slot and the symbol
        vstd::arithmetic::div_mod::lemma_fundamental_div_mod_converse_mod(st, 16384, q, rm + c);
        vstd::arithmetic::div_mod::lemma_fundamental_div_mod_converse_div(st, 16384, q, rm + c);
        let slot = st % (PROB_SCALE as int);
        assert(slot == rm + c);
        assert(owns(norm, sym, slot));
        lemma_owner(norm, sym, slot, 256);
        let up = f * (st / (PROB_SCALE as int)) + slot;
        assert(up == xs + c) by (nonlinear_arith)
            requires
                up == f * q + rm + c,
                xs == q * f + rm,
        ;
        assert(f * (st / (PROB_SCALE as int)) == f * q);
        assert(xs + c <= u32::MAX) by (nonlinear_arith)
            requires
                xs < f * 131072,
                f <= 16384,
                c <= 16384,
        ;
        // renormalisation
        lemma_shift_in_out(x, f, enc, p);
        assert(shift_in(x, enc, p + seg.len()) == Some((x, p + seg.len())));
        let out2 = out.push(sym as u8);
        assert(sym as u8 == d[n - m]);
        lemma_dec_enc(d, norm, m - 1, enc, out2);
        assert(p + seg.len() == enc.len() - prev.1.len());
        assert(out2 + d.subrange(n - (m - 1), n) =~= out + d.subrange(n - m, n));
    }
}

proof fn lemma_count_pos(d: Seq<u8>, i: int)
    requires
        0 <= i < d.len(),
    ensures
        count_of(d, d[i] as int) >= 1,
    decreases d.len(),
{
    if i < d.len() - 1 {
        lemma_count_pos(d.drop_last(), i);
    }
}

proof fn lemma_normalized_pos(raw: Seq<int>, total: int, b: int)
    requires
        raw.len() == 256,
        0 <= b < 256,
        raw[b] > 0,
        total > 0,
    ensures
        normalized(raw, total)[b] > 0,
{
    lemma_last_max_range(raw, 0, -1);
    let pre = Seq::new(256, |i: int| scaled(raw[i], total));
    assert(pre[b] >= 1);
    let assigned = sum_to(pre, 256);
    if assigned != PROB_SCALE as int && nonzero_count(raw, 256) > 0 {
        let m = last_max(raw);
        let nv = pre[m] + (PROB_SCALE as int - assigned);
        if nv > 0 {
            assert(pre.update(m, nv)[b] > 0);
        }
    }
}

/// The table `encode` stores for `d`: the normalised byte histogram.
pub open spec fn ans_table(d: Seq<u8>) -> Seq<int> {
    normalized(histogram(d), d.len() as int)
}

/// Decoding what `encode` writes for `d` gives back `d`.
pub proof fn lemma_ans_roundtrip(d: Seq<u8>)
    requires
        d.len() <= u32::MAX,
    ensures
        ans_decoded(ans_encoded(d)) == Some(d),
{
    if d.len() == 0 {
        assert(ans_encoded(d).len() == 4);
        assert(d =~= Seq::<u8>::empty());
    } else {
        let n = d.len() as int;
        let raw = histogram(d);
        let norm = ans_table(d);
        lemma_table_sums(d);
        assert forall|b: int| 0 <= b < 256 implies 0 <= #[trigger] raw[b] <= n by {
            lemma_count_bound(d, b);
        }
        lemma_normalized_bound(raw, n);
        assert forall|i: int| 0 <= i < d.len() implies norm[#[trigger] d[i] as int] > 0 by {
            lemma_count_pos(d, i);
            let b = d[i] as int;
            assert(raw[b] >= 1);
            lemma_normalized_pos(raw, n, b);
        }
        assert(table_fits(norm, d));
        let r = enc_run(d, norm, n);
        lemma_enc_state(d, norm, n);
        lemma_le_lengths();
        lemma_table_len(norm);
        let tb = table_bytes(norm);
        let e = le32(n as u32) + tb + le32(r.0 as u32) + r.1.reverse();
        assert(ans_encoded(d) == e);
        assert(e.len() >= 1032);
        crate::bytes::lemma_u32_at(Seq::empty(), n as u32, tb + le32(r.0 as u32) + r.1.reverse());
        assert(Seq::<u8>::empty() + le32(n as u32) + (tb + le32(r.0 as u32) + r.1.reverse()) =~= e);
        assert(u32_at(e, 0) == n);
        crate::bytes::lemma_u32_at(le32(n as u32) + tb, r.0 as u32, r.1.reverse());
        assert(u32_at(e, 1028) == r.0);
        assert forall|k: int| 0 <= k < 256 implies #[trigger] stored_freqs(e)[k] == norm[k] by {
            lemma_table_bytes(norm, k);
            assert(e.subrange(4 + 4 * k, 4 + 4 * k + 4) =~= tb.subrange(4 * k, 4 * k + 4));
            vstd::bytes::lemma_auto_spec_u32_to_from_le_bytes();
            assert(u32_at(e, 4 + 4 * k) == norm[k] as u32);
        }
        assert(stored_freqs(e) =~= norm);
        let enc = e.subrange(1032, e.len() as int);
        assert(enc =~= r.1.reverse());
        assert(enc.subrange(enc.len() - r.1.len(), enc.len() as int) =~= r.1.reverse());
        lemma_dec_enc(d, norm, n, enc, Seq::empty());
        assert(Seq::<u8>::empty() + d.subrange(0, n) =~= d);
    }
}

// ---------------------------------------------------------------------------------------------
// The normalised table sums to `PROB_SCALE`
// ---------------------------------------------------------------------------------------------

proof fn lemma_hist_step(d: Seq<u8>, k: int)
    requires
        d.len() > 0,
        0 <= k <= 256,
    ensures
        sum_to(histogram(d), k) == sum_to(histogram(d.drop_last()), k) + (if d.last() < k { 1int } else { 0int }),
    decreases k,
{
    if k > 0 {
        lemma_hist_step(d, k - 1);
    }
}

/// The histogram sums to the length.
proof fn lemma_hist_sum(d: Seq<u8>)
    ensures
        sum_to(histogram(d), 256) == d.len(),
    decreases d.len(),
{
    if d.len() == 0 {
        lemma_hist_zero(d, 256);
    } else {
        lemma_hist_step(d, 256);
        lemma_hist_sum(d.drop_last());
    }
}

proof fn lemma_hist_zero(d: Seq<u8>, k: int)
    requires
        d.len() == 0,
        0 <= k <= 256,
    ensures
        sum_to(histogram(d), k) == 0,
    decreases k,
{
    if k > 0 {
        lemma_hist_zero(d, k - 1);
    }
}

proof fn lemma_last_max_props(raw: Seq<int>, k: int, best: int)
    requires
        raw.len() == 256,
        0 <= k <= 256,
        -1 <= best < k,
        best >= 0 ==> raw[best] > 0,
        forall|j: int| 0 <= j < k && raw[j] > 0 ==> best >= 0 && #[trigger] raw[j] <= raw[best],
    ensures
        ({
            let r = last_max_from(raw, k, best);
            &&& -1 <= r < 256
            &&& r >= 0 ==> raw[r] > 0
            &&& forall|j: int| 0 <= j < 256 && raw[j] > 0 ==> r >= 0 && #[trigger] raw[j] <= raw[r]
        }),
    decreases 256 - k,
{
    if k < 256 {
        if raw[k] > 0 && (best < 0 || raw[k] >= raw[best]) {
            lemma_last_max_props(raw, k + 1, k);
        } else {
            lemma_last_max_props(raw, k + 1, best);
        }
    }
}

proof fn lemma_sum_update(s: Seq<int>, k: int, m: int, v: int)
    requires
        0 <= k <= s.len(),
        0 <= m < s.len(),
    ensures
        sum_to(s.update(m, v), k) == sum_to(s, k) + (if m < k { v - s[m] } else { 0 }),
    decreases k,
{
    if k > 0 {
        lemma_sum_update(s, k - 1, m, v);
    }
}

/// A positive count scaled to zero.
spec fn is_rare(c: int, n: int) -> bool {
    c > 0 && c * (PROB_SCALE as int) < n
}

/// A positive count scaled to one or more.
spec fn is_common(c: int, n: int) -> bool {
    c > 0 && c * (PROB_SCALE as int) >= n
}

spec fn rare_count(raw: Seq<int>, n: int, k: int) -> int
    decreases k,
{
    if k <= 0 { 0 } else { rare_count(raw, n, k - 1) + if is_rare(raw[k - 1], n) { 1int } else { 0int } }
}

spec fn rare_sum(raw: Seq<int>, n: int, k: int) -> int
    decreases k,
{
    if k <= 0 { 0 } else { rare_sum(raw, n, k - 1) + if is_rare(raw[k - 1], n) { raw[k - 1] } else { 0int } }
}

spec fn common_count(raw: Seq<int>, n: int, k: int) -> int
    decreases k,
{
    if k <= 0 { 0 } else { common_count(raw, n, k - 1) + if is_common(raw[k - 1], n) { 1int } else { 0int } }
}

spec fn common_q_sum(raw: Seq<int>, n: int, k: int) -> int
    decreases k,
{
    if k <= 0 {
        0
    } else {
        common_q_sum(raw, n, k - 1) + if is_common(raw[k - 1], n) { raw[k - 1] * (PROB_SCALE as int) / n } else { 0int }
    }
}

proof fn lemma_split_sums(raw: Seq<int>, n: int, k: int, qm: int)
    requires
        raw.len() == 256,
        0 <= k <= 256,
        n > 0,
        forall|i: int| 0 <= i < 256 ==> 0 <= #[trigger] raw[i],
        forall|i: int| 0 <= i < 256 && raw[i] > 0 ==> #[trigger] raw[i] * (PROB_SCALE as int) / n <= qm,
    ensures
        sum_to(Seq::new(256, |i: int| scaled(raw[i], n)), k) == rare_count(raw, n, k) + common_q_sum(raw, n, k),
        common_q_sum(raw, n, k) * n <= (PROB_SCALE as int) * (sum_to(raw, k) - rare_sum(raw, n, k)),
        rare_sum(raw, n, k) >= rare_count(raw, n, k) >= 0,
        common_count(raw, n, k) >= 0,
        common_q_sum(raw, n, k) <= common_count(raw, n, k) * qm,
        rare_count(raw, n, k) + common_count(raw, n, k) <= k,
    decreases k,
{
    if k > 0 {
        lemma_split_sums(raw, n, k - 1, qm);
        let c = raw[k - 1];
        let pre = Seq::new(256, |i: int| scaled(raw[i], n));
        assert(sum_to(pre, k) == sum_to(pre, k - 1) + pre[k - 1]);
        let q = c * (PROB_SCALE as int) / n;
        let cc = common_count(raw, n, k - 1);
        if is_rare(c, n) {
            assert(q == 0) by (nonlinear_arith)
                requires
                    c * 16384 < n,
                    c > 0,
                    q == c * 16384 / n,
            ;
        } else if is_common(c, n) {
            assert(q >= 1 && q * n <= c * 16384) by (nonlinear_arith)
                requires
                    c * 16384 >= n,
                    n > 0,
                    q == c * 16384 / n,
            ;
            assert(q <= qm);
            assert(cc * qm + q <= (cc + 1) * qm) by (nonlinear_arith)
                requires
                    q <= qm,
            ;
        }
        let s0 = common_q_sum(raw, n, k - 1);
        let t0 = sum_to(raw, k - 1) - rare_sum(raw, n, k - 1);
        assert(common_q_sum(raw, n, k) * n <= (PROB_SCALE as int) * (sum_to(raw, k) - rare_sum(raw, n, k))) by (nonlinear_arith)
            requires
                s0 * n <= 16384 * t0,
                common_q_sum(raw, n, k) == s0 + (if is_common(c, n) { q } else { 0 }),
                sum_to(raw, k) - rare_sum(raw, n, k) == t0 + (if is_rare(c, n) { 0 } else { c }),
                is_common(c, n) ==> q * n <= c * 16384,
                c >= 0,
        ;
    }
}

/// The normalised table of nonempty data sums to `PROB_SCALE`: the correction added to the
/// most frequent byte never leaves it at zero or below.
pub proof fn lemma_table_sums(d: Seq<u8>)
    requires
        d.len() > 0,
    ensures
        cum(ans_table(d), 256) == PROB_SCALE as int,
{
    let n = d.len() as int;
    let raw = histogram(d);
    let pre = Seq::new(256, |i: int| scaled(raw[i], n));
    lemma_hist_sum(d);
    lemma_count_pos(d, 0);
    let b0 = d[0] as int;
    assert(raw[b0] > 0);
    lemma_last_max_props(raw, 0, -1);
    let mr = last_max_from(raw, 0, -1);
    assert(mr >= 0);
    let m = last_max(raw);
    assert(m == mr);
    let qm = raw[m] * (PROB_SCALE as int) / n;
    assert forall|i: int| 0 <= i < 256 && raw[i] > 0 implies #[trigger] raw[i] * (PROB_SCALE as int) / n <= qm by {
        assert(raw[i] <= raw[m]);
        vstd::arithmetic::div_mod::lemma_div_is_ordered(raw[i] * 16384, raw[m] * 16384, n);
    }
    assert forall|i: int| 0 <= i < 256 implies 0 <= #[trigger] raw[i] by {}
    lemma_split_sums(raw, n, 256, qm);
    let z = rare_count(raw, n, 256);
    let u = common_count(raw, n, 256);
    let sq = common_q_sum(raw, n, 256);
    let rs = rare_sum(raw, n, 256);
    let assigned = sum_to(pre, 256);
    assert(assigned == z + sq);
    let pm = pre[m];
    assert(pm >= qm && pm >= 1);
    assert(nonzero_count(raw, 256) > 0) by {
        lemma_nonzero_count(raw, 256, b0);
    }
    if assigned != PROB_SCALE as int {
        let nv = pm + (PROB_SCALE as int - assigned);
        assert(sq <= u * pm) by (nonlinear_arith)
            requires
                sq <= u * qm,
                qm <= pm,
                u >= 0,
        ;
        if z == 0 {
            assert(sq <= 16384) by (nonlinear_arith)
                requires
                    sq * n <= 16384 * (n - rs),
                    rs >= 0,
                    n > 0,
            ;
        } else {
            assert(sq <= 16383) by (nonlinear_arith)
                requires
                    sq * n <= 16384 * (n - rs),
                    rs >= 1,
                    n > 0,
            ;
            if nv <= 0 {
                assert(false) by (nonlinear_arith)
                    requires
                        pm + 16384 - z - sq <= 0,
                        sq <= 16383,
                        sq <= u * pm,
                        pm >= 1,
                        z >= 1,
                        u >= 0,
                        z + u <= 256,
                {
                    assert(pm <= z - 1);
                    assert((u - 1) * pm >= 16384 - z);
                    if u >= 1 {
                        assert((u - 1) * pm <= (u - 1) * (z - 1));
                        assert((u - 1 - (z - 1)) * (u - 1 - (z - 1)) >= 0);
                    }
                }
            }
        }
        assert(nv > 0);
        lemma_sum_update(pre, 256, m, nv);
    }
}

proof fn lemma_nonzero_count(raw: Seq<int>, k: int, j: int)
    requires
        0 <= j < k <= raw.len(),
        raw[j] > 0,
    ensures
        nonzero_count(raw, k) > 0,
    decreases k,
{
    if j < k - 1 {
        lemma_nonzero_count(raw, k - 1, j);
    } else {
        lemma_nonzero_count_nonneg(raw, k - 1);
    }
}

proof fn lemma_nonzero_count_nonneg(raw: Seq<int>, k: int)
    ensures
        nonzero_count(raw, k) >= 0,
    decreases k,
{
    if k > 0 {
        lemma_nonzero_count_nonneg(raw, k - 1);
    }
}

} // verus!
