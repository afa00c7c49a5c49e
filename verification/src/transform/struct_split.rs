//! Columnar transform with a detected byte period: records of `period` bytes are split into
//! columns, each coded as residuals of a linear prediction of order 0 to 3.
//!
//! Format: `[4-byte original length] [2-byte period] [period x 1-byte orders]
//! [column residuals, column by column] [remainder bytes]`; period 0 is a plain copy.
//!
//! The columnar form is `period` bytes longer than the plain copy (the orders), so `encode`
//! always keeps the copy; `decode` reads both forms.
use vstd::prelude::*;
use crate::bytes::{le16, le32, u16_at, u32_at, push_u16_le, push_u32_le, read_u16_le, read_u32_le, append_bytes, lemma_le_lengths};

verus! {

// ---------------------------------------------------------------------------------------------
// Prediction
// ---------------------------------------------------------------------------------------------

/// The value `k` places before `i` in `vals`, or 0 before the start.
pub open spec fn back(vals: Seq<u8>, i: int, k: int) -> int {
    if i >= k { vals[i - k] as int } else { 0 }
}

/// The prediction of value `i` of a column from the values before it: order 0 predicts 0,
/// order 1 the previous value, order 2 the linear extrapolation of two, order 3 the quadratic
/// extrapolation of three; lower orders stand in near the start.
pub open spec fn predict(vals: Seq<u8>, i: int, order: u8) -> u8 {
    let p0 = back(vals, i, 1);
    let p1 = back(vals, i, 2);
    let p2 = back(vals, i, 3);
    if order == 0 {
        0
    } else if order == 1 && i >= 1 {
        p0 as u8
    } else if order == 2 && i >= 2 {
        ((2 * p0 + 256 - p1) % 256) as u8
    } else if order == 3 && i >= 3 {
        ((3 * p0 + 768 - 3 * p1 + p2) % 256) as u8
    } else if (order == 2 || order == 3) && i >= 2 {
        ((2 * p0 + 256 - p1) % 256) as u8
    } else if 1 <= order <= 3 && i >= 1 {
        p0 as u8
    } else {
        0
    }
}

/// The residual of value `i` of `col`.
pub open spec fn residual(col: Seq<u8>, i: int, order: u8) -> u8 {
    ((col[i] + 256 - predict(col, i, order)) % 256) as u8
}

/// The values decoded from the first `m` residuals.
pub open spec fn decoded_vals(res: Seq<u8>, order: u8, m: int) -> Seq<u8>
    decreases m,
{
    if m <= 0 {
        Seq::empty()
    } else {
        let prev = decoded_vals(res, order, m - 1);
        prev.push(((res[m - 1] + predict(prev, m - 1, order)) % 256) as u8)
    }
}

fn predict_col(i: usize, p0: u8, p1: u8, p2: u8, order: u8, Ghost(vals): Ghost<Seq<u8>>) -> (r: u8)
    requires
        i <= vals.len(),
        p0 as int == back(vals, i as int, 1),
        p1 as int == back(vals, i as int, 2),
        p2 as int == back(vals, i as int, 3),
    ensures
        r == predict(vals, i as int, order),
{
    if order == 0 {
        0
    } else if order == 1 && i >= 1 {
        p0
    } else if order == 2 && i >= 2 {
        ((2 * p0 as u32 + 256 - p1 as u32) % 256) as u8
    } else if order == 3 && i >= 3 {
        ((3 * p0 as u32 + 768 - 3 * p1 as u32 + p2 as u32) % 256) as u8
    } else if (order == 2 || order == 3) && i >= 2 {
        ((2 * p0 as u32 + 256 - p1 as u32) % 256) as u8
    } else if 1 <= order && order <= 3 && i >= 1 {
        p0
    } else {
        0
    }
}

fn encode_col(col: &Vec<u8>, order: u8) -> (r: Vec<u8>)
    ensures
        r@.len() == col@.len(),
        forall|i: int| 0 <= i < col@.len() ==> #[trigger] r@[i] == residual(col@, i, order),
{
    let mut out: Vec<u8> = Vec::new();
    let mut p0: u8 = 0;
    let mut p1: u8 = 0;
    let mut p2: u8 = 0;
    let mut i: usize = 0;
    while i < col.len()
        invariant
            i <= col@.len(),
            out@.len() == i,
            forall|q: int| 0 <= q < i ==> #[trigger] out@[q] == residual(col@, q, order),
            p0 as int == back(col@, i as int, 1),
            p1 as int == back(col@, i as int, 2),
            p2 as int == back(col@, i as int, 3),
        decreases col@.len() - i,
    {
        let val = col[i];
        let p = predict_col(i, p0, p1, p2, order, Ghost(col@));
        out.push(((val as u32 + 256 - p as u32) % 256) as u8);
        p2 = p1;
        p1 = p0;
        p0 = val;
        i = i + 1;
    }
    out
}

fn decode_col(res: &[u8], order: u8) -> (r: Vec<u8>)
    ensures
        r@ == decoded_vals(res@, order, res@.len() as int),
{
    let mut out: Vec<u8> = Vec::new();
    let mut p0: u8 = 0;
    let mut p1: u8 = 0;
    let mut p2: u8 = 0;
    let mut i: usize = 0;
    while i < res.len()
        invariant
            i <= res@.len(),
            out@ == decoded_vals(res@, order, i as int),
            out@.len() == i,
            p0 as int == back(out@, i as int, 1),
            p1 as int == back(out@, i as int, 2),
            p2 as int == back(out@, i as int, 3),
        decreases res@.len() - i,
    {
        let p = predict_col(i, p0, p1, p2, order, Ghost(out@));
        let val = ((res[i] as u32 + p as u32) % 256) as u8;
        let ghost before = out@;
        out.push(val);
        assert(back(out@, i + 1, 2) == back(before, i as int, 1));
        assert(back(out@, i + 1, 3) == back(before, i as int, 2));
        p2 = p1;
        p1 = p0;
        p0 = val;
        i = i + 1;
    }
    out
}

/// The distance of a residual from zero, wrapping around.
pub open spec fn residual_cost(r: u8) -> int {
    if r as int <= (256 - r as int) % 256 { r as int } else { (256 - r as int) % 256 }
}

/// The summed residual distances of the first `m` values of `col` under `order`.
pub open spec fn order_cost(col: Seq<u8>, order: u8, m: int) -> int
    decreases m,
{
    if m <= 0 {
        0
    } else {
        order_cost(col, order, m - 1) + residual_cost(residual(col, m - 1, order))
    }
}

fn column_cost(col: &Vec<u8>, order: u8) -> (c: u64)
    requires
        col@.len() <= 0x1_0000_0000,
    ensures
        c as int == order_cost(col@, order, col@.len() as int),
{
    let res = encode_col(col, order);
    let mut cost: u64 = 0;
    let mut i: usize = 0;
    while i < res.len()
        invariant
            col@.len() <= 0x1_0000_0000,
            res@.len() == col@.len(),
            forall|q: int| 0 <= q < col@.len() ==> #[trigger] res@[q] == residual(col@, q, order),
            i <= res@.len(),
            cost as int == order_cost(col@, order, i as int),
            cost <= 256 * i,
        decreases res@.len() - i,
    {
        let r = res[i];
        let alt: u8 = ((256 - r as u32) % 256) as u8;
        let m: u8 = if r <= alt { r } else { alt };
        cost = cost + m as u64;
        i = i + 1;
    }
    cost
}

/// The prediction order with the least residual cost (the lowest order on a tie).
fn best_order(col: &Vec<u8>) -> (r: u8)
    requires
        col@.len() <= 0x1_0000_0000,
    ensures
        r <= 3,
        forall|o: u8| o <= 3 ==> order_cost(col@, r, col@.len() as int) <= order_cost(col@, o, col@.len() as int),
        forall|o: u8| o < r ==> order_cost(col@, r, col@.len() as int) < order_cost(col@, o, col@.len() as int),
{
    let mut best: u8 = 0;
    let mut best_cost = column_cost(col, 0);
    let mut o: u8 = 1;
    while o <= 3
        invariant
            col@.len() <= 0x1_0000_0000,
            1 <= o <= 4,
            best < o,
            best_cost as int == order_cost(col@, best, col@.len() as int),
            forall|q: u8| q < o ==> order_cost(col@, best, col@.len() as int) <= order_cost(col@, q, col@.len() as int),
            forall|q: u8| q < best ==> order_cost(col@, best, col@.len() as int) < order_cost(col@, q, col@.len() as int),
        decreases 4 - o,
    {
        let c = column_cost(col, o);
        if c < best_cost {
            best = o;
            best_cost = c;
        }
        o = o + 1;
    }
    best
}

// ---------------------------------------------------------------------------------------------
// Period detection
// ---------------------------------------------------------------------------------------------

/// How many of the first `m` positions `i` of `s` have `s[i] == s[i + p]`.
pub open spec fn period_matches(s: Seq<u8>, p: int, m: int) -> int
    decreases m,
{
    if m <= 0 {
        0
    } else {
        period_matches(s, p, m - 1) + if s[m - 1] == s[m - 1 + p] { 1int } else { 0int }
    }
}

fn count_matches(data: &[u8], slen: usize, p: usize) -> (m: u64)
    requires
        1 <= p < slen <= data@.len(),
    ensures
        m as int == period_matches(data@, p as int, slen - p),
        m <= slen - p,
{
    let mut m: u64 = 0;
    let mut i: usize = 0;
    while i < slen - p
        invariant
            1 <= p < slen <= data@.len(),
            i <= slen - p,
            m as int == period_matches(data@, p as int, i as int),
            m <= i,
        decreases slen - p - i,
    {
        if data[i] == data[i + p] {
            m = m + 1;
        }
        i = i + 1;
    }
    m
}

/// The sampled prefix length: the first 8 KiB.
pub open spec fn sample_len(n: int) -> int {
    if n < 8192 { n } else { 8192 }
}

/// The largest period tried: a quarter of the sample, at most 512.
pub open spec fn max_period(n: int) -> int {
    let s = sample_len(n);
    if s / 4 < 512 { s / 4 } else { 512 }
}

/// The best period among `2 .. q` as `(period, num, den)`, its adjusted score `num / den`
/// (the match rate times `1 + 1/p`): a period replaces the best when its adjusted score is
/// strictly higher and more than 35% of its comparisons match; `(0, 0, 1)` before any.
pub open spec fn period_scan(d: Seq<u8>, slen: int, q: int) -> (int, int, int)
    decreases q,
{
    if q <= 2 {
        (0, 0, 1)
    } else {
        let prev = period_scan(d, slen, q - 1);
        let p = q - 1;
        let comps = slen - p;
        let m = period_matches(d, p, comps);
        let num = m * (p + 1);
        let den = comps * p;
        if num * prev.2 > prev.1 * den && 20 * m > 7 * comps {
            (p, num, den)
        } else {
            prev
        }
    }
}

/// The first `bp / k` (for divisors `k` of `bp` from `k` up to `bp / 2`) that is at least 2 and
/// whose match rate is over 33%, or `bp`.
pub open spec fn sub_period(d: Seq<u8>, slen: int, bp: int, k: int) -> int
    decreases bp / 2 + 1 - k,
{
    if k < 2 || k > bp / 2 {
        bp
    } else if bp % k == 0 && bp / k >= 2 && 100 * period_matches(d, bp / k, slen - bp / k) > 33 * (slen - bp / k) {
        bp / k
    } else {
        sub_period(d, slen, bp, k + 1)
    }
}

/// The period `detect_period` reports for `d`.
pub open spec fn detected_period(d: Seq<u8>) -> int {
    let slen = sample_len(d.len() as int);
    let mp = max_period(d.len() as int);
    if mp < 2 {
        0
    } else {
        let bp = period_scan(d, slen, mp + 1).0;
        if bp > 4 { sub_period(d, slen, bp, 2) } else { bp }
    }
}

/// The record length of `data`, or 0 when none shows: among periods 2 to 512 (and at most a
/// quarter of the first 8 KiB sampled), the one where more than 35% of sampled bytes repeat a
/// period later and whose match rate times `1 + 1/p` is highest (the shortest on a tie); a
/// divisor of it longer than 1 whose match rate is over 33% is preferred, the shortest first.
/// Rates are compared exactly, as fractions.
pub fn detect_period(data: &[u8]) -> (p: usize)
    ensures
        p == detected_period(data@),
        p == 0 || (2 <= p <= 512 && p <= data@.len() / 4),
{
    let slen: usize = if data.len() < 8192 { data.len() } else { 8192 };
    let max_p: usize = if slen / 4 < 512 { slen / 4 } else { 512 };
    if max_p < 2 {
        return 0;
    }
    let mut best_p: usize = 0;
    // best score as a fraction num / den, with num = matches * (p + 1), den = comps * p
    let mut best_num: u64 = 0;
    let mut best_den: u64 = 1;
    let mut p: usize = 2;
    while p <= max_p
        invariant
            8 <= slen <= 8192,
            slen <= data@.len(),
            2 <= max_p <= 512,
            max_p <= slen / 4,
            2 <= p <= max_p + 1,
            best_p == 0 || (2 <= best_p <= max_p),
            best_den >= 1,
            best_num <= 8192 * 513,
            best_num == 0 || best_den >= 1,
            best_den <= 8192 * 512,
            slen == sample_len(data@.len() as int),
            max_p == max_period(data@.len() as int),
            (best_p as int, best_num as int, best_den as int) == period_scan(data@, slen as int, p as int),
        decreases max_p + 1 - p,
    {
        let comps: u64 = (slen - p) as u64;
        let matches = count_matches(data, slen, p);
        proof {
            assert(matches * (p as u64 + 1) <= 8192 * 513) by (nonlinear_arith)
                requires
                    matches <= 8192,
                    p <= 512,
            ;
            assert(comps * (p as u64) <= 8192 * 512) by (nonlinear_arith)
                requires
                    comps <= 8192,
                    p <= 512,
            ;
        }
        let num: u64 = matches * (p as u64 + 1);
        let den: u64 = comps * p as u64;
        proof {
            assert(num * best_den <= (8192 * 513) * (8192 * 512)) by (nonlinear_arith)
                requires
                    num <= 8192 * 513,
                    best_den <= 8192 * 512,
            ;
            assert(best_num * den <= (8192 * 513) * (8192 * 512)) by (nonlinear_arith)
                requires
                    best_num <= 8192 * 513,
                    den <= 8192 * 512,
            ;
        }
        // adj > best and score > 0.35
        if num * best_den > best_num * den && 20 * matches > 7 * comps {
            assert(den >= 1) by (nonlinear_arith)
                requires
                    comps >= 1,
                    p >= 2,
                    den == comps * p,
            ;
            best_p = p;
            best_num = num;
            best_den = den;
        }
        p = p + 1;
    }
    if best_p > 4 {
        let mut d: usize = 2;
        while d <= best_p / 2
            invariant
                8 <= slen <= 8192,
                slen <= data@.len(),
                2 <= max_p <= 512,
                max_p <= slen / 4,
                4 < best_p <= max_p,
                2 <= d,
                slen == sample_len(data@.len() as int),
                max_p == max_period(data@.len() as int),
                best_p as int == period_scan(data@, slen as int, max_p + 1).0,
                sub_period(data@, slen as int, best_p as int, d as int) == sub_period(data@, slen as int, best_p as int, 2),
            decreases best_p / 2 + 1 - d,
        {
            if best_p % d == 0 {
                let sp = best_p / d;
                if sp >= 2 {
                    let comps: u64 = (slen - sp) as u64;
                    let matches = count_matches(data, slen, sp);
                    if 100 * matches > 33 * comps {
                        return sp;
                    }
                }
            }
            d = d + 1;
        }
    }
    best_p
}

// ---------------------------------------------------------------------------------------------
// Encoding
// ---------------------------------------------------------------------------------------------

/// The plain-copy form: length, period 0, then the data.
pub open spec fn passthrough_spec(d: Seq<u8>) -> Seq<u8> {
    le32(d.len() as u32) + le16(0u16) + d
}

fn passthrough(data: &[u8]) -> (r: Vec<u8>)
    ensures
        r@ == passthrough_spec(data@),
{
    let mut out: Vec<u8> = Vec::new();
    push_u32_le(&mut out, data.len() as u32);
    push_u16_le(&mut out, 0);
    append_bytes(&mut out, data);
    out
}

/// Columnar encoding with the detected period, kept only when shorter than the plain copy
/// (which it never is).
pub fn encode(data: &[u8]) -> (r: Vec<u8>)
    requires
        data@.len() <= u32::MAX,
    ensures
        r@ == passthrough_spec(data@),
{
    if data.len() < 32 {
        return passthrough(data);
    }
    let period = detect_period(data);
    if period <= 1 || period > 512 || period > data.len() / 4 {
        return passthrough(data);
    }
    let n = data.len();
    let nrec = n / period;
    let rem = n % period;
    let mut orders: Vec<u8> = Vec::new();
    let mut col_res: Vec<u8> = Vec::new();
    let mut col: usize = 0;
    proof {
        assert(nrec * period + rem == n) by (nonlinear_arith)
            requires
                nrec == n / period,
                rem == n % period,
                period > 0,
        ;
    }
    while col < period
        invariant
            n == data@.len() <= u32::MAX,
            2 <= period <= 512,
            nrec == n / period,
            nrec * period + rem == n,
            col <= period,
            orders@.len() == col,
            col_res@.len() == col * nrec,
        decreases period - col,
    {
        let mut column: Vec<u8> = Vec::new();
        let mut row: usize = 0;
        while row < nrec
            invariant
                n == data@.len(),
                nrec * period <= n,
                col < period,
                row <= nrec,
                column@.len() == row,
            decreases nrec - row,
        {
            proof {
                assert(row * period + col < nrec * period) by (nonlinear_arith)
                    requires
                        row < nrec,
                        col < period,
                ;
            }
            column.push(data[row * period + col]);
            row = row + 1;
        }
        let best = best_order(&column);
        orders.push(best);
        let res = encode_col(&column, best);
        append_bytes(&mut col_res, res.as_slice());
        proof {
            assert(col * nrec + nrec == (col + 1) * nrec) by (nonlinear_arith);
        }
        col = col + 1;
    }
    let mut out: Vec<u8> = Vec::new();
    push_u32_le(&mut out, n as u32);
    push_u16_le(&mut out, period as u16);
    append_bytes(&mut out, orders.as_slice());
    append_bytes(&mut out, col_res.as_slice());
    if rem > 0 {
        append_bytes(&mut out, &data[nrec * period..n]);
    }
    let pt = passthrough(data);
    proof {
        lemma_le_lengths();
        assert(period * nrec == nrec * period) by (nonlinear_arith);
        assert(out@.len() == 6 + period + n);
    }
    if out.len() < pt.len() {
        out
    } else {
        pt
    }
}

// ---------------------------------------------------------------------------------------------
// Decoding
// ---------------------------------------------------------------------------------------------

/// How many whole columns of `nrec` bytes fit after position `pos` (at most `period`).
pub open spec fn columns_fitting(len: int, pos: int, nrec: int, period: int) -> int {
    if nrec == 0 {
        period
    } else {
        let k = (len - pos) / nrec;
        if k < period { k } else { period }
    }
}

/// The decoded values of column `c`, stored at `pos + c * nrec` with order `orders[c]`.
pub open spec fn column_at(d: Seq<u8>, pos: int, nrec: int, c: int, order: u8) -> Seq<u8> {
    decoded_vals(d.subrange(pos + c * nrec, pos + c * nrec + nrec), order, nrec)
}

/// What `decode` gives for `d`.
pub open spec fn struct_decoded(d: Seq<u8>) -> Seq<u8> {
    if d.len() < 6 || u32_at(d, 0) == 0 {
        Seq::empty()
    } else {
        let orig = u32_at(d, 0) as int;
        let period = u16_at(d, 4) as int;
        if period == 0 {
            d.subrange(6, if orig < d.len() - 6 { 6 + orig } else { d.len() as int })
        } else if 6 + period > d.len() {
            Seq::empty()
        } else {
            let nrec = orig / period;
            let rem = orig % period;
            let pos = 6 + period;
            let ncols = columns_fitting(d.len() as int, pos, nrec, period);
            let main = Seq::new((nrec * ncols) as nat, |k: int| {
                let row = k / ncols;
                let c = k % ncols;
                column_at(d, pos, nrec, c, d[6 + c])[row]
            });
            let end = pos + ncols * nrec;
            let full = if rem > 0 && end + rem <= d.len() { main + d.subrange(end, end + rem) } else { main };
            if full.len() > orig { full.subrange(0, orig) } else { full }
        }
    }
}

proof fn lemma_decoded_len(res: Seq<u8>, order: u8, m: int)
    requires
        0 <= m,
    ensures
        decoded_vals(res, order, m).len() == m,
    decreases m,
{
    if m > 0 {
        lemma_decoded_len(res, order, m - 1);
    }
}

/// Decodes either form.
pub fn decode(data: &[u8]) -> (r: Vec<u8>)
    ensures
        r@ == struct_decoded(data@),
{
    if data.len() < 6 {
        return Vec::new();
    }
    let orig_len = read_u32_le(data, 0) as usize;
    let period = read_u16_le(data, 4) as usize;
    if orig_len == 0 {
        return Vec::new();
    }
    let n = data.len();
    if period == 0 {
        let end: usize = if orig_len < n - 6 { 6 + orig_len } else { n };
        let mut out: Vec<u8> = Vec::new();
        append_bytes(&mut out, &data[6..end]);
        return out;
    }
    if n - 6 < period {
        return Vec::new();
    }
    let nrec = orig_len / period;
    let rem = orig_len % period;
    let base = 6 + period;
    let ghost ncols = columns_fitting(n as int, base as int, nrec as int, period as int);
    // decode the columns that fit
    let mut cols: Vec<Vec<u8>> = Vec::new();
    let mut pos = base;
    let mut c: usize = 0;
    while c < period
        invariant
            n == data@.len(),
            6 + period <= n,
            base == 6 + period,
            1 <= period <= 65535,
            c <= period,
            cols@.len() == c,
            pos == base + c * nrec,
            pos <= n,
            c <= ncols,
            ncols == columns_fitting(n as int, base as int, nrec as int, period as int),
            forall|q: int| 0 <= q < c ==> (#[trigger] cols@[q])@ == column_at(data@, base as int, nrec as int, q, data@[6 + q]),
        ensures
            c == ncols,
            cols@.len() == ncols,
            pos == base + ncols * nrec,
            forall|q: int| 0 <= q < ncols ==> (#[trigger] cols@[q])@ == column_at(data@, base as int, nrec as int, q, data@[6 + q]),
        decreases period - c,
    {
        if n - pos < nrec {
            proof {
                lemma_fit(n as int, base as int, nrec as int, period as int, c as int);
            }
            break;
        }
        let dc = decode_col(&data[pos..pos + nrec], data[6 + c]);
        proof {
            assert(data@.subrange(pos as int, pos + nrec) == data@.subrange(base + c * nrec, base + c * nrec + nrec));
            lemma_fit2(n as int, base as int, nrec as int, period as int, c as int);
        }
        cols.push(dc);
        pos = pos + nrec;
        proof {
            assert(pos == base + (c + 1) * nrec) by (nonlinear_arith)
                requires
                    pos == base + c * nrec + nrec,
            ;
        }
        c = c + 1;
        proof {
            if c == period {
                lemma_fit_all(n as int, base as int, nrec as int, period as int);
            }
        }
    }
    let ncols_x = cols.len();
    let mut out: Vec<u8> = Vec::new();
    let mut row: usize = 0;
    proof {
        assert forall|q: int| 0 <= q < ncols implies (#[trigger] cols@[q])@.len() == nrec by {
            lemma_decoded_len(data@.subrange(base + q * nrec, base + q * nrec + nrec), data@[6 + q], nrec as int);
        }
    }
    while row < nrec
        invariant
            cols@.len() == ncols_x,
            ncols_x == ncols,
            0 <= ncols <= period,
            forall|q: int| 0 <= q < ncols ==> (#[trigger] cols@[q])@ == column_at(data@, base as int, nrec as int, q, data@[6 + q]),
            forall|q: int| 0 <= q < ncols ==> (#[trigger] cols@[q])@.len() == nrec,
            row <= nrec,
            out@.len() == row * ncols,
            forall|k: int| 0 <= k < out@.len() ==> #[trigger] out@[k] == column_at(data@, base as int, nrec as int, k % ncols, data@[6 + k % ncols])[k / ncols],
        decreases nrec - row,
    {
        let mut cc: usize = 0;
        while cc < ncols_x
            invariant
                cols@.len() == ncols_x,
                ncols_x == ncols,
                forall|q: int| 0 <= q < ncols ==> (#[trigger] cols@[q])@ == column_at(data@, base as int, nrec as int, q, data@[6 + q]),
                forall|q: int| 0 <= q < ncols ==> (#[trigger] cols@[q])@.len() == nrec,
                row < nrec,
                cc <= ncols_x,
                out@.len() == row * ncols + cc,
                forall|k: int| 0 <= k < out@.len() ==> #[trigger] out@[k] == column_at(data@, base as int, nrec as int, k % ncols, data@[6 + k % ncols])[k / ncols],
            decreases ncols_x - cc,
        {
            let v = cols[cc][row];
            let ghost k = out@.len() as int;
            out.push(v);
            proof {
                lemma_div_mod_row(row as int, cc as int, ncols as int);
            }
            cc = cc + 1;
        }
        proof {
            assert(row * ncols + ncols == (row + 1) * ncols) by (nonlinear_arith);
        }
        row = row + 1;
    }
    let ghost main = out@;
    if rem > 0 && pos <= n && n - pos >= rem {
        append_bytes(&mut out, &data[pos..pos + rem]);
    }
    if out.len() > orig_len {
        out.truncate(orig_len);
    }
    proof {
        let mainspec = Seq::new((nrec * ncols) as nat, |k: int| {
            let row = k / ncols;
            let c = k % ncols;
            column_at(data@, base as int, nrec as int, c, data@[6 + c])[row]
        });
        assert(main =~= mainspec);
    }
    out
}

proof fn lemma_div_mod_row(row: int, c: int, ncols: int)
    requires
        0 <= row,
        0 <= c < ncols,
    ensures
        (row * ncols + c) / ncols == row,
        (row * ncols + c) % ncols == c,
{
    vstd::arithmetic::div_mod::lemma_fundamental_div_mod_converse(row * ncols + c, ncols, row, c);
}

proof fn lemma_fit(n: int, base: int, nrec: int, period: int, c: int)
    requires
        0 <= c < period,
        base + c * nrec <= n,
        n - (base + c * nrec) < nrec,
        0 < nrec,
    ensures
        c == columns_fitting(n, base, nrec, period),
{
    vstd::arithmetic::div_mod::lemma_fundamental_div_mod_converse(n - base, nrec, c, n - base - c * nrec);
}

proof fn lemma_fit2(n: int, base: int, nrec: int, period: int, c: int)
    requires
        0 <= c < period,
        c <= columns_fitting(n, base, nrec, period),
        base + c * nrec + nrec <= n,
        base <= n,
        0 <= nrec,
    ensures
        c + 1 <= columns_fitting(n, base, nrec, period),
{
    if nrec > 0 {
        assert((c + 1) * nrec <= n - base) by (nonlinear_arith)
            requires
                base + c * nrec + nrec <= n,
        ;
        vstd::arithmetic::div_mod::lemma_div_is_ordered((c + 1) * nrec, n - base, nrec);
        vstd::arithmetic::div_mod::lemma_div_multiples_vanish(c + 1, nrec);
    }
}

proof fn lemma_fit_all(n: int, base: int, nrec: int, period: int)
    requires
        period <= columns_fitting(n, base, nrec, period),
    ensures
        period == columns_fitting(n, base, nrec, period),
{
}

/// The columnar encoder keeps the plain copy, which decodes back to the data.
pub proof fn lemma_struct_split_roundtrip(d: Seq<u8>)
    requires
        d.len() <= u32::MAX,
    ensures
        struct_decoded(passthrough_spec(d)) == d,
{
    lemma_le_lengths();
    let e = passthrough_spec(d);
    crate::bytes::lemma_u32_at(Seq::empty(), d.len() as u32, le16(0u16) + d);
    assert(Seq::<u8>::empty() + le32(d.len() as u32) + (le16(0u16) + d) =~= e);
    crate::bytes::lemma_u16_at(le32(d.len() as u32), 0u16, d);
    assert(e.subrange(6, e.len() as int) =~= d);
}

} // verus!
