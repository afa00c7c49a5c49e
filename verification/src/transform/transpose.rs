//! Row-to-column transposition of fixed-width records.
//!
//! Layout: `[u32 length] [u16 record width] [column 0 of every record] ... [leftover bytes]`;
//! width 1 means the data follows untransposed.
use vstd::prelude::*;
use crate::bytes::{
    le16, le32, u16_at, u32_at, push_u16_le, push_u32_le, read_u16_le, read_u32_le, lemma_u16_at,
    lemma_u32_at, lemma_le_lengths, append_bytes,
};

verus! {

/// Lengths (newline included) of the lines of `d` ending before position `i`, for lines of
/// 2 to 1024 bytes; `last` is where the current line starts.
pub open spec fn line_lengths(d: Seq<u8>, i: int, last: int) -> Seq<int>
    decreases d.len() - i,
{
    if i >= d.len() || i < 0 {
        Seq::empty()
    } else if d[i] == 10 {
        let len = i - last + 1;
        let rest = line_lengths(d, i + 1, i + 1);
        if 1 < len <= 1024 { seq![len] + rest } else { rest }
    } else {
        line_lengths(d, i + 1, last)
    }
}

/// Number of entries of `s` equal to `v`.
pub open spec fn count_eq(s: Seq<int>, v: int) -> nat
    decreases s.len(),
{
    if s.len() == 0 {
        0
    } else {
        (if s[0] == v { 1nat } else { 0nat }) + count_eq(s.skip(1), v)
    }
}

/// Scans candidate lengths `v..=1024` keeping the first with the strictly highest count.
pub open spec fn mode_scan(s: Seq<int>, v: int, best: (int, nat)) -> (int, nat)
    decreases 1025 - v,
{
    if v > 1024 {
        best
    } else {
        let c = count_eq(s, v);
        mode_scan(s, v + 1, if c > best.1 { (v, c) } else { best })
    }
}

/// The record width suggested by line lengths: the most common length (the smallest one on a
/// tie) if there are at least four lines and it covers at least half of them, else 0.
pub open spec fn newline_width(d: Seq<u8>) -> int {
    let ls = line_lengths(d, 0, 0);
    if ls.len() < 4 {
        0
    } else {
        let best = mode_scan(ls, 0, (0, 0));
        if best.1 * 2 >= ls.len() { best.0 } else { 0 }
    }
}

/// Number of `i < k` with `s[i] == s[i + p]`.
pub open spec fn self_matches(s: Seq<u8>, p: int, k: int) -> nat
    decreases k,
{
    if k <= 0 {
        0
    } else {
        self_matches(s, p, k - 1) + if s[k - 1] == s[k - 1 + p] { 1nat } else { 0nat }
    }
}

/// Scans periods `p..=max_p` of the sample keeping the first with the strictly highest match
/// rate (in thousandths) above 300.
pub open spec fn period_scan(s: Seq<u8>, p: int, max_p: int, best: (int, int)) -> (int, int)
    decreases max_p + 1 - p,
{
    if p > max_p || p < 1 {
        best
    } else {
        let comps = s.len() - p;
        let score = (self_matches(s, p, comps) * 1000) as int / comps;
        period_scan(s, p + 1, max_p, if score > best.1 && score > 300 { (p, score) } else { best })
    }
}

/// The record width suggested by autocorrelation over the first 1024 bytes (0 if none, or for
/// inputs under 64 bytes).
pub open spec fn period_width(d: Seq<u8>) -> int {
    if d.len() < 64 {
        0
    } else {
        let max_p = if 256 < d.len() / 4 { 256 } else { d.len() / 4 };
        let sample = d.subrange(0, if 1024 < d.len() { 1024 } else { d.len() as int });
        period_scan(sample, 2, max_p as int, (0, 0)).0
    }
}

/// The record width the encoder uses.
pub open spec fn record_width(d: Seq<u8>) -> int {
    if newline_width(d) > 1 { newline_width(d) } else { period_width(d) }
}

/// Column-major order of the `rows` full records of width `w` at the front of `d`.
pub open spec fn transposed(d: Seq<u8>, w: int, rows: int) -> Seq<u8> {
    Seq::new((w * rows) as nat, |k: int| d[(k % rows) * w + k / rows])
}

/// The encoding of `d`.
pub open spec fn transpose_encoded(d: Seq<u8>) -> Seq<u8> {
    if d.len() == 0 {
        le32(0) + le16(0)
    } else {
        let w = record_width(d);
        if w <= 1 || w > d.len() {
            le32(d.len() as u32) + le16(1) + d
        } else {
            let rows = d.len() as int / w;
            le32(d.len() as u32) + le16(w as u16) + transposed(d, w, rows as int)
                + d.subrange(rows * w, d.len() as int)
        }
    }
}

/// What decoding `data` yields.
pub open spec fn transpose_decoded(data: Seq<u8>) -> Seq<u8> {
    if data.len() < 6 {
        Seq::empty()
    } else {
        let n = u32_at(data, 0) as int;
        let w = u16_at(data, 4) as int;
        let payload = data.subrange(6, data.len() as int);
        if w <= 1 {
            payload.subrange(0, if n < payload.len() { n } else { payload.len() as int })
        } else {
            let rows = n / w;
            let rem = n % w;
            if payload.len() < rows * w + rem {
                payload
            } else {
                Seq::new(n as nat, |i: int|
                    if i < rows * w { payload[(i % w) * rows + i / w] } else { payload[i] })
            }
        }
    }
}

proof fn lemma_width_bounds(d: Seq<u8>)
    ensures
        newline_width(d) <= 1024,
        period_width(d) <= 256,
{
    let ls = line_lengths(d, 0, 0);
    if ls.len() >= 4 {
        lemma_mode_scan_bound(ls, 0, (0, 0));
    }
    if d.len() >= 64 {
        let max_p = if 256 < d.len() / 4 { 256 } else { d.len() / 4 };
        let sample = d.subrange(0, if 1024 < d.len() { 1024 } else { d.len() as int });
        lemma_period_scan_bound(sample, 2, max_p as int, (0, 0));
    }
}

proof fn lemma_mode_scan_bound(s: Seq<int>, v: int, best: (int, nat))
    requires
        best.0 <= 1024,
    ensures
        mode_scan(s, v, best).0 <= 1024,
    decreases 1025 - v,
{
    if v <= 1024 {
        let c = count_eq(s, v);
        lemma_mode_scan_bound(s, v + 1, if c > best.1 { (v, c) } else { best });
    }
}

proof fn lemma_period_scan_bound(s: Seq<u8>, p: int, max_p: int, best: (int, int))
    requires
        best.0 <= 256,
        max_p <= 256,
    ensures
        period_scan(s, p, max_p, best).0 <= 256,
    decreases max_p + 1 - p,
{
    if p <= max_p && p >= 1 {
        let comps = s.len() - p;
        let score = (self_matches(s, p, comps) * 1000) as int / comps;
        lemma_period_scan_bound(s, p + 1, max_p, if score > best.1 && score > 300 { (p, score) } else { best });
    }
}

/// Decoding an encoding gives back the input, for inputs shorter than 2^32 bytes.
pub proof fn lemma_transpose_roundtrip(d: Seq<u8>)
    requires
        d.len() <= u32::MAX,
    ensures
        transpose_decoded(transpose_encoded(d)) == d,
{
    lemma_le_lengths();
    let e = transpose_encoded(d);
    if d.len() == 0 {
        lemma_u32_at(Seq::empty(), 0u32, le16(0));
        lemma_u16_at(le32(0), 0u16, Seq::empty());
        assert(Seq::<u8>::empty() + le32(0) + le16(0) =~= e);
        assert(le32(0) + le16(0) + Seq::<u8>::empty() =~= e);
        assert(e.subrange(6, 6) =~= Seq::<u8>::empty());
    } else {
        lemma_width_bounds(d);
        let w = record_width(d);
        if w <= 1 || w > d.len() {
            lemma_u32_at(Seq::empty(), d.len() as u32, le16(1) + d);
            assert(Seq::<u8>::empty() + le32(d.len() as u32) + (le16(1) + d) =~= e);
            lemma_u16_at(le32(d.len() as u32), 1u16, d);
            let payload = e.subrange(6, e.len() as int);
            assert(payload =~= d);
            assert(payload.subrange(0, d.len() as int) =~= d);
        } else {
            let rows = d.len() as int / w;
            let t = transposed(d, w, rows);
            let tail = d.subrange(rows * w, d.len() as int);
            assert(w * rows <= d.len()) by (nonlinear_arith) requires rows == d.len() as int / w, w > 0;
            assert(rows * w == w * rows) by (nonlinear_arith);
            lemma_u32_at(Seq::empty(), d.len() as u32, le16(w as u16) + t + tail);
            assert(Seq::<u8>::empty() + le32(d.len() as u32) + (le16(w as u16) + t + tail) =~= e);
            lemma_u16_at(le32(d.len() as u32), w as u16, t + tail);
            assert(le32(d.len() as u32) + le16(w as u16) + (t + tail) =~= e);
            let payload = e.subrange(6, e.len() as int);
            assert(payload =~= t + tail);
            assert(d.len() as int % w + rows * w == d.len()) by (nonlinear_arith) requires rows == d.len() as int / w, w > 0;
            let out = transpose_decoded(e);
            assert(out =~= d) by {
                assert forall|i: int| 0 <= i < d.len() implies out[i] == d[i] by {
                    if i < rows * w {
                        let r = i / w;
                        let c = i % w;
                        assert(i == r * w + c) by (nonlinear_arith) requires r == i / w, c == i % w, w > 0;
                        assert(0 <= r < rows) by (nonlinear_arith) requires r == i / w, i < rows * w, w > 0, i >= 0;
                        let k = c * rows + r;
                        assert(k < w * rows) by (nonlinear_arith) requires 0 <= c < w, 0 <= r < rows, k == c * rows + r;
                        assert(k % rows == r && k / rows == c) by (nonlinear_arith)
                            requires k == c * rows + r, 0 <= r < rows, c >= 0;
                        assert(payload[k] == t[k]);
                    } else {
                        assert(payload[i] == tail[i - rows * w]);
                    }
                }
            }
        }
    }
}

fn count_line_lengths(data: &[u8]) -> (r: (Vec<usize>, usize))
    ensures
        r.0@.len() == 1025,
        r.1 == line_lengths(data@, 0, 0).len(),
        forall|v: int| 0 <= v < 1025 ==> #[trigger] r.0@[v] == count_eq(line_lengths(data@, 0, 0), v),
{
    let mut counts: Vec<usize> = vec![0usize; 1025];
    let mut total: usize = 0;
    let mut last: usize = 0;
    let mut i: usize = 0;
    while i < data.len()
        invariant
            i <= data.len(),
            last <= i,
            counts@.len() == 1025,
            total + line_lengths(data@, i as int, last as int).len() == line_lengths(data@, 0, 0).len(),
            total <= i,
            forall|v: int| 0 <= v < 1025 ==> #[trigger] counts@[v] as int
                + count_eq(line_lengths(data@, i as int, last as int), v) == count_eq(line_lengths(data@, 0, 0), v),
            forall|v: int| 0 <= v < 1025 ==> #[trigger] counts@[v] <= i,
        decreases data.len() - i,
    {
        if data[i] == 10 {
            let len = i - last + 1;
            if len > 1 && len <= 1024 {
                let c = counts[len];
                counts.set(len, c + 1);
                total = total + 1;
                proof {
                    let rest = line_lengths(data@, i + 1, i + 1);
                    assert(line_lengths(data@, i as int, last as int) == seq![len as int] + rest);
                    assert forall|v: int| 0 <= v < 1025 implies
                        count_eq(seq![len as int] + rest, v) == (if v == len { 1nat } else { 0nat }) + count_eq(rest, v) by {
                        assert((seq![len as int] + rest).skip(1) =~= rest);
                    }
                }
            }
            last = i + 1;
        }
        i = i + 1;
    }
    (counts, total)
}

fn detect_newline_records(data: &[u8]) -> (r: usize)
    ensures
        r == newline_width(data@),
{
    let (counts, total) = count_line_lengths(data);
    if total < 4 {
        return 0;
    }
    let ghost ls = line_lengths(data@, 0, 0);
    let mut best_len: usize = 0;
    let mut best_count: usize = 0;
    let mut v: usize = 0;
    while v <= 1024
        invariant
            v <= 1025,
            counts@.len() == 1025,
            forall|x: int| 0 <= x < 1025 ==> #[trigger] counts@[x] == count_eq(ls, x),
            mode_scan(ls, v as int, (best_len as int, best_count as nat)) == mode_scan(ls, 0, (0, 0)),
            best_len <= 1024,
        decreases 1025 - v,
    {
        if counts[v] > best_count {
            best_count = counts[v];
            best_len = v;
        }
        v = v + 1;
    }
    if (best_count as u128) * 2 >= total as u128 {
        best_len
    } else {
        0
    }
}

fn count_self_matches(sample: &[u8], p: usize) -> (r: u64)
    requires
        p <= sample.len(),
    ensures
        r == self_matches(sample@, p as int, (sample.len() - p) as int),
        r <= sample.len() - p,
{
    let comps = sample.len() - p;
    let mut matches: u64 = 0;
    let mut i: usize = 0;
    while i < comps
        invariant
            comps == sample.len() - p,
            i <= comps,
            matches == self_matches(sample@, p as int, i as int),
            matches <= i,
        decreases comps - i,
    {
        if sample[i] == sample[i + p] {
            matches = matches + 1;
        }
        i = i + 1;
    }
    matches
}

fn detect_period(data: &[u8]) -> (r: usize)
    ensures
        r == period_width(data@),
{
    if data.len() < 64 {
        return 0;
    }
    let max_period = if 256 < data.len() / 4 { 256 } else { data.len() / 4 };
    let sample_len = if 1024 < data.len() { 1024 } else { data.len() };
    let sample = &data[0..sample_len];
    let mut best_period: usize = 0;
    let mut best_score: u64 = 0;
    let mut period: usize = 2;
    while period <= max_period
        invariant
            2 <= period <= max_period + 1,
            max_period <= 256,
            max_period <= data.len() / 4,
            sample_len == sample@.len(),
            64 <= sample_len <= 1024,
            sample_len == if 1024 < data.len() { 1024 } else { data.len() },
            sample@ == data@.subrange(0, sample_len as int),
            period_scan(sample@, period as int, max_period as int, (best_period as int, best_score as int)).0
                == period_width(data@),
            best_score <= 1000,
        decreases max_period + 1 - period,
    {
        let comparisons = sample_len - period;
        let matches = count_self_matches(sample, period);
        assert(matches * 1000 <= comparisons * 1000) by (nonlinear_arith) requires matches <= comparisons;
        let score = matches * 1000 / (comparisons as u64);
        assert(score <= 1000) by (nonlinear_arith)
            requires score == matches * 1000 / (comparisons as int), matches <= comparisons, comparisons > 0;
        if score > best_score && score > 300 {
            best_score = score;
            best_period = period;
        }
        period = period + 1;
    }
    best_period
}

fn detect_record_width(data: &[u8]) -> (r: usize)
    ensures
        r == record_width(data@),
        r <= 1024,
{
    proof { lemma_width_bounds(data@); }
    let nw = detect_newline_records(data);
    if nw > 1 {
        return nw;
    }
    detect_period(data)
}

/// Transposes fixed-width records into columns.
pub fn encode(data: &[u8]) -> (r: Vec<u8>)
    ensures
        r@ == transpose_encoded(data@),
{
    let mut result: Vec<u8> = Vec::new();
    if data.len() == 0 {
        push_u32_le(&mut result, 0);
        push_u16_le(&mut result, 0);
        return result;
    }
    let record_width = detect_record_width(data);
    if record_width <= 1 || record_width > data.len() {
        push_u32_le(&mut result, data.len() as u32);
        push_u16_le(&mut result, 1);
        append_bytes(&mut result, data);
        return result;
    }
    let num_records = data.len() / record_width;
    push_u32_le(&mut result, data.len() as u32);
    push_u16_le(&mut result, record_width as u16);
    let ghost header = result@;
    let ghost t = transposed(data@, record_width as int, num_records as int);
    assert(num_records * record_width <= data.len()) by (nonlinear_arith)
        requires num_records == data.len() / record_width, record_width > 0;
    let mut col: usize = 0;
    while col < record_width
        invariant
            1 < record_width <= data.len(),
            num_records == data.len() / record_width,
            num_records * record_width <= data.len(),
            col <= record_width,
            t == transposed(data@, record_width as int, num_records as int),
            result@ == header + t.subrange(0, col * num_records),
        decreases record_width - col,
    {
        let mut row: usize = 0;
        while row < num_records
            invariant
                1 < record_width <= data.len(),
                num_records == data.len() / record_width,
                num_records * record_width <= data.len(),
                col < record_width,
                row <= num_records,
                t == transposed(data@, record_width as int, num_records as int),
                result@ == header + t.subrange(0, col * num_records + row),
            decreases num_records - row,
        {
            assert(row * record_width + col < num_records * record_width) by (nonlinear_arith)
                requires row < num_records, col < record_width;
            result.push(data[row * record_width + col]);
            proof {
                let k = col * num_records + row;
                assert(k < record_width * num_records) by (nonlinear_arith)
                    requires row < num_records, col < record_width, k == col * num_records + row;
                assert(k % (num_records as int) == row && k / (num_records as int) == col) by (nonlinear_arith)
                    requires k == col * num_records + row, row < num_records;
                assert(t[k] == data@[row * record_width + col]);
                assert(t.subrange(0, k + 1) =~= t.subrange(0, k).push(t[k]));
            }
            row = row + 1;
        }
        assert(col * num_records + num_records == (col + 1) * num_records) by (nonlinear_arith);
        col = col + 1;
    }
    assert(t.subrange(0, record_width * num_records) =~= t);
    assert(record_width * num_records == num_records * record_width) by (nonlinear_arith);
    append_bytes(&mut result, &data[num_records * record_width..data.len()]);
    result
}

/// Reverses [`encode`].
pub fn decode(data: &[u8]) -> (r: Vec<u8>)
    ensures
        r@ == transpose_decoded(data@),
{
    if data.len() < 6 {
        return Vec::new();
    }
    let original_len = read_u32_le(data, 0) as usize;
    let record_width = read_u16_le(data, 4) as usize;
    let payload = &data[6..data.len()];
    if record_width <= 1 {
        let end = if original_len < payload.len() { original_len } else { payload.len() };
        let mut out: Vec<u8> = Vec::new();
        append_bytes(&mut out, &payload[0..end]);
        return out;
    }
    let num_records = original_len / record_width;
    let remainder = original_len % record_width;
    assert(num_records * record_width + remainder == original_len) by (nonlinear_arith)
        requires num_records == original_len / record_width, remainder == original_len % record_width, record_width > 0;
    let transposed_len = num_records * record_width;
    if payload.len() < transposed_len + remainder {
        let mut out: Vec<u8> = Vec::new();
        append_bytes(&mut out, payload);
        return out;
    }
    let ghost spec_out = transpose_decoded(data@);
    assert(spec_out =~= Seq::new(original_len as nat, |i: int|
        if i < num_records * record_width { payload@[(i % record_width as int) * num_records + i / record_width as int] }
        else { payload@[i] }));
    let mut result: Vec<u8> = Vec::new();
    let mut i: usize = 0;
    while i < original_len
        invariant
            1 < record_width,
            num_records == original_len / record_width,
            transposed_len == num_records * record_width,
            transposed_len + remainder == original_len <= payload.len(),
            i <= original_len,
            payload@ == data@.subrange(6, data@.len() as int),
            original_len == u32_at(data@, 0),
            record_width == u16_at(data@, 4),
            spec_out == Seq::new(original_len as nat, |i: int|
                if i < num_records * record_width { payload@[(i % record_width as int) * num_records + i / record_width as int] }
                else { payload@[i] }),
            result@ == spec_out.subrange(0, i as int),
        decreases original_len - i,
    {
        if i < transposed_len {
            let row = i / record_width;
            let col = i % record_width;
            assert(col * num_records + row < transposed_len) by (nonlinear_arith)
                requires row == i / record_width, col == i % record_width, i < transposed_len,
                    transposed_len == num_records * record_width, record_width > 0;
            result.push(payload[col * num_records + row]);
        } else {
            result.push(payload[i]);
        }
        i = i + 1;
        assert(result@ =~= spec_out.subrange(0, i as int));
    }
    result
}

} // verus!
