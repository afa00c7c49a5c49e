//! Delta coding with an auto-detected stride (1, 2 or 4 bytes, or the frame size of a WAV file).
//!
//! Layout: `[stride] [first stride bytes] [byte - byte stride back, wrapping]...`
use vstd::prelude::*;
use vstd::wrapping::u8_specs;
use crate::bytes::{append_bytes, u16_at, read_u16_le};

verus! {

/// The byte `x` read as a two's-complement `i8`.
pub open spec fn signed8(x: u8) -> int {
    if x < 128 { x as int } else { x - 256 }
}

/// Sum over `i < k` of the squared signed difference between `s[i + stride]` and `s[i]`.
pub open spec fn stride_score(s: Seq<u8>, stride: int, k: int) -> int
    decreases k,
{
    if k <= 0 {
        0
    } else {
        let d = signed8(u8_specs::wrapping_sub(s[k - 1 + stride], s[k - 1]));
        stride_score(s, stride, k - 1) + d * d
    }
}

/// The score of a stride over the whole sample.
pub open spec fn full_score(s: Seq<u8>, stride: int) -> int {
    stride_score(s, stride, s.len() - stride)
}

/// Keeps the candidate stride `c` if it beats the best so far (strictly lower score).
pub open spec fn consider(sample: Seq<u8>, best: (int, int), c: int) -> (int, int) {
    if sample.len() > c && full_score(sample, c) < best.1 {
        (c, full_score(sample, c))
    } else {
        best
    }
}

/// The WAV frame size (channels times bytes per sample) if `data` opens with a RIFF/WAVE
/// header whose frame is between 2 and 8 bytes.
pub open spec fn wav_frame(data: Seq<u8>) -> Option<int> {
    if data.len() > 44 && data[0] == 82 && data[1] == 73 && data[2] == 70 && data[3] == 70
        && data[8] == 87 && data[9] == 65 && data[10] == 86 && data[11] == 69 {
        let channels = u16_at(data, 22) as int;
        let bits = u16_at(data, 34) as int;
        let frame = channels * (bits / 8);
        if 2 <= frame <= 8 { Some(frame) } else { None }
    } else {
        None
    }
}

/// The stride the encoder uses: the WAV frame if there is one, else whichever of 1, 2, 4
/// gives the lowest squared-difference score over the first 4096 bytes (ties to the smaller).
pub open spec fn chosen_stride(data: Seq<u8>) -> int {
    match wav_frame(data) {
        Some(f) => f,
        None => {
            let sample = data.subrange(0, if data.len() < 4096 { data.len() as int } else { 4096 });
            let b = consider(sample, (1, u64::MAX as int), 1);
            let b = consider(sample, b, 2);
            let b = consider(sample, b, 4);
            b.0
        },
    }
}

/// The delta body: the first `stride` bytes as they are, then each byte minus the byte
/// `stride` positions earlier, wrapping.
pub open spec fn delta_body(data: Seq<u8>, stride: int) -> Seq<u8> {
    Seq::new(
        data.len(),
        |i: int|
            if i < stride {
                data[i]
            } else {
                u8_specs::wrapping_sub(data[i], data[i - stride])
            },
    )
}

/// The encoding of `data`.
pub open spec fn delta_encoded(data: Seq<u8>) -> Seq<u8> {
    if data.len() == 0 {
        Seq::empty()
    } else {
        seq![chosen_stride(data) as u8] + delta_body(data, chosen_stride(data))
    }
}

/// The first `n` bytes recovered from a delta body: body bytes below `stride`, then each
/// body byte plus the recovered byte `stride` positions earlier, wrapping.
pub open spec fn undelta(body: Seq<u8>, stride: int, n: int) -> Seq<u8>
    decreases n,
{
    if n <= 0 {
        Seq::empty()
    } else {
        let prev = undelta(body, stride, n - 1);
        if n - 1 < stride {
            prev.push(body[n - 1])
        } else {
            prev.push(u8_specs::wrapping_add(body[n - 1], prev[n - 1 - stride]))
        }
    }
}

/// What decoding `data` yields.
pub open spec fn delta_decoded(data: Seq<u8>) -> Seq<u8> {
    if data.len() < 2 {
        data
    } else if data[0] == 0 || data[0] > data.len() - 1 {
        data.subrange(1, data.len() as int)
    } else {
        let body = data.subrange(1, data.len() as int);
        undelta(body, data[0] as int, body.len() as int)
    }
}

proof fn lemma_undelta_len(body: Seq<u8>, stride: int, n: int)
    requires
        0 <= n,
    ensures
        undelta(body, stride, n).len() == n,
    decreases n,
{
    if n > 0 {
        lemma_undelta_len(body, stride, n - 1);
    }
}

proof fn lemma_undelta_inverts(data: Seq<u8>, stride: int, n: int)
    requires
        1 <= stride,
        0 <= n <= data.len(),
    ensures
        undelta(delta_body(data, stride), stride, n) == data.subrange(0, n),
    decreases n,
{
    if n > 0 {
        lemma_undelta_inverts(data, stride, n - 1);
        lemma_undelta_len(delta_body(data, stride), stride, n - 1);
        assert(data.subrange(0, n) =~= data.subrange(0, n - 1).push(data[n - 1]));
    }
}

proof fn lemma_undelta_prefix(body: Seq<u8>, stride: int, k: int)
    requires
        0 <= k <= stride,
        k <= body.len(),
    ensures
        undelta(body, stride, k) == body.subrange(0, k),
    decreases k,
{
    if k > 0 {
        lemma_undelta_prefix(body, stride, k - 1);
        assert(body.subrange(0, k) =~= body.subrange(0, k - 1).push(body[k - 1]));
    }
}

proof fn lemma_chosen_stride_range(data: Seq<u8>)
    requires
        data.len() > 0,
    ensures
        1 <= chosen_stride(data) <= 8,
        chosen_stride(data) <= data.len(),
{
}

/// Decoding an encoding gives back the input.
pub proof fn lemma_delta_roundtrip(data: Seq<u8>)
    ensures
        delta_decoded(delta_encoded(data)) == data,
{
    if data.len() > 0 {
        lemma_chosen_stride_range(data);
        let s = chosen_stride(data);
        let e = delta_encoded(data);
        let body = delta_body(data, s);
        assert(e.subrange(1, e.len() as int) =~= body);
        lemma_undelta_inverts(data, s, data.len() as int);
        assert(data.subrange(0, data.len() as int) =~= data);
        if data.len() == 1 {
            assert(e.len() == 2);
        }
    }
}

fn signed_square(x: u8) -> (r: u64)
    ensures
        r == signed8(x) * signed8(x),
        r <= 16384,
{
    if x < 128 {
        assert(x * x <= 127 * 127) by (nonlinear_arith)
            requires x < 128;
        (x as u64) * (x as u64)
    } else {
        let m: u64 = 256 - (x as u64);
        assert(m * m <= 128 * 128) by (nonlinear_arith)
            requires m <= 128;
        assert((x - 256) * (x - 256) == m * m) by (nonlinear_arith)
            requires m == 256 - x;
        m * m
    }
}

fn score(sample: &[u8], stride: usize) -> (r: u64)
    requires
        stride < sample.len() <= 4096,
    ensures
        r == full_score(sample@, stride as int),
{
    let n = sample.len() - stride;
    let mut total: u64 = 0;
    let mut i: usize = 0;
    while i < n
        invariant
            n == sample.len() - stride,
            stride < sample.len() <= 4096,
            i <= n,
            total == stride_score(sample@, stride as int, i as int),
            total <= 16384 * i,
        decreases n - i,
    {
        let sq = signed_square(sample[i + stride].wrapping_sub(sample[i]));
        total = total + sq;
        i = i + 1;
    }
    total
}

fn detect_stride(data: &[u8]) -> (r: usize)
    requires
        data.len() > 0,
    ensures
        r == chosen_stride(data@),
{
    if data.len() > 44 && data[0] == 82 && data[1] == 73 && data[2] == 70 && data[3] == 70
        && data[8] == 87 && data[9] == 65 && data[10] == 86 && data[11] == 69 {
        let channels = read_u16_le(data, 22) as usize;
        let bits = read_u16_le(data, 34) as usize;
        assert(channels * (bits / 8) <= 65535 * 8191) by (nonlinear_arith)
            requires channels <= 65535, bits / 8 <= 8191;
        let frame = channels * (bits / 8);
        if frame >= 2 && frame <= 8 {
            return frame;
        }
    }
    let slen = if data.len() < 4096 { data.len() } else { 4096 };
    let sample = &data[0..slen];
    let mut best_stride: usize = 1;
    let mut best_score: u64 = u64::MAX;
    if sample.len() > 1 {
        let sc = score(sample, 1);
        if sc < best_score {
            best_score = sc;
            best_stride = 1;
        }
    }
    if sample.len() > 2 {
        let sc = score(sample, 2);
        if sc < best_score {
            best_score = sc;
            best_stride = 2;
        }
    }
    if sample.len() > 4 {
        let sc = score(sample, 4);
        if sc < best_score {
            best_score = sc;
            best_stride = 4;
        }
    }
    best_stride
}

/// Delta-encodes `data`.
pub fn encode(data: &[u8]) -> (r: Vec<u8>)
    ensures
        r@ == delta_encoded(data@),
{
    if data.len() == 0 {
        return Vec::new();
    }
    let stride = detect_stride(data);
    proof { lemma_chosen_stride_range(data@); }
    let mut out: Vec<u8> = Vec::new();
    out.push(stride as u8);
    append_bytes(&mut out, &data[0..stride]);
    let mut i = stride;
    while i < data.len()
        invariant
            1 <= stride <= i <= data.len(),
            stride == chosen_stride(data@),
            out@ == seq![stride as u8] + delta_body(data@, stride as int).subrange(0, i as int),
        decreases data.len() - i,
    {
        out.push(data[i].wrapping_sub(data[i - stride]));
        i = i + 1;
        assert(delta_body(data@, stride as int).subrange(0, i as int)
            =~= delta_body(data@, stride as int).subrange(0, i - 1).push(
            u8_specs::wrapping_sub(data@[i - 1], data@[i - 1 - stride])));
    }
    assert(delta_body(data@, stride as int).subrange(0, i as int) =~= delta_body(data@, stride as int));
    out
}

/// Reverses [`encode`].
pub fn decode(data: &[u8]) -> (r: Vec<u8>)
    ensures
        r@ == delta_decoded(data@),
{
    if data.len() < 2 {
        let mut out: Vec<u8> = Vec::new();
        append_bytes(&mut out, data);
        return out;
    }
    let stride = data[0] as usize;
    if stride == 0 || stride > data.len() - 1 {
        let mut out: Vec<u8> = Vec::new();
        append_bytes(&mut out, &data[1..data.len()]);
        return out;
    }
    let body = &data[1..data.len()];
    let mut out: Vec<u8> = Vec::new();
    append_bytes(&mut out, &body[0..stride]);
    proof { lemma_undelta_prefix(body@, stride as int, stride as int); }
    let mut i = stride;
    while i < body.len()
        invariant
            1 <= stride <= i <= body.len(),
            out@ == undelta(body@, stride as int, i as int),
        decreases body.len() - i,
    {
        proof { lemma_undelta_len(body@, stride as int, i as int); }
        let v = body[i].wrapping_add(out[i - stride]);
        out.push(v);
        i = i + 1;
    }
    out
}

} // verus!
