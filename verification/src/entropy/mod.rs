//! Entropy coders and the codec dispatch.
pub mod lz;
pub mod ans;
pub mod lz_optimal;
pub mod order1;

use vstd::prelude::*;
use std::io::Read;
use std::io::Write;
use crate::format::CodecType;
use crate::entropy::lz::{lz_decode, lz_encode, lz_turbo, lz_encodes, lz_decoded, lit_tokens, turbo_encoded, lz_encoded};
use crate::entropy::lz_optimal::{compressed_with, spells, lzo_framed, lzo_decompressed, Token, MAX_OPTIMAL_INPUT};

verus! {

/// The largest input LZ+rANS takes: the rANS coder stores lengths in 32 bits, and the LZ tokens
/// of an input take up to twice its length.
pub const MAX_BLOCK: usize = 0x7FFF_FFFF;

/// The inputs a codec takes: rANS and order-1 store lengths in 32 bits; LZ+rANS codes LZ
/// tokens, which take up to twice the input; the optimal parse counts its costs in 32 bits.
/// The other coders take any input.
pub open spec fn codec_accepts(codec: CodecType, n: int) -> bool {
    match codec {
        CodecType::Ans | CodecType::Order1 => n <= u32::MAX,
        CodecType::LzAns => 2 * n <= u32::MAX,
        CodecType::LzOptimal => n <= MAX_OPTIMAL_INPUT,
        _ => true,
    }
}

// ---------------------------------------------------------------------------------------------
// xz
// ---------------------------------------------------------------------------------------------

/// What the xz decoder gives for `data`: the decompressed first stream, or `None` on error.
pub uninterp spec fn xz_decompressed(data: Seq<u8>) -> Option<Seq<u8>>;

/// What the single-threaded xz encoder at `preset` gives for `data` (`None` on error).
pub uninterp spec fn xz_easy_encoded(data: Seq<u8>, preset: u32) -> Option<Seq<u8>>;

/// What the xz encoder with an LZMA2 filter from `preset` and the literal context, literal
/// position and position bits `lc`, `lp`, `pb` gives for `data` (`None` on error).
pub uninterp spec fn xz_tuned_encoded(data: Seq<u8>, preset: u32, lc: u32, lp: u32, pb: u32) -> Option<Seq<u8>>;

/// Decodes one xz stream with `xz2::read::XzDecoder` (`read_to_end`). The result is the named
/// function of the input; nothing else is claimed.
#[verifier::external_body]
fn xz_decode(data: &[u8]) -> (r: Option<Vec<u8>>)
    ensures
        match r {
            Some(v) => xz_decompressed(data@) == Some(v@),
            None => xz_decompressed(data@) is None,
        },
{
    let mut dec = xz2::read::XzDecoder::new(data);
    let mut out = Vec::new();
    match dec.read_to_end(&mut out) {
        Ok(_) => Some(out),
        Err(_) => None,
    }
}

/// Encodes with `xz2::write::XzEncoder::new(_, preset)` (which panics on a preset above 9).
/// Claims: the result is the named function of the arguments, and the xz decoder gives the
/// data back from it.
#[verifier::external_body]
fn xz_encode_easy(data: &[u8], preset: u32) -> (r: Option<Vec<u8>>)
    requires
        preset <= 9,
    ensures
        match r {
            Some(v) => xz_easy_encoded(data@, preset) == Some(v@) && xz_decompressed(v@) == Some(data@),
            None => xz_easy_encoded(data@, preset) is None,
        },
{
    let mut enc = xz2::write::XzEncoder::new(Vec::new(), preset);
    match enc.write_all(data) {
        Ok(_) => enc.finish().ok(),
        Err(_) => None,
    }
}

/// Encodes through `xz2::stream::LzmaOptions::new_preset`, the `lc`/`lp`/`pb` setters, an
/// LZMA2 `Filters` chain and `Stream::new_stream_encoder` with a CRC64 check. Claims: the
/// result is the named function of the arguments, and the xz decoder gives the data back.
#[verifier::external_body]
fn xz_encode_tuned(data: &[u8], preset: u32, lc: u32, lp: u32, pb: u32) -> (r: Option<Vec<u8>>)
    ensures
        match r {
            Some(v) => xz_tuned_encoded(data@, preset, lc, lp, pb) == Some(v@) && xz_decompressed(v@) == Some(data@),
            None => xz_tuned_encoded(data@, preset, lc, lp, pb) is None,
        },
{
    let mut opts = xz2::stream::LzmaOptions::new_preset(preset).ok()?;
    opts.literal_context_bits(lc).literal_position_bits(lp).position_bits(pb);
    let mut filters = xz2::stream::Filters::new();
    filters.lzma2(&opts);
    let stream = xz2::stream::Stream::new_stream_encoder(&filters, xz2::stream::Check::Crc64).ok()?;
    let mut enc = xz2::write::XzEncoder::new_stream(Vec::new(), stream);
    enc.write_all(data).ok()?;
    enc.finish().ok()
}

/// Encodes with the multithreaded `xz2::stream::MtStreamBuilder` at `preset` on `threads`
/// threads. Claims only that the xz decoder gives the data back from a result; which bytes
/// come out is left unsaid.
#[verifier::external_body]
fn xz_encode_mt(data: &[u8], preset: u32, threads: u32) -> (r: Option<Vec<u8>>)
    ensures
        r is Some ==> xz_decompressed(r->0@) == Some(data@),
{
    let stream = match xz2::stream::MtStreamBuilder::new().preset(preset).threads(threads).encoder() {
        Ok(s) => s,
        Err(_) => return None,
    };
    let mut enc = xz2::write::XzEncoder::new_stream(Vec::new(), stream);
    match enc.write_all(data) {
        Ok(_) => enc.finish().ok(),
        Err(_) => None,
    }
}

/// Threads given to the multithreaded xz encoder.
pub const XZ_THREADS: u32 = 4;

/// The number of printable ASCII bytes (`0x20 ..= 0x7E`) among `d[0..k]`.
pub open spec fn ascii_count(d: Seq<u8>, k: int) -> int
    decreases k,
{
    if k <= 0 {
        0
    } else {
        ascii_count(d, k - 1) + if 0x20 <= d[k - 1] <= 0x7E { 1int } else { 0int }
    }
}

/// The xz preset for an input of `len` bytes: faster presets for larger inputs.
pub open spec fn lzma_preset(len: int) -> u32 {
    if len > 4 * 1024 * 1024 { 3 } else if len > 512 * 1024 { 5 } else { 6 }
}

/// The `(lc, lp, pb)` tuning: text-like data (over 80% printable) `(3, 0, 0)`; binary data
/// (under 30% printable) of a length divisible by 4 `(0, 2, 2)`; else `(3, 0, 2)`.
pub open spec fn lzma_tuning(d: Seq<u8>) -> (u32, u32, u32) {
    let a = ascii_count(d, d.len() as int);
    let m = if d.len() == 0 { 1 } else { d.len() as int };
    if 5 * a > 4 * m {
        (3, 0, 0)
    } else if d.len() % 4 == 0 && 10 * a < 3 * m {
        (0, 2, 2)
    } else {
        (3, 0, 2)
    }
}

/// The single-threaded xz encoding that `lzma_compress` falls back to, or the data itself.
pub open spec fn lzma_tuned_or_raw(d: Seq<u8>) -> Seq<u8> {
    let t = lzma_tuning(d);
    match xz_tuned_encoded(d, lzma_preset(d.len() as int), t.0, t.1, t.2) {
        Some(v) => v,
        None => d,
    }
}

fn count_ascii(data: &[u8]) -> (r: usize)
    ensures
        r as int == ascii_count(data@, data@.len() as int),
        r <= data@.len(),
{
    let mut c: usize = 0;
    let mut i: usize = 0;
    while i < data.len()
        invariant
            i <= data@.len(),
            c <= i,
            c as int == ascii_count(data@, i as int),
        decreases data@.len() - i,
    {
        if data[i] >= 0x20 && data[i] <= 0x7E {
            c = c + 1;
        }
        i = i + 1;
    }
    c
}

/// xz compression with a preset scaled to the input size: the multithreaded encoder for
/// inputs over 256 KiB when it shrinks them, else the tuned single-threaded encoder, else the
/// data itself.
fn lzma_compress(data: &[u8]) -> (r: Vec<u8>)
    ensures
        r@ == lzma_tuned_or_raw(data@) || (data@.len() > 256 * 1024 && r@.len() < data@.len()
            && xz_decompressed(r@) == Some(data@)),
        xz_decompressed(r@) == Some(data@) || r@ == data@,
{
    let n = data.len();
    let preset: u32 = if n > 4 * 1024 * 1024 { 3 } else if n > 512 * 1024 { 5 } else { 6 };
    if n > 256 * 1024 {
        match xz_encode_mt(data, preset, XZ_THREADS) {
            Some(out) => {
                if out.len() < n {
                    return out;
                }
            },
            None => {},
        }
    }
    let a = count_ascii(data);
    let m: usize = if n == 0 { 1 } else { n };
    let (lc, lp, pb): (u32, u32, u32) = if 5 * (a as u128) > 4 * (m as u128) {
        (3, 0, 0)
    } else if n % 4 == 0 && 10 * (a as u128) < 3 * (m as u128) {
        (0, 2, 2)
    } else {
        (3, 0, 2)
    };
    match xz_encode_tuned(data, preset, lc, lp, pb) {
        Some(v) => v,
        None => {
            let mut r: Vec<u8> = Vec::new();
            crate::bytes::append_bytes(&mut r, data);
            r
        },
    }
}

/// The xz preset of a compression level: the level itself, at most 9.
pub open spec fn level_preset(level: u32) -> u32 {
    if level > 9 { 9 } else { level }
}

/// What `lzma_for_level` gives: the xz stream at the level's preset, or the data itself when the
/// encoder fails.
pub open spec fn lzma_level_encoded(d: Seq<u8>, level: u32) -> Seq<u8> {
    match xz_easy_encoded(d, level_preset(level)) {
        Some(v) => v,
        None => d,
    }
}

/// xz at the preset of a compression level (levels above 9 use preset 9); the data itself when
/// the encoder fails.
pub fn lzma_for_level(data: &[u8], level: u32) -> (r: Vec<u8>)
    ensures
        r@ == lzma_level_encoded(data@, level),
        xz_easy_encoded(data@, level_preset(level)) is Some ==> xz_decompressed(r@) == Some(data@),
{
    let preset: u32 = if level > 9 { 9 } else { level };
    match xz_encode_easy(data, preset) {
        Some(v) => v,
        None => copy_all(data),
    }
}

/// Fast xz: preset 1, multithreaded for inputs over 64 KiB; the first result shorter than the
/// input is kept, else the data itself.
pub fn lzma_fast(data: &[u8]) -> (r: Vec<u8>)
    ensures
        r@ == data@ || (r@.len() < data@.len() && xz_decompressed(r@) == Some(data@)),
        (data@.len() <= 64 * 1024 && xz_easy_encoded(data@, 1) is Some && xz_easy_encoded(data@, 1)->0.len() < data@.len())
            ==> r@ == xz_easy_encoded(data@, 1)->0,
        (data@.len() <= 64 * 1024 && !(xz_easy_encoded(data@, 1) is Some && xz_easy_encoded(data@, 1)->0.len() < data@.len()))
            ==> r@ == data@,
        r@ == data@ ==> !(xz_easy_encoded(data@, 1) is Some && xz_easy_encoded(data@, 1)->0.len() < data@.len()),
{
    if data.len() > 64 * 1024 {
        match xz_encode_mt(data, 1, XZ_THREADS) {
            Some(out) => {
                if out.len() < data.len() {
                    return out;
                }
            },
            None => {},
        }
    }
    match xz_encode_easy(data, 1) {
        Some(out) => {
            if out.len() < data.len() {
                return out;
            }
        },
        None => {},
    }
    let mut r: Vec<u8> = Vec::new();
    crate::bytes::append_bytes(&mut r, data);
    r
}

/// Decompresses an xz stream, or hands the data back when it is not one.
fn lzma_decompress(data: &[u8]) -> (r: Vec<u8>)
    ensures
        r@ == match xz_decompressed(data@) {
            Some(v) => v,
            None => data@,
        },
{
    match xz_decode(data) {
        Some(v) => v,
        None => {
            let mut r: Vec<u8> = Vec::new();
            crate::bytes::append_bytes(&mut r, data);
            r
        },
    }
}

// ---------------------------------------------------------------------------------------------
// Codec dispatch
// ---------------------------------------------------------------------------------------------

/// True when `r` is what `encode(data, codec)` may give.
pub open spec fn encoded_as(codec: CodecType, data: Seq<u8>, r: Seq<u8>) -> bool {
    match codec {
        CodecType::Raw | CodecType::Zstd => r == data,
        CodecType::Ans => r == ans::ans_encoded(data),
        CodecType::Lz => lz_encodes(r, data),
        CodecType::LzAns => exists|lz: Seq<u8>| #[trigger] lz_encodes(lz, data) && r == ans::ans_encoded(lz),
        CodecType::Order1 => r == match order1::order1_encoded(data) {
            Some(v) => v,
            None => data,
        },
        CodecType::LzOptimal => exists|toks: Seq<Token>| #[trigger] spells(toks, data) && r == compressed_with(data, toks),
        CodecType::Lzma => (r == lzma_tuned_or_raw(data) || (data.len() > 256 * 1024 && r.len() < data.len()
            && xz_decompressed(r) == Some(data))) && (xz_decompressed(r) == Some(data) || r == data),
    }
}

/// What `decode(data, codec)` gives; `None` where the decoder would fail.
pub open spec fn codec_decoded(codec: CodecType, data: Seq<u8>) -> Option<Seq<u8>> {
    match codec {
        CodecType::Raw | CodecType::Zstd => Some(data),
        CodecType::Ans => ans::ans_decoded(data),
        CodecType::Lz => Some(lz_decoded(data)),
        CodecType::LzAns => match ans::ans_decoded(data) {
            Some(x) => Some(lz_decoded(x)),
            None => None,
        },
        CodecType::Order1 => order1::order1_decoded(data),
        CodecType::LzOptimal => if lzo_framed(data) { lzo_decompressed(data) } else { None },
        CodecType::Lzma => Some(match xz_decompressed(data) {
            Some(v) => v,
            None => data,
        }),
    }
}

fn copy_all(data: &[u8]) -> (r: Vec<u8>)
    ensures
        r@ == data@,
{
    let mut r: Vec<u8> = Vec::new();
    crate::bytes::append_bytes(&mut r, data);
    r
}

/// Encodes `data` with `codec`. `LzAns` is rANS over the LZ tokens, so that `decode` reads it
/// back. `Zstd` has no coder here and copies the data.
pub fn encode(data: &[u8], codec: CodecType) -> (r: Vec<u8>)
    requires
        codec_accepts(codec, data@.len() as int),
    ensures
        encoded_as(codec, data@, r@),
{
    match codec {
        CodecType::Raw | CodecType::Zstd => copy_all(data),
        CodecType::Ans => ans::encode(data),
        CodecType::Lz => lz_encode(data),
        CodecType::LzAns => {
            let lz_out = lz_encode(data);
            proof {
                crate::entropy::lz::lemma_encoding_len(lz_out@, data@);
            }
            ans::encode(lz_out.as_slice())
        },
        CodecType::Order1 => match order1::encode(data) {
            Some(v) => v,
            None => copy_all(data),
        },
        CodecType::LzOptimal => lz_optimal::compress(data),
        CodecType::Lzma => lzma_compress(data),
    }
}

/// Decodes `data` with `codec`, or `None` where the decoder would fail.
pub fn decode_checked(data: &[u8], codec: CodecType) -> (r: Option<Vec<u8>>)
    ensures
        match r {
            Some(v) => codec_decoded(codec, data@) == Some(v@),
            None => codec_decoded(codec, data@) is None,
        },
{
    match codec {
        CodecType::Raw | CodecType::Zstd => Some(copy_all(data)),
        CodecType::Ans => ans::decode_checked(data),
        CodecType::Lz => Some(lz_decode(data)),
        CodecType::LzAns => match ans::decode_checked(data) {
            Some(x) => Some(lz_decode(x.as_slice())),
            None => None,
        },
        CodecType::Order1 => order1::decode_checked(data),
        CodecType::LzOptimal => lz_optimal::decompress_checked(data),
        CodecType::Lzma => Some(lzma_decompress(data)),
    }
}

/// Decodes `data` with `codec`; the decoder must not fail on it (`decode_checked` tests that).
pub fn decode(data: &[u8], codec: CodecType) -> (r: Vec<u8>)
    requires
        codec_decoded(codec, data@) is Some,
    ensures
        Some(r@) == codec_decoded(codec, data@),
{
    match decode_checked(data, codec) {
        Some(v) => v,
        None => Vec::new(),
    }
}

/// What `encode` gives, `decode` reads back to the data. The exceptions: an `Lzma` encoding
/// that fell back to the data itself, on input that is an xz stream of something else; and an
/// `Order1` encoding that fell back to the data, or whose context tables do not survive being
/// stored (a context with 256 successors, or counts whose order clamping to 16 bits changes).
pub proof fn lemma_codec_roundtrip(codec: CodecType, data: Seq<u8>, r: Seq<u8>)
    requires
        encoded_as(codec, data, r),
        codec is Order1 ==> order1::order1_encoded(data) is Some && order1::order1_faithful(data),
        codec is Lzma && r == data ==> xz_decompressed(data) is None || xz_decompressed(data) == Some(data),
        codec_accepts(codec, data.len() as int),
    ensures
        codec_decoded(codec, r) == Some(data),
{
    match codec {
        CodecType::Ans => {
            ans::lemma_ans_roundtrip(data);
        },
        CodecType::Order1 => {
            order1::lemma_order1_roundtrip(data);
        },
        CodecType::LzAns => {
            let lz = choose|lz: Seq<u8>| #[trigger] lz_encodes(lz, data) && r == ans::ans_encoded(lz);
            crate::entropy::lz::lemma_encoding_len(lz, data);
            ans::lemma_ans_roundtrip(lz);
            crate::entropy::lz::lemma_lz_roundtrip(lz, data);
        },
        CodecType::Lz => {
            crate::entropy::lz::lemma_lz_roundtrip(r, data);
        },
        CodecType::LzOptimal => {
            let toks = choose|toks: Seq<Token>| #[trigger] spells(toks, data) && r == compressed_with(data, toks);
            crate::entropy::lz_optimal::lemma_lzo_roundtrip(data, toks);
        },
        _ => {},
    }
}

/// Fastest mode: the fast LZ encoder alone, kept when it shrinks the data; inputs under 8
/// bytes stay raw.
pub fn encode_fast(data: &[u8]) -> (r: (CodecType, Vec<u8>))
    ensures
        data@.len() < 8 ==> r.0 == CodecType::Raw,
        r.0 == CodecType::Raw ==> r.1@ == data@,
        r.0 == CodecType::Lz ==> lz_encodes(r.1@, data@) && r.1@.len() < data@.len(),
        r.0 == CodecType::Raw || r.0 == CodecType::Lz,
        data@.len() >= 8 && turbo_encoded(data@).len() < data@.len()
            ==> r.0 == CodecType::Lz && r.1@ == turbo_encoded(data@),
        !(data@.len() >= 8 && turbo_encoded(data@).len() < data@.len()) ==> r.0 == CodecType::Raw,
{
    if data.len() < 8 {
        return (CodecType::Raw, copy_all(data));
    }
    let lz = lz_turbo(data);
    if lz.len() < data.len() {
        (CodecType::Lz, lz)
    } else {
        (CodecType::Raw, copy_all(data))
    }
}

/// The entropy of a block in bits per byte, in the bands that codec selection tells apart.
#[derive(Clone, Copy, Debug, PartialEq, Eq, Structural)]
pub enum EntropyBand {
    /// At most 5.5.
    Low,
    /// Above 5.5, at most 7.5.
    Moderate,
    /// Above 7.5, at most 7.8.
    High,
    /// Above 7.8.
    Incompressible,
}

/// True when `r` is an encoding of `data` that one of the candidate codecs of the selectors
/// produces, under the name `c`.
pub open spec fn candidate(c: CodecType, data: Seq<u8>, r: Seq<u8>) -> bool {
    match c {
        CodecType::Raw => r == data,
        CodecType::Ans => r == ans::ans_encoded(data),
        CodecType::Lz => lz_encodes(r, data),
        CodecType::LzAns => exists|lz: Seq<u8>| #[trigger] lz_encodes(lz, data) && lz.len() < data.len() && r == ans::ans_encoded(lz),
        CodecType::Order1 => order1::order1_encoded(data) == Some(r),
        CodecType::LzOptimal => exists|toks: Seq<Token>| #[trigger] spells(toks, data) && r == compressed_with(data, toks),
        CodecType::Lzma => (r == lzma_tuned_or_raw(data) || (data.len() > 256 * 1024 && r.len() < data.len()
            && xz_decompressed(r) == Some(data))) && (xz_decompressed(r) == Some(data) || r == data),
        CodecType::Zstd => false,
    }
}

/// The codec conditions under which a selected encoding `r` of `t` decodes back: `Order1`
/// tables that survive being stored, no `Lzma` fallback to the data on input that is an xz
/// stream of something else, and an input the codec takes.
pub open spec fn codec_safe(codec: CodecType, t: Seq<u8>, r: Seq<u8>) -> bool {
    &&& codec is Order1 ==> order1::order1_faithful(t)
    &&& codec is Lzma && r == t ==> xz_decompressed(t) is None || xz_decompressed(t) == Some(t)
    &&& codec_accepts(codec, t.len() as int)
}

/// A candidate encoding of the selectors decodes back to its input, where `codec_safe` holds.
pub proof fn lemma_candidate_roundtrip(codec: CodecType, t: Seq<u8>, r: Seq<u8>)
    requires
        candidate(codec, t, r),
        codec_safe(codec, t, r),
    ensures
        codec_decoded(codec, r) == Some(t),
{
    match codec {
        CodecType::Raw => {},
        CodecType::Lz => {
            crate::entropy::lz::lemma_lz_roundtrip(r, t);
        },
        CodecType::Ans => {
            ans::lemma_ans_roundtrip(t);
        },
        CodecType::LzAns => {
            let lz = choose|lz: Seq<u8>| #[trigger] lz_encodes(lz, t) && lz.len() < t.len() && r == ans::ans_encoded(lz);
            ans::lemma_ans_roundtrip(lz);
            crate::entropy::lz::lemma_lz_roundtrip(lz, t);
        },
        CodecType::Order1 => {
            order1::lemma_order1_roundtrip(t);
        },
        CodecType::LzOptimal => {
            let toks = choose|toks: Seq<Token>| #[trigger] spells(toks, t) && r == compressed_with(t, toks);
            crate::entropy::lz_optimal::lemma_lzo_roundtrip(t, toks);
        },
        CodecType::Lzma => {},
        CodecType::Zstd => {},
    }
}

/// `best`, or `(c, e)` when `e` is strictly shorter.
pub open spec fn keep_shorter(best: (CodecType, Seq<u8>), c: CodecType, e: Seq<u8>) -> (CodecType, Seq<u8>) {
    if e.len() < best.1.len() { (c, e) } else { best }
}

/// What `select_fast_codec` picks: raw for empty input and the high entropy bands; else,
/// from the raw data, each of rANS (inputs within 32-bit lengths), LZ, LZ+rANS (where LZ
/// shrank an input of at most `MAX_BLOCK` bytes) and order-1 (64 bytes or more, within 32-bit
/// lengths, where it codes), kept when strictly shorter than the best so far.
pub open spec fn fast_selection(d: Seq<u8>, band: EntropyBand) -> (CodecType, Seq<u8>) {
    if d.len() == 0 || band == EntropyBand::High || band == EntropyBand::Incompressible {
        (CodecType::Raw, d)
    } else {
        let fits = d.len() <= u32::MAX;
        let b0 = (CodecType::Raw, d);
        let b1 = if fits { keep_shorter(b0, CodecType::Ans, ans::ans_encoded(d)) } else { b0 };
        let lz = lz_encoded(d);
        let b2 = keep_shorter(b1, CodecType::Lz, lz);
        let b3 = if lz.len() < d.len() && d.len() <= MAX_BLOCK { keep_shorter(b2, CodecType::LzAns, ans::ans_encoded(lz)) } else { b2 };
        if d.len() >= 64 && fits {
            match order1::order1_encoded(d) {
                Some(o) => keep_shorter(b3, CodecType::Order1, o),
                None => b3,
            }
        } else {
            b3
        }
    }
}

/// Keeps `encoded` under `codec` when it is strictly shorter than the best so far.
fn try_codec(best: &mut (CodecType, Vec<u8>), codec: CodecType, encoded: Vec<u8>, Ghost(data): Ghost<Seq<u8>>)
    requires
        candidate(old(best).0, data, old(best).1@),
        candidate(codec, data, encoded@),
    ensures
        candidate(final(best).0, data, final(best).1@),
        final(best).1@.len() <= old(best).1@.len(),
        final(best).1@.len() <= encoded@.len(),
        encoded@.len() < old(best).1@.len() ==> final(best).0 == codec && final(best).1@ == encoded@,
        encoded@.len() >= old(best).1@.len() ==> *final(best) == *old(best),
{
    if encoded.len() < best.1.len() {
        best.0 = codec;
        best.1 = encoded;
    }
}

/// Mid levels: rANS, LZ, LZ+rANS and (for 64 bytes or more) order-1, keeping the shortest
/// (the earlier on a tie, raw first). A block whose entropy is above 7.5 bits per byte stays
/// raw.
pub fn select_fast_codec(data: &[u8], band: EntropyBand) -> (r: (CodecType, Vec<u8>))
    ensures
        candidate(r.0, data@, r.1@),
        codec_accepts(r.0, data@.len() as int),
        (data@.len() == 0 || band == EntropyBand::High || band == EntropyBand::Incompressible)
            ==> r.0 == CodecType::Raw && r.1@ == data@,
        r.1@.len() <= data@.len(),
        r.0 != CodecType::Raw ==> r.1@.len() < data@.len(),
        (r.0, r.1@) == fast_selection(data@, band),
        0 < data@.len() <= u32::MAX && (band == EntropyBand::Low || band == EntropyBand::Moderate)
            ==> r.1@.len() <= ans::ans_encoded(data@).len(),
        64 <= data@.len() <= u32::MAX && (band == EntropyBand::Low || band == EntropyBand::Moderate)
            && order1::order1_encoded(data@) is Some ==> r.1@.len() <= order1::order1_encoded(data@)->0.len(),
        data@.len() > 0 && (band == EntropyBand::Low || band == EntropyBand::Moderate)
            ==> exists|lz: Seq<u8>| #[trigger] lz_encodes(lz, data@) && r.1@.len() <= lz.len(),
{
    if data.len() == 0 {
        let e: Vec<u8> = Vec::new();
        assert(e@ =~= data@);
        return (CodecType::Raw, e);
    }
    if band == EntropyBand::High || band == EntropyBand::Incompressible {
        return (CodecType::Raw, copy_all(data));
    }
    let ghost d = data@;
    let mut best: (CodecType, Vec<u8>) = (CodecType::Raw, copy_all(data));
    let fits32 = data.len() <= 0xFFFF_FFFFusize;
    if fits32 {
        try_codec(&mut best, CodecType::Ans, ans::encode(data), Ghost(d));
    }
    let lz = lz_encode(data);
    let lz_ok = lz.len() < data.len();
    let lz_copy = copy_all(lz.as_slice());
    try_codec(&mut best, CodecType::Lz, lz_copy, Ghost(d));
    let ghost after_lz = best.1@.len();
    assert(after_lz <= lz@.len());
    if lz_ok && data.len() <= MAX_BLOCK {
        let a = ans::encode(lz.as_slice());
        assert(lz_encodes(lz@, d) && lz@.len() < d.len() && a@ == ans::ans_encoded(lz@));
        try_codec(&mut best, CodecType::LzAns, a, Ghost(d));
    }
    if data.len() >= 64 && fits32 {
        match order1::encode(data) {
            Some(o1) => {
                try_codec(&mut best, CodecType::Order1, o1, Ghost(d));
            },
            None => {},
        }
    }
    assert(lz_encodes(lz@, d) && best.1@.len() <= lz@.len());
    best
}

/// What `select_best_codec` promises of its choice `(c, e)` for `d` in entropy band `band` at
/// `level`: a candidate coding the codec takes; raw for empty input and the incompressible band;
/// never longer than the data, and strictly shorter unless raw; for the moderate and high bands
/// raw or xz, raw below level 4, xz from level 4 when the tuned xz stream is shorter; for the
/// low band no longer than rANS, order-1 (from level 3) and LZ of the data.
pub open spec fn best_selection_ok(d: Seq<u8>, band: EntropyBand, level: u8, c: CodecType, e: Seq<u8>) -> bool {
    &&& candidate(c, d, e)
    &&& codec_accepts(c, d.len() as int)
    &&& (d.len() == 0 || band == EntropyBand::Incompressible) ==> c == CodecType::Raw && e == d
    &&& e.len() <= d.len()
    &&& c != CodecType::Raw ==> e.len() < d.len()
    &&& (band == EntropyBand::Moderate || band == EntropyBand::High) && level < 4 ==> c == CodecType::Raw
    &&& (band == EntropyBand::Moderate || band == EntropyBand::High) ==> c == CodecType::Raw || c == CodecType::Lzma
    &&& (band == EntropyBand::Moderate || band == EntropyBand::High) && level >= 4 && d.len() > 0
        && lzma_tuned_or_raw(d).len() < d.len() ==> c == CodecType::Lzma
    &&& 0 < d.len() <= u32::MAX && band == EntropyBand::Low ==> e.len() <= ans::ans_encoded(d).len()
    &&& 64 <= d.len() <= u32::MAX && band == EntropyBand::Low && level >= 3 && order1::order1_encoded(d) is Some
        ==> e.len() <= order1::order1_encoded(d)->0.len()
    &&& d.len() > 0 && band == EntropyBand::Low ==> e.len() <= lz_encoded(d).len()
}

/// Higher levels: everything, xz included. A block above 7.8 bits per byte stays raw; above
/// 5.5 only xz is tried (from `level` 4); else rANS, LZ, LZ+rANS, order-1 and optimal LZ (from
/// `level` 3), then xz when nothing removed 40% of the bytes. The shortest is kept (the
/// earlier on a tie, raw first).
pub fn select_best_codec(data: &[u8], band: EntropyBand, level: u8) -> (r: (CodecType, Vec<u8>))
    ensures
        best_selection_ok(data@, band, level, r.0, r.1@),
{
    if data.len() == 0 {
        let e: Vec<u8> = Vec::new();
        assert(e@ =~= data@);
        return (CodecType::Raw, e);
    }
    if band == EntropyBand::Incompressible {
        return (CodecType::Raw, copy_all(data));
    }
    let ghost d = data@;
    let mut best: (CodecType, Vec<u8>) = (CodecType::Raw, copy_all(data));
    if band == EntropyBand::Moderate || band == EntropyBand::High {
        if level >= 4 {
            try_codec(&mut best, CodecType::Lzma, lzma_compress(data), Ghost(d));
        }
        return best;
    }
    let fits32 = data.len() <= 0xFFFF_FFFFusize;
    if fits32 {
        try_codec(&mut best, CodecType::Ans, ans::encode(data), Ghost(d));
    }
    let lz_out = lz_encode(data);
    let lz_helped = lz_out.len() < data.len();
    let lz_copy = copy_all(lz_out.as_slice());
    try_codec(&mut best, CodecType::Lz, lz_copy, Ghost(d));
    if lz_helped && data.len() <= MAX_BLOCK {
        let a = ans::encode(lz_out.as_slice());
        assert(lz_encodes(lz_out@, d) && lz_out@.len() < d.len() && a@ == ans::ans_encoded(lz_out@));
        try_codec(&mut best, CodecType::LzAns, a, Ghost(d));
    }
    if level >= 3 && data.len() >= 64 && fits32 {
        match order1::encode(data) {
            Some(o1) => {
                try_codec(&mut best, CodecType::Order1, o1, Ghost(d));
            },
            None => {},
        }
    }
    if level >= 3 && data.len() >= 32 && data.len() <= MAX_OPTIMAL_INPUT {
        try_codec(&mut best, CodecType::LzOptimal, lz_optimal::compress(data), Ghost(d));
    }
    if best.1.len() as u128 > (data.len() as u128) * 60 / 100 {
        try_codec(&mut best, CodecType::Lzma, lzma_compress(data), Ghost(d));
    }
    assert(lz_out@ == lz_encoded(d) && best.1@.len() <= lz_out@.len());
    best
}

} // verus!
