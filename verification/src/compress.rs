//! Building a `.hc` container: the input is split into chunks, each chunk classified,
//! transformed and entropy-coded according to the compression level, and the chunks are
//! written with a segment map; at high levels a whole-file xz stream competes.
//!
//! The floating-point statistics that steer the choices (entropy bands, content classes,
//! region transitions) come from the caller, as values or as functions of the bytes.
use vstd::prelude::*;
use crate::chunk::{Chunk, split_into_chunks, DEFAULT_CHUNK_SIZE, region_count};
use crate::decompress::{xxh32, xxh32_of};
use crate::entropy::{self, EntropyBand, MAX_BLOCK, codec_decoded, candidate, encoded_as};
use crate::fingerprint::fingerprint_chunks;
use crate::format::{ChunkMeta, CodecType, DataType, FileHeader, TransformType, FORMAT_VERSION, header_bytes, meta_bytes, codec_code, data_type_code, transform_code};
use crate::bytes::{le32, push_u32_le, append_bytes};
use crate::transform::{self, applied, reversible, reversed, MAX_TRANSFORM_INPUT};
use crate::decompress::{decompressed, DecompressError};
use crate::roundtrip::{lemma_container_roundtrip, mismatch};

verus! {

/// The largest input `compress` takes: a container counts its chunks in 32 bits, and an input
/// of this size is cut into fewer than `u32::MAX` chunks.
pub const MAX_INPUT: u64 = 0x3_FFFF_C000_0000;

/// One chunk after compression.
#[derive(Debug, Clone)]
pub struct CompressedChunk {
    pub data: Vec<u8>,
    pub transform: TransformType,
    pub codec: CodecType,
    pub checksum: u32,
}

/// Sizes and chunk counts of one compression run.
#[derive(Debug, Clone, Copy, PartialEq, Eq)]
pub struct CompressStats {
    pub original_size: u64,
    pub compressed_size: u64,
    pub data_compressed: u64,
    pub chunk_count: u32,
    pub text_chunks: u32,
    pub structured_chunks: u32,
    pub binary_chunks: u32,
    pub numeric_int_chunks: u32,
    pub numeric_float_chunks: u32,
    pub random_chunks: u32,
    pub sparse_chunks: u32,
}

/// What the caller's whole-file statistics say: entropy above 7.9 and above 7.0 bits per byte,
/// and the content class.
#[derive(Debug, Clone, Copy, PartialEq, Eq)]
pub struct FileProfile {
    pub entropy_above_7_9: bool,
    pub entropy_above_7_0: bool,
    pub data_type: DataType,
}

/// Zeroed statistics.
pub fn empty_stats() -> (s: CompressStats)
    ensures
        s == (CompressStats {
            original_size: 0,
            compressed_size: 0,
            data_compressed: 0,
            chunk_count: 0,
            text_chunks: 0,
            structured_chunks: 0,
            binary_chunks: 0,
            numeric_int_chunks: 0,
            numeric_float_chunks: 0,
            random_chunks: 0,
            sparse_chunks: 0,
        }),
{
    CompressStats {
        original_size: 0,
        compressed_size: 0,
        data_compressed: 0,
        chunk_count: 0,
        text_chunks: 0,
        structured_chunks: 0,
        binary_chunks: 0,
        numeric_int_chunks: 0,
        numeric_float_chunks: 0,
        random_chunks: 0,
        sparse_chunks: 0,
    }
}

/// Decoding `stored` with `codec` and reversing `tf` gives `data` (followed by anything).
pub open spec fn restores_parts(codec: CodecType, tf: TransformType, stored: Seq<u8>, data: Seq<u8>) -> bool {
    match codec_decoded(codec, stored) {
        None => false,
        Some(dec) => reversible(tf, dec) && {
            let r = reversed(tf, dec);
            r.len() >= data.len() && r.subrange(0, data.len() as int) == data
        },
    }
}

/// Decoding `c` and reversing its transform gives `data` (followed by anything).
pub open spec fn restores(c: CompressedChunk, data: Seq<u8>) -> bool {
    restores_parts(c.codec, c.transform, c.data@, data)
}

/// `c` holds a transform of `data` coded by one of the selectable codecs, on a transform that
/// the codec takes.
pub open spec fn encodes(c: CompressedChunk, data: Seq<u8>) -> bool {
    exists|t: Seq<u8>| #[trigger] applied(c.transform, data, t) && candidate(c.codec, t, c.data@)
        && entropy::codec_accepts(c.codec, t.len() as int)
}

/// The transform and codec of `c` are ones whose roundtrip is proven for `data`: the branch
/// filter free of displacements that
/// decoding misreads, precompression only where it copies the data; order-1 tables that
/// survive being stored; no xz fallback to bytes that are an xz stream of something else.
pub open spec fn proven_choice(c: CompressedChunk, data: Seq<u8>) -> bool {
    &&& data.len() <= MAX_BLOCK
    &&& match c.transform {
        TransformType::Bcj => transform::bcj::branches_reversible(data, 0),
        TransformType::Precomp => transform::precomp::precomp_encoded(data) == transform::precomp::passthrough_spec(data),
        _ => true,
    }
    &&& c.codec is Order1 ==> forall|t: Seq<u8>| #[trigger] applied(c.transform, data, t) ==> entropy::order1::order1_faithful(t)
    &&& c.codec is Lzma ==> forall|t: Seq<u8>| #[trigger] applied(c.transform, data, t) && c.data@ == t
        ==> entropy::xz_decompressed(t) is None || entropy::xz_decompressed(t) == Some(t)
}

/// A chunk that encodes its data with a proven transform and codec restores exactly that data.
pub proof fn lemma_chunk_roundtrip(c: CompressedChunk, data: Seq<u8>)
    requires
        encodes(c, data),
        proven_choice(c, data),
    ensures
        crate::roundtrip::restores_exactly(c, data),
        restores(c, data),
{
    let t = choose|t: Seq<u8>| #[trigger] applied(c.transform, data, t) && candidate(c.codec, t, c.data@)
        && entropy::codec_accepts(c.codec, t.len() as int);
    entropy::lemma_candidate_roundtrip(c.codec, t, c.data@);
    transform::lemma_transform_roundtrip(c.transform, data, t);
    assert(reversed(c.transform, t).subrange(0, data.len() as int) =~= data);
}

fn copy_all(data: &[u8]) -> (r: Vec<u8>)
    ensures
        r@ == data@,
{
    let mut r: Vec<u8> = Vec::new();
    append_bytes(&mut r, data);
    r
}

/// The stored form of `data` itself.
fn raw_chunk(data: &[u8], checksum: u32) -> (r: CompressedChunk)
    ensures
        r.data@ == data@,
        r.transform == TransformType::Identity,
        r.codec == CodecType::Raw,
        r.checksum == checksum,
        restores(r, data@),
        encodes(r, data@),
{
    let r = CompressedChunk { data: copy_all(data), transform: TransformType::Identity, codec: CodecType::Raw, checksum };
    assert(r.data@.subrange(0, data@.len() as int) =~= data@);
    assert(applied(TransformType::Identity, data@, data@));
    r
}

/// Decodes `encoded` and reverses `tf`, and tests that the result starts with `data`.
fn verify_roundtrip(encoded: &[u8], codec: CodecType, tf: TransformType, data: &[u8]) -> (ok: bool)
    ensures
        ok == restores_parts(codec, tf, encoded@, data@),
{
    let dec = match entropy::decode_checked(encoded, codec) {
        Some(v) => v,
        None => {
            return false;
        },
    };
    let restored = match transform::reverse_transform_checked(dec.as_slice(), tf) {
        Some(v) => v,
        None => {
            return false;
        },
    };
    if restored.len() < data.len() {
        return false;
    }
    let mut k: usize = 0;
    while k < data.len()
        invariant
            restored@.len() >= data@.len(),
            k <= data@.len(),
            forall|q: int| 0 <= q < k ==> restored@[q] == data@[q],
            codec_decoded(codec, encoded@) == Some(dec@),
            reversible(tf, dec@),
            restored@ == reversed(tf, dec@),
        decreases data@.len() - k,
    {
        if restored[k] != data[k] {
            assert(restored@.subrange(0, data@.len() as int)[k as int] != data@[k as int]);
            return false;
        }
        k = k + 1;
    }
    assert(restored@.subrange(0, data@.len() as int) =~= data@);
    true
}

/// The transform, codec and bytes of a coded chunk.
pub open spec fn chunk_view(c: CompressedChunk) -> (TransformType, CodecType, Seq<u8>) {
    (c.transform, c.codec, c.data@)
}

/// What the fast coder (`encode_fast`) makes of `x`: the fast LZ tokens when the input has at
/// least 8 bytes and they are shorter, else the bytes as they are.
pub open spec fn fast_coded(x: Seq<u8>) -> (CodecType, Seq<u8>) {
    if x.len() >= 8 && entropy::lz::turbo_encoded(x).len() < x.len() {
        (CodecType::Lz, entropy::lz::turbo_encoded(x))
    } else {
        (CodecType::Raw, x)
    }
}

/// The choice of levels 1-2 for `data` whose transform `tf` gave `t`: the fast coder on `t`
/// when that is shorter than the data; else the fast coder on the data when shorter; else the
/// data stored.
pub open spec fn fast_chunk_pick(data: Seq<u8>, tf: TransformType, t: Seq<u8>) -> (TransformType, CodecType, Seq<u8>) {
    let a = fast_coded(t);
    let b = fast_coded(data);
    if a.1.len() < data.len() {
        (tf, a.0, a.1)
    } else if b.1.len() < data.len() {
        (TransformType::Identity, b.0, b.1)
    } else {
        (TransformType::Identity, CodecType::Raw, data)
    }
}

/// The fallback of levels 3-4 for `data` whose entropy band is `bd`: the fast selection on the
/// data when shorter, else the data stored.
pub open spec fn balanced_fallback(data: Seq<u8>, bd: EntropyBand) -> (TransformType, CodecType, Seq<u8>) {
    let b = entropy::fast_selection(data, bd);
    if b.1.len() < data.len() {
        (TransformType::Identity, b.0, b.1)
    } else {
        (TransformType::Identity, CodecType::Raw, data)
    }
}

/// Levels 1-2: the chunk's transform and the fast LZ coder; the raw chunk with the fast coder
/// when that is not shorter; else the raw chunk stored.
fn compress_fast(data: &[u8], dt: DataType, checksum: u32) -> (r: CompressedChunk)
    ensures
        r.checksum == checksum,
        r.data@.len() <= data@.len(),
        r.codec == CodecType::Raw || r.codec == CodecType::Lz,
        encodes(r, data@),
        exists|t: Seq<u8>| #[trigger] applied(transform::transform_used(dt, data@.len() as int), data@, t)
            && chunk_view(r) == fast_chunk_pick(data@, transform::transform_used(dt, data@.len() as int), t),
{
    let tf0 = transform::select_transform(dt);
    let tf = if transform::transform_fits(tf0, data.len()) { tf0 } else { TransformType::Identity };
    let transformed = transform::apply_transform(data, tf);
    let (codec, encoded) = entropy::encode_fast(transformed.as_slice());
    assert(applied(tf, data@, transformed@));
    if encoded.len() < data.len() {
        let r = CompressedChunk { data: encoded, transform: tf, codec, checksum };
        assert(applied(tf, data@, transformed@) && candidate(codec, transformed@, r.data@));
        r
    } else {
        let (c2, e2) = entropy::encode_fast(data);
        if e2.len() < data.len() {
            let r = CompressedChunk { data: e2, transform: TransformType::Identity, codec: c2, checksum };
            assert(applied(TransformType::Identity, data@, data@) && candidate(c2, data@, r.data@));
            r
        } else {
            raw_chunk(data, checksum)
        }
    }
}

/// Levels 3-4: the chunk's transform and the mid-level codec selection; the raw chunk with it
/// when that is not shorter; else the raw chunk stored.
fn compress_balanced<B: Fn(&[u8]) -> EntropyBand>(data: &[u8], dt: DataType, checksum: u32, band: &B) -> (r: CompressedChunk)
    requires
        forall|s: &[u8]| #[trigger] band.requires((s,)),
    ensures
        r.checksum == checksum,
        r.data@.len() <= data@.len(),
        encodes(r, data@),
        exists|t: Seq<u8>, s: &[u8], bt: EntropyBand| #![trigger applied(transform::transform_used(dt, data@.len() as int), data@, t), band.ensures((s,), bt)]
            applied(transform::transform_used(dt, data@.len() as int), data@, t) && s@ == t && band.ensures((s,), bt) && ({
                let a = entropy::fast_selection(t, bt);
                if a.1.len() < data@.len() {
                    chunk_view(r) == (transform::transform_used(dt, data@.len() as int), a.0, a.1)
                } else {
                    exists|s2: &[u8], bd: EntropyBand| s2@ == data@ && #[trigger] band.ensures((s2,), bd)
                        && chunk_view(r) == balanced_fallback(data@, bd)
                }
            }),
{
    let tf0 = transform::select_transform(dt);
    let tf = if transform::transform_fits(tf0, data.len()) { tf0 } else { TransformType::Identity };
    let transformed = transform::apply_transform(data, tf);
    let ts = transformed.as_slice();
    let b = band(ts);
    let (codec, encoded) = entropy::select_fast_codec(ts, b);
    assert(applied(tf, data@, transformed@) && ts@ == transformed@ && band.ensures((ts,), b));
    if encoded.len() < data.len() {
        let r = CompressedChunk { data: encoded, transform: tf, codec, checksum };
        assert(applied(tf, data@, transformed@) && candidate(codec, transformed@, r.data@));
        return r;
    }
    let b2 = band(data);
    let (c2, e2) = entropy::select_fast_codec(data, b2);
    assert(band.ensures((data,), b2));
    if e2.len() < data.len() {
        let r = CompressedChunk { data: e2, transform: TransformType::Identity, codec: c2, checksum };
        assert(applied(TransformType::Identity, data@, data@) && candidate(c2, data@, r.data@));
        r
    } else {
        raw_chunk(data, checksum)
    }
}

/// Levels 5-6: the chunk's transform and no transform, each with the full codec selection;
/// the shorter of them that decodes back to the chunk, else the raw chunk.
fn compress_good<B: Fn(&[u8]) -> EntropyBand>(data: &[u8], dt: DataType, checksum: u32, band: &B, level: u8) -> (r: CompressedChunk)
    requires
        forall|s: &[u8]| #[trigger] band.requires((s,)),
    ensures
        r.checksum == checksum,
        r.data@.len() <= data@.len(),
        encodes(r, data@),
        restores(r, data@),
        exists|s: &[u8], b: EntropyBand, c: CodecType, e: Seq<u8>|
            #![trigger band.ensures((s,), b), entropy::best_selection_ok(data@, b, level, c, e)]
            s@ == data@ && band.ensures((s,), b) && entropy::best_selection_ok(data@, b, level, c, e)
            && (r.data@.len() <= e.len() || !restores_parts(c, TransformType::Identity, e, data@)),
{
    let primary0 = transform::select_transform(dt);
    let primary = if transform::transform_fits(primary0, data.len()) { primary0 } else { TransformType::Identity };
    let mut best = raw_chunk(data, checksum);
    let mut round: usize = 0;
    while round < 2
        invariant
            transform::transform_accepts(primary, data@.len() as int),
            forall|s: &[u8]| #[trigger] band.requires((s,)),
            best.checksum == checksum,
            best.data@.len() <= data@.len(),
            encodes(best, data@),
            restores(best, data@),
            round <= 2,
            round == 2 ==> exists|s: &[u8], b: EntropyBand, c: CodecType, e: Seq<u8>|
                #![trigger band.ensures((s,), b), entropy::best_selection_ok(data@, b, level, c, e)]
                s@ == data@ && band.ensures((s,), b) && entropy::best_selection_ok(data@, b, level, c, e)
                && (best.data@.len() <= e.len() || !restores_parts(c, TransformType::Identity, e, data@)),
        decreases 2 - round,
    {
        let tf = if round == 0 { primary } else { TransformType::Identity };
        let input = if tf == TransformType::Identity { copy_all(data) } else { transform::apply_transform(data, tf) };
        assert(applied(tf, data@, input@));
        let is = input.as_slice();
        let b = band(is);
        let (codec, encoded) = entropy::select_best_codec(is, b, level);
        let ghost e0 = encoded@;
        if encoded.len() < best.data.len() {
            if verify_roundtrip(encoded.as_slice(), codec, tf, data) {
                let r = CompressedChunk { data: encoded, transform: tf, codec, checksum };
                assert(applied(tf, data@, input@) && candidate(codec, input@, r.data@));
                best = r;
            }
        }
        proof {
            if round == 1 {
                assert(is@ == data@ && band.ensures((is,), b) && entropy::best_selection_ok(data@, b, level, codec, e0));
                assert(best.data@.len() <= e0.len() || !restores_parts(codec, TransformType::Identity, e0, data@));
            }
        }
        round = round + 1;
    }
    best
}

/// The transforms tried at levels 7-9 for a data type, as a membership table by tag: none,
/// the primary one, and the extra ones of the type (the branch filter for binary data that
/// looks like machine code).
fn best_candidates(data: &[u8], dt: DataType) -> (c: Vec<bool>)
    ensures
        c@.len() == 12,
        c@[0],
{
    let mut c: Vec<bool> = vec![false; 12];
    c.set(TransformType::Identity.to_u8() as usize, true);
    let primary = transform::select_transform(dt);
    c.set(primary.to_u8() as usize, true);
    match dt {
        DataType::Text => {
            c.set(TransformType::BwtMtf.to_u8() as usize, true);
            c.set(TransformType::Prediction.to_u8() as usize, true);
            c.set(TransformType::Delta.to_u8() as usize, true);
        },
        DataType::Structured => {
            c.set(TransformType::BwtMtf.to_u8() as usize, true);
            c.set(TransformType::StructSplit.to_u8() as usize, true);
            c.set(TransformType::Transpose.to_u8() as usize, true);
            c.set(TransformType::Prediction.to_u8() as usize, true);
        },
        DataType::Binary => {
            c.set(TransformType::Prediction.to_u8() as usize, true);
            c.set(TransformType::StructSplit.to_u8() as usize, true);
            c.set(TransformType::Delta.to_u8() as usize, true);
            c.set(TransformType::Precomp.to_u8() as usize, true);
            if transform::bcj::is_likely_executable(data) {
                c.set(TransformType::Bcj.to_u8() as usize, true);
            }
        },
        DataType::NumericInt => {
            c.set(TransformType::StructSplit.to_u8() as usize, true);
            c.set(TransformType::Prediction.to_u8() as usize, true);
            c.set(TransformType::Delta.to_u8() as usize, true);
        },
        DataType::NumericFloat => {
            c.set(TransformType::FloatSplit.to_u8() as usize, true);
            c.set(TransformType::StructSplit.to_u8() as usize, true);
            c.set(TransformType::Prediction.to_u8() as usize, true);
        },
        DataType::Sparse => {
            c.set(TransformType::Rle.to_u8() as usize, true);
            c.set(TransformType::Delta.to_u8() as usize, true);
            c.set(TransformType::Prediction.to_u8() as usize, true);
        },
        DataType::CompressedOrRandom => {},
    }
    c
}

/// Levels 7-9: every plausible transform, in tag order, each with the full codec selection;
/// the shortest (the earlier on a tie, the raw chunk first).
fn compress_best<B: Fn(&[u8]) -> EntropyBand>(data: &[u8], dt: DataType, checksum: u32, band: &B, level: u8) -> (r: CompressedChunk)
    requires
        forall|s: &[u8]| #[trigger] band.requires((s,)),
    ensures
        r.checksum == checksum,
        r.data@.len() <= data@.len(),
        encodes(r, data@),
        exists|s: &[u8], b: EntropyBand, c: CodecType, e: Seq<u8>|
            #![trigger band.ensures((s,), b), entropy::best_selection_ok(data@, b, level, c, e)]
            s@ == data@ && band.ensures((s,), b) && entropy::best_selection_ok(data@, b, level, c, e)
            && r.data@.len() <= e.len(),
{
    let cands = best_candidates(data, dt);
    let mut best = raw_chunk(data, checksum);
    let mut tag: u8 = 0;
    while tag < 12
        invariant
            forall|s: &[u8]| #[trigger] band.requires((s,)),
            cands@.len() == 12,
            cands@[0],
            best.checksum == checksum,
            best.data@.len() <= data@.len(),
            encodes(best, data@),
            tag >= 1 ==> exists|s: &[u8], b: EntropyBand, c: CodecType, e: Seq<u8>|
                #![trigger band.ensures((s,), b), entropy::best_selection_ok(data@, b, level, c, e)]
                s@ == data@ && band.ensures((s,), b) && entropy::best_selection_ok(data@, b, level, c, e)
                && best.data@.len() <= e.len(),
        decreases 12 - tag,
    {
        let tf = match TransformType::from_u8(tag) {
            Some(t) => t,
            None => TransformType::Identity,
        };
        if cands[tag as usize] && transform::transform_fits(tf, data.len()) {
            let transformed = transform::apply_transform(data, tf);
            let ts = transformed.as_slice();
            let b = band(ts);
            let (codec, encoded) = entropy::select_best_codec(ts, b, level);
            let ghost e0 = encoded@;
            if encoded.len() < best.data.len() {
                let r = CompressedChunk { data: encoded, transform: tf, codec, checksum };
                assert(applied(tf, data@, transformed@) && candidate(codec, transformed@, r.data@));
                best = r;
            }
            proof {
                if tag == 0 {
                    assert(tf == TransformType::Identity);
                    assert(ts@ == data@ && band.ensures((ts,), b) && entropy::best_selection_ok(data@, b, level, codec, e0));
                }
            }
        }
        tag = tag + 1;
    }
    best
}

/// Levels 1-2 as stated: the data type's transform (where it takes the data), then the fast
/// coder (`fast_chunk_pick`).
pub open spec fn fast_chunk_ok(r: CompressedChunk, data: Seq<u8>, dt: DataType) -> bool {
    exists|t: Seq<u8>| #[trigger] applied(transform::transform_used(dt, data.len() as int), data, t)
        && chunk_view(r) == fast_chunk_pick(data, transform::transform_used(dt, data.len() as int), t)
}

/// Levels 3-4 as stated: the fast selection on the data type's transform, in the band `band`
/// gives it, when shorter than the data; else `balanced_fallback` in the band of the data.
pub open spec fn balanced_chunk_ok<B: Fn(&[u8]) -> EntropyBand>(r: CompressedChunk, data: Seq<u8>, dt: DataType, band: &B) -> bool {
    exists|t: Seq<u8>, s: &[u8], bt: EntropyBand| #![trigger applied(transform::transform_used(dt, data.len() as int), data, t), band.ensures((s,), bt)]
        applied(transform::transform_used(dt, data.len() as int), data, t) && s@ == t && band.ensures((s,), bt) && ({
            let a = entropy::fast_selection(t, bt);
            if a.1.len() < data.len() {
                chunk_view(r) == (transform::transform_used(dt, data.len() as int), a.0, a.1)
            } else {
                exists|s2: &[u8], bd: EntropyBand| s2@ == data && #[trigger] band.ensures((s2,), bd)
                    && chunk_view(r) == balanced_fallback(data, bd)
            }
        })
}

/// Levels 5 and up as stated: the result is no longer than what the full selection makes of
/// the untransformed data in the band `band` gives it (at levels 5-6, where that coding
/// decodes back).
pub open spec fn best_chunk_bound<B: Fn(&[u8]) -> EntropyBand>(r: CompressedChunk, data: Seq<u8>, band: &B, level: u8, checked: bool) -> bool {
    exists|s: &[u8], b: EntropyBand, c: CodecType, e: Seq<u8>|
        #![trigger band.ensures((s,), b), entropy::best_selection_ok(data, b, level, c, e)]
        s@ == data && band.ensures((s,), b) && entropy::best_selection_ok(data, b, level, c, e)
        && (r.data@.len() <= e.len() || (checked && !restores_parts(c, TransformType::Identity, e, data)))
}

/// The choice `compress_chunk` makes for a chunk of `data` of type `dt` at `level`, as stated:
/// random-looking data stored raw, then per level the fast, balanced or full selection.
pub open spec fn chunk_choice_ok<B: Fn(&[u8]) -> EntropyBand>(r: CompressedChunk, data: Seq<u8>, dt: DataType, level: u32, band: &B) -> bool {
    if dt == DataType::CompressedOrRandom {
        r.codec == CodecType::Raw && r.transform == TransformType::Identity && r.data@ == data
    } else if 1 <= level <= 2 {
        fast_chunk_ok(r, data, dt)
    } else if 3 <= level <= 4 {
        balanced_chunk_ok(r, data, dt, band)
    } else if 5 <= level <= 6 {
        best_chunk_bound(r, data, band, level as u8, true)
    } else {
        best_chunk_bound(r, data, band, (if level > 255 { 255 } else { level }) as u8, false)
    }
}

/// Compresses one chunk at `level`: random-looking chunks are stored raw; levels 1-2, 3-4,
/// 5-6 and the rest use the fast, balanced, verified and exhaustive searches.
pub fn compress_chunk<B: Fn(&[u8]) -> EntropyBand>(chunk: &Chunk, level: u32, band: &B) -> (r: CompressedChunk)
    requires
        forall|s: &[u8]| #[trigger] band.requires((s,)),
    ensures
        r.checksum == xxh32_of(chunk.data@, 0),
        r.data@.len() <= chunk.data@.len(),
        encodes(r, chunk.data@),
        chunk.data_type == DataType::CompressedOrRandom ==> r.codec == CodecType::Raw && r.transform == TransformType::Identity
            && r.data@ == chunk.data@,
        chunk.data_type == DataType::CompressedOrRandom || level == 5 || level == 6 ==> restores(r, chunk.data@),
        chunk.data_type != DataType::CompressedOrRandom && 1 <= level <= 2 ==> fast_chunk_ok(r, chunk.data@, chunk.data_type),
        chunk.data_type != DataType::CompressedOrRandom && 3 <= level <= 4
            ==> balanced_chunk_ok(r, chunk.data@, chunk.data_type, band),
        chunk.data_type != DataType::CompressedOrRandom && 5 <= level <= 6
            ==> best_chunk_bound(r, chunk.data@, band, level as u8, true),
        chunk.data_type != DataType::CompressedOrRandom && (level == 0 || level >= 7)
            ==> best_chunk_bound(r, chunk.data@, band, (if level > 255 { 255 } else { level }) as u8, false),
        chunk_choice_ok(r, chunk.data@, chunk.data_type, level, band),
{
    let data = chunk.data.as_slice();
    let checksum = xxh32(data, 0);
    if chunk.data_type == DataType::CompressedOrRandom {
        return raw_chunk(data, checksum);
    }
    let lv: u8 = if level > 255 { 255 } else { level as u8 };
    if level >= 1 && level <= 2 {
        compress_fast(data, chunk.data_type, checksum)
    } else if level >= 3 && level <= 4 {
        compress_balanced(data, chunk.data_type, checksum, band)
    } else if level >= 5 && level <= 6 {
        compress_good(data, chunk.data_type, checksum, band, lv)
    } else {
        compress_best(data, chunk.data_type, checksum, band, lv)
    }
}

/// The profile sends the whole file straight to xz, with no transform tried.
pub open spec fn whole_file_direct(profile: FileProfile) -> bool {
    profile.data_type == DataType::CompressedOrRandom || profile.entropy_above_7_0
}

/// `plain` is the xz stream of `data`, `t` its transform and `coded` the xz stream of `t`,
/// each where the whole-file attempt computes it.
pub open spec fn whole_file_streams(data: Seq<u8>, profile: FileProfile, plain: Seq<u8>, t: Seq<u8>, coded: Seq<u8>) -> bool {
    let tf = transform::transform_for(profile.data_type);
    let tried = !profile.entropy_above_7_9 && !whole_file_direct(profile) && tf != TransformType::Identity
        && transform::transform_accepts(tf, data.len() as int);
    &&& !profile.entropy_above_7_9 ==> encoded_as(CodecType::Lzma, data, plain)
    &&& tried ==> applied(tf, data, t)
    &&& tried ==> encoded_as(CodecType::Lzma, t, coded)
}

/// What the whole-file attempt picks, given the streams it computes: nothing for data above
/// 7.9 bits per byte; for random-looking data the plain stream when it is under 97% of the
/// data; otherwise the transformed stream (where the transform takes the data) when it is
/// shorter than both the data and a plain stream that is, and decodes back, else the plain
/// stream when it is shorter than the data.
pub open spec fn whole_file_pick(data: Seq<u8>, profile: FileProfile, plain: Seq<u8>, t: Seq<u8>, coded: Seq<u8>) -> Option<(Seq<u8>, TransformType)> {
    let n = data.len();
    let tf = transform::transform_for(profile.data_type);
    if profile.entropy_above_7_9 {
        None
    } else if whole_file_direct(profile) {
        if plain.len() < n * 97 / 100 { Some((plain, TransformType::Identity)) } else { None }
    } else {
        let limit = if plain.len() < n { plain.len() } else { n };
        if tf != TransformType::Identity && transform::transform_accepts(tf, n as int) && coded.len() < limit
            && restores_parts(CodecType::Lzma, tf, coded, data) {
            Some((coded, tf))
        } else if plain.len() < n {
            Some((plain, TransformType::Identity))
        } else {
            None
        }
    }
}

/// The stream and transform of a whole-file result.
pub open spec fn whole_file_view(r: Option<(Vec<u8>, usize, TransformType)>) -> Option<(Seq<u8>, TransformType)> {
    match r {
        Some(x) => Some((x.0@, x.2)),
        None => None,
    }
}

/// The whole-file alternative at high levels: one xz stream of the data, or of its transform
/// when that is shorter and decodes back. `None` when the data looks random, or xz does not
/// shrink it enough. Returns the stream, the container overhead and the transform.
fn try_whole_file_lzma(data: &[u8], profile: FileProfile) -> (r: Option<(Vec<u8>, usize, TransformType)>)
    ensures
        exists|plain: Seq<u8>, t: Seq<u8>, coded: Seq<u8>|
            whole_file_streams(data@, profile, plain, t, coded)
            && whole_file_view(r) == #[trigger] whole_file_pick(data@, profile, plain, t, coded),
        profile.entropy_above_7_9 ==> r is None,
        r is Some ==> r.unwrap().1 == 33,
        r is Some ==> (exists|t: Seq<u8>| #[trigger] applied(r.unwrap().2, data@, t) && candidate(CodecType::Lzma, t, r.unwrap().0@)),
        r is Some ==> r.unwrap().0@.len() < data@.len() && restores_parts(CodecType::Lzma, r.unwrap().2, r.unwrap().0@, data@),
{
    let overhead: usize = 33;
    let ghost e: Seq<u8> = Seq::empty();
    if profile.entropy_above_7_9 {
        assert(whole_file_pick(data@, profile, e, e, e) == whole_file_view(None));
        return None;
    }
    let dtype = profile.data_type;
    let n = data.len();
    if dtype == DataType::CompressedOrRandom || profile.entropy_above_7_0 {
        let lzma = entropy::encode(data, CodecType::Lzma);
        assert(applied(TransformType::Identity, data@, data@));
        assert(whole_file_streams(data@, profile, lzma@, e, e));
        if (lzma.len() as u128) < (n as u128) * 97 / 100 {
            assert(lzma@ != data@);
            assert(data@.subrange(0, data@.len() as int) =~= data@);
            assert(restores_parts(CodecType::Lzma, TransformType::Identity, lzma@, data@));
            let r = Some((lzma, overhead, TransformType::Identity));
            assert(whole_file_pick(data@, profile, lzma@, e, e) == whole_file_view(r));
            return r;
        }
        assert(whole_file_pick(data@, profile, lzma@, e, e) == whole_file_view(None));
        return None;
    }
    let mut best: Option<(Vec<u8>, TransformType)> = None;
    let lzma_raw = entropy::encode(data, CodecType::Lzma);
    let ghost plain: Seq<u8> = lzma_raw@;
    let ghost mut t: Seq<u8> = e;
    let ghost mut coded: Seq<u8> = e;
    assert(applied(TransformType::Identity, data@, data@));
    if lzma_raw.len() < n {
        assert(lzma_raw@ != data@);
        assert(data@.subrange(0, data@.len() as int) =~= data@);
        assert(restores_parts(CodecType::Lzma, TransformType::Identity, lzma_raw@, data@));
        best = Some((lzma_raw, TransformType::Identity));
    }
    assert(best matches Some(b) ==> b.0@.len() < n && restores_parts(CodecType::Lzma, b.1, b.0@, data@));
    let tf = transform::select_transform(dtype);
    assert(tf == transform::transform_for(dtype));
    if tf != TransformType::Identity && (tf != TransformType::Bwt || n <= MAX_TRANSFORM_INPUT) {
        assert(transform::transform_accepts(tf, n as int));
        let transformed = transform::apply_transform(data, tf);
        proof { t = transformed@; }
        let lzma_tf = entropy::encode(transformed.as_slice(), CodecType::Lzma);
        proof { coded = lzma_tf@; }
        let limit: usize = match &best {
            Some(b) => b.0.len(),
            None => n,
        };
        if lzma_tf.len() < limit {
            if verify_roundtrip(lzma_tf.as_slice(), CodecType::Lzma, tf, data) {
                assert(applied(tf, data@, transformed@) && candidate(CodecType::Lzma, transformed@, lzma_tf@));
                best = Some((lzma_tf, tf));
            }
        }
    }
    assert(whole_file_streams(data@, profile, plain, t, coded));
    assert(best matches Some(b) ==> b.0@.len() < n && restores_parts(CodecType::Lzma, b.1, b.0@, data@));
    let r = match best {
        Some((d, t)) => Some((d, overhead, t)),
        None => None,
    };
    assert(whole_file_pick(data@, profile, plain, t, coded) == whole_file_view(r));
    r
}

/// The per-chunk header written before each chunk's bytes.
pub open spec fn chunk_header(c: CompressedChunk, ch: Chunk) -> Seq<u8> {
    le32(c.data@.len() as u32) + le32(ch.data@.len() as u32)
        + seq![data_type_code(ch.data_type), transform_code(c.transform), codec_code(c.codec)] + le32(c.checksum)
}

/// The chunk records, from chunk `k` on, with chunk `k` at `offset`.
pub open spec fn metas_from(chunks: Seq<Chunk>, cc: Seq<CompressedChunk>, k: int, offset: int) -> Seq<ChunkMeta>
    decreases chunks.len() - k,
{
    if k < 0 || k >= chunks.len() {
        Seq::empty()
    } else {
        seq![ChunkMeta {
            offset_in_file: offset as u64,
            original_offset: chunks[k].original_offset,
            original_size: chunks[k].data@.len() as u32,
            compressed_size: cc[k].data@.len() as u32,
            data_type: chunks[k].data_type,
            transform: cc[k].transform,
            codec: cc[k].codec,
            checksum: cc[k].checksum,
        }] + metas_from(chunks, cc, k + 1, offset + 15 + cc[k].data@.len())
    }
}

/// The chunk bodies (header and bytes) of chunks `0 .. k`.
pub open spec fn bodies(chunks: Seq<Chunk>, cc: Seq<CompressedChunk>, k: int) -> Seq<u8>
    decreases k,
{
    if k <= 0 {
        Seq::empty()
    } else {
        bodies(chunks, cc, k - 1) + chunk_header(cc[k - 1], chunks[k - 1]) + cc[k - 1].data@
    }
}

/// The records of `metas[0..k]`, encoded.
pub open spec fn metas_bytes(metas: Seq<ChunkMeta>, k: int) -> Seq<u8>
    decreases k,
{
    if k <= 0 {
        Seq::empty()
    } else {
        metas_bytes(metas, k - 1) + meta_bytes(metas[k - 1])
    }
}

/// The sum of the chunk lengths of `chunks[0..k]`.
pub open spec fn total_len(chunks: Seq<Chunk>, k: int) -> int
    decreases k,
{
    if k <= 0 { 0 } else { total_len(chunks, k - 1) + chunks[k - 1].data@.len() }
}

/// The container for `chunks` coded as `cc`: header, chunk bodies, then the segment map.
pub open spec fn container(chunks: Seq<Chunk>, cc: Seq<CompressedChunk>) -> Seq<u8> {
    let b = bodies(chunks, cc, chunks.len() as int);
    let h = FileHeader {
        version: FORMAT_VERSION,
        flags: 0,
        original_size: total_len(chunks, chunks.len() as int) as u64,
        chunk_count: chunks.len() as u32,
        segment_map_offset: (27 + b.len()) as u64,
    };
    let metas = metas_from(chunks, cc, 0, 27);
    header_bytes(h) + b + metas_bytes(metas, metas.len() as int)
}

proof fn lemma_metas_len(chunks: Seq<Chunk>, cc: Seq<CompressedChunk>, k: int, offset: int)
    requires
        0 <= k <= chunks.len(),
    ensures
        metas_from(chunks, cc, k, offset).len() == chunks.len() - k,
    decreases chunks.len() - k,
{
    if k < chunks.len() {
        lemma_metas_len(chunks, cc, k + 1, offset + 15 + cc[k].data@.len());
    }
}

/// How many of `chunks[0..k]` have data type `t`.
pub open spec fn count_type(chunks: Seq<Chunk>, t: DataType, k: int) -> int
    decreases k,
{
    if k <= 0 { 0 } else { count_type(chunks, t, k - 1) + if chunks[k - 1].data_type == t { 1int } else { 0int } }
}

/// The sum of the coded lengths of `cc[0..k]`.
pub open spec fn coded_len(cc: Seq<CompressedChunk>, k: int) -> int
    decreases k,
{
    if k <= 0 { 0 } else { coded_len(cc, k - 1) + cc[k - 1].data@.len() }
}

proof fn lemma_bodies_len(chunks: Seq<Chunk>, cc: Seq<CompressedChunk>, k: int)
    requires
        0 <= k <= chunks.len(),
        k <= cc.len(),
    ensures
        bodies(chunks, cc, k).len() == 15 * k + coded_len(cc, k),
    decreases k,
{
    crate::bytes::lemma_le_lengths();
    if k > 0 {
        lemma_bodies_len(chunks, cc, k - 1);
    }
}

proof fn lemma_metas_bytes_len(metas: Seq<ChunkMeta>, k: int)
    requires
        0 <= k <= metas.len(),
    ensures
        metas_bytes(metas, k).len() == 31 * k,
    decreases k,
{
    if k > 0 {
        lemma_metas_bytes_len(metas, k - 1);
        crate::format::lemma_meta_roundtrip(metas[k - 1], Seq::empty());
    }
}

proof fn lemma_monotone(chunks: Seq<Chunk>, cc: Seq<CompressedChunk>, i: int, j: int)
    requires
        0 <= i <= j <= chunks.len(),
    ensures
        total_len(chunks, i) <= total_len(chunks, j),
        coded_len(cc, i) <= coded_len(cc, j),
        0 <= total_len(chunks, i),
        0 <= coded_len(cc, i),
        count_type(chunks, DataType::Text, i) <= i,
    decreases j,
{
    if i < j {
        lemma_monotone(chunks, cc, i, j - 1);
    } else if i > 0 {
        lemma_monotone(chunks, cc, i - 1, i - 1);
    }
}

/// The statistics of a chunked container.
pub open spec fn chunked_stats_ok(s: CompressStats, chunks: Seq<Chunk>, cc: Seq<CompressedChunk>) -> bool {
    let n = chunks.len() as int;
    &&& s.compressed_size == 27 + 15 * n + coded_len(cc, n) + 31 * n
    &&& s.chunk_count == n
    &&& s.data_compressed == coded_len(cc, n)
    &&& s.text_chunks == count_type(chunks, DataType::Text, n)
    &&& s.structured_chunks == count_type(chunks, DataType::Structured, n)
    &&& s.binary_chunks == count_type(chunks, DataType::Binary, n)
    &&& s.numeric_int_chunks == count_type(chunks, DataType::NumericInt, n)
    &&& s.numeric_float_chunks == count_type(chunks, DataType::NumericFloat, n)
    &&& s.random_chunks == count_type(chunks, DataType::CompressedOrRandom, n)
    &&& s.sparse_chunks == count_type(chunks, DataType::Sparse, n)
}

proof fn lemma_count_bound(chunks: Seq<Chunk>, t: DataType, k: int)
    requires
        0 <= k,
    ensures
        0 <= count_type(chunks, t, k) <= k,
    decreases k,
{
    if k > 0 {
        lemma_count_bound(chunks, t, k - 1);
    }
}

/// Writes the chunked container and its statistics (all but the original size).
fn write_chunks(chunks: &Vec<Chunk>, cc: &Vec<CompressedChunk>) -> (r: (Vec<u8>, CompressStats))
    requires
        chunks@.len() == cc@.len(),
        chunks@.len() <= u32::MAX,
        27 + 46 * chunks@.len() + coded_len(cc@, chunks@.len() as int) <= u64::MAX,
        total_len(chunks@, chunks@.len() as int) <= u64::MAX,
    ensures
        r.0@ == container(chunks@, cc@),
        chunked_stats_ok(r.1, chunks@, cc@),
        r.1.original_size == 0,
        r.1.compressed_size == r.0@.len(),
        header_ok(r.0@, total_len(chunks@, chunks@.len() as int)),
{
    let n = cc.len();
    let ghost nn = n as int;
    let mut metas: Vec<ChunkMeta> = Vec::new();
    let mut offset: u64 = 27;
    let mut total: u64 = 0;
    let mut coded: u64 = 0;
    let mut i: usize = 0;
    proof {
        lemma_metas_len(chunks@, cc@, 0, 27);
        lemma_monotone(chunks@, cc@, 0, nn);
    }
    while i < n
        invariant
            n == cc@.len() == chunks@.len(),
            nn == n,
            27 + 46 * nn + coded_len(cc@, nn) <= u64::MAX,
            total_len(chunks@, nn) <= u64::MAX,
            i <= n,
            metas@ + metas_from(chunks@, cc@, i as int, offset as int) == metas_from(chunks@, cc@, 0, 27),
            offset as int == 27 + 15 * i + coded_len(cc@, i as int),
            total as int == total_len(chunks@, i as int),
            coded as int == coded_len(cc@, i as int),
        decreases n - i,
    {
        proof {
            lemma_monotone(chunks@, cc@, i + 1, nn);
        }
        let m = ChunkMeta {
            offset_in_file: offset,
            original_offset: chunks[i].original_offset,
            original_size: chunks[i].data.len() as u32,
            compressed_size: cc[i].data.len() as u32,
            data_type: chunks[i].data_type,
            transform: cc[i].transform,
            codec: cc[i].codec,
            checksum: cc[i].checksum,
        };
        proof {
            let rest = metas_from(chunks@, cc@, i + 1, offset + 15 + cc@[i as int].data@.len());
            assert(metas_from(chunks@, cc@, i as int, offset as int) == seq![m] + rest);
            assert(metas@.push(m) + rest =~= metas@ + (seq![m] + rest));
        }
        metas.push(m);
        offset = offset + 15 + cc[i].data.len() as u64;
        total = total + chunks[i].data.len() as u64;
        coded = coded + cc[i].data.len() as u64;
        i = i + 1;
    }
    assert(metas@ =~= metas_from(chunks@, cc@, 0, 27));
    let ghost b = bodies(chunks@, cc@, nn);
    proof {
        lemma_bodies_len(chunks@, cc@, nn);
    }
    let header = FileHeader {
        version: FORMAT_VERSION,
        flags: 0,
        original_size: total,
        chunk_count: n as u32,
        segment_map_offset: offset,
    };
    let mut out: Vec<u8> = Vec::new();
    header.write_to(&mut out);
    let ghost h = out@;
    proof { lemma_header_ok(header, Seq::empty()); assert(h =~= header_bytes(header)); }
    let mut k: usize = 0;
    while k < n
        invariant
            n == cc@.len() == chunks@.len(),
            k <= n,
            out@ == h + bodies(chunks@, cc@, k as int),
        decreases n - k,
    {
        push_u32_le(&mut out, cc[k].data.len() as u32);
        push_u32_le(&mut out, chunks[k].data.len() as u32);
        out.push(chunks[k].data_type.to_u8());
        out.push(cc[k].transform.to_u8());
        out.push(cc[k].codec.to_u8());
        push_u32_le(&mut out, cc[k].checksum);
        append_bytes(&mut out, cc[k].data.as_slice());
        proof {
            crate::format::lemma_tag_codes();
            assert(out@ =~= h + bodies(chunks@, cc@, k + 1));
        }
        k = k + 1;
    }
    let ghost hb = out@;
    let mut j: usize = 0;
    while j < metas.len()
        invariant
            j <= metas@.len(),
            out@ == hb + metas_bytes(metas@, j as int),
        decreases metas@.len() - j,
    {
        metas[j].write_to(&mut out);
        j = j + 1;
    }
    proof {
        lemma_header_ok(header, bodies(chunks@, cc@, nn) + metas_bytes(metas@, nn));
        assert(out@ =~= header_bytes(header) + (bodies(chunks@, cc@, nn) + metas_bytes(metas@, nn)));
    }
    // statistics
    let mut stats = empty_stats();
    proof {
        lemma_metas_bytes_len(metas@, nn);
    }
    stats.compressed_size = offset + (n as u64) * 31;
    stats.chunk_count = n as u32;
    stats.data_compressed = coded;
    let mut q: usize = 0;
    while q < n
        invariant
            n == chunks@.len(),
            n <= u32::MAX,
            q <= n,
            stats.compressed_size == 27 + 15 * n + coded_len(cc@, n as int) + 31 * n,
            stats.chunk_count == n,
            stats.data_compressed == coded_len(cc@, n as int),
            stats.original_size == 0,
            stats.text_chunks == count_type(chunks@, DataType::Text, q as int),
            stats.structured_chunks == count_type(chunks@, DataType::Structured, q as int),
            stats.binary_chunks == count_type(chunks@, DataType::Binary, q as int),
            stats.numeric_int_chunks == count_type(chunks@, DataType::NumericInt, q as int),
            stats.numeric_float_chunks == count_type(chunks@, DataType::NumericFloat, q as int),
            stats.random_chunks == count_type(chunks@, DataType::CompressedOrRandom, q as int),
            stats.sparse_chunks == count_type(chunks@, DataType::Sparse, q as int),
        decreases n - q,
    {
        proof {
            lemma_count_bound(chunks@, DataType::Text, q as int);
            lemma_count_bound(chunks@, DataType::Structured, q as int);
            lemma_count_bound(chunks@, DataType::Binary, q as int);
            lemma_count_bound(chunks@, DataType::NumericInt, q as int);
            lemma_count_bound(chunks@, DataType::NumericFloat, q as int);
            lemma_count_bound(chunks@, DataType::CompressedOrRandom, q as int);
            lemma_count_bound(chunks@, DataType::Sparse, q as int);
        }
        match chunks[q].data_type {
            DataType::Text => stats.text_chunks = stats.text_chunks + 1,
            DataType::Structured => stats.structured_chunks = stats.structured_chunks + 1,
            DataType::Binary => stats.binary_chunks = stats.binary_chunks + 1,
            DataType::NumericInt => stats.numeric_int_chunks = stats.numeric_int_chunks + 1,
            DataType::NumericFloat => stats.numeric_float_chunks = stats.numeric_float_chunks + 1,
            DataType::CompressedOrRandom => stats.random_chunks = stats.random_chunks + 1,
            DataType::Sparse => stats.sparse_chunks = stats.sparse_chunks + 1,
        }
        q = q + 1;
    }
    (out, stats)
}

/// `out` opens with the magic bytes and the format version, and holds `n` as the original size
/// (little-endian, bytes 7 to 14).
pub open spec fn header_ok(out: Seq<u8>, n: int) -> bool {
    &&& out.len() >= 27
    &&& out.subrange(0, 4) == crate::format::magic()
    &&& out[4] == FORMAT_VERSION
    &&& crate::bytes::u64_at(out, 7) == n
}

proof fn lemma_header_ok(h: FileHeader, rest: Seq<u8>)
    requires
        h.version == FORMAT_VERSION,
    ensures
        header_bytes(h).len() == 27,
        header_ok(header_bytes(h) + rest, h.original_size as int),
{
    crate::bytes::lemma_le_lengths();
    let a = crate::format::magic() + seq![h.version] + crate::bytes::le16(h.flags);
    let b = le32(h.chunk_count) + crate::bytes::le64(h.segment_map_offset) + rest;
    crate::bytes::lemma_u64_at(a, h.original_size, b);
    let out = header_bytes(h) + rest;
    assert(out =~= a + crate::bytes::le64(h.original_size) + b);
    assert(out.subrange(0, 4) =~= crate::format::magic());
    assert(out[4] == h.version);
}

/// The single-stream container: header (one chunk, no segment map), transform and codec tags,
/// checksum, then the stream.
pub open spec fn single_container(original: Seq<u8>, compressed: Seq<u8>, tf: TransformType) -> Seq<u8> {
    let h = FileHeader { version: FORMAT_VERSION, flags: 1, original_size: original.len() as u64, chunk_count: 1, segment_map_offset: 0 };
    header_bytes(h) + seq![transform_code(tf), codec_code(CodecType::Lzma)] + le32(xxh32_of(original, 0)) + compressed
}

/// A single-stream container whose stream decodes, through its transform, back to the data
/// decompresses to the data.
pub proof fn lemma_single_roundtrip(data: Seq<u8>, s: Seq<u8>, tf: TransformType)
    requires
        data.len() <= u64::MAX,
        restores_parts(CodecType::Lzma, tf, s, data),
    ensures
        decompressed(single_container(data, s, tf)) == Some(Ok::<Seq<u8>, DecompressError>(data)),
{
    let h = FileHeader { version: FORMAT_VERSION, flags: 1, original_size: data.len() as u64, chunk_count: 1, segment_map_offset: 0 };
    let tags = seq![transform_code(tf), codec_code(CodecType::Lzma)];
    let chk = xxh32_of(data, 0);
    let d = single_container(data, s, tf);
    crate::bytes::lemma_le_lengths();
    crate::format::lemma_header_roundtrip(h, tags + le32(chk) + s);
    assert(d =~= header_bytes(h) + (tags + le32(chk) + s));
    crate::bytes::lemma_u32_at(header_bytes(h) + tags, chk, s);
    assert(d =~= header_bytes(h) + tags + le32(chk) + s);
    crate::format::lemma_tag_codes();
    assert(d[27] == transform_code(tf));
    assert(d[28] == codec_code(CodecType::Lzma));
    assert(d.subrange(33, d.len() as int) =~= s);
}

fn write_single_chunk(original: &[u8], compressed: &[u8], tf: TransformType) -> (r: (Vec<u8>, CompressStats))
    requires
        33 + compressed@.len() <= u64::MAX,
    ensures
        r.0@ == single_container(original@, compressed@, tf),
        r.1.compressed_size == 33 + compressed@.len(),
        r.1.compressed_size == r.0@.len(),
        header_ok(r.0@, original@.len() as int),
        r.1.chunk_count == 1,
        r.1.binary_chunks == 1,
        r.1.original_size == 0,
{
    let checksum = xxh32(original, 0);
    let header = FileHeader { version: FORMAT_VERSION, flags: 1, original_size: original.len() as u64, chunk_count: 1, segment_map_offset: 0 };
    let mut out: Vec<u8> = Vec::new();
    header.write_to(&mut out);
    out.push(tf.to_u8());
    out.push(CodecType::Lzma.to_u8());
    push_u32_le(&mut out, checksum);
    append_bytes(&mut out, compressed);
    proof {
        crate::format::lemma_tag_codes();
    }
    assert(out@ =~= single_container(original@, compressed@, tf));
    proof {
        lemma_header_ok(header, seq![transform_code(tf), codec_code(CodecType::Lzma)] + le32(xxh32_of(original@, 0)) + compressed@);
        crate::bytes::lemma_le_lengths();
        assert(out@ =~= header_bytes(header) + (seq![transform_code(tf), codec_code(CodecType::Lzma)] + le32(xxh32_of(original@, 0)) + compressed@));
    }
    let mut stats = empty_stats();
    stats.compressed_size = 33 + compressed.len() as u64;
    stats.chunk_count = 1;
    stats.binary_chunks = 1;
    (out, stats)
}

pub(crate) proof fn lemma_tiled_cover_total(chunks: Seq<Chunk>, data: Seq<u8>, bounds: Seq<(int, int)>, k: int)
    requires
        crate::chunk::chunks_cover(chunks, data, bounds),
        crate::chunk::tiles(bounds, data.len() as int),
        0 <= k <= chunks.len(),
    ensures
        total_len(chunks, k) == (if k == 0 { 0 } else { bounds[k - 1].1 }),
    decreases k,
{
    if k > 0 {
        lemma_tiled_cover_total(chunks, data, bounds, k - 1);
        let b = bounds[k - 1];
        assert(chunks[k - 1].data@ == data.subrange(b.0, b.1));
    }
}

proof fn lemma_coded_le(chunks: Seq<Chunk>, cc: Seq<CompressedChunk>, k: int)
    requires
        0 <= k <= chunks.len(),
        k <= cc.len(),
        forall|q: int| 0 <= q < k ==> (#[trigger] cc[q]).data@.len() <= chunks[q].data@.len(),
    ensures
        coded_len(cc, k) <= total_len(chunks, k),
    decreases k,
{
    if k > 0 {
        lemma_coded_le(chunks, cc, k - 1);
    }
}

/// Compresses `data` at `level` into a container, with its statistics. The caller supplies the
/// floating-point analyses: `transitions` marks the 4 KiB regions where the data changes
/// character (read for inputs up to 512 KiB), `classify` gives a chunk's content class, `band`
/// the entropy band of a block, and `profile` the whole-file statistics. The chunked container
/// is written unless, from level 7 on and for at least 256 bytes, one whole-file xz stream is
/// smaller with its overhead.
pub fn compress<F: Fn(&[u8]) -> DataType, B: Fn(&[u8]) -> EntropyBand>(
    data: &[u8],
    level: u32,
    transitions: &[bool],
    classify: &F,
    band: &B,
    profile: FileProfile,
) -> (r: (Vec<u8>, CompressStats))
    requires
        data@.len() <= MAX_INPUT,
        data@.len() <= 2 * DEFAULT_CHUNK_SIZE ==> transitions@.len() >= region_count(data@.len() as int),
        forall|s: &[u8]| #[trigger] classify.requires((s,)),
        forall|s: &[u8]| #[trigger] band.requires((s,)),
    ensures
        r.1.original_size == data@.len(),
        r.1.compressed_size == r.0@.len(),
        header_ok(r.0@, data@.len() as int),
        (exists|chunks: Seq<Chunk>, cc: Seq<CompressedChunk>| #[trigger] container(chunks, cc) == r.0@
            && chunks.len() == cc.len()
            && crate::chunk::chunks_cover(chunks, data@, crate::chunk::chunk_bounds(data@.len() as int, DEFAULT_CHUNK_SIZE as int, transitions@))
            && crate::chunk::tiles(crate::chunk::chunk_bounds(data@.len() as int, DEFAULT_CHUNK_SIZE as int, transitions@), data@.len() as int)
            && forall|k: int| 0 <= k < chunks.len() ==> {
                &&& (#[trigger] cc[k]).checksum == xxh32_of(chunks[k].data@, 0)
                &&& encodes(cc[k], chunks[k].data@)
                &&& (level == 5 || level == 6) ==> restores(cc[k], chunks[k].data@)
                &&& chunk_choice_ok(cc[k], chunks[k].data@, chunks[k].data_type, level, band)
            }
            && ((forall|k: int| 0 <= k < chunks.len() ==> proven_choice(#[trigger] cc[k], chunks[k].data@))
                ==> decompressed(r.0@) == Some(Ok::<Seq<u8>, DecompressError>(data@))))
        || (level >= 7 && data@.len() >= 256 && exists|s: Seq<u8>, tf: TransformType| #[trigger] single_container(data@, s, tf) == r.0@
            && decompressed(r.0@) == Some(Ok::<Seq<u8>, DecompressError>(data@))),
        level == 5 || level == 6 ==> decompressed(r.0@) == Some(Ok::<Seq<u8>, DecompressError>(data@))
            || mismatch(decompressed(r.0@)),
{
    let mut chunks = split_into_chunks(data, DEFAULT_CHUNK_SIZE, transitions);
    let ghost bounds = crate::chunk::chunk_bounds(data@.len() as int, DEFAULT_CHUNK_SIZE as int, transitions@);
    let ghost before = chunks@;
    fingerprint_chunks(&mut chunks, classify);
    proof {
        assert forall|q: int| 0 <= q < bounds.len() implies {
            let b = #[trigger] bounds[q];
            &&& 0 <= b.0 <= b.1 <= data@.len()
            &&& chunks@[q].data@ == data@.subrange(b.0, b.1)
            &&& chunks@[q].original_offset == b.0
        } by {
            assert(chunks@[q].data@ == before[q].data@);
        }
        assert(crate::chunk::chunks_cover(chunks@, data@, bounds));
        crate::chunk::lemma_chunk_count(data@.len() as int, transitions@);
        assert(data@.len() / 262144 <= 0x3_FFFF_C000_0000int / 262144) by {
            vstd::arithmetic::div_mod::lemma_div_is_ordered(data@.len() as int, 0x3_FFFF_C000_0000int, 262144);
        }
        assert(bounds.len() <= u32::MAX);
    }
    let n = chunks.len();
    let mut cc: Vec<CompressedChunk> = Vec::new();
    let mut i: usize = 0;
    while i < n
        invariant
            n == chunks@.len(),
            n <= u32::MAX,
            data@.len() <= MAX_INPUT,
            crate::chunk::chunks_cover(chunks@, data@, bounds),
            crate::chunk::tiles(bounds, data@.len() as int),
            forall|s: &[u8]| #[trigger] band.requires((s,)),
            i <= n,
            cc@.len() == i,
            forall|k: int| 0 <= k < i ==> {
                &&& (#[trigger] cc@[k]).checksum == xxh32_of(chunks@[k].data@, 0)
                &&& cc@[k].data@.len() <= chunks@[k].data@.len()
                &&& encodes(cc@[k], chunks@[k].data@)
                &&& chunk_choice_ok(cc@[k], chunks@[k].data@, chunks@[k].data_type, level, band)
                &&& (level == 5 || level == 6) ==> restores(cc@[k], chunks@[k].data@)
            },
        decreases n - i,
    {
        let c = compress_chunk(&chunks[i], level, band);
        cc.push(c);
        i = i + 1;
    }
    let mut per_chunk: u128 = 0;
    let mut k: usize = 0;
    while k < n
        invariant
            n == cc@.len(),
            k <= n,
            per_chunk as int == coded_len(cc@, k as int),
            coded_len(cc@, k as int) <= k * 0x1_0000_0000_0000_0000,
        decreases n - k,
    {
        per_chunk = per_chunk + cc[k].data.len() as u128;
        k = k + 1;
    }
    proof {
        lemma_coded_le(chunks@, cc@, n as int);
        lemma_tiled_cover_total(chunks@, data@, bounds, n as int);
    }
    let approach_a: u128 = 27 + (n as u128) * 15 + (n as u128) * 31 + per_chunk;
    let approach_b = if data.len() >= 256 && level >= 7 { try_whole_file_lzma(data, profile) } else { None };
    let b_size: u128 = match &approach_b {
        Some(b) => b.0.len() as u128 + b.1 as u128,
        None => u128::MAX,
    };
    proof {
        if level == 5 || level == 6 {
            lemma_container_roundtrip(chunks@, cc@, data@, bounds);
        }
        if forall|k: int| 0 <= k < chunks@.len() ==> proven_choice(#[trigger] cc@[k], chunks@[k].data@) {
            assert forall|k: int| 0 <= k < chunks@.len() implies restores(#[trigger] cc@[k], chunks@[k].data@)
                && crate::roundtrip::restores_exactly(cc@[k], chunks@[k].data@) by {
                lemma_chunk_roundtrip(cc@[k], chunks@[k].data@);
            }
            lemma_container_roundtrip(chunks@, cc@, data@, bounds);
        }
    }
    let (out, mut stats) = if b_size < approach_a {
        match approach_b {
            Some((lzma, _o, tf)) => {
                proof { lemma_single_roundtrip(data@, lzma@, tf); }
                write_single_chunk(data, lzma.as_slice(), tf)
            },
            None => write_chunks(&chunks, &cc),
        }
    } else {
        write_chunks(&chunks, &cc)
    };
    stats.original_size = data.len() as u64;
    (out, stats)
}

} // verus!
