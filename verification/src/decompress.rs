//! Reading a `.hc` container back: header, segment map, then each chunk decoded, its transform
//! reversed, its checksum tested and its bytes placed at their offset.
use vstd::prelude::*;
use crate::format::{ChunkMeta, CodecType, FileHeader, FormatError, TransformType, header_read, meta_read, transform_of, codec_of, CHUNK_META_SIZE};
use crate::bytes::u32_at;
use crate::entropy::{codec_decoded, decode_checked};
use crate::transform::{reversible, reversed, reverse_transform_checked};

verus! {

/// What the xxHash32 of `data` with `seed` is.
pub uninterp spec fn xxh32_of(data: Seq<u8>, seed: u32) -> u32;

/// xxHash32 through `xxhash_rust::xxh32::xxh32`. Claims: the result is the named function of
/// the arguments.
#[verifier::external_body]
pub(crate) fn xxh32(data: &[u8], seed: u32) -> (r: u32)
    ensures
        r == xxh32_of(data@, seed),
{
    xxhash_rust::xxh32::xxh32(data, seed)
}

/// Why a container could not be decompressed.
#[derive(Debug, Clone, Copy, PartialEq, Eq)]
pub enum DecompressError {
    /// The header is not a `.hc` header.
    Format(FormatError),
    /// A read went past the end of the input.
    Io,
    /// A chunk decoded to bytes whose checksum is not the stored one.
    ChecksumMismatch { expected: u32, actual: u32 },
}

/// The `k` chunk records at `pos`, or `Io` when the input ends first.
pub open spec fn read_metas(d: Seq<u8>, pos: int, k: int) -> Result<Seq<ChunkMeta>, DecompressError>
    decreases k,
{
    if k <= 0 {
        Ok(Seq::empty())
    } else {
        match read_metas(d, pos, k - 1) {
            Err(e) => Err(e),
            Ok(ms) => {
                let at = pos + CHUNK_META_SIZE * (k - 1);
                if at + CHUNK_META_SIZE > d.len() {
                    Err(DecompressError::Io)
                } else {
                    match meta_read(d.subrange(at, d.len() as int)) {
                        Ok(m) => Ok(ms.push(m)),
                        Err(_) => Err(DecompressError::Io),
                    }
                }
            },
        }
    }
}

/// `out` with `src[0..size]` written at `start`, when the range fits and `src` is long enough.
pub open spec fn place(out: Seq<u8>, src: Seq<u8>, start: int, size: int) -> Seq<u8> {
    if start + size <= out.len() && src.len() >= size {
        out.subrange(0, start) + src.subrange(0, size) + out.subrange(start + size, out.len() as int)
    } else {
        out
    }
}

/// Decodes chunks `i ..` of `metas` into `out`. `None` where decoding would fail.
pub open spec fn apply_chunks(d: Seq<u8>, metas: Seq<ChunkMeta>, i: int, out: Seq<u8>) -> Option<Result<Seq<u8>, DecompressError>>
    decreases metas.len() - i,
{
    if i < 0 || i >= metas.len() {
        Some(Ok(out))
    } else {
        let m = metas[i];
        let pos = m.offset_in_file as int;
        if pos + 15 + m.compressed_size > d.len() {
            Some(Err(DecompressError::Io))
        } else {
            let comp = d.subrange(pos + 15, pos + 15 + m.compressed_size);
            match codec_decoded(m.codec, comp) {
                None => None,
                Some(dec) => if !reversible(m.transform, dec) {
                    None
                } else {
                    let restored = reversed(m.transform, dec);
                    let actual = xxh32_of(restored, 0);
                    if actual != m.checksum {
                        Some(Err(DecompressError::ChecksumMismatch { expected: m.checksum, actual }))
                    } else if m.original_offset + m.original_size > usize::MAX {
                        None
                    } else {
                        apply_chunks(d, metas, i + 1, place(out, restored, m.original_offset as int, m.original_size as int))
                    }
                },
            }
        }
    }
}

/// What the single stream of a container with header flag 1 decodes to: after the header, a
/// transform tag, a codec tag and the checksum of the data, then the coded bytes to the end.
/// The stream is decoded, its transform reversed, and the first `original_size` bytes kept and
/// tested against the checksum. `None` where decoding would fail.
pub open spec fn single_decompressed(d: Seq<u8>, original_size: u64) -> Option<Result<Seq<u8>, DecompressError>> {
    if d.len() < 33 {
        Some(Err(DecompressError::Io))
    } else {
        match (transform_of(d[27]), codec_of(d[28])) {
            (Some(tf), Some(codec)) => match codec_decoded(codec, d.subrange(33, d.len() as int)) {
                None => None,
                Some(dec) => if !reversible(tf, dec) {
                    None
                } else {
                    let restored = reversed(tf, dec);
                    if restored.len() < original_size {
                        Some(Err(DecompressError::Io))
                    } else {
                        let out = restored.subrange(0, original_size as int);
                        let expected = u32_at(d, 29);
                        let actual = xxh32_of(out, 0);
                        if actual != expected {
                            Some(Err(DecompressError::ChecksumMismatch { expected, actual }))
                        } else {
                            Some(Ok(out))
                        }
                    }
                },
            },
            _ => Some(Err(DecompressError::Io)),
        }
    }
}

/// What decompressing `d` gives; `None` where decoding a chunk would fail. A header with flag
/// 1 announces a single whole-file stream; otherwise the segment map lists the chunks.
pub open spec fn decompressed(d: Seq<u8>) -> Option<Result<Seq<u8>, DecompressError>> {
    match header_read(d) {
        Err(e) => Some(Err(DecompressError::Format(e))),
        Ok(h) => if h.flags == 1 {
            single_decompressed(d, h.original_size)
        } else {
            match read_metas(d, h.segment_map_offset as int, h.chunk_count as int) {
                Err(e) => Some(Err(e)),
                Ok(metas) => apply_chunks(d, metas, 0, Seq::new((h.original_size as usize) as nat, |k: int| 0u8)),
            }
        },
    }
}

/// Decodes the single whole-file stream of `data`.
fn decompress_single(data: &[u8], original_size: u64) -> (r: Option<Result<Vec<u8>, DecompressError>>)
    ensures
        match r {
            None => single_decompressed(data@, original_size) is None,
            Some(Ok(v)) => single_decompressed(data@, original_size) == Some(Ok::<Seq<u8>, DecompressError>(v@)),
            Some(Err(e)) => single_decompressed(data@, original_size) == Some(Err::<Seq<u8>, DecompressError>(e)),
        },
{
    let n = data.len();
    if n < 33 {
        return Some(Err(DecompressError::Io));
    }
    let tf = match TransformType::from_u8(data[27]) {
        Some(t) => t,
        None => {
            return Some(Err(DecompressError::Io));
        },
    };
    let codec = match CodecType::from_u8(data[28]) {
        Some(c) => c,
        None => {
            return Some(Err(DecompressError::Io));
        },
    };
    let expected = crate::bytes::read_u32_le(data, 29);
    let dec = match decode_checked(&data[33..n], codec) {
        Some(v) => v,
        None => {
            return None;
        },
    };
    let restored = match reverse_transform_checked(dec.as_slice(), tf) {
        Some(v) => v,
        None => {
            return None;
        },
    };
    if (restored.len() as u64) < original_size {
        return Some(Err(DecompressError::Io));
    }
    let size = original_size as usize;
    let mut out: Vec<u8> = Vec::new();
    let mut k: usize = 0;
    while k < size
        invariant
            size == original_size,
            size <= restored@.len(),
            k <= size,
            out@ == restored@.subrange(0, k as int),
        decreases size - k,
    {
        out.push(restored[k]);
        k = k + 1;
        assert(out@ =~= restored@.subrange(0, k as int));
    }
    let actual = xxh32(out.as_slice(), 0);
    if actual != expected {
        return Some(Err(DecompressError::ChecksumMismatch { expected, actual }));
    }
    Some(Ok(out))
}

fn place_exec(out: &mut Vec<u8>, src: &Vec<u8>, start: usize, size: usize)
    requires
        start + size <= old(out)@.len(),
        src@.len() >= size,
    ensures
        final(out)@ == place(old(out)@, src@, start as int, size as int),
{
    let mut k: usize = 0;
    while k < size
        invariant
            start + size <= old(out)@.len(),
            start + size <= out.len(),
            src@.len() >= size,
            k <= size,
            out@.len() == old(out)@.len(),
            forall|q: int| 0 <= q < out@.len() ==> #[trigger] out@[q] == (if start <= q < start + k { src@[q - start] } else { old(out)@[q] }),
        decreases size - k,
    {
        out.set(start + k, src[k]);
        k = k + 1;
    }
    assert(out@ =~= place(old(out)@, src@, start as int, size as int));
}

/// Decompresses a container, or `None` where decoding a chunk would fail (a malformed codec
/// stream, an inverse BWT rank out of range, or an output range past the address space).
pub fn decompress_checked(data: &[u8]) -> (r: Option<Result<Vec<u8>, DecompressError>>)
    ensures
        match r {
            None => decompressed(data@) is None,
            Some(Ok(v)) => decompressed(data@) == Some(Ok::<Seq<u8>, DecompressError>(v@)),
            Some(Err(e)) => decompressed(data@) == Some(Err::<Seq<u8>, DecompressError>(e)),
        },
{
    let header = match FileHeader::read_from(data) {
        Ok(h) => h,
        Err(e) => {
            return Some(Err(DecompressError::Format(e)));
        },
    };
    if header.flags == 1 {
        return decompress_single(data, header.original_size);
    }
    let n = data.len();
    // segment map
    let mut metas: Vec<ChunkMeta> = Vec::new();
    let mut k: u32 = 0;
    let seg = header.segment_map_offset;
    while k < header.chunk_count
        invariant
            n == data@.len(),
            header_read(data@) == Ok::<FileHeader, FormatError>(header),
            seg == header.segment_map_offset,
            header.flags != 1,
            k <= header.chunk_count,
            read_metas(data@, seg as int, k as int) == Ok::<Seq<ChunkMeta>, DecompressError>(metas@),
        decreases header.chunk_count - k,
    {
        let at: u128 = seg as u128 + 31 * k as u128;
        if at + 31 > n as u128 {
            assert(read_metas(data@, seg as int, k + 1) == Err::<Seq<ChunkMeta>, DecompressError>(DecompressError::Io));
            proof {
                lemma_metas_err(data@, seg as int, k + 1, header.chunk_count as int);
            }
            return Some(Err(DecompressError::Io));
        }
        let m = match ChunkMeta::read_from(&data[at as usize..n]) {
            Ok(m) => m,
            Err(_) => {
                proof {
                    lemma_metas_err(data@, seg as int, k + 1, header.chunk_count as int);
                }
                return Some(Err(DecompressError::Io));
            },
        };
        metas.push(m);
        k = k + 1;
    }
    let mut result: Vec<u8> = vec![0u8; header.original_size as usize];
    assert(result@ =~= Seq::new((header.original_size as usize) as nat, |q: int| 0u8));
    let mut i: usize = 0;
    while i < metas.len()
        invariant
            n == data@.len(),
            decompressed(data@) == apply_chunks(data@, metas@, i as int, result@),
            i <= metas@.len(),
        decreases metas@.len() - i,
    {
        let m = metas[i];
        let pos = m.offset_in_file;
        if pos as u128 + 15 + m.compressed_size as u128 > n as u128 {
            return Some(Err(DecompressError::Io));
        }
        let start_c = pos as usize + 15;
        let comp = &data[start_c..start_c + m.compressed_size as usize];
        let dec = match decode_checked(comp, m.codec) {
            Some(v) => v,
            None => {
                return None;
            },
        };
        let restored = match reverse_transform_checked(dec.as_slice(), m.transform) {
            Some(v) => v,
            None => {
                return None;
            },
        };
        let actual = xxh32(restored.as_slice(), 0);
        if actual != m.checksum {
            return Some(Err(DecompressError::ChecksumMismatch { expected: m.checksum, actual }));
        }
        if m.original_offset as u128 + m.original_size as u128 > usize::MAX as u128 {
            return None;
        }
        let start = m.original_offset as usize;
        let size = m.original_size as usize;
        if start + size <= result.len() && restored.len() >= size {
            place_exec(&mut result, &restored, start, size);
        }
        i = i + 1;
    }
    Some(Ok(result))
}

proof fn lemma_metas_err(d: Seq<u8>, pos: int, a: int, b: int)
    requires
        0 < a <= b,
        read_metas(d, pos, a) is Err,
    ensures
        read_metas(d, pos, b) == read_metas(d, pos, a),
    decreases b - a,
{
    if a < b {
        lemma_metas_err(d, pos, a, b - 1);
    }
}

/// Decompresses a container whose chunks all decode (`decompress_checked` tests that).
pub fn decompress(data: &[u8]) -> (r: Result<Vec<u8>, DecompressError>)
    requires
        decompressed(data@) is Some,
    ensures
        match r {
            Ok(v) => decompressed(data@) == Some(Ok::<Seq<u8>, DecompressError>(v@)),
            Err(e) => decompressed(data@) == Some(Err::<Seq<u8>, DecompressError>(e)),
        },
{
    match decompress_checked(data) {
        Some(r) => r,
        None => Err(DecompressError::Io),
    }
}

} // verus!
