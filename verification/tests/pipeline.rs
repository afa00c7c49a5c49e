use hypercompress::chunk::{split_into_chunks, Chunk, DEFAULT_CHUNK_SIZE, REGION_SIZE};
use hypercompress::compress::{compress, compress_chunk, FileProfile};
use hypercompress::decompress::{decompress, decompress_checked, DecompressError};
use hypercompress::entropy::EntropyBand;
use hypercompress::fingerprint::fingerprint_chunks;
use hypercompress::format::{ChunkMeta, CodecType, DataType, FileHeader, FormatError, TransformType};

/// Shannon entropy in bits per byte.
fn shannon(data: &[u8]) -> f64 {
    if data.is_empty() {
        return 0.0;
    }
    let mut hist = [0u64; 256];
    for &b in data {
        hist[b as usize] += 1;
    }
    let n = data.len() as f64;
    let mut e = 0.0;
    for &c in hist.iter() {
        if c > 0 {
            let p = c as f64 / n;
            e -= p * p.log2();
        }
    }
    e
}

fn zero_ratio(data: &[u8]) -> f64 {
    if data.is_empty() {
        return 0.0;
    }
    data.iter().filter(|&&b| b == 0).count() as f64 / data.len() as f64
}

/// Region `i` starts a new character when its entropy or zero ratio jumps from region `i - 1`.
fn transitions_of(data: &[u8]) -> Vec<bool> {
    let regions: Vec<&[u8]> = data.chunks(REGION_SIZE).collect();
    let mut out = Vec::with_capacity(regions.len());
    for i in 0..regions.len() {
        if i == 0 {
            out.push(false);
        } else {
            let de = (shannon(regions[i]) - shannon(regions[i - 1])).abs();
            let dz = (zero_ratio(regions[i]) - zero_ratio(regions[i - 1])).abs();
            out.push(de > 2.5 || dz > 0.4);
        }
    }
    out
}

fn band_of(data: &[u8]) -> EntropyBand {
    let e = shannon(data);
    if e <= 5.5 {
        EntropyBand::Low
    } else if e <= 7.5 {
        EntropyBand::Moderate
    } else if e <= 7.8 {
        EntropyBand::High
    } else {
        EntropyBand::Incompressible
    }
}

/// A coarse classifier: random, sparse, text or binary.
fn classify(data: &[u8]) -> DataType {
    let e = shannon(data);
    if e > 7.9 {
        return DataType::CompressedOrRandom;
    }
    if e < 2.5 && zero_ratio(data) > 0.4 {
        return DataType::Sparse;
    }
    let ascii = data
        .iter()
        .filter(|&&b| (0x20..=0x7E).contains(&b) || b == b'\n' || b == b'\r' || b == b'\t')
        .count() as f64;
    if !data.is_empty() && ascii / data.len() as f64 > 0.85 {
        return DataType::Text;
    }
    DataType::Binary
}

fn profile_of(data: &[u8]) -> FileProfile {
    let e = shannon(data);
    FileProfile { entropy_above_7_9: e > 7.9, entropy_above_7_0: e > 7.0, data_type: classify(data) }
}

fn compress_at(data: &[u8], level: u32) -> Vec<u8> {
    let trans = transitions_of(data);
    let (out, stats) = compress(data, level, &trans, &classify, &band_of, profile_of(data));
    assert_eq!(stats.original_size, data.len() as u64);
    assert_eq!(stats.compressed_size, out.len() as u64);
    assert_eq!(&out[0..5], &[b'H', b'C', 1, 0, 1]);
    assert_eq!(&out[7..15], &(data.len() as u64).to_le_bytes());
    out
}

// ---- chunking ----

#[test]
fn splits_large_data() {
    let data = vec![0u8; 600_000];
    let chunks = split_into_chunks(&data, DEFAULT_CHUNK_SIZE, &transitions_of(&data));
    assert!(chunks.len() >= 2 && chunks.len() <= 4);
}

#[test]
fn keeps_small_data_together() {
    let data = vec![42u8; 100];
    let chunks = split_into_chunks(&data, DEFAULT_CHUNK_SIZE, &transitions_of(&data));
    assert_eq!(chunks.len(), 1);
    assert_eq!(chunks[0].data.len(), 100);
}

#[test]
fn detects_transition() {
    let mut data = Vec::new();
    for i in 0..50_000 {
        data.push((65 + (i % 26)) as u8);
    }
    data.extend_from_slice(&vec![0u8; 50_000]);

    let chunks = split_into_chunks(&data, DEFAULT_CHUNK_SIZE, &transitions_of(&data));
    assert!(chunks.len() >= 2, "got {} chunks", chunks.len());
}

#[test]
fn uniform_stays_single() {
    let data = vec![42u8; 300_000];
    let chunks = split_into_chunks(&data, DEFAULT_CHUNK_SIZE, &transitions_of(&data));
    assert_eq!(chunks.len(), 1);
}

#[test]
fn chunks_tile_the_input() {
    let mut data = vec![7u8; 20_000];
    data.extend((0..30_000u32).map(|i| (i.wrapping_mul(2654435761) >> 24) as u8));
    let chunks = split_into_chunks(&data, DEFAULT_CHUNK_SIZE, &transitions_of(&data));
    let mut joined = Vec::new();
    for c in &chunks {
        assert_eq!(c.original_offset as usize, joined.len());
        joined.extend_from_slice(&c.data);
    }
    assert_eq!(joined, data);
}

#[test]
fn empty_input_has_no_chunks() {
    let chunks = split_into_chunks(&[], DEFAULT_CHUNK_SIZE, &[]);
    assert!(chunks.is_empty());
}

#[test]
fn fingerprint_sets_types_in_place() {
    let data = vec![0u8; 5000];
    let mut chunks = split_into_chunks(&data, DEFAULT_CHUNK_SIZE, &transitions_of(&data));
    fingerprint_chunks(&mut chunks, &classify);
    assert_eq!(chunks.len(), 1);
    assert_eq!(chunks[0].data_type, DataType::Sparse);
    assert_eq!(chunks[0].data, data);
}

// ---- chunk compression ----

#[test]
fn random_chunk_is_stored_raw() {
    let data: Vec<u8> = (0..5000u32).map(|i| (i.wrapping_mul(2654435761) >> 24) as u8).collect();
    let chunk = Chunk { data: data.clone(), original_offset: 0, data_type: DataType::CompressedOrRandom };
    let cc = compress_chunk(&chunk, 6, &band_of);
    assert_eq!(cc.codec, CodecType::Raw);
    assert_eq!(cc.transform, TransformType::Identity);
    assert_eq!(cc.data, data);
    assert_eq!(cc.checksum, xxhash_rust::xxh32::xxh32(&data, 0));
}

#[test]
fn text_chunk_shrinks() {
    let data = "compressible words, compressible words. ".repeat(200).into_bytes();
    let chunk = Chunk { data: data.clone(), original_offset: 0, data_type: DataType::Text };
    let cc = compress_chunk(&chunk, 6, &band_of);
    assert!(cc.data.len() < data.len() / 4);
    assert_eq!(cc.checksum, xxhash_rust::xxh32::xxh32(&data, 0));
}

// ---- full container ----

#[test]
fn test_full_compress_decompress_text() {
    let mut text = Vec::new();
    for i in 0..100 {
        text.extend_from_slice(format!("Line {} of test data with some content.\n", i).as_bytes());
    }
    let compressed = compress_at(&text, 6);
    let decompressed = decompress(&compressed).unwrap();
    assert_eq!(decompressed, text, "Full text roundtrip failed");
}

#[test]
fn test_full_compress_decompress_binary() {
    let data: Vec<u8> = (0..10000).map(|i| (i * 7 % 256) as u8).collect();
    let compressed = compress_at(&data, 6);
    let decompressed = decompress(&compressed).unwrap();
    assert_eq!(decompressed, data, "Full binary roundtrip failed");
}

#[test]
fn test_full_compress_decompress_sparse() {
    let mut data = vec![0u8; 10000];
    for i in (0..10000).step_by(100) {
        data[i] = 42;
    }
    let compressed = compress_at(&data, 6);
    let decompressed = decompress(&compressed).unwrap();
    assert_eq!(decompressed, data, "Full sparse roundtrip failed");
}

#[test]
fn roundtrip_at_every_chunked_level() {
    let mut data = Vec::new();
    for i in 0..300 {
        data.extend_from_slice(format!("record {:05}; value={}\n", i, i * 37 % 1000).as_bytes());
    }
    for level in 1..=6 {
        let compressed = compress_at(&data, level);
        assert_eq!(decompress(&compressed).unwrap(), data, "level {}", level);
    }
}

#[test]
fn empty_input_roundtrip() {
    let compressed = compress_at(&[], 6);
    assert_eq!(decompress(&compressed).unwrap(), Vec::<u8>::new());
}

#[test]
fn bad_magic_is_a_format_error() {
    let r = decompress_checked(b"NOPE and some more bytes to pass the header length");
    assert_eq!(r, Some(Err(DecompressError::Format(FormatError::InvalidMagic))));
}

#[test]
fn short_input_is_unexpected_eof() {
    let r = decompress_checked(&[72, 67, 1]);
    assert_eq!(r, Some(Err(DecompressError::Format(FormatError::UnexpectedEof))));
}

/// A one-chunk raw container for `data`, with `checksum` recorded for the chunk.
fn raw_container(data: &[u8], checksum: u32) -> Vec<u8> {
    let header = FileHeader {
        version: 1,
        flags: 0,
        original_size: data.len() as u64,
        chunk_count: 1,
        segment_map_offset: (27 + 15 + data.len()) as u64,
    };
    let mut out = Vec::new();
    header.write_to(&mut out);
    out.extend_from_slice(&[0u8; 15]);
    out.extend_from_slice(data);
    let meta = ChunkMeta {
        offset_in_file: 27,
        original_offset: 0,
        original_size: data.len() as u32,
        compressed_size: data.len() as u32,
        data_type: DataType::Binary,
        transform: TransformType::Identity,
        codec: CodecType::Raw,
        checksum,
    };
    meta.write_to(&mut out);
    out
}

#[test]
fn hand_built_raw_container_decodes() {
    let data = b"stored as it is".to_vec();
    let c = raw_container(&data, xxhash_rust::xxh32::xxh32(&data, 0));
    assert_eq!(decompress(&c).unwrap(), data);
}

#[test]
fn wrong_checksum_is_reported() {
    let data = b"stored as it is".to_vec();
    let good = xxhash_rust::xxh32::xxh32(&data, 0);
    let c = raw_container(&data, good ^ 1);
    assert_eq!(
        decompress(&c),
        Err(DecompressError::ChecksumMismatch { expected: good ^ 1, actual: good })
    );
}

#[test]
fn truncated_chunk_is_io_error() {
    let data = b"stored as it is".to_vec();
    let mut c = raw_container(&data, xxhash_rust::xxh32::xxh32(&data, 0));
    // point the chunk past the end of the input
    let meta_at = c.len() - 31;
    c[meta_at..meta_at + 8].copy_from_slice(&1000u64.to_le_bytes());
    assert_eq!(decompress(&c), Err(DecompressError::Io));
}

#[test]
fn roundtrip_at_exhaustive_levels_on_small_input() {
    // under 256 bytes the whole-file xz alternative is not tried, so the chunked container
    // is written at every level
    let mut data = Vec::new();
    for i in 0..20u32 {
        data.extend_from_slice(format!("k{} v{};", i, i * 3).as_bytes());
    }
    assert!(data.len() < 256);
    for level in 1..=9 {
        let compressed = compress_at(&data, level);
        assert_eq!(decompress(&compressed).unwrap(), data, "level {}", level);
    }
}

#[test]
fn roundtrip_at_whole_file_levels() {
    // from level 7 on, a whole-file xz stream (header flag 1) may replace the chunked container
    let mut data = Vec::new();
    for i in 0..300u32 {
        data.extend_from_slice(format!("record {} value {}\n", i % 37, i % 11).as_bytes());
    }
    for level in 7..=9 {
        let compressed = compress_at(&data, level);
        assert!(compressed.len() < data.len());
        assert_eq!(decompress(&compressed).unwrap(), data, "level {}", level);
    }
}

#[test]
fn numeric_roundtrip_at_every_chunked_level() {
    let mut data = Vec::new();
    for i in 0..3000u32 {
        data.extend_from_slice(&(i * 7 + 1000).to_le_bytes());
    }
    for level in 1..=6 {
        let compressed = compress_at(&data, level);
        assert_eq!(decompress(&compressed).unwrap(), data, "level {}", level);
    }
}
