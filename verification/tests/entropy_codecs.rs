use hypercompress::entropy;
use hypercompress::entropy::ans;
use hypercompress::entropy::lz::{lz_decode, lz_encode, lz_turbo};
use hypercompress::entropy::lz_optimal;
use hypercompress::entropy::order1;
use hypercompress::entropy::EntropyBand;
use hypercompress::format::CodecType;

/// Shannon entropy in bits per byte.
fn shannon(data: &[u8]) -> f64 {
    if data.is_empty() {
        return 0.0;
    }
    let mut hist = [0u64; 256];
    for &b in data {
        hist[b as usize] += 1;
    }
    let n = data.len() as f64;
    let mut e = 0.0;
    for &c in hist.iter() {
        if c > 0 {
            let p = c as f64 / n;
            e -= p * p.log2();
        }
    }
    e
}

fn band_of(data: &[u8]) -> EntropyBand {
    let e = shannon(data);
    if e <= 5.5 {
        EntropyBand::Low
    } else if e <= 7.5 {
        EntropyBand::Moderate
    } else if e <= 7.8 {
        EntropyBand::High
    } else {
        EntropyBand::Incompressible
    }
}

// ---- ans ----

#[test]
fn ans_test_roundtrip_simple() {
    let data = b"hello world hello hello world";
    let encoded = ans::encode(data);
    let decoded = ans::decode(&encoded);
    assert_eq!(decoded, data);
}

#[test]
fn test_roundtrip_repeated() {
    let data = vec![42u8; 1000];
    let encoded = ans::encode(&data);
    let decoded = ans::decode(&encoded);
    assert_eq!(decoded, data);
    assert!(encoded.len() < 1100);
}

#[test]
fn test_roundtrip_all_bytes() {
    let data: Vec<u8> = (0..=255).collect();
    let encoded = ans::encode(&data);
    let decoded = ans::decode(&encoded);
    assert_eq!(decoded, data);
}

#[test]
fn test_roundtrip_larger() {
    let data: Vec<u8> = (0..10000).map(|i| (i % 10) as u8).collect();
    let encoded = ans::encode(&data);
    let decoded = ans::decode(&encoded);
    assert_eq!(decoded, data);
}

#[test]
fn ans_test_empty() {
    let encoded = ans::encode(&[]);
    let decoded = ans::decode(&encoded);
    assert_eq!(decoded, Vec::<u8>::new());
}

#[test]
fn ans_empty_is_zero_length_header() {
    assert_eq!(ans::encode(&[]), vec![0, 0, 0, 0]);
}

#[test]
fn ans_short_input_decodes_empty() {
    // shorter than the length, frequency table and state: nothing to decode
    assert_eq!(ans::decode_checked(&[5, 0, 0, 0, 1]), Some(vec![]));
}

// ---- lz_optimal ----

#[test]
fn lz_optimal_test_roundtrip_simple() {
    let data = b"hello world hello world hello world";
    let compressed = lz_optimal::compress(data);
    let decompressed = lz_optimal::decompress(&compressed);
    assert_eq!(&decompressed[..], &data[..]);
}

#[test]
fn test_roundtrip_repetitive() {
    let data = "the quick brown fox jumps over the lazy dog. ".repeat(200);
    let compressed = lz_optimal::compress(data.as_bytes());
    assert!(
        compressed.len() < data.len() / 3,
        "Expected >3:1, got {}:{}",
        data.len(),
        compressed.len()
    );
    let decompressed = lz_optimal::decompress(&compressed);
    assert_eq!(decompressed, data.as_bytes());
}

#[test]
fn test_roundtrip_binary() {
    let data: Vec<u8> = (0..10000).map(|i| ((i * 7 + 3) % 256) as u8).collect();
    let compressed = lz_optimal::compress(&data);
    let decompressed = lz_optimal::decompress(&compressed);
    assert_eq!(decompressed, data);
}

#[test]
fn test_roundtrip_all_zeros() {
    let data = vec![0u8; 50000];
    let compressed = lz_optimal::compress(&data);
    assert!(compressed.len() < 1000, "Expected good compression on zeros, got {}", compressed.len());
    let decompressed = lz_optimal::decompress(&compressed);
    assert_eq!(decompressed, data);
}

#[test]
fn test_roundtrip_small() {
    let data = b"hi";
    let compressed = lz_optimal::compress(data);
    let decompressed = lz_optimal::decompress(&compressed);
    assert_eq!(&decompressed[..], &data[..]);
}

#[test]
fn lz_optimal_test_empty() {
    let compressed = lz_optimal::compress(&[]);
    let decompressed = lz_optimal::decompress(&compressed);
    assert!(decompressed.is_empty());
}

#[test]
fn test_rep_offset_benefit() {
    let mut data = Vec::new();
    let pattern = b"ABCDEFGH";
    for _ in 0..500 {
        data.extend_from_slice(pattern);
        data.push(b'X');
    }
    let compressed = lz_optimal::compress(&data);
    let decompressed = lz_optimal::decompress(&compressed);
    assert_eq!(decompressed, data);
}

#[test]
fn lz_optimal_short_input_decodes_empty() {
    assert_eq!(lz_optimal::decompress_checked(&[1, 2]), Some(vec![]));
}

#[test]
fn lz_optimal_documented_layout() {
    // "aaaa": one literal, then a repeat-offset match of 3 (offset 1 is the initial repeat)
    assert_eq!(
        lz_optimal::compress(b"aaaa"),
        vec![4, 0, 0, 0, 2, 0, 0, 0, 0b10, b'a', 0, 0]
    );
    assert_eq!(lz_optimal::decompress(&[4, 0, 0, 0, 2, 0, 0, 0, 0b10, b'a', 0, 0]), b"aaaa".to_vec());
    assert_eq!(lz_optimal::compress(b"hi"), vec![2, 0, 0, 0, 2, 0, 0, 0, 0, b'h', b'i']);
    assert_eq!(lz_optimal::compress(&[]), vec![0u8; 8]);
}

// ---- lz / dispatch ----

#[test]
fn lz_roundtrip() {
    let data = b"the quick brown fox jumps over the lazy dog and the quick brown fox jumps again";
    let decoded = lz_decode(&lz_encode(data));
    assert_eq!(&decoded[..], &data[..]);
}

#[test]
fn lz_highly_repetitive() {
    let data = "hello world! ".repeat(1000);
    let enc = lz_encode(data.as_bytes());
    assert!(enc.len() < data.len() / 5, "ratio {}:{}", data.len(), enc.len());
    assert_eq!(lz_decode(&enc), data.as_bytes());
}

#[test]
fn lz_small_input() {
    let data = b"hi";
    assert_eq!(&lz_decode(&lz_encode(data))[..], &data[..]);
}

#[test]
fn lz_empty() {
    let enc = lz_encode(&[]);
    assert_eq!(lz_decode(&enc), &[] as &[u8]);
}

#[test]
fn lz_turbo_roundtrip() {
    let data = "abcabcabcabcabcabcabc xyz abcabc".repeat(50);
    assert_eq!(lz_decode(&lz_turbo(data.as_bytes())), data.as_bytes());
}

#[test]
fn lzans_is_ans_over_lz_tokens() {
    let data = "abcabcabcabc".repeat(20);
    let enc = entropy::encode(data.as_bytes(), CodecType::LzAns);
    let back = lz_decode(&ans::decode(&enc));
    assert_eq!(back, data.as_bytes());
}

#[test]
fn lzans_roundtrip() {
    let data = "the quick brown fox ".repeat(500);
    let decoded = entropy::decode(&entropy::encode(data.as_bytes(), CodecType::LzAns), CodecType::LzAns);
    assert_eq!(decoded, data.as_bytes());
}

#[test]
fn select_best_compresses() {
    let data = "hello world hello world hello hello world world ".repeat(100);
    let (codec, compressed) = entropy::select_best_codec(data.as_bytes(), band_of(data.as_bytes()), 6);
    assert!(compressed.len() < data.len() / 3);
    assert_eq!(entropy::decode(&compressed, codec), data.as_bytes());
}

#[test]
fn test_lz_roundtrip_simple() {
    let data = b"hello world hello world hello hello hello world world";
    let encoded = entropy::encode(data, CodecType::Lz);
    let decoded = entropy::decode(&encoded, CodecType::Lz);
    assert_eq!(&decoded[..], &data[..], "LZ roundtrip failed");
}

#[test]
fn test_bwt_then_lz_roundtrip() {
    let text = b"The quick brown fox jumps over the lazy dog. Repeated text here. The quick brown fox again.";
    let bwt = hypercompress::transform::bwt::forward(text);
    let encoded = entropy::encode(&bwt, CodecType::Lz);
    let decoded = entropy::decode(&encoded, CodecType::Lz);
    assert_eq!(decoded, bwt, "BWT+LZ roundtrip failed at LZ step");
    let original = hypercompress::transform::bwt::inverse(&decoded);
    assert_eq!(&original[..], &text[..], "BWT+LZ roundtrip failed at BWT inverse step");
}

#[test]
fn lzma_codec_roundtrip_and_shrinks() {
    let data = "lzma should squeeze this repetitive sentence. ".repeat(200);
    let enc = entropy::encode(data.as_bytes(), CodecType::Lzma);
    assert!(enc.len() < data.len() / 4);
    assert_eq!(entropy::decode(&enc, CodecType::Lzma), data.as_bytes());
}

#[test]
fn lzma_fast_shrinks_repetitive_data() {
    let data = "fast preset on repetitive text. ".repeat(100);
    let enc = entropy::lzma_fast(data.as_bytes());
    assert!(enc.len() < data.len());
    assert_eq!(entropy::decode(&enc, CodecType::Lzma), data.as_bytes());
}

#[test]
fn raw_codec_is_identity() {
    let data = vec![9u8, 8, 7];
    assert_eq!(entropy::encode(&data, CodecType::Raw), data);
    assert_eq!(entropy::decode(&data, CodecType::Raw), data);
}

#[test]
fn lzma_non_xz_input_passes_through() {
    // what the xz decoder does not accept is taken as stored bytes
    assert_eq!(entropy::decode_checked(&[1, 2, 3, 4, 5], CodecType::Lzma), Some(vec![1, 2, 3, 4, 5]));
}

#[test]
fn fast_codec_keeps_tiny_input_raw() {
    let (codec, out) = entropy::encode_fast(b"abc");
    assert_eq!(codec, CodecType::Raw);
    assert_eq!(out, b"abc".to_vec());
}

#[test]
fn incompressible_band_stays_raw() {
    let data: Vec<u8> = (0..4096u32).map(|i| (i.wrapping_mul(2654435761) >> 24) as u8).collect();
    let (codec, out) = entropy::select_best_codec(&data, EntropyBand::Incompressible, 9);
    assert_eq!(codec, CodecType::Raw);
    assert_eq!(out, data);
    let (codec2, out2) = entropy::select_fast_codec(&data, EntropyBand::High);
    assert_eq!(codec2, CodecType::Raw);
    assert_eq!(out2, data);
}

// ---- order1 ----

#[test]
fn order1_roundtrip() {
    let data = b"the quick brown fox jumps over the lazy dog. the quick brown fox. hello world hello.";
    let buf: Vec<u8> = data.iter().copied().cycle().take(5000).collect();
    if let Some(enc) = order1::encode(&buf) {
        assert_eq!(order1::decode(&enc), buf, "roundtrip failed");
    }
}

#[test]
fn structured_data_compresses() {
    let json = br#"{"name":"Alice","age":30},{"name":"Bob","age":25},"#;
    let data: Vec<u8> = json.iter().copied().cycle().take(10000).collect();
    if let Some(enc) = order1::encode(&data) {
        assert!(enc.len() < data.len() * 3 / 4, "{}/{}", enc.len(), data.len());
        assert_eq!(order1::decode(&enc), data);
    }
}

#[test]
fn small_returns_none() {
    assert!(order1::encode(b"hello").is_none());
}

#[test]
fn order1_short_input_decodes_empty() {
    assert_eq!(order1::decode_checked(&[1, 0, 0]), Some(vec![]));
}

fn sample_text() -> Vec<u8> {
    let mut t = Vec::new();
    for i in 0..200 {
        t.extend_from_slice(format!("entry {} of the sample, value {}\n", i, (i * 31) % 97).as_bytes());
    }
    t
}

#[test]
fn every_codec_reads_back_what_it_writes() {
    let data = sample_text();
    for codec in [
        CodecType::Raw,
        CodecType::Zstd,
        CodecType::Ans,
        CodecType::Lz,
        CodecType::LzAns,
        CodecType::Order1,
        CodecType::LzOptimal,
        CodecType::Lzma,
    ] {
        let enc = entropy::encode(&data, codec);
        assert_eq!(entropy::decode_checked(&enc, codec), Some(data.clone()), "{:?}", codec);
    }
}

#[test]
fn ans_roundtrip_with_many_rare_symbols() {
    // every byte value once, then one byte many times: the normalised table is corrected on
    // the most frequent byte
    let mut data: Vec<u8> = (0..=255u8).collect();
    data.extend(std::iter::repeat(7u8).take(100_000));
    let enc = ans::encode(&data);
    assert_eq!(ans::decode(&enc), data);
}

#[test]
fn order1_roundtrip_on_text() {
    let data = sample_text();
    let enc = order1::encode(&data).expect("text shrinks");
    assert_eq!(order1::decode(&enc), data);
}
