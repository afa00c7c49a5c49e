use hypercompress::format::{DataType, TransformType};
use hypercompress::transform;
use hypercompress::transform::bcj;
use hypercompress::transform::bwt;
use hypercompress::transform::precomp;
use hypercompress::transform::prediction;
use hypercompress::transform::struct_split;
use hypercompress::transform::transpose;

// ---- transpose ----

#[test]
fn test_roundtrip_fixed_records() {
    let mut data = Vec::new();
    for i in 0..20 {
        data.extend_from_slice(format!("ROW{:03},VAL{:03}\n", i, i * 2).as_bytes());
    }
    let encoded = transpose::encode(&data);
    let decoded = transpose::decode(&encoded);
    assert_eq!(decoded, data);
}

#[test]
fn test_roundtrip_binary_records() {
    let mut data = Vec::new();
    for i in 0u32..100 {
        data.extend_from_slice(&i.to_le_bytes());
        data.extend_from_slice(&(i as f32 * 1.5).to_le_bytes());
    }
    let encoded = transpose::encode(&data);
    let decoded = transpose::decode(&encoded);
    assert_eq!(decoded, data);
}

#[test]
fn test_no_transpose_small() {
    let data = vec![1, 2, 3];
    let encoded = transpose::encode(&data);
    let decoded = transpose::decode(&encoded);
    assert_eq!(decoded, data);
}

#[test]
fn transpose_test_empty() {
    let decoded = transpose::decode(&transpose::encode(&[]));
    assert_eq!(decoded, Vec::<u8>::new());
}

// ---- prediction ----

#[test]
fn test_roundtrip_random() {
    let data: Vec<u8> = (0..5000).map(|i| ((i * 7 + 13) % 256) as u8).collect();
    let encoded = prediction::encode(&data);
    let decoded = prediction::decode(&encoded);
    assert_eq!(decoded, data);
}

#[test]
fn test_roundtrip_sequential() {
    let data: Vec<u8> = (0..3000).map(|i| (i % 256) as u8).collect();
    let encoded = prediction::encode(&data);
    let decoded = prediction::decode(&encoded);
    assert_eq!(decoded, data);
}

#[test]
fn test_roundtrip_quadratic() {
    let data: Vec<u8> = (0..2000).map(|i| ((i * i / 100) % 256) as u8).collect();
    let encoded = prediction::encode(&data);
    let decoded = prediction::decode(&encoded);
    assert_eq!(decoded, data);
}

#[test]
fn test_order2_beats_order1() {
    let data: Vec<u8> = (0..2048).map(|i| (i * 3 % 256) as u8).collect();
    let cost1 = prediction::predict_cost(&data, 1);
    let cost2 = prediction::predict_cost(&data, 2);
    assert!(cost2 <= cost1, "order2={} should be <= order1={}", cost2, cost1);
}

#[test]
fn prediction_test_empty() {
    assert_eq!(prediction::decode(&prediction::encode(&[])), Vec::<u8>::new());
}

#[test]
fn test_small() {
    let data = vec![1, 2, 3, 4, 5];
    let encoded = prediction::encode(&data);
    let decoded = prediction::decode(&encoded);
    assert_eq!(decoded, data);
}

#[test]
fn prediction_cost_exact() {
    // order 1 predicts the previous byte: residuals 1, 1, 1 after the first byte (cost 1 for 0)
    assert_eq!(prediction::predict_cost(&[0, 1, 2, 3], 1), 3);
    // order 0 predicts zero: the cost of each byte is its distance to 0 or 255
    assert_eq!(prediction::predict_cost(&[0, 1, 2, 254], 0), 4);
}

// ---- bcj ----

#[test]
fn calls_to_same_target_become_identical() {
    let mut data = vec![0x90u8; 1000];
    data[0x10] = 0xE8;
    data[0x11..0x15].copy_from_slice(&0x1EBi32.to_le_bytes());
    data[0x100] = 0xE8;
    data[0x101..0x105].copy_from_slice(&0xFBi32.to_le_bytes());

    let enc = bcj::encode(&data);
    let a1 = i32::from_le_bytes([enc[0x11], enc[0x12], enc[0x13], enc[0x14]]);
    let a2 = i32::from_le_bytes([enc[0x101], enc[0x102], enc[0x103], enc[0x104]]);
    assert_eq!(a1, a2);
}

#[test]
fn bcj_roundtrip() {
    let mut data = vec![0x90u8; 1000];
    data[10] = 0xE8;
    data[11..15].copy_from_slice(&100i32.to_le_bytes());
    data[500] = 0xE8;
    data[501..505].copy_from_slice(&100i32.to_le_bytes());
    data[800] = 0xE9;
    data[801..805].copy_from_slice(&(-80i32).to_le_bytes());

    assert_eq!(bcj::decode(&bcj::encode(&data)), data);
}

#[test]
fn pe_header_detected() {
    let mut data = vec![0u8; 1000];
    data[0] = b'M';
    data[1] = b'Z';
    assert!(bcj::is_likely_executable(&data));
}

#[test]
fn non_code_survives_roundtrip() {
    let data: Vec<u8> = (0..1000).map(|i| (i % 256) as u8).collect();
    assert_eq!(bcj::decode(&bcj::encode(&data)), data);
}

#[test]
fn plain_text_is_not_executable() {
    let data = b"just some ordinary words with no opcodes in them at all".to_vec();
    assert!(!bcj::is_likely_executable(&data));
}

// ---- bwt ----

#[test]
fn banana() {
    let orig = b"banana";
    assert_eq!(bwt::inverse(&bwt::forward(orig)), orig);
}

#[test]
fn sentence() {
    let orig = b"the quick brown fox jumps over the lazy dog";
    assert_eq!(bwt::inverse(&bwt::forward(orig)), orig);
}

#[test]
fn repeated_pattern() {
    let orig = b"abcabcabcabcabcabc";
    assert_eq!(bwt::inverse(&bwt::forward(orig)), orig);
}

#[test]
fn longer_with_repeats() {
    let orig = b"The quick brown fox jumps over the lazy dog. Repeated text here. The quick brown fox again.";
    assert_eq!(bwt::inverse(&bwt::forward(orig)), &orig[..]);
}

#[test]
fn single_byte() {
    assert_eq!(bwt::inverse(&bwt::forward(b"a")), b"a");
}

#[test]
fn bwt_empty() {
    assert_eq!(bwt::forward(b""), Vec::<u8>::new());
    assert_eq!(bwt::inverse(&[]), Vec::<u8>::new());
}

#[test]
fn all_same_bytes() {
    let orig = vec![0x42u8; 1000];
    assert_eq!(bwt::inverse(&bwt::forward(&orig)), orig);
}

#[test]
fn two_bytes() {
    assert_eq!(bwt::inverse(&bwt::forward(b"ab")), b"ab");
    assert_eq!(bwt::inverse(&bwt::forward(b"ba")), b"ba");
    assert_eq!(bwt::inverse(&bwt::forward(b"aa")), b"aa");
}

#[test]
fn binary_data() {
    let orig: Vec<u8> = (0..=255).collect();
    assert_eq!(bwt::inverse(&bwt::forward(&orig)), orig);
}

#[test]
fn bwt_banana_exact() {
    // rotations of "banana" sorted: abanan, anaban, ananab, banana, nabana, nanaba
    // last column "nnbaaa", original at row 3
    let enc = bwt::forward(b"banana");
    assert_eq!(enc, vec![3, 0, 0, 0, b'n', b'n', b'b', b'a', b'a', b'a']);
}

// ---- struct_split ----

#[test]
fn structured_roundtrip() {
    let mut data = Vec::new();
    for i in 0u32..500 {
        data.extend_from_slice(&i.to_le_bytes());
        data.extend_from_slice(&(i as f32 * 1.5).to_le_bytes());
    }
    assert_eq!(struct_split::decode(&struct_split::encode(&data)), data, "Structured roundtrip failed");
}

#[test]
fn pseudo_random() {
    let data: Vec<u8> = (0..5000).map(|i| ((i * 7 + 3) % 256) as u8).collect();
    assert_eq!(struct_split::decode(&struct_split::encode(&data)), data);
}

#[test]
fn small_passthrough() {
    let data = vec![1, 2, 3, 4, 5];
    assert_eq!(struct_split::decode(&struct_split::encode(&data)), data);
}

#[test]
fn detects_u32_period() {
    let mut data = Vec::new();
    for i in 0u32..1000 {
        data.extend_from_slice(&i.to_le_bytes());
    }
    let p = struct_split::detect_period(&data);
    assert!(p == 4 || p == 2 || p == 1, "Expected small period, got {}", p);
}

#[test]
fn struct_split_empty() {
    assert_eq!(struct_split::decode(&struct_split::encode(&[])), Vec::<u8>::new());
}

// ---- precomp ----

#[test]
fn passthrough_on_plain_data() {
    let data = b"hello world this is plain text with no deflate";
    let dec = precomp::decode(&precomp::encode(data));
    assert_eq!(&dec[..], &data[..]);
}

#[test]
fn roundtrip_with_embedded_zlib() {
    let payload = b"the quick brown fox ".repeat(100);
    let mut enc = flate2::write::ZlibEncoder::new(Vec::new(), flate2::Compression::default());
    std::io::Write::write_all(&mut enc, &payload).unwrap();
    let zlib = enc.finish().unwrap();

    let mut data = b"HEADER_DATA_HERE_".to_vec();
    data.extend_from_slice(&zlib);
    data.extend_from_slice(b"_TRAILER_DATA_HERE");

    let encoded = precomp::encode(&data);
    let decoded = precomp::decode(&encoded);
    assert_eq!(decoded.len(), data.len());
}

#[test]
fn precomp_passthrough_layout() {
    // no embedded stream: the original length, zero segments, then the bytes as they are
    let data = b"plain bytes, nothing inflatable in here".to_vec();
    let mut expected = (data.len() as u32).to_le_bytes().to_vec();
    expected.extend_from_slice(&[0, 0, 0, 0]);
    expected.extend_from_slice(&data);
    assert_eq!(precomp::encode(&data), expected);
}

// ---- dispatch ----

#[test]
fn select_transform_by_type() {
    assert_eq!(transform::select_transform(DataType::Text), TransformType::Bwt);
    assert_eq!(transform::select_transform(DataType::Binary), TransformType::Identity);
    assert_eq!(transform::select_transform(DataType::NumericFloat), TransformType::FloatSplit);
    assert_eq!(transform::select_transform(DataType::Sparse), TransformType::Rle);
}

#[test]
fn apply_then_reverse_delta() {
    let data: Vec<u8> = (0..300).map(|i| (i * 5 % 256) as u8).collect();
    let enc = transform::apply_transform(&data, TransformType::Delta);
    assert_eq!(transform::reverse_transform(&enc, TransformType::Delta), data);
}

#[test]
fn periodic_input_ties_rotations_by_descending_start() {
    // rotations 2 and 0 read alike (as do 3 and 1); the later start sorts first
    let out = bwt::forward(b"abab");
    assert_eq!(out, vec![1, 0, 0, 0, b'b', b'b', b'a', b'a']);
    assert_eq!(bwt::inverse(&out), b"abab");
}
