use hypercompress::transform::bitplane;
use hypercompress::transform::delta;
use hypercompress::transform::float_split;
use hypercompress::transform::mtf;
use hypercompress::transform::rle;
use hypercompress::transform::zero_rle;

// ---- delta ----

#[test]
fn sequential_data_produces_constant_deltas() {
    let data: Vec<u8> = (0..100).collect();
    let enc = delta::encode(&data);
    for &b in &enc[2..] {
        assert_eq!(b, 1);
    }
    assert_eq!(delta::decode(&enc), data);
}

#[test]
fn wrapping_arithmetic() {
    let data = vec![255, 0, 1, 254];
    assert_eq!(delta::decode(&delta::encode(&data)), data);
}

#[test]
fn delta_roundtrip() {
    let data = vec![10, 12, 15, 14, 20, 25, 30];
    assert_eq!(delta::decode(&delta::encode(&data)), data);
}

#[test]
fn delta_empty() {
    assert_eq!(delta::encode(&[]), Vec::<u8>::new());
}

#[test]
fn stride2_pcm_like() {
    let data: Vec<u8> = (0u16..200).flat_map(|v| v.to_le_bytes()).collect();
    let enc = delta::encode(&data);
    assert_eq!(enc[0], 2);
    assert_eq!(delta::decode(&enc), data);
}

#[test]
fn delta_stride_one_exact_bytes() {
    // stride 1: the stride byte, the first byte, then the byte-wise differences
    let data = vec![5u8, 7, 9, 8];
    assert_eq!(delta::encode(&data), vec![1, 5, 2, 2, 255]);
}

// ---- rle ----

#[test]
fn test_sparse_data() {
    let mut data = vec![0u8; 100];
    data[50] = 42;
    let encoded = rle::encode(&data);
    assert!(encoded.len() < 20);
    let decoded = rle::decode(&encoded);
    assert_eq!(decoded, data);
}

#[test]
fn test_no_runs() {
    let data: Vec<u8> = (0..50).collect();
    let encoded = rle::encode(&data);
    let decoded = rle::decode(&encoded);
    assert_eq!(decoded, data);
}

#[test]
fn test_all_same() {
    let data = vec![42u8; 200];
    let encoded = rle::encode(&data);
    assert!(encoded.len() < 10);
    let decoded = rle::decode(&encoded);
    assert_eq!(decoded, data);
}

#[test]
fn rle_test_empty() {
    assert_eq!(rle::encode(&[]), Vec::<u8>::new());
    assert_eq!(rle::decode(&[]), Vec::<u8>::new());
}

#[test]
fn rle_run_packet_exact() {
    // a run of four 7s becomes [marker, 4 - 3, 7]; the lone 1 stays literal
    assert_eq!(rle::encode(&[7, 7, 7, 7, 1]), vec![0xFF, 1, 7, 1]);
    assert_eq!(rle::decode(&[0xFF, 1, 7, 1]), vec![7, 7, 7, 7, 1]);
}

#[test]
fn rle_marker_bytes_roundtrip() {
    assert_eq!(rle::encode(&[0xFF]), vec![0xFF, 0x00]);
    assert_eq!(rle::decode(&[0xFF, 0x00]), vec![0xFF]);
    let data = vec![1, 0xFF, 0xFF, 2, 0xFF, 0xFF, 0xFF, 5, 5, 5];
    let encoded = rle::encode(&data);
    assert_eq!(encoded, vec![1, 0xFF, 0, 0xFF, 0, 2, 0xFF, 0, 0xFF, 0, 0xFF, 0, 5, 5, 5]);
    assert_eq!(rle::decode(&encoded), data);
    let long = vec![0xFFu8; 10];
    assert_eq!(rle::encode(&long), vec![0xFF, 7, 0xFF]);
    assert_eq!(rle::decode(&rle::encode(&long)), long);
}

// ---- zero_rle ----

#[test]
fn zero_rle_test_roundtrip() {
    let data = vec![0, 0, 0, 5, 3, 0, 0, 7, 0, 0, 0, 0, 0, 1, 2];
    let encoded = zero_rle::encode(&data);
    let decoded = zero_rle::decode(&encoded);
    assert_eq!(decoded, data);
}

#[test]
fn test_all_zeros() {
    let data = vec![0u8; 1000];
    let encoded = zero_rle::encode(&data);
    assert!(encoded.len() < 20, "Expected <20 symbols, got {}", encoded.len());
    let decoded = zero_rle::decode(&encoded);
    assert_eq!(decoded, data);
}

#[test]
fn test_no_zeros() {
    let data: Vec<u8> = (1..=100).collect();
    let encoded = zero_rle::encode(&data);
    let decoded = zero_rle::decode(&encoded);
    assert_eq!(decoded, data);
}

#[test]
fn test_single_zero() {
    let data = vec![0];
    let encoded = zero_rle::encode(&data);
    let decoded = zero_rle::decode(&encoded);
    assert_eq!(decoded, data);
}

#[test]
fn test_mtf_like_output() {
    let mut data = Vec::new();
    for _ in 0..100 {
        data.extend_from_slice(&[0, 0, 0, 0, 0, 3, 0, 0, 1, 0, 0, 0, 2]);
    }
    let encoded = zero_rle::encode(&data);
    assert!(
        encoded.len() < data.len(),
        "Expected compression, got {}/{}",
        encoded.len(),
        data.len()
    );
    let decoded = zero_rle::decode(&encoded);
    assert_eq!(decoded, data);
}

#[test]
fn zero_rle_test_empty() {
    assert_eq!(zero_rle::encode(&[]), Vec::<u8>::new());
    assert_eq!(zero_rle::decode(&[]), Vec::<u8>::new());
}

// ---- float_split ----

#[test]
fn non_aligned_passthrough() {
    let data = vec![1, 2, 3, 4, 5];
    assert_eq!(float_split::decode(&float_split::encode(&data)), data);
}

#[test]
fn float_split_roundtrip() {
    let floats: Vec<f32> = vec![1.0, 2.0, 3.0, 1.5, 2.5, 100.0, 0.001, -42.0];
    let data: Vec<u8> = floats.iter().flat_map(|f| f.to_le_bytes()).collect();
    assert_eq!(float_split::decode(&float_split::encode(&data)), data);
}

#[test]
fn size_is_transform_only() {
    let floats: Vec<f32> = (0..1000).map(|i| 1.0 + (i as f32) * 0.001).collect();
    let data: Vec<u8> = floats.iter().flat_map(|f| f.to_le_bytes()).collect();
    let enc = float_split::encode(&data);
    assert_eq!(enc.len(), data.len() + 4);
    assert_eq!(float_split::decode(&enc), data);
}

#[test]
fn float_split_empty() {
    assert_eq!(float_split::encode(&[]), vec![0, 0, 0, 0]);
}

// ---- bitplane ----

#[test]
fn all_zeros_produce_zero_planes() {
    let data = vec![0u8; 100];
    let enc = bitplane::encode(&data);
    let plane_sz = (100 + 7) / 8;
    for &b in &enc[4..4 + plane_sz * 8] {
        assert_eq!(b, 0);
    }
    assert_eq!(bitplane::decode(&enc), data);
}

#[test]
fn bitplane_roundtrip() {
    let data = vec![0xAA, 0x55, 0xFF, 0x00, 0x42, 0x13, 0x37, 0xBE, 0xEF];
    assert_eq!(bitplane::decode(&bitplane::encode(&data)), data);
}

#[test]
fn constant_high_nibble() {
    let data: Vec<u8> = (0..100).map(|i| 0x40 | (i & 0x0F) as u8).collect();
    assert_eq!(bitplane::decode(&bitplane::encode(&data)), data);
}

#[test]
fn bitplane_empty() {
    assert_eq!(bitplane::encode(&[]), vec![0, 0, 0, 0]);
    assert_eq!(bitplane::decode(&[0, 0, 0, 0]), Vec::<u8>::new());
}

// ---- mtf ----

#[test]
fn mtf_test_roundtrip() {
    let data = b"bananaaa";
    let encoded = mtf::encode(data);
    let decoded = mtf::decode(&encoded);
    assert_eq!(&decoded[..], &data[..]);
}

#[test]
fn test_repeated_chars() {
    let data = b"aaaaaabbbbbbcccccc";
    let encoded = mtf::encode(data);
    let zeros = encoded.iter().filter(|&&b| b == 0).count();
    assert!(zeros > data.len() / 2, "Expected many zeros, got {}/{}", zeros, data.len());
    let decoded = mtf::decode(&encoded);
    assert_eq!(&decoded[..], &data[..]);
}

#[test]
fn test_bwt_output() {
    let data = b"eeeeeddddbbbbaaaccc";
    let encoded = mtf::encode(data);
    let decoded = mtf::decode(&encoded);
    assert_eq!(&decoded[..], &data[..]);
    let small = encoded.iter().filter(|&&b| b < 5).count();
    assert!(small > data.len() / 2);
}

#[test]
fn mtf_test_empty() {
    assert_eq!(mtf::encode(&[]), Vec::<u8>::new());
    assert_eq!(mtf::decode(&[]), Vec::<u8>::new());
}

#[test]
fn mtf_exact_indices() {
    // 'b' = 98 is first at index 98; then 'a' = 97 is at 98 (behind b); then 'a' again at 0
    assert_eq!(mtf::encode(b"baa"), vec![98, 98, 0]);
}
