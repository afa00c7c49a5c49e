use hypercompress::bytes::{push_u32_le, read_u32_le, read_u64_le};
use hypercompress::format::{ChunkMeta, CodecType, DataType, FileHeader, FormatError, TransformType};

#[test]
fn header_write_then_read() {
    let h = FileHeader { version: 1, flags: 3, original_size: 123456789, chunk_count: 7, segment_map_offset: 999 };
    let mut out = Vec::new();
    h.write_to(&mut out);
    assert_eq!(out.len(), 27);
    assert_eq!(&out[..4], &[72, 67, 1, 0]);
    assert_eq!(FileHeader::read_from(&out), Ok(h));
}

#[test]
fn header_rejects_bad_magic_and_version() {
    let h = FileHeader { version: 1, flags: 0, original_size: 1, chunk_count: 1, segment_map_offset: 27 };
    let mut out = Vec::new();
    h.write_to(&mut out);
    let mut bad = out.clone();
    bad[0] = b'X';
    assert_eq!(FileHeader::read_from(&bad), Err(FormatError::InvalidMagic));
    let mut newer = out.clone();
    newer[4] = 9;
    assert_eq!(FileHeader::read_from(&newer), Err(FormatError::UnsupportedVersion(9)));
    assert_eq!(FileHeader::read_from(&out[..10]), Err(FormatError::UnexpectedEof));
}

#[test]
fn meta_write_then_read() {
    let m = ChunkMeta {
        offset_in_file: 27,
        original_offset: 4096,
        original_size: 100,
        compressed_size: 40,
        data_type: DataType::Structured,
        transform: TransformType::Transpose,
        codec: CodecType::Lzma,
        checksum: 0xDEADBEEF,
    };
    let mut out = Vec::new();
    m.write_to(&mut out);
    assert_eq!(out.len(), 31);
    assert_eq!(ChunkMeta::read_from(&out), Ok(m));
}

#[test]
fn tag_codes_roundtrip() {
    for v in 0u8..=255 {
        if let Some(t) = TransformType::from_u8(v) {
            assert_eq!(t.to_u8(), v);
        }
        if let Some(c) = CodecType::from_u8(v) {
            assert_eq!(c.to_u8(), v);
        }
        if let Some(d) = DataType::from_u8(v) {
            assert_eq!(d.to_u8(), v);
        }
    }
    assert_eq!(CodecType::from_u8(200), None);
}

#[test]
fn little_endian_helpers() {
    let mut out = Vec::new();
    push_u32_le(&mut out, 0x0403_0201);
    assert_eq!(out, vec![1, 2, 3, 4]);
    assert_eq!(read_u32_le(&out, 0), 0x0403_0201);
    assert_eq!(read_u64_le(&[1, 0, 0, 0, 0, 0, 0, 1], 0), 0x0100_0000_0000_0001);
}
