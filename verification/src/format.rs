//! The `.hc` container layout: file header, per-chunk metadata and the tag enums.
use vstd::prelude::*;
use crate::bytes::{
    le16, le32, le64, u16_at, u32_at, u64_at, lemma_le_lengths, lemma_u16_at, lemma_u32_at,
    lemma_u64_at, push_u16_le, push_u32_le, push_u64_le, read_u16_le, read_u32_le, read_u64_le,
};

verus! {

/// Version byte written after the magic.
pub const FORMAT_VERSION: u8 = 1;

/// Size in bytes of an encoded [`FileHeader`].
pub const FILE_HEADER_SIZE: usize = 27;

/// Size in bytes of an encoded [`ChunkMeta`].
pub const CHUNK_META_SIZE: usize = 31;

/// The four magic bytes `H`, `C`, 1, 0 that open every `.hc` file.
pub open spec fn magic() -> Seq<u8> {
    seq![72u8, 67u8, 1u8, 0u8]
}

/// Why a container could not be read.
#[derive(Debug, Clone, Copy, PartialEq, Eq, Structural)]
pub enum FormatError {
    InvalidMagic,
    UnsupportedVersion(u8),
    ChecksumMismatch(u32),
    /// The input ended before the structure being read was complete.
    UnexpectedEof,
}

/// Content class of a chunk, as decided by fingerprinting.
#[derive(Debug, Clone, Copy, PartialEq, Eq, Structural)]
pub enum DataType {
    Text,
    Structured,
    Binary,
    NumericInt,
    NumericFloat,
    CompressedOrRandom,
    Sparse,
}

/// Reversible preprocessing applied to a chunk before entropy coding.
#[derive(Debug, Clone, Copy, PartialEq, Eq, Structural)]
pub enum TransformType {
    Identity,
    Bwt,
    Delta,
    FloatSplit,
    Transpose,
    Rle,
    BitPlane,
    BwtMtf,
    Prediction,
    StructSplit,
    Bcj,
    Precomp,
}

/// Entropy coder used for a chunk.
#[derive(Debug, Clone, Copy, PartialEq, Eq, Structural)]
pub enum CodecType {
    Raw,
    Ans,
    Lz,
    LzAns,
    Order1,
    LzOptimal,
    Lzma,
    Zstd,
}

/// The tag byte of a data type.
pub open spec fn data_type_code(t: DataType) -> u8 {
    match t {
        DataType::Text => 0,
        DataType::Structured => 1,
        DataType::Binary => 2,
        DataType::NumericInt => 3,
        DataType::NumericFloat => 4,
        DataType::CompressedOrRandom => 5,
        DataType::Sparse => 6,
    }
}

/// The data type a tag byte names, if any.
pub open spec fn data_type_of(v: u8) -> Option<DataType> {
    if v == 0 { Some(DataType::Text) }
    else if v == 1 { Some(DataType::Structured) }
    else if v == 2 { Some(DataType::Binary) }
    else if v == 3 { Some(DataType::NumericInt) }
    else if v == 4 { Some(DataType::NumericFloat) }
    else if v == 5 { Some(DataType::CompressedOrRandom) }
    else if v == 6 { Some(DataType::Sparse) }
    else { None }
}

/// The tag byte of a transform.
pub open spec fn transform_code(t: TransformType) -> u8 {
    match t {
        TransformType::Identity => 0,
        TransformType::Bwt => 1,
        TransformType::Delta => 2,
        TransformType::FloatSplit => 3,
        TransformType::Transpose => 4,
        TransformType::Rle => 5,
        TransformType::BitPlane => 6,
        TransformType::BwtMtf => 7,
        TransformType::Prediction => 8,
        TransformType::StructSplit => 9,
        TransformType::Bcj => 10,
        TransformType::Precomp => 11,
    }
}

/// The transform a tag byte names, if any.
pub open spec fn transform_of(v: u8) -> Option<TransformType> {
    if v == 0 { Some(TransformType::Identity) }
    else if v == 1 { Some(TransformType::Bwt) }
    else if v == 2 { Some(TransformType::Delta) }
    else if v == 3 { Some(TransformType::FloatSplit) }
    else if v == 4 { Some(TransformType::Transpose) }
    else if v == 5 { Some(TransformType::Rle) }
    else if v == 6 { Some(TransformType::BitPlane) }
    else if v == 7 { Some(TransformType::BwtMtf) }
    else if v == 8 { Some(TransformType::Prediction) }
    else if v == 9 { Some(TransformType::StructSplit) }
    else if v == 10 { Some(TransformType::Bcj) }
    else if v == 11 { Some(TransformType::Precomp) }
    else { None }
}

/// The tag byte of a codec.
pub open spec fn codec_code(c: CodecType) -> u8 {
    match c {
        CodecType::Raw => 0,
        CodecType::Ans => 1,
        CodecType::Lz => 2,
        CodecType::LzAns => 3,
        CodecType::Order1 => 4,
        CodecType::LzOptimal => 5,
        CodecType::Lzma => 6,
        CodecType::Zstd => 7,
    }
}

/// The codec a tag byte names, if any.
pub open spec fn codec_of(v: u8) -> Option<CodecType> {
    if v == 0 { Some(CodecType::Raw) }
    else if v == 1 { Some(CodecType::Ans) }
    else if v == 2 { Some(CodecType::Lz) }
    else if v == 3 { Some(CodecType::LzAns) }
    else if v == 4 { Some(CodecType::Order1) }
    else if v == 5 { Some(CodecType::LzOptimal) }
    else if v == 6 { Some(CodecType::Lzma) }
    else if v == 7 { Some(CodecType::Zstd) }
    else { None }
}

/// Every tag reads back as the value it was written for, and only the written
/// range of bytes names a value.
pub proof fn lemma_tag_codes()
    ensures
        forall|t: DataType| #[trigger] data_type_of(data_type_code(t)) == Some(t),
        forall|t: TransformType| #[trigger] transform_of(transform_code(t)) == Some(t),
        forall|c: CodecType| #[trigger] codec_of(codec_code(c)) == Some(c),
        forall|v: u8| #[trigger] data_type_of(v) is Some <==> v < 7,
        forall|v: u8| #[trigger] transform_of(v) is Some <==> v < 12,
        forall|v: u8| #[trigger] codec_of(v) is Some <==> v < 8,
{
}

impl DataType {
    /// The data type with tag `v`, or `None` for an unknown tag.
    pub fn from_u8(v: u8) -> (r: Option<DataType>)
        ensures
            r == data_type_of(v),
    {
        match v {
            0 => Some(DataType::Text),
            1 => Some(DataType::Structured),
            2 => Some(DataType::Binary),
            3 => Some(DataType::NumericInt),
            4 => Some(DataType::NumericFloat),
            5 => Some(DataType::CompressedOrRandom),
            6 => Some(DataType::Sparse),
            _ => None,
        }
    }

    /// The tag byte of this data type.
    pub fn to_u8(self) -> (r: u8)
        ensures
            r == data_type_code(self),
    {
        match self {
            DataType::Text => 0,
            DataType::Structured => 1,
            DataType::Binary => 2,
            DataType::NumericInt => 3,
            DataType::NumericFloat => 4,
            DataType::CompressedOrRandom => 5,
            DataType::Sparse => 6,
        }
    }
}

impl TransformType {
    /// The transform with tag `v`, or `None` for an unknown tag.
    pub fn from_u8(v: u8) -> (r: Option<TransformType>)
        ensures
            r == transform_of(v),
    {
        match v {
            0 => Some(TransformType::Identity),
            1 => Some(TransformType::Bwt),
            2 => Some(TransformType::Delta),
            3 => Some(TransformType::FloatSplit),
            4 => Some(TransformType::Transpose),
            5 => Some(TransformType::Rle),
            6 => Some(TransformType::BitPlane),
            7 => Some(TransformType::BwtMtf),
            8 => Some(TransformType::Prediction),
            9 => Some(TransformType::StructSplit),
            10 => Some(TransformType::Bcj),
            11 => Some(TransformType::Precomp),
            _ => None,
        }
    }

    /// The tag byte of this transform.
    pub fn to_u8(self) -> (r: u8)
        ensures
            r == transform_code(self),
    {
        match self {
            TransformType::Identity => 0,
            TransformType::Bwt => 1,
            TransformType::Delta => 2,
            TransformType::FloatSplit => 3,
            TransformType::Transpose => 4,
            TransformType::Rle => 5,
            TransformType::BitPlane => 6,
            TransformType::BwtMtf => 7,
            TransformType::Prediction => 8,
            TransformType::StructSplit => 9,
            TransformType::Bcj => 10,
            TransformType::Precomp => 11,
        }
    }
}

impl CodecType {
    /// The codec with tag `v`, or `None` for an unknown tag.
    pub fn from_u8(v: u8) -> (r: Option<CodecType>)
        ensures
            r == codec_of(v),
    {
        match v {
            0 => Some(CodecType::Raw),
            1 => Some(CodecType::Ans),
            2 => Some(CodecType::Lz),
            3 => Some(CodecType::LzAns),
            4 => Some(CodecType::Order1),
            5 => Some(CodecType::LzOptimal),
            6 => Some(CodecType::Lzma),
            7 => Some(CodecType::Zstd),
            _ => None,
        }
    }

    /// The tag byte of this codec.
    pub fn to_u8(self) -> (r: u8)
        ensures
            r == codec_code(self),
    {
        match self {
            CodecType::Raw => 0,
            CodecType::Ans => 1,
            CodecType::Lz => 2,
            CodecType::LzAns => 3,
            CodecType::Order1 => 4,
            CodecType::LzOptimal => 5,
            CodecType::Lzma => 6,
            CodecType::Zstd => 7,
        }
    }
}

/// Fixed-size header at the start of a `.hc` file.
#[derive(Debug, Clone, Copy, PartialEq, Eq)]
pub struct FileHeader {
    pub version: u8,
    pub flags: u16,
    pub original_size: u64,
    pub chunk_count: u32,
    pub segment_map_offset: u64,
}

/// The bytes of an encoded header.
pub open spec fn header_bytes(h: FileHeader) -> Seq<u8> {
    magic() + seq![h.version] + le16(h.flags) + le64(h.original_size) + le32(h.chunk_count)
        + le64(h.segment_map_offset)
}

/// What reading a header from the front of `s` yields.
pub open spec fn header_read(s: Seq<u8>) -> Result<FileHeader, FormatError> {
    if s.len() < 4 {
        Err(FormatError::UnexpectedEof)
    } else if s.subrange(0, 4) != magic() {
        Err(FormatError::InvalidMagic)
    } else if s.len() < 5 {
        Err(FormatError::UnexpectedEof)
    } else if s[4] != FORMAT_VERSION {
        Err(FormatError::UnsupportedVersion(s[4]))
    } else if s.len() < 27 {
        Err(FormatError::UnexpectedEof)
    } else {
        Ok(
            FileHeader {
                version: s[4],
                flags: u16_at(s, 5),
                original_size: u64_at(s, 7),
                chunk_count: u32_at(s, 15),
                segment_map_offset: u64_at(s, 19),
            },
        )
    }
}

impl FileHeader {
    /// Appends the encoded header to `out`.
    pub fn write_to(&self, out: &mut Vec<u8>)
        ensures
            final(out)@ == old(out)@ + header_bytes(*self),
    {
        out.push(72u8);
        out.push(67u8);
        out.push(1u8);
        out.push(0u8);
        out.push(self.version);
        push_u16_le(out, self.flags);
        push_u64_le(out, self.original_size);
        push_u32_le(out, self.chunk_count);
        push_u64_le(out, self.segment_map_offset);
        assert(out@ =~= old(out)@ + header_bytes(*self));
    }

    /// Reads a header from the front of `data`.
    pub fn read_from(data: &[u8]) -> (r: Result<FileHeader, FormatError>)
        ensures
            r == header_read(data@),
    {
        if data.len() < 4 {
            return Err(FormatError::UnexpectedEof);
        }
        if !(data[0] == 72u8 && data[1] == 67u8 && data[2] == 1u8 && data[3] == 0u8) {
            assert(data@.subrange(0, 4) != magic()) by {
                if data@.subrange(0, 4) == magic() {
                    assert(data@[0] == data@.subrange(0, 4)[0]);
                    assert(data@[1] == data@.subrange(0, 4)[1]);
                    assert(data@[2] == data@.subrange(0, 4)[2]);
                    assert(data@[3] == data@.subrange(0, 4)[3]);
                }
            }
            return Err(FormatError::InvalidMagic);
        }
        assert(data@.subrange(0, 4) =~= magic());
        if data.len() < 5 {
            return Err(FormatError::UnexpectedEof);
        }
        if data[4] != FORMAT_VERSION {
            return Err(FormatError::UnsupportedVersion(data[4]));
        }
        if data.len() < 27 {
            return Err(FormatError::UnexpectedEof);
        }
        Ok(
            FileHeader {
                version: data[4],
                flags: read_u16_le(data, 5),
                original_size: read_u64_le(data, 7),
                chunk_count: read_u32_le(data, 15),
                segment_map_offset: read_u64_le(data, 19),
            },
        )
    }
}

/// Reading back an encoded header of the current version gives the header, whatever follows it.
pub proof fn lemma_header_roundtrip(h: FileHeader, rest: Seq<u8>)
    requires
        h.version == FORMAT_VERSION,
    ensures
        header_bytes(h).len() == FILE_HEADER_SIZE,
        header_read(header_bytes(h) + rest) == Ok::<FileHeader, FormatError>(h),
{
    let s = header_bytes(h) + rest;
    let p1 = magic() + seq![h.version];
    let p2 = p1 + le16(h.flags);
    let p3 = p2 + le64(h.original_size);
    let p4 = p3 + le32(h.chunk_count);
    lemma_le_lengths();
    lemma_u16_at(p1, h.flags, le64(h.original_size) + le32(h.chunk_count) + le64(h.segment_map_offset) + rest);
    assert(s =~= p1 + le16(h.flags) + (le64(h.original_size) + le32(h.chunk_count) + le64(h.segment_map_offset) + rest));
    lemma_u64_at(p2, h.original_size, le32(h.chunk_count) + le64(h.segment_map_offset) + rest);
    assert(s =~= p2 + le64(h.original_size) + (le32(h.chunk_count) + le64(h.segment_map_offset) + rest));
    lemma_u32_at(p3, h.chunk_count, le64(h.segment_map_offset) + rest);
    assert(s =~= p3 + le32(h.chunk_count) + (le64(h.segment_map_offset) + rest));
    lemma_u64_at(p4, h.segment_map_offset, rest);
    assert(s =~= p4 + le64(h.segment_map_offset) + rest);
    assert(s.subrange(0, 4) =~= magic());
    assert(s[4] == h.version);
}

/// Location and coding of one chunk, as stored in the segment map.
#[derive(Debug, Clone, Copy, PartialEq, Eq)]
pub struct ChunkMeta {
    pub offset_in_file: u64,
    pub original_offset: u64,
    pub original_size: u32,
    pub compressed_size: u32,
    pub data_type: DataType,
    pub transform: TransformType,
    pub codec: CodecType,
    pub checksum: u32,
}

/// The bytes of an encoded chunk record.
pub open spec fn meta_bytes(m: ChunkMeta) -> Seq<u8> {
    le64(m.offset_in_file) + le64(m.original_offset) + le32(m.original_size) + le32(m.compressed_size)
        + seq![data_type_code(m.data_type), transform_code(m.transform), codec_code(m.codec)]
        + le32(m.checksum)
}

/// What reading a chunk record from the front of `s` yields; unknown tags fall back to
/// `Binary`, `None` and `Raw`.
pub open spec fn meta_read(s: Seq<u8>) -> Result<ChunkMeta, FormatError> {
    if s.len() < 31 {
        Err(FormatError::UnexpectedEof)
    } else {
        Ok(
            ChunkMeta {
                offset_in_file: u64_at(s, 0),
                original_offset: u64_at(s, 8),
                original_size: u32_at(s, 16),
                compressed_size: u32_at(s, 20),
                data_type: match data_type_of(s[24]) { Some(t) => t, None => DataType::Binary },
                transform: match transform_of(s[25]) { Some(t) => t, None => TransformType::Identity },
                codec: match codec_of(s[26]) { Some(c) => c, None => CodecType::Raw },
                checksum: u32_at(s, 27),
            },
        )
    }
}

impl ChunkMeta {
    /// Appends the encoded record to `out`.
    pub fn write_to(&self, out: &mut Vec<u8>)
        ensures
            final(out)@ == old(out)@ + meta_bytes(*self),
    {
        push_u64_le(out, self.offset_in_file);
        push_u64_le(out, self.original_offset);
        push_u32_le(out, self.original_size);
        push_u32_le(out, self.compressed_size);
        out.push(self.data_type.to_u8());
        out.push(self.transform.to_u8());
        out.push(self.codec.to_u8());
        push_u32_le(out, self.checksum);
        assert(out@ =~= old(out)@ + meta_bytes(*self));
    }

    /// Reads a chunk record from the front of `data`.
    pub fn read_from(data: &[u8]) -> (r: Result<ChunkMeta, FormatError>)
        ensures
            r == meta_read(data@),
    {
        if data.len() < 31 {
            return Err(FormatError::UnexpectedEof);
        }
        let data_type = match DataType::from_u8(data[24]) {
            Some(t) => t,
            None => DataType::Binary,
        };
        let transform = match TransformType::from_u8(data[25]) {
            Some(t) => t,
            None => TransformType::Identity,
        };
        let codec = match CodecType::from_u8(data[26]) {
            Some(c) => c,
            None => CodecType::Raw,
        };
        Ok(
            ChunkMeta {
                offset_in_file: read_u64_le(data, 0),
                original_offset: read_u64_le(data, 8),
                original_size: read_u32_le(data, 16),
                compressed_size: read_u32_le(data, 20),
                data_type,
                transform,
                codec,
                checksum: read_u32_le(data, 27),
            },
        )
    }
}

/// Reading back an encoded chunk record gives the record, whatever follows it.
pub proof fn lemma_meta_roundtrip(m: ChunkMeta, rest: Seq<u8>)
    ensures
        meta_bytes(m).len() == CHUNK_META_SIZE,
        meta_read(meta_bytes(m) + rest) == Ok::<ChunkMeta, FormatError>(m),
{
    lemma_le_lengths();
    lemma_tag_codes();
    let tags = seq![data_type_code(m.data_type), transform_code(m.transform), codec_code(m.codec)];
    let s = meta_bytes(m) + rest;
    let q1 = le64(m.offset_in_file);
    let q2 = q1 + le64(m.original_offset);
    let q3 = q2 + le32(m.original_size);
    let q4 = q3 + le32(m.compressed_size);
    let q5 = q4 + tags;
    lemma_u64_at(Seq::empty(), m.offset_in_file, s.subrange(8, s.len() as int));
    assert(s =~= Seq::<u8>::empty() + le64(m.offset_in_file) + s.subrange(8, s.len() as int));
    lemma_u64_at(q1, m.original_offset, s.subrange(16, s.len() as int));
    assert(s =~= q1 + le64(m.original_offset) + s.subrange(16, s.len() as int));
    lemma_u32_at(q2, m.original_size, s.subrange(20, s.len() as int));
    assert(s =~= q2 + le32(m.original_size) + s.subrange(20, s.len() as int));
    lemma_u32_at(q3, m.compressed_size, s.subrange(24, s.len() as int));
    assert(s =~= q3 + le32(m.compressed_size) + s.subrange(24, s.len() as int));
    lemma_u32_at(q5, m.checksum, rest);
    assert(s =~= q5 + le32(m.checksum) + rest);
    assert(s[24] == data_type_code(m.data_type));
    assert(s[25] == transform_code(m.transform));
    assert(s[26] == codec_code(m.codec));
}

} // verus!
