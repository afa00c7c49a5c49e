//! Reversible byte transforms applied before entropy coding, and their dispatch.
pub mod delta;
pub mod zero_rle;
pub mod rle;
pub mod float_split;
pub mod bitplane;
pub mod mtf;
pub mod transpose;
pub mod prediction;
pub mod bcj;
pub mod bwt;
pub mod struct_split;
pub mod precomp;

use vstd::prelude::*;
use crate::format::{DataType, TransformType};

verus! {

/// The largest input the BWT takes: its rotations are sorted as suffixes of the input doubled,
/// counted in 32 bits.
pub const MAX_TRANSFORM_INPUT: usize = 0x7FFF_FFFF;

/// The transform suited to a data type.
pub open spec fn transform_for(data_type: DataType) -> TransformType {
    match data_type {
        DataType::Text => TransformType::Bwt,
        DataType::Structured => TransformType::Transpose,
        DataType::Binary => TransformType::Identity,
        DataType::NumericInt => TransformType::Delta,
        DataType::NumericFloat => TransformType::FloatSplit,
        DataType::CompressedOrRandom => TransformType::Identity,
        DataType::Sparse => TransformType::Rle,
    }
}

/// Text is BWT-sorted, structured records transposed, integer columns delta coded, floats
/// split into byte planes, sparse data run-length coded; binary and random-looking data get no
/// transform.
pub proof fn lemma_transform_table()
    ensures
        transform_for(DataType::Text) == TransformType::Bwt,
        transform_for(DataType::Structured) == TransformType::Transpose,
        transform_for(DataType::NumericInt) == TransformType::Delta,
        transform_for(DataType::NumericFloat) == TransformType::FloatSplit,
        transform_for(DataType::Sparse) == TransformType::Rle,
        transform_for(DataType::Binary) == TransformType::Identity,
        transform_for(DataType::CompressedOrRandom) == TransformType::Identity,
{
}

/// The transform suited to a data type.
pub fn select_transform(data_type: DataType) -> (t: TransformType)
    ensures
        t == transform_for(data_type),
        data_type == DataType::Text ==> t == TransformType::Bwt,
        data_type == DataType::Structured ==> t == TransformType::Transpose,
        data_type == DataType::NumericInt ==> t == TransformType::Delta,
        data_type == DataType::NumericFloat ==> t == TransformType::FloatSplit,
        data_type == DataType::Sparse ==> t == TransformType::Rle,
        data_type == DataType::Binary || data_type == DataType::CompressedOrRandom ==> t == TransformType::Identity,
{
    match data_type {
        DataType::Text => TransformType::Bwt,
        DataType::Structured => TransformType::Transpose,
        DataType::Binary => TransformType::Identity,
        DataType::NumericInt => TransformType::Delta,
        DataType::NumericFloat => TransformType::FloatSplit,
        DataType::CompressedOrRandom => TransformType::Identity,
        DataType::Sparse => TransformType::Rle,
    }
}

/// The inputs a transform takes: the BWT sorts the rotations through the doubled input in
/// 32-bit positions, and the structure split counts in 32 bits; the others take any input.
pub open spec fn transform_accepts(t: TransformType, n: int) -> bool {
    match t {
        TransformType::Bwt | TransformType::BwtMtf => n <= MAX_TRANSFORM_INPUT,
        TransformType::StructSplit => n <= u32::MAX,
        _ => true,
    }
}

/// Whether transform `t` takes an input of `n` bytes.
pub fn transform_fits(t: TransformType, n: usize) -> (r: bool)
    ensures
        r == transform_accepts(t, n as int),
{
    match t {
        TransformType::Bwt | TransformType::BwtMtf => n <= MAX_TRANSFORM_INPUT,
        TransformType::StructSplit => n <= 0xFFFF_FFFFusize,
        _ => true,
    }
}

/// The transform used for data of type `dt` and length `n`: the type's own where it takes the
/// input, else none.
pub open spec fn transform_used(dt: DataType, n: int) -> TransformType {
    if transform_accepts(transform_for(dt), n) { transform_for(dt) } else { TransformType::Identity }
}

/// True when `r` is what `apply_transform(d, t)` gives.
pub open spec fn applied(t: TransformType, d: Seq<u8>, r: Seq<u8>) -> bool {
    match t {
        TransformType::Identity => r == d,
        TransformType::Bwt => bwt::is_bwt_of(r, d),
        TransformType::Delta => r == delta::delta_encoded(d),
        TransformType::FloatSplit => r == float_split::float_split_encoded(d),
        TransformType::Transpose => r == transpose::transpose_encoded(d),
        TransformType::Rle => r == rle::rle_encoded(d),
        TransformType::BitPlane => r == bitplane::bitplane_encoded(d),
        TransformType::BwtMtf => exists|b: Seq<u8>| #[trigger] bwt::is_bwt_of(b, d) && r == mtf::mtf_encoded(b),
        TransformType::Prediction => r == prediction::prediction_encoded(d),
        TransformType::StructSplit => r == struct_split::passthrough_spec(d),
        TransformType::Bcj => r == bcj::bcj_encoded(d),
        TransformType::Precomp => r == precomp::precomp_encoded(d),
    }
}

/// True when reversing `t` on `d` does not fail: the inverse BWT needs a stored rank that
/// names a row.
pub open spec fn reversible(t: TransformType, d: Seq<u8>) -> bool {
    match t {
        TransformType::Bwt => bwt::bwt_index_ok(d) && d.len() <= u32::MAX,
        TransformType::BwtMtf => bwt::bwt_index_ok(mtf::mtf_decoded(d)) && mtf::mtf_decoded(d).len() <= u32::MAX,
        _ => true,
    }
}

/// What `reverse_transform(d, t)` gives.
pub open spec fn reversed(t: TransformType, d: Seq<u8>) -> Seq<u8> {
    match t {
        TransformType::Identity => d,
        TransformType::Bwt => bwt::bwt_inverse(d),
        TransformType::Delta => delta::delta_decoded(d),
        TransformType::FloatSplit => float_split::float_split_decoded(d),
        TransformType::Transpose => transpose::transpose_decoded(d),
        TransformType::Rle => rle::rle_decoded(d),
        TransformType::BitPlane => bitplane::bitplane_decoded(d),
        TransformType::BwtMtf => bwt::bwt_inverse(mtf::mtf_decoded(d)),
        TransformType::Prediction => prediction::prediction_decoded(d),
        TransformType::StructSplit => struct_split::struct_decoded(d),
        TransformType::Bcj => bcj::bcj_decoded(d),
        TransformType::Precomp => precomp::precomp_decoded(d),
    }
}

fn copy_all(data: &[u8]) -> (r: Vec<u8>)
    ensures
        r@ == data@,
{
    let mut r: Vec<u8> = Vec::new();
    crate::bytes::append_bytes(&mut r, data);
    r
}

/// Applies transform `t`. `BwtMtf` is the BWT followed by move-to-front.
pub fn apply_transform(data: &[u8], transform: TransformType) -> (r: Vec<u8>)
    requires
        transform_accepts(transform, data@.len() as int),
    ensures
        applied(transform, data@, r@),
{
    match transform {
        TransformType::Identity => copy_all(data),
        TransformType::Bwt => bwt::forward(data),
        TransformType::Delta => delta::encode(data),
        TransformType::FloatSplit => float_split::encode(data),
        TransformType::Transpose => transpose::encode(data),
        TransformType::Rle => rle::encode(data),
        TransformType::BitPlane => bitplane::encode(data),
        TransformType::BwtMtf => {
            let b = bwt::forward(data);
            let r = mtf::encode(b.as_slice());
            assert(bwt::is_bwt_of(b@, data@) && r@ == mtf::mtf_encoded(b@));
            r
        },
        TransformType::Prediction => prediction::encode(data),
        TransformType::StructSplit => struct_split::encode(data),
        TransformType::Bcj => bcj::encode(data),
        TransformType::Precomp => precomp::encode(data),
    }
}

/// Reverses transform `t`; the input must be reversible (`reverse_transform_checked` tests
/// that).
pub fn reverse_transform(data: &[u8], transform: TransformType) -> (r: Vec<u8>)
    requires
        reversible(transform, data@),
    ensures
        r@ == reversed(transform, data@),
{
    match transform {
        TransformType::Identity => copy_all(data),
        TransformType::Bwt => bwt::inverse(data),
        TransformType::Delta => delta::decode(data),
        TransformType::FloatSplit => float_split::decode(data),
        TransformType::Transpose => transpose::decode(data),
        TransformType::Rle => rle::decode(data),
        TransformType::BitPlane => bitplane::decode(data),
        TransformType::BwtMtf => {
            let m = mtf::decode(data);
            bwt::inverse(m.as_slice())
        },
        TransformType::Prediction => prediction::decode(data),
        TransformType::StructSplit => struct_split::decode(data),
        TransformType::Bcj => bcj::decode(data),
        TransformType::Precomp => precomp::decode(data),
    }
}

fn index_ok(data: &[u8]) -> (r: bool)
    ensures
        r == (bwt::bwt_index_ok(data@) && data@.len() <= u32::MAX),
{
    if data.len() > u32::MAX as usize {
        return false;
    }
    if data.len() <= 4 {
        return true;
    }
    (crate::bytes::read_u32_le(data, 0) as usize) < data.len() - 4
}

/// Reverses transform `t`, or `None` where the inverse BWT would fail.
pub fn reverse_transform_checked(data: &[u8], transform: TransformType) -> (r: Option<Vec<u8>>)
    ensures
        match r {
            Some(v) => reversible(transform, data@) && v@ == reversed(transform, data@),
            None => !reversible(transform, data@),
        },
{
    match transform {
        TransformType::Bwt => {
            if !index_ok(data) {
                return None;
            }
            Some(bwt::inverse(data))
        },
        TransformType::BwtMtf => {
            let m = mtf::decode(data);
            if !index_ok(m.as_slice()) {
                return None;
            }
            Some(bwt::inverse(m.as_slice()))
        },
        _ => Some(reverse_transform(data, transform)),
    }
}

/// Reversing a transform gives the data back, for every transform whose inverse is exact:
/// the branch filter free of
/// displacements that decoding would misread, and precompression where it copies the data
/// (where it inflates a stream, decoding deflates it again, which need not give the same
/// bytes).
pub proof fn lemma_transform_roundtrip(t: TransformType, d: Seq<u8>, r: Seq<u8>)
    requires
        applied(t, d, r),
        d.len() <= u32::MAX,
        match t {
            TransformType::Bcj => bcj::branches_reversible(d, 0),
            TransformType::Bwt | TransformType::BwtMtf => d.len() + 4 <= u32::MAX,
            TransformType::Precomp => precomp::precomp_encoded(d) == precomp::passthrough_spec(d),
            _ => true,
        },
    ensures
        reversible(t, r),
        reversed(t, r) == d,
{
    match t {
        TransformType::Delta => delta::lemma_delta_roundtrip(d),
        TransformType::FloatSplit => float_split::lemma_float_split_roundtrip(d),
        TransformType::Transpose => transpose::lemma_transpose_roundtrip(d),
        TransformType::Rle => rle::lemma_rle_roundtrip(d),
        TransformType::BitPlane => bitplane::lemma_bitplane_roundtrip(d),
        TransformType::Prediction => prediction::lemma_prediction_roundtrip(d),
        TransformType::StructSplit => struct_split::lemma_struct_split_roundtrip(d),
        TransformType::Bcj => bcj::lemma_bcj_roundtrip(d),
        TransformType::Precomp => precomp::lemma_precomp_passthrough_roundtrip(d),
        TransformType::Bwt => {
            bwt::lemma_bwt_roundtrip(d, r);
            crate::bytes::lemma_le_lengths();
        },
        TransformType::BwtMtf => {
            let b = choose|b: Seq<u8>| #[trigger] bwt::is_bwt_of(b, d) && r == mtf::mtf_encoded(b);
            mtf::lemma_mtf_roundtrip(b);
            bwt::lemma_bwt_roundtrip(d, b);
        },
        _ => {},
    }
}

} // verus!
