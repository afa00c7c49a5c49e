//! Embedded deflate streams (zlib headers `78 01`, `78 9C`, `78 DA`) are inflated and stored
//! raw; decoding deflates them again.
//!
//! Format: `[4-byte original length] [4-byte segment count]`, then per segment
//! `[1-byte kind: 0 raw, 1 inflated] [4-byte length] [bytes]`; zero segments is a plain copy.
use vstd::prelude::*;
use std::io::Read;
use std::io::Write;
use crate::bytes::{le32, u32_at, push_u32_le, read_u32_le, append_bytes, lemma_le_lengths};

verus! {

/// What inflating a raw deflate stream at the start of `data` gives: the output and how many
/// input bytes the decoder consumed, or `None` on a decoding error.
pub uninterp spec fn inflated(data: Seq<u8>) -> Option<(Seq<u8>, int)>;

/// What deflating `data` at the default level gives, or `None` when finishing the stream
/// fails.
pub uninterp spec fn deflated(data: Seq<u8>) -> Option<Seq<u8>>;

/// Inflates with `flate2::read::DeflateDecoder` (`read_to_end`, then `total_in`). Claims: the
/// result is the named function of the input, and the decoder consumed no more bytes than it
/// was given.
#[verifier::external_body]
fn try_inflate(data: &[u8]) -> (r: Option<(Vec<u8>, usize)>)
    ensures
        match r {
            Some(p) => inflated(data@) == Some((p.0@, p.1 as int)) && p.1 <= data@.len(),
            None => inflated(data@) is None,
        },
{
    let mut dec = flate2::read::DeflateDecoder::new(data);
    let mut out = Vec::new();
    match dec.read_to_end(&mut out) {
        Ok(_) => Some((out, dec.total_in() as usize)),
        Err(_) => None,
    }
}

/// Deflates with `flate2::write::DeflateEncoder` at `Compression::default()`, ignoring a write
/// error and keeping the result of `finish`. Claims: the result is the named function of the
/// input.
#[verifier::external_body]
fn deflate_default(data: &[u8]) -> (r: Option<Vec<u8>>)
    ensures
        match r {
            Some(v) => deflated(data@) == Some(v@),
            None => deflated(data@) is None,
        },
{
    let mut enc = flate2::write::DeflateEncoder::new(Vec::new(), flate2::Compression::default());
    let _ = enc.write_all(data);
    enc.finish().ok()
}

/// A zlib header starts at `i`.
pub open spec fn zlib_at(d: Seq<u8>, i: int) -> bool {
    d[i] == 0x78 && (d[i + 1] == 0x01 || d[i + 1] == 0x9C || d[i + 1] == 0xDA)
}

/// An inflatable stream of more than 16 input bytes and more than 32 output bytes follows the
/// zlib header at `i`.
pub open spec fn stream_at(d: Seq<u8>, i: int) -> bool {
    &&& zlib_at(d, i)
    &&& inflated(d.subrange(i + 2, d.len() as int)) is Some
    &&& inflated(d.subrange(i + 2, d.len() as int)).unwrap().0.len() > 32
    &&& inflated(d.subrange(i + 2, d.len() as int)).unwrap().1 > 16
}

/// Scans from `i` for streams, with raw bytes pending from `last_end`: the segments found
/// after `segs`, and where the last stream ended.
pub open spec fn scan(d: Seq<u8>, i: int, last_end: int, segs: Seq<(u8, Seq<u8>)>) -> (Seq<(u8, Seq<u8>)>, int)
    decreases (if i >= d.len() { 0 } else { d.len() - i }),
{
    if i < 0 || i + 2 >= d.len() {
        (segs, last_end)
    } else if stream_at(d, i) {
        let inf = inflated(d.subrange(i + 2, d.len() as int))->0;
        let segs2 = if i > last_end { segs.push((0u8, d.subrange(last_end, i))) } else { segs };
        let next = i + 2 + inf.1;
        scan(d, next, next, segs2.push((1u8, inf.0)))
    } else {
        scan(d, i + 1, last_end, segs)
    }
}

/// The segments of `d`: none when no stream is found, else the raw and inflated runs in order.
pub open spec fn segments(d: Seq<u8>) -> Seq<(u8, Seq<u8>)> {
    let r = scan(d, 0, 0, Seq::empty());
    if r.0.len() == 0 {
        Seq::empty()
    } else if r.1 < d.len() {
        r.0.push((0u8, d.subrange(r.1, d.len() as int)))
    } else {
        r.0
    }
}

/// The stored form of `segs`.
pub open spec fn segments_bytes(segs: Seq<(u8, Seq<u8>)>) -> Seq<u8>
    decreases segs.len(),
{
    if segs.len() == 0 {
        Seq::empty()
    } else {
        let s = segs.last();
        segments_bytes(segs.drop_last()) + seq![s.0] + le32(s.1.len() as u32) + s.1
    }
}

/// The plain-copy form.
pub open spec fn passthrough_spec(d: Seq<u8>) -> Seq<u8> {
    le32(d.len() as u32) + le32(0u32) + d
}

/// What `encode` gives for `d`.
pub open spec fn precomp_encoded(d: Seq<u8>) -> Seq<u8> {
    if d.len() < 16 || segments(d).len() == 0 {
        passthrough_spec(d)
    } else {
        let segs = segments(d);
        let out = le32(d.len() as u32) + le32(segs.len() as u32) + segments_bytes(segs);
        if out.len() >= d.len() { passthrough_spec(d) } else { out }
    }
}

fn passthrough(data: &[u8]) -> (r: Vec<u8>)
    ensures
        r@ == passthrough_spec(data@),
{
    let mut out: Vec<u8> = Vec::new();
    push_u32_le(&mut out, data.len() as u32);
    push_u32_le(&mut out, 0);
    append_bytes(&mut out, data);
    out
}

fn find_deflate_streams(data: &[u8]) -> (r: (Vec<u8>, Vec<Vec<u8>>))
    ensures
        r.0@.len() == r.1@.len(),
        r.0@.len() == segments(data@).len(),
        forall|k: int| 0 <= k < r.0@.len() ==> (#[trigger] r.0@[k], r.1@[k]@) == segments(data@)[k],
{
    let mut kinds: Vec<u8> = Vec::new();
    let mut segs: Vec<Vec<u8>> = Vec::new();
    let ghost d = data@;
    let mut last_end: usize = 0;
    let mut i: usize = 0;
    assert(Seq::new(kinds@.len(), |k: int| (kinds@[k], segs@[k]@)) =~= Seq::<(u8, Seq<u8>)>::empty());
    while i < data.len() && data.len() - i > 2
        invariant
            d == data@,
            last_end <= i,
            kinds@.len() == segs@.len(),
            scan(d, i as int, last_end as int, Seq::new(kinds@.len(), |k: int| (kinds@[k], segs@[k]@)))
                == scan(d, 0, 0, Seq::empty()),
            last_end <= d.len() || last_end == i,
        decreases (if i >= d.len() { 0 } else { d.len() - i }),
    {
        let ghost acc = Seq::new(kinds@.len(), |k: int| (kinds@[k], segs@[k]@));
        let is_zlib = data[i] == 0x78 && (data[i + 1] == 0x01 || data[i + 1] == 0x9C || data[i + 1] == 0xDA);
        let mut found = false;
        if is_zlib {
            match try_inflate(&data[i + 2..data.len()]) {
                Some((decompressed, consumed)) => {
                    assert(data@.subrange(i + 2, data@.len() as int) == d.subrange(i + 2, d.len() as int));
                    if decompressed.len() > 32 && consumed > 16 {
                        found = true;
                        if i > last_end {
                            kinds.push(0);
                            let mut raw: Vec<u8> = Vec::new();
                            append_bytes(&mut raw, &data[last_end..i]);
                            segs.push(raw);
                        }
                        kinds.push(1);
                        segs.push(decompressed);
                        let ghost acc2 = if i > last_end { acc.push((0u8, d.subrange(last_end as int, i as int))) } else { acc };
                        assert(Seq::new(kinds@.len(), |k: int| (kinds@[k], segs@[k]@)) =~= acc2.push((1u8, inflated(d.subrange(i + 2, d.len() as int)).unwrap().0)));
                        last_end = i + 2 + consumed;
                        i = last_end;
                    }
                },
                None => {},
            }
        }
        if !found {
            i = i + 1;
        }
    }
    let ghost r = scan(d, 0, 0, Seq::empty());
    if kinds.len() > 0 && last_end < data.len() {
        let ghost acc = Seq::new(kinds@.len(), |k: int| (kinds@[k], segs@[k]@));
        kinds.push(0);
        let mut raw: Vec<u8> = Vec::new();
        append_bytes(&mut raw, &data[last_end..data.len()]);
        segs.push(raw);
        assert(Seq::new(kinds@.len(), |k: int| (kinds@[k], segs@[k]@)) =~= acc.push((0u8, d.subrange(last_end as int, d.len() as int))));
    }
    (kinds, segs)
}

/// Replaces inflatable embedded deflate streams by their contents when that shortens the data;
/// else the plain copy.
pub fn encode(data: &[u8]) -> (r: Vec<u8>)
    ensures
        r@ == precomp_encoded(data@),
{
    if data.len() < 16 {
        return passthrough(data);
    }
    let (kinds, segs) = find_deflate_streams(data);
    if kinds.len() == 0 {
        return passthrough(data);
    }
    let ghost sg = segments(data@);
    let mut out: Vec<u8> = Vec::new();
    push_u32_le(&mut out, data.len() as u32);
    push_u32_le(&mut out, kinds.len() as u32);
    let ghost head = out@;
    let mut k: usize = 0;
    while k < kinds.len()
        invariant
            kinds@.len() == segs@.len(),
            kinds@.len() == sg.len(),
            forall|q: int| 0 <= q < kinds@.len() ==> (#[trigger] kinds@[q], segs@[q]@) == sg[q],
            k <= kinds@.len(),
            out@ == head + segments_bytes(sg.subrange(0, k as int)),
        decreases kinds@.len() - k,
    {
        out.push(kinds[k]);
        push_u32_le(&mut out, segs[k].len() as u32);
        append_bytes(&mut out, segs[k].as_slice());
        proof {
            let p = sg.subrange(0, k + 1);
            assert(p.drop_last() =~= sg.subrange(0, k as int));
            assert(p.last() == sg[k as int]);
            assert((kinds@[k as int], segs@[k as int]@) == sg[k as int]);
        }
        k = k + 1;
    }
    assert(sg.subrange(0, sg.len() as int) =~= sg);
    if out.len() >= data.len() {
        return passthrough(data);
    }
    out
}

/// Decodes segments `k` more times from `pos` into `out`, stopping at a header or segment cut
/// short by the end of `d`.
pub open spec fn decode_segments(d: Seq<u8>, pos: int, k: int, out: Seq<u8>) -> Seq<u8>
    decreases k,
{
    if k <= 0 || pos + 5 > d.len() {
        out
    } else {
        let kind = d[pos];
        let len = u32_at(d, pos + 1) as int;
        if pos + 5 + len > d.len() {
            out
        } else {
            let seg = d.subrange(pos + 5, pos + 5 + len);
            let piece = if kind == 1 {
                match deflated(seg) {
                    Some(r) => r,
                    None => seg,
                }
            } else {
                seg
            };
            decode_segments(d, pos + 5 + len, k - 1, out + piece)
        }
    }
}

/// What `decode` gives for `d`.
pub open spec fn precomp_decoded(d: Seq<u8>) -> Seq<u8> {
    if d.len() < 8 {
        Seq::empty()
    } else {
        let orig = u32_at(d, 0) as int;
        if u32_at(d, 4) == 0 {
            d.subrange(8, if orig < d.len() - 8 { 8 + orig } else { d.len() as int })
        } else {
            let out = decode_segments(d, 8, u32_at(d, 4) as int, Seq::empty());
            if out.len() > orig { out.subrange(0, orig) } else { out }
        }
    }
}

/// Decodes either form, deflating inflated segments again.
pub fn decode(data: &[u8]) -> (r: Vec<u8>)
    ensures
        r@ == precomp_decoded(data@),
{
    if data.len() < 8 {
        return Vec::new();
    }
    let n = data.len();
    let orig_len = read_u32_le(data, 0) as usize;
    let num_seg = read_u32_le(data, 4);
    if num_seg == 0 {
        let end: usize = if orig_len < n - 8 { 8 + orig_len } else { n };
        let mut out: Vec<u8> = Vec::new();
        append_bytes(&mut out, &data[8..end]);
        return out;
    }
    let mut pos: usize = 8;
    let mut out: Vec<u8> = Vec::new();
    let mut k: u32 = 0;
    while k < num_seg
        invariant_except_break
            n == data@.len(),
            8 <= pos <= n,
            k <= num_seg,
            decode_segments(data@, pos as int, (num_seg - k) as int, out@)
                == decode_segments(data@, 8, num_seg as int, Seq::empty()),
        ensures
            out@ == decode_segments(data@, 8, num_seg as int, Seq::empty()),
        decreases num_seg - k,
    {
        if n - pos < 5 {
            break;
        }
        let kind = data[pos];
        let len = read_u32_le(data, pos + 1) as usize;
        pos = pos + 5;
        if n - pos < len {
            break;
        }
        let seg = &data[pos..pos + len];
        pos = pos + len;
        if kind == 1 {
            match deflate_default(seg) {
                Some(recomp) => append_bytes(&mut out, recomp.as_slice()),
                None => append_bytes(&mut out, seg),
            }
        } else {
            append_bytes(&mut out, seg);
        }
        k = k + 1;
    }
    if out.len() > orig_len {
        out.truncate(orig_len);
    }
    out
}

/// Where no embedded stream is replaced, decoding gives the data back.
pub proof fn lemma_precomp_passthrough_roundtrip(d: Seq<u8>)
    requires
        d.len() <= u32::MAX,
    ensures
        precomp_decoded(passthrough_spec(d)) == d,
{
    lemma_le_lengths();
    let e = passthrough_spec(d);
    crate::bytes::lemma_u32_at(Seq::empty(), d.len() as u32, le32(0u32) + d);
    assert(Seq::<u8>::empty() + le32(d.len() as u32) + (le32(0u32) + d) =~= e);
    crate::bytes::lemma_u32_at(le32(d.len() as u32), 0u32, d);
    assert(e.subrange(8, e.len() as int) =~= d);
}

} // verus!
