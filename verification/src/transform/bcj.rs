//! x86 branch filter: the 32-bit displacement of every CALL (E8), JMP (E9) and near Jcc (0F 8x)
//! is rewritten between relative and absolute form, so that calls to one target get one
//! byte pattern.
//!
//! Displacements are handled as 32-bit two's-complement values; a branch is converted only
//! when the value tested (the absolute target when encoding, the stored value when decoding)
//! lies in `0 .. length + 65536`.
use vstd::prelude::*;
use vstd::wrapping::u32_specs;
use crate::bytes::{le32, u32_at, read_u32_le, lemma_u32_at, lemma_le_lengths};

verus! {

/// True when `x`, read as an `i32`, is non-negative and below `len + 65536`.
pub open spec fn in_window(x: u32, len: int) -> bool {
    x < 0x8000_0000 && x < len + 65536
}

/// The program counter of a branch at `p`, as a 32-bit value.
pub open spec fn pc_of(p: int) -> u32 {
    (p % 0x1_0000_0000) as u32
}

/// `buf` with the displacement at `off` converted (see the module notes).
pub open spec fn convert(buf: Seq<u8>, off: int, pc: u32, len: int, to_absolute: bool) -> Seq<u8> {
    let val = u32_at(buf, off);
    let target = if to_absolute { u32_specs::wrapping_add(val, pc) } else { val };
    if in_window(target, len) {
        let converted = if to_absolute { target } else { u32_specs::wrapping_sub(val, pc) };
        buf.subrange(0, off) + le32(converted) + buf.subrange(off + 4, buf.len() as int)
    } else {
        buf
    }
}

/// True when a CALL or JMP opcode stands at `i`.
pub open spec fn is_call(b: Seq<u8>, i: int) -> bool {
    b[i] == 0xE8 || b[i] == 0xE9
}

/// True when a near conditional jump (0F 80..8F) stands at `i` with its full displacement.
pub open spec fn is_jcc(b: Seq<u8>, i: int) -> bool {
    i + 6 <= b.len() && b[i] == 0x0F && (b[i + 1] & 0xF0) == 0x80
}

/// The filter run over `buf` from position `i` on.
pub open spec fn filter_from(buf: Seq<u8>, i: int, len: int, to_absolute: bool) -> Seq<u8>
    decreases buf.len() - i,
{
    if i < 0 || i + 5 > buf.len() {
        buf
    } else if is_call(buf, i) {
        proof {
            lemma_convert_shape(buf, i + 1, pc_of(i), len, to_absolute);
        }
        filter_from(convert(buf, i + 1, pc_of(i), len, to_absolute), i + 5, len, to_absolute)
    } else if is_jcc(buf, i) {
        proof {
            lemma_convert_shape(buf, i + 2, pc_of(i + 2), len, to_absolute);
        }
        filter_from(convert(buf, i + 2, pc_of(i + 2), len, to_absolute), i + 6, len, to_absolute)
    } else {
        filter_from(buf, i + 1, len, to_absolute)
    }
}

/// The encoding of `d` (displacements made absolute).
pub open spec fn bcj_encoded(d: Seq<u8>) -> Seq<u8> {
    filter_from(d, 0, d.len() as int, true)
}

/// The decoding of `d` (displacements made relative again).
pub open spec fn bcj_decoded(d: Seq<u8>) -> Seq<u8> {
    filter_from(d, 0, d.len() as int, false)
}

/// True when, at every branch the filter meets from `i` on, a displacement that is in the
/// window as stored also has its absolute target in the window (so that decoding converts
/// exactly the branches that encoding converted).
pub open spec fn branches_reversible(d: Seq<u8>, i: int) -> bool
    decreases d.len() - i,
{
    if i < 0 || i + 5 > d.len() {
        true
    } else if is_call(d, i) {
        let v = u32_at(d, i + 1);
        (in_window(v, d.len() as int) ==> in_window(u32_specs::wrapping_add(v, pc_of(i)), d.len() as int))
            && branches_reversible(d, i + 5)
    } else if is_jcc(d, i) {
        let v = u32_at(d, i + 2);
        (in_window(v, d.len() as int) ==> in_window(u32_specs::wrapping_add(v, pc_of(i + 2)), d.len() as int))
            && branches_reversible(d, i + 6)
    } else {
        branches_reversible(d, i + 1)
    }
}

/// Converting keeps the length and every byte outside the displacement.
pub proof fn lemma_convert_shape(buf: Seq<u8>, off: int, pc: u32, len: int, to_absolute: bool)
    requires
        0 <= off,
        off + 4 <= buf.len(),
    ensures
        convert(buf, off, pc, len, to_absolute).len() == buf.len(),
        forall|k: int| 0 <= k < buf.len() && (k < off || k >= off + 4) ==>
            #[trigger] convert(buf, off, pc, len, to_absolute)[k] == buf[k],
{
    lemma_le_lengths();
}

proof fn lemma_convert_back(buf: Seq<u8>, off: int, pc: u32, len: int)
    requires
        0 <= off,
        off + 4 <= buf.len(),
        in_window(u32_at(buf, off), len) ==> in_window(u32_specs::wrapping_add(u32_at(buf, off), pc), len),
    ensures
        convert(convert(buf, off, pc, len, true), off, pc, len, false) == buf,
{
    lemma_le_lengths();
    let val = u32_at(buf, off);
    let target = u32_specs::wrapping_add(val, pc);
    let e = convert(buf, off, pc, len, true);
    if in_window(target, len) {
        lemma_u32_at(buf.subrange(0, off), target, buf.subrange(off + 4, buf.len() as int));
        assert(u32_at(e, off) == target);
        assert(u32_specs::wrapping_sub(target, pc) == val);
        let back = e.subrange(0, off) + le32(val) + e.subrange(off + 4, e.len() as int);
        assert(e.subrange(0, off) =~= buf.subrange(0, off));
        assert(e.subrange(off + 4, e.len() as int) =~= buf.subrange(off + 4, buf.len() as int));
        vstd::bytes::lemma_auto_spec_u32_to_from_le_bytes();
        assert(le32(val) =~= buf.subrange(off, off + 4));
        assert(back =~= buf);
    } else {
        assert(!in_window(val, len));
    }
}

/// Decoding an encoding gives back the input, whenever every branch displacement that already
/// lies in the window also has its absolute target in the window.
pub proof fn lemma_bcj_roundtrip(d: Seq<u8>)
    requires
        branches_reversible(d, 0),
    ensures
        bcj_decoded(bcj_encoded(d)) == d,
{
    lemma_prefix_kept(d, 0, d.len() as int, true);
    lemma_roundtrip_from(d, d, 0);
}

/// Converting reads and writes only `off .. off + 4`, so buffers that agree on a range holding
/// those bytes still agree there afterwards.
proof fn lemma_convert_agree(x: Seq<u8>, y: Seq<u8>, off: int, pc: u32, len: int, to_absolute: bool, lo: int, hi: int)
    requires
        0 <= lo <= off,
        off + 4 <= hi <= x.len(),
        x.len() == y.len(),
        forall|k: int| lo <= k < hi ==> #[trigger] x[k] == y[k],
    ensures
        convert(x, off, pc, len, to_absolute).len() == x.len(),
        convert(y, off, pc, len, to_absolute).len() == y.len(),
        u32_at(x, off) == u32_at(y, off),
        forall|k: int| lo <= k < hi ==>
            #[trigger] convert(x, off, pc, len, to_absolute)[k] == convert(y, off, pc, len, to_absolute)[k],
{
    lemma_le_lengths();
    assert(x.subrange(off, off + 4) =~= y.subrange(off, off + 4));
}

/// The filter from `j` on depends only on the bytes from `j` on, and leaves earlier bytes alone.
proof fn lemma_locality(x: Seq<u8>, y: Seq<u8>, j: int, len: int, to_absolute: bool)
    requires
        0 <= j,
        x.len() == y.len(),
        forall|k: int| j <= k < x.len() ==> #[trigger] x[k] == y[k],
    ensures
        forall|k: int| j <= k < x.len() ==>
            #[trigger] filter_from(x, j, len, to_absolute)[k] == filter_from(y, j, len, to_absolute)[k],
    decreases x.len() - j,
{
    if j + 5 > x.len() {
    } else if is_call(x, j) {
        assert(is_call(y, j));
        lemma_convert_agree(x, y, j + 1, pc_of(j), len, to_absolute, j, x.len() as int);
        let cx = convert(x, j + 1, pc_of(j), len, to_absolute);
        let cy = convert(y, j + 1, pc_of(j), len, to_absolute);
        lemma_locality(cx, cy, j + 5, len, to_absolute);
        lemma_prefix_kept(cx, j + 5, len, to_absolute);
        lemma_prefix_kept(cy, j + 5, len, to_absolute);
    } else if is_jcc(x, j) {
        assert(!is_call(y, j) && is_jcc(y, j)) by {
            assert(x[j + 1] == y[j + 1]);
        }
        lemma_convert_agree(x, y, j + 2, pc_of(j + 2), len, to_absolute, j, x.len() as int);
        let cx = convert(x, j + 2, pc_of(j + 2), len, to_absolute);
        let cy = convert(y, j + 2, pc_of(j + 2), len, to_absolute);
        lemma_locality(cx, cy, j + 6, len, to_absolute);
        lemma_prefix_kept(cx, j + 6, len, to_absolute);
        lemma_prefix_kept(cy, j + 6, len, to_absolute);
    } else {
        assert(!is_call(y, j) && !is_jcc(y, j)) by {
            if j + 6 <= x.len() {
                assert(x[j + 1] == y[j + 1]);
            }
        }
        lemma_locality(x, y, j + 1, len, to_absolute);
        lemma_prefix_kept(x, j + 1, len, to_absolute);
        lemma_prefix_kept(y, j + 1, len, to_absolute);
    }
}

/// One branch of the roundtrip: encoding converted the displacement at `off` (opcode at `i`,
/// scanning resumes at `next`), and decoding the encoded rest gives back the rest.
proof fn lemma_roundtrip_step(b: Seq<u8>, i: int, off: int, next: int, pc: u32, len: int)
    requires
        0 <= i < off,
        next == off + 4,
        next <= b.len(),
        len == b.len(),
        in_window(u32_at(b, off), len) ==> in_window(u32_specs::wrapping_add(u32_at(b, off), pc), len),
        filter_from(
            filter_from(convert(b, off, pc, len, true), next, len, true),
            next,
            len,
            false,
        ) == convert(b, off, pc, len, true),
    ensures
        ({
            let f = filter_from(convert(b, off, pc, len, true), next, len, true);
            filter_from(convert(f, off, pc, len, false), next, len, false) == b
        }),
{
    let c = convert(b, off, pc, len, true);
    let f = filter_from(c, next, len, true);
    let g = convert(f, off, pc, len, false);
    lemma_convert_shape(b, off, pc, len, true);
    lemma_prefix_kept(c, next, len, true);
    lemma_convert_back(b, off, pc, len);
    // g and convert(c, ..) == b agree before `next`
    lemma_convert_agree(f, c, off, pc, len, false, 0, next);
    lemma_convert_shape(f, off, pc, len, false);
    // from `next` on, g is f, whose decode run is c
    lemma_locality(g, f, next, len, false);
    lemma_prefix_kept(g, next, len, false);
    let r = filter_from(g, next, len, false);
    assert forall|k: int| 0 <= k < b.len() implies #[trigger] r[k] == b[k] by {
        if k < next {
            assert(r[k] == g[k]);
            assert(g[k] == convert(c, off, pc, len, false)[k]);
        } else {
            assert(r[k] == filter_from(f, next, len, false)[k]);
            assert(c[k] == b[k]);
        }
    }
    assert(r =~= b);
}

/// `filter_from` over a buffer `b` that agrees with `d` from `i` on: the decode run undoes the
/// encode run.
proof fn lemma_roundtrip_from(d: Seq<u8>, b: Seq<u8>, i: int)
    requires
        0 <= i <= d.len(),
        b.len() == d.len(),
        forall|k: int| i <= k < d.len() ==> #[trigger] b[k] == d[k],
        branches_reversible(d, i),
    ensures
        filter_from(filter_from(b, i, d.len() as int, true), i, d.len() as int, false) == b,
    decreases d.len() - i,
{
    let len = d.len() as int;
    if i + 5 > b.len() {
    } else if is_call(b, i) {
        assert(is_call(d, i));
        assert(u32_at(b, i + 1) == u32_at(d, i + 1)) by {
            assert(b.subrange(i + 1, i + 5) =~= d.subrange(i + 1, i + 5));
        }
        lemma_convert_shape(b, i + 1, pc_of(i), len, true);
        let c = convert(b, i + 1, pc_of(i), len, true);
        lemma_roundtrip_from(d, c, i + 5);
        lemma_prefix_kept(c, i + 5, len, true);
        let f = filter_from(c, i + 5, len, true);
        assert(f[i] == c[i]);
        assert(is_call(f, i));
        lemma_roundtrip_step(b, i, i + 1, i + 5, pc_of(i), len);
    } else if is_jcc(b, i) {
        assert(!is_call(d, i) && is_jcc(d, i)) by {
            assert(b[i + 1] == d[i + 1]);
        }
        assert(u32_at(b, i + 2) == u32_at(d, i + 2)) by {
            assert(b.subrange(i + 2, i + 6) =~= d.subrange(i + 2, i + 6));
        }
        lemma_convert_shape(b, i + 2, pc_of(i + 2), len, true);
        let c = convert(b, i + 2, pc_of(i + 2), len, true);
        lemma_roundtrip_from(d, c, i + 6);
        lemma_prefix_kept(c, i + 6, len, true);
        let f = filter_from(c, i + 6, len, true);
        assert(f[i] == c[i] && f[i + 1] == c[i + 1]);
        assert(!is_call(f, i) && is_jcc(f, i));
        lemma_roundtrip_step(b, i, i + 2, i + 6, pc_of(i + 2), len);
    } else {
        assert(!is_call(d, i) && !is_jcc(d, i)) by {
            if i + 6 <= d.len() {
                assert(b[i + 1] == d[i + 1]);
            }
        }
        lemma_roundtrip_from(d, b, i + 1);
        lemma_prefix_kept(b, i + 1, len, true);
        let f = filter_from(b, i + 1, len, true);
        assert(f[i] == b[i]);
        assert(!is_call(f, i));
        assert(!is_jcc(f, i)) by {
            if i + 6 <= f.len() {
                assert(f[i + 1] == b[i + 1]);
            }
        }
    }
}

/// The filter from `i` leaves the bytes up to `i` alone and keeps the length.
proof fn lemma_prefix_kept(b: Seq<u8>, i: int, len: int, to_absolute: bool)
    requires
        0 <= i,
    ensures
        filter_from(b, i, len, to_absolute).len() == b.len(),
        forall|k: int| 0 <= k <= i && k < b.len() ==> #[trigger] filter_from(b, i, len, to_absolute)[k] == b[k],
    decreases b.len() - i,
{
    if i + 5 > b.len() {
    } else if is_call(b, i) {
        lemma_convert_shape(b, i + 1, pc_of(i), len, to_absolute);
        let c = convert(b, i + 1, pc_of(i), len, to_absolute);
        lemma_prefix_kept(c, i + 5, len, to_absolute);
    } else if is_jcc(b, i) {
        lemma_convert_shape(b, i + 2, pc_of(i + 2), len, to_absolute);
        let c = convert(b, i + 2, pc_of(i + 2), len, to_absolute);
        lemma_prefix_kept(c, i + 6, len, to_absolute);
    } else {
        lemma_prefix_kept(b, i + 1, len, to_absolute);
    }
}

fn convert_branch(buf: &mut Vec<u8>, off: usize, pc: u32, file_len: usize, to_absolute: bool)
    requires
        off + 4 <= old(buf)@.len(),
        file_len == old(buf)@.len(),
    ensures
        final(buf)@ == convert(old(buf)@, off as int, pc, file_len as int, to_absolute),
{
    let val = read_u32_le(buf.as_slice(), off);
    let target = if to_absolute { val.wrapping_add(pc) } else { val };
    if target < 0x8000_0000 && (target as u128) < (file_len as u128) + 65536 {
        let converted = if to_absolute { target } else { val.wrapping_sub(pc) };
        let bytes = vstd::bytes::u32_to_le_bytes(converted);
        buf.set(off, bytes[0]);
        buf.set(off + 1, bytes[1]);
        buf.set(off + 2, bytes[2]);
        buf.set(off + 3, bytes[3]);
        proof { lemma_le_lengths(); }
        assert(buf@ =~= old(buf)@.subrange(0, off as int) + le32(converted)
            + old(buf)@.subrange(off + 4, old(buf)@.len() as int));
    }
}

fn filter(data: &[u8], to_absolute: bool) -> (r: Vec<u8>)
    ensures
        r@ == filter_from(data@, 0, data@.len() as int, to_absolute),
{
    let mut buf: Vec<u8> = Vec::new();
    crate::bytes::append_bytes(&mut buf, data);
    let len = data.len();
    let mut i: usize = 0;
    while i < len && len - i >= 5
        invariant
            buf@.len() == len == data@.len(),
            i <= len,
            filter_from(buf@, i as int, len as int, to_absolute) == filter_from(data@, 0, len as int, to_absolute),
        decreases len - i,
    {
        let is_call_jmp = buf[i] == 0xE8 || buf[i] == 0xE9;
        let is_jcc = len - i >= 6 && buf[i] == 0x0F && (buf[i + 1] & 0xF0) == 0x80;
        if is_call_jmp {
            let pc = (i as u64 % 0x1_0000_0000) as u32;
            convert_branch(&mut buf, i + 1, pc, len, to_absolute);
            assert(filter_from(buf@, (i + 5) as int, len as int, to_absolute) == filter_from(data@, 0, len as int, to_absolute));
            i = i + 5;
        } else if is_jcc {
            let pc = ((i + 2) as u64 % 0x1_0000_0000) as u32;
            convert_branch(&mut buf, i + 2, pc, len, to_absolute);
            i = i + 6;
        } else {
            i = i + 1;
        }
        proof { lemma_le_lengths(); }
    }
    buf
}

/// Rewrites branch displacements to absolute form.
pub fn encode(data: &[u8]) -> (r: Vec<u8>)
    ensures
        r@ == bcj_encoded(data@),
{
    filter(data, true)
}

/// Rewrites branch displacements back to relative form.
pub fn decode(data: &[u8]) -> (r: Vec<u8>)
    ensures
        r@ == bcj_decoded(data@),
{
    filter(data, false)
}

/// True when the 32-bit displacement `rel`, read as an `i32`, has magnitude below one million.
pub open spec fn near_displacement(rel: u32) -> bool {
    rel < 1_000_000 || rel > 0x1_0000_0000 - 1_000_000
}

/// True when a branch opcode stands at `i` inside the first `slen` bytes and its displacement is
/// near.
pub open spec fn branch_hit(d: Seq<u8>, i: int, slen: int) -> bool {
    if is_call(d, i) {
        near_displacement(u32_at(d, i + 1))
    } else if i + 6 <= slen && d[i] == 0x0F && (d[i + 1] & 0xF0) == 0x80 {
        near_displacement(u32_at(d, i + 2))
    } else {
        false
    }
}

/// The number of positions `i < n` that are branch hits.
pub open spec fn hits_below(d: Seq<u8>, n: int, slen: int) -> nat
    decreases n,
{
    if n <= 0 {
        0
    } else {
        hits_below(d, n - 1, slen) + if branch_hit(d, n - 1, slen) { 1nat } else { 0nat }
    }
}

/// The executable-code heuristic: at least 64 bytes, and either a PE (`MZ`, longer than 64
/// bytes) or ELF header, or more than one branch hit per hundred scanned positions among the
/// first 4096 bytes.
pub open spec fn likely_executable(d: Seq<u8>) -> bool {
    if d.len() < 64 {
        false
    } else if d.len() > 0x40 && d[0] == 0x4D && d[1] == 0x5A {
        true
    } else if d[0] == 0x7F && d[1] == 0x45 && d[2] == 0x4C && d[3] == 0x46 {
        true
    } else {
        let slen: int = if d.len() < 4096 { d.len() as int } else { 4096 };
        let total = slen - 4;
        let hits = hits_below(d, total, slen);
        hits > 0 && 100 * hits > total
    }
}

/// Executable headers settle the question: inputs of at least 64 bytes that open with the ELF
/// magic, and of more than 64 bytes that open with `MZ`, count as machine code; inputs under 64
/// bytes never do.
pub proof fn lemma_executable_headers(d: Seq<u8>)
    ensures
        d.len() >= 64 && d[0] == 0x7F && d[1] == 0x45 && d[2] == 0x4C && d[3] == 0x46 ==> likely_executable(d),
        d.len() > 64 && d[0] == 0x4D && d[1] == 0x5A ==> likely_executable(d),
        d.len() < 64 ==> !likely_executable(d),
{
}

/// Heuristic check for x86 machine code (PE/ELF headers or branch-opcode density).
pub fn is_likely_executable(data: &[u8]) -> (r: bool)
    ensures
        r == likely_executable(data@),
        data@.len() >= 64 && data@[0] == 0x7F && data@[1] == 0x45 && data@[2] == 0x4C && data@[3] == 0x46 ==> r,
        data@.len() > 64 && data@[0] == 0x4D && data@[1] == 0x5A ==> r,
        data@.len() < 64 ==> !r,
{
    if data.len() < 64 {
        return false;
    }
    if data.len() > 0x40 && data[0] == 0x4D && data[1] == 0x5A {
        return true;
    }
    if data[0] == 0x7F && data[1] == 0x45 && data[2] == 0x4C && data[3] == 0x46 {
        return true;
    }
    let slen: usize = if data.len() < 4096 { data.len() } else { 4096 };
    let mut hits: u32 = 0;
    let mut total: u32 = 0;
    let mut i: usize = 0;
    while i + 5 <= slen
        invariant
            64 <= slen <= 4096,
            slen <= data@.len(),
            slen == (if data@.len() < 4096 { data@.len() as int } else { 4096 }),
            i <= slen - 4,
            total == i,
            hits == hits_below(data@, i as int, slen as int),
            hits <= i,
        decreases slen - i,
    {
        let hit = if data[i] == 0xE8 || data[i] == 0xE9 {
            let rel = read_u32_le(data, i + 1);
            rel < 1_000_000 || rel > 0xFFFF_FFFF - 999_999
        } else if i + 6 <= slen && data[i] == 0x0F && (data[i + 1] & 0xF0) == 0x80 {
            let rel = read_u32_le(data, i + 2);
            rel < 1_000_000 || rel > 0xFFFF_FFFF - 999_999
        } else {
            false
        };
        assert(hit == branch_hit(data@, i as int, slen as int));
        if hit {
            hits = hits + 1;
        }
        total = total + 1;
        i = i + 1;
    }
    hits > 0 && (hits as u64) * 100 > total as u64
}

} // verus!