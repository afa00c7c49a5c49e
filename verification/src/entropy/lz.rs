//! Byte-oriented LZ77 token format and its hash-chain encoders.
//!
//! A stream is a sequence of tokens, each led by a control byte:
//! - `0x00..=0x7F`: a literal run of `ctrl + 1` bytes, which follow;
//! - `0x80..=0xFE`: a short match, offset `(ctrl - 0x80) * 256 + next + 1`, then `length - 3`;
//! - `0xFF`: a long match, a 24-bit little-endian `offset - 1`, then `length - 3`.
//!
//! A match copies `length` bytes from `offset` bytes back, overlapping copies allowed.
use vstd::prelude::*;
use crate::bytes::append_bytes;

verus! {

pub const MIN_MATCH: usize = 3;
pub const MAX_MATCH: usize = 258;
pub const WINDOW_SIZE: usize = 262143;
pub const HASH_SIZE: usize = 262144;
/// Links the main encoder follows on a hash chain.
pub const MAX_CHAIN: usize = 256;
/// Slots of the fast encoder's hash table.
pub const TURBO_HASH_SIZE: usize = 32768;
/// Links the fast encoder follows on a hash chain.
pub const TURBO_CHAIN_MAX: usize = 4;
/// Match length at which the fast encoder stops searching.
pub const TURBO_NICE_LEN: usize = 8;
/// Longest match whose inner positions the fast encoder enters in its tables.
pub const TURBO_SKIP_INSERT: usize = 4;
/// How far back the fast encoder looks.
pub const TURBO_WINDOW: usize = 32768;

// ---------------------------------------------------------------------------------------------
// Decoding
// ---------------------------------------------------------------------------------------------

/// Appends the bytes `j .. length` of a match whose source starts at `start` with period
/// `offset`; a source index past the current end yields a zero byte.
pub open spec fn copy_from(out: Seq<u8>, start: int, offset: int, j: int, length: int) -> Seq<u8>
    decreases length - j,
{
    if j >= length {
        out
    } else {
        let idx = start + j % offset;
        let b: u8 = if 0 <= idx < out.len() { out[idx] } else { 0 };
        copy_from(out.push(b), start, offset, j + 1, length)
    }
}

/// `out` followed by the `length` bytes of a match `offset` bytes back.
pub open spec fn copy_match_spec(out: Seq<u8>, offset: int, length: int) -> Seq<u8> {
    let start = if out.len() >= offset { out.len() - offset } else { 0 };
    copy_from(out, start, offset, 0, length)
}

/// Decodes the tokens of `d` from position `i` on, appending to `out`. Returns the output and
/// the position where decoding stopped: `d.len()` at a clean end, or the control byte of a
/// token cut short by the end of `d`.
pub open spec fn lz_run(d: Seq<u8>, i: int, out: Seq<u8>) -> (Seq<u8>, int)
    decreases d.len() - i,
{
    if i < 0 || i >= d.len() {
        (out, i)
    } else {
        let ctrl = d[i];
        if ctrl < 0x80 {
            let count = ctrl + 1;
            if i + 1 + count > d.len() {
                (out, i)
            } else {
                lz_run(d, i + 1 + count, out + d.subrange(i + 1, i + 1 + count))
            }
        } else if ctrl == 0xFF {
            if i + 5 > d.len() {
                (out, i)
            } else {
                let offset = d[i + 1] + d[i + 2] * 256 + d[i + 3] * 65536 + 1;
                let length = d[i + 4] + 3;
                lz_run(d, i + 5, copy_match_spec(out, offset, length))
            }
        } else {
            if i + 3 > d.len() {
                (out, i)
            } else {
                let offset = (ctrl - 0x80) * 256 + d[i + 1] + 1;
                let length = d[i + 2] + 3;
                lz_run(d, i + 3, copy_match_spec(out, offset, length))
            }
        }
    }
}

/// The bytes that the token stream `d` decodes to.
pub open spec fn lz_decoded(d: Seq<u8>) -> Seq<u8> {
    lz_run(d, 0, Seq::empty()).0
}

/// True when `d` decodes to `data` and every token of `d` is complete.
pub open spec fn lz_encodes(d: Seq<u8>, data: Seq<u8>) -> bool {
    lz_run(d, 0, Seq::empty()) == (data, d.len() as int)
}

pub(crate) proof fn lemma_copy_from_len(out: Seq<u8>, start: int, offset: int, j: int, length: int)
    requires
        j <= length,
    ensures
        copy_from(out, start, offset, j, length).len() == out.len() + (length - j),
    decreases length - j,
{
    if j < length {
        let idx = start + j % offset;
        let b: u8 = if 0 <= idx < out.len() { out[idx] } else { 0 };
        lemma_copy_from_len(out.push(b), start, offset, j + 1, length);
    }
}

proof fn lemma_run_len(d: Seq<u8>, i: int, out: Seq<u8>)
    requires
        0 <= i,
        lz_run(d, i, out).1 == d.len(),
    ensures
        d.len() - i <= 2 * (lz_run(d, i, out).0.len() - out.len()),
    decreases d.len() - i,
{
    if i < d.len() {
        let ctrl = d[i];
        if ctrl < 0x80 {
            let count = ctrl + 1;
            lemma_run_len(d, i + 1 + count, out + d.subrange(i + 1, i + 1 + count));
        } else if ctrl == 0xFF {
            let offset = d[i + 1] + d[i + 2] * 256 + d[i + 3] * 65536 + 1;
            let length = d[i + 4] + 3;
            let start = if out.len() >= offset { out.len() - offset } else { 0 };
            lemma_copy_from_len(out, start, offset, 0, length);
            lemma_run_len(d, i + 5, copy_match_spec(out, offset, length));
        } else {
            let offset = (ctrl - 0x80) * 256 + d[i + 1] + 1;
            let length = d[i + 2] + 3;
            let start = if out.len() >= offset { out.len() - offset } else { 0 };
            lemma_copy_from_len(out, start, offset, 0, length);
            lemma_run_len(d, i + 3, copy_match_spec(out, offset, length));
        }
    }
}

/// A complete token stream is at most twice as long as what it decodes to.
pub proof fn lemma_encoding_len(d: Seq<u8>, data: Seq<u8>)
    requires
        lz_encodes(d, data),
    ensures
        d.len() <= 2 * data.len(),
{
    lemma_run_len(d, 0, Seq::empty());
}

pub(crate) fn copy_match(result: &mut Vec<u8>, offset: usize, length: usize)
    requires
        1 <= offset,
    ensures
        final(result)@ == copy_match_spec(old(result)@, offset as int, length as int),
{
    let start: usize = if result.len() >= offset { result.len() - offset } else { 0 };
    let ghost start_i: int = start as int;
    let n0: usize = result.len();
    let mut j: usize = 0;
    while j < length
        invariant
            1 <= offset,
            n0 == old(result)@.len(),
            start == 0 || start + offset == n0,
            start == start_i,
            start_i == (if old(result)@.len() >= offset { old(result)@.len() - offset } else { 0 }),
            j <= length,
            result@.len() == old(result)@.len() + j,
            copy_from(result@, start_i, offset as int, j as int, length as int)
                == copy_match_spec(old(result)@, offset as int, length as int),
        decreases length - j,
    {
        assert(j % offset < offset) by (nonlinear_arith)
            requires
                offset >= 1,
        ;
        let idx: usize = start + j % offset;
        let b: u8 = if idx < result.len() { result[idx] } else { 0 };
        result.push(b);
        j = j + 1;
    }
}

/// Decodes an LZ token stream. A token cut short by the end of the input ends decoding.
pub fn lz_decode(data: &[u8]) -> (r: Vec<u8>)
    ensures
        r@ == lz_decoded(data@),
{
    let mut result: Vec<u8> = Vec::new();
    let mut i: usize = 0;
    while i < data.len()
        invariant
            i <= data@.len(),
            lz_run(data@, i as int, result@) == lz_run(data@, 0, Seq::empty()),
        ensures
            lz_run(data@, i as int, result@) == lz_run(data@, 0, Seq::empty()),
            lz_run(data@, i as int, result@).0 == result@,
        decreases data@.len() - i,
    {
        let ctrl = data[i];
        if ctrl < 0x80 {
            let count: usize = ctrl as usize + 1;
            if count > data.len() - (i + 1) {
                break;
            }
            let ghost before = result@;
            append_bytes(&mut result, &data[i + 1..i + 1 + count]);
            i = i + 1 + count;
        } else if ctrl == 0xFF {
            if data.len() - i < 5 {
                break;
            }
            let offset: usize = data[i + 1] as usize + data[i + 2] as usize * 256
                + data[i + 3] as usize * 65536 + 1;
            let length: usize = data[i + 4] as usize + 3;
            copy_match(&mut result, offset, length);
            i = i + 5;
        } else {
            if data.len() - i < 3 {
                break;
            }
            let offset: usize = (ctrl as usize - 0x80) * 256 + data[i + 1] as usize + 1;
            let length: usize = data[i + 2] as usize + 3;
            copy_match(&mut result, offset, length);
            i = i + 3;
        }
    }
    result
}

// ---------------------------------------------------------------------------------------------
// Facts about decoding
// ---------------------------------------------------------------------------------------------

/// Decoding a stream placed after `s` from position `s.len() + k` is decoding it from `k`.
proof fn lemma_run_shift(s: Seq<u8>, t: Seq<u8>, k: int, out: Seq<u8>)
    requires
        0 <= k,
    ensures
        lz_run(s + t, s.len() + k, out) == (lz_run(t, k, out).0, s.len() + lz_run(t, k, out).1),
    decreases t.len() - k,
{
    let st = s + t;
    let p = s.len() + k;
    if k >= t.len() {
    } else {
        let ctrl = t[k];
        assert(st[p] == ctrl);
        if ctrl < 0x80 {
            let count = ctrl + 1;
            if k + 1 + count <= t.len() {
                assert(st.subrange(p + 1, p + 1 + count) =~= t.subrange(k + 1, k + 1 + count));
                lemma_run_shift(s, t, k + 1 + count, out + t.subrange(k + 1, k + 1 + count));
            }
        } else if ctrl == 0xFF {
            if k + 5 <= t.len() {
                assert(st[p + 1] == t[k + 1] && st[p + 2] == t[k + 2] && st[p + 3] == t[k + 3]
                    && st[p + 4] == t[k + 4]);
                let offset = t[k + 1] + t[k + 2] * 256 + t[k + 3] * 65536 + 1;
                lemma_run_shift(s, t, k + 5, copy_match_spec(out, offset, t[k + 4] + 3));
            }
        } else {
            if k + 3 <= t.len() {
                assert(st[p + 1] == t[k + 1] && st[p + 2] == t[k + 2]);
                let offset = (ctrl - 0x80) * 256 + t[k + 1] + 1;
                lemma_run_shift(s, t, k + 3, copy_match_spec(out, offset, t[k + 2] + 3));
            }
        }
    }
}

/// A stream that decodes cleanly to its end can be followed by another: the second continues
/// from the output of the first.
proof fn lemma_run_append(s: Seq<u8>, t: Seq<u8>, i: int, out: Seq<u8>)
    requires
        0 <= i <= s.len(),
        lz_run(s, i, out).1 == s.len(),
    ensures
        lz_run(s + t, i, out) == (
            lz_run(t, 0, lz_run(s, i, out).0).0,
            s.len() + lz_run(t, 0, lz_run(s, i, out).0).1,
        ),
    decreases s.len() - i,
{
    let st = s + t;
    if i == s.len() {
        lemma_run_shift(s, t, 0, out);
    } else {
        let ctrl = s[i];
        assert(st[i] == ctrl);
        if ctrl < 0x80 {
            let count = ctrl + 1;
            assert(st.subrange(i + 1, i + 1 + count) =~= s.subrange(i + 1, i + 1 + count));
            lemma_run_append(s, t, i + 1 + count, out + s.subrange(i + 1, i + 1 + count));
        } else if ctrl == 0xFF {
            assert(st[i + 1] == s[i + 1] && st[i + 2] == s[i + 2] && st[i + 3] == s[i + 3]
                && st[i + 4] == s[i + 4]);
            let offset = s[i + 1] + s[i + 2] * 256 + s[i + 3] * 65536 + 1;
            lemma_run_append(s, t, i + 5, copy_match_spec(out, offset, s[i + 4] + 3));
        } else {
            assert(st[i + 1] == s[i + 1] && st[i + 2] == s[i + 2]);
            let offset = (ctrl - 0x80) * 256 + s[i + 1] + 1;
            lemma_run_append(s, t, i + 3, copy_match_spec(out, offset, s[i + 2] + 3));
        }
    }
}

/// Tokens that decode cleanly from `before` to `after` extend an encoding of `before` to an
/// encoding of `after`.
proof fn lemma_emit(prev: Seq<u8>, tokens: Seq<u8>, before: Seq<u8>, after: Seq<u8>)
    requires
        lz_encodes(prev, before),
        lz_run(tokens, 0, before) == (after, tokens.len() as int),
    ensures
        lz_encodes(prev + tokens, after),
{
    lemma_run_append(prev, tokens, 0, Seq::empty());
}

/// Literal-run tokens carrying `lits`, in blocks of at most 128 bytes.
pub open spec fn lit_tokens(lits: Seq<u8>) -> Seq<u8>
    decreases lits.len(),
{
    if lits.len() == 0 {
        Seq::empty()
    } else {
        let n: int = if lits.len() < 128 { lits.len() as int } else { 128 };
        seq![(n - 1) as u8] + lits.subrange(0, n) + lit_tokens(lits.subrange(n, lits.len() as int))
    }
}

/// Literal tokens decode to their bytes.
proof fn lemma_lit_tokens(lits: Seq<u8>, out: Seq<u8>)
    ensures
        lz_run(lit_tokens(lits), 0, out) == (out + lits, lit_tokens(lits).len() as int),
    decreases lits.len(),
{
    if lits.len() == 0 {
        assert(out + lits =~= out);
    } else {
        let n: int = if lits.len() < 128 { lits.len() as int } else { 128 };
        let head = seq![(n - 1) as u8] + lits.subrange(0, n);
        let rest = lits.subrange(n, lits.len() as int);
        assert(head[0] == (n - 1) as u8);
        assert(head.subrange(1, 1 + n) =~= lits.subrange(0, n));
        assert(lz_run(head, 0, out) == lz_run(head, 1 + n, out + lits.subrange(0, n)));
        lemma_run_append(head, lit_tokens(rest), 0, out);
        lemma_lit_tokens(rest, out + lits.subrange(0, n));
        assert(out + lits.subrange(0, n) + rest =~= out + lits);
    }
}

/// The tokens of one match.
pub open spec fn match_token(offset: int, length: int) -> Seq<u8> {
    let off = offset - 1;
    if off < 0x7F00 {
        seq![(0x80 + off / 256) as u8, (off % 256) as u8, (length - 3) as u8]
    } else {
        seq![0xFFu8, (off % 256) as u8, (off / 256 % 256) as u8, (off / 65536 % 256) as u8, (length - 3) as u8]
    }
}

/// A match token decodes to the match copy.
proof fn lemma_match_token(offset: int, length: int, out: Seq<u8>)
    requires
        1 <= offset <= 0x100_0000,
        3 <= length <= 258,
    ensures
        lz_run(match_token(offset, length), 0, out) == (
            copy_match_spec(out, offset, length),
            match_token(offset, length).len() as int,
        ),
{
    let off = offset - 1;
    let t = match_token(offset, length);
    let c = copy_match_spec(out, offset, length);
    if off < 0x7F00 {
        assert(t.len() == 3);
        assert(t[0] == 0x80 + off / 256);
        assert(0x80 <= t[0] < 0xFF);
        assert((t[0] - 0x80) * 256 + t[1] + 1 == offset);
        assert(t[2] + 3 == length);
        assert(lz_run(t, 3, c) == (c, 3int));
    } else {
        assert(t[1] + t[2] * 256 + t[3] * 65536 == off) by {
            assert(off == off % 256 + (off / 256 % 256) * 256 + (off / 65536 % 256) * 65536)
                by (nonlinear_arith)
                requires
                    0 <= off < 0x100_0000,
            ;
        }
        assert(t[4] + 3 == length);
        assert(t.len() == 5 && t[0] == 0xFF);
        assert(lz_run(t, 5, c) == (c, 5int));
    }
}

/// In a match, each copied byte equals the byte one period earlier in the source.
proof fn lemma_periodic(data: Seq<u8>, i: int, offset: int, j: int, length: int)
    requires
        1 <= offset <= i,
        i + length <= data.len(),
        0 <= j < length,
        forall|k: int| 0 <= k < length ==> #[trigger] data[i - offset + k] == data[i + k],
    ensures
        0 <= i - offset + j % offset < i,
        data[i - offset + j % offset] == data[i + j],
    decreases j,
{
    if j < offset {
        assert(j % offset == j) by {
            vstd::arithmetic::div_mod::lemma_small_mod(j as nat, offset as nat);
        }
        assert(data[i - offset + j] == data[i + j]);
    } else {
        lemma_periodic(data, i, offset, j - offset, length);
        assert((j - offset) % offset == j % offset) by {
            vstd::arithmetic::div_mod::lemma_mod_add_multiples_vanish(j - offset, offset);
        }
        assert(data[i - offset + j] == data[i + j]);
    }
}

/// Copying a genuine match appends exactly the matched bytes.
pub(crate) proof fn lemma_copy_match(data: Seq<u8>, i: int, offset: int, length: int)
    requires
        1 <= offset <= i,
        0 <= length,
        i + length <= data.len(),
        forall|k: int| 0 <= k < length ==> #[trigger] data[i - offset + k] == data[i + k],
    ensures
        copy_match_spec(data.subrange(0, i), offset, length) == data.subrange(0, i + length),
{
    lemma_copy_from(data, i, offset, 0, length);
}

proof fn lemma_copy_from(data: Seq<u8>, i: int, offset: int, j: int, length: int)
    requires
        1 <= offset <= i,
        0 <= j <= length,
        i + length <= data.len(),
        forall|k: int| 0 <= k < length ==> #[trigger] data[i - offset + k] == data[i + k],
    ensures
        copy_from(data.subrange(0, i + j), i - offset, offset, j, length) == data.subrange(0, i + length),
    decreases length - j,
{
    if j < length {
        lemma_periodic(data, i, offset, j, length);
        let out = data.subrange(0, i + j);
        assert(out.push(data[i + j]) =~= data.subrange(0, i + j + 1));
        lemma_copy_from(data, i, offset, j + 1, length);
    }
}

// ---------------------------------------------------------------------------------------------
// Encoding
// ---------------------------------------------------------------------------------------------

/// True when `length` bytes at `pos` repeat the bytes `offset` back.
pub open spec fn is_match(d: Seq<u8>, pos: int, length: int, offset: int) -> bool {
    &&& 1 <= offset <= pos
    &&& pos + length <= d.len()
    &&& forall|k: int| 0 <= k < length ==> #[trigger] d[pos - offset + k] == d[pos + k]
}

/// Every entry of the hash tables is the empty mark or a position of the input.
pub open spec fn tables_ok(head: Seq<u32>, chain: Seq<u32>, n: int) -> bool {
    &&& forall|k: int| 0 <= k < head.len() ==> #[trigger] head[k] == u32::MAX || head[k] < n
    &&& forall|k: int| 0 <= k < chain.len() ==> #[trigger] chain[k] == u32::MAX || chain[k] < n
}

/// A position as stored in the hash tables (its low 32 bits).
fn pos_u32(i: usize) -> (r: u32)
    ensures
        r as int <= i,
        r as int == i as int % 0x1_0000_0000,
{
    let r = (i as u64 % 0x1_0000_0000) as u32;
    assert(i as u64 % 0x1_0000_0000 <= i as u64) by (nonlinear_arith);
    r
}

fn emit_literals(lits: &[u8], out: &mut Vec<u8>)
    ensures
        final(out)@ == old(out)@ + lit_tokens(lits@),
{
    let mut i: usize = 0;
    assert(lits@.subrange(0, lits@.len() as int) =~= lits@);
    while i < lits.len()
        invariant
            i <= lits@.len(),
            old(out)@ + lit_tokens(lits@) == out@ + lit_tokens(lits@.subrange(i as int, lits@.len() as int)),
        decreases lits@.len() - i,
    {
        let n: usize = if lits.len() - i < 128 { lits.len() - i } else { 128 };
        let ghost rest = lits@.subrange(i as int, lits@.len() as int);
        let ghost out0 = out@;
        out.push((n - 1) as u8);
        append_bytes(out, &lits[i..i + n]);
        assert(rest.subrange(0, n as int) =~= lits@.subrange(i as int, (i + n) as int));
        assert(rest.subrange(n as int, rest.len() as int) =~= lits@.subrange((i + n) as int, lits@.len() as int));
        assert(out@ =~= out0 + seq![(n - 1) as u8] + rest.subrange(0, n as int));
        i = i + n;
    }
    assert(lits@.subrange(i as int, lits@.len() as int) =~= Seq::<u8>::empty());
    assert(out@ + Seq::<u8>::empty() =~= out@);
}

fn encode_literals(data: &[u8]) -> (r: Vec<u8>)
    ensures
        r@ == lit_tokens(data@),
        lz_encodes(r@, data@),
{
    let mut r: Vec<u8> = Vec::new();
    emit_literals(data, &mut r);
    assert(r@ =~= lit_tokens(data@));
    proof {
        lemma_lit_tokens(data@, Seq::empty());
        assert(Seq::<u8>::empty() + data@ =~= data@);
    }
    r
}

fn emit_match(offset: usize, length: usize, out: &mut Vec<u8>)
    requires
        1 <= offset <= WINDOW_SIZE,
        MIN_MATCH <= length <= MAX_MATCH,
    ensures
        final(out)@ == old(out)@ + match_token(offset as int, length as int),
{
    let off = offset - 1;
    if off < 0x7F00 {
        out.push((0x80 + off / 256) as u8);
        out.push((off % 256) as u8);
        out.push((length - MIN_MATCH) as u8);
    } else {
        out.push(0xFF);
        out.push((off % 256) as u8);
        out.push((off / 256 % 256) as u8);
        out.push((off / 65536 % 256) as u8);
        out.push((length - MIN_MATCH) as u8);
    }
    assert(final(out)@ =~= old(out)@ + match_token(offset as int, length as int));
}

/// The hash of the four bytes at `pos`: their little-endian value times 2654435761 (wrapping),
/// bits 14 to 31; 0 when fewer than four bytes remain.
pub open spec fn hash4_of(d: Seq<u8>, pos: int) -> int {
    if d.len() < 4 || pos > d.len() - 4 {
        0
    } else {
        ((vstd::wrapping::u32_specs::wrapping_mul(crate::bytes::u32_at(d, pos), 2654435761u32) >> 14u32) & 0x3FFFFu32) as int
    }
}

pub(crate) fn hash4(data: &[u8], pos: usize) -> (h: usize)
    ensures
        h as int == hash4_of(data@, pos as int),
        h < HASH_SIZE,
{
    if data.len() < 4 || pos > data.len() - 4 {
        return 0;
    }
    let v = crate::bytes::read_u32_le(data, pos);
    let x: u32 = v.wrapping_mul(2654435761u32) >> 14u32;
    assert(x & 0x3FFFF < 0x40000) by (bit_vector);
    (x & 0x3FFFF) as usize
}

/// The hash of the three bytes at `i`: `b0 << 10 ^ b1 << 5 ^ b2`, low 15 bits.
pub open spec fn hash3_of(d: Seq<u8>, i: int) -> int {
    ((((d[i] as u32) << 10u32) ^ ((d[i + 1] as u32) << 5u32) ^ (d[i + 2] as u32)) & 0x7FFFu32) as int
}

fn hash3(data: &[u8], i: usize) -> (h: usize)
    requires
        i + 3 <= data@.len(),
    ensures
        h as int == hash3_of(data@, i as int),
        h < TURBO_HASH_SIZE,
{
    let x: u32 = ((data[i] as u32) << 10u32) ^ ((data[i + 1] as u32) << 5u32) ^ (data[i + 2] as u32);
    assert(x & 0x7FFF < 0x8000) by (bit_vector);
    (x & 0x7FFF) as usize
}

/// The result of a match search: no match, or a genuine match of at least `MIN_MATCH` bytes
/// within `window`.
pub open spec fn search_result(d: Seq<u8>, pos: int, window: int, r: (usize, usize)) -> bool {
    (r.0 == 0 && r.1 == 0) || (MIN_MATCH <= r.0 <= MAX_MATCH && r.1 <= window && is_match(
        d,
        pos,
        r.0 as int,
        r.1 as int,
    ))
}

/// How many bytes agree between positions `j + k ..` and `pos + k ..`, counting on from `k`,
/// up to `max`.
pub open spec fn common_len(d: Seq<u8>, j: int, pos: int, k: int, max: int) -> int
    decreases max - k,
{
    if k >= max || d[j + k] != d[pos + k] { k } else { common_len(d, j, pos, k + 1, max) }
}

/// The longest match that can start at `pos`: what remains of `d`, at most `MAX_MATCH`.
pub open spec fn match_cap(d: Seq<u8>, pos: int) -> int {
    if d.len() - pos < MAX_MATCH { d.len() - pos } else { MAX_MATCH as int }
}

/// The search along the chain from `cp`, with `left` links still allowed and `best` found so
/// far: each candidate before `pos` and not below `min_pos` is compared, a strictly longer
/// match of at least `MIN_MATCH` bytes replaces the best, and one of `nice` bytes ends the
/// search.
pub open spec fn chain_walk(d: Seq<u8>, pos: int, cp: u32, chain: Seq<u32>, min_pos: int, left: int, nice: int, best: (usize, usize)) -> (usize, usize)
    decreases left,
{
    if cp == u32::MAX || (cp as int) < min_pos || left <= 0 {
        best
    } else {
        let j = cp as int;
        let len = common_len(d, j, pos, 0, match_cap(d, pos));
        if j < pos && len >= MIN_MATCH && len > best.0 {
            let b2 = (len as usize, (pos - j) as usize);
            if len >= nice { b2 } else { chain_walk(d, pos, chain[j], chain, min_pos, left - 1, nice, b2) }
        } else {
            chain_walk(d, pos, chain[j], chain, min_pos, left - 1, nice, best)
        }
    }
}

/// The lowest position a chain search at `pos` looks back to.
pub open spec fn window_start(pos: int, window: int) -> int {
    if pos > window { pos - window } else { 0 }
}

/// Walks a hash chain from `first`, at most `max_depth` links and no further back than `window`,
/// and keeps the longest match of at least `MIN_MATCH` bytes; stops early at one of `nice` bytes.
fn search_chain(
    data: &[u8],
    pos: usize,
    first: u32,
    chain: &Vec<u32>,
    window: usize,
    max_depth: usize,
    nice: usize,
) -> (r: (usize, usize))
    requires
        pos + MIN_MATCH <= data@.len(),
        chain@.len() == data@.len(),
        first == u32::MAX || first < data@.len(),
        forall|k: int| 0 <= k < chain@.len() ==> #[trigger] chain@[k] == u32::MAX || chain@[k] < data@.len(),
        window <= WINDOW_SIZE,
    ensures
        r == chain_walk(data@, pos as int, first, chain@, window_start(pos as int, window as int), max_depth as int, nice as int, (0, 0)),
        search_result(data@, pos as int, window as int, r),
{
    let mut best_len: usize = 0;
    let mut best_off: usize = 0;
    let mut cp: u32 = first;
    let mut count: usize = 0;
    let min_pos: usize = if pos > window { pos - window } else { 0 };
    let ghost target = chain_walk(data@, pos as int, first, chain@, window_start(pos as int, window as int), max_depth as int, nice as int, (0, 0));
    while cp != u32::MAX && cp as usize >= min_pos && count < max_depth
        invariant_except_break
            chain_walk(data@, pos as int, cp, chain@, min_pos as int, (max_depth - count) as int, nice as int, (best_len, best_off)) == target,
        invariant
            pos + MIN_MATCH <= data@.len(),
            chain@.len() == data@.len(),
            cp == u32::MAX || cp < data@.len(),
            forall|k: int| 0 <= k < chain@.len() ==> #[trigger] chain@[k] == u32::MAX || chain@[k] < data@.len(),
            min_pos == window_start(pos as int, window as int),
            count <= max_depth,
            search_result(data@, pos as int, window as int, (best_len, best_off)),
        ensures
            search_result(data@, pos as int, window as int, (best_len, best_off)),
            (best_len, best_off) == target,
        decreases max_depth - count,
    {
        let j = cp as usize;
        let max_len: usize = if data.len() - pos < MAX_MATCH { data.len() - pos } else { MAX_MATCH };
        let mut len: usize = 0;
        if j < pos {
            while len < max_len
                invariant
                    j < pos,
                    pos + max_len <= data.len(),
                    max_len as int == match_cap(data@, pos as int),
                    len <= max_len,
                    forall|k: int| 0 <= k < len ==> #[trigger] data@[j + k] == data@[pos + k],
                    common_len(data@, j as int, pos as int, len as int, max_len as int)
                        == common_len(data@, j as int, pos as int, 0, max_len as int),
                ensures
                    len <= max_len,
                    forall|k: int| 0 <= k < len ==> #[trigger] data@[j + k] == data@[pos + k],
                    len as int == common_len(data@, j as int, pos as int, 0, max_len as int),
                decreases max_len - len,
            {
                if data[j + len] != data[pos + len] {
                    break;
                }
                len = len + 1;
            }
        }
        if j < pos && len >= MIN_MATCH && len > best_len {
            best_len = len;
            best_off = pos - j;
            assert(is_match(data@, pos as int, best_len as int, best_off as int)) by {
                assert forall|k: int| 0 <= k < best_len implies #[trigger] data@[pos - best_off + k] == data@[pos + k] by {
                    assert(data@[j + k] == data@[pos + k]);
                }
            }
            if len >= nice {
                break;
            }
        }
        cp = chain[j];
        count = count + 1;
    }
    (best_len, best_off)
}

/// What `find_match` finds at `pos` with chains of `depth` links: nothing when fewer than
/// `MIN_MATCH` bytes remain, else the chain search from the head of the position's hash, over
/// the whole window, ended early by a match as long as the input allows.
pub open spec fn match_found(d: Seq<u8>, pos: int, head: Seq<u32>, chain: Seq<u32>, depth: int) -> (usize, usize) {
    if pos >= d.len() || d.len() - pos < MIN_MATCH {
        (0, 0)
    } else {
        chain_walk(d, pos, head[hash4_of(d, pos)], chain, window_start(pos, WINDOW_SIZE as int), depth, match_cap(d, pos), (0, 0))
    }
}

/// Finds the longest match at `pos` along its hash chain (or none).
fn find_match(data: &[u8], pos: usize, head: &Vec<u32>, chain: &Vec<u32>, max_chain_depth: usize) -> (r: (usize, usize))
    requires
        head@.len() == HASH_SIZE,
        chain@.len() == data@.len(),
        tables_ok(head@, chain@, data@.len() as int),
    ensures
        r == match_found(data@, pos as int, head@, chain@, max_chain_depth as int),
        search_result(data@, pos as int, WINDOW_SIZE as int, r),
{
    if pos >= data.len() || data.len() - pos < MIN_MATCH {
        return (0, 0);
    }
    let h = hash4(data, pos);
    let max_len: usize = if data.len() - pos < MAX_MATCH { data.len() - pos } else { MAX_MATCH };
    search_chain(data, pos, head[h], chain, WINDOW_SIZE, max_chain_depth, max_len)
}

/// The encoder's tables after position `p` is entered under its 4-byte hash.
pub open spec fn lz_enter(d: Seq<u8>, p: int, head: Seq<u32>, chain: Seq<u32>) -> (Seq<u32>, Seq<u32>) {
    let h = hash4_of(d, p);
    (head.update(h, (p % 0x1_0000_0000) as u32), chain.update(p, head[h]))
}

/// The tables after entering the positions `i + k .. i + len` that have four bytes left.
pub open spec fn lz_enter_run(d: Seq<u8>, i: int, k: int, len: int, head: Seq<u32>, chain: Seq<u32>) -> (Seq<u32>, Seq<u32>)
    decreases len - k,
{
    if k >= len {
        (head, chain)
    } else {
        let t = if d.len() - (i + k) >= 4 { lz_enter(d, i + k, head, chain) } else { (head, chain) };
        lz_enter_run(d, i, k + 1, len, t.0, t.1)
    }
}

/// The tokens `lz_encode` writes from position `i`, with pending literals from `lit_start` and
/// tables `head`, `chain`: at each position the longest match along its chain is found (256
/// links) and the position entered; a match of at least `MIN_MATCH` bytes is taken unless,
/// with room for a match at the next position, the next position has one more than a byte
/// longer (found along 128 links) — then the position becomes a literal. A taken match flushes
/// the pending literals, is written, and enters the positions inside it. The remaining bytes
/// end as literals.
pub open spec fn encode_from(d: Seq<u8>, i: int, lit_start: int, head: Seq<u32>, chain: Seq<u32>) -> Seq<u8>
    decreases d.len() - i,
{
    if !(0 <= i < d.len()) {
        if 0 <= lit_start < d.len() { lit_tokens(d.subrange(lit_start, d.len() as int)) } else { Seq::empty() }
    } else {
        let m = match_found(d, i, head, chain, MAX_CHAIN as int);
        let t = lz_enter(d, i, head, chain);
        if m.0 >= MIN_MATCH && i + m.0 <= d.len() {
            let lazy = m.0 < MAX_MATCH && d.len() - i >= 1 + MIN_MATCH
                && match_found(d, i + 1, t.0, t.1, (MAX_CHAIN / 2) as int).0 > m.0 + 1;
            if !lazy {
                let pre = if i > lit_start { lit_tokens(d.subrange(lit_start, i)) } else { Seq::empty() };
                let t2 = lz_enter_run(d, i, 1, m.0 as int, t.0, t.1);
                pre + match_token(m.1 as int, m.0 as int) + encode_from(d, i + m.0, i + m.0, t2.0, t2.1)
            } else {
                encode_from(d, i + 1, lit_start, t.0, t.1)
            }
        } else {
            encode_from(d, i + 1, lit_start, t.0, t.1)
        }
    }
}

/// What `lz_encode` writes for `d`: literals alone below 8 bytes, else the lazy parse from
/// empty tables.
pub open spec fn lz_encoded(d: Seq<u8>) -> Seq<u8> {
    if d.len() < 8 {
        lit_tokens(d)
    } else {
        encode_from(d, 0, 0, Seq::new(HASH_SIZE as nat, |k: int| u32::MAX), Seq::new(d.len(), |k: int| 0u32))
    }
}

/// Hash-chain LZ77 encoder with lazy matching. The output decodes to the input.
pub fn lz_encode(data: &[u8]) -> (r: Vec<u8>)
    ensures
        lz_encodes(r@, data@),
        r@ == lz_encoded(data@),
        data@.len() < 8 ==> r@ == lit_tokens(data@),
{
    if data.len() < 8 {
        return encode_literals(data);
    }
    let n = data.len();
    let mut result: Vec<u8> = Vec::new();
    let mut head: Vec<u32> = vec![u32::MAX; HASH_SIZE];
    let mut chain: Vec<u32> = vec![0u32; n];
    let mut i: usize = 0;
    let mut lit_start: usize = 0;
    proof {
        assert(lz_run(result@, 0, Seq::empty()) == (Seq::<u8>::empty(), 0int));
        assert(data@.subrange(0, 0) =~= Seq::<u8>::empty());
        assert(head@ =~= Seq::new(HASH_SIZE as nat, |k: int| u32::MAX));
        assert(chain@ =~= Seq::new(n as nat, |k: int| 0u32));
        assert(result@ + encode_from(data@, 0, 0, head@, chain@) =~= lz_encoded(data@));
    }
    while i < n
        invariant
            8 <= n == data@.len(),
            lit_start <= i <= n,
            head@.len() == HASH_SIZE,
            chain@.len() == n,
            tables_ok(head@, chain@, n as int),
            lz_encodes(result@, data@.subrange(0, lit_start as int)),
            result@ + encode_from(data@, i as int, lit_start as int, head@, chain@) == lz_encoded(data@),
        decreases n - i,
    {
        let ghost r0 = result@;
        let ghost h0 = head@;
        let ghost c0 = chain@;
        let (best_len, best_off) = find_match(data, i, &head, &chain, MAX_CHAIN);
        let h = hash4(data, i);
        let prev_head = head[h];
        chain.set(i, prev_head);
        head.set(h, pos_u32(i));
        let ghost t = lz_enter(data@, i as int, h0, c0);
        assert(head@ =~= t.0 && chain@ =~= t.1);
        if best_len >= MIN_MATCH {
            let mut use_match = true;
            if best_len < MAX_MATCH && n - i >= 1 + MIN_MATCH {
                let (lazy_len, _lazy_off) = find_match(data, i + 1, &head, &chain, MAX_CHAIN / 2);
                if lazy_len > best_len + 1 {
                    use_match = false;
                }
            }
            if use_match {
                if i > lit_start {
                    let ghost before = result@;
                    emit_literals(&data[lit_start..i], &mut result);
                    proof {
                        let lits = data@.subrange(lit_start as int, i as int);
                        assert(data@.subrange(lit_start as int, i as int) == lits);
                        lemma_lit_tokens(lits, data@.subrange(0, lit_start as int));
                        assert(data@.subrange(0, lit_start as int) + lits =~= data@.subrange(0, i as int));
                        lemma_emit(before, lit_tokens(lits), data@.subrange(0, lit_start as int), data@.subrange(0, i as int));
                    }
                }
                let ghost before = result@;
                emit_match(best_off, best_len, &mut result);
                proof {
                    lemma_match_token(best_off as int, best_len as int, data@.subrange(0, i as int));
                    lemma_copy_match(data@, i as int, best_off as int, best_len as int);
                    lemma_emit(before, match_token(best_off as int, best_len as int), data@.subrange(0, i as int), data@.subrange(0, i + best_len));
                }
                let mut k: usize = 1;
                while k < best_len
                    invariant
                        8 <= n == data@.len(),
                        i + best_len <= n,
                        1 <= k,
                        head@.len() == HASH_SIZE,
                        chain@.len() == n,
                        tables_ok(head@, chain@, n as int),
                        lz_enter_run(data@, i as int, k as int, best_len as int, head@, chain@)
                            == lz_enter_run(data@, i as int, 1, best_len as int, t.0, t.1),
                    decreases best_len - k,
                {
                    let ghost hk0 = head@;
                    let ghost ck0 = chain@;
                    if n - (i + k) >= 4 {
                        let hk = hash4(data, i + k);
                        let prev = head[hk];
                        chain.set(i + k, prev);
                        head.set(hk, pos_u32(i + k));
                        assert(head@ =~= lz_enter(data@, i + k, hk0, ck0).0);
                        assert(chain@ =~= lz_enter(data@, i + k, hk0, ck0).1);
                    }
                    k = k + 1;
                }
                assert(lz_enter_run(data@, i as int, k as int, best_len as int, head@, chain@) == (head@, chain@));
                proof {
                    let pre = if i > lit_start { lit_tokens(data@.subrange(lit_start as int, i as int)) } else { Seq::<u8>::empty() };
                    assert(result@ =~= r0 + pre + match_token(best_off as int, best_len as int));
                }
                i = i + best_len;
                lit_start = i;
            } else {
                i = i + 1;
            }
        } else {
            i = i + 1;
        }
    }
    if lit_start < n {
        let ghost before = result@;
        emit_literals(&data[lit_start..n], &mut result);
        proof {
            let lits = data@.subrange(lit_start as int, n as int);
            lemma_lit_tokens(lits, data@.subrange(0, lit_start as int));
            assert(data@.subrange(0, lit_start as int) + lits =~= data@);
            lemma_emit(before, lit_tokens(lits), data@.subrange(0, lit_start as int), data@);
        }
    } else {
        assert(data@.subrange(0, lit_start as int) =~= data@);
        assert(result@ + Seq::<u8>::empty() =~= result@);
    }
    result
}

/// The fast encoder's tables after position `p` is entered under its 3-byte hash: the head
/// of its hash points at `p`, and `p` links to the previous head.
pub open spec fn turbo_enter(d: Seq<u8>, p: int, head: Seq<u32>, chain: Seq<u32>) -> (Seq<u32>, Seq<u32>) {
    let h = hash3_of(d, p);
    (head.update(h, (p % 0x1_0000_0000) as u32), chain.update(p, head[h]))
}

/// The tables after entering the positions `i + k .. i + len` that have three bytes left.
pub open spec fn turbo_enter_run(d: Seq<u8>, i: int, k: int, len: int, head: Seq<u32>, chain: Seq<u32>) -> (Seq<u32>, Seq<u32>)
    decreases len - k,
{
    if k >= len {
        (head, chain)
    } else {
        let t = if d.len() - (i + k) > 2 { turbo_enter(d, i + k, head, chain) } else { (head, chain) };
        turbo_enter_run(d, i, k + 1, len, t.0, t.1)
    }
}

/// The tokens the fast encoder writes from position `i`, with pending literals from
/// `lit_start` and tables `head`, `chain`: at each position with three bytes left, the chain
/// of its 3-byte hash is searched (depth 4, 32 KiB window, stopping at 8 bytes) and the
/// position entered; a match of at least `MIN_MATCH` bytes flushes the pending literals, is
/// written, enters the positions inside it when it is at most 4 bytes long, and is skipped;
/// else the position becomes a literal. The remaining bytes end as literals.
pub open spec fn turbo_from(d: Seq<u8>, i: int, lit_start: int, head: Seq<u32>, chain: Seq<u32>) -> Seq<u8>
    decreases d.len() - i,
{
    if !(0 <= i < d.len() && d.len() - i > 2) {
        if 0 <= lit_start < d.len() { lit_tokens(d.subrange(lit_start, d.len() as int)) } else { Seq::empty() }
    } else {
        let h = hash3_of(d, i);
        let m = chain_walk(d, i, head[h], chain, window_start(i, TURBO_WINDOW as int), TURBO_CHAIN_MAX as int, TURBO_NICE_LEN as int, (0, 0));
        let t = turbo_enter(d, i, head, chain);
        if m.0 >= MIN_MATCH && i + m.0 <= d.len() {
            let pre = if i > lit_start { lit_tokens(d.subrange(lit_start, i)) } else { Seq::empty() };
            let t2 = if m.0 <= TURBO_SKIP_INSERT { turbo_enter_run(d, i, 1, m.0 as int, t.0, t.1) } else { t };
            pre + match_token(m.1 as int, m.0 as int) + turbo_from(d, i + m.0, i + m.0, t2.0, t2.1)
        } else {
            turbo_from(d, i + 1, lit_start, t.0, t.1)
        }
    }
}

/// What `lz_turbo` writes for `d`: literals alone below 4 bytes, else the fast parse from
/// empty tables.
pub open spec fn turbo_encoded(d: Seq<u8>) -> Seq<u8> {
    if d.len() < 4 {
        lit_tokens(d)
    } else {
        turbo_from(d, 0, 0, Seq::new(TURBO_HASH_SIZE as nat, |k: int| u32::MAX), Seq::new(d.len(), |k: int| u32::MAX))
    }
}

proof fn lemma_common_len_run(d: Seq<u8>, k: int, max: int)
    requires
        0 <= k <= max,
        max + 1 <= d.len(),
        forall|i: int| 0 <= i < d.len() ==> #[trigger] d[i] == d[0],
    ensures
        common_len(d, 0, 1, k, max) == max,
    decreases max - k,
{
    if k < max {
        assert(d[0 + k] == d[0] && d[1 + k] == d[0]);
        lemma_common_len_run(d, k + 1, max);
    }
}

/// A run of 4 to 259 copies of one byte is coded by the fast encoder as that byte, as a
/// literal, and one match reaching back one byte for the rest of the run: 5 bytes, fewer than
/// the run itself from 6 bytes on.
pub proof fn lemma_turbo_run(d: Seq<u8>)
    requires
        4 <= d.len() <= 259,
        forall|i: int| 0 <= i < d.len() ==> #[trigger] d[i] == d[0],
    ensures
        turbo_encoded(d) == lit_tokens(d.take(1)) + match_token(1, d.len() - 1),
        turbo_encoded(d).len() == 5,
        d.len() >= 6 ==> turbo_encoded(d).len() < d.len(),
{
    let n = d.len() as int;
    let h0 = Seq::new(TURBO_HASH_SIZE as nat, |k: int| u32::MAX);
    let c0 = Seq::new(n as nat, |k: int| u32::MAX);
    let h = hash3_of(d, 0);
    let x: u32 = ((d[0] as u32) << 10u32) ^ ((d[1] as u32) << 5u32) ^ (d[2] as u32);
    assert((x & 0x7FFFu32) < 32768u32) by (bit_vector);
    assert(0 <= h < 32768);
    assert(d[1] == d[0] && d[2] == d[0] && d[3] == d[0]);
    assert(hash3_of(d, 1) == h);
    // position 0: empty tables, no match
    assert(h0[h] == u32::MAX);
    assert(chain_walk(d, 0, h0[h], c0, window_start(0, TURBO_WINDOW as int), TURBO_CHAIN_MAX as int, TURBO_NICE_LEN as int, (0usize, 0usize)) == (0usize, 0usize));
    let t = turbo_enter(d, 0, h0, c0);
    assert(turbo_from(d, 0, 0, h0, c0) == turbo_from(d, 1, 0, t.0, t.1));
    // position 1: the chain leads to position 0, a match of the rest of the run
    assert(t.0[h] == 0u32);
    assert(t.1[0] == u32::MAX);
    let cap = match_cap(d, 1);
    assert(cap == n - 1);
    lemma_common_len_run(d, 0, cap);
    assert(common_len(d, 0, 1, 0, cap) == n - 1);
    let b2 = ((n - 1) as usize, 1usize);
    assert(chain_walk(d, 1, t.1[0], t.1, 0, 3, TURBO_NICE_LEN as int, b2) == b2);
    let m = chain_walk(d, 1, t.0[h], t.1, window_start(1, TURBO_WINDOW as int), TURBO_CHAIN_MAX as int, TURBO_NICE_LEN as int, (0usize, 0usize));
    assert(m == b2);
    let t1 = turbo_enter(d, 1, t.0, t.1);
    let t2 = if m.0 <= TURBO_SKIP_INSERT { turbo_enter_run(d, 1, 1, m.0 as int, t1.0, t1.1) } else { t1 };
    assert(turbo_from(d, n, n, t2.0, t2.1) == Seq::<u8>::empty());
    assert(turbo_from(d, 1, 0, t.0, t.1) == lit_tokens(d.subrange(0, 1)) + match_token(1, n - 1) + Seq::<u8>::empty());
    assert(d.take(1) =~= d.subrange(0, 1));
    assert(lit_tokens(d.subrange(0, 1)).len() == 2) by {
        let l = d.subrange(0, 1);
        assert(l.subrange(1, 1) =~= Seq::<u8>::empty());
        assert(lit_tokens(Seq::<u8>::empty()) == Seq::<u8>::empty());
        assert(l.subrange(0, 1).len() == 1);
        assert(lit_tokens(l) == seq![0u8] + l.subrange(0, 1) + lit_tokens(l.subrange(1, 1)));
    }
    assert(lit_tokens(d.take(1)) + match_token(1, n - 1) + Seq::<u8>::empty() =~= lit_tokens(d.take(1)) + match_token(1, n - 1));
}

/// Fast LZ77 encoder: 3-byte hash, chains of depth 4 in a 32 KiB window, no lazy matching, and
/// no hash insertions inside matches longer than 4 bytes. Same token format as `lz_encode`.
pub fn lz_turbo(data: &[u8]) -> (r: Vec<u8>)
    ensures
        lz_encodes(r@, data@),
        r@ == turbo_encoded(data@),
        data@.len() < 4 ==> r@ == lit_tokens(data@),
{
    if data.len() < 4 {
        return encode_literals(data);
    }
    let n = data.len();
    let mut result: Vec<u8> = Vec::new();
    let mut head: Vec<u32> = vec![u32::MAX; TURBO_HASH_SIZE];
    let mut chain: Vec<u32> = vec![u32::MAX; n];
    let mut i: usize = 0;
    let mut lit_start: usize = 0;
    proof {
        assert(lz_run(result@, 0, Seq::empty()) == (Seq::<u8>::empty(), 0int));
        assert(data@.subrange(0, 0) =~= Seq::<u8>::empty());
        assert(head@ =~= Seq::new(TURBO_HASH_SIZE as nat, |k: int| u32::MAX));
        assert(chain@ =~= Seq::new(n as nat, |k: int| u32::MAX));
        assert(result@ + turbo_from(data@, 0, 0, head@, chain@) =~= turbo_encoded(data@));
    }
    while i < n && n - i > 2
        invariant
            4 <= n == data@.len(),
            lit_start <= i <= n,
            head@.len() == TURBO_HASH_SIZE,
            chain@.len() == n,
            tables_ok(head@, chain@, n as int),
            lz_encodes(result@, data@.subrange(0, lit_start as int)),
            result@ + turbo_from(data@, i as int, lit_start as int, head@, chain@) == turbo_encoded(data@),
        decreases n - i,
    {
        let ghost r0 = result@;
        let ghost h0 = head@;
        let ghost c0 = chain@;
        let h = hash3(data, i);
        let (best_len, best_off) = search_chain(data, i, head[h], &chain, TURBO_WINDOW, TURBO_CHAIN_MAX, TURBO_NICE_LEN);
        let prev_head = head[h];
        chain.set(i, prev_head);
        head.set(h, pos_u32(i));
        let ghost t = turbo_enter(data@, i as int, h0, c0);
        assert(head@ =~= t.0 && chain@ =~= t.1);
        if best_len >= MIN_MATCH {
            if i > lit_start {
                let ghost before = result@;
                emit_literals(&data[lit_start..i], &mut result);
                proof {
                    let lits = data@.subrange(lit_start as int, i as int);
                    lemma_lit_tokens(lits, data@.subrange(0, lit_start as int));
                    assert(data@.subrange(0, lit_start as int) + lits =~= data@.subrange(0, i as int));
                    lemma_emit(before, lit_tokens(lits), data@.subrange(0, lit_start as int), data@.subrange(0, i as int));
                }
            }
            let ghost before = result@;
            emit_match(best_off, best_len, &mut result);
            proof {
                lemma_match_token(best_off as int, best_len as int, data@.subrange(0, i as int));
                lemma_copy_match(data@, i as int, best_off as int, best_len as int);
                lemma_emit(before, match_token(best_off as int, best_len as int), data@.subrange(0, i as int), data@.subrange(0, i + best_len));
            }
            if best_len <= TURBO_SKIP_INSERT {
                let mut k: usize = 1;
                while k < best_len
                    invariant
                        4 <= n == data@.len(),
                        i + best_len <= n,
                        1 <= k,
                        head@.len() == TURBO_HASH_SIZE,
                        chain@.len() == n,
                        tables_ok(head@, chain@, n as int),
                        turbo_enter_run(data@, i as int, k as int, best_len as int, head@, chain@)
                            == turbo_enter_run(data@, i as int, 1, best_len as int, t.0, t.1),
                    decreases best_len - k,
                {
                    let ghost hk0 = head@;
                    let ghost ck0 = chain@;
                    if n - (i + k) > 2 {
                        let hk = hash3(data, i + k);
                        let prev = head[hk];
                        chain.set(i + k, prev);
                        head.set(hk, pos_u32(i + k));
                        assert(head@ =~= turbo_enter(data@, i + k, hk0, ck0).0);
                        assert(chain@ =~= turbo_enter(data@, i + k, hk0, ck0).1);
                    }
                    k = k + 1;
                }
                assert(turbo_enter_run(data@, i as int, k as int, best_len as int, head@, chain@) == (head@, chain@));
            }
            proof {
                let pre = if i > lit_start { lit_tokens(data@.subrange(lit_start as int, i as int)) } else { Seq::<u8>::empty() };
                assert(result@ =~= r0 + pre + match_token(best_off as int, best_len as int));
            }
            i = i + best_len;
            lit_start = i;
        } else {
            i = i + 1;
        }
    }
    if lit_start < n {
        let ghost before = result@;
        emit_literals(&data[lit_start..n], &mut result);
        proof {
            let lits = data@.subrange(lit_start as int, n as int);
            lemma_lit_tokens(lits, data@.subrange(0, lit_start as int));
            assert(data@.subrange(0, lit_start as int) + lits =~= data@);
            lemma_emit(before, lit_tokens(lits), data@.subrange(0, lit_start as int), data@);
        }
    } else {
        assert(data@.subrange(0, lit_start as int) =~= data@);
        assert(result@ + Seq::<u8>::empty() =~= result@);
    }
    result
}

/// An encoding made by `lz_encode` or `lz_turbo` decodes back to the data.
pub proof fn lemma_lz_roundtrip(tokens: Seq<u8>, data: Seq<u8>)
    requires
        lz_encodes(tokens, data),
    ensures
        lz_decoded(tokens) == data,
{
}

} // verus!
