//! Optimal-parsing LZ77 with split streams.
//!
//! A forward-arrivals parse picks, under a fixed bit-cost model, the cheapest sequence of
//! literals and matches (repeat-offset matches cost least). The tokens are then split into
//! streams:
//!
//! `[4-byte original length] [4-byte token count]
//! [token bits: 1 = match, least significant bit first] [literals]
//! [offsets: varints, 0 = repeat the last offset] [lengths: varints of length - 3]`.
//!
//! The token bits take `ceil(count / 8)` bytes; the bits say how many literals and offsets
//! follow, so the streams need no lengths of their own. Empty input gives eight zero bytes.
use vstd::prelude::*;
use crate::bytes::{le32, u32_at, push_u32_le, read_u32_le, append_bytes};
use crate::entropy::lz::{copy_from, copy_match_spec, is_match, tables_ok, hash4, lemma_copy_match};

verus! {

const MIN_MATCH: usize = 3;
const MAX_MATCH: usize = 258;
/// The farthest back a match reaches.
pub const WINDOW_SIZE: usize = 262143;
use crate::entropy::lz::HASH_SIZE;
const MAX_CHAIN: usize = 64;
const FAST_BYTES: usize = 64;

/// The largest input `compress` takes: the header stores the length in 32 bits, and the parse
/// keeps one more cost than there are bytes.
pub const MAX_OPTIMAL_INPUT: usize = 0xFFFF_FFFE;

/// A parsed token: a literal byte, or a match of `length` bytes `offset` back.
#[derive(Clone, Copy, Debug)]
pub enum Token {
    Literal(u8),
    Match { offset: u32, length: u16 },
}

// ---------------------------------------------------------------------------------------------
// Token semantics
// ---------------------------------------------------------------------------------------------

/// True when every match has an offset of at least 1 and a length in `3 ..= 258`.
pub open spec fn tokens_valid(toks: Seq<Token>) -> bool {
    forall|i: int| 0 <= i < toks.len() ==> match #[trigger] toks[i] {
        Token::Literal(_) => true,
        Token::Match { offset, length } => offset >= 1 && 3 <= length <= 258,
    }
}

/// `out` followed by what the tokens `toks[i..]` produce.
pub open spec fn apply_from(out: Seq<u8>, toks: Seq<Token>, i: int) -> Seq<u8>
    decreases toks.len() - i,
{
    if i < 0 || i >= toks.len() {
        out
    } else {
        let next = match toks[i] {
            Token::Literal(b) => out.push(b),
            Token::Match { offset, length } => copy_match_spec(out, offset as int, length as int),
        };
        apply_from(next, toks, i + 1)
    }
}

/// True when the valid tokens `toks` produce exactly `data`.
pub open spec fn spells(toks: Seq<Token>, data: Seq<u8>) -> bool {
    tokens_valid(toks) && apply_from(Seq::empty(), toks, 0) == data
}

// ---------------------------------------------------------------------------------------------
// Streams
// ---------------------------------------------------------------------------------------------

/// The base-128 varint of `v`, low group first, high bit set on all but the last byte.
pub open spec fn varint(v: nat) -> Seq<u8>
    decreases v,
{
    if v < 128 {
        seq![v as u8]
    } else {
        seq![(v % 128 + 128) as u8] + varint(v / 128)
    }
}

pub open spec fn is_match_token(t: Token) -> bool {
    t is Match
}

/// The token bits from `i` on, given a partial byte `buf` holding `cnt` bits.
pub open spec fn bits_from(toks: Seq<Token>, i: int, buf: u8, cnt: u8) -> Seq<u8>
    decreases toks.len() - i,
{
    if i < 0 || i >= toks.len() {
        if cnt > 0 { seq![buf] } else { Seq::empty() }
    } else {
        let b2: u8 = if is_match_token(toks[i]) { (buf | (1u8 << cnt)) as u8 } else { buf };
        if cnt + 1 == 8 {
            seq![b2] + bits_from(toks, i + 1, 0, 0)
        } else {
            bits_from(toks, i + 1, b2, (cnt + 1) as u8)
        }
    }
}

/// The literal bytes of `toks[i..]`.
pub open spec fn lits_from(toks: Seq<Token>, i: int) -> Seq<u8>
    decreases toks.len() - i,
{
    if i < 0 || i >= toks.len() {
        Seq::empty()
    } else {
        match toks[i] {
            Token::Literal(b) => seq![b] + lits_from(toks, i + 1),
            Token::Match { .. } => lits_from(toks, i + 1),
        }
    }
}

/// The offset varints of `toks[i..]`, where `last` is the offset of the previous match.
pub open spec fn offs_from(toks: Seq<Token>, i: int, last: u32) -> Seq<u8>
    decreases toks.len() - i,
{
    if i < 0 || i >= toks.len() {
        Seq::empty()
    } else {
        match toks[i] {
            Token::Literal(_) => offs_from(toks, i + 1, last),
            Token::Match { offset, .. } => if offset == last {
                varint(0) + offs_from(toks, i + 1, last)
            } else {
                varint(offset as nat) + offs_from(toks, i + 1, offset)
            },
        }
    }
}

/// The length varints of `toks[i..]`.
pub open spec fn lens_from(toks: Seq<Token>, i: int) -> Seq<u8>
    decreases toks.len() - i,
{
    if i < 0 || i >= toks.len() {
        Seq::empty()
    } else {
        match toks[i] {
            Token::Literal(_) => lens_from(toks, i + 1),
            Token::Match { length, .. } => varint((length - 3) as nat) + lens_from(toks, i + 1),
        }
    }
}

/// The packed form of the tokens of an input of length `n`.
pub open spec fn packed(n: int, toks: Seq<Token>) -> Seq<u8> {
    let bits = bits_from(toks, 0, 0, 0);
    let lits = lits_from(toks, 0);
    let offs = offs_from(toks, 0, 1);
    let lens = lens_from(toks, 0);
    le32(n as u32) + le32(toks.len() as u32) + bits + lits + offs + lens
}

/// What `compress` produces for `data` with the parse `toks`.
pub open spec fn compressed_with(data: Seq<u8>, toks: Seq<Token>) -> Seq<u8> {
    if data.len() == 0 {
        seq![0u8, 0u8, 0u8, 0u8, 0u8, 0u8, 0u8, 0u8]
    } else {
        packed(data.len() as int, toks)
    }
}

fn encode_varint(value: u64, out: &mut Vec<u8>)
    ensures
        final(out)@ == old(out)@ + varint(value as nat),
{
    let mut v = value;
    let ghost start = old(out)@;
    while v >= 128
        invariant
            start + varint(value as nat) == out@ + varint(v as nat),
        decreases v,
    {
        out.push((v % 128 + 128) as u8);
        v = v / 128;
    }
    out.push(v as u8);
    assert(start + varint(value as nat) =~= out@);
}

// ---------------------------------------------------------------------------------------------
// Cost model
// ---------------------------------------------------------------------------------------------

/// Bits of a varint of `value`.
fn varint_cost(value: u64) -> (r: u32)
    ensures
        r == (if value < 128 { 8u32 } else if value < 16384 { 16u32 } else if value < 2097152 { 24u32 } else { 32u32 }),
{
    if value < 128 {
        8
    } else if value < 16384 {
        16
    } else if value < 2097152 {
        24
    } else {
        32
    }
}

/// Bits of a literal: the byte and its flag.
fn literal_price(_byte: u8) -> (r: u32)
    ensures
        r == 9,
{
    9
}

/// Bits of a repeat-offset match: flag, repeat marker and length.
fn rep_match_price(length: usize) -> (r: u32)
    requires
        MIN_MATCH <= length,
    ensures
        r == 2 + (if length - 3 < 128 { 8int } else if length - 3 < 16384 { 16 } else if length - 3 < 2097152 { 24 } else { 32 }),
        r <= 34,
{
    2 + varint_cost((length - MIN_MATCH) as u64)
}

/// Bits of a match: a repeat-offset match when the offset is the current repeat offset,
/// else flag, offset and length.
fn match_price(offset: u32, length: usize, rep0: u32) -> (r: u32)
    requires
        MIN_MATCH <= length,
    ensures
        r <= 65,
        offset == rep0 ==> r == rep_match_price_spec(length as int),
        offset != rep0 ==> r == 1 + varint_cost_spec(offset as int) + varint_cost_spec(length - 3),
{
    if offset == rep0 {
        return rep_match_price(length);
    }
    1 + varint_cost(offset as u64) + varint_cost((length - MIN_MATCH) as u64)
}

pub open spec fn varint_cost_spec(v: int) -> int {
    if v < 128 { 8 } else if v < 16384 { 16 } else if v < 2097152 { 24 } else { 32 }
}

pub open spec fn rep_match_price_spec(length: int) -> int {
    2 + varint_cost_spec(length - 3)
}

/// Bits the cost model gives a token when the repeat offset is `rep0`: 9 for a literal; for a
/// match, a repeat-offset match when its offset is `rep0`, else flag, offset and length.
pub open spec fn token_price(t: Token, rep0: u32) -> int {
    match t {
        Token::Literal(_) => 9,
        Token::Match { offset, length } => if offset == rep0 {
            rep_match_price_spec(length as int)
        } else {
            1 + varint_cost_spec(offset as int) + varint_cost_spec(length - 3)
        },
    }
}

/// The price of `toks[i..]` under the cost model, with `rep0` the repeat offset before
/// `toks[i]`; each match makes its offset the repeat offset.
pub open spec fn parse_price(toks: Seq<Token>, i: int, rep0: u32) -> int
    decreases toks.len() - i,
{
    if i < 0 || i >= toks.len() {
        0
    } else {
        let next = match toks[i] {
            Token::Literal(_) => rep0,
            Token::Match { offset, .. } => offset,
        };
        token_price(toks[i], rep0) + parse_price(toks, i + 1, next)
    }
}

/// The price of spelling `data` with literals alone.
pub open spec fn literal_price_of(data: Seq<u8>) -> int {
    9 * data.len() as int
}

/// True when every match reaches back at most `WINDOW_SIZE` bytes.
pub open spec fn tokens_in_window(toks: Seq<Token>) -> bool {
    forall|i: int| 0 <= i < toks.len() ==> match #[trigger] toks[i] {
        Token::Literal(_) => true,
        Token::Match { offset, .. } => offset <= WINDOW_SIZE,
    }
}

// ---------------------------------------------------------------------------------------------
// Parsing
// ---------------------------------------------------------------------------------------------

/// How the cheapest known path arrives at a position.
#[derive(Clone, Copy)]
struct Arrival {
    from: u32,
    offset: u32,
    length: u16,
    rep0: u32,
}

/// The arrival at `p` describes a token that covers `from .. p`.
spec fn arrival_ok(data: Seq<u8>, a: Arrival, p: int) -> bool {
    &&& a.from < p
    &&& if a.length == 0 {
        a.from + 1 == p
    } else {
        &&& 3 <= a.length <= 258
        &&& a.from + a.length == p
        &&& 1 <= a.offset <= WINDOW_SIZE
        &&& is_match(data, a.from as int, a.length as int, a.offset as int)
    }
}

/// The price of the token an arrival records, when the repeat offset before it is `rep0`.
spec fn step_price(a: Arrival, rep0: u32) -> int {
    if a.length == 0 { 9 } else { token_price(Token::Match { offset: a.offset, length: a.length }, rep0) }
}

/// The arrival at `p` comes from a position at most `i`, and its cost and repeat offset are
/// those of the arrival it comes from, moved on by its token.
spec fn step_ok(cost: Seq<u64>, arr: Seq<Arrival>, p: int, i: int) -> bool {
    let a = arr[p];
    let f = a.from as int;
    &&& f <= i
    &&& cost[p] == cost[f] + step_price(a, arr[f].rep0)
    &&& a.rep0 == (if a.length == 0 { arr[f].rep0 } else { a.offset })
}

/// Every reached position holds the price of the path read back from it.
spec fn paths_ok(cost: Seq<u64>, arr: Seq<Arrival>, i: int) -> bool {
    &&& cost.len() == arr.len() >= 1
    &&& cost[0] == 0
    &&& arr[0].rep0 == 1
    &&& forall|p: int| 0 <= p < cost.len() && (p == 0 || cost[p] != u64::MAX) ==> 1 <= #[trigger] arr[p].rep0 <= WINDOW_SIZE
    &&& forall|p: int| 1 <= p < cost.len() && cost[p] != u64::MAX ==> #[trigger] step_ok(cost, arr, p, i)
}

proof fn lemma_paths_next(cost: Seq<u64>, arr: Seq<Arrival>, i: int)
    requires
        paths_ok(cost, arr, i),
    ensures
        paths_ok(cost, arr, i + 1),
{
    assert forall|p: int| 1 <= p < cost.len() && cost[p] != u64::MAX implies #[trigger] step_ok(cost, arr, p, i + 1) by {
        assert(step_ok(cost, arr, p, i));
    }
}

spec fn arrivals_ok(data: Seq<u8>, cost: Seq<u64>, arr: Seq<Arrival>) -> bool {
    forall|p: int| 1 <= p < cost.len() && cost[p] != u64::MAX ==> #[trigger] arrival_ok(data, arr[p], p)
}

spec fn costs_bounded(cost: Seq<u64>, i: int) -> bool {
    &&& forall|p: int| 0 <= p <= i && p < cost.len() ==> #[trigger] cost[p] != u64::MAX && cost[p] <= 9 * p
    &&& forall|p: int| i < p < cost.len() ==> #[trigger] cost[p] == u64::MAX || cost[p] <= 9 * i + 100
}

/// Records an arrival at `p` from `i` when it is cheaper than the one known.
fn relax(cost: &mut Vec<u64>, arrivals: &mut Vec<Arrival>, p: usize, c: u64, a: Arrival, Ghost(data): Ghost<Seq<u8>>, Ghost(i): Ghost<int>)
    requires
        old(cost)@.len() == old(arrivals)@.len(),
        0 <= i < p < old(cost)@.len(),
        i <= MAX_OPTIMAL_INPUT,
        c <= 9 * i + 100,
        arrival_ok(data, a, p as int),
        arrivals_ok(data, old(cost)@, old(arrivals)@),
        costs_bounded(old(cost)@, i),
        paths_ok(old(cost)@, old(arrivals)@, i),
        a.from == i,
        c == old(cost)@[i] + step_price(a, old(arrivals)@[i].rep0),
        a.rep0 == (if a.length == 0 { old(arrivals)@[i].rep0 } else { a.offset }),
        1 <= a.rep0 <= WINDOW_SIZE,
    ensures
        final(cost)@.len() == old(cost)@.len(),
        final(arrivals)@.len() == old(arrivals)@.len(),
        arrivals_ok(data, final(cost)@, final(arrivals)@),
        costs_bounded(final(cost)@, i),
        paths_ok(final(cost)@, final(arrivals)@, i),
        final(cost)@[p as int] <= c,
        forall|q: int| 0 <= q < old(cost)@.len() && q != p ==> final(cost)@[q] == old(cost)@[q],
        forall|q: int| 0 <= q < old(cost)@.len() && q != p ==> final(arrivals)@[q] == old(arrivals)@[q],
        forall|q: int| 0 <= q < old(cost)@.len() ==> final(cost)@[q] <= old(cost)@[q],
{
    if c < cost[p] {
        cost.set(p, c);
        arrivals.set(p, a);
        assert forall|q: int| i < q < cost@.len() implies #[trigger] cost@[q] == u64::MAX || cost@[q] <= 9 * i + 100 by {
            if q != p {
                assert(cost@[q] == old(cost)@[q]);
            }
        }
        assert forall|q: int| 0 <= q <= i && q < cost@.len() implies #[trigger] cost@[q] != u64::MAX && cost@[q] <= 9 * q by {
            assert(cost@[q] == old(cost)@[q]);
        }
        assert forall|q: int| 1 <= q < cost@.len() && cost@[q] != u64::MAX implies #[trigger] arrival_ok(data, arrivals@[q], q) by {
            if q != p {
                assert(cost@[q] == old(cost)@[q]);
                assert(arrivals@[q] == old(arrivals)@[q]);
            }
        }
        assert forall|q: int| 0 <= q < cost@.len() && (q == 0 || cost@[q] != u64::MAX) implies 1 <= #[trigger] arrivals@[q].rep0 <= WINDOW_SIZE by {
            if q != p {
                assert(arrivals@[q] == old(arrivals)@[q]);
            }
        }
        assert forall|q: int| 1 <= q < cost@.len() && cost@[q] != u64::MAX implies #[trigger] step_ok(cost@, arrivals@, q, i) by {
            if q != p {
                assert(step_ok(old(cost)@, old(arrivals)@, q, i));
                let f = old(arrivals)@[q].from as int;
                assert(arrivals@[q] == old(arrivals)@[q]);
                assert(cost@[f] == old(cost)@[f]);
                assert(arrivals@[f] == old(arrivals)@[f]);
            } else {
                assert(cost@[i] == old(cost)@[i]);
                assert(arrivals@[i] == old(arrivals)@[i]);
            }
        }
    }
}

/// The forward-arrivals parse: for each position, in order, every literal and match leaving it
/// is tried against the cheapest known arrival at its end; the cheapest path to the end is then
/// read back. The parse spells the input, its matches reach back at most `WINDOW_SIZE` bytes,
/// and its price is the cost recorded at the end, which is at most that of literals alone.
fn optimal_parse(data: &[u8]) -> (toks: Vec<Token>)
    requires
        data@.len() <= MAX_OPTIMAL_INPUT,
    ensures
        spells(toks@, data@),
        tokens_in_window(toks@),
        parse_price(toks@, 0, 1) <= literal_price_of(data@),
{
    let n = data.len();
    if n == 0 {
        let v: Vec<Token> = Vec::new();
        assert(apply_from(Seq::empty(), v@, 0) =~= data@);
        assert(parse_price(v@, 0, 1) == 0);
        return v;
    }
    let mut head: Vec<u32> = vec![u32::MAX; HASH_SIZE];
    let mut chain: Vec<u32> = vec![u32::MAX; n];
    let mut cost: Vec<u64> = vec![u64::MAX; n + 1];
    cost.set(0, 0);
    let init = Arrival { from: 0, offset: 0, length: 0, rep0: 1 };
    let mut arrivals: Vec<Arrival> = vec![init; n + 1];
    let mut i: usize = 0;
    while i < n
        invariant
            n == data@.len() <= MAX_OPTIMAL_INPUT,
            i <= n,
            head@.len() == HASH_SIZE,
            chain@.len() == n,
            tables_ok(head@, chain@, n as int),
            cost@.len() == n + 1,
            arrivals@.len() == n + 1,
            arrivals_ok(data@, cost@, arrivals@),
            costs_bounded(cost@, i as int),
            paths_ok(cost@, arrivals@, i as int),
        decreases n - i,
    {
        if cost[i] == u64::MAX {
            proof { lemma_paths_next(cost@, arrivals@, i as int); }
            i = i + 1;
            continue;
        }
        let ci = cost[i];
        let cur_rep0 = arrivals[i].rep0;
        assert(1 <= arrivals@[i as int].rep0 <= WINDOW_SIZE);
        let lit_cost = ci + literal_price(data[i]) as u64;
        relax(&mut cost, &mut arrivals, i + 1, lit_cost, Arrival { from: i as u32, offset: 0, length: 0, rep0: cur_rep0 }, Ghost(data@), Ghost(i as int));
        if n - i >= MIN_MATCH {
            let h = hash4(data, i);
            if cur_rep0 > 0 && cur_rep0 as usize <= i {
                let rep_start = i - cur_rep0 as usize;
                let mut rep_len: usize = 0;
                while rep_len < n - i && rep_len < MAX_MATCH
                    invariant
                        i < n <= data.len(),
                        rep_start < i,
                        rep_start == i - cur_rep0,
                        rep_len <= n - i,
                        rep_len <= MAX_MATCH,
                        forall|k: int| 0 <= k < rep_len ==> #[trigger] data@[rep_start + k] == data@[i + k],
                    ensures
                        rep_len <= n - i,
                        rep_len <= MAX_MATCH,
                        forall|k: int| 0 <= k < rep_len ==> #[trigger] data@[rep_start + k] == data@[i + k],
                    decreases MAX_MATCH - rep_len,
                {
                    if data[rep_start + rep_len] != data[i + rep_len] {
                        break;
                    }
                    rep_len = rep_len + 1;
                }
                if rep_len >= MIN_MATCH {
                    let rep_cost = ci + rep_match_price(rep_len) as u64;
                    proof {
                        assert(is_match(data@, i as int, rep_len as int, cur_rep0 as int)) by {
                            assert forall|k: int| 0 <= k < rep_len implies #[trigger] data@[i - cur_rep0 + k] == data@[i + k] by {
                                assert(data@[rep_start + k] == data@[i + k]);
                            }
                        }
                    }
                    relax(&mut cost, &mut arrivals, i + rep_len, rep_cost,
                        Arrival { from: i as u32, offset: cur_rep0, length: rep_len as u16, rep0: cur_rep0 },
                        Ghost(data@), Ghost(i as int));
                }
            }
            let mut chain_pos: u32 = head[h];
            let mut chain_count: usize = 0;
            let min_pos: usize = if i > WINDOW_SIZE { i - WINDOW_SIZE } else { 0 };
            while chain_pos != u32::MAX && chain_pos as usize >= min_pos && chain_count < MAX_CHAIN
                invariant
                    n == data@.len() <= MAX_OPTIMAL_INPUT,
                    i < n,
                    n - i >= MIN_MATCH,
                    ci == cost@[i as int],
                    ci <= 9 * i,
                    cost@[i + 1] <= 9 * i + 9,
                    chain@.len() == n,
                    tables_ok(head@, chain@, n as int),
                    chain_pos == u32::MAX || chain_pos < n,
                    cost@.len() == n + 1,
                    arrivals@.len() == n + 1,
                    arrivals_ok(data@, cost@, arrivals@),
                    costs_bounded(cost@, i as int),
                    paths_ok(cost@, arrivals@, i as int),
                    arrivals@[i as int].rep0 == cur_rep0,
                    min_pos == (if i > WINDOW_SIZE { i - WINDOW_SIZE } else { 0 }),
                decreases MAX_CHAIN - chain_count,
            {
                let j = chain_pos as usize;
                if j < i {
                    let max_len: usize = if n - i < MAX_MATCH { n - i } else { MAX_MATCH };
                    let mut len: usize = 0;
                    while len < max_len
                        invariant
                            j < i,
                            i + max_len <= data.len(),
                            len <= max_len,
                            forall|k: int| 0 <= k < len ==> #[trigger] data@[j + k] == data@[i + k],
                        ensures
                            len <= max_len,
                            forall|k: int| 0 <= k < len ==> #[trigger] data@[j + k] == data@[i + k],
                        decreases max_len - len,
                    {
                        if data[j + len] != data[i + len] {
                            break;
                        }
                        len = len + 1;
                    }
                    if len >= MIN_MATCH {
                        let offset = (i - j) as u32;
                        assert(1 <= offset <= WINDOW_SIZE);
                        proof {
                            assert forall|l: int| 0 <= l <= len implies is_match(data@, i as int, l, offset as int) by {
                                assert forall|k: int| 0 <= k < l implies #[trigger] data@[i - offset + k] == data@[i + k] by {
                                    assert(data@[j + k] == data@[i + k]);
                                }
                            }
                        }
                        if len >= FAST_BYTES {
                            let match_cost = ci + match_price(offset, len, cur_rep0) as u64;
                            relax(&mut cost, &mut arrivals, i + len, match_cost,
                                Arrival { from: i as u32, offset, length: len as u16, rep0: offset },
                                Ghost(data@), Ghost(i as int));
                            break;
                        }
                        let mut ml: usize = MIN_MATCH;
                        while ml <= len
                            invariant
                                n == data@.len() <= MAX_OPTIMAL_INPUT,
                                i < n,
                                cost@[i + 1] <= 9 * i + 9,
                                MIN_MATCH <= ml,
                                len <= max_len,
                                i + max_len <= n,
                                max_len <= MAX_MATCH,
                                ci == cost@[i as int],
                                ci <= 9 * i,
                                len <= MAX_MATCH,
                                forall|l: int| 0 <= l <= len ==> is_match(data@, i as int, l, offset as int),
                                cost@.len() == n + 1,
                                arrivals@.len() == n + 1,
                                arrivals_ok(data@, cost@, arrivals@),
                                costs_bounded(cost@, i as int),
                                paths_ok(cost@, arrivals@, i as int),
                                arrivals@[i as int].rep0 == cur_rep0,
                                1 <= offset <= WINDOW_SIZE,
                            decreases len + 1 - ml,
                        {
                            let match_cost = ci + match_price(offset, ml, cur_rep0) as u64;
                            assert(is_match(data@, i as int, ml as int, offset as int));
                            relax(&mut cost, &mut arrivals, i + ml, match_cost,
                                Arrival { from: i as u32, offset, length: ml as u16, rep0: offset },
                                Ghost(data@), Ghost(i as int));
                            ml = ml + 1;
                        }
                    }
                }
                chain_pos = chain[j];
                chain_count = chain_count + 1;
            }
            let prev = head[h];
            chain.set(i, prev);
            head.set(h, i as u32);
        } else {
            if n - i >= 4 {
                let h = hash4(data, i);
                let prev = head[h];
                chain.set(i, prev);
                head.set(h, i as u32);
            }
        }
        proof { lemma_paths_next(cost@, arrivals@, i as int); }
        i = i + 1;
    }
    // read the cheapest path back, last token first
    let mut rev: Vec<Token> = Vec::new();
    let mut pos: usize = n;
    assert(data@.subrange(0, n as int) =~= data@);
    while pos > 0
        invariant
            n == data@.len(),
            pos <= n,
            cost@.len() == n + 1,
            arrivals@.len() == n + 1,
            arrivals_ok(data@, cost@, arrivals@),
            costs_bounded(cost@, n as int),
            tokens_valid(rev@),
            tokens_in_window(rev@),
            apply_from(data@.subrange(0, pos as int), rev@.reverse(), 0) == data@,
            paths_ok(cost@, arrivals@, n as int),
            cost@[pos as int] + parse_price(rev@.reverse(), 0, arrivals@[pos as int].rep0) == cost@[n as int],
        decreases pos,
    {
        let arr = arrivals[pos];
        assert(arrival_ok(data@, arr, pos as int));
        let from = arr.from as usize;
        let t = if arr.length > 0 {
            Token::Match { offset: arr.offset, length: arr.length }
        } else {
            Token::Literal(data[from])
        };
        let ghost before = rev@;
        rev.push(t);
        proof {
            let pre = data@.subrange(0, from as int);
            if arr.length > 0 {
                lemma_copy_match(data@, from as int, arr.offset as int, arr.length as int);
            } else {
                assert(pre.push(data@[from as int]) =~= data@.subrange(0, pos as int));
            }
            assert(rev@.reverse() =~= seq![t] + before.reverse());
            lemma_apply_cons(pre, t, before.reverse());
            assert(pos == n || cost@[pos as int] != u64::MAX);
            assert(step_ok(cost@, arrivals@, pos as int, n as int));
            lemma_price_cons(t, before.reverse(), arrivals@[from as int].rep0);
            assert forall|q: int| 0 <= q < rev@.len() implies match #[trigger] rev@[q] {
                Token::Literal(_) => true,
                Token::Match { offset, .. } => offset <= WINDOW_SIZE,
            } by {
                if q < before.len() {
                    assert(rev@[q] == before[q]);
                }
            }
            assert forall|q: int| 0 <= q < rev@.len() implies match #[trigger] rev@[q] {
                Token::Literal(_) => true,
                Token::Match { offset, length } => offset >= 1 && 3 <= length <= 258,
            } by {
                if q < before.len() {
                    assert(rev@[q] == before[q]);
                }
            }
        }
        pos = from;
    }
    let mut toks: Vec<Token> = Vec::new();
    let mut k: usize = rev.len();
    while k > 0
        invariant
            k <= rev@.len(),
            toks@ == rev@.subrange(k as int, rev@.len() as int).reverse(),
        decreases k,
    {
        k = k - 1;
        toks.push(rev[k]);
        assert(rev@.subrange(k as int, rev@.len() as int).reverse() =~= rev@.subrange(k + 1, rev@.len() as int).reverse().push(rev@[k as int]));
    }
    proof {
        assert(rev@.subrange(0, rev@.len() as int) =~= rev@);
        assert(data@.subrange(0, 0) =~= Seq::<u8>::empty());
        assert forall|q: int| 0 <= q < toks@.len() implies match #[trigger] toks@[q] {
            Token::Literal(_) => true,
            Token::Match { offset, length } => offset >= 1 && 3 <= length <= 258,
        } by {
            assert(toks@[q] == rev@[rev@.len() - 1 - q]);
        }
        assert forall|q: int| 0 <= q < toks@.len() implies match #[trigger] toks@[q] {
            Token::Literal(_) => true,
            Token::Match { offset, .. } => offset <= WINDOW_SIZE,
        } by {
            assert(toks@[q] == rev@[rev@.len() - 1 - q]);
        }
        assert(toks@ =~= rev@.reverse());
    }
    toks
}

/// The price of a token in front of `rest` is its own price plus that of `rest` after it.
proof fn lemma_price_cons(t: Token, rest: Seq<Token>, rep0: u32)
    ensures
        parse_price(seq![t] + rest, 0, rep0) == token_price(t, rep0) + parse_price(rest, 0, match t {
            Token::Literal(_) => rep0,
            Token::Match { offset, .. } => offset,
        }),
{
    let next = match t {
        Token::Literal(_) => rep0,
        Token::Match { offset, .. } => offset,
    };
    assert((seq![t] + rest)[0] == t);
    lemma_price_shift(t, rest, 0, next);
}

proof fn lemma_price_shift(t: Token, rest: Seq<Token>, k: int, r: u32)
    requires
        0 <= k,
    ensures
        parse_price(seq![t] + rest, k + 1, r) == parse_price(rest, k, r),
    decreases rest.len() - k,
{
    let all = seq![t] + rest;
    if k < rest.len() {
        assert(all[k + 1] == rest[k]);
        let next = match rest[k] {
            Token::Literal(_) => r,
            Token::Match { offset, .. } => offset,
        };
        lemma_price_shift(t, rest, k + 1, next);
    }
}

/// Applying a token and then the rest is applying the sequence with the token in front.
proof fn lemma_apply_cons(out: Seq<u8>, t: Token, rest: Seq<Token>)
    ensures
        apply_from(out, seq![t] + rest, 0) == apply_from(
            match t {
                Token::Literal(b) => out.push(b),
                Token::Match { offset, length } => copy_match_spec(out, offset as int, length as int),
            },
            rest,
            0,
        ),
{
    let next = match t {
        Token::Literal(b) => out.push(b),
        Token::Match { offset, length } => copy_match_spec(out, offset as int, length as int),
    };
    lemma_apply_shift(next, t, rest, 0);
}

proof fn lemma_apply_shift(out: Seq<u8>, t: Token, rest: Seq<Token>, k: int)
    requires
        0 <= k,
    ensures
        apply_from(out, seq![t] + rest, k + 1) == apply_from(out, rest, k),
    decreases rest.len() - k,
{
    let all = seq![t] + rest;
    if k < rest.len() {
        assert(all[k + 1] == rest[k]);
        let next = match rest[k] {
            Token::Literal(b) => out.push(b),
            Token::Match { offset, length } => copy_match_spec(out, offset as int, length as int),
        };
        lemma_apply_shift(next, t, rest, k + 1);
    }
}

// ---------------------------------------------------------------------------------------------
// Compression
// ---------------------------------------------------------------------------------------------

/// Compresses with the optimal parse and split streams. The output is the packing of a valid
/// parse that spells the input, whose matches stay in the window and whose price is no more
/// than that of literals alone.
pub fn compress(data: &[u8]) -> (r: Vec<u8>)
    requires
        data@.len() <= MAX_OPTIMAL_INPUT,
    ensures
        exists|toks: Seq<Token>| #[trigger] spells(toks, data@) && r@ == compressed_with(data@, toks)
            && tokens_in_window(toks) && parse_price(toks, 0, 1) <= literal_price_of(data@),
        lzo_framed(r@),
        lzo_decompressed(r@) == Some(data@),
{
    if data.len() == 0 {
        let r: Vec<u8> = vec![0u8; 8];
        assert(r@ =~= seq![0u8, 0u8, 0u8, 0u8, 0u8, 0u8, 0u8, 0u8]);
        assert(spells(Seq::<Token>::empty(), data@)) by {
            assert(apply_from(Seq::empty(), Seq::<Token>::empty(), 0) =~= data@);
        }
        assert(r@ == compressed_with(data@, Seq::<Token>::empty()));
        assert(parse_price(Seq::<Token>::empty(), 0, 1) == 0);
        proof { lemma_lzo_roundtrip(data@, Seq::<Token>::empty()); }
        return r;
    }
    let tokens = optimal_parse(data);
    let mut token_bits: Vec<u8> = Vec::new();
    let mut literal_stream: Vec<u8> = Vec::new();
    let mut offset_stream: Vec<u8> = Vec::new();
    let mut length_stream: Vec<u8> = Vec::new();
    let mut bit_buffer: u8 = 0;
    let mut bit_count: u8 = 0;
    let mut last_offset: u32 = 1;
    let ghost toks = tokens@;
    let mut t: usize = 0;
    while t < tokens.len()
        invariant
            toks == tokens@,
            tokens_valid(toks),
            t <= toks.len(),
            bit_count < 8,
            token_bits@ + bits_from(toks, t as int, bit_buffer, bit_count) == bits_from(toks, 0, 0, 0),
            literal_stream@ + lits_from(toks, t as int) == lits_from(toks, 0),
            offset_stream@ + offs_from(toks, t as int, last_offset) == offs_from(toks, 0, 1),
            length_stream@ + lens_from(toks, t as int) == lens_from(toks, 0),
        decreases toks.len() - t,
    {
        let ghost bits0 = token_bits@;
        let ghost buf0 = bit_buffer;
        let ghost cnt0 = bit_count;
        match tokens[t] {
            Token::Literal(byte) => {
                bit_count = bit_count + 1;
                if bit_count == 8 {
                    token_bits.push(bit_buffer);
                    bit_buffer = 0;
                    bit_count = 0;
                }
                literal_stream.push(byte);
                assert(literal_stream@ + lits_from(toks, t + 1) =~= lits_from(toks, 0)) by {
                    assert(lits_from(toks, t as int) == seq![byte] + lits_from(toks, t + 1));
                }
            },
            Token::Match { offset, length } => {
                bit_buffer = bit_buffer | (1u8 << bit_count);
                bit_count = bit_count + 1;
                if bit_count == 8 {
                    token_bits.push(bit_buffer);
                    bit_buffer = 0;
                    bit_count = 0;
                }
                let ghost off0 = offset_stream@;
                if offset == last_offset {
                    encode_varint(0, &mut offset_stream);
                } else {
                    encode_varint(offset as u64, &mut offset_stream);
                    last_offset = offset;
                }
                assert(offset_stream@ + offs_from(toks, t + 1, last_offset) =~= offs_from(toks, 0, 1));
                let ghost len0 = length_stream@;
                assert(3 <= length) by {
                    assert(match toks[t as int] {
                        Token::Literal(_) => true,
                        Token::Match { offset, length } => offset >= 1 && 3 <= length <= 258,
                    });
                }
                encode_varint((length - 3) as u64, &mut length_stream);
                assert(length_stream@ + lens_from(toks, t + 1) =~= lens_from(toks, 0));
            },
        }
        proof {
            if cnt0 + 1 == 8 {
                assert(token_bits@ + bits_from(toks, t + 1, bit_buffer, bit_count) =~= bits_from(toks, 0, 0, 0));
            }
        }
        t = t + 1;
    }
    if bit_count > 0 {
        token_bits.push(bit_buffer);
    }
    proof {
        assert(token_bits@ =~= bits_from(toks, 0, 0, 0));
        assert(literal_stream@ =~= lits_from(toks, 0));
        assert(offset_stream@ =~= offs_from(toks, 0, 1));
        assert(length_stream@ =~= lens_from(toks, 0));
    }
    let mut result: Vec<u8> = Vec::new();
    push_u32_le(&mut result, data.len() as u32);
    push_u32_le(&mut result, tokens.len() as u32);
    append_bytes(&mut result, token_bits.as_slice());
    append_bytes(&mut result, literal_stream.as_slice());
    append_bytes(&mut result, offset_stream.as_slice());
    append_bytes(&mut result, length_stream.as_slice());
    assert(result@ =~= compressed_with(data@, toks));
    proof { lemma_lzo_roundtrip(data@, toks); }
    result
}

// ---------------------------------------------------------------------------------------------
// Decompression
// ---------------------------------------------------------------------------------------------

/// Decodes a varint at `pos` of `d` into `value`, whose next group goes at bit `shift`; stops
/// at a byte without the high bit, at 64 bits, or at the end of `d`. Returns the value and the
/// position after it.
pub open spec fn varint_from(d: Seq<u8>, pos: int, value: u64, shift: u64) -> (u64, int)
    decreases d.len() - pos,
{
    if pos < 0 || pos >= d.len() || shift >= 64 {
        (value, pos)
    } else {
        let b = d[pos];
        let v2 = value | (((b & 0x7F) as u64) << shift);
        if b & 0x80 == 0 || shift + 7 >= 64 {
            (v2, pos + 1)
        } else {
            varint_from(d, pos + 1, v2, (shift + 7) as u64)
        }
    }
}

fn decode_varint(data: &[u8], pos: usize) -> (r: (u64, usize))
    ensures
        (r.0, r.1 as int) == varint_from(data@, pos as int, 0, 0),
{
    let mut value: u64 = 0;
    let mut shift: u64 = 0;
    let mut p = pos;
    loop
        invariant_except_break
            shift < 64,
            varint_from(data@, p as int, value, shift) == varint_from(data@, pos as int, 0, 0),
        ensures
            (value, p as int) == varint_from(data@, pos as int, 0, 0),
        decreases data.len() - p,
    {
        if p >= data.len() {
            break;
        }
        let byte = data[p];
        value = value | (((byte & 0x7F) as u64) << shift);
        p = p + 1;
        if byte & 0x80 == 0 || shift + 7 >= 64 {
            break;
        }
        shift = shift + 7;
    }
    (value, p)
}

/// The period of the copy of a match with `offset` (at least 1).
pub open spec fn period(offset: int) -> int {
    if offset < 1 { 1 } else { offset }
}

/// Decodes tokens `i .. ntok` into `out`. `None` where a match length does not fit in a `usize`.
pub open spec fn lzo_run(
    tb: Seq<u8>,
    lits: Seq<u8>,
    offs: Seq<u8>,
    lens: Seq<u8>,
    i: int,
    ntok: int,
    lp: int,
    op: int,
    lnp: int,
    last: u32,
    out: Seq<u8>,
) -> Option<Seq<u8>>
    decreases ntok - i,
{
    if i >= ntok {
        Some(out)
    } else {
        let is_m = i / 8 < tb.len() && (tb[i / 8] >> ((i % 8) as u8)) & 1 == 1;
        if !is_m {
            if lp < lits.len() {
                lzo_run(tb, lits, offs, lens, i + 1, ntok, lp + 1, op, lnp, last, out.push(lits[lp]))
            } else {
                lzo_run(tb, lits, offs, lens, i + 1, ntok, lp, op, lnp, last, out)
            }
        } else {
            let ov = varint_from(offs, op, 0, 0);
            let lv = varint_from(lens, lnp, 0, 0);
            let offset: u32 = if ov.0 == 0 { last } else { ov.0 as u32 };
            if lv.0 + 3 > usize::MAX {
                None
            } else {
                let start = if out.len() >= offset { out.len() - offset } else { 0 };
                let next = copy_from(out, start, period(offset as int), 0, lv.0 + 3);
                lzo_run(tb, lits, offs, lens, i + 1, ntok, lp, ov.1, lv.1, offset, next)
            }
        }
    }
}

/// Bytes of token bits for `ntok` tokens.
pub open spec fn bits_len(ntok: int) -> int {
    (ntok + 7) / 8
}

/// How many of the tokens `i .. ntok` the bits `tb` mark as literals.
pub open spec fn lit_count(tb: Seq<u8>, i: int, ntok: int) -> int
    decreases ntok - i,
{
    if i >= ntok {
        0
    } else {
        (if bit_at(tb, i) { 0int } else { 1int }) + lit_count(tb, i + 1, ntok)
    }
}

/// The position after `m` varints read one after another from `pos`.
pub open spec fn skip_varints(d: Seq<u8>, pos: int, m: int) -> int
    decreases m,
{
    if m <= 0 { pos } else { skip_varints(d, varint_from(d, pos, 0, 0).1, m - 1) }
}

/// The token bits of `d`: `bits_len` bytes after the two header words, cut at the end.
pub open spec fn lzo_bits(d: Seq<u8>) -> Seq<u8> {
    stream_at(d, 8, bits_len(u32_at(d, 4) as int))
}

/// Where the offsets start: after the token bits and one byte per literal.
pub open spec fn lzo_offsets_start(d: Seq<u8>) -> int {
    let nt = u32_at(d, 4) as int;
    8 + bits_len(nt) + lit_count(lzo_bits(d), 0, nt)
}

/// True when the token bits and literals the header announces fit the input (else the
/// decoder would fail).
pub open spec fn lzo_framed(d: Seq<u8>) -> bool {
    d.len() <= 8 || u32_at(d, 0) == 0 || u32_at(d, 4) == 0 || lzo_offsets_start(d) <= d.len()
}

/// The `len` bytes at `pos`, cut at the end of `d`.
pub open spec fn stream_at(d: Seq<u8>, pos: int, len: int) -> Seq<u8> {
    d.subrange(pos, if len < d.len() - pos { pos + len } else { d.len() as int })
}

/// What `decompress` gives for framed input: `None` where a match length overflows. The
/// offsets run from their start over one varint per match; the lengths take the rest.
pub open spec fn lzo_decompressed(d: Seq<u8>) -> Option<Seq<u8>> {
    if d.len() <= 8 || u32_at(d, 0) == 0 || u32_at(d, 4) == 0 || lzo_offsets_start(d) > d.len() {
        Some(Seq::empty())
    } else {
        let nt = u32_at(d, 4) as int;
        let tb = lzo_bits(d);
        let nl = lit_count(tb, 0, nt);
        let os = lzo_offsets_start(d);
        let oe = skip_varints(d, os, nt - nl);
        let lits = d.subrange(8 + bits_len(nt), os);
        let offs = d.subrange(os, oe);
        let lens = d.subrange(oe, d.len() as int);
        let orig = u32_at(d, 0) as int;
        match lzo_run(tb, lits, offs, lens, 0, nt, 0, 0, 0, 1, Seq::empty()) {
            None => None,
            Some(out) => Some(if out.len() > orig { out.subrange(0, orig) } else { out }),
        }
    }
}

proof fn lemma_varint_from_pos(d: Seq<u8>, p: int, value: u64, shift: u64)
    requires
        0 <= p <= d.len(),
    ensures
        p <= varint_from(d, p, value, shift).1 <= d.len(),
    decreases d.len() - p,
{
    if p < d.len() && shift < 64 {
        let b = d[p];
        let v2 = value | (((b & 0x7F) as u64) << shift);
        if !(b & 0x80 == 0 || shift + 7 >= 64) {
            lemma_varint_from_pos(d, p + 1, v2, (shift + 7) as u64);
        }
    }
}

proof fn lemma_skip_varints_pos(d: Seq<u8>, p: int, m: int)
    requires
        0 <= p <= d.len(),
    ensures
        p <= skip_varints(d, p, m) <= d.len(),
    decreases m,
{
    if m > 0 {
        lemma_varint_from_pos(d, p, 0, 0);
        lemma_skip_varints_pos(d, varint_from(d, p, 0, 0).1, m - 1);
    }
}

fn copy_period(result: &mut Vec<u8>, start: usize, per: usize, length: usize)
    requires
        1 <= per,
        start + per <= old(result)@.len() || (start == old(result)@.len() && per == 1) || (start == 0 && per <= u32::MAX),
    ensures
        final(result)@ == copy_from(old(result)@, start as int, per as int, 0, length as int),
{
    let n0 = result.len();
    let mut j: usize = 0;
    while j < length
        invariant
            1 <= per,
            n0 == old(result)@.len(),
            start + per <= n0 || (start == n0 && per == 1) || (start == 0 && per <= u32::MAX),
            result@.len() == n0 + j,
            j <= length,
            copy_from(result@, start as int, per as int, j as int, length as int)
                == copy_from(old(result)@, start as int, per as int, 0, length as int),
        decreases length - j,
    {
        assert(j % per < per) by (nonlinear_arith)
            requires
                per >= 1,
        ;
        let idx: usize = start + j % per;
        let b: u8 = if idx < result.len() { result[idx] } else { 0 };
        result.push(b);
        j = j + 1;
    }
}

/// Decompresses split-stream data, or `None` where the streams do not fit the input or a match
/// length overflows.
pub fn decompress_checked(data: &[u8]) -> (r: Option<Vec<u8>>)
    ensures
        match r {
            Some(v) => lzo_framed(data@) && lzo_decompressed(data@) == Some(v@),
            None => !lzo_framed(data@) || lzo_decompressed(data@) is None,
        },
{
    if data.len() <= 8 {
        return Some(Vec::new());
    }
    let original_len = read_u32_le(data, 0);
    let num_tokens = read_u32_le(data, 4);
    if original_len == 0 || num_tokens == 0 {
        return Some(Vec::new());
    }
    let n = data.len();
    let token_bits_len: usize = (num_tokens / 8) as usize + if num_tokens % 8 != 0 { 1usize } else { 0usize };
    assert(token_bits_len == bits_len(num_tokens as int));
    let tb_end: usize = 8 + if token_bits_len < n - 8 { token_bits_len } else { n - 8 };
    let token_bits = &data[8..tb_end];
    let ghost tb = token_bits@;
    assert(tb =~= lzo_bits(data@));
    let mut literal_len: usize = 0;
    let mut c: u32 = 0;
    while c < num_tokens
        invariant
            tb == token_bits@,
            c <= num_tokens,
            literal_len <= c,
            literal_len + lit_count(tb, c as int, num_tokens as int) == lit_count(tb, 0, num_tokens as int),
        decreases num_tokens - c,
    {
        let byte_idx = (c / 8) as usize;
        let bit_idx = (c % 8) as u8;
        let is_match = if byte_idx < token_bits.len() {
            (token_bits[byte_idx] >> bit_idx) & 1 == 1
        } else {
            false
        };
        assert(is_match == bit_at(tb, c as int));
        if !is_match {
            literal_len = literal_len + 1;
        }
        c = c + 1;
    }
    if token_bits_len > n - 8 || literal_len > n - 8 - token_bits_len {
        return None;
    }
    let lit_start: usize = 8 + token_bits_len;
    let off_start: usize = lit_start + literal_len;
    assert(off_start == lzo_offsets_start(data@));
    let literals = &data[lit_start..off_start];
    let matches: u32 = num_tokens - literal_len as u32;
    let mut off_end: usize = off_start;
    let mut k: u32 = 0;
    proof { lemma_skip_varints_pos(data@, off_start as int, matches as int); }
    while k < matches
        invariant
            k <= matches,
            off_start <= off_end <= data@.len(),
            skip_varints(data@, off_end as int, (matches - k) as int) == skip_varints(data@, off_start as int, matches as int),
        decreases matches - k,
    {
        proof { lemma_varint_from_pos(data@, off_end as int, 0, 0); }
        let (_, next) = decode_varint(data, off_end);
        off_end = next;
        k = k + 1;
    }
    let offsets = &data[off_start..off_end];
    let lengths = &data[off_end..n];
    let ghost lits = literals@;
    let ghost offs = offsets@;
    let ghost lens = lengths@;
    proof {
        assert(lits =~= data@.subrange(8 + bits_len(num_tokens as int), off_start as int));
        assert(offs =~= data@.subrange(off_start as int, off_end as int));
        assert(lens =~= data@.subrange(off_end as int, data@.len() as int));
        assert(lzo_framed(data@));
    }
    let mut result: Vec<u8> = Vec::new();
    let mut lit_pos: usize = 0;
    let mut off_pos: usize = 0;
    let mut len_pos: usize = 0;
    let mut last_offset: u32 = 1;
    let mut i: u32 = 0;
    while i < num_tokens
        invariant
            tb == token_bits@,
            lits == literals@,
            offs == offsets@,
            lens == lengths@,
            lzo_framed(data@),
            data@.len() > 8,
            original_len == u32_at(data@, 0),
            num_tokens == u32_at(data@, 4),
            original_len != 0,
            num_tokens != 0,
            lzo_decompressed(data@) == match lzo_run(tb, lits, offs, lens, 0, num_tokens as int, 0, 0, 0, 1, Seq::empty()) {
                None => None,
                Some(out) => Some(if out.len() > original_len { out.subrange(0, original_len as int) } else { out }),
            },
            lzo_run(tb, lits, offs, lens, i as int, num_tokens as int, lit_pos as int, off_pos as int, len_pos as int, last_offset, result@)
                == lzo_run(tb, lits, offs, lens, 0, num_tokens as int, 0, 0, 0, 1, Seq::empty()),
        decreases num_tokens - i,
    {
        let byte_idx = (i / 8) as usize;
        let bit_idx = (i % 8) as u8;
        let is_match = if byte_idx < token_bits.len() {
            (token_bits[byte_idx] >> bit_idx) & 1 == 1
        } else {
            false
        };
        if !is_match {
            if lit_pos < literals.len() {
                result.push(literals[lit_pos]);
                lit_pos = lit_pos + 1;
            }
        } else {
            let (offset_val, new_off_pos) = decode_varint(offsets, off_pos);
            off_pos = new_off_pos;
            let (length_val, new_len_pos) = decode_varint(lengths, len_pos);
            len_pos = new_len_pos;
            let offset: u32 = if offset_val == 0 {
                last_offset
            } else {
                last_offset = offset_val as u32;
                offset_val as u32
            };
            if length_val > (usize::MAX - 3) as u64 {
                return None;
            }
            let match_len = length_val as usize + 3;
            let start: usize = if result.len() >= offset as usize { result.len() - offset as usize } else { 0 };
            let per: usize = if offset < 1 { 1 } else { offset as usize };
            copy_period(&mut result, start, per, match_len);
        }
        i = i + 1;
    }
    let orig = original_len as usize;
    if result.len() > orig {
        result.truncate(orig);
    }
    Some(result)
}

/// Decompresses split-stream data whose streams fit the input and whose match lengths fit a
/// `usize` (`decompress_checked` tests both).
pub fn decompress(data: &[u8]) -> (r: Vec<u8>)
    requires
        lzo_framed(data@),
        lzo_decompressed(data@) is Some,
    ensures
        Some(r@) == lzo_decompressed(data@),
{
    match decompress_checked(data) {
        Some(v) => v,
        None => Vec::new(),
    }
}

// ---------------------------------------------------------------------------------------------
// Reading back what `compress` writes
// ---------------------------------------------------------------------------------------------

proof fn lemma_varint_len(v: nat)
    ensures
        varint(v).len() >= 1,
        v < 128 ==> varint(v).len() == 1,
        v < 16384 ==> varint(v).len() <= 2,
        v < 2097152 ==> varint(v).len() <= 3,
        v < 268435456 ==> varint(v).len() <= 4,
        v < 34359738368 ==> varint(v).len() <= 5,
    decreases v,
{
    if v >= 128 {
        lemma_varint_len(v / 128);
    }
}

proof fn lemma_varint_from(d: Seq<u8>, p: int, w: u64, value: u64, shift: u64)
    requires
        0 <= p,
        p + varint(w as nat).len() <= d.len(),
        d.subrange(p, p + varint(w as nat).len()) == varint(w as nat),
        shift <= 31,
        w <= (0xFFFF_FFFFu64 >> shift),
        value < (1u64 << shift),
    ensures
        varint_from(d, p, value, shift) == ((value + (w << shift)) as u64, p + varint(w as nat).len()),
    decreases w,
{
    lemma_varint_len(w as nat);
    let b = d[p];
    if w < 128 {
        assert(d.subrange(p, p + 1)[0] == b);
        assert(varint(w as nat)[0] == w as u8);
        assert(b == w as u8);
        assert((b & 0x80) == 0 && (value | (((b & 0x7F) as u64) << shift)) == value + (w << shift)) by (bit_vector)
            requires
                b == w as u8,
                w < 128,
                shift <= 31,
                value < (1u64 << shift),
        ;
    } else {
        let w2 = (w / 128) as u64;
        assert(d.subrange(p, p + varint(w as nat).len())[0] == b);
        assert(varint(w as nat)[0] == ((w as nat) % 128 + 128) as u8);
        assert(b == ((w % 128) + 128) as u8);
        let v2 = value | (((b & 0x7F) as u64) << shift);
        assert((b & 0x80) != 0 && (b & 0x7F) as u64 == (w & 127)) by (bit_vector)
            requires
                b == ((w % 128) + 128) as u8,
        ;
        assert(v2 == value + ((w & 127) << shift) && v2 < (1u64 << ((shift + 7) as u64))) by (bit_vector)
            requires
                v2 == value | ((w & 127) << shift),
                shift <= 31,
                value < (1u64 << shift),
        ;
        assert(w2 == (w >> 7u64)) by (bit_vector)
            requires
                w2 == w / 128,
        ;
        assert(shift <= 24 && w2 <= (0xFFFF_FFFFu64 >> ((shift + 7) as u64))) by (bit_vector)
            requires
                w >= 128,
                w2 == (w >> 7u64),
                shift <= 31,
                w <= (0xFFFF_FFFFu64 >> shift),
        ;
        assert(v2 + (w2 << ((shift + 7) as u64)) == value + (w << shift)) by (bit_vector)
            requires
                v2 == value + ((w & 127) << shift),
                w2 == (w >> 7u64),
                shift <= 24,
                w <= (0xFFFF_FFFFu64 >> shift),
                value < (1u64 << shift),
        ;
        let rest_len: int = varint(w2 as nat).len() as int;
        assert(varint(w as nat) == seq![((w as nat) % 128 + 128) as u8] + varint(w2 as nat));
        assert(d.subrange(p + 1, p + 1 + rest_len) =~= varint(w2 as nat)) by {
            assert(d.subrange(p + 1, p + 1 + rest_len) =~= d.subrange(p, p + varint(w as nat).len()).subrange(1, 1 + rest_len));
        }
        lemma_varint_from(d, p + 1, w2, v2, (shift + 7) as u64);
    }
}

/// Bit `idx` of the packed token bits, least significant first (false past the end).
pub open spec fn bit_at(bits: Seq<u8>, idx: int) -> bool {
    idx / 8 < bits.len() && ((bits[idx / 8] >> ((idx % 8) as u8)) & 1) == 1
}

proof fn lemma_bits(toks: Seq<Token>, base: int, j: int, buf: u8, cnt: u8)
    requires
        cnt < 8,
        0 <= base,
        j == base + cnt,
        j <= toks.len(),
        buf < (1u8 << cnt),
        forall|k: int| base <= k < j ==> (((buf >> ((k - base) as u8)) & 1) == 1) == is_match_token(#[trigger] toks[k]),
    ensures
        forall|k: int| base <= k < toks.len() ==> bit_at(bits_from(toks, j, buf, cnt), k - base) == is_match_token(#[trigger] toks[k]),
    decreases toks.len() - j,
{
    if j >= toks.len() {
        assert forall|k: int| base <= k < toks.len() implies bit_at(bits_from(toks, j, buf, cnt), k - base) == is_match_token(#[trigger] toks[k]) by {
            assert((k - base) / 8 == 0);
            assert((k - base) % 8 == k - base);
            assert(bits_from(toks, j, buf, cnt) == seq![buf]);
        }
    } else {
        let m = is_match_token(toks[j]);
        let b2: u8 = if m { (buf | (1u8 << cnt)) as u8 } else { buf };
        assert(forall|r: u8| r < cnt ==> ((b2 >> r) & 1) == ((buf >> r) & 1)) by (bit_vector)
            requires
                b2 == buf || b2 == (buf | (1u8 << cnt)),
                cnt < 8,
        ;
        assert((((b2 >> cnt) & 1) == 1) == m) by (bit_vector)
            requires
                (m ==> b2 == (buf | (1u8 << cnt))),
                (!m ==> b2 == buf),
                buf < (1u8 << cnt),
                cnt < 8,
        ;
        assert(cnt + 1 < 8 ==> b2 < (1u8 << ((cnt + 1) as u8))) by (bit_vector)
            requires
                b2 == buf || b2 == (buf | (1u8 << cnt)),
                buf < (1u8 << cnt),
                cnt < 8,
        ;
        if cnt + 1 == 8 {
            assert(0u8 < (1u8 << 0u8)) by (bit_vector);
            lemma_bits(toks, j + 1, j + 1, 0, 0);
            let rest = bits_from(toks, j + 1, 0, 0);
            assert(bits_from(toks, j, buf, cnt) == seq![b2] + rest);
            assert forall|k: int| base <= k < toks.len() implies bit_at(bits_from(toks, j, buf, cnt), k - base) == is_match_token(#[trigger] toks[k]) by {
                if k <= j {
                    assert((k - base) / 8 == 0);
                    assert((k - base) % 8 == k - base);
                    assert((seq![b2] + rest)[0] == b2);
                    if k < j {
                        assert(((b2 >> ((k - base) as u8)) & 1) == ((buf >> ((k - base) as u8)) & 1));
                    } else {
                        assert(((k - base) as u8) == cnt);
                    }
                } else {
                    assert(bit_at(rest, k - (j + 1)) == is_match_token(toks[k]));
                    assert((k - base) / 8 == (k - (j + 1)) / 8 + 1);
                    assert((k - base) % 8 == (k - (j + 1)) % 8);
                    if (k - (j + 1)) / 8 < rest.len() {
                        assert((seq![b2] + rest)[(k - base) / 8] == rest[(k - (j + 1)) / 8]);
                    }
                }
            }
        } else {
            let cnt2 = (cnt + 1) as u8;
            assert forall|k: int| base <= k < j + 1 implies (((b2 >> ((k - base) as u8)) & 1) == 1) == is_match_token(#[trigger] toks[k]) by {
                if k < j {
                    assert(((b2 >> ((k - base) as u8)) & 1) == ((buf >> ((k - base) as u8)) & 1));
                } else {
                    assert(((k - base) as u8) == cnt);
                }
            }
            lemma_bits(toks, base, j + 1, b2, cnt2);
            assert(bits_from(toks, j, buf, cnt) == bits_from(toks, j + 1, b2, cnt2));
        }
    }
}

proof fn lemma_lzo_run(
    toks: Seq<Token>,
    tb: Seq<u8>,
    lits: Seq<u8>,
    offs: Seq<u8>,
    lens: Seq<u8>,
    i: int,
    lp: int,
    op: int,
    lnp: int,
    last: u32,
    out: Seq<u8>,
)
    requires
        tokens_valid(toks),
        0 <= i <= toks.len(),
        forall|k: int| 0 <= k < toks.len() ==> bit_at(tb, k) == is_match_token(#[trigger] toks[k]),
        0 <= lp <= lits.len(),
        lits.subrange(lp, lits.len() as int) == lits_from(toks, i),
        0 <= op <= offs.len(),
        offs.subrange(op, offs.len() as int) == offs_from(toks, i, last),
        0 <= lnp <= lens.len(),
        lens.subrange(lnp, lens.len() as int) == lens_from(toks, i),
    ensures
        lzo_run(tb, lits, offs, lens, i, toks.len() as int, lp, op, lnp, last, out) == Some(apply_from(out, toks, i)),
    decreases toks.len() - i,
{
    if i < toks.len() {
        let t = toks[i];
        assert(bit_at(tb, i) == is_match_token(t));
        match t {
            Token::Literal(b) => {
                assert(lits_from(toks, i) == seq![b] + lits_from(toks, i + 1));
                assert(lits.subrange(lp, lits.len() as int).len() == lits_from(toks, i).len());
                assert(lp < lits.len());
                assert(lits[lp] == lits.subrange(lp, lits.len() as int)[0]);
                assert(lits.subrange(lp + 1, lits.len() as int) =~= lits.subrange(lp, lits.len() as int).subrange(1, lits.len() - lp));
                assert((seq![b] + lits_from(toks, i + 1)).subrange(1, lits.len() - lp) =~= lits_from(toks, i + 1));
                lemma_lzo_run(toks, tb, lits, offs, lens, i + 1, lp + 1, op, lnp, last, out.push(b));
            },
            Token::Match { offset, length } => {
                assert(offset >= 1 && 3 <= length <= 258);
                let w: u64 = if offset == last { 0 } else { offset as u64 };
                let next_last: u32 = offset;
                let vo = varint(w as nat);
                assert(offs_from(toks, i, last) == vo + offs_from(toks, i + 1, next_last));
                lemma_varint_len(w as nat);
                assert(offs.subrange(op, offs.len() as int).len() == vo.len() + offs_from(toks, i + 1, next_last).len());
                assert(op + vo.len() <= offs.len());
                assert(offs.subrange(op, op + vo.len()) =~= offs.subrange(op, offs.len() as int).subrange(0, vo.len() as int));
                assert((vo + offs_from(toks, i + 1, next_last)).subrange(0, vo.len() as int) =~= vo);
                assert((vo + offs_from(toks, i + 1, next_last)).subrange(vo.len() as int, offs.len() - op) =~= offs_from(toks, i + 1, next_last));
                assert(0u64 < (1u64 << 0u64) && (w << 0u64) == w && (0xFFFF_FFFFu64 >> 0u64) == 0xFFFF_FFFFu64) by (bit_vector);
                lemma_varint_from(offs, op, w, 0, 0);
                assert(offs.subrange(op + vo.len(), offs.len() as int) =~= offs.subrange(op, offs.len() as int).subrange(vo.len() as int, offs.len() - op));
                let lv = (length - 3) as u64;
                let vl = varint(lv as nat);
                assert(lens_from(toks, i) == vl + lens_from(toks, i + 1));
                lemma_varint_len(lv as nat);
                assert(lens.subrange(lnp, lens.len() as int).len() == vl.len() + lens_from(toks, i + 1).len());
                assert(lnp + vl.len() <= lens.len());
                assert(lens.subrange(lnp, lnp + vl.len()) =~= lens.subrange(lnp, lens.len() as int).subrange(0, vl.len() as int));
                assert((vl + lens_from(toks, i + 1)).subrange(0, vl.len() as int) =~= vl);
                assert((vl + lens_from(toks, i + 1)).subrange(vl.len() as int, lens.len() - lnp) =~= lens_from(toks, i + 1));
                assert((lv << 0u64) == lv) by (bit_vector);
                lemma_varint_from(lens, lnp, lv, 0, 0);
                assert(lens.subrange(lnp + vl.len(), lens.len() as int) =~= lens.subrange(lnp, lens.len() as int).subrange(vl.len() as int, lens.len() - lnp));
                let next = copy_match_spec(out, offset as int, length as int);
                lemma_lzo_run(toks, tb, lits, offs, lens, i + 1, lp, op + vo.len(), lnp + vl.len(), next_last, next);
            },
        }
    }
}

proof fn lemma_apply_len(out: Seq<u8>, toks: Seq<Token>, i: int)
    requires
        tokens_valid(toks),
        0 <= i <= toks.len(),
    ensures
        apply_from(out, toks, i).len() >= out.len() + (toks.len() - i),
    decreases toks.len() - i,
{
    if i < toks.len() {
        match toks[i] {
            Token::Literal(b) => {
                lemma_apply_len(out.push(b), toks, i + 1);
            },
            Token::Match { offset, length } => {
                let start = if out.len() >= offset { out.len() - offset } else { 0 };
                crate::entropy::lz::lemma_copy_from_len(out, start, offset as int, 0, length as int);
                lemma_apply_len(copy_match_spec(out, offset as int, length as int), toks, i + 1);
            },
        }
    }
}

proof fn lemma_bits_exact_len(toks: Seq<Token>, j: int, buf: u8, cnt: u8)
    requires
        0 <= j <= toks.len(),
        cnt < 8,
    ensures
        bits_from(toks, j, buf, cnt).len() == (toks.len() - j + cnt + 7) / 8,
    decreases toks.len() - j,
{
    if j < toks.len() {
        let b2: u8 = if is_match_token(toks[j]) { (buf | (1u8 << cnt)) as u8 } else { buf };
        if cnt + 1 == 8 {
            lemma_bits_exact_len(toks, j + 1, 0, 0);
        } else {
            lemma_bits_exact_len(toks, j + 1, b2, (cnt + 1) as u8);
        }
    }
}

proof fn lemma_lit_count_lits(toks: Seq<Token>, tb: Seq<u8>, i: int)
    requires
        0 <= i <= toks.len(),
        forall|k: int| 0 <= k < toks.len() ==> bit_at(tb, k) == is_match_token(#[trigger] toks[k]),
    ensures
        lit_count(tb, i, toks.len() as int) == lits_from(toks, i).len(),
    decreases toks.len() - i,
{
    if i < toks.len() {
        assert(bit_at(tb, i) == is_match_token(toks[i]));
        lemma_lit_count_lits(toks, tb, i + 1);
    }
}

proof fn lemma_skip_offs(toks: Seq<Token>, d: Seq<u8>, p: int, i: int, last: u32)
    requires
        tokens_valid(toks),
        0 <= i <= toks.len(),
        0 <= p,
        p + offs_from(toks, i, last).len() <= d.len(),
        d.subrange(p, p + offs_from(toks, i, last).len()) == offs_from(toks, i, last),
    ensures
        skip_varints(d, p, toks.len() - i - lits_from(toks, i).len()) == p + offs_from(toks, i, last).len(),
    decreases toks.len() - i,
{
    if i < toks.len() {
        match toks[i] {
            Token::Literal(b) => {
                lemma_skip_offs(toks, d, p, i + 1, last);
            },
            Token::Match { offset, length } => {
                let w: u64 = if offset == last { 0 } else { offset as u64 };
                let vo = varint(w as nat);
                let rest = offs_from(toks, i + 1, offset);
                assert(offs_from(toks, i, last) == vo + rest);
                lemma_varint_len(w as nat);
                assert(d.subrange(p, p + vo.len()) =~= d.subrange(p, p + offs_from(toks, i, last).len()).subrange(0, vo.len() as int));
                assert((vo + rest).subrange(0, vo.len() as int) =~= vo);
                assert(0u64 < (1u64 << 0u64) && (w << 0u64) == w && (0xFFFF_FFFFu64 >> 0u64) == 0xFFFF_FFFFu64) by (bit_vector);
                lemma_varint_from(d, p, w, 0, 0);
                assert(d.subrange(p + vo.len(), p + vo.len() + rest.len()) =~= d.subrange(p, p + offs_from(toks, i, last).len()).subrange(vo.len() as int, (vo.len() + rest.len()) as int));
                assert((vo + rest).subrange(vo.len() as int, (vo.len() + rest.len()) as int) =~= rest);
                lemma_skip_offs(toks, d, p + vo.len(), i + 1, offset);
                lemma_lit_count_nonneg(toks, i + 1);
            },
        }
    }
}

proof fn lemma_lit_count_nonneg(toks: Seq<Token>, i: int)
    requires
        0 <= i <= toks.len(),
    ensures
        lits_from(toks, i).len() <= toks.len() - i,
    decreases toks.len() - i,
{
    if i < toks.len() {
        lemma_lit_count_nonneg(toks, i + 1);
    }
}

/// Decompressing what `compress` writes for the parse `toks` of `data` gives back `data`.
pub proof fn lemma_lzo_roundtrip(data: Seq<u8>, toks: Seq<Token>)
    requires
        spells(toks, data),
        data.len() <= MAX_OPTIMAL_INPUT,
    ensures
        lzo_framed(compressed_with(data, toks)),
        lzo_decompressed(compressed_with(data, toks)) == Some(data),
{
    crate::bytes::lemma_le_lengths();
    if data.len() == 0 {
        assert(compressed_with(data, toks).len() == 8);
    } else {
        lemma_apply_len(Seq::empty(), toks, 0);
        let n = data.len() as int;
        assert(toks.len() > 0) by {
            if toks.len() == 0 {
                assert(apply_from(Seq::empty(), toks, 0) == Seq::<u8>::empty());
            }
        }
        let nt = toks.len() as int;
        let d = packed(n, toks);
        let bits = bits_from(toks, 0, 0, 0);
        let lits = lits_from(toks, 0);
        let offs = offs_from(toks, 0, 1);
        let lens = lens_from(toks, 0);
        let h0 = le32(n as u32);
        let h1 = le32(nt as u32);
        let body = bits + lits + offs + lens;
        assert(d =~= h0 + h1 + body);
        crate::bytes::lemma_u32_at(Seq::empty(), n as u32, h1 + body);
        assert(Seq::<u8>::empty() + h0 + (h1 + body) =~= d);
        crate::bytes::lemma_u32_at(h0, nt as u32, body);
        assert(h0 + h1 + body =~= d);
        assert(u32_at(d, 0) == n && u32_at(d, 4) == nt);
        lemma_bits_exact_len(toks, 0, 0, 0);
        let bl = bits.len() as int;
        assert(bl == bits_len(nt));
        let ll = lits.len() as int;
        let ol = offs.len() as int;
        assert(lzo_bits(d) =~= bits);
        assert(0u8 < (1u8 << 0u8)) by (bit_vector);
        lemma_bits(toks, 0, 0, 0, 0);
        lemma_lit_count_lits(toks, bits, 0);
        assert(lzo_offsets_start(d) == 8 + bl + ll);
        assert(d.subrange(8 + bl + ll, 8 + bl + ll + ol) =~= offs);
        lemma_skip_offs(toks, d, 8 + bl + ll, 0, 1);
        assert(d.subrange(8 + bl, 8 + bl + ll) =~= lits);
        assert(d.subrange(8 + bl + ll + ol, d.len() as int) =~= lens);
        assert(lits.subrange(0, lits.len() as int) =~= lits);
        assert(offs.subrange(0, offs.len() as int) =~= offs);
        assert(lens.subrange(0, lens.len() as int) =~= lens);
        lemma_lzo_run(toks, bits, lits, offs, lens, 0, 0, 0, 0, 1, Seq::empty());
        let out = apply_from(Seq::<u8>::empty(), toks, 0);
        assert(out.len() == n);
        assert(!(out.len() > n));
    }
}

} // verus!
