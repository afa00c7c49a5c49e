//! Order-1 context model: the previous byte selects one of 256 frequency tables; each byte is
//! replaced by its rank in its context (most frequent first), and the ranks are rANS-coded.
//!
//! Format: `[4-byte original length] [2-byte context count]
//! [per context: context byte, symbol count, then (symbol, 2-byte frequency) pairs]
//! [rANS-coded ranks]`.
use vstd::prelude::*;
use crate::bytes::{le16, le32, u16_at, u32_at, push_u16_le, push_u32_le, read_u16_le, read_u32_le, append_bytes, lemma_le_lengths};
use crate::entropy::ans;

verus! {

// ---------------------------------------------------------------------------------------------
// Context statistics
// ---------------------------------------------------------------------------------------------

/// The byte before position `k` (0 before the first).
pub open spec fn prev_of(d: Seq<u8>, k: int) -> int {
    if k <= 0 { 0 } else { d[k - 1] as int }
}

/// How often `b` follows context `ctx` among the first `m` positions of `d`.
pub open spec fn pair_count(d: Seq<u8>, ctx: int, b: int, m: int) -> int
    decreases m,
{
    if m <= 0 {
        0
    } else {
        pair_count(d, ctx, b, m - 1) + if prev_of(d, m - 1) == ctx && d[m - 1] == b { 1int } else { 0int }
    }
}

/// The nonzero entries `(symbol, count)` of `row` from symbol `s` on, in symbol order.
pub open spec fn nonzero_from(row: Seq<int>, s: int) -> Seq<(u8, int)>
    decreases 256 - s,
{
    if s >= 256 || s < 0 {
        Seq::empty()
    } else if row[s] > 0 {
        seq![(s as u8, row[s])] + nonzero_from(row, s + 1)
    } else {
        nonzero_from(row, s + 1)
    }
}

/// The counts of context `ctx` in `d`.
pub open spec fn ctx_row(d: Seq<u8>, ctx: int) -> Seq<int> {
    Seq::new(256, |b: int| pair_count(d, ctx, b, d.len() as int))
}

/// The position where an entry of count `f` goes in a list sorted by descending count: before
/// the first entry with a smaller count.
pub open spec fn insert_pos(sorted: Seq<(u8, int)>, f: int, k: int) -> int
    decreases sorted.len() - k,
{
    if k >= sorted.len() || k < 0 {
        sorted.len() as int
    } else if sorted[k].1 < f {
        k
    } else {
        insert_pos(sorted, f, k + 1)
    }
}

/// Stable sort by descending count.
pub open spec fn sort_desc(list: Seq<(u8, int)>) -> Seq<(u8, int)>
    decreases list.len(),
{
    if list.len() == 0 {
        Seq::empty()
    } else {
        let s = sort_desc(list.drop_last());
        let x = list.last();
        s.insert(insert_pos(s, x.1, 0), x)
    }
}

/// The rank that the table gives `sym`: its last position in `sorted` below `r`, or 0.
pub open spec fn rank_in(sorted: Seq<(u8, int)>, sym: int, r: int) -> int
    decreases r,
{
    if r <= 0 {
        0
    } else if sorted[r - 1].0 == sym {
        r - 1
    } else {
        rank_in(sorted, sym, r - 1)
    }
}

/// The symbols of context `ctx` in rank order.
pub open spec fn ranked(d: Seq<u8>, ctx: int) -> Seq<(u8, int)> {
    sort_desc(nonzero_from(ctx_row(d, ctx), 0))
}

/// The rank stream of `d`.
pub open spec fn rank_stream(d: Seq<u8>) -> Seq<u8> {
    Seq::new(d.len(), |k: int| {
        let sorted = ranked(d, prev_of(d, k));
        rank_in(sorted, d[k] as int, sorted.len() as int) as u8
    })
}

/// The stored entries `(symbol, count clamped to 65535)`.
pub open spec fn entries_bytes(nz: Seq<(u8, int)>) -> Seq<u8>
    decreases nz.len(),
{
    if nz.len() == 0 {
        Seq::empty()
    } else {
        let e = nz.last();
        entries_bytes(nz.drop_last()) + seq![e.0] + le16(if e.1 > 65535 { 65535u16 } else { e.1 as u16 })
    }
}

/// The stored tables of contexts `0 .. c`.
pub open spec fn tables_upto(d: Seq<u8>, c: int) -> Seq<u8>
    decreases c,
{
    if c <= 0 {
        Seq::empty()
    } else {
        let nz = nonzero_from(ctx_row(d, c - 1), 0);
        tables_upto(d, c - 1) + if nz.len() == 0 {
            Seq::empty()
        } else {
            seq![(c - 1) as u8, nz.len() as u8] + entries_bytes(nz)
        }
    }
}

/// The number of contexts among `0 .. c` that occur.
pub open spec fn active_upto(d: Seq<u8>, c: int) -> int
    decreases c,
{
    if c <= 0 {
        0
    } else {
        active_upto(d, c - 1) + if nonzero_from(ctx_row(d, c - 1), 0).len() > 0 { 1int } else { 0int }
    }
}

/// The order-1 encoding of `d`, when it is shorter than `d`.
pub open spec fn order1_encoded(d: Seq<u8>) -> Option<Seq<u8>> {
    if d.len() < 32 {
        None
    } else {
        let body = le32(d.len() as u32) + le16(active_upto(d, 256) as u16) + tables_upto(d, 256)
            + ans::ans_encoded(rank_stream(d));
        if body.len() < d.len() { Some(body) } else { None }
    }
}

// ---------------------------------------------------------------------------------------------
// Encoding
// ---------------------------------------------------------------------------------------------

/// The flat index of `(ctx, b)` in a 256 x 256 table.
pub open spec fn cell(ctx: int, b: int) -> int {
    ctx * 256 + b
}

/// The exec pair lists `syms`/`cnts` hold the entries of `l`.
pub open spec fn same_list(syms: Seq<u8>, cnts: Seq<u32>, l: Seq<(u8, int)>) -> bool {
    &&& syms.len() == l.len()
    &&& cnts.len() == l.len()
    &&& forall|i: int| 0 <= i < l.len() ==> #[trigger] syms[i] == l[i].0
    &&& forall|i: int| 0 <= i < l.len() ==> #[trigger] cnts[i] as int == l[i].1
}

proof fn lemma_insert_same(ss: Seq<u8>, sc: Seq<u32>, sorted: Seq<(u8, int)>, k: int, sym: u8, f: u32)
    requires
        same_list(ss, sc, sorted),
        0 <= k <= sorted.len(),
    ensures
        same_list(ss.insert(k, sym), sc.insert(k, f), sorted.insert(k, (sym, f as int))),
{
    ss.insert_ensures(k, sym);
    sc.insert_ensures(k, f);
    sorted.insert_ensures(k, (sym, f as int));
    let t = sorted.insert(k, (sym, f as int));
    assert forall|q: int| 0 <= q < t.len() implies #[trigger] ss.insert(k, sym)[q] == t[q].0 by {
        if q > k {
            assert(ss.insert(k, sym)[(q - 1) + 1] == ss[q - 1]);
            assert(t[(q - 1) + 1] == sorted[q - 1]);
        }
    }
    assert forall|q: int| 0 <= q < t.len() implies #[trigger] sc.insert(k, f)[q] as int == t[q].1 by {
        if q > k {
            assert(sc.insert(k, f)[(q - 1) + 1] == sc[q - 1]);
            assert(t[(q - 1) + 1] == sorted[q - 1]);
        }
    }
}

proof fn lemma_sort_step(l: Seq<(u8, int)>, i: int)
    requires
        0 <= i < l.len(),
    ensures
        sort_desc(l.subrange(0, i + 1)) == sort_desc(l.subrange(0, i)).insert(
            insert_pos(sort_desc(l.subrange(0, i)), l[i].1, 0),
            l[i],
        ),
{
    let li = l.subrange(0, i + 1);
    assert(li.drop_last() =~= l.subrange(0, i));
    assert(li.last() == l[i]);
}

proof fn lemma_pair_count_bound(d: Seq<u8>, ctx: int, b: int, m: int)
    requires
        0 <= m <= d.len(),
    ensures
        0 <= pair_count(d, ctx, b, m) <= m,
    decreases m,
{
    if m > 0 {
        lemma_pair_count_bound(d, ctx, b, m - 1);
    }
}

proof fn lemma_nonzero_len(row: Seq<int>, s: int)
    requires
        0 <= s <= 256,
    ensures
        nonzero_from(row, s).len() <= 256 - s,
    decreases 256 - s,
{
    if s < 256 {
        lemma_nonzero_len(row, s + 1);
    }
}

proof fn lemma_sort_len(list: Seq<(u8, int)>)
    ensures
        sort_desc(list).len() == list.len(),
    decreases list.len(),
{
    if list.len() > 0 {
        lemma_sort_len(list.drop_last());
        lemma_insert_pos_range(sort_desc(list.drop_last()), list.last().1, 0);
    }
}

proof fn lemma_insert_pos_range(sorted: Seq<(u8, int)>, f: int, k: int)
    requires
        0 <= k,
    ensures
        (k <= sorted.len() ==> k <= insert_pos(sorted, f, k)),
        0 <= insert_pos(sorted, f, k) <= sorted.len(),
    decreases sorted.len() - k,
{
    if k < sorted.len() && sorted[k].1 >= f {
        lemma_insert_pos_range(sorted, f, k + 1);
    }
}

/// Counts the context/byte pairs of `data`.
fn count_pairs(data: &[u8]) -> (freq: Vec<u32>)
    requires
        data@.len() <= u32::MAX,
    ensures
        freq@.len() == 65536,
        forall|ctx: int, b: int| 0 <= ctx < 256 && 0 <= b < 256 ==>
            #[trigger] freq@[cell(ctx, b)] as int == pair_count(data@, ctx, b, data@.len() as int),
{
    let mut freq: Vec<u32> = vec![0u32; 65536];
    let mut prev: u8 = 0;
    let mut k: usize = 0;
    while k < data.len()
        invariant
            data@.len() <= u32::MAX,
            k <= data@.len(),
            freq@.len() == 65536,
            prev as int == prev_of(data@, k as int),
            forall|ctx: int, b: int| 0 <= ctx < 256 && 0 <= b < 256 ==>
                #[trigger] freq@[cell(ctx, b)] as int == pair_count(data@, ctx, b, k as int),
        decreases data@.len() - k,
    {
        let b = data[k];
        let at: usize = prev as usize * 256 + b as usize;
        proof {
            lemma_pair_count_bound(data@, prev as int, b as int, k as int);
            assert(at == cell(prev as int, b as int));
        }
        let old_count = freq[at];
        freq.set(at, old_count + 1);
        proof {
            assert forall|ctx: int, b2: int| 0 <= ctx < 256 && 0 <= b2 < 256 implies
                #[trigger] freq@[cell(ctx, b2)] as int == pair_count(data@, ctx, b2, k + 1) by {
                if cell(ctx, b2) != at as int {
                    assert(!(ctx == prev && b2 == b));
                } else {
                    assert(ctx == prev as int && b2 == b as int);
                }
            }
        }
        prev = b;
        k = k + 1;
    }
    freq
}

/// The nonzero entries of the row of `ctx`, in symbol order.
fn row_entries(freq: &Vec<u32>, ctx: usize, Ghost(row): Ghost<Seq<int>>) -> (r: (Vec<u8>, Vec<u32>))
    requires
        freq@.len() == 65536,
        ctx < 256,
        row.len() == 256,
        forall|b: int| 0 <= b < 256 ==> #[trigger] freq@[cell(ctx as int, b)] as int == row[b],
    ensures
        same_list(r.0@, r.1@, nonzero_from(row, 0)),
{
    let mut syms: Vec<u8> = Vec::new();
    let mut cnts: Vec<u32> = Vec::new();
    let mut s: usize = 0;
    while s < 256
        invariant
            freq@.len() == 65536,
            ctx < 256,
            row.len() == 256,
            forall|b: int| 0 <= b < 256 ==> #[trigger] freq@[cell(ctx as int, b)] as int == row[b],
            s <= 256,
            syms@.len() == cnts@.len(),
            forall|i: int| 0 <= i < syms@.len() ==> #[trigger] cnts@[i] > 0,
            ({
                let l = Seq::new(syms@.len(), |i: int| (syms@[i], cnts@[i] as int));
                l + nonzero_from(row, s as int) == nonzero_from(row, 0)
            }),
        decreases 256 - s,
    {
        let c = freq[ctx * 256 + s];
        assert(c as int == row[s as int]) by {
            assert(ctx * 256 + s == cell(ctx as int, s as int));
        }
        let ghost l0 = Seq::new(syms@.len(), |i: int| (syms@[i], cnts@[i] as int));
        if c > 0 {
            syms.push(s as u8);
            cnts.push(c);
            let ghost l1 = Seq::new(syms@.len(), |i: int| (syms@[i], cnts@[i] as int));
            assert(l1 =~= l0.push((s as u8, c as int)));
            assert(l0 + nonzero_from(row, s as int) =~= l1 + nonzero_from(row, s + 1));
        } else {
            assert(nonzero_from(row, s as int) == nonzero_from(row, s + 1));
        }
        s = s + 1;
    }
    let ghost l = Seq::new(syms@.len(), |i: int| (syms@[i], cnts@[i] as int));
    assert(l + nonzero_from(row, 256) =~= l);
    (syms, cnts)
}

/// Stable sort of the entries by descending count.
fn sort_entries(syms: &Vec<u8>, cnts: &Vec<u32>, Ghost(l): Ghost<Seq<(u8, int)>>) -> (r: (Vec<u8>, Vec<u32>))
    requires
        same_list(syms@, cnts@, l),
    ensures
        same_list(r.0@, r.1@, sort_desc(l)),
{
    let mut ss: Vec<u8> = Vec::new();
    let mut sc: Vec<u32> = Vec::new();
    let mut i: usize = 0;
    while i < syms.len()
        invariant
            same_list(syms@, cnts@, l),
            i <= l.len(),
            same_list(ss@, sc@, sort_desc(l.subrange(0, i as int))),
        decreases l.len() - i,
    {
        let ghost sorted = sort_desc(l.subrange(0, i as int));
        let f = cnts[i];
        let mut k: usize = 0;
        while k < sc.len() && sc[k] >= f
            invariant
                same_list(ss@, sc@, sorted),
                k <= sc@.len(),
                insert_pos(sorted, f as int, k as int) == insert_pos(sorted, f as int, 0),
            decreases sc@.len() - k,
        {
            k = k + 1;
        }
        proof {
            lemma_insert_pos_range(sorted, f as int, 0);
            lemma_insert_same(ss@, sc@, sorted, k as int, syms@[i as int], f);
            lemma_sort_step(l, i as int);
        }
        ss.insert(k, syms[i]);
        sc.insert(k, f);
        i = i + 1;
    }
    assert(l.subrange(0, l.len() as int) =~= l);
    (ss, sc)
}

/// Order-1 encodes `data`; `None` when the input is under 32 bytes or the encoding is not
/// shorter than the input.
pub fn encode(data: &[u8]) -> (r: Option<Vec<u8>>)
    requires
        data@.len() <= u32::MAX,
    ensures
        match r {
            Some(v) => order1_encoded(data@) == Some(v@),
            None => order1_encoded(data@) is None,
        },
        r is Some && order1_faithful(data@) ==> order1_decoded(r->0@) == Some(data@),
{
    proof {
        if order1_encoded(data@) is Some && order1_faithful(data@) {
            lemma_order1_roundtrip(data@);
        }
    }
    if data.len() < 32 {
        return None;
    }
    let ghost d = data@;
    let freq = count_pairs(data);
    let mut active: u16 = 0;
    let mut table_buf: Vec<u8> = Vec::new();
    let mut s2r: Vec<u8> = vec![0u8; 65536];
    let mut ctx: usize = 0;
    while ctx < 256
        invariant
            d == data@,
            freq@.len() == 65536,
            forall|c: int, b: int| 0 <= c < 256 && 0 <= b < 256 ==>
                #[trigger] freq@[cell(c, b)] as int == pair_count(d, c, b, d.len() as int),
            ctx <= 256,
            active as int == active_upto(d, ctx as int),
            active <= ctx,
            table_buf@ == tables_upto(d, ctx as int),
            s2r@.len() == 65536,
            forall|c: int, sym: int| 0 <= c < ctx && 0 <= sym < 256 ==>
                #[trigger] s2r@[cell(c, sym)] as int == rank_in(ranked(d, c), sym, ranked(d, c).len() as int),
            forall|c: int, sym: int| ctx <= c < 256 && 0 <= sym < 256 ==> #[trigger] s2r@[cell(c, sym)] == 0,
        decreases 256 - ctx,
    {
        let ghost row = ctx_row(d, ctx as int);
        let ghost nz = nonzero_from(row, 0);
        let (syms, cnts) = row_entries(&freq, ctx, Ghost(row));
        proof {
            lemma_nonzero_len(row, 0);
        }
        let ghost base = table_buf@;
        if syms.len() > 0 {
            active = active + 1;
            table_buf.push(ctx as u8);
            table_buf.push(syms.len() as u8);
            let ghost base2 = table_buf@;
            let mut i: usize = 0;
            while i < syms.len()
                invariant
                    same_list(syms@, cnts@, nz),
                    i <= nz.len(),
                    table_buf@ == base2 + entries_bytes(nz.subrange(0, i as int)),
                decreases nz.len() - i,
            {
                table_buf.push(syms[i]);
                let f: u16 = if cnts[i] > 65535 { 65535 } else { cnts[i] as u16 };
                push_u16_le(&mut table_buf, f);
                proof {
                    let p = nz.subrange(0, i + 1);
                    assert(p.drop_last() =~= nz.subrange(0, i as int));
                }
                i = i + 1;
            }
            assert(nz.subrange(0, nz.len() as int) =~= nz);
            assert(table_buf@ =~= tables_upto(d, ctx + 1));
        } else {
            assert(table_buf@ =~= tables_upto(d, ctx + 1));
        }
        let (ss, sc) = sort_entries(&syms, &cnts, Ghost(nz));
        let ghost sorted = sort_desc(nz);
        proof {
            lemma_sort_len(nz);
        }
        let mut r: usize = 0;
        while r < ss.len()
            invariant
                same_list(ss@, sc@, sorted),
                sorted.len() <= 256,
                ctx < 256,
                r <= sorted.len(),
                s2r@.len() == 65536,
                forall|c: int, sym: int| 0 <= c < ctx && 0 <= sym < 256 ==>
                    #[trigger] s2r@[cell(c, sym)] as int == rank_in(ranked(d, c), sym, ranked(d, c).len() as int),
                forall|c: int, sym: int| ctx < c < 256 && 0 <= sym < 256 ==> #[trigger] s2r@[cell(c, sym)] == 0,
                forall|sym: int| 0 <= sym < 256 ==> #[trigger] s2r@[cell(ctx as int, sym)] as int == rank_in(sorted, sym, r as int),
            decreases sorted.len() - r,
        {
            let at: usize = ctx * 256 + ss[r] as usize;
            s2r.set(at, r as u8);
            proof {
                assert(at == cell(ctx as int, ss@[r as int] as int));
                assert forall|c: int, sym: int| 0 <= c < 256 && 0 <= sym < 256 && cell(c, sym) == at implies c == ctx && sym == ss@[r as int] by {}
            }
            r = r + 1;
        }
        ctx = ctx + 1;
    }
    let mut result: Vec<u8> = Vec::new();
    push_u32_le(&mut result, data.len() as u32);
    push_u16_le(&mut result, active);
    append_bytes(&mut result, table_buf.as_slice());
    let mut ranks: Vec<u8> = Vec::new();
    let mut prev: u8 = 0;
    let mut k: usize = 0;
    while k < data.len()
        invariant
            d == data@,
            s2r@.len() == 65536,
            forall|c: int, sym: int| 0 <= c < 256 && 0 <= sym < 256 ==>
                #[trigger] s2r@[cell(c, sym)] as int == rank_in(ranked(d, c), sym, ranked(d, c).len() as int),
            k <= d.len(),
            prev as int == prev_of(d, k as int),
            ranks@ == rank_stream(d).subrange(0, k as int),
        decreases d.len() - k,
    {
        let b = data[k];
        let at: usize = prev as usize * 256 + b as usize;
        assert(at == cell(prev as int, b as int));
        ranks.push(s2r[at]);
        assert(ranks@ =~= rank_stream(d).subrange(0, k + 1));
        prev = b;
        k = k + 1;
    }
    assert(ranks@ =~= rank_stream(d));
    let enc = ans::encode(ranks.as_slice());
    append_bytes(&mut result, enc.as_slice());
    proof {
        lemma_le_lengths();
        assert(result@ =~= le32(d.len() as u32) + le16(active_upto(d, 256) as u16) + tables_upto(d, 256)
            + ans::ans_encoded(rank_stream(d)));
    }
    if result.len() < data.len() {
        Some(result)
    } else {
        None
    }
}

// ---------------------------------------------------------------------------------------------
// Decoding
// ---------------------------------------------------------------------------------------------

/// `n` stored entries `(symbol, 2-byte count)` at `pos`, or `None` when the input ends first.
pub open spec fn read_entries(d: Seq<u8>, pos: int, n: int) -> Option<Seq<(u8, int)>>
    decreases n,
{
    if n <= 0 {
        Some(Seq::empty())
    } else {
        match read_entries(d, pos, n - 1) {
            None => None,
            Some(l) => {
                let at = pos + 3 * (n - 1);
                if at + 3 > d.len() {
                    None
                } else {
                    Some(l.push((d[at], u16_at(d, at + 1) as int)))
                }
            },
        }
    }
}

/// The symbols of a sorted entry list.
pub open spec fn symbols_of(l: Seq<(u8, int)>) -> Seq<u8> {
    Seq::new(l.len(), |i: int| l[i].0)
}

/// Reads `k` more context tables from `pos` into `tabs`; `None` when the input ends first.
pub open spec fn parse_tables(d: Seq<u8>, pos: int, k: int, tabs: Seq<Seq<u8>>) -> Option<(Seq<Seq<u8>>, int)>
    decreases k,
{
    if k <= 0 {
        Some((tabs, pos))
    } else if pos + 2 > d.len() {
        None
    } else {
        let ctx = d[pos] as int;
        let ns = d[pos + 1] as int;
        match read_entries(d, pos + 2, ns) {
            None => None,
            Some(l) => parse_tables(d, pos + 2 + 3 * ns, k - 1, tabs.update(ctx, symbols_of(sort_desc(l)))),
        }
    }
}

/// Maps ranks `i .. n` back to bytes through the tables of the previous byte.
pub open spec fn unrank_from(ranks: Seq<u8>, tabs: Seq<Seq<u8>>, i: int, n: int, prev: int, out: Seq<u8>) -> Seq<u8>
    decreases n - i,
{
    if i >= n || i >= ranks.len() {
        out
    } else {
        let t = tabs[prev];
        let rank = ranks[i] as int;
        if rank < t.len() {
            unrank_from(ranks, tabs, i + 1, n, t[rank] as int, out.push(t[rank]))
        } else {
            unrank_from(ranks, tabs, i + 1, n, 0, out.push(0))
        }
    }
}

/// 256 empty rank tables.
pub open spec fn empty_tables() -> Seq<Seq<u8>> {
    Seq::new(256, |c: int| Seq::<u8>::empty())
}

/// What decoding `d` gives: `None` exactly where decoding the rank stream would fail.
pub open spec fn order1_decoded(d: Seq<u8>) -> Option<Seq<u8>> {
    if d.len() < 6 || u32_at(d, 0) == 0 {
        Some(Seq::empty())
    } else {
        match parse_tables(d, 6, u16_at(d, 4) as int, empty_tables()) {
            None => Some(Seq::empty()),
            Some(p) => match ans::ans_decoded(d.subrange(p.1, d.len() as int)) {
                None => None,
                Some(ranks) => Some(unrank_from(ranks, p.0, 0, u32_at(d, 0) as int, 0, Seq::empty())),
            },
        }
    }
}

/// Order-1 decodes `data`, or `None` where decoding the rank stream would fail.
pub fn decode_checked(data: &[u8]) -> (r: Option<Vec<u8>>)
    ensures
        match r {
            Some(v) => order1_decoded(data@) == Some(v@),
            None => order1_decoded(data@) is None,
        },
{
    if data.len() < 6 {
        return Some(Vec::new());
    }
    let original_len = read_u32_le(data, 0);
    if original_len == 0 {
        return Some(Vec::new());
    }
    let active = read_u16_le(data, 4);
    let ghost d = data@;
    let ghost init = empty_tables();
    let mut tables: Vec<Vec<u8>> = Vec::new();
    let mut c: usize = 0;
    while c < 256
        invariant
            c <= 256,
            tables@.len() == c,
            forall|q: int| 0 <= q < c ==> (#[trigger] tables@[q])@ == Seq::<u8>::empty(),
        decreases 256 - c,
    {
        tables.push(Vec::new());
        c = c + 1;
    }
    let mut pos: usize = 6;
    let mut k: u16 = 0;
    assert(Seq::new(256, |q: int| tables@[q]@) =~= init);
    while k < active
        invariant
            d == data@,
            d.len() >= 6,
            original_len == u32_at(d, 0),
            original_len != 0,
            init == empty_tables(),
            active == u16_at(d, 4),
            6 <= pos <= d.len(),
            k <= active,
            tables@.len() == 256,
            parse_tables(d, pos as int, (active - k) as int, Seq::new(256, |q: int| tables@[q]@))
                == parse_tables(d, 6, active as int, init),
        decreases active - k,
    {
        let ghost tabs = Seq::new(256, |q: int| tables@[q]@);
        if data.len() - pos < 2 {
            return Some(Vec::new());
        }
        let ctx = data[pos] as usize;
        let ns = data[pos + 1] as usize;
        let ghost p0 = pos;
        pos = pos + 2;
        let mut syms: Vec<u8> = Vec::new();
        let mut cnts: Vec<u32> = Vec::new();
        let mut e: usize = 0;
        while e < ns
            invariant
                d == data@,
                d.len() >= 6,
                original_len == u32_at(d, 0),
                original_len != 0,
                init == empty_tables(),
                active == u16_at(d, 4),
                p0 + 2 == pos,
                pos <= d.len(),
                k < active,
                ctx == d[p0 as int],
                ns == d[p0 + 1],
                parse_tables(d, p0 as int, (active - k) as int, tabs) == parse_tables(d, 6, active as int, init),
                e <= ns,
                read_entries(d, pos as int, e as int) == Some(Seq::new(syms@.len(), |i: int| (syms@[i], cnts@[i] as int))),
                syms@.len() == e,
                cnts@.len() == e,
            decreases ns - e,
        {
            if data.len() - pos < 3 * e + 3 {
                assert(read_entries(d, pos as int, e + 1) is None);
                assert(read_entries(d, pos as int, ns as int) is None) by {
                    lemma_read_entries_none(d, pos as int, e + 1, ns as int);
                }
                return Some(Vec::new());
            }
            let at = pos + 3 * e;
            let ghost l0 = Seq::new(syms@.len(), |i: int| (syms@[i], cnts@[i] as int));
            syms.push(data[at]);
            let f = read_u16_le(data, at + 1);
            cnts.push(f as u32);
            assert(Seq::new(syms@.len(), |i: int| (syms@[i], cnts@[i] as int)) =~= l0.push((d[at as int], u16_at(d, at + 1) as int)));
            e = e + 1;
        }
        let ghost l = Seq::new(syms@.len(), |i: int| (syms@[i], cnts@[i] as int));
        let (ss, _sc) = sort_entries(&syms, &cnts, Ghost(l));
        proof {
            assert(ss@ =~= symbols_of(sort_desc(l)));
        }
        tables.set(ctx, ss);
        assert(Seq::new(256, |q: int| tables@[q]@) =~= tabs.update(ctx as int, symbols_of(sort_desc(l))));
        pos = pos + 3 * ns;
        k = k + 1;
    }
    let ghost tabs = Seq::new(256, |q: int| tables@[q]@);
    let rest = &data[pos..data.len()];
    let ranks = match ans::decode_checked(rest) {
        Some(v) => v,
        None => {
            return None;
        },
    };
    assert(rest@ == d.subrange(pos as int, d.len() as int));
    let mut result: Vec<u8> = Vec::new();
    let mut prev: u8 = 0;
    let mut i: u32 = 0;
    while i < original_len
        invariant
            tables@.len() == 256,
            tabs == Seq::new(256, |q: int| tables@[q]@),
            unrank_from(ranks@, tabs, i as int, original_len as int, prev as int, result@)
                == unrank_from(ranks@, tabs, 0, original_len as int, 0, Seq::empty()),
        ensures
            result@ == unrank_from(ranks@, tabs, 0, original_len as int, 0, Seq::empty()),
        decreases original_len - i,
    {
        if i as usize >= ranks.len() {
            break;
        }
        let rank = ranks[i as usize] as usize;
        let t = &tables[prev as usize];
        assert(t@ == tabs[prev as int]);
        if rank < t.len() {
            let byte = t[rank];
            result.push(byte);
            prev = byte;
        } else {
            result.push(0);
            prev = 0;
        }
        i = i + 1;
    }
    Some(result)
}

proof fn lemma_read_entries_none(d: Seq<u8>, pos: int, a: int, b: int)
    requires
        0 < a <= b,
        read_entries(d, pos, a) is None,
    ensures
        read_entries(d, pos, b) is None,
    decreases b - a,
{
    if a < b {
        lemma_read_entries_none(d, pos, a, b - 1);
    }
}

/// Order-1 decodes `data`; decoding its rank stream must not fail (`decode_checked` tests
/// that).
pub fn decode(data: &[u8]) -> (r: Vec<u8>)
    requires
        order1_decoded(data@) is Some,
    ensures
        Some(r@) == order1_decoded(data@),
{
    match decode_checked(data) {
        Some(v) => v,
        None => Vec::new(),
    }
}

// ---------------------------------------------------------------------------------------------
// Reading back what `encode` writes
// ---------------------------------------------------------------------------------------------

/// The entries with their counts clamped to 65535, as they are stored.
pub open spec fn clamped(nz: Seq<(u8, int)>) -> Seq<(u8, int)> {
    Seq::new(nz.len(), |j: int| (nz[j].0, (if nz[j].1 > 65535 { 65535u16 } else { nz[j].1 as u16 }) as int))
}

/// True when every context table survives being stored: fewer than 256 symbols (the count is
/// one byte), and the clamped counts sort the symbols as the true counts do.
pub open spec fn order1_faithful(d: Seq<u8>) -> bool {
    forall|c: int| 0 <= c < 256 ==> {
        let nz = #[trigger] nonzero_from(ctx_row(d, c), 0);
        &&& nz.len() < 256
        &&& symbols_of(sort_desc(clamped(nz))) == symbols_of(sort_desc(nz))
    }
}

/// The tables the decoder holds after reading the stored tables of contexts `0 .. c`.
pub open spec fn tabs_upto(d: Seq<u8>, c: int) -> Seq<Seq<u8>> {
    Seq::new(256, |x: int| {
        let nz = nonzero_from(ctx_row(d, x), 0);
        if x < c && nz.len() > 0 { symbols_of(sort_desc(clamped(nz))) } else { Seq::empty() }
    })
}

proof fn lemma_entries_read(e: Seq<u8>, pos: int, nz: Seq<(u8, int)>)
    requires
        0 <= pos,
        pos + 3 * nz.len() <= e.len(),
        e.subrange(pos, pos + 3 * nz.len()) == entries_bytes(nz),
    ensures
        read_entries(e, pos, nz.len() as int) == Some(clamped(nz)),
    decreases nz.len(),
{
    lemma_entries_len(nz);
    if nz.len() == 0 {
        assert(clamped(nz) =~= Seq::<(u8, int)>::empty());
    } else {
        let n = nz.len() as int;
        let x = nz.last();
        let v: u16 = if x.1 > 65535 { 65535u16 } else { x.1 as u16 };
        let pre = entries_bytes(nz.drop_last());
        lemma_entries_len(nz.drop_last());
        lemma_le_lengths();
        assert(entries_bytes(nz) == pre + seq![x.0] + le16(v));
        assert(e.subrange(pos, pos + 3 * (n - 1)) =~= e.subrange(pos, pos + 3 * n).subrange(0, 3 * (n - 1)));
        assert((pre + seq![x.0] + le16(v)).subrange(0, 3 * (n - 1)) =~= pre);
        lemma_entries_read(e, pos, nz.drop_last());
        let at = pos + 3 * (n - 1);
        assert(e[at] == (pre + seq![x.0] + le16(v))[3 * (n - 1)]);
        assert(e.subrange(at + 1, at + 3) =~= (pre + seq![x.0] + le16(v)).subrange(3 * (n - 1) + 1, 3 * n));
        assert((pre + seq![x.0] + le16(v)).subrange(3 * (n - 1) + 1, 3 * n) =~= le16(v));
        vstd::bytes::lemma_auto_spec_u16_to_from_le_bytes();
        assert(u16_at(e, at + 1) == v);
        assert(clamped(nz) =~= clamped(nz.drop_last()).push((e[at], u16_at(e, at + 1) as int)));
    }
}

proof fn lemma_entries_len(nz: Seq<(u8, int)>)
    ensures
        entries_bytes(nz).len() == 3 * nz.len(),
    decreases nz.len(),
{
    lemma_le_lengths();
    if nz.len() > 0 {
        lemma_entries_len(nz.drop_last());
    }
}

proof fn lemma_parse_compose(e: Seq<u8>, pos: int, k1: int, k2: int, tabs: Seq<Seq<u8>>)
    requires
        0 <= k1,
        0 <= k2,
    ensures
        parse_tables(e, pos, k1 + k2, tabs) == match parse_tables(e, pos, k1, tabs) {
            None => None,
            Some(p) => parse_tables(e, p.1, k2, p.0),
        },
    decreases k1,
{
    if k1 > 0 && pos + 2 <= e.len() {
        let ns = e[pos + 1] as int;
        match read_entries(e, pos + 2, ns) {
            None => {},
            Some(l) => {
                lemma_parse_compose(e, pos + 2 + 3 * ns, k1 - 1, k2, tabs.update(e[pos] as int, symbols_of(sort_desc(l))));
            },
        }
    }
}

proof fn lemma_tables_prefix(d: Seq<u8>, c: int, c2: int)
    requires
        0 <= c <= c2,
    ensures
        tables_upto(d, c).len() <= tables_upto(d, c2).len(),
        tables_upto(d, c2).subrange(0, tables_upto(d, c).len() as int) == tables_upto(d, c),
    decreases c2,
{
    if c < c2 {
        lemma_tables_prefix(d, c, c2 - 1);
        let t = tables_upto(d, c2 - 1);
        let t2 = tables_upto(d, c2);
        assert(t2.subrange(0, t.len() as int) =~= t);
        assert(t2.subrange(0, tables_upto(d, c).len() as int) =~= t.subrange(0, tables_upto(d, c).len() as int));
    } else {
        assert(tables_upto(d, c2).subrange(0, tables_upto(d, c).len() as int) =~= tables_upto(d, c));
    }
}

proof fn lemma_active_range(d: Seq<u8>, c: int)
    requires
        0 <= c,
    ensures
        0 <= active_upto(d, c) <= c,
    decreases c,
{
    if c > 0 {
        lemma_active_range(d, c - 1);
    }
}

proof fn lemma_tables_parse(d: Seq<u8>, e: Seq<u8>, c: int)
    requires
        0 <= c <= 256,
        order1_faithful(d),
        6 + tables_upto(d, c).len() <= e.len(),
        e.subrange(6, 6int + tables_upto(d, c).len()) == tables_upto(d, c),
    ensures
        parse_tables(e, 6, active_upto(d, c), empty_tables()) == Some((tabs_upto(d, c), 6int + tables_upto(d, c).len())),
    decreases c,
{
    lemma_active_range(d, c);
    if c == 0 {
        assert(tabs_upto(d, 0) =~= empty_tables());
    } else {
        let t0 = tables_upto(d, c - 1);
        lemma_tables_prefix(d, c - 1, c);
        assert(e.subrange(6, 6int + t0.len()) =~= e.subrange(6, 6int + tables_upto(d, c).len()).subrange(0, t0.len() as int));
        lemma_tables_parse(d, e, c - 1);
        let nz = nonzero_from(ctx_row(d, c - 1), 0);
        let a0 = active_upto(d, c - 1);
        let tabs0 = tabs_upto(d, c - 1);
        if nz.len() == 0 {
            assert(tabs_upto(d, c) =~= tabs0);
        } else {
            assert(nz.len() < 256);
            lemma_active_range(d, c - 1);
            lemma_parse_compose(e, 6, a0, 1, empty_tables());
            lemma_entries_len(nz);
            let tl: int = t0.len() as int;
            let ns: int = nz.len() as int;
            let p: int = 6 + tl;
            let piece = seq![(c - 1) as u8, nz.len() as u8] + entries_bytes(nz);
            assert(tables_upto(d, c) == t0 + piece);
            let whole = e.subrange(6, 6int + tables_upto(d, c).len());
            assert(e[p] == whole[tl]);
            assert(e[p + 1] == whole[tl + 1]);
            assert(e[p] == (c - 1) as u8);
            assert(e[p + 1] as int == ns);
            assert(e.subrange(p + 2, p + 2 + 3 * ns) =~= whole.subrange(tl + 2, tl + 2 + 3 * ns));
            assert((t0 + piece).subrange(tl + 2, tl + 2 + 3 * ns) =~= entries_bytes(nz));
            lemma_entries_read(e, p + 2, nz);
            assert(tabs_upto(d, c) =~= tabs0.update(c - 1, symbols_of(sort_desc(clamped(nz)))));
            assert(parse_tables(e, p, 1, tabs0) == parse_tables(e, p + 2 + 3 * ns, 0, tabs0.update(c - 1, symbols_of(sort_desc(clamped(nz))))));
        }
    }
}

proof fn lemma_nz_contains(row: Seq<int>, s: int, b: int)
    requires
        0 <= s <= b < 256,
        row[b] > 0,
    ensures
        nonzero_from(row, s).contains((b as u8, row[b])),
    decreases 256 - s,
{
    if s == b {
        assert(nonzero_from(row, s)[0] == (b as u8, row[b]));
    } else {
        lemma_nz_contains(row, s + 1, b);
        let rest = nonzero_from(row, s + 1);
        let j = choose|j: int| 0 <= j < rest.len() && rest[j] == (b as u8, row[b]);
        if row[s] > 0 {
            assert(nonzero_from(row, s)[j + 1] == rest[j]);
        }
    }
}

proof fn lemma_sort_contains(list: Seq<(u8, int)>, x: (u8, int))
    requires
        list.contains(x),
    ensures
        sort_desc(list).contains(x),
    decreases list.len(),
{
    let s = sort_desc(list.drop_last());
    let y = list.last();
    let k = insert_pos(s, y.1, 0);
    lemma_insert_pos_range(s, y.1, 0);
    s.insert_ensures(k, y);
    if x == y {
        assert(s.insert(k, y)[k] == x);
    } else {
        let j = choose|j: int| 0 <= j < list.len() && list[j] == x;
        assert(list.drop_last()[j] == x);
        lemma_sort_contains(list.drop_last(), x);
        let i = choose|i: int| 0 <= i < s.len() && s[i] == x;
        if i < k {
            assert(s.insert(k, y)[i] == x);
        } else {
            assert(s.insert(k, y)[i + 1] == x);
        }
    }
}

proof fn lemma_rank_found(sorted: Seq<(u8, int)>, sym: int, r: int, j: int)
    requires
        0 <= j < r <= sorted.len(),
        sorted[j].0 == sym,
    ensures
        0 <= rank_in(sorted, sym, r) < r,
        sorted[rank_in(sorted, sym, r)].0 == sym,
    decreases r,
{
    if sorted[r - 1].0 != sym {
        lemma_rank_found(sorted, sym, r - 1, j);
    }
}

proof fn lemma_pair_seen(d: Seq<u8>, k: int, m: int)
    requires
        0 <= k < m <= d.len(),
    ensures
        pair_count(d, prev_of(d, k), d[k] as int, m) >= 1,
    decreases m,
{
    if m - 1 > k {
        lemma_pair_seen(d, k, m - 1);
    } else {
        lemma_pair_count_bound(d, prev_of(d, k), d[k] as int, m - 1);
    }
}

/// The table of the context before position `k` ranks the byte at `k` at its stored rank.
proof fn lemma_rank_of(d: Seq<u8>, k: int)
    requires
        0 <= k < d.len(),
    ensures
        ({
            let sorted = ranked(d, prev_of(d, k));
            let r = rank_in(sorted, d[k] as int, sorted.len() as int);
            &&& nonzero_from(ctx_row(d, prev_of(d, k)), 0).len() > 0
            &&& 0 <= r < sorted.len() <= 256
            &&& sorted[r].0 == d[k]
        }),
{
    let ctx = prev_of(d, k);
    let row = ctx_row(d, ctx);
    let b = d[k] as int;
    lemma_pair_seen(d, k, d.len() as int);
    assert(row[b] > 0);
    lemma_nz_contains(row, 0, b);
    let nz = nonzero_from(row, 0);
    lemma_sort_contains(nz, (b as u8, row[b]));
    let sorted = sort_desc(nz);
    lemma_sort_len(nz);
    lemma_nonzero_len(row, 0);
    let j = choose|j: int| 0 <= j < sorted.len() && sorted[j] == (b as u8, row[b]);
    lemma_rank_found(sorted, b, sorted.len() as int, j);
}

proof fn lemma_unrank(d: Seq<u8>, tabs: Seq<Seq<u8>>, i: int)
    requires
        0 <= i <= d.len(),
        tabs.len() == 256,
        forall|c: int| 0 <= c < 256 && nonzero_from(ctx_row(d, c), 0).len() > 0 ==> #[trigger] tabs[c] == symbols_of(ranked(d, c)),
    ensures
        unrank_from(rank_stream(d), tabs, i, d.len() as int, prev_of(d, i), d.subrange(0, i)) == d,
    decreases d.len() - i,
{
    let n = d.len() as int;
    if i == n {
        assert(d.subrange(0, n) =~= d);
    } else {
        lemma_rank_of(d, i);
        let ctx = prev_of(d, i);
        let sorted = ranked(d, ctx);
        let r = rank_in(sorted, d[i] as int, sorted.len() as int);
        assert(rank_stream(d)[i] == r as u8);
        assert((r as u8) as int == r);
        let t = tabs[ctx];
        assert(t == symbols_of(sorted));
        assert(t[r] == d[i]);
        assert(d.subrange(0, i).push(d[i]) =~= d.subrange(0, i + 1));
        assert(prev_of(d, i + 1) == d[i] as int);
        lemma_unrank(d, tabs, i + 1);
    }
}

/// Decoding what `encode` writes for `d` gives back `d`, for data whose context tables
/// survive being stored (see `order1_faithful`).
pub proof fn lemma_order1_roundtrip(d: Seq<u8>)
    requires
        order1_encoded(d) is Some,
        order1_faithful(d),
        d.len() <= u32::MAX,
    ensures
        order1_decoded(order1_encoded(d)->0) == Some(d),
{
    let n = d.len() as int;
    let a = active_upto(d, 256);
    let t = tables_upto(d, 256);
    let rs = rank_stream(d);
    let ae = ans::ans_encoded(rs);
    lemma_le_lengths();
    lemma_active_range(d, 256);
    let e = le32(n as u32) + le16(a as u16) + t + ae;
    assert(order1_encoded(d)->0 == e);
    crate::bytes::lemma_u32_at(Seq::empty(), n as u32, le16(a as u16) + t + ae);
    assert(Seq::<u8>::empty() + le32(n as u32) + (le16(a as u16) + t + ae) =~= e);
    crate::bytes::lemma_u16_at(le32(n as u32), a as u16, t + ae);
    assert(le32(n as u32) + le16(a as u16) + (t + ae) =~= e);
    assert(u32_at(e, 0) == n);
    assert(u16_at(e, 4) as int == a);
    let tl: int = t.len() as int;
    assert(e.subrange(6, 6 + tl) =~= t);
    lemma_tables_parse(d, e, 256);
    assert(e.subrange(6 + tl, e.len() as int) =~= ae);
    ans::lemma_ans_roundtrip(rs);
    let tabs = tabs_upto(d, 256);
    assert forall|c: int| 0 <= c < 256 && nonzero_from(ctx_row(d, c), 0).len() > 0 implies #[trigger] tabs[c] == symbols_of(ranked(d, c)) by {
        let nz = nonzero_from(ctx_row(d, c), 0);
        assert(symbols_of(sort_desc(clamped(nz))) == symbols_of(sort_desc(nz)));
    }
    lemma_unrank(d, tabs, 0);
    assert(d.subrange(0, 0) =~= Seq::<u8>::empty());
}

} // verus!
