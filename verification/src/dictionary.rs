//! A dictionary of byte patterns learned from the input: the 4-, 8- and 16-byte windows that
//! occur at least three times, ranked by how many bytes they cover (count times length).
//!
//! Serialized layout: `[u32 entry count]`, then per entry `[u16 length] [bytes]`.
use vstd::prelude::*;
use vstd::wrapping::u64_specs;
use crate::bytes::{
    le16, le32, u16_at, u32_at, push_u16_le, push_u32_le, read_u16_le, read_u32_le, append_bytes,
    lemma_u16_at, lemma_u32_at, lemma_le_lengths,
};

verus! {

/// FNV-1a offset basis.
pub const FNV_OFFSET: u64 = 0xcbf2_9ce4_8422_2325;

/// FNV-1a prime.
pub const FNV_PRIME: u64 = 0x0000_0100_0000_01b3;

/// The 64-bit FNV-1a hash of `s`.
pub open spec fn fnv1a(s: Seq<u8>) -> u64
    decreases s.len(),
{
    if s.len() == 0 {
        FNV_OFFSET
    } else {
        u64_specs::wrapping_mul(fnv1a(s.drop_last()) ^ (s.last() as u64), FNV_PRIME)
    }
}

/// The byte contents of a list of patterns.
pub open spec fn patterns(es: Seq<Vec<u8>>) -> Seq<Seq<u8>> {
    Seq::new(es.len(), |i: int| es[i]@)
}

/// The index of the first pattern at or after `i` equal to `p`.
pub open spec fn first_equal(es: Seq<Seq<u8>>, p: Seq<u8>, i: int) -> Option<usize>
    decreases es.len() - i,
{
    if i < 0 || i >= es.len() {
        None
    } else if es[i] == p {
        Some(i as usize)
    } else {
        first_equal(es, p, i + 1)
    }
}

/// What `find` answers for `d`: the first entry equal to the 16-, then 8-, then 4-byte prefix
/// of `d` (the longest prefix that has one wins); nothing when `d` is shorter than `min_match`.
pub open spec fn lookup(es: Seq<Seq<u8>>, min_match: usize, d: Seq<u8>) -> Option<usize> {
    if d.len() < min_match {
        None
    } else if d.len() >= 16 && first_equal(es, d.take(16), 0) is Some {
        first_equal(es, d.take(16), 0)
    } else if d.len() >= 8 && first_equal(es, d.take(8), 0) is Some {
        first_equal(es, d.take(8), 0)
    } else if d.len() >= 4 {
        first_equal(es, d.take(4), 0)
    } else {
        None
    }
}

/// One serialized entry: its length (kept to 16 bits) and its bytes.
pub open spec fn entry_bytes(e: Seq<u8>) -> Seq<u8> {
    le16(e.len() as u16) + e
}

/// The serialized entries, in order.
pub open spec fn entries_bytes(es: Seq<Seq<u8>>) -> Seq<u8>
    decreases es.len(),
{
    if es.len() == 0 {
        Seq::empty()
    } else {
        entry_bytes(es[0]) + entries_bytes(es.drop_first())
    }
}

/// The serialized form of a dictionary with entries `es`.
pub open spec fn serialized(es: Seq<Seq<u8>>) -> Seq<u8> {
    le32(es.len() as u32) + entries_bytes(es)
}

/// Up to `k` entries read from `d` at `pos`; reading stops at the first entry that does not fit.
pub open spec fn parse_entries(d: Seq<u8>, pos: int, k: int) -> Seq<Seq<u8>>
    decreases k,
{
    if k <= 0 || pos < 0 || pos + 2 > d.len() {
        Seq::empty()
    } else {
        let len = u16_at(d, pos) as int;
        if pos + 2 + len > d.len() {
            Seq::empty()
        } else {
            seq![d.subrange(pos + 2, pos + 2 + len)] + parse_entries(d, pos + 2 + len, k - 1)
        }
    }
}

/// The entries that deserializing `d` yields, or `None` when `d` has no count.
pub open spec fn deserialized(d: Seq<u8>) -> Option<Seq<Seq<u8>>> {
    if d.len() < 4 {
        None
    } else {
        Some(parse_entries(d, 4, u32_at(d, 0) as int))
    }
}

/// The `w`-byte window of `d` at `i`.
pub open spec fn window(d: Seq<u8>, w: int, i: int) -> Seq<u8> {
    d.subrange(i, i + w)
}

/// The number of `w`-byte windows in `n` bytes.
pub open spec fn window_count(n: int, w: int) -> int {
    if n >= w {
        n - w + 1
    } else {
        0
    }
}

/// How many of the first `k` `w`-byte windows of `d` equal `p`.
pub open spec fn occurrences(d: Seq<u8>, w: int, p: Seq<u8>, k: int) -> int
    decreases k,
{
    if k <= 0 {
        0
    } else {
        occurrences(d, w, p, k - 1) + if window(d, w, k - 1) == p { 1int } else { 0int }
    }
}

/// Whether the `w`-byte window at `i` is the first one with its bytes.
pub open spec fn first_at(d: Seq<u8>, w: int, i: int) -> bool {
    forall|j: int| 0 <= j < i ==> window(d, w, j) != #[trigger] window(d, w, i)
}

/// The distinct `w`-byte windows among the first `k` that occur at least 3 times in `d`, in
/// order of first occurrence, each with its savings (occurrences times `w`).
pub open spec fn frequent_from(d: Seq<u8>, w: int, k: int) -> Seq<(Seq<u8>, int)>
    decreases k,
{
    if k <= 0 {
        Seq::empty()
    } else {
        let prev = frequent_from(d, w, k - 1);
        let c = occurrences(d, w, window(d, w, k - 1), window_count(d.len() as int, w));
        if first_at(d, w, k - 1) && c >= 3 {
            prev.push((window(d, w, k - 1), c * w))
        } else {
            prev
        }
    }
}

/// The frequent 4-, 8- and 16-byte windows of `d` (none below 8 bytes).
pub open spec fn candidates(d: Seq<u8>) -> Seq<(Seq<u8>, int)> {
    let n = d.len() as int;
    if n < 8 {
        Seq::empty()
    } else {
        frequent_from(d, 4, window_count(n, 4)) + frequent_from(d, 8, window_count(n, 8))
            + frequent_from(d, 16, window_count(n, 16))
    }
}

/// Where an entry with savings `f` goes in a list sorted by descending savings: before the
/// first entry that saves less.
pub open spec fn savings_pos(sorted: Seq<(Seq<u8>, int)>, f: int, k: int) -> int
    decreases sorted.len() - k,
{
    if k >= sorted.len() || k < 0 {
        sorted.len() as int
    } else if sorted[k].1 < f {
        k
    } else {
        savings_pos(sorted, f, k + 1)
    }
}

/// Stable sort by descending savings.
pub open spec fn by_savings(list: Seq<(Seq<u8>, int)>) -> Seq<(Seq<u8>, int)>
    decreases list.len(),
{
    if list.len() == 0 {
        Seq::empty()
    } else {
        let s = by_savings(list.drop_last());
        s.insert(savings_pos(s, list.last().1, 0), list.last())
    }
}

/// The entries of the dictionary built from `d`: the `max` candidates that save the most.
pub open spec fn built(d: Seq<u8>, max: int) -> Seq<Seq<u8>> {
    let s = by_savings(candidates(d));
    let m = if max < s.len() { max } else { s.len() as int };
    Seq::new(m as nat, |i: int| s[i].0)
}

/// `pats` and `savs` list the pairs of `l`.
pub open spec fn same_pairs(pats: Seq<Vec<u8>>, savs: Seq<u64>, l: Seq<(Seq<u8>, int)>) -> bool {
    &&& pats.len() == l.len()
    &&& savs.len() == l.len()
    &&& forall|i: int| 0 <= i < l.len() ==> #[trigger] pats[i]@ == l[i].0
    &&& forall|i: int| 0 <= i < l.len() ==> #[trigger] savs[i] as int == l[i].1
}

/// A set of byte patterns, found by exact comparison.
#[derive(Debug)]
pub struct Dictionary {
    /// The patterns; an entry's index is its id.
    pub entries: Vec<Vec<u8>>,
    /// The FNV-1a hash of each entry, kept in step with `entries` by the methods; a lookup
    /// compares bytes only where the hashes agree.
    pub hashes: Vec<u64>,
    /// Inputs shorter than this are never looked up.
    pub min_match: usize,
}

impl Dictionary {
    /// The entries' bytes.
    pub open spec fn entry_view(&self) -> Seq<Seq<u8>> {
        patterns(self.entries@)
    }

    /// The hash index agrees with the entries.
    pub open spec fn wf(&self) -> bool {
        &&& self.hashes@.len() == self.entries@.len()
        &&& forall|i: int| 0 <= i < self.entries@.len() ==> self.hashes@[i] == fnv1a(#[trigger] self.entries@[i]@)
    }

    /// An empty dictionary that looks up inputs of 4 bytes or more.
    pub fn new() -> (r: Dictionary)
        ensures
            r.wf(),
            r.entry_view() == Seq::<Seq<u8>>::empty(),
            r.min_match == 4,
    {
        let r = Dictionary { entries: Vec::new(), hashes: Vec::new(), min_match: 4 };
        assert(r.entry_view() =~= Seq::<Seq<u8>>::empty());
        r
    }

    /// Appends `p` as the next entry.
    fn push_entry(&mut self, p: Vec<u8>)
        requires
            old(self).wf(),
        ensures
            final(self).wf(),
            final(self).entry_view() == old(self).entry_view().push(p@),
            final(self).min_match == old(self).min_match,
    {
        let h = hash_bytes(p.as_slice());
        self.hashes.push(h);
        self.entries.push(p);
        assert(self.entry_view() =~= old(self).entry_view().push(p@));
    }

    /// A dictionary of the windows of `data` that save the most: the 4-, 8- and 16-byte windows
    /// that occur at least 3 times, ranked by occurrences times length (on a tie, 4-byte windows
    /// before longer ones, then by first occurrence), at most `max_entries` of them. Inputs under
    /// 8 bytes give an empty dictionary.
    pub fn build_from_data(data: &[u8], max_entries: usize) -> (r: Dictionary)
        requires
            data@.len() <= u32::MAX,
        ensures
            r.wf(),
            r.min_match == 4,
            r.entry_view() == built(data@, max_entries as int),
            forall|i: int| 0 <= i < r.entry_view().len() ==> {
                let e = #[trigger] r.entry_view()[i];
                frequent_window(data@, 4, e) || frequent_window(data@, 8, e) || frequent_window(data@, 16, e)
            },
    {
        proof { lemma_built_entries_frequent(data@, max_entries as int); }
        let mut dict = Dictionary::new();
        if data.len() < 8 {
            assert(built(data@, max_entries as int) =~= Seq::<Seq<u8>>::empty());
            return dict;
        }
        let mut pats: Vec<Vec<u8>> = Vec::new();
        let mut savs: Vec<u64> = Vec::new();
        collect_frequent(data, 4, &mut pats, &mut savs, Ghost(Seq::empty()));
        let ghost l4 = frequent_from(data@, 4, window_count(data@.len() as int, 4));
        assert(Seq::<(Seq<u8>, int)>::empty() + l4 =~= l4);
        collect_frequent(data, 8, &mut pats, &mut savs, Ghost(l4));
        let ghost l8 = l4 + frequent_from(data@, 8, window_count(data@.len() as int, 8));
        if data.len() >= 16 {
            collect_frequent(data, 16, &mut pats, &mut savs, Ghost(l8));
        } else {
            assert(frequent_from(data@, 16, window_count(data@.len() as int, 16)) == Seq::<(Seq<u8>, int)>::empty());
            assert(l8 + Seq::<(Seq<u8>, int)>::empty() =~= l8);
        }
        let ghost cands = candidates(data@);
        assert(same_pairs(pats@, savs@, cands));
        let (sp, _ss) = sort_by_savings(&pats, &savs, Ghost(cands));
        let ghost sorted = by_savings(cands);
        proof {
            lemma_sort_len(cands);
        }
        let m: usize = if max_entries < sp.len() { max_entries } else { sp.len() };
        let mut k: usize = 0;
        while k < m
            invariant
                dict.wf(),
                dict.min_match == 4,
                m <= sp@.len(),
                sp@.len() == sorted.len(),
                forall|i: int| 0 <= i < sorted.len() ==> #[trigger] sp@[i]@ == sorted[i].0,
                k <= m,
                dict.entry_view() == Seq::new(k as nat, |i: int| sorted[i].0),
            decreases m - k,
        {
            let e = crate::bytes::copy_range(sp[k].as_slice(), 0, sp[k].len());
            assert(sp[k as int]@.subrange(0, sp[k as int]@.len() as int) =~= sp[k as int]@);
            let ghost before = dict.entry_view();
            dict.push_entry(e);
            assert(before.push(e@) =~= Seq::new((k + 1) as nat, |i: int| sorted[i].0));
            k = k + 1;
        }
        assert(dict.entry_view() =~= built(data@, max_entries as int));
        dict
    }

    /// The index of the first entry equal to `p`.
    fn find_exact(&self, p: &[u8]) -> (r: Option<usize>)
        requires
            self.wf(),
        ensures
            r == first_equal(self.entry_view(), p@, 0),
    {
        let h = hash_bytes(p);
        let ghost es = self.entry_view();
        let mut i: usize = 0;
        while i < self.entries.len()
            invariant
                self.wf(),
                es == self.entry_view(),
                h == fnv1a(p@),
                i <= self.entries@.len(),
                first_equal(es, p@, 0) == first_equal(es, p@, i as int),
            decreases self.entries@.len() - i,
        {
            assert(es[i as int] == self.entries@[i as int]@);
            if self.hashes[i] == h && same_bytes(self.entries[i].as_slice(), p) {
                return Some(i);
            }
            assert(es[i as int] != p@);
            i = i + 1;
        }
        None
    }

    /// The entry matching the longest of the 16-, 8- and 4-byte prefixes of `data` that has one.
    pub fn find(&self, data: &[u8]) -> (r: Option<usize>)
        requires
            self.wf(),
        ensures
            r == lookup(self.entry_view(), self.min_match, data@),
    {
        if data.len() < self.min_match {
            return None;
        }
        if data.len() >= 16 {
            assert(data@.subrange(0, 16) =~= data@.take(16));
            let r = self.find_exact(&data[0..16]);
            if r.is_some() {
                return r;
            }
        }
        if data.len() >= 8 {
            assert(data@.subrange(0, 8) =~= data@.take(8));
            let r = self.find_exact(&data[0..8]);
            if r.is_some() {
                return r;
            }
        }
        if data.len() >= 4 {
            assert(data@.subrange(0, 4) =~= data@.take(4));
            return self.find_exact(&data[0..4]);
        }
        None
    }

    /// The serialized dictionary.
    pub fn serialize(&self) -> (r: Vec<u8>)
        ensures
            r@ == serialized(self.entry_view()),
    {
        let ghost es = self.entry_view();
        let mut out: Vec<u8> = Vec::new();
        push_u32_le(&mut out, self.entries.len() as u32);
        let mut i: usize = 0;
        while i < self.entries.len()
            invariant
                es == self.entry_view(),
                i <= es.len(),
                out@ == le32(es.len() as u32) + entries_bytes(es.take(i as int)),
            decreases es.len() - i,
        {
            let e = &self.entries[i];
            assert(e@ == es[i as int]);
            push_u16_le(&mut out, e.len() as u16);
            append_bytes(&mut out, e.as_slice());
            proof {
                lemma_entries_bytes_push(es.take(i as int), es[i as int]);
                assert(es.take(i as int).push(es[i as int]) =~= es.take(i + 1));
            }
            i = i + 1;
        }
        assert(es.take(es.len() as int) =~= es);
        out
    }

    /// Reads a serialized dictionary; `None` when `data` is shorter than its count. Entries that
    /// do not fit in `data` end the reading.
    pub fn deserialize(data: &[u8]) -> (r: Option<Dictionary>)
        ensures
            match r {
                None => deserialized(data@) is None,
                Some(d) => d.wf() && d.min_match == 4 && deserialized(data@) == Some(d.entry_view()),
            },
    {
        if data.len() < 4 {
            return None;
        }
        let count = read_u32_le(data, 0);
        let mut dict = Dictionary::new();
        let mut pos: usize = 4;
        let mut c: u32 = 0;
        let ghost total = parse_entries(data@, 4, count as int);
        while c < count
            invariant_except_break
                dict.wf(),
                dict.min_match == 4,
                4 <= pos <= data@.len(),
                c <= count,
                total == parse_entries(data@, 4, count as int),
                dict.entry_view() + parse_entries(data@, pos as int, (count - c) as int) == total,
            ensures
                dict.wf(),
                dict.min_match == 4,
                dict.entry_view() == total,
            decreases count - c,
        {
            if data.len() - pos < 2 {
                proof {
                    assert(dict.entry_view() + Seq::<Seq<u8>>::empty() =~= dict.entry_view());
                }
                break;
            }
            let len = read_u16_le(data, pos) as usize;
            if data.len() - pos - 2 < len {
                proof {
                    assert(dict.entry_view() + Seq::<Seq<u8>>::empty() =~= dict.entry_view());
                }
                break;
            }
            let pattern = crate::bytes::copy_range(data, pos + 2, pos + 2 + len);
            let ghost before = dict.entry_view();
            let ghost rest = parse_entries(data@, (pos + 2 + len) as int, (count - c - 1) as int);
            assert(parse_entries(data@, pos as int, (count - c) as int) == seq![pattern@] + rest);
            dict.push_entry(pattern);
            assert(before + (seq![pattern@] + rest) =~= before.push(pattern@) + rest);
            pos = pos + 2 + len;
            c = c + 1;
        }
        proof {
            if c >= count {
                assert(parse_entries(data@, pos as int, (count - c) as int) == Seq::<Seq<u8>>::empty());
                assert(dict.entry_view() + Seq::<Seq<u8>>::empty() =~= dict.entry_view());
            }
        }
        Some(dict)
    }
}

/// Whether the `w`-byte windows of `data` at `a` and `b` hold the same bytes.
fn same_window(data: &[u8], w: usize, a: usize, b: usize) -> (r: bool)
    requires
        a + w <= data.len(),
        b + w <= data.len(),
    ensures
        r == (window(data@, w as int, a as int) == window(data@, w as int, b as int)),
{
    same_bytes(&data[a..a + w], &data[b..b + w])
}

/// Whether an earlier `w`-byte window of `data` has the bytes of the one at `i`.
fn seen_before(data: &[u8], w: usize, i: usize) -> (r: bool)
    requires
        i + w <= data.len(),
    ensures
        r == !first_at(data@, w as int, i as int),
{
    let mut j: usize = 0;
    while j < i
        invariant
            i + w <= data.len(),
            j <= i,
            forall|q: int| 0 <= q < j ==> window(data@, w as int, q) != window(data@, w as int, i as int),
        decreases i - j,
    {
        if same_window(data, w, j, i) {
            return true;
        }
        j = j + 1;
    }
    false
}

/// How many `w`-byte windows of `data` equal the one at `i`.
fn count_window(data: &[u8], w: usize, i: usize) -> (c: u64)
    requires
        1 <= w <= data@.len() <= u32::MAX,
        i + w <= data@.len(),
    ensures
        c == occurrences(data@, w as int, window(data@, w as int, i as int), window_count(data@.len() as int, w as int)),
        c <= window_count(data@.len() as int, w as int),
{
    let nw: usize = data.len() - w + 1;
    let ghost p = window(data@, w as int, i as int);
    let mut c: u64 = 0;
    let mut j: usize = 0;
    while j < nw
        invariant
            1 <= w <= data@.len() <= u32::MAX,
            i + w <= data@.len(),
            nw == data@.len() - w + 1,
            p == window(data@, w as int, i as int),
            j <= nw,
            c == occurrences(data@, w as int, p, j as int),
            c <= j,
        decreases nw - j,
    {
        assert(occurrences(data@, w as int, p, j + 1) == occurrences(data@, w as int, p, j as int)
            + if window(data@, w as int, j as int) == p { 1int } else { 0int });
        if same_window(data, w, j, i) {
            c = c + 1;
        }
        j = j + 1;
    }
    c
}

/// Appends the frequent `w`-byte windows of `data` and their savings.
fn collect_frequent(
    data: &[u8],
    w: usize,
    pats: &mut Vec<Vec<u8>>,
    savs: &mut Vec<u64>,
    Ghost(l): Ghost<Seq<(Seq<u8>, int)>>,
)
    requires
        1 <= w <= 16,
        w <= data@.len() <= u32::MAX,
        same_pairs(old(pats)@, old(savs)@, l),
    ensures
        same_pairs(final(pats)@, final(savs)@, l + frequent_from(data@, w as int, window_count(data@.len() as int, w as int))),
{
    let nw: usize = data.len() - w + 1;
    let mut i: usize = 0;
    while i < nw
        invariant
            1 <= w <= 16,
            w <= data@.len() <= u32::MAX,
            nw == data@.len() - w + 1,
            i <= nw,
            same_pairs(pats@, savs@, l + frequent_from(data@, w as int, i as int)),
        decreases nw - i,
    {
        let ghost prev = l + frequent_from(data@, w as int, i as int);
        if !seen_before(data, w, i) {
            let c = count_window(data, w, i);
            if c >= 3 {
                let p = crate::bytes::copy_range(data, i, i + w);
                assert(c * w <= 16 * 0x1_0000_0000u64) by (nonlinear_arith)
                    requires c <= 0x1_0000_0000u64, w <= 16;
                let sv: u64 = c * (w as u64);
                pats.push(p);
                savs.push(sv);
                assert(l + frequent_from(data@, w as int, i + 1) =~= prev.push((window(data@, w as int, i as int), c * w)));
            } else {
                assert(l + frequent_from(data@, w as int, i + 1) =~= prev);
            }
        } else {
            assert(l + frequent_from(data@, w as int, i + 1) =~= prev);
        }
        i = i + 1;
    }
}

/// Stable sort of the pairs by descending savings.
fn sort_by_savings(pats: &Vec<Vec<u8>>, savs: &Vec<u64>, Ghost(l): Ghost<Seq<(Seq<u8>, int)>>) -> (r: (Vec<Vec<u8>>, Vec<u64>))
    requires
        same_pairs(pats@, savs@, l),
    ensures
        same_pairs(r.0@, r.1@, by_savings(l)),
{
    let mut sp: Vec<Vec<u8>> = Vec::new();
    let mut ss: Vec<u64> = Vec::new();
    let mut i: usize = 0;
    while i < pats.len()
        invariant
            same_pairs(pats@, savs@, l),
            i <= l.len(),
            same_pairs(sp@, ss@, by_savings(l.take(i as int))),
        decreases l.len() - i,
    {
        let ghost sorted = by_savings(l.take(i as int));
        let f = savs[i];
        let mut k: usize = 0;
        while k < ss.len() && ss[k] >= f
            invariant
                same_pairs(sp@, ss@, sorted),
                k <= ss@.len(),
                savings_pos(sorted, f as int, k as int) == savings_pos(sorted, f as int, 0),
            decreases ss@.len() - k,
        {
            k = k + 1;
        }
        let p = crate::bytes::copy_range(pats[i].as_slice(), 0, pats[i].len());
        proof {
            assert(pats@[i as int]@.subrange(0, pats@[i as int]@.len() as int) =~= pats@[i as int]@);
            lemma_savings_pos_range(sorted, f as int, 0);
            lemma_insert_pairs(sp@, ss@, sorted, k as int, p, f);
            lemma_by_savings_step(l, i as int);
        }
        sp.insert(k, p);
        ss.insert(k, f);
        i = i + 1;
    }
    assert(l.take(l.len() as int) =~= l);
    (sp, ss)
}

proof fn lemma_first_equal(es: Seq<Seq<u8>>, p: Seq<u8>, i: int)
    requires
        0 <= i,
        es.len() <= usize::MAX,
    ensures
        first_equal(es, p, i) matches Some(k) ==> i <= k < es.len() && es[k as int] == p,
        first_equal(es, p, i) is None ==> forall|j: int| i <= j < es.len() ==> es[j] != p,
    decreases es.len() - i,
{
    if i < es.len() && es[i] != p {
        lemma_first_equal(es, p, i + 1);
    }
}

/// What `find` answers: nothing for data shorter than `min_match`; an answer is an entry equal
/// to the 16-, 8- or 4-byte prefix of the data, and no entry equals a longer one of those
/// prefixes; no answer means no entry equals any of them.
pub proof fn lemma_lookup_law(es: Seq<Seq<u8>>, min_match: usize, d: Seq<u8>)
    requires
        es.len() <= usize::MAX,
    ensures
        d.len() < min_match ==> lookup(es, min_match, d) is None,
        lookup(es, min_match, d) matches Some(k) ==> {
            &&& k < es.len()
            &&& (es[k as int].len() == 16 || es[k as int].len() == 8 || es[k as int].len() == 4)
            &&& es[k as int].len() <= d.len()
            &&& es[k as int] == d.take(es[k as int].len() as int)
            &&& (es[k as int].len() < 16 && d.len() >= 16 ==> forall|j: int| 0 <= j < es.len() ==> es[j] != d.take(16))
            &&& (es[k as int].len() < 8 && d.len() >= 8 ==> forall|j: int| 0 <= j < es.len() ==> es[j] != d.take(8))
        },
        d.len() >= min_match && lookup(es, min_match, d) is None ==> forall|j: int, l: int|
            0 <= j < es.len() && (l == 16 || l == 8 || l == 4) && l <= d.len() ==> es[j] != d.take(l),
{
    lemma_first_equal(es, d.take(16), 0);
    lemma_first_equal(es, d.take(8), 0);
    lemma_first_equal(es, d.take(4), 0);
}

proof fn lemma_savings_pos_range(sorted: Seq<(Seq<u8>, int)>, f: int, k: int)
    requires
        0 <= k,
    ensures
        (k <= sorted.len() ==> k <= savings_pos(sorted, f, k)),
        0 <= savings_pos(sorted, f, k) <= sorted.len(),
    decreases sorted.len() - k,
{
    if k < sorted.len() && sorted[k].1 >= f {
        lemma_savings_pos_range(sorted, f, k + 1);
    }
}

proof fn lemma_insert_pairs(sp: Seq<Vec<u8>>, ss: Seq<u64>, sorted: Seq<(Seq<u8>, int)>, k: int, p: Vec<u8>, f: u64)
    requires
        same_pairs(sp, ss, sorted),
        0 <= k <= sorted.len(),
    ensures
        same_pairs(sp.insert(k, p), ss.insert(k, f), sorted.insert(k, (p@, f as int))),
{
    sp.insert_ensures(k, p);
    ss.insert_ensures(k, f);
    sorted.insert_ensures(k, (p@, f as int));
    let t = sorted.insert(k, (p@, f as int));
    assert forall|q: int| 0 <= q < t.len() implies #[trigger] sp.insert(k, p)[q]@ == t[q].0 by {
        if q > k {
            assert(sp.insert(k, p)[(q - 1) + 1] == sp[q - 1]);
            assert(t[(q - 1) + 1] == sorted[q - 1]);
        }
    }
    assert forall|q: int| 0 <= q < t.len() implies #[trigger] ss.insert(k, f)[q] as int == t[q].1 by {
        if q > k {
            assert(ss.insert(k, f)[(q - 1) + 1] == ss[q - 1]);
            assert(t[(q - 1) + 1] == sorted[q - 1]);
        }
    }
}

proof fn lemma_by_savings_step(l: Seq<(Seq<u8>, int)>, i: int)
    requires
        0 <= i < l.len(),
    ensures
        by_savings(l.take(i + 1)) == by_savings(l.take(i)).insert(
            savings_pos(by_savings(l.take(i)), l[i].1, 0),
            l[i],
        ),
{
    let li = l.take(i + 1);
    assert(li.drop_last() =~= l.take(i));
    assert(li.last() == l[i]);
}

proof fn lemma_sort_len(list: Seq<(Seq<u8>, int)>)
    ensures
        by_savings(list).len() == list.len(),
    decreases list.len(),
{
    if list.len() > 0 {
        lemma_sort_len(list.drop_last());
        lemma_savings_pos_range(by_savings(list.drop_last()), list.last().1, 0);
    }
}

/// `e` is a `w`-byte window of `d` that occurs at least three times among its `w`-byte windows.
pub open spec fn frequent_window(d: Seq<u8>, w: int, e: Seq<u8>) -> bool {
    &&& e.len() == w
    &&& w <= d.len()
    &&& exists|i: int| 0 <= i <= d.len() - w && #[trigger] d.subrange(i, i + w) == e
    &&& occurrences(d, w, e, window_count(d.len() as int, w)) >= 3
}

proof fn lemma_by_savings_members(list: Seq<(Seq<u8>, int)>)
    ensures
        forall|i: int| 0 <= i < by_savings(list).len() ==> list.contains(#[trigger] by_savings(list)[i]),
    decreases list.len(),
{
    if list.len() > 0 {
        let prev = list.drop_last();
        lemma_by_savings_members(prev);
        let s = by_savings(prev);
        lemma_sort_len(prev);
        let pos = savings_pos(s, list.last().1, 0);
        lemma_savings_pos_range(s, list.last().1, 0);
        let r = s.insert(pos, list.last());
        assert forall|i: int| 0 <= i < r.len() implies list.contains(#[trigger] r[i]) by {
            if i < pos {
                assert(r[i] == s[i]);
                assert(prev.contains(s[i]));
                let j = choose|j: int| 0 <= j < prev.len() && prev[j] == s[i];
                assert(list[j] == prev[j]);
            } else if i == pos {
                assert(list[list.len() - 1] == list.last());
            } else {
                assert(r[i] == s[i - 1]);
                assert(prev.contains(s[i - 1]));
                let j = choose|j: int| 0 <= j < prev.len() && prev[j] == s[i - 1];
                assert(list[j] == prev[j]);
            }
        }
    }
}

proof fn lemma_frequent_from_members(d: Seq<u8>, w: int, k: int)
    requires
        1 <= w,
        0 <= k <= window_count(d.len() as int, w),
    ensures
        forall|i: int| 0 <= i < frequent_from(d, w, k).len() ==> frequent_window(d, w, (#[trigger] frequent_from(d, w, k)[i]).0),
    decreases k,
{
    if k > 0 {
        lemma_frequent_from_members(d, w, k - 1);
        let prev = frequent_from(d, w, k - 1);
        let cur = frequent_from(d, w, k);
        assert forall|i: int| 0 <= i < cur.len() implies frequent_window(d, w, (#[trigger] cur[i]).0) by {
            if i < prev.len() {
                assert(cur[i] == prev[i]);
            } else {
                let e = window(d, w, k - 1);
                assert(cur[i].0 == e);
                assert(d.subrange(k - 1, k - 1 + w) == e);
            }
        }
    }
}

/// Every entry of a dictionary built from `d` is a 4-, 8- or 16-byte window of `d` that occurs
/// at least three times among the windows of its length.
pub proof fn lemma_built_entries_frequent(d: Seq<u8>, max: int)
    requires
        0 <= max,
    ensures
        forall|i: int| 0 <= i < built(d, max).len() ==> {
            let e = #[trigger] built(d, max)[i];
            frequent_window(d, 4, e) || frequent_window(d, 8, e) || frequent_window(d, 16, e)
        },
{
    let n = d.len() as int;
    let c = candidates(d);
    let s = by_savings(c);
    lemma_sort_len(c);
    lemma_by_savings_members(c);
    if n >= 8 {
        lemma_frequent_from_members(d, 4, window_count(n, 4));
        lemma_frequent_from_members(d, 8, window_count(n, 8));
        lemma_frequent_from_members(d, 16, window_count(n, 16));
    }
    let fr4 = frequent_from(d, 4, window_count(n, 4));
    let fr8 = frequent_from(d, 8, window_count(n, 8));
    let fr16 = frequent_from(d, 16, window_count(n, 16));
    assert forall|i: int| 0 <= i < built(d, max).len() implies {
        let e = #[trigger] built(d, max)[i];
        frequent_window(d, 4, e) || frequent_window(d, 8, e) || frequent_window(d, 16, e)
    } by {
        assert(i < s.len());
        assert(built(d, max)[i] == s[i].0);
        assert(c.contains(s[i]));
        let j = choose|j: int| 0 <= j < c.len() && c[j] == s[i];
        assert(n >= 8);
        if j < fr4.len() {
            assert(c[j] == fr4[j]);
        } else if j < fr4.len() + fr8.len() {
            assert(c[j] == fr8[j - fr4.len()]);
        } else {
            assert(c[j] == fr16[j - fr4.len() - fr8.len()]);
        }
    }
}

/// The FNV-1a hash of `data`.
fn hash_bytes(data: &[u8]) -> (h: u64)
    ensures
        h == fnv1a(data@),
{
    let mut h: u64 = FNV_OFFSET;
    let mut i: usize = 0;
    while i < data.len()
        invariant
            i <= data.len(),
            h == fnv1a(data@.take(i as int)),
        decreases data.len() - i,
    {
        assert(data@.take(i + 1).drop_last() =~= data@.take(i as int));
        h = (h ^ data[i] as u64).wrapping_mul(FNV_PRIME);
        i = i + 1;
    }
    assert(data@.take(data.len() as int) =~= data@);
    h
}

/// Whether `a` and `b` hold the same bytes.
fn same_bytes(a: &[u8], b: &[u8]) -> (r: bool)
    ensures
        r == (a@ == b@),
{
    if a.len() != b.len() {
        return false;
    }
    let mut i: usize = 0;
    while i < a.len()
        invariant
            a.len() == b.len(),
            i <= a.len(),
            forall|j: int| 0 <= j < i ==> a@[j] == b@[j],
        decreases a.len() - i,
    {
        if a[i] != b[i] {
            return false;
        }
        i = i + 1;
    }
    assert(a@ =~= b@);
    true
}

proof fn lemma_entries_bytes_push(es: Seq<Seq<u8>>, e: Seq<u8>)
    ensures
        entries_bytes(es.push(e)) == entries_bytes(es) + entry_bytes(e),
    decreases es.len(),
{
    if es.len() == 0 {
        assert(es.push(e).drop_first() =~= Seq::<Seq<u8>>::empty());
        assert(es.push(e)[0] == e);
        assert(entries_bytes(es.push(e).drop_first()) == Seq::<u8>::empty());
        assert(entries_bytes(es) == Seq::<u8>::empty());
        assert(entry_bytes(e) + Seq::<u8>::empty() =~= entry_bytes(e));
        assert(Seq::<u8>::empty() + entry_bytes(e) =~= entry_bytes(e));
    } else {
        assert(es.push(e).drop_first() =~= es.drop_first().push(e));
        lemma_entries_bytes_push(es.drop_first(), e);
        assert(es.push(e)[0] == es[0]);
        assert(entry_bytes(es[0]) + (entries_bytes(es.drop_first()) + entry_bytes(e))
            =~= (entry_bytes(es[0]) + entries_bytes(es.drop_first())) + entry_bytes(e));
    }
}

proof fn lemma_parse_entries(pre: Seq<u8>, es: Seq<Seq<u8>>, rest: Seq<u8>)
    requires
        forall|i: int| 0 <= i < es.len() ==> (#[trigger] es[i]).len() <= u16::MAX,
    ensures
        parse_entries(pre + entries_bytes(es) + rest, pre.len() as int, es.len() as int) == es,
    decreases es.len(),
{
    let d = pre + entries_bytes(es) + rest;
    if es.len() > 0 {
        let e = es[0];
        let tail = es.drop_first();
        let pre2 = pre + entry_bytes(e);
        assert(d =~= pre + le16(e.len() as u16) + (e + entries_bytes(tail) + rest));
        lemma_u16_at(pre, e.len() as u16, e + entries_bytes(tail) + rest);
        assert(d.subrange(pre.len() + 2int, pre.len() + 2int + e.len()) =~= e);
        assert(d =~= pre2 + entries_bytes(tail) + rest);
        assert forall|i: int| 0 <= i < tail.len() implies (#[trigger] tail[i]).len() <= u16::MAX by {
            assert(tail[i] == es[i + 1]);
        }
        lemma_parse_entries(pre2, tail, rest);
        assert(pre2.len() == pre.len() + 2 + e.len());
        assert(seq![e] + tail =~= es);
    } else {
        assert(parse_entries(d, pre.len() as int, 0) == Seq::<Seq<u8>>::empty());
    }
}

/// Reading back a serialized dictionary gives its entries, when each entry fits the 16-bit
/// length field and the count fits in 32 bits.
pub proof fn lemma_dictionary_roundtrip(es: Seq<Seq<u8>>)
    requires
        es.len() <= u32::MAX,
        forall|i: int| 0 <= i < es.len() ==> (#[trigger] es[i]).len() <= u16::MAX,
    ensures
        deserialized(serialized(es)) == Some(es),
{
    lemma_le_lengths();
    let n = es.len() as u32;
    lemma_u32_at(Seq::<u8>::empty(), n, entries_bytes(es));
    assert(Seq::<u8>::empty() + le32(n) + entries_bytes(es) =~= serialized(es));
    lemma_parse_entries(le32(n), es, Seq::<u8>::empty());
    assert(le32(n) + entries_bytes(es) + Seq::<u8>::empty() =~= serialized(es));
}

} // verus!
