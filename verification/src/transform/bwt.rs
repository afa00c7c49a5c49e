//! Burrows-Wheeler transform over cyclic rotations.
//!
//! The rotations of the input are sorted lexicographically, equal rotations by descending
//! start (the order of the suffixes at `0 .. n` of the input doubled and terminated by a
//! sentinel below every byte). The output is the 4-byte little-endian rank of rotation 0,
//! then the last byte of each rotation in sorted order.
use vstd::prelude::*;
use crate::bytes::{le32, u32_at, push_u32_le, read_u32_le, lemma_le_lengths};

verus! {

/// The largest input `forward` takes.
pub const MAX_BWT_INPUT: usize = 0x7FFF_FFFF;

// ---------------------------------------------------------------------------------------------
// Rotation order
// ---------------------------------------------------------------------------------------------

/// Byte `k` of the rotation of `d` that starts at `p`.
pub open spec fn rot_at(d: Seq<u8>, p: int, k: int) -> u8 {
    d[(p + k) % (d.len() as int)]
}

/// Rotation `a` sorts before rotation `b`, given that they agree on their first `k` bytes.
pub open spec fn rot_less_from(d: Seq<u8>, a: int, b: int, k: int) -> bool
    decreases d.len() - k,
{
    if k >= d.len() {
        a > b
    } else if rot_at(d, a, k) != rot_at(d, b, k) {
        rot_at(d, a, k) < rot_at(d, b, k)
    } else {
        rot_less_from(d, a, b, k + 1)
    }
}

/// Rotation `a` sorts before rotation `b`: lexicographically smaller, or equal with a larger
/// start.
pub open spec fn rot_less(d: Seq<u8>, a: int, b: int) -> bool {
    rot_less_from(d, a, b, 0)
}

/// `ord` lists every rotation start of `d` once, in sorted order.
pub open spec fn rotation_order(d: Seq<u8>, ord: Seq<int>) -> bool {
    &&& ord.len() == d.len()
    &&& forall|i: int| 0 <= i < ord.len() ==> 0 <= #[trigger] ord[i] < d.len()
    &&& forall|i: int, j: int| 0 <= i < j < ord.len() ==> rot_less(d, #[trigger] ord[i], #[trigger] ord[j])
}

/// The last byte of each rotation, in the order `ord`.
pub open spec fn last_column(d: Seq<u8>, ord: Seq<int>) -> Seq<u8> {
    Seq::new(ord.len(), |k: int| d[(ord[k] + d.len() - 1) % (d.len() as int)])
}

/// `r` is the transform of `d`: the rank of rotation 0, then the last column.
pub open spec fn is_bwt_of(r: Seq<u8>, d: Seq<u8>) -> bool {
    if d.len() == 0 {
        r.len() == 0
    } else {
        exists|ord: Seq<int>| #[trigger] rotation_order(d, ord)
            && r.len() == 4 + d.len()
            && u32_at(r, 0) < d.len()
            && ord[u32_at(r, 0) as int] == 0
            && r.subrange(4, r.len() as int) == last_column(d, ord)
    }
}

proof fn lemma_rot_trans(d: Seq<u8>, a: int, b: int, c: int, k: int)
    requires
        rot_less_from(d, a, b, k),
        rot_less_from(d, b, c, k),
    ensures
        rot_less_from(d, a, c, k),
    decreases d.len() - k,
{
    if k < d.len() && rot_at(d, a, k) == rot_at(d, b, k) && rot_at(d, b, k) == rot_at(d, c, k) {
        lemma_rot_trans(d, a, b, c, k + 1);
    }
}

proof fn lemma_rot_total(d: Seq<u8>, a: int, b: int, k: int)
    requires
        a != b,
    ensures
        rot_less_from(d, a, b, k) != rot_less_from(d, b, a, k),
    decreases d.len() - k,
{
    if k < d.len() && rot_at(d, a, k) == rot_at(d, b, k) {
        lemma_rot_total(d, a, b, k + 1);
    }
}

proof fn lemma_rot_irreflexive(d: Seq<u8>, a: int, k: int)
    ensures
        !rot_less_from(d, a, a, k),
    decreases d.len() - k,
{
    if k < d.len() {
        lemma_rot_irreflexive(d, a, k + 1);
    }
}

proof fn lemma_wrap(x: int, n: int)
    requires
        0 < n,
        0 <= x < 2 * n,
    ensures
        x % n == if x >= n { x - n } else { x },
{
    if x >= n {
        vstd::arithmetic::div_mod::lemma_mod_add_multiples_vanish(x - n, n);
        vstd::arithmetic::div_mod::lemma_small_mod((x - n) as nat, n as nat);
    } else {
        vstd::arithmetic::div_mod::lemma_small_mod(x as nat, n as nat);
    }
}

/// Compares rotations `a` and `b` of `d`.
fn rot_before(d: &[u8], a: usize, b: usize) -> (r: bool)
    requires
        0 < d@.len() <= MAX_BWT_INPUT,
        a < d@.len(),
        b < d@.len(),
    ensures
        r == rot_less(d@, a as int, b as int),
{
    let n = d.len();
    let mut k: usize = 0;
    while k < n
        invariant
            n == d@.len() <= MAX_BWT_INPUT,
            a < n,
            b < n,
            k <= n,
            rot_less_from(d@, a as int, b as int, k as int) == rot_less(d@, a as int, b as int),
        decreases n - k,
    {
        let ia: usize = if a + k >= n { a + k - n } else { a + k };
        let ib: usize = if b + k >= n { b + k - n } else { b + k };
        proof {
            lemma_wrap(a + k, n as int);
            lemma_wrap(b + k, n as int);
        }
        if d[ia] != d[ib] {
            return d[ia] < d[ib];
        }
        k = k + 1;
    }
    a > b
}

/// Merges two sorted runs of rotation starts taken from `lo .. mid` and `mid .. hi`.
fn merge(d: &[u8], left: Vec<usize>, right: Vec<usize>, Ghost(lo): Ghost<int>, Ghost(mid): Ghost<int>, Ghost(hi): Ghost<int>) -> (r: Vec<usize>)
    requires
        0 < d@.len() <= MAX_BWT_INPUT,
        0 <= lo <= mid <= hi <= d@.len(),
        forall|i: int| 0 <= i < left@.len() ==> lo <= #[trigger] left@[i] < mid,
        forall|i: int| 0 <= i < right@.len() ==> mid <= #[trigger] right@[i] < hi,
        forall|i: int, j: int| 0 <= i < j < left@.len() ==> rot_less(d@, #[trigger] left@[i] as int, #[trigger] left@[j] as int),
        forall|i: int, j: int| 0 <= i < j < right@.len() ==> rot_less(d@, #[trigger] right@[i] as int, #[trigger] right@[j] as int),
    ensures
        r@.len() == left@.len() + right@.len(),
        forall|i: int| 0 <= i < r@.len() ==> lo <= #[trigger] r@[i] < hi,
        forall|i: int, j: int| 0 <= i < j < r@.len() ==> rot_less(d@, #[trigger] r@[i] as int, #[trigger] r@[j] as int),
{
    let mut out: Vec<usize> = Vec::new();
    let mut i: usize = 0;
    let mut j: usize = 0;
    while i < left.len() || j < right.len()
        invariant
            0 < d@.len() <= MAX_BWT_INPUT,
            0 <= lo <= mid <= hi <= d@.len(),
            forall|q: int| 0 <= q < left@.len() ==> lo <= #[trigger] left@[q] < mid,
            forall|q: int| 0 <= q < right@.len() ==> mid <= #[trigger] right@[q] < hi,
            forall|p: int, q: int| 0 <= p < q < left@.len() ==> rot_less(d@, #[trigger] left@[p] as int, #[trigger] left@[q] as int),
            forall|p: int, q: int| 0 <= p < q < right@.len() ==> rot_less(d@, #[trigger] right@[p] as int, #[trigger] right@[q] as int),
            i <= left@.len(),
            j <= right@.len(),
            out@.len() == i + j,
            forall|p: int| 0 <= p < out@.len() ==> lo <= #[trigger] out@[p] < hi,
            forall|p: int, q: int| 0 <= p < q < out@.len() ==> rot_less(d@, #[trigger] out@[p] as int, #[trigger] out@[q] as int),
            forall|p: int, q: int| 0 <= p < out@.len() && i <= q < left@.len() ==> rot_less(d@, #[trigger] out@[p] as int, #[trigger] left@[q] as int),
            forall|p: int, q: int| 0 <= p < out@.len() && j <= q < right@.len() ==> rot_less(d@, #[trigger] out@[p] as int, #[trigger] right@[q] as int),
        decreases left@.len() + right@.len() - i - j,
    {
        let take_left = if j >= right.len() {
            true
        } else if i >= left.len() {
            false
        } else {
            rot_before(d, left[i], right[j])
        };
        let ghost out0 = out@;
        if take_left {
            let e = left[i];
            proof {
                assert forall|q: int| j <= q < right@.len() implies rot_less(d@, e as int, #[trigger] right@[q] as int) by {
                    if q > j {
                        lemma_rot_trans(d@, e as int, right@[j as int] as int, right@[q] as int, 0);
                    }
                }
            }
            out.push(e);
            i = i + 1;
        } else {
            let e = right[j];
            proof {
                if i < left@.len() {
                    lemma_rot_total(d@, left@[i as int] as int, e as int, 0);
                }
                assert forall|q: int| i <= q < left@.len() implies rot_less(d@, e as int, #[trigger] left@[q] as int) by {
                    if q > i {
                        lemma_rot_trans(d@, e as int, left@[i as int] as int, left@[q] as int, 0);
                    }
                }
            }
            out.push(e);
            j = j + 1;
        }
        proof {
            assert forall|p: int, q: int| 0 <= p < q < out@.len() implies rot_less(d@, #[trigger] out@[p] as int, #[trigger] out@[q] as int) by {
                if q < out0.len() {
                    assert(out@[p] == out0[p] && out@[q] == out0[q]);
                }
            }
        }
    }
    out
}

/// The rotation starts `lo .. hi` of `d`, sorted.
fn sort_range(d: &[u8], lo: usize, hi: usize) -> (r: Vec<usize>)
    requires
        0 < d@.len() <= MAX_BWT_INPUT,
        lo <= hi <= d@.len(),
    ensures
        r@.len() == hi - lo,
        forall|i: int| 0 <= i < r@.len() ==> lo <= #[trigger] r@[i] < hi,
        forall|i: int, j: int| 0 <= i < j < r@.len() ==> rot_less(d@, #[trigger] r@[i] as int, #[trigger] r@[j] as int),
    decreases hi - lo,
{
    if hi - lo <= 1 {
        let mut r: Vec<usize> = Vec::new();
        if hi > lo {
            r.push(lo);
        }
        return r;
    }
    let mid = lo + (hi - lo) / 2;
    let left = sort_range(d, lo, mid);
    let right = sort_range(d, mid, hi);
    merge(d, left, right, Ghost(lo as int), Ghost(mid as int), Ghost(hi as int))
}

/// Forward transform: the rank of rotation 0, then the last column of the sorted rotations.
pub fn forward(data: &[u8]) -> (r: Vec<u8>)
    requires
        data@.len() <= MAX_BWT_INPUT,
    ensures
        is_bwt_of(r@, data@),
        bwt_index_ok(r@),
        bwt_inverse(r@) == data@,
{
    proof {
        lemma_forward_reads_back(data@);
    }
    if data.len() == 0 {
        return Vec::new();
    }
    let n = data.len();
    let ord = sort_range(data, 0, n);
    let ghost ordi = Seq::new(ord@.len(), |k: int| ord@[k] as int);
    let mut out: Vec<u8> = Vec::new();
    let mut orig_idx: u32 = 0;
    let mut k: usize = 0;
    while k < n
        invariant
            n == data@.len() <= MAX_BWT_INPUT,
            0 < n,
            ord@.len() == n,
            ordi == Seq::new(ord@.len(), |q: int| ord@[q] as int),
            forall|q: int| 0 <= q < ord@.len() ==> 0 <= #[trigger] ord@[q] < n,
            k <= n,
            out@ == last_column(data@, ordi).subrange(0, k as int),
            orig_idx < n,
            (exists|q: int| 0 <= q < k && ord@[q] == 0) ==> ord@[orig_idx as int] == 0,
        decreases n - k,
    {
        let p = ord[k];
        if p == 0 {
            orig_idx = k as u32;
        }
        let prev_pos: usize = if p == 0 { n - 1 } else { p - 1 };
        proof {
            lemma_wrap(ordi[k as int] + n - 1, n as int);
        }
        out.push(data[prev_pos]);
        assert(out@ =~= last_column(data@, ordi).subrange(0, k + 1));
        k = k + 1;
    }
    proof {
        // every start occurs: the sorted starts are distinct values in 0 .. n
        assert forall|i: int, j: int| 0 <= i < j < ordi.len() implies rot_less(data@, #[trigger] ordi[i], #[trigger] ordi[j]) by {
            assert(rot_less(data@, ord@[i] as int, ord@[j] as int));
        }
        lemma_zero_occurs(data@, ordi);
    }
    let mut result: Vec<u8> = Vec::new();
    push_u32_le(&mut result, orig_idx);
    crate::bytes::append_bytes(&mut result, out.as_slice());
    proof {
        lemma_le_lengths();
        crate::bytes::lemma_u32_at(Seq::empty(), orig_idx, out@);
        assert(Seq::<u8>::empty() + le32(orig_idx) + out@ =~= result@);
        assert(result@.subrange(4, result@.len() as int) =~= out@);
        assert(out@ =~= last_column(data@, ordi));
        assert(rotation_order(data@, ordi));
    }
    result
}

/// A sorted list of `n` distinct starts below `n` holds every start, 0 among them.
proof fn lemma_zero_occurs(d: Seq<u8>, ord: Seq<int>)
    requires
        ord.len() == d.len() > 0,
        forall|i: int| 0 <= i < ord.len() ==> 0 <= #[trigger] ord[i] < d.len(),
        forall|i: int, j: int| 0 <= i < j < ord.len() ==> rot_less(d, #[trigger] ord[i], #[trigger] ord[j]),
    ensures
        exists|q: int| 0 <= q < ord.len() && ord[q] == 0,
{
    assert forall|i: int, j: int| 0 <= i < j < ord.len() implies ord[i] != ord[j] by {
        if ord[i] == ord[j] {
            lemma_rot_irreflexive(d, ord[i], 0);
            assert(rot_less(d, ord[i], ord[j]));
        }
    }
    let s = ord.to_set();
    lemma_distinct_len(ord);
    if !(exists|q: int| 0 <= q < ord.len() && ord[q] == 0) {
        assert(s.subset_of(Set::new(|x: int| 1 <= x < d.len())));
        vstd::set_lib::lemma_int_range(1, d.len() as int);
        vstd::set_lib::lemma_len_subset(s, vstd::set_lib::set_int_range(1, d.len() as int));
        assert(Set::new(|x: int| 1 <= x < d.len()) =~= vstd::set_lib::set_int_range(1, d.len() as int));
    }
}

/// A sequence without repeats has as many distinct values as entries.
proof fn lemma_distinct_len(s: Seq<int>)
    requires
        forall|i: int, j: int| 0 <= i < j < s.len() ==> s[i] != s[j],
    ensures
        s.to_set().len() == s.len(),
{
    s.unique_seq_to_set();
}

// ---------------------------------------------------------------------------------------------
// Inverse
// ---------------------------------------------------------------------------------------------

/// How often `c` occurs in `b[0..i]`.
pub open spec fn occ(b: Seq<u8>, c: int, i: int) -> int
    decreases i,
{
    if i <= 0 {
        0
    } else {
        occ(b, c, i - 1) + if b[i - 1] == c { 1int } else { 0int }
    }
}

/// How many bytes of `b[0..m]` are below `c`, counted byte value by byte value.
pub open spec fn below(b: Seq<u8>, c: int, m: int) -> int
    decreases c,
{
    if c <= 0 {
        0
    } else {
        below(b, c - 1, m) + occ(b, c - 1, m)
    }
}

/// The LF mapping: the row of the rotation one to the left of row `p`.
pub open spec fn lf(b: Seq<u8>, p: int) -> int {
    below(b, b[p] as int, b.len() as int) + occ(b, b[p] as int, p)
}

/// The row reached from `idx` after `m` LF steps.
pub open spec fn walk(b: Seq<u8>, idx: int, m: int) -> int
    decreases m,
{
    if m <= 0 {
        idx
    } else {
        lf(b, walk(b, idx, m - 1))
    }
}

/// The inverse transform of `d`: the last column read back from the stored rank.
pub open spec fn bwt_inverse(d: Seq<u8>) -> Seq<u8> {
    if d.len() <= 4 {
        Seq::empty()
    } else {
        let b = d.subrange(4, d.len() as int);
        let n = b.len() as int;
        Seq::new(b.len(), |i: int| b[walk(b, u32_at(d, 0) as int, n - 1 - i)])
    }
}

/// True when the stored rank names a row of the last column (else the inverse fails).
pub open spec fn bwt_index_ok(d: Seq<u8>) -> bool {
    d.len() <= 4 || u32_at(d, 0) < d.len() - 4
}

proof fn lemma_occ_bounds(b: Seq<u8>, c: int, i: int, j: int)
    requires
        0 <= i <= j <= b.len(),
    ensures
        0 <= occ(b, c, i) <= occ(b, c, j),
        occ(b, c, j) <= j,
        i < j && b[i] == c ==> occ(b, c, i) < occ(b, c, j),
    decreases j,
{
    if j > 0 {
        if i < j {
            lemma_occ_bounds(b, c, i, j - 1);
        } else {
            lemma_occ_bounds(b, c, j - 1, j - 1);
        }
    }
}

/// Counting below `c` at `m + 1` adds one exactly when `b[m]` is below `c`.
proof fn lemma_below_step(b: Seq<u8>, c: int, m: int)
    requires
        0 <= m < b.len(),
        0 <= c,
    ensures
        below(b, c, m + 1) == below(b, c, m) + if (b[m] as int) < c { 1int } else { 0int },
    decreases c,
{
    if c > 0 {
        lemma_below_step(b, c - 1, m);
    }
}

/// All 256 values together count every byte.
proof fn lemma_below_total(b: Seq<u8>, m: int)
    requires
        0 <= m <= b.len(),
    ensures
        below(b, 256, m) == m,
    decreases m,
{
    if m > 0 {
        lemma_below_total(b, m - 1);
        lemma_below_step(b, 256, m - 1);
    } else {
        lemma_below_zero(b, 256);
    }
}

proof fn lemma_below_zero(b: Seq<u8>, c: int)
    ensures
        below(b, c, 0) == 0,
    decreases c,
{
    if c > 0 {
        lemma_below_zero(b, c - 1);
    }
}

proof fn lemma_below_mono(b: Seq<u8>, c1: int, c2: int)
    requires
        0 <= c1 <= c2,
    ensures
        below(b, c1, b.len() as int) <= below(b, c2, b.len() as int),
        0 <= below(b, c1, b.len() as int),
    decreases c2,
{
    if c2 > c1 {
        lemma_below_mono(b, c1, c2 - 1);
        lemma_occ_bounds(b, c2 - 1, 0, b.len() as int);
    } else if c1 > 0 {
        lemma_below_mono(b, c1 - 1, c1 - 1);
        lemma_occ_bounds(b, c1 - 1, 0, b.len() as int);
    }
}

/// The LF mapping stays within the rows.
proof fn lemma_lf_range(b: Seq<u8>, p: int)
    requires
        0 <= p < b.len(),
    ensures
        0 <= lf(b, p) < b.len(),
{
    let c = b[p] as int;
    let n = b.len() as int;
    lemma_occ_bounds(b, c, p, n);
    lemma_below_mono(b, c, c);
    lemma_below_mono(b, c + 1, 256);
    lemma_below_total(b, n);
    assert(below(b, c + 1, n) == below(b, c, n) + occ(b, c, n));
}

proof fn lemma_walk_range(b: Seq<u8>, idx: int, m: int)
    requires
        0 <= idx < b.len(),
        0 <= m,
    ensures
        0 <= walk(b, idx, m) < b.len(),
    decreases m,
{
    if m > 0 {
        lemma_walk_range(b, idx, m - 1);
        lemma_lf_range(b, walk(b, idx, m - 1));
    }
}

/// Inverse transform by the LF mapping. The stored rank must name a row (`bwt_index_ok`).
pub fn inverse(data: &[u8]) -> (r: Vec<u8>)
    requires
        bwt_index_ok(data@),
        data@.len() <= u32::MAX,
    ensures
        r@ == bwt_inverse(data@),
{
    if data.len() <= 4 {
        return Vec::new();
    }
    let idx = read_u32_le(data, 0) as usize;
    let bwt = &data[4..data.len()];
    let ghost b = data@.subrange(4, data@.len() as int);
    assert(bwt@ == b);
    let n = bwt.len();
    let mut count: Vec<u32> = vec![0u32; 256];
    let mut i: usize = 0;
    while i < n
        invariant
            bwt@ == b,
            n == b.len() <= u32::MAX,
            i <= n,
            count@.len() == 256,
            forall|c: int| 0 <= c < 256 ==> #[trigger] count@[c] as int == occ(b, c, i as int),
        decreases n - i,
    {
        let c = bwt[i] as usize;
        proof {
            lemma_occ_bounds(b, c as int, i as int, i as int);
        }
        let v = count[c];
        count.set(c, v + 1);
        i = i + 1;
    }
    let mut running: Vec<u32> = Vec::new();
    let mut sum: u32 = 0;
    let mut c: usize = 0;
    proof {
        lemma_below_total(b, n as int);
    }
    while c < 256
        invariant
            n == b.len() <= u32::MAX,
            count@.len() == 256,
            forall|q: int| 0 <= q < 256 ==> #[trigger] count@[q] as int == occ(b, q, n as int),
            below(b, 256, n as int) == n,
            c <= 256,
            running@.len() == c,
            sum as int == below(b, c as int, n as int),
            forall|q: int| 0 <= q < c ==> #[trigger] running@[q] as int == below(b, q, n as int),
        decreases 256 - c,
    {
        running.push(sum);
        proof {
            lemma_below_mono(b, c + 1, 256);
        }
        sum = sum + count[c];
        c = c + 1;
    }
    let mut lfv: Vec<u32> = Vec::new();
    let mut i: usize = 0;
    while i < n
        invariant
            bwt@ == b,
            n == b.len() <= u32::MAX,
            i <= n,
            running@.len() == 256,
            forall|q: int| 0 <= q < 256 ==> #[trigger] running@[q] as int == below(b, q, n as int) + occ(b, q, i as int),
            lfv@.len() == i,
            forall|q: int| 0 <= q < i ==> #[trigger] lfv@[q] as int == lf(b, q),
        decreases n - i,
    {
        let c = bwt[i] as usize;
        let v = running[c];
        proof {
            lemma_lf_range(b, i as int);
        }
        lfv.push(v);
        running.set(c, v + 1);
        i = i + 1;
    }
    let mut out: Vec<u8> = vec![0u8; n];
    let mut pos: usize = idx;
    let mut m: usize = 0;
    assert(u32_at(data@, 0) as int == idx);
    while m < n
        invariant
            bwt@ == b,
            n == b.len(),
            idx < n,
            idx == u32_at(data@, 0),
            lfv@.len() == n,
            forall|q: int| 0 <= q < n ==> #[trigger] lfv@[q] as int == lf(b, q),
            m <= n,
            out@.len() == n,
            pos as int == walk(b, idx as int, m as int),
            forall|q: int| n - m <= q < n ==> #[trigger] out@[q] == b[walk(b, idx as int, n - 1 - q)],
        decreases n - m,
    {
        proof {
            lemma_walk_range(b, idx as int, m as int);
        }
        out.set(n - 1 - m, bwt[pos]);
        pos = lfv[pos] as usize;
        m = m + 1;
    }
    assert(out@ =~= bwt_inverse(data@));
    out
}

// ---------------------------------------------------------------------------------------------
// Reading back what `forward` writes
// ---------------------------------------------------------------------------------------------

/// The rotation one to the right of `x` (its start moved one byte on), among `n`.
pub open spec fn next_rot(x: int, n: int) -> int {
    if x + 1 >= n { 0 } else { x + 1 }
}

/// The rotation one to the left of `x`, among `n`.
pub open spec fn prev_rot(x: int, n: int) -> int {
    if x <= 0 { n - 1 } else { x - 1 }
}

/// Rotation `a` is lexicographically below rotation `b` on bytes `k .. m`, given that they
/// agree before `k`.
pub open spec fn lex_lt(d: Seq<u8>, a: int, b: int, k: int, m: int) -> bool
    decreases m - k,
{
    if k >= m {
        false
    } else if rot_at(d, a, k) != rot_at(d, b, k) {
        rot_at(d, a, k) < rot_at(d, b, k)
    } else {
        lex_lt(d, a, b, k + 1, m)
    }
}

/// Rotations `a` and `b` agree on bytes `k .. m`.
pub open spec fn lex_eq(d: Seq<u8>, a: int, b: int, k: int, m: int) -> bool {
    forall|i: int| k <= i < m ==> #[trigger] rot_at(d, a, i) == rot_at(d, b, i)
}

proof fn lemma_rot_less_lex(d: Seq<u8>, a: int, b: int, k: int)
    requires
        0 <= k <= d.len(),
    ensures
        rot_less_from(d, a, b, k) == (lex_lt(d, a, b, k, d.len() as int) || (lex_eq(d, a, b, k, d.len() as int) && a > b)),
    decreases d.len() - k,
{
    if k < d.len() {
        lemma_rot_less_lex(d, a, b, k + 1);
        if rot_at(d, a, k) != rot_at(d, b, k) {
            assert(!lex_eq(d, a, b, k, d.len() as int));
        } else {
            assert(lex_eq(d, a, b, k, d.len() as int) == lex_eq(d, a, b, k + 1, d.len() as int));
        }
    }
}

proof fn lemma_lex_tri(d: Seq<u8>, a: int, b: int, k: int, m: int)
    ensures
        lex_lt(d, a, b, k, m) || lex_eq(d, a, b, k, m) || lex_lt(d, b, a, k, m),
        !(lex_lt(d, a, b, k, m) && lex_eq(d, a, b, k, m)),
        !(lex_lt(d, b, a, k, m) && lex_eq(d, a, b, k, m)),
        !(lex_lt(d, a, b, k, m) && lex_lt(d, b, a, k, m)),
    decreases m - k,
{
    if k < m {
        lemma_lex_tri(d, a, b, k + 1, m);
        if rot_at(d, a, k) != rot_at(d, b, k) {
            assert(!lex_eq(d, a, b, k, m));
        } else {
            assert(lex_eq(d, a, b, k, m) == lex_eq(d, a, b, k + 1, m));
        }
    }
}

proof fn lemma_lex_trans(d: Seq<u8>, a: int, b: int, c: int, k: int, m: int)
    ensures
        lex_lt(d, a, b, k, m) && lex_lt(d, b, c, k, m) ==> lex_lt(d, a, c, k, m),
        lex_lt(d, a, b, k, m) && lex_eq(d, b, c, k, m) ==> lex_lt(d, a, c, k, m),
        lex_eq(d, a, b, k, m) && lex_lt(d, b, c, k, m) ==> lex_lt(d, a, c, k, m),
        lex_eq(d, a, b, k, m) && lex_eq(d, b, c, k, m) ==> lex_eq(d, a, c, k, m),
    decreases m - k,
{
    if k < m {
        lemma_lex_trans(d, a, b, c, k + 1, m);
        if lex_eq(d, a, b, k, m) {
            assert(rot_at(d, a, k) == rot_at(d, b, k));
            assert(lex_eq(d, a, b, k + 1, m));
        }
        if lex_eq(d, b, c, k, m) {
            assert(rot_at(d, b, k) == rot_at(d, c, k));
            assert(lex_eq(d, b, c, k + 1, m));
        }
    }
}

proof fn lemma_lex_prefix(d: Seq<u8>, a: int, b: int, k: int, m1: int, m2: int)
    requires
        k <= m1 <= m2,
    ensures
        lex_lt(d, a, b, k, m1) ==> lex_lt(d, a, b, k, m2),
        lex_eq(d, a, b, k, m2) ==> lex_eq(d, a, b, k, m1),
    decreases m1 - k,
{
    if k < m1 && rot_at(d, a, k) == rot_at(d, b, k) {
        lemma_lex_prefix(d, a, b, k + 1, m1, m2);
    }
}

proof fn lemma_rot_next(d: Seq<u8>, x: int, k: int)
    requires
        d.len() > 0,
        0 <= x < d.len(),
        0 <= k,
    ensures
        rot_at(d, x, k + 1) == rot_at(d, next_rot(x, d.len() as int), k),
{
    let n = d.len() as int;
    if x + 1 >= n {
        vstd::arithmetic::div_mod::lemma_mod_add_multiples_vanish(k, n);
        assert(x + k + 1 == n + k);
    }
}

proof fn lemma_lex_next(d: Seq<u8>, x: int, y: int, k: int, m: int)
    requires
        d.len() > 0,
        0 <= x < d.len(),
        0 <= y < d.len(),
        0 <= k,
    ensures
        lex_lt(d, x, y, k + 1, m + 1) == lex_lt(d, next_rot(x, d.len() as int), next_rot(y, d.len() as int), k, m),
        lex_eq(d, x, y, k + 1, m + 1) == lex_eq(d, next_rot(x, d.len() as int), next_rot(y, d.len() as int), k, m),
    decreases m - k,
{
    let n = d.len() as int;
    let x1 = next_rot(x, n);
    let y1 = next_rot(y, n);
    lemma_rot_next(d, x, k);
    lemma_rot_next(d, y, k);
    if k < m {
        lemma_lex_next(d, x, y, k + 1, m);
    }
    assert(lex_eq(d, x, y, k + 1, m + 1) == lex_eq(d, x1, y1, k, m)) by {
        if lex_eq(d, x, y, k + 1, m + 1) {
            assert forall|i: int| k <= i < m implies #[trigger] rot_at(d, x1, i) == rot_at(d, y1, i) by {
                lemma_rot_next(d, x, i);
                lemma_rot_next(d, y, i);
                assert(rot_at(d, x, i + 1) == rot_at(d, y, i + 1));
            }
        }
        if lex_eq(d, x1, y1, k, m) {
            assert forall|i: int| k + 1 <= i < m + 1 implies #[trigger] rot_at(d, x, i) == rot_at(d, y, i) by {
                lemma_rot_next(d, x, i - 1);
                lemma_rot_next(d, y, i - 1);
                assert(rot_at(d, x1, i - 1) == rot_at(d, y1, i - 1));
            }
        }
    }
}

/// A row of `ord` that holds rotation `x`.
pub open spec fn row_of(ord: Seq<int>, x: int) -> int {
    choose|j: int| 0 <= j < ord.len() && ord[j] == x
}

/// The sorted order lists each rotation in exactly one row, and rows follow the order.
proof fn lemma_ord_props(d: Seq<u8>, ord: Seq<int>)
    requires
        d.len() > 0,
        rotation_order(d, ord),
    ensures
        forall|i: int, j: int| 0 <= i < d.len() && 0 <= j < d.len() && i != j ==> #[trigger] ord[i] != #[trigger] ord[j],
        forall|x: int| 0 <= x < d.len() ==> 0 <= #[trigger] row_of(ord, x) < d.len() && ord[row_of(ord, x)] == x,
        forall|i: int, j: int| 0 <= i < d.len() && 0 <= j < d.len() && rot_less(d, #[trigger] ord[i], #[trigger] ord[j]) ==> i < j,
{
    let n = d.len() as int;
    assert forall|i: int, j: int| 0 <= i < n && 0 <= j < n && i != j implies #[trigger] ord[i] != #[trigger] ord[j] by {
        lemma_rot_irreflexive(d, ord[i], 0);
    }
    assert forall|i: int, j: int| 0 <= i < n && 0 <= j < n && rot_less(d, #[trigger] ord[i], #[trigger] ord[j]) implies i < j by {
        lemma_rot_irreflexive(d, ord[i], 0);
        if i > j {
            lemma_rot_total(d, ord[i], ord[j], 0);
        }
    }
    let rows = vstd::set_lib::set_int_range(0, n);
    let f = |j: int| ord[j];
    vstd::set_lib::lemma_int_range(0, n);
    let img = rows.map(f);
    assert(vstd::relations::injective_on(f, rows));
    vstd::set_lib::lemma_map_size(rows, img, f);
    assert(img.subset_of(rows)) by {
        assert forall|x: int| img.contains(x) implies rows.contains(x) by {
            let j = choose|j: int| rows.contains(j) && f(j) == x;
        }
    }
    vstd::set_lib::lemma_subset_equality(img, rows);
    assert forall|x: int| 0 <= x < n implies 0 <= #[trigger] row_of(ord, x) < n && ord[row_of(ord, x)] == x by {
        assert(img.contains(x));
        let j = choose|j: int| rows.contains(j) && f(j) == x;
        assert(0 <= j < ord.len() && ord[j] == x);
    }
}

/// An injection of `s` into `t` (missing `e`, which `t` holds) bounds the sizes.
proof fn lemma_count_inject(s: Set<int>, t: Set<int>, f: spec_fn(int) -> int, e: Option<int>)
    requires
        s.finite(),
        t.finite(),
        vstd::relations::injective_on(f, s),
        forall|x: int| s.contains(x) ==> t.contains(#[trigger] f(x)),
        e is Some ==> t.contains(e->0) && forall|x: int| s.contains(x) ==> #[trigger] f(x) != e->0,
    ensures
        s.len() + (if e is Some { 1int } else { 0int }) <= t.len(),
{
    let img = s.map(f);
    vstd::set_lib::lemma_map_size(s, img, f);
    match e {
        None => {
            vstd::set_lib::lemma_len_subset(img, t);
        },
        Some(v) => {
            assert(!img.contains(v));
            vstd::set::axiom_set_insert_len(img, v);
            vstd::set_lib::lemma_len_subset(img.insert(v), t);
        },
    }
}

/// A bijection of `s` onto `t` keeps the size.
proof fn lemma_count_biject(s: Set<int>, t: Set<int>, f: spec_fn(int) -> int, g: spec_fn(int) -> int)
    requires
        s.finite(),
        vstd::relations::injective_on(f, s),
        forall|x: int| s.contains(x) ==> t.contains(#[trigger] f(x)),
        forall|y: int| t.contains(y) ==> s.contains(#[trigger] g(y)) && f(g(y)) == y,
    ensures
        t.finite(),
        s.len() == t.len(),
{
    assert(s.map(f) =~= t) by {
        assert forall|y: int| t.contains(y) implies s.map(f).contains(y) by {
            assert(s.contains(g(y)) && f(g(y)) == y);
        }
    }
    vstd::set_lib::lemma_map_size(s, t, f);
}

/// `occ` counts the positions of `c` below `i`.
proof fn lemma_occ_set(b: Seq<u8>, c: int, i: int)
    requires
        0 <= i <= b.len(),
    ensures
        Set::new(|p: int| 0 <= p < i && b[p] == c).finite(),
        Set::new(|p: int| 0 <= p < i && b[p] == c).len() == occ(b, c, i),
    decreases i,
{
    let s = Set::new(|p: int| 0 <= p < i && b[p] == c);
    if i == 0 {
        assert(s =~= Set::empty());
    } else {
        lemma_occ_set(b, c, i - 1);
        let s0 = Set::new(|p: int| 0 <= p < i - 1 && b[p] == c);
        if b[i - 1] == c {
            assert(s =~= s0.insert(i - 1));
            vstd::set::axiom_set_insert_len(s0, i - 1);
        } else {
            assert(s =~= s0);
        }
    }
}

/// `below` counts the positions of bytes under `c` below `m`.
proof fn lemma_below_set(b: Seq<u8>, c: int, m: int)
    requires
        0 <= m <= b.len(),
        0 <= c,
    ensures
        Set::new(|p: int| 0 <= p < m && (b[p] as int) < c).finite(),
        Set::new(|p: int| 0 <= p < m && (b[p] as int) < c).len() == below(b, c, m),
    decreases c,
{
    let s = Set::new(|p: int| 0 <= p < m && (b[p] as int) < c);
    if c == 0 {
        assert(s =~= Set::empty());
    } else {
        lemma_below_set(b, c - 1, m);
        lemma_occ_set(b, c - 1, m);
        let s0 = Set::new(|p: int| 0 <= p < m && (b[p] as int) < c - 1);
        let s1 = Set::new(|p: int| 0 <= p < m && b[p] == c - 1);
        assert(s =~= s0 + s1);
        assert(s0.disjoint(s1));
        vstd::set_lib::lemma_set_disjoint_lens(s0, s1);
    }
}

proof fn lemma_first_byte_order(d: Seq<u8>, x: int, y: int)
    requires
        d.len() > 0,
        0 <= x < d.len(),
        0 <= y < d.len(),
    ensures
        lex_lt(d, x, y, 0, d.len() as int) == ((d[x] as int) < (d[y] as int)
            || (d[x] == d[y] && lex_lt(d, next_rot(x, d.len() as int), next_rot(y, d.len() as int), 0, d.len() - 1))),
{
    let n = d.len() as int;
    vstd::arithmetic::div_mod::lemma_small_mod(x as nat, n as nat);
    vstd::arithmetic::div_mod::lemma_small_mod(y as nat, n as nat);
    assert(rot_at(d, x, 0) == d[x]);
    assert(rot_at(d, y, 0) == d[y]);
    lemma_lex_next(d, x, y, 0, n - 1);
}

/// Counting rows by the rotation they hold is counting rotations.
proof fn lemma_rows_to_rots(d: Seq<u8>, ord: Seq<int>, pr: spec_fn(int) -> bool)
    requires
        d.len() > 0,
        rotation_order(d, ord),
    ensures
        Set::new(|j: int| 0 <= j < d.len() && pr(ord[j])).finite(),
        Set::new(|x: int| 0 <= x < d.len() && pr(x)).finite(),
        Set::new(|j: int| 0 <= j < d.len() && pr(ord[j])).len() == Set::new(|x: int| 0 <= x < d.len() && pr(x)).len(),
{
    let n = d.len() as int;
    lemma_ord_props(d, ord);
    let s = Set::new(|j: int| 0 <= j < n && pr(ord[j]));
    let t = Set::new(|x: int| 0 <= x < n && pr(x));
    vstd::set_lib::lemma_int_range(0, n);
    vstd::set_lib::lemma_len_subset(s, vstd::set_lib::set_int_range(0, n));
    lemma_count_biject(s, t, |j: int| ord[j], |x: int| row_of(ord, x));
}

/// Counting rotations by their right neighbour is counting rotations.
proof fn lemma_next_count(d: Seq<u8>, pr: spec_fn(int) -> bool)
    requires
        d.len() > 0,
    ensures
        Set::new(|x: int| 0 <= x < d.len() && pr(next_rot(x, d.len() as int))).finite(),
        Set::new(|z: int| 0 <= z < d.len() && pr(z)).finite(),
        Set::new(|x: int| 0 <= x < d.len() && pr(next_rot(x, d.len() as int))).len() == Set::new(|z: int| 0 <= z < d.len() && pr(z)).len(),
{
    let n = d.len() as int;
    let s = Set::new(|x: int| 0 <= x < n && pr(next_rot(x, n)));
    let t = Set::new(|z: int| 0 <= z < n && pr(z));
    vstd::set_lib::lemma_int_range(0, n);
    vstd::set_lib::lemma_len_subset(s, vstd::set_lib::set_int_range(0, n));
    lemma_count_biject(s, t, |x: int| next_rot(x, n), |z: int| prev_rot(z, n));
}

/// The last byte of row `p` is the first byte of the rotation left of `ord[p]`.
proof fn lemma_last_byte(d: Seq<u8>, ord: Seq<int>, p: int)
    requires
        d.len() > 0,
        rotation_order(d, ord),
        0 <= p < d.len(),
    ensures
        last_column(d, ord)[p] == d[prev_rot(ord[p], d.len() as int)],
        0 <= prev_rot(ord[p], d.len() as int) < d.len(),
        next_rot(prev_rot(ord[p], d.len() as int), d.len() as int) == ord[p],
{
    let n = d.len() as int;
    lemma_wrap(ord[p] + n - 1, n);
}

/// The rotations whose first byte is below `c` number `below(last column, c)`.
proof fn lemma_first_below(d: Seq<u8>, ord: Seq<int>, c: int)
    requires
        d.len() > 0,
        rotation_order(d, ord),
        0 <= c,
    ensures
        Set::new(|x: int| 0 <= x < d.len() && (d[x] as int) < c).finite(),
        Set::new(|x: int| 0 <= x < d.len() && (d[x] as int) < c).len() == below(last_column(d, ord), c, d.len() as int),
{
    let n = d.len() as int;
    let b = last_column(d, ord);
    let pr = |z: int| (d[prev_rot(z, n)] as int) < c;
    lemma_below_set(b, c, n);
    let bel = Set::new(|j: int| 0 <= j < n && (b[j] as int) < c);
    assert forall|j: int| 0 <= j < n implies #[trigger] b[j] == d[prev_rot(ord[j], n)] by {
        lemma_last_byte(d, ord, j);
    }
    assert(bel =~= Set::new(|j: int| 0 <= j < n && pr(ord[j])));
    lemma_rows_to_rots(d, ord, pr);
    lemma_next_count(d, pr);
    assert(Set::new(|x: int| 0 <= x < n && (d[x] as int) < c) =~= Set::new(|x: int| 0 <= x < n && pr(next_rot(x, n))));
}

/// The rows whose rotation is below the rotation left of row `p` number at most `lf(p)`.
proof fn lemma_lf_less(d: Seq<u8>, ord: Seq<int>, p: int)
    requires
        d.len() > 0,
        rotation_order(d, ord),
        0 <= p < d.len(),
    ensures
        ({
            let n = d.len() as int;
            let y = prev_rot(ord[p], n);
            let rows = Set::new(|j: int| 0 <= j < n && lex_lt(d, ord[j], y, 0, n));
            &&& rows.finite()
            &&& rows.len() <= lf(last_column(d, ord), p)
        }),
{
    let n = d.len() as int;
    let b = last_column(d, ord);
    let q = ord[p];
    let y = prev_rot(q, n);
    lemma_last_byte(d, ord, p);
    let c = d[y] as int;
    lemma_ord_props(d, ord);
    let prl = |x: int| lex_lt(d, x, y, 0, n);
    lemma_rows_to_rots(d, ord, prl);
    let rot_lt = Set::new(|x: int| 0 <= x < n && prl(x));
    let a = Set::new(|x: int| 0 <= x < n && (d[x] as int) < c);
    let bb = Set::new(|x: int| 0 <= x < n && d[x] as int == c && lex_lt(d, next_rot(x, n), q, 0, n - 1));
    assert forall|x: int| 0 <= x < n implies #[trigger] prl(x) == ((d[x] as int) < c || (d[x] as int == c && lex_lt(d, next_rot(x, n), q, 0, n - 1))) by {
        lemma_first_byte_order(d, x, y);
    }
    assert(rot_lt =~= a + bb);
    assert(a.disjoint(bb));
    lemma_first_below(d, ord, c);
    let pb = |z: int| d[prev_rot(z, n)] as int == c && lex_lt(d, z, q, 0, n - 1);
    lemma_next_count(d, pb);
    assert(bb =~= Set::new(|x: int| 0 <= x < n && pb(next_rot(x, n))));
    let bp = Set::new(|z: int| 0 <= z < n && pb(z));
    vstd::set_lib::lemma_set_disjoint_lens(a, bb);
    // the rotations of `bp` sit in rows above `p` that end in `c`
    lemma_occ_set(b, c, p);
    let occs = Set::new(|j: int| 0 <= j < p && b[j] == c);
    let f = |z: int| row_of(ord, z);
    assert forall|z: int| bp.contains(z) implies occs.contains(#[trigger] f(z)) by {
        let j = row_of(ord, z);
        lemma_last_byte(d, ord, j);
        lemma_lex_prefix(d, z, q, 0, n - 1, n);
        lemma_rot_less_lex(d, z, q, 0);
        assert(rot_less(d, ord[j], ord[p]));
    }
    assert(vstd::relations::injective_on(f, bp)) by {
        assert forall|z1: int, z2: int| bp.contains(z1) && bp.contains(z2) && #[trigger] f(z1) == #[trigger] f(z2) implies z1 == z2 by {
            assert(ord[row_of(ord, z1)] == z1);
            assert(ord[row_of(ord, z2)] == z2);
        }
    }
    lemma_count_inject(bp, occs, f, None);
    let rows = Set::new(|j: int| 0 <= j < n && lex_lt(d, ord[j], y, 0, n));
    assert(rows =~= Set::new(|j: int| 0 <= j < n && prl(ord[j])));
    assert(lf(b, p) == below(b, c, n) + occ(b, c, p));
}

/// The rows whose rotation is not above the rotation left of row `p` number more than `lf(p)`.
proof fn lemma_lf_less_eq(d: Seq<u8>, ord: Seq<int>, p: int)
    requires
        d.len() > 0,
        rotation_order(d, ord),
        0 <= p < d.len(),
    ensures
        ({
            let n = d.len() as int;
            let y = prev_rot(ord[p], n);
            let rows = Set::new(|j: int| 0 <= j < n && !lex_lt(d, y, ord[j], 0, n));
            &&& rows.finite()
            &&& rows.len() > lf(last_column(d, ord), p)
        }),
{
    let n = d.len() as int;
    let b = last_column(d, ord);
    let q = ord[p];
    let y = prev_rot(q, n);
    lemma_last_byte(d, ord, p);
    let c = d[y] as int;
    lemma_ord_props(d, ord);
    let prl = |x: int| !lex_lt(d, y, x, 0, n);
    lemma_rows_to_rots(d, ord, prl);
    let rot_le = Set::new(|x: int| 0 <= x < n && prl(x));
    let a = Set::new(|x: int| 0 <= x < n && (d[x] as int) < c);
    let cc = Set::new(|x: int| 0 <= x < n && d[x] as int == c && !lex_lt(d, q, next_rot(x, n), 0, n - 1));
    assert forall|x: int| 0 <= x < n implies #[trigger] prl(x) == ((d[x] as int) < c || (d[x] as int == c && !lex_lt(d, q, next_rot(x, n), 0, n - 1))) by {
        lemma_first_byte_order(d, y, x);
    }
    assert(rot_le =~= a + cc);
    assert(a.disjoint(cc));
    lemma_first_below(d, ord, c);
    let pc = |z: int| d[prev_rot(z, n)] as int == c && !lex_lt(d, q, z, 0, n - 1);
    lemma_next_count(d, pc);
    assert(cc =~= Set::new(|x: int| 0 <= x < n && pc(next_rot(x, n))));
    let cp = Set::new(|z: int| 0 <= z < n && pc(z));
    vstd::set_lib::lemma_set_disjoint_lens(a, cc);
    // the rotations of the rows above `p` that end in `c`, and `q` itself, lie in `cp`
    lemma_occ_set(b, c, p);
    let occs = Set::new(|j: int| 0 <= j < p && b[j] == c);
    let f = |j: int| ord[j];
    lemma_lex_tri(d, q, q, 0, n - 1);
    assert(cp.contains(q));
    assert forall|j: int| occs.contains(j) implies cp.contains(#[trigger] f(j)) && f(j) != q by {
        let z = ord[j];
        lemma_last_byte(d, ord, j);
        assert(rot_less(d, ord[j], ord[p]));
        lemma_rot_less_lex(d, z, q, 0);
        lemma_lex_tri(d, z, q, 0, n);
        lemma_lex_prefix(d, q, z, 0, n - 1, n);
    }
    assert(vstd::relations::injective_on(f, occs));
    vstd::set_lib::lemma_int_range(0, n);
    vstd::set_lib::lemma_len_subset(cp, vstd::set_lib::set_int_range(0, n));
    lemma_count_inject(occs, cp, f, Some(q));
    let rows = Set::new(|j: int| 0 <= j < n && !lex_lt(d, y, ord[j], 0, n));
    assert(rows =~= Set::new(|j: int| 0 <= j < n && prl(ord[j])));
    assert(lf(b, p) == below(b, c, n) + occ(b, c, p));
}

/// The LF mapping sends row `p` to a row whose rotation reads as the rotation left of `ord[p]`.
proof fn lemma_lf_row(d: Seq<u8>, ord: Seq<int>, p: int)
    requires
        d.len() > 0,
        rotation_order(d, ord),
        0 <= p < d.len(),
    ensures
        0 <= lf(last_column(d, ord), p) < d.len(),
        lex_eq(d, ord[lf(last_column(d, ord), p)], prev_rot(ord[p], d.len() as int), 0, d.len() as int),
{
    let n = d.len() as int;
    let b = last_column(d, ord);
    let y = prev_rot(ord[p], n);
    lemma_lf_less(d, ord, p);
    lemma_lf_less_eq(d, ord, p);
    lemma_lf_range(b, p);
    let l = lf(b, p);
    let lt_rows = Set::new(|j: int| 0 <= j < n && lex_lt(d, ord[j], y, 0, n));
    let le_rows = Set::new(|j: int| 0 <= j < n && !lex_lt(d, y, ord[j], 0, n));
    lemma_last_byte(d, ord, p);
    lemma_lex_tri(d, ord[l], y, 0, n);
    if lex_lt(d, ord[l], y, 0, n) {
        // every row up to `l` lies below `y`
        assert(vstd::set_lib::set_int_range(0, l + 1).subset_of(lt_rows)) by {
            assert forall|j: int| 0 <= j < l + 1 implies lt_rows.contains(j) by {
                if j < l {
                    assert(rot_less(d, ord[j], ord[l]));
                    lemma_rot_less_lex(d, ord[j], ord[l], 0);
                    lemma_lex_trans(d, ord[j], ord[l], y, 0, n);
                }
            }
        }
        vstd::set_lib::lemma_int_range(0, l + 1);
        vstd::set_lib::lemma_len_subset(vstd::set_lib::set_int_range(0, l + 1), lt_rows);
        assert(false);
    } else if lex_lt(d, y, ord[l], 0, n) {
        // no row from `l` on lies at or below `y`
        assert(le_rows.subset_of(vstd::set_lib::set_int_range(0, l))) by {
            assert forall|j: int| le_rows.contains(j) implies 0 <= j < l by {
                if j > l {
                    assert(rot_less(d, ord[l], ord[j]));
                    lemma_rot_less_lex(d, ord[l], ord[j], 0);
                    lemma_lex_trans(d, y, ord[l], ord[j], 0, n);
                }
            }
        }
        vstd::set_lib::lemma_int_range(0, l);
        vstd::set_lib::lemma_len_subset(le_rows, vstd::set_lib::set_int_range(0, l));
        assert(false);
    }
}

/// Rotations that read alike have left neighbours that read alike.
proof fn lemma_prev_eq(d: Seq<u8>, x: int, v: int)
    requires
        d.len() > 0,
        0 <= x < d.len(),
        0 <= v < d.len(),
        lex_eq(d, x, v, 0, d.len() as int),
    ensures
        lex_eq(d, prev_rot(x, d.len() as int), prev_rot(v, d.len() as int), 0, d.len() as int),
{
    let n = d.len() as int;
    let px = prev_rot(x, n);
    let pv = prev_rot(v, n);
    assert forall|i: int| 0 <= i < n implies #[trigger] rot_at(d, px, i) == rot_at(d, pv, i) by {
        if i == 0 {
            lemma_wrap(x + n - 1, n);
            lemma_wrap(v + n - 1, n);
            vstd::arithmetic::div_mod::lemma_small_mod(px as nat, n as nat);
            vstd::arithmetic::div_mod::lemma_small_mod(pv as nat, n as nat);
            assert(rot_at(d, x, n - 1) == rot_at(d, v, n - 1));
        } else {
            lemma_rot_next(d, px, i - 1);
            lemma_rot_next(d, pv, i - 1);
            assert(rot_at(d, x, i - 1) == rot_at(d, v, i - 1));
        }
    }
}

/// The rotation reached after `m` steps left of rotation 0.
pub open spec fn left_of_start(n: int, m: int) -> int
    decreases m,
{
    if m <= 0 { 0 } else { prev_rot(left_of_start(n, m - 1), n) }
}

proof fn lemma_left_of_start(n: int, m: int)
    requires
        0 <= m < n,
    ensures
        left_of_start(n, m) == if m == 0 { 0 } else { n - m },
    decreases m,
{
    if m > 0 {
        lemma_left_of_start(n, m - 1);
    }
}

/// `m` LF steps from the row of rotation 0 reach a row that reads as the rotation `m` left
/// of it.
proof fn lemma_walk_rot(d: Seq<u8>, ord: Seq<int>, idx: int, m: int)
    requires
        d.len() > 0,
        rotation_order(d, ord),
        0 <= idx < d.len(),
        ord[idx] == 0,
        0 <= m < d.len(),
    ensures
        0 <= walk(last_column(d, ord), idx, m) < d.len(),
        lex_eq(d, ord[walk(last_column(d, ord), idx, m)], left_of_start(d.len() as int, m), 0, d.len() as int),
    decreases m,
{
    let n = d.len() as int;
    let b = last_column(d, ord);
    if m == 0 {
    } else {
        lemma_walk_rot(d, ord, idx, m - 1);
        let w = walk(b, idx, m - 1);
        lemma_lf_row(d, ord, w);
        lemma_left_of_start(n, m - 1);
        lemma_prev_eq(d, ord[w], left_of_start(n, m - 1));
        lemma_lex_trans(d, ord[lf(b, w)], prev_rot(ord[w], n), prev_rot(left_of_start(n, m - 1), n), 0, n);
    }
}

/// Inverting the transform of `d` gives back `d`.
pub proof fn lemma_bwt_roundtrip(d: Seq<u8>, r: Seq<u8>)
    requires
        is_bwt_of(r, d),
    ensures
        bwt_index_ok(r),
        bwt_inverse(r) == d,
{
    let n = d.len() as int;
    if n == 0 {
        assert(bwt_inverse(r) =~= d);
    } else {
        let ord = choose|ord: Seq<int>| #[trigger] rotation_order(d, ord)
            && r.len() == 4 + d.len()
            && u32_at(r, 0) < d.len()
            && ord[u32_at(r, 0) as int] == 0
            && r.subrange(4, r.len() as int) == last_column(d, ord);
        let idx = u32_at(r, 0) as int;
        let b = last_column(d, ord);
        assert(r.subrange(4, r.len() as int) == b);
        assert forall|i: int| 0 <= i < n implies #[trigger] bwt_inverse(r)[i] == d[i] by {
            let m = n - 1 - i;
            lemma_walk_rot(d, ord, idx, m);
            let w = walk(b, idx, m);
            lemma_left_of_start(n, m);
            let v = left_of_start(n, m);
            lemma_wrap(ord[w] + n - 1, n);
            assert(rot_at(d, ord[w], n - 1) == rot_at(d, v, n - 1));
            lemma_wrap(v + n - 1, n);
            assert(b[w] == rot_at(d, ord[w], n - 1));
        }
        assert(bwt_inverse(r) =~= d);
    }
}

/// Whatever `forward` writes for `d` inverts back to `d`.
proof fn lemma_forward_reads_back(d: Seq<u8>)
    ensures
        forall|r: Seq<u8>| #[trigger] is_bwt_of(r, d) ==> bwt_index_ok(r) && bwt_inverse(r) == d,
{
    assert forall|r: Seq<u8>| #[trigger] is_bwt_of(r, d) implies bwt_index_ok(r) && bwt_inverse(r) == d by {
        lemma_bwt_roundtrip(d, r);
    }
}

} // verus!
