//! Run-length coding for sparse data.
//!
//! A run of 4 to 257 equal bytes `v` becomes `[0xFF, run - 3, v]`; shorter runs are copied,
//! except that each byte 0xFF in a short run is written as the escape `[0xFF, 0x00]`.
//! Decoding reads `[0xFF, 0x00]` as one 0xFF and `[0xFF, c, v]` as `c + 3` copies of `v`.
use vstd::prelude::*;

verus! {

/// Number of leading bytes of `d` equal to `v`.
pub open spec fn leading_equal(d: Seq<u8>, v: u8) -> nat
    decreases d.len(),
{
    if d.len() > 0 && d[0] == v { 1 + leading_equal(d.skip(1), v) } else { 0 }
}

/// Length of the run the encoder takes at the front of `d`: the leading bytes equal to
/// `d[0]`, at most 257.
pub open spec fn run_at(d: Seq<u8>) -> nat {
    let n = leading_equal(d, d[0]);
    if n > 257 { 257 } else { n }
}

/// How a short run of `r` copies of `v` is written: each 0xFF as `[0xFF, 0x00]`, any other
/// byte as itself.
pub open spec fn short_run(v: u8, r: nat) -> Seq<u8>
    decreases r,
{
    if r == 0 {
        Seq::empty()
    } else if v == 0xFF {
        seq![0xFFu8, 0u8] + short_run(v, (r - 1) as nat)
    } else {
        seq![v] + short_run(v, (r - 1) as nat)
    }
}

/// The encoding of `d`.
pub open spec fn rle_encoded(d: Seq<u8>) -> Seq<u8>
    decreases d.len(),
{
    if d.len() == 0 {
        Seq::empty()
    } else {
        let r = run_at(d);
        if 0 < r <= d.len() {
            if r >= 4 {
                seq![0xFFu8, (r - 3) as u8, d[0]] + rle_encoded(d.skip(r as int))
            } else {
                short_run(d[0], r) + rle_encoded(d.skip(r as int))
            }
        } else {
            Seq::empty()
        }
    }
}

/// What decoding `s` yields: `[0xFF, 0x00]` is one 0xFF; `[0xFF, c, v]` with `c` not zero
/// expands to `c + 3` copies of `v`; any other byte is copied.
pub open spec fn rle_decoded(s: Seq<u8>) -> Seq<u8>
    decreases s.len(),
{
    if s.len() == 0 {
        Seq::empty()
    } else if s[0] == 0xFF && 1 < s.len() && s[1] == 0 {
        seq![0xFFu8] + rle_decoded(s.skip(2))
    } else if s[0] == 0xFF && 2 < s.len() {
        Seq::new((s[1] + 3) as nat, |i: int| s[2]) + rle_decoded(s.skip(3))
    } else {
        seq![s[0]] + rle_decoded(s.skip(1))
    }
}

proof fn lemma_leading_equal(d: Seq<u8>, v: u8)
    ensures
        leading_equal(d, v) <= d.len(),
        forall|i: int| 0 <= i < leading_equal(d, v) ==> d[i] == v,
        leading_equal(d, v) < d.len() ==> d[leading_equal(d, v) as int] != v,
    decreases d.len(),
{
    if d.len() > 0 && d[0] == v {
        lemma_leading_equal(d.skip(1), v);
        assert forall|i: int| 0 <= i < leading_equal(d, v) implies d[i] == v by {
            if i > 0 {
                assert(d[i] == d.skip(1)[i - 1]);
            }
        }
        if leading_equal(d, v) < d.len() {
            assert(d[leading_equal(d, v) as int] == d.skip(1)[leading_equal(d.skip(1), v) as int]);
        }
    }
}

proof fn lemma_run_at(d: Seq<u8>)
    requires
        d.len() > 0,
    ensures
        0 < run_at(d) <= d.len(),
        run_at(d) <= 257,
        forall|i: int| 0 <= i < run_at(d) ==> #[trigger] d[i] == d[0],
{
    lemma_leading_equal(d, d[0]);
    assert(d.skip(1).len() >= 0);
}

/// Decoding a short run followed by `rest` gives the run's bytes followed by what `rest`
/// decodes to.
proof fn lemma_short_run_decoded(v: u8, k: nat, rest: Seq<u8>)
    ensures
        rle_decoded(short_run(v, k) + rest) == Seq::new(k, |i: int| v) + rle_decoded(rest),
    decreases k,
{
    if k == 0 {
        assert(short_run(v, 0) + rest =~= rest);
        assert(Seq::new(0, |i: int| v) + rle_decoded(rest) =~= rle_decoded(rest));
    } else {
        lemma_short_run_decoded(v, (k - 1) as nat, rest);
        let tail = short_run(v, (k - 1) as nat) + rest;
        if v == 0xFF {
            let e = seq![0xFFu8, 0u8] + tail;
            assert(short_run(v, k) + rest =~= e);
            assert(e.skip(2) =~= tail);
            assert(rle_decoded(e) == seq![0xFFu8] + rle_decoded(tail));
        } else {
            let e = seq![v] + tail;
            assert(short_run(v, k) + rest =~= e);
            assert(e.skip(1) =~= tail);
            assert(rle_decoded(e) == seq![v] + rle_decoded(tail));
        }
        assert(seq![v] + (Seq::new((k - 1) as nat, |i: int| v) + rle_decoded(rest))
            =~= Seq::new(k, |i: int| v) + rle_decoded(rest));
    }
}

/// Decoding an encoding gives back the input.
pub proof fn lemma_rle_roundtrip(d: Seq<u8>)
    ensures
        rle_decoded(rle_encoded(d)) == d,
    decreases d.len(),
{
    if d.len() > 0 {
        lemma_run_at(d);
        let r = run_at(d);
        let rest = d.skip(r as int);
        lemma_rle_roundtrip(rest);
        let te = rle_encoded(rest);
        let v = d[0];
        if r >= 4 {
            let e = seq![0xFFu8, (r - 3) as u8, v] + te;
            assert(rle_encoded(d) == e);
            assert(e[0] == 0xFF && e.len() > 2 && e[1] == r - 3 && e[1] != 0 && e[2] == v);
            assert(e.skip(3) =~= te);
            assert(rle_decoded(e) == Seq::new(r, |i: int| v) + rest);
        } else {
            assert(rle_encoded(d) == short_run(v, r) + te);
            lemma_short_run_decoded(v, r, te);
        }
        assert(Seq::new(r, |i: int| v) + rest =~= d);
    }
}

/// Run-length encodes `data`.
pub fn encode(data: &[u8]) -> (r: Vec<u8>)
    ensures
        r@ == rle_encoded(data@),
{
    let mut result: Vec<u8> = Vec::new();
    let mut i: usize = 0;
    assert(data@.skip(0) =~= data@);
    while i < data.len()
        invariant
            i <= data.len(),
            result@ + rle_encoded(data@.skip(i as int)) == rle_encoded(data@),
        decreases data.len() - i,
    {
        let ghost s = data@.skip(i as int);
        let value = data[i];
        let mut run_len: usize = 1;
        proof { lemma_leading_equal(s, value); }
        while i + run_len < data.len() && data[i + run_len] == value && run_len < 257
            invariant
                s == data@.skip(i as int),
                s[0] == value,
                1 <= run_len <= 257,
                i + run_len <= data.len(),
                run_len <= leading_equal(s, value),
                leading_equal(s, value) <= s.len(),
                leading_equal(s, value) < s.len() ==> s[leading_equal(s, value) as int] != value,
            decreases data.len() - run_len,
        {
            assert(s[run_len as int] == data@[i + run_len]);
            run_len = run_len + 1;
        }
        proof {
            if i + run_len < data.len() && run_len < 257 {
                assert(s[run_len as int] == data@[i + run_len]);
            }
            assert(run_len == run_at(s));
            assert(s.skip(run_len as int) =~= data@.skip(i + run_len));
        }
        let ghost before = result@;
        if run_len >= 4 {
            result.push(0xFF);
            result.push((run_len - 3) as u8);
            result.push(value);
        } else {
            let mut k: usize = 0;
            while k < run_len
                invariant
                    k <= run_len <= 3,
                    before + short_run(value, run_len as nat)
                        == result@ + short_run(value, (run_len - k) as nat),
                decreases run_len - k,
            {
                if value == 0xFF {
                    result.push(0xFF);
                    result.push(0x00);
                } else {
                    result.push(value);
                }
                k = k + 1;
                assert(before + short_run(value, run_len as nat)
                    =~= result@ + short_run(value, (run_len - k) as nat));
            }
            assert(result@ + short_run(value, 0) =~= result@);
        }
        i = i + run_len;
        assert(result@ + rle_encoded(data@.skip(i as int)) =~= rle_encoded(data@));
    }
    assert(data@.skip(i as int) =~= Seq::<u8>::empty());
    assert(result@ + Seq::<u8>::empty() =~= result@);
    result
}

/// Reverses [`encode`].
pub fn decode(data: &[u8]) -> (r: Vec<u8>)
    ensures
        r@ == rle_decoded(data@),
{
    let mut result: Vec<u8> = Vec::new();
    let mut i: usize = 0;
    assert(data@.skip(0) =~= data@);
    assert(Seq::<u8>::empty() + rle_decoded(data@) =~= rle_decoded(data@));
    while i < data.len()
        invariant
            i <= data.len(),
            result@ + rle_decoded(data@.skip(i as int)) == rle_decoded(data@),
        decreases data.len() - i,
    {
        let ghost s = data@.skip(i as int);
        let ghost before = result@;
        assert(s[0] == data@[i as int]);
        if data[i] == 0xFF && data.len() - i > 1 && data[i + 1] == 0 {
            assert(s[1] == data@[i + 1]);
            result.push(0xFF);
            i = i + 2;
            assert(s.skip(2) =~= data@.skip(i as int));
        } else if data[i] == 0xFF && data.len() - i > 2 {
            let count = data[i + 1] as usize + 3;
            let value = data[i + 2];
            assert(s[1] == data@[i + 1] && s[2] == data@[i + 2]);
            let mut k: usize = 0;
            while k < count
                invariant
                    k <= count,
                    result@ == before + Seq::new(k as nat, |t: int| value),
                decreases count - k,
            {
                result.push(value);
                k = k + 1;
                assert(result@ =~= before + Seq::new(k as nat, |t: int| value));
            }
            i = i + 3;
            assert(s.skip(3) =~= data@.skip(i as int));
            assert(Seq::new(count as nat, |t: int| value) =~= Seq::new((s[1] + 3) as nat, |t: int| s[2]));
        } else {
            result.push(data[i]);
            i = i + 1;
            assert(s.skip(1) =~= data@.skip(i as int));
        }
        assert(result@ + rle_decoded(data@.skip(i as int)) =~= rle_decoded(data@));
    }
    assert(data@.skip(i as int) =~= Seq::<u8>::empty());
    assert(result@ + Seq::<u8>::empty() =~= result@);
    result
}

} // verus!
