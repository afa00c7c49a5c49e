//! Zero-run coding for move-to-front output.
//!
//! A non-zero byte `b` becomes `b + 1`; a run of `n` zeros becomes `n` written in bijective
//! base 2 with the digits 0 and 1 (least significant first).
use vstd::prelude::*;

verus! {

/// `2^k`.
pub open spec fn pow2(k: nat) -> nat
    decreases k,
{
    if k == 0 { 1 } else { 2 * pow2((k - 1) as nat) }
}

/// `n` in bijective base 2, least significant digit first, digits 0 and 1 standing for 1 and 2.
pub open spec fn bijective_digits(n: nat) -> Seq<u8>
    decreases n,
{
    if n == 0 {
        Seq::empty()
    } else {
        seq![((n - 1) % 2) as u8] + bijective_digits(((n - 1) / 2) as nat)
    }
}

/// Number of leading zero bytes of `d`.
pub open spec fn zero_prefix(d: Seq<u8>) -> nat
    decreases d.len(),
{
    if d.len() > 0 && d[0] == 0 { 1 + zero_prefix(d.skip(1)) } else { 0 }
}

/// The encoding of `d`.
pub open spec fn zrle_encoded(d: Seq<u8>) -> Seq<u8>
    decreases d.len(),
{
    if d.len() == 0 {
        Seq::empty()
    } else if d[0] == 0 {
        let k = zero_prefix(d);
        if 0 < k <= d.len() {
            bijective_digits(k) + zrle_encoded(d.skip(k as int))
        } else {
            Seq::empty()
        }
    } else {
        seq![(d[0] + 1) as u8] + zrle_encoded(d.skip(1))
    }
}

/// Reads the leading run of digits 0/1 of `s` into a zero count, as the decoder does in
/// 32-bit arithmetic: `None` where that arithmetic overflows, else the count and the number
/// of digits read.
pub open spec fn read_run(s: Seq<u8>, run: nat, power: nat) -> Option<(nat, nat)>
    decreases s.len(),
{
    if s.len() > 0 && s[0] <= 1 {
        let t = (s[0] + 1) * power;
        if t > u32::MAX || run + t > u32::MAX {
            None
        } else {
            match read_run(s.skip(1), (run + t) as nat, (2 * power) % 0x1_0000_0000) {
                Some((r, k)) => Some((r, k + 1)),
                None => None,
            }
        }
    } else {
        Some((run, 0))
    }
}

/// What decoding `s` yields; `None` where the decoder's 32-bit run arithmetic would overflow.
pub open spec fn zrle_decoded(s: Seq<u8>) -> Option<Seq<u8>>
    decreases s.len(),
{
    if s.len() == 0 {
        Some(Seq::empty())
    } else if s[0] <= 1 {
        match read_run(s, 0, 1) {
            Some((n, k)) => if 0 < k <= s.len() {
                match zrle_decoded(s.skip(k as int)) {
                    Some(rest) => Some(Seq::new(n, |i: int| 0u8) + rest),
                    None => None,
                }
            } else {
                None
            },
            None => None,
        }
    } else {
        match zrle_decoded(s.skip(1)) {
            Some(rest) => Some(seq![(s[0] - 1) as u8] + rest),
            None => None,
        }
    }
}

/// True when no byte is 255 (the encoder adds one to every non-zero byte).
pub open spec fn no_255(d: Seq<u8>) -> bool {
    forall|i: int| 0 <= i < d.len() ==> d[i] != 255
}

proof fn lemma_read_run_bounds(s: Seq<u8>, run: nat, power: nat)
    ensures
        read_run(s, run, power) matches Some((r, k)) ==> k <= s.len() && (s.len() > 0 && s[0] <= 1 ==> k > 0),
    decreases s.len(),
{
    if s.len() > 0 && s[0] <= 1 {
        lemma_read_run_bounds(s.skip(1), (run + (s[0] + 1) * power) as nat, (2 * power) % 0x1_0000_0000);
    }
}

proof fn lemma_zero_prefix(d: Seq<u8>)
    ensures
        zero_prefix(d) <= d.len(),
        forall|i: int| 0 <= i < zero_prefix(d) ==> d[i] == 0,
        zero_prefix(d) < d.len() ==> d[zero_prefix(d) as int] != 0,
        d.len() > 0 && d[0] == 0 ==> zero_prefix(d) > 0,
    decreases d.len(),
{
    if d.len() > 0 && d[0] == 0 {
        lemma_zero_prefix(d.skip(1));
        assert forall|i: int| 0 <= i < zero_prefix(d) implies d[i] == 0 by {
            if i > 0 {
                assert(d[i] == d.skip(1)[i - 1]);
            }
        }
        if zero_prefix(d) < d.len() {
            assert(d[zero_prefix(d) as int] == d.skip(1)[zero_prefix(d.skip(1)) as int]);
        }
    }
}

proof fn lemma_digits_len(n: nat, k: nat)
    requires
        n < pow2(k),
    ensures
        bijective_digits(n).len() <= k,
        forall|i: int| 0 <= i < bijective_digits(n).len() ==> bijective_digits(n)[i] <= 1,
    decreases n,
{
    if n > 0 {
        assert(k > 0);
        assert(pow2(k) == 2 * pow2((k - 1) as nat));
        lemma_digits_len(((n - 1) / 2) as nat, (k - 1) as nat);
        let d = bijective_digits(n);
        assert forall|i: int| 0 <= i < d.len() implies d[i] <= 1 by {
            if i > 0 {
                assert(d[i] == bijective_digits(((n - 1) / 2) as nat)[i - 1]);
            }
        }
    }
}

proof fn lemma_read_digits(n: nat, tail: Seq<u8>, run: nat, j: nat)
    requires
        tail.len() == 0 || tail[0] >= 2,
        n > 0 ==> j + bijective_digits(n).len() <= 32,
        run + pow2(j) * n <= u32::MAX,
        j <= 32,
    ensures
        read_run(bijective_digits(n) + tail, run, pow2(j) % 0x1_0000_0000)
            == Some((run + pow2(j) * n, bijective_digits(n).len())),
    decreases n,
{
    let s = bijective_digits(n) + tail;
    if n == 0 {
        assert(s =~= tail);
        assert(pow2(j) * n == 0) by (nonlinear_arith) requires n == 0;
    } else {
        let b = ((n - 1) % 2) as u8;
        let m = ((n - 1) / 2) as nat;
        assert(j < 32);
        lemma_pow2_small(j);
        let pw = pow2(j);
        assert(pw % 0x1_0000_0000 == pw);
        assert(s[0] == b);
        assert(s.skip(1) =~= bijective_digits(m) + tail);
        assert(n == (b + 1) + 2 * m);
        assert((b + 1) * pw <= pw * n) by (nonlinear_arith) requires n == (b + 1) + 2 * m, pw >= 0;
        assert(pw * n == (b + 1) * pw + (2 * pw) * m) by (nonlinear_arith) requires n == (b + 1) + 2 * m;
        assert(pow2(j + 1) == 2 * pw);
        if m > 0 {
            lemma_pow2_small((j + 1) as nat);
        }
        assert((2 * pw) % 0x1_0000_0000 == pow2(j + 1) % 0x1_0000_0000);
        lemma_read_digits(m, tail, (run + (b + 1) * pw) as nat, (j + 1) as nat);
    }
}

proof fn lemma_pow2_mono(j: nat, k: nat)
    requires
        j <= k,
    ensures
        0 < pow2(j) <= pow2(k),
    decreases k,
{
    lemma_pow2_pos(j);
    if k > j {
        lemma_pow2_mono(j, (k - 1) as nat);
    }
}

proof fn lemma_pow2_pos(j: nat)
    ensures
        0 < pow2(j),
    decreases j,
{
    if j > 0 {
        lemma_pow2_pos((j - 1) as nat);
    }
}

proof fn lemma_pow2_small(j: nat)
    requires
        j < 32,
    ensures
        0 < pow2(j) <= 0x8000_0000,
{
    lemma_pow2_mono(j, 31);
    reveal_with_fuel(pow2, 33);
    assert(pow2(31) == 0x8000_0000);
}

proof fn lemma_pow2_32()
    ensures
        pow2(32) == 0x1_0000_0000,
{
    reveal_with_fuel(pow2, 34);
    assert(pow2(32) == 0x1_0000_0000);
}

/// Decoding an encoding gives back the input, for inputs without the byte 255 and of fewer
/// than 2^32 bytes.
pub proof fn lemma_zrle_roundtrip(d: Seq<u8>)
    requires
        no_255(d),
        d.len() <= u32::MAX,
    ensures
        zrle_decoded(zrle_encoded(d)) == Some(d),
    decreases d.len(),
{
    if d.len() > 0 {
        let e = zrle_encoded(d);
        if d[0] == 0 {
            lemma_zero_prefix(d);
            let k = zero_prefix(d);
            let rest = d.skip(k as int);
            assert(no_255(rest)) by {
                assert forall|i: int| 0 <= i < rest.len() implies rest[i] != 255 by {
                    assert(rest[i] == d[i + k]);
                }
            }
            lemma_zrle_roundtrip(rest);
            let te = zrle_encoded(rest);
            assert(te.len() == 0 || te[0] >= 2) by {
                if rest.len() > 0 {
                    assert(rest[0] == d[k as int]);
                    assert(rest[0] != 0);
                }
            }
            lemma_pow2_32();
            lemma_digits_len(k, 32);
            assert(pow2(0) == 1);
            assert(pow2(0) * k == k) by (nonlinear_arith) requires pow2(0) == 1;
            lemma_read_digits(k, te, 0, 0);
            let digits = bijective_digits(k);
            assert(digits.len() > 0);
            assert(e == digits + te);
            assert(e[0] == digits[0]);
            assert(e.skip(digits.len() as int) =~= te);
            assert(Seq::new(k, |i: int| 0u8) + rest =~= d) by {
                assert forall|i: int| 0 <= i < d.len() implies
                    (Seq::new(k, |i: int| 0u8) + rest)[i] == d[i] by {
                    if i >= k {
                        assert(rest[i - k] == d[i]);
                    }
                }
            }
        } else {
            let rest = d.skip(1);
            assert(no_255(rest)) by {
                assert forall|i: int| 0 <= i < rest.len() implies rest[i] != 255 by {
                    assert(rest[i] == d[i + 1]);
                }
            }
            lemma_zrle_roundtrip(rest);
            assert(e[0] == d[0] + 1);
            assert(e.skip(1) =~= zrle_encoded(rest));
            assert(seq![d[0]] + rest =~= d);
        }
    }
}

/// Appends `n` in bijective base 2.
fn encode_zero_run(run_len: u32, out: &mut Vec<u8>)
    ensures
        final(out)@ == old(out)@ + bijective_digits(run_len as nat),
{
    let mut n = run_len;
    while n > 0
        invariant
            old(out)@ + bijective_digits(run_len as nat) == out@ + bijective_digits(n as nat),
        decreases n,
    {
        let m = n - 1;
        let digit = (m % 2) as u8;
        out.push(digit);
        n = m / 2;
        assert(bijective_digits((n + 0) as nat + 0) == bijective_digits(((m + 1 - 1) / 2) as nat));
    }
    assert(out@ + bijective_digits(0) =~= out@);
}

/// Collapses zero runs; every other byte is shifted up by one.
pub fn encode(data: &[u8]) -> (r: Vec<u8>)
    requires
        no_255(data@),
        data.len() <= u32::MAX,
    ensures
        r@ == zrle_encoded(data@),
{
    let mut result: Vec<u8> = Vec::new();
    let mut i: usize = 0;
    assert(data@.skip(0) =~= data@);
    while i < data.len()
        invariant
            i <= data.len() <= u32::MAX,
            no_255(data@),
            result@ + zrle_encoded(data@.skip(i as int)) == zrle_encoded(data@),
        decreases data.len() - i,
    {
        let ghost s = data@.skip(i as int);
        if data[i] == 0 {
            let start = i;
            let mut run_len: u32 = 0;
            proof { lemma_zero_prefix(s); }
            while i < data.len() && data[i] == 0
                invariant
                    start <= i <= data.len() <= u32::MAX,
                    run_len == i - start,
                    s == data@.skip(start as int),
                    forall|t: int| start <= t < i ==> data@[t] == 0,
                    i - start <= zero_prefix(s),
                decreases data.len() - i,
            {
                proof {
                    lemma_zero_prefix(s);
                    if i - start == zero_prefix(s) {
                        assert(s[(i - start) as int] == data@[i as int]);
                    }
                }
                run_len = run_len + 1;
                i = i + 1;
            }
            proof {
                if i < data.len() {
                    assert(s[(i - start) as int] == data@[i as int]);
                }
                assert(run_len == zero_prefix(s));
                assert(s.skip(run_len as int) =~= data@.skip(i as int));
            }
            encode_zero_run(run_len, &mut result);
            assert(result@ + zrle_encoded(data@.skip(i as int)) =~= zrle_encoded(data@));
        } else {
            result.push(data[i] + 1);
            i = i + 1;
            assert(s.skip(1) =~= data@.skip(i as int));
            assert(result@ + zrle_encoded(data@.skip(i as int)) =~= zrle_encoded(data@));
        }
    }
    assert(data@.skip(i as int) =~= Seq::<u8>::empty());
    assert(result@ + Seq::<u8>::empty() =~= result@);
    result
}

/// Reads the run of 0/1 digits starting at `start`.
fn decode_zero_run(data: &[u8], start: usize) -> (r: (u32, usize))
    requires
        start <= data.len(),
        read_run(data@.skip(start as int), 0, 1) is Some,
    ensures
        read_run(data@.skip(start as int), 0, 1) == Some((r.0 as nat, (r.1 - start) as nat)),
        start <= r.1 <= data.len(),
{
    let mut run_len: u32 = 0;
    let mut power: u32 = 1;
    let mut i = start;
    while i < data.len() && data[i] <= 1
        invariant
            start <= i <= data.len(),
            read_run(data@.skip(i as int), run_len as nat, power as nat) is Some,
            read_run(data@.skip(start as int), 0, 1) == match read_run(data@.skip(i as int), run_len as nat, power as nat) {
                Some((r, k)) => Some((r, (k + (i - start)) as nat)),
                None => None::<(nat, nat)>,
            },
        decreases data.len() - i,
    {
        let ghost s = data@.skip(i as int);
        assert(s[0] == data@[i as int]);
        assert(s.skip(1) =~= data@.skip(i + 1));
        let t: u64 = (data[i] as u64 + 1) * (power as u64);
        assert(t == (s[0] + 1) * power);
        assert(t <= u32::MAX && run_len + t <= u32::MAX);
        let total: u64 = run_len as u64 + t;
        run_len = total as u32;
        if power >= 0x8000_0000 {
            power = (power as u64 * 2 - 0x1_0000_0000) as u32;
        } else {
            power = power * 2;
        }
        i = i + 1;
    }
    (run_len, i)
}

/// Expands zero runs and shifts every other byte back down by one.
pub fn decode(data: &[u8]) -> (r: Vec<u8>)
    requires
        zrle_decoded(data@) is Some,
    ensures
        zrle_decoded(data@) == Some(r@),
{
    let mut result: Vec<u8> = Vec::new();
    let mut i: usize = 0;
    assert(data@.skip(0) =~= data@);
    assert(Seq::<u8>::empty() + zrle_decoded(data@)->0 =~= zrle_decoded(data@)->0);
    while i < data.len()
        invariant
            i <= data.len(),
            zrle_decoded(data@.skip(i as int)) is Some,
            zrle_decoded(data@) == Some(result@ + zrle_decoded(data@.skip(i as int))->0),
        decreases data.len() - i,
    {
        let ghost s = data@.skip(i as int);
        assert(s[0] == data@[i as int]);
        if data[i] <= 1 {
            proof { lemma_read_run_bounds(s, 0, 1); }
            let (run_len, new_i) = decode_zero_run(data, i);
            let mut z: u32 = 0;
            let ghost before = result@;
            while z < run_len
                invariant
                    z <= run_len,
                    result@ == before + Seq::new(z as nat, |t: int| 0u8),
                decreases run_len - z,
            {
                result.push(0);
                z = z + 1;
                assert(result@ =~= before + Seq::new(z as nat, |t: int| 0u8));
            }
            proof {
                assert(s.skip((new_i - i) as int) =~= data@.skip(new_i as int));
            }
            i = new_i;
            assert(zrle_decoded(data@) == Some(result@ + zrle_decoded(data@.skip(i as int))->0)) by {
                assert(before + Seq::new(run_len as nat, |t: int| 0u8) + zrle_decoded(data@.skip(i as int))->0
                    =~= before + (Seq::new(run_len as nat, |t: int| 0u8) + zrle_decoded(data@.skip(i as int))->0));
            }
        } else {
            result.push(data[i] - 1);
            i = i + 1;
            assert(s.skip(1) =~= data@.skip(i as int));
            assert(zrle_decoded(data@) == Some(result@ + zrle_decoded(data@.skip(i as int))->0)) by {
                let ghost before = result@.drop_last();
                assert(result@ =~= before.push((s[0] - 1) as u8));
                assert(before + (seq![(s[0] - 1) as u8] + zrle_decoded(data@.skip(i as int))->0)
                    =~= result@ + zrle_decoded(data@.skip(i as int))->0);
            }
        }
    }
    assert(data@.skip(i as int) =~= Seq::<u8>::empty());
    assert(result@ + Seq::<u8>::empty() =~= result@);
    result
}

} // verus!
