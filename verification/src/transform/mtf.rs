//! Move-to-front coding: each byte becomes its position in a list of all 256 byte values,
//! and is then moved to the front of the list.
use vstd::prelude::*;

verus! {

/// The list every run starts from: 0, 1, ..., 255.
pub open spec fn initial_alphabet() -> Seq<u8> {
    Seq::new(256, |i: int| i as u8)
}

/// The list after the entry at `p` moves to the front.
pub open spec fn move_to_front(a: Seq<u8>, p: int) -> Seq<u8> {
    seq![a[p]] + a.remove(p)
}

/// Position of the first `b` in `a` (`a.len()` when absent).
pub open spec fn position(a: Seq<u8>, b: u8) -> int
    decreases a.len(),
{
    if a.len() == 0 {
        0
    } else if a[0] == b {
        0
    } else {
        1 + position(a.skip(1), b)
    }
}

/// A list of length 256 holding every byte value.
pub open spec fn is_alphabet(a: Seq<u8>) -> bool {
    a.len() == 256 && forall|b: u8| #[trigger] a.contains(b)
}

/// The encoding of `d` starting from list `a`.
pub open spec fn mtf_encoded_from(a: Seq<u8>, d: Seq<u8>) -> Seq<u8>
    decreases d.len(),
{
    if d.len() == 0 {
        Seq::empty()
    } else {
        let p = position(a, d[0]);
        seq![p as u8] + mtf_encoded_from(move_to_front(a, p), d.skip(1))
    }
}

/// The decoding of `s` starting from list `a`.
pub open spec fn mtf_decoded_from(a: Seq<u8>, s: Seq<u8>) -> Seq<u8>
    decreases s.len(),
{
    if s.len() == 0 {
        Seq::empty()
    } else {
        let p = s[0] as int;
        seq![a[p]] + mtf_decoded_from(move_to_front(a, p), s.skip(1))
    }
}

/// The encoding of `d`.
pub open spec fn mtf_encoded(d: Seq<u8>) -> Seq<u8> {
    mtf_encoded_from(initial_alphabet(), d)
}

/// The decoding of `s`.
pub open spec fn mtf_decoded(s: Seq<u8>) -> Seq<u8> {
    mtf_decoded_from(initial_alphabet(), s)
}

proof fn lemma_position(a: Seq<u8>, b: u8)
    ensures
        0 <= position(a, b) <= a.len(),
        forall|k: int| 0 <= k < position(a, b) ==> a[k] != b,
        position(a, b) < a.len() ==> a[position(a, b)] == b,
        a.contains(b) ==> position(a, b) < a.len(),
    decreases a.len(),
{
    if a.len() > 0 && a[0] != b {
        lemma_position(a.skip(1), b);
        assert forall|k: int| 0 <= k < position(a, b) implies a[k] != b by {
            if k > 0 {
                assert(a[k] == a.skip(1)[k - 1]);
            }
        }
        if position(a, b) < a.len() {
            assert(a[position(a, b)] == a.skip(1)[position(a.skip(1), b)]);
        }
        if a.contains(b) {
            let w = choose|w: int| 0 <= w < a.len() && a[w] == b;
            assert(a.skip(1)[w - 1] == b);
            assert(a.skip(1).contains(b));
        }
    }
}

proof fn lemma_move_keeps_alphabet(a: Seq<u8>, p: int)
    requires
        is_alphabet(a),
        0 <= p < 256,
    ensures
        is_alphabet(move_to_front(a, p)),
{
    let m = move_to_front(a, p);
    assert forall|b: u8| #[trigger] m.contains(b) by {
        assert(a.contains(b));
        let w = choose|w: int| 0 <= w < a.len() && a[w] == b;
        if w == p {
            assert(m[0] == b);
        } else if w < p {
            assert(m[w + 1] == b);
        } else {
            assert(m[w] == b);
        }
    }
}

proof fn lemma_initial_alphabet()
    ensures
        is_alphabet(initial_alphabet()),
{
    let a = initial_alphabet();
    assert forall|b: u8| #[trigger] a.contains(b) by {
        assert(a[b as int] == b);
    }
}

proof fn lemma_mtf_roundtrip_from(a: Seq<u8>, d: Seq<u8>)
    requires
        is_alphabet(a),
    ensures
        mtf_decoded_from(a, mtf_encoded_from(a, d)) == d,
    decreases d.len(),
{
    if d.len() > 0 {
        let p = position(a, d[0]);
        lemma_position(a, d[0]);
        lemma_move_keeps_alphabet(a, p);
        lemma_mtf_roundtrip_from(move_to_front(a, p), d.skip(1));
        let e = mtf_encoded_from(a, d);
        assert(e[0] == p as u8);
        assert(e.skip(1) =~= mtf_encoded_from(move_to_front(a, p), d.skip(1)));
        assert(seq![d[0]] + d.skip(1) =~= d);
    }
}

/// Decoding an encoding gives back the input.
pub proof fn lemma_mtf_roundtrip(d: Seq<u8>)
    ensures
        mtf_decoded(mtf_encoded(d)) == d,
{
    lemma_initial_alphabet();
    lemma_mtf_roundtrip_from(initial_alphabet(), d);
}

/// No byte value occurs twice in `a`.
pub open spec fn distinct(a: Seq<u8>) -> bool {
    forall|i: int, j: int| 0 <= i < j < a.len() ==> a[i] != a[j]
}

proof fn lemma_move_keeps_distinct(a: Seq<u8>, p: int)
    requires
        distinct(a),
        0 <= p < a.len(),
    ensures
        distinct(move_to_front(a, p)),
        move_to_front(a, p).len() == a.len(),
{
    let m = move_to_front(a, p);
    assert forall|i: int, j: int| 0 <= i < j < m.len() implies m[i] != m[j] by {
        let oi = if i == 0 { p } else if i - 1 < p { i - 1 } else { i };
        let oj = if j - 1 < p { j - 1 } else { j };
        assert(m[i] == a[oi]);
        assert(m[j] == a[oj]);
        assert(oi != oj);
        if oi < oj {
            assert(a[oi] != a[oj]);
        } else {
            assert(a[oj] != a[oi]);
        }
    }
}

proof fn lemma_mtf_encode_decoded_from(a: Seq<u8>, s: Seq<u8>)
    requires
        is_alphabet(a),
        distinct(a),
    ensures
        mtf_encoded_from(a, mtf_decoded_from(a, s)) == s,
    decreases s.len(),
{
    if s.len() > 0 {
        let p = s[0] as int;
        let b = a[p];
        lemma_position(a, b);
        assert(a.contains(b));
        let q = position(a, b);
        assert(q == p) by {
            if q < p {
                assert(a[q] != a[p]);
            } else if q > p {
                assert(a[p] != a[q]);
            }
        }
        lemma_move_keeps_alphabet(a, p);
        lemma_move_keeps_distinct(a, p);
        lemma_mtf_encode_decoded_from(move_to_front(a, p), s.skip(1));
        let d = mtf_decoded_from(a, s);
        assert(d[0] == b);
        assert(d.skip(1) =~= mtf_decoded_from(move_to_front(a, p), s.skip(1)));
        assert(seq![s[0]] + s.skip(1) =~= s);
    }
}

/// Encoding a decoding gives back the input: move-to-front is a bijection on byte strings.
pub proof fn lemma_mtf_decode_roundtrip(s: Seq<u8>)
    ensures
        mtf_encoded(mtf_decoded(s)) == s,
{
    lemma_initial_alphabet();
    let a = initial_alphabet();
    assert(distinct(a));
    lemma_mtf_encode_decoded_from(a, s);
}

fn new_alphabet() -> (r: Vec<u8>)
    ensures
        r@ == initial_alphabet(),
{
    let mut a: Vec<u8> = Vec::new();
    let mut i: usize = 0;
    while i < 256
        invariant
            i <= 256,
            a@ == initial_alphabet().subrange(0, i as int),
        decreases 256 - i,
    {
        a.push(i as u8);
        i = i + 1;
        assert(a@ =~= initial_alphabet().subrange(0, i as int));
    }
    a
}

fn bring_to_front(a: &mut Vec<u8>, p: usize)
    requires
        p < old(a)@.len(),
    ensures
        final(a)@ == move_to_front(old(a)@, p as int),
{
    if p > 0 {
        let v = a.remove(p);
        a.insert(0, v);
        assert(a@ =~= move_to_front(old(a)@, p as int));
    } else {
        assert(old(a)@ =~= move_to_front(old(a)@, 0));
    }
}

/// Move-to-front encodes `data`.
pub fn encode(data: &[u8]) -> (r: Vec<u8>)
    ensures
        r@ == mtf_encoded(data@),
{
    let mut alphabet = new_alphabet();
    proof { lemma_initial_alphabet(); }
    let mut result: Vec<u8> = Vec::new();
    let mut i: usize = 0;
    assert(data@.skip(0) =~= data@);
    while i < data.len()
        invariant
            i <= data.len(),
            is_alphabet(alphabet@),
            result@ + mtf_encoded_from(alphabet@, data@.skip(i as int)) == mtf_encoded(data@),
        decreases data.len() - i,
    {
        let ghost s = data@.skip(i as int);
        let byte = data[i];
        proof { lemma_position(alphabet@, byte); }
        let mut pos: usize = 0;
        while alphabet[pos] != byte
            invariant
                is_alphabet(alphabet@),
                pos <= position(alphabet@, byte) < 256,
                position(alphabet@, byte) < alphabet@.len() ==> alphabet@[position(alphabet@, byte)] == byte,
                forall|k: int| 0 <= k < position(alphabet@, byte) ==> alphabet@[k] != byte,
            decreases 256 - pos,
        {
            pos = pos + 1;
        }
        assert(pos == position(alphabet@, byte));
        let ghost before = alphabet@;
        result.push(pos as u8);
        bring_to_front(&mut alphabet, pos);
        proof { lemma_move_keeps_alphabet(before, pos as int); }
        i = i + 1;
        assert(s.skip(1) =~= data@.skip(i as int));
        assert(s[0] == byte);
        assert(result@ + mtf_encoded_from(alphabet@, data@.skip(i as int)) =~= mtf_encoded(data@));
    }
    assert(data@.skip(i as int) =~= Seq::<u8>::empty());
    assert(result@ + Seq::<u8>::empty() =~= result@);
    result
}

/// Reverses [`encode`].
pub fn decode(data: &[u8]) -> (r: Vec<u8>)
    ensures
        r@ == mtf_decoded(data@),
{
    let mut alphabet = new_alphabet();
    proof { lemma_initial_alphabet(); }
    let mut result: Vec<u8> = Vec::new();
    let mut i: usize = 0;
    assert(data@.skip(0) =~= data@);
    while i < data.len()
        invariant
            i <= data.len(),
            is_alphabet(alphabet@),
            result@ + mtf_decoded_from(alphabet@, data@.skip(i as int)) == mtf_decoded(data@),
        decreases data.len() - i,
    {
        let ghost s = data@.skip(i as int);
        let pos = data[i] as usize;
        let byte = alphabet[pos];
        let ghost before = alphabet@;
        result.push(byte);
        bring_to_front(&mut alphabet, pos);
        proof { lemma_move_keeps_alphabet(before, pos as int); }
        i = i + 1;
        assert(s.skip(1) =~= data@.skip(i as int));
        assert(s[0] == pos as u8);
        assert(result@ + mtf_decoded_from(alphabet@, data@.skip(i as int)) =~= mtf_decoded(data@));
    }
    assert(data@.skip(i as int) =~= Seq::<u8>::empty());
    assert(result@ + Seq::<u8>::empty() =~= result@);
    result
}

} // verus!
