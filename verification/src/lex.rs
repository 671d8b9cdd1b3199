//! The order of texts by their UTF-8 bytes, which is the order of `str`.

use vstd::prelude::*;
use vstd::utf8::*;

verus! {

/// How one text stands to another in the byte order.
#[derive(Debug, Clone, Copy, PartialEq, Eq, Structural)]
pub enum Rank {
    Before,
    Same,
    After,
}

/// `a` comes strictly before `b`, comparing byte by byte from `from` on; a
/// proper prefix comes before the longer sequence.
pub open spec fn bytes_lt_from(a: Seq<u8>, b: Seq<u8>, from: int) -> bool
    decreases a.len() - from,
{
    if from >= b.len() {
        false
    } else if from >= a.len() {
        true
    } else if a[from] != b[from] {
        a[from] < b[from]
    } else {
        bytes_lt_from(a, b, from + 1)
    }
}

/// `a` comes strictly before `b` in the byte order of their UTF-8 forms.
pub open spec fn text_lt(a: Seq<char>, b: Seq<char>) -> bool {
    bytes_lt_from(encode_utf8(a), encode_utf8(b), 0)
}

proof fn lemma_bytes_irreflexive(a: Seq<u8>, from: int)
    requires
        0 <= from,
    ensures
        !bytes_lt_from(a, a, from),
    decreases a.len() - from,
{
    if from < a.len() {
        lemma_bytes_irreflexive(a, from + 1);
    }
}

proof fn lemma_bytes_transitive(a: Seq<u8>, b: Seq<u8>, c: Seq<u8>, from: int)
    requires
        0 <= from,
        bytes_lt_from(a, b, from),
        bytes_lt_from(b, c, from),
    ensures
        bytes_lt_from(a, c, from),
    decreases a.len() - from,
{
    if from < a.len() && from < b.len() && from < c.len() {
        if a[from] == b[from] && b[from] == c[from] {
            lemma_bytes_transitive(a, b, c, from + 1);
        }
    }
}

proof fn lemma_bytes_total(a: Seq<u8>, b: Seq<u8>, from: int)
    requires
        0 <= from <= a.len(),
        from <= b.len(),
        a.take(from) == b.take(from),
        !bytes_lt_from(a, b, from),
        !bytes_lt_from(b, a, from),
    ensures
        a == b,
    decreases a.len() - from,
{
    if from < a.len() && from < b.len() {
        assert(a.take(from + 1) =~= a.take(from).push(a[from]));
        assert(b.take(from + 1) =~= b.take(from).push(b[from]));
        lemma_bytes_total(a, b, from + 1);
    } else {
        assert(a.take(from) =~= a);
        assert(b.take(from) =~= b);
    }
}

/// No text comes before itself.
pub proof fn lemma_text_lt_irreflexive(a: Seq<char>)
    ensures
        !text_lt(a, a),
{
    lemma_bytes_irreflexive(encode_utf8(a), 0);
}

/// The order of texts is transitive.
pub proof fn lemma_text_lt_transitive(a: Seq<char>, b: Seq<char>, c: Seq<char>)
    requires
        text_lt(a, b),
        text_lt(b, c),
    ensures
        text_lt(a, c),
{
    lemma_bytes_transitive(encode_utf8(a), encode_utf8(b), encode_utf8(c), 0);
}

/// Of two different texts one comes before the other.
pub proof fn lemma_text_lt_total(a: Seq<char>, b: Seq<char>)
    requires
        !text_lt(a, b),
        !text_lt(b, a),
    ensures
        a == b,
{
    let x = encode_utf8(a);
    let y = encode_utf8(b);
    assert(x.take(0) =~= y.take(0));
    lemma_bytes_total(x, y, 0);
    encode_utf8_decode_utf8(a);
    encode_utf8_decode_utf8(b);
}

/// Compares two texts in the byte order.
pub fn rank(a: &str, b: &str) -> (r: Rank)
    ensures
        r == Rank::Before <==> text_lt(a@, b@),
        r == Rank::Same <==> a@ == b@,
        r == Rank::After <==> text_lt(b@, a@),
{
    let x = a.as_bytes();
    let y = b.as_bytes();
    let ghost xs = encode_utf8(a@);
    let ghost ys = encode_utf8(b@);
    let mut i: usize = 0;
    let mut r = Rank::Same;
    let mut done = false;
    while !done
        invariant
            x@ == xs,
            y@ == ys,
            i <= x@.len(),
            i <= y@.len(),
            xs.take(i as int) == ys.take(i as int),
            !done ==> bytes_lt_from(xs, ys, 0) == bytes_lt_from(xs, ys, i as int),
            !done ==> bytes_lt_from(ys, xs, 0) == bytes_lt_from(ys, xs, i as int),
            done ==> (r == Rank::Before <==> bytes_lt_from(xs, ys, 0)),
            done ==> (r == Rank::After <==> bytes_lt_from(ys, xs, 0)),
            done ==> (r == Rank::Same <==> xs == ys),
        decreases x@.len() - i + (if done { 0int } else { 1int }),
    {
        if i == x.len() && i == y.len() {
            r = Rank::Same;
            done = true;
            proof {
                assert(xs.take(i as int) =~= xs);
                assert(ys.take(i as int) =~= ys);
            }
        } else if i == x.len() {
            r = Rank::Before;
            done = true;
            proof {
                assert(xs.len() != ys.len());
            }
        } else if i == y.len() {
            r = Rank::After;
            done = true;
            proof {
                assert(xs.len() != ys.len());
            }
        } else if x[i] < y[i] {
            r = Rank::Before;
            done = true;
            proof {
                assert(xs[i as int] != ys[i as int]);
            }
        } else if x[i] > y[i] {
            r = Rank::After;
            done = true;
            proof {
                assert(xs[i as int] != ys[i as int]);
            }
        } else {
            proof {
                assert(xs.take(i + 1) =~= xs.take(i as int).push(xs[i as int]));
                assert(ys.take(i + 1) =~= ys.take(i as int).push(ys[i as int]));
            }
            i = i + 1;
        }
    }
    proof {
        encode_utf8_decode_utf8(a@);
        encode_utf8_decode_utf8(b@);
        lemma_bytes_irreflexive(xs, 0);
    }
    r
}

} // verus!
