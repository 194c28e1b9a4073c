//! Byte-sequence facts shared by the framing code: zero bytes delimit frames.

use vstd::prelude::*;

verus! {

/// No byte of `s` is zero.
pub open spec fn zero_free(s: Seq<u8>) -> bool {
    forall|i: int| 0 <= i < s.len() ==> s[i] != 0
}

/// The index of the first zero byte of `s`, or `s.len()` when `s` holds none.
pub open spec fn first_zero(s: Seq<u8>) -> nat
    decreases s.len(),
{
    if s.len() == 0 {
        0
    } else if s[0] == 0 {
        0
    } else {
        1 + first_zero(s.drop_first())
    }
}

/// `p` is where a scan for the first zero byte of `s` stops.
pub open spec fn is_first_zero(s: Seq<u8>, p: int) -> bool {
    &&& 0 <= p <= s.len()
    &&& zero_free(s.take(p))
    &&& p < s.len() ==> s[p] == 0
}

/// `first_zero` is the unique stopping point of the scan.
pub proof fn lemma_first_zero(s: Seq<u8>)
    ensures
        is_first_zero(s, first_zero(s) as int),
        forall|p: int| is_first_zero(s, p) ==> p == first_zero(s),
    decreases s.len(),
{
    if s.len() > 0 && s[0] != 0 {
        let t = s.drop_first();
        lemma_first_zero(t);
        let f = first_zero(t) as int;
        assert forall|i: int| 0 <= i < f + 1 implies #[trigger] s.take(f + 1)[i] != 0 by {
            if i > 0 {
                assert(s.take(f + 1)[i] == t.take(f)[i - 1]);
            }
        }
        assert forall|p: int| is_first_zero(s, p) implies p == first_zero(s) by {
            if p == 0 {
                assert(s[0] == 0);
            } else {
                assert forall|i: int| 0 <= i < p - 1 implies #[trigger] t.take(p - 1)[i] != 0 by {
                    assert(t.take(p - 1)[i] == s.take(p)[i + 1]);
                }
                assert(is_first_zero(t, p - 1));
            }
        }
    } else {
        assert forall|p: int| is_first_zero(s, p) implies p == first_zero(s) by {
            if p > 0 {
                assert(s.take(p)[0] == s[0]);
            }
        }
    }
}

/// A zero-free sequence followed by a zero: its first zero is the terminator.
pub proof fn lemma_first_zero_of_terminated(body: Seq<u8>)
    requires
        zero_free(body),
    ensures
        first_zero(body + seq![0u8]) == body.len(),
{
    let s = body + seq![0u8];
    assert(s.take(body.len() as int) == body);
    assert(s[body.len() as int] == 0);
    lemma_first_zero(s);
    assert(is_first_zero(s, body.len() as int));
}

/// Where the first zero of a concatenation lies.
pub proof fn lemma_first_zero_concat(a: Seq<u8>, b: Seq<u8>)
    ensures
        first_zero(a) < a.len() ==> first_zero(a + b) == first_zero(a),
        first_zero(a) >= a.len() ==> first_zero(a + b) == a.len() + first_zero(b),
{
    lemma_first_zero(a);
    lemma_first_zero(b);
    lemma_first_zero(a + b);
    let fa = first_zero(a) as int;
    let s = a + b;
    if fa < a.len() {
        assert(s.take(fa) == a.take(fa));
        assert(is_first_zero(s, fa));
    } else {
        let q: int = (a.len() + first_zero(b)) as int;
        assert forall|i: int| 0 <= i < q implies #[trigger] s.take(q)[i] != 0 by {
            if i < a.len() {
                assert(s.take(q)[i] == a.take(fa)[i]);
            } else {
                assert(s.take(q)[i] == b.take(first_zero(b) as int)[i - a.len()]);
            }
        }
        assert(is_first_zero(s, q));
    }
}

/// Scans `s` from `from` for a zero byte; returns its index, or `s.len()` when there is none.
pub fn find_zero(s: &[u8], from: usize) -> (pos: usize)
    requires
        from <= s@.len(),
    ensures
        pos == from + first_zero(s@.skip(from as int)),
        from <= pos <= s@.len(),
{
    let mut j = from;
    while j < s.len() && s[j] != 0
        invariant
            from <= j <= s@.len(),
            zero_free(s@.skip(from as int).take(j - from)),
        decreases s@.len() - j,
    {
        proof {
            let t = s@.skip(from as int);
            assert forall|i: int| 0 <= i < j + 1 - from implies #[trigger] t.take(j + 1 - from)[i] != 0 by {
                if i < j - from {
                    assert(t.take(j + 1 - from)[i] == t.take(j - from)[i]);
                }
            }
        }
        j = j + 1;
    }
    proof {
        let t = s@.skip(from as int);
        lemma_first_zero(t);
        assert(is_first_zero(t, j - from));
    }
    j
}

} // verus!
