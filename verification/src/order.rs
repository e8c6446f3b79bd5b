//! Lexicographic order on byte sequences.
//!
//! Keys compare lexicographically by byte value once fully decoded. The
//! three-valued comparison is the ground truth that both the page range
//! bounds and the prefix codec's order-preservation argument build on.

use vstd::prelude::*;

verus! {

/// Three-valued lexicographic comparison: -1 if `a` sorts before `b`,
/// 0 if they are equal, 1 if `a` sorts after `b`.
pub open spec fn lex_cmp(a: Seq<u8>, b: Seq<u8>) -> int
    decreases a.len(),
{
    if a.len() == 0 && b.len() == 0 {
        0
    } else if a.len() == 0 {
        -1
    } else if b.len() == 0 {
        1
    } else if a[0] < b[0] {
        -1
    } else if a[0] > b[0] {
        1
    } else {
        lex_cmp(a.skip(1), b.skip(1))
    }
}

pub open spec fn lex_lt(a: Seq<u8>, b: Seq<u8>) -> bool {
    lex_cmp(a, b) < 0
}

pub open spec fn lex_leq(a: Seq<u8>, b: Seq<u8>) -> bool {
    lex_cmp(a, b) <= 0
}

pub proof fn lemma_lex_cmp_range(a: Seq<u8>, b: Seq<u8>)
    ensures
        -1 <= lex_cmp(a, b) <= 1,
    decreases a.len(),
{
    if a.len() > 0 && b.len() > 0 && a[0] == b[0] {
        lemma_lex_cmp_range(a.skip(1), b.skip(1));
    }
}

/// The comparison returns 0 exactly on equal sequences.
pub proof fn lemma_lex_cmp_eq(a: Seq<u8>, b: Seq<u8>)
    ensures
        lex_cmp(a, b) == 0 <==> a == b,
    decreases a.len(),
{
    if a.len() == 0 && b.len() == 0 {
        assert(a =~= b);
    } else if a.len() > 0 && b.len() > 0 && a[0] == b[0] {
        lemma_lex_cmp_eq(a.skip(1), b.skip(1));
        if lex_cmp(a, b) == 0 {
            assert(a =~= seq![a[0]] + a.skip(1));
            assert(b =~= seq![b[0]] + b.skip(1));
        }
        if a == b {
            assert(a.skip(1) == b.skip(1));
        }
    } else {
        if a == b {
            assert(a.len() == b.len());
        }
    }
}

/// Swapping the arguments negates the result.
pub proof fn lemma_lex_cmp_antisym(a: Seq<u8>, b: Seq<u8>)
    ensures
        lex_cmp(a, b) == -lex_cmp(b, a),
    decreases a.len(),
{
    if a.len() > 0 && b.len() > 0 && a[0] == b[0] {
        lemma_lex_cmp_antisym(a.skip(1), b.skip(1));
    }
}

/// Transitivity, in the form needed to chain strict and non-strict steps.
pub proof fn lemma_lex_cmp_trans(a: Seq<u8>, b: Seq<u8>, c: Seq<u8>)
    requires
        lex_cmp(a, b) <= 0,
        lex_cmp(b, c) <= 0,
    ensures
        lex_cmp(a, c) <= 0,
        lex_cmp(a, b) < 0 || lex_cmp(b, c) < 0 ==> lex_cmp(a, c) < 0,
    decreases a.len(),
{
    if a.len() == 0 {
        if c.len() == 0 {
            // b must be empty too, so both hypotheses were equalities.
            assert(b.len() == 0);
        }
    } else {
        // a nonempty; the hypotheses force b and c nonempty.
        assert(b.len() > 0);
        assert(c.len() > 0);
        if a[0] == b[0] && b[0] == c[0] {
            lemma_lex_cmp_trans(a.skip(1), b.skip(1), c.skip(1));
        } else {
            assert(a[0] <= b[0]);
            assert(b[0] <= c[0]);
        }
    }
}

/// Dropping an equal prefix of length `l` does not change the comparison.
pub proof fn lemma_lex_cmp_common_prefix(a: Seq<u8>, b: Seq<u8>, l: int)
    requires
        0 <= l <= a.len(),
        l <= b.len(),
        a.subrange(0, l) == b.subrange(0, l),
    ensures
        lex_cmp(a, b) == lex_cmp(a.skip(l), b.skip(l)),
    decreases l,
{
    if l > 0 {
        assert(a[0] == b[0]) by {
            assert(a.subrange(0, l)[0] == a[0]);
            assert(b.subrange(0, l)[0] == b[0]);
        }
        assert(a.skip(1).subrange(0, l - 1) =~= b.skip(1).subrange(0, l - 1)) by {
            assert forall|i: int| 0 <= i < l - 1 implies #[trigger] a.skip(1).subrange(0, l - 1)[i]
                == b.skip(1).subrange(0, l - 1)[i] by {
                assert(a.skip(1).subrange(0, l - 1)[i] == a.skip(1)[i]);
                assert(a.skip(1)[i] == a[i + 1]);
                assert(b.skip(1).subrange(0, l - 1)[i] == b.skip(1)[i]);
                assert(b.skip(1)[i] == b[i + 1]);
                assert(a.subrange(0, l)[i + 1] == b.subrange(0, l)[i + 1]);
                assert(a.subrange(0, l)[i + 1] == a[i + 1]);
                assert(b.subrange(0, l)[i + 1] == b[i + 1]);
            }
        }
        lemma_lex_cmp_common_prefix(a.skip(1), b.skip(1), l - 1);
        assert(a.skip(1).skip(l - 1) =~= a.skip(l));
        assert(b.skip(1).skip(l - 1) =~= b.skip(l));
        assert(lex_cmp(a, b) == lex_cmp(a.skip(1), b.skip(1)));
        assert(lex_cmp(a.skip(1), b.skip(1)) == lex_cmp(a.skip(1).skip(l - 1), b.skip(1).skip(l - 1)));
    } else {
        assert(a.skip(0) =~= a);
        assert(b.skip(0) =~= b);
    }
}

/// Sequences that agree up to `l` and differ at `l` compare by that byte.
pub proof fn lemma_lex_cmp_diff_at(a: Seq<u8>, b: Seq<u8>, l: int)
    requires
        0 <= l < a.len(),
        l < b.len(),
        a.subrange(0, l) == b.subrange(0, l),
        a[l] < b[l],
    ensures
        lex_cmp(a, b) == -1,
{
    lemma_lex_cmp_common_prefix(a, b, l);
    assert(a.skip(l)[0] == a[l]);
    assert(b.skip(l)[0] == b[l]);
}

/// A strict prefix sorts strictly before the longer sequence.
pub proof fn lemma_lex_cmp_strict_prefix(a: Seq<u8>, b: Seq<u8>)
    requires
        a.len() < b.len(),
        a == b.subrange(0, a.len() as int),
    ensures
        lex_cmp(a, b) == -1,
{
    let l = a.len() as int;
    assert(a.subrange(0, l) =~= b.subrange(0, l)) by {
        assert(a.subrange(0, l) =~= a);
    }
    lemma_lex_cmp_common_prefix(a, b, l);
    assert(a.skip(l).len() == 0);
    assert(b.skip(l).len() > 0);
}

/// Executable three-valued lexicographic comparison over byte slices.
pub fn bytes_cmp(a: &[u8], b: &[u8]) -> (r: i32)
    ensures
        r as int == lex_cmp(a@, b@),
{
    let mut i: usize = 0;
    loop
        invariant
            i <= a.len(),
            i <= b.len(),
            a@.subrange(0, i as int) =~= b@.subrange(0, i as int),
        decreases a@.len() - i,
    {
        proof {
            lemma_lex_cmp_common_prefix(a@, b@, i as int);
        }
        if i == a.len() && i == b.len() {
            return 0;
        }
        if i == a.len() {
            return -1;
        }
        if i == b.len() {
            return 1;
        }
        let x = a[i];
        let y = b[i];
        if x < y {
            proof {
                assert(a@.skip(i as int)[0] == a@[i as int]);
                assert(b@.skip(i as int)[0] == b@[i as int]);
            }
            return -1;
        }
        if x > y {
            proof {
                assert(a@.skip(i as int)[0] == a@[i as int]);
                assert(b@.skip(i as int)[0] == b@[i as int]);
            }
            return 1;
        }
        proof {
            assert(a@.subrange(0, i + 1 as int) =~= b@.subrange(0, i + 1 as int)) by {
                assert forall|j: int| 0 <= j < i + 1 implies #[trigger] a@.subrange(0, i + 1)[j]
                    == b@.subrange(0, i + 1)[j] by {
                    if j < i {
                        assert(a@.subrange(0, i as int)[j] == b@.subrange(0, i as int)[j]);
                    }
                }
            }
        }
        i = i + 1;
    }
}

} // verus!
