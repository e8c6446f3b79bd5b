//! Prefix codec for keys stored relative to a page's low boundary.
//!
//! A key kept inside a page is stored as a one-byte shared-prefix length
//! followed by the suffix beyond that prefix of the page's low-boundary key.
//! Encoded keys that share one boundary can be compared directly with
//! [`prefix_cmp`], without decoding: a longer shared prefix means a smaller
//! key among keys at or above the boundary, so the comparison looks at the
//! length byte first (reversed) and the suffix bytes second.

use vstd::prelude::*;

use crate::order::{
    bytes_cmp, lemma_lex_cmp_antisym, lemma_lex_cmp_common_prefix, lemma_lex_cmp_diff_at,
    lemma_lex_cmp_eq, lemma_lex_cmp_strict_prefix, lemma_lex_cmp_trans, lex_cmp, lex_leq,
};

verus! {

/// Length of the longest common prefix of two byte sequences.
pub open spec fn lcp(p: Seq<u8>, k: Seq<u8>) -> int
    decreases p.len(),
{
    if p.len() == 0 || k.len() == 0 || p[0] != k[0] {
        0
    } else {
        1 + lcp(p.skip(1), k.skip(1))
    }
}

/// The shared-prefix length actually stored: the length byte caps it at 255.
pub open spec fn capped_lcp(p: Seq<u8>, k: Seq<u8>) -> int {
    if lcp(p, k) > 255 {
        255
    } else {
        lcp(p, k)
    }
}

/// What encoding the full key `k` against the boundary `p` produces.
pub open spec fn encode_spec(p: Seq<u8>, k: Seq<u8>) -> Seq<u8> {
    seq![capped_lcp(p, k) as u8] + k.skip(capped_lcp(p, k))
}

/// What decoding the encoded key `e` against the boundary `p` produces.
pub open spec fn decode_spec(p: Seq<u8>, e: Seq<u8>) -> Seq<u8>
    recommends
        encoded_wf(e, p),
{
    p.subrange(0, e[0] as int) + e.skip(1)
}

/// An encoded key that can be decoded against boundary `p` at all: it has a
/// length byte, and that byte does not reach beyond the boundary.
pub open spec fn encoded_wf(e: Seq<u8>, p: Seq<u8>) -> bool {
    e.len() >= 1 && e[0] <= p.len()
}

/// An encoded key that actually is the encoding against `p` of some full key
/// at or above `p`. Only such keys may share a page: the direct comparison
/// below agrees with the decoded order on exactly this set.
pub open spec fn properly_encoded(e: Seq<u8>, p: Seq<u8>) -> bool {
    &&& encoded_wf(e, p)
    &&& lex_leq(p, decode_spec(p, e))
    &&& e == encode_spec(p, decode_spec(p, e))
}

/// Three-valued comparison of two encoded keys sharing one boundary,
/// without decoding: -1 if `a` sorts before `b`, 0 on equality, 1 after.
pub open spec fn pcmp(a: Seq<u8>, b: Seq<u8>) -> int {
    if a.len() == 0 && b.len() == 0 {
        0
    } else if a.len() == 0 {
        -1
    } else if b.len() == 0 {
        1
    } else if a[0] > b[0] {
        -1
    } else if a[0] < b[0] {
        1
    } else {
        lex_cmp(a.skip(1), b.skip(1))
    }
}

pub proof fn lemma_lcp_bounds(p: Seq<u8>, k: Seq<u8>)
    ensures
        0 <= lcp(p, k) <= p.len(),
        lcp(p, k) <= k.len(),
        p.subrange(0, lcp(p, k)) == k.subrange(0, lcp(p, k)),
        lcp(p, k) < p.len() && lcp(p, k) < k.len() ==> p[lcp(p, k)] != k[lcp(p, k)],
    decreases p.len(),
{
    if p.len() == 0 || k.len() == 0 || p[0] != k[0] {
        assert(p.subrange(0, 0) =~= k.subrange(0, 0));
    } else {
        lemma_lcp_bounds(p.skip(1), k.skip(1));
        let l = lcp(p, k);
        assert(p.subrange(0, l) =~= k.subrange(0, l)) by {
            assert forall|i: int| 0 <= i < l implies #[trigger] p.subrange(0, l)[i]
                == k.subrange(0, l)[i] by {
                if i > 0 {
                    assert(p.skip(1).subrange(0, l - 1)[i - 1] == k.skip(1).subrange(0, l - 1)[i
                        - 1]);
                    assert(p.skip(1).subrange(0, l - 1)[i - 1] == p[i]);
                    assert(k.skip(1).subrange(0, l - 1)[i - 1] == k[i]);
                }
            }
        }
        if l < p.len() && l < k.len() {
            assert(p.skip(1)[l - 1] == p[l]);
            assert(k.skip(1)[l - 1] == k[l]);
        }
    }
}

/// Any agreement of length `l` is within the longest common prefix.
pub proof fn lemma_lcp_at_least(p: Seq<u8>, k: Seq<u8>, l: int)
    requires
        0 <= l <= p.len(),
        l <= k.len(),
        p.subrange(0, l) == k.subrange(0, l),
    ensures
        lcp(p, k) >= l,
    decreases l,
{
    if l > 0 {
        assert(p[0] == k[0]) by {
            assert(p.subrange(0, l)[0] == p[0]);
            assert(k.subrange(0, l)[0] == k[0]);
        }
        assert(p.skip(1).subrange(0, l - 1) =~= k.skip(1).subrange(0, l - 1)) by {
            assert forall|i: int| 0 <= i < l - 1 implies #[trigger] p.skip(1).subrange(0, l - 1)[i]
                == k.skip(1).subrange(0, l - 1)[i] by {
                assert(p.skip(1).subrange(0, l - 1)[i] == p[i + 1]);
                assert(k.skip(1).subrange(0, l - 1)[i] == k[i + 1]);
                assert(p.subrange(0, l)[i + 1] == k.subrange(0, l)[i + 1]);
                assert(p.subrange(0, l)[i + 1] == p[i + 1]);
                assert(k.subrange(0, l)[i + 1] == k[i + 1]);
            }
        }
        lemma_lcp_at_least(p.skip(1), k.skip(1), l - 1);
        assert(lcp(p, k) == 1 + lcp(p.skip(1), k.skip(1)));
    } else {
        lemma_lcp_bounds(p, k);
    }
}

/// Decoding inverts encoding, for every boundary and every full key.
pub proof fn lemma_decode_encode(p: Seq<u8>, k: Seq<u8>)
    ensures
        decode_spec(p, encode_spec(p, k)) == k,
{
    lemma_lcp_bounds(p, k);
    let c = capped_lcp(p, k);
    let e = encode_spec(p, k);
    assert(e[0] == c as u8);
    assert(e[0] as int == c);
    assert(e.skip(1) =~= k.skip(c));
    assert(p.subrange(0, c) =~= k.subrange(0, c)) by {
        assert forall|i: int| 0 <= i < c implies #[trigger] p.subrange(0, c)[i]
            == k.subrange(0, c)[i] by {
            let l = lcp(p, k);
            assert(p.subrange(0, l)[i] == k.subrange(0, l)[i]);
            assert(p.subrange(0, l)[i] == p[i]);
            assert(k.subrange(0, l)[i] == k[i]);
        }
    }
    assert(decode_spec(p, e) =~= k);
}

/// An encoding is always decodable, and is properly encoded whenever the
/// full key lies at or above the boundary.
pub proof fn lemma_encode_properly(p: Seq<u8>, k: Seq<u8>)
    requires
        lex_leq(p, k),
    ensures
        properly_encoded(encode_spec(p, k), p),
        decode_spec(p, encode_spec(p, k)) == k,
{
    lemma_lcp_bounds(p, k);
    lemma_decode_encode(p, k);
}

/// Helper for the order-preservation proof: the strict case where `a`
/// keeps a longer shared prefix than `b`.
proof fn lemma_pcmp_longer_prefix(p: Seq<u8>, a: Seq<u8>, b: Seq<u8>)
    requires
        lex_leq(p, a),
        lex_leq(p, b),
        capped_lcp(p, a) > capped_lcp(p, b),
    ensures
        lex_cmp(a, b) == -1,
{
    lemma_lcp_bounds(p, a);
    lemma_lcp_bounds(p, b);
    let la = capped_lcp(p, a);
    let lb = capped_lcp(p, b);
    // lb is below the cap, so it is the true common-prefix length with p.
    assert(lb == lcp(p, b));
    // b cannot be exhausted at lb.
    if lcp(p, b) == b.len() {
        // b is a prefix of p.
        assert(b =~= p.subrange(0, b.len() as int)) by {
            assert forall|i: int| 0 <= i < b.len() implies b[i] == #[trigger] p.subrange(
                0,
                b.len() as int,
            )[i] by {
                assert(p.subrange(0, lcp(p, b))[i] == b.subrange(0, lcp(p, b))[i]);
                assert(p.subrange(0, lcp(p, b))[i] == p[i]);
                assert(b.subrange(0, lcp(p, b))[i] == b[i]);
            }
        }
        if b.len() < p.len() {
            lemma_lex_cmp_strict_prefix(b, p);
            lemma_lex_cmp_antisym(p, b);
            assert(false);
        } else {
            // b == p, so every shared prefix with p is at most lb.
            assert(b =~= p);
            assert(lcp(p, a) <= p.len());
            assert(false);
        }
    }
    // p cannot be exhausted at lb either, else lcp(p, a) <= lb.
    assert(lcp(p, b) < p.len());
    // So p and b differ at lb, and p sorts at or before b: p[lb] < b[lb].
    assert(p[lb] != b[lb]);
    assert(p.subrange(0, lb) == b.subrange(0, lb));
    lemma_lex_cmp_common_prefix(p, b, lb);
    assert(p.skip(lb)[0] == p[lb]);
    assert(b.skip(lb)[0] == b[lb]);
    assert(p[lb] < b[lb]) by {
        if p[lb] > b[lb] {
            assert(lex_cmp(p.skip(lb), b.skip(lb)) == 1);
        }
    }
    // a agrees with p beyond lb, so a agrees with b up to lb and is smaller at lb.
    assert(lb < lcp(p, a));
    assert(a.subrange(0, lb) =~= b.subrange(0, lb)) by {
        assert forall|i: int| 0 <= i < lb implies #[trigger] a.subrange(0, lb)[i]
            == b.subrange(0, lb)[i] by {
            assert(p.subrange(0, lcp(p, a))[i] == a.subrange(0, lcp(p, a))[i]);
            assert(p.subrange(0, lcp(p, a))[i] == p[i]);
            assert(a.subrange(0, lcp(p, a))[i] == a[i]);
            assert(p.subrange(0, lb)[i] == b.subrange(0, lb)[i]);
            assert(p.subrange(0, lb)[i] == p[i]);
            assert(b.subrange(0, lb)[i] == b[i]);
        }
    }
    assert(a[lb] == p[lb]) by {
        assert(p.subrange(0, lcp(p, a))[lb] == a.subrange(0, lcp(p, a))[lb]);
        assert(p.subrange(0, lcp(p, a))[lb] == p[lb]);
        assert(a.subrange(0, lcp(p, a))[lb] == a[lb]);
    }
    lemma_lex_cmp_diff_at(a, b, lb);
}

/// Order preservation: for keys at or above the shared boundary, comparing
/// the encodings directly gives exactly the order of the full keys.
pub proof fn lemma_prefix_cmp_encodes_order(p: Seq<u8>, a: Seq<u8>, b: Seq<u8>)
    requires
        lex_leq(p, a),
        lex_leq(p, b),
    ensures
        pcmp(encode_spec(p, a), encode_spec(p, b)) == lex_cmp(a, b),
{
    lemma_lcp_bounds(p, a);
    lemma_lcp_bounds(p, b);
    let la = capped_lcp(p, a);
    let lb = capped_lcp(p, b);
    let ea = encode_spec(p, a);
    let eb = encode_spec(p, b);
    assert(ea[0] as int == la);
    assert(eb[0] as int == lb);
    assert(ea.skip(1) =~= a.skip(la));
    assert(eb.skip(1) =~= b.skip(lb));
    if la == lb {
        // Equal length bytes: the comparison reads the suffixes, and the
        // full keys agree up to la, since both agree with p there.
        assert(a.subrange(0, la) =~= b.subrange(0, la)) by {
            assert forall|i: int| 0 <= i < la implies #[trigger] a.subrange(0, la)[i]
                == b.subrange(0, la)[i] by {
                assert(p.subrange(0, lcp(p, a))[i] == a.subrange(0, lcp(p, a))[i]);
                assert(p.subrange(0, lcp(p, a))[i] == p[i]);
                assert(a.subrange(0, lcp(p, a))[i] == a[i]);
                assert(p.subrange(0, lcp(p, b))[i] == b.subrange(0, lcp(p, b))[i]);
                assert(p.subrange(0, lcp(p, b))[i] == p[i]);
                assert(b.subrange(0, lcp(p, b))[i] == b[i]);
            }
        }
        lemma_lex_cmp_common_prefix(a, b, la);
        assert(pcmp(ea, eb) == lex_cmp(a.skip(la), b.skip(lb)));
    } else if la > lb {
        lemma_pcmp_longer_prefix(p, a, b);
        assert(pcmp(ea, eb) == -1);
    } else {
        lemma_pcmp_longer_prefix(p, b, a);
        lemma_lex_cmp_antisym(a, b);
        assert(pcmp(ea, eb) == 1);
    }
}

/// Comparing two properly encoded keys of one boundary without decoding
/// gives exactly the order of their decoded full keys.
pub proof fn lemma_pcmp_decoded(p: Seq<u8>, ea: Seq<u8>, eb: Seq<u8>)
    requires
        properly_encoded(ea, p),
        properly_encoded(eb, p),
    ensures
        pcmp(ea, eb) == lex_cmp(decode_spec(p, ea), decode_spec(p, eb)),
{
    lemma_prefix_cmp_encodes_order(p, decode_spec(p, ea), decode_spec(p, eb));
}

/// The direct comparison returns 0 exactly on equal encoded keys.
pub proof fn lemma_pcmp_eq(a: Seq<u8>, b: Seq<u8>)
    ensures
        pcmp(a, b) == 0 <==> a == b,
{
    if a.len() > 0 && b.len() > 0 && a[0] == b[0] {
        lemma_lex_cmp_eq(a.skip(1), b.skip(1));
        if pcmp(a, b) == 0 {
            assert(a =~= seq![a[0]] + a.skip(1));
            assert(b =~= seq![b[0]] + b.skip(1));
        }
        if a == b {
            assert(a.skip(1) == b.skip(1));
        }
    } else if a.len() == 0 && b.len() == 0 {
        assert(a =~= b);
    } else {
        if a == b {
            assert(a.len() == b.len());
        }
    }
}

pub proof fn lemma_pcmp_antisym(a: Seq<u8>, b: Seq<u8>)
    ensures
        pcmp(a, b) == -pcmp(b, a),
{
    if a.len() > 0 && b.len() > 0 && a[0] == b[0] {
        lemma_lex_cmp_antisym(a.skip(1), b.skip(1));
    }
}

pub proof fn lemma_pcmp_trans(a: Seq<u8>, b: Seq<u8>, c: Seq<u8>)
    requires
        pcmp(a, b) < 0,
        pcmp(b, c) < 0,
    ensures
        pcmp(a, c) < 0,
{
    assert(b.len() > 0);
    assert(c.len() > 0);
    if a.len() == 0 {
    } else if a[0] == c[0] {
        assert(a[0] == b[0] && b[0] == c[0]);
        lemma_lex_cmp_trans(a.skip(1), b.skip(1), c.skip(1));
    } else {
        assert(a[0] >= b[0] && b[0] >= c[0]);
    }
}

/// Encode `k` against the boundary `p`: the shared-prefix length in one
/// byte, then the remaining suffix of `k`.
pub fn prefix_encode(p: &[u8], k: &[u8]) -> (r: Vec<u8>)
    ensures
        r@ == encode_spec(p@, k@),
{
    proof {
        lemma_lcp_bounds(p@, k@);
    }
    let mut pl: usize = 0;
    while pl < p.len() && pl < k.len() && pl < 255 && p[pl] == k[pl]
        invariant
            pl <= p.len(),
            pl <= k.len(),
            pl <= 255,
            pl <= lcp(p@, k@),
            p@.subrange(0, pl as int) =~= k@.subrange(0, pl as int),
        decreases p@.len() - pl,
    {
        proof {
            assert(p@.subrange(0, pl + 1 as int) =~= k@.subrange(0, pl + 1 as int)) by {
                assert forall|i: int| 0 <= i < pl + 1 implies #[trigger] p@.subrange(0, pl + 1)[i]
                    == k@.subrange(0, pl + 1)[i] by {
                    if i < pl {
                        assert(p@.subrange(0, pl as int)[i] == k@.subrange(0, pl as int)[i]);
                    }
                }
            }
            lemma_lcp_at_least(p@, k@, pl + 1);
        }
        pl = pl + 1;
    }
    proof {
        // The loop stopped either at the cap, at an end, or at a mismatch;
        // in every case pl is the capped shared-prefix length.
        if pl < p.len() && pl < k.len() && pl < 255 {
            if pl < lcp(p@, k@) {
                assert(p@.subrange(0, lcp(p@, k@))[pl as int] == k@.subrange(
                    0,
                    lcp(p@, k@),
                )[pl as int]);
                assert(p@.subrange(0, lcp(p@, k@))[pl as int] == p@[pl as int]);
                assert(k@.subrange(0, lcp(p@, k@))[pl as int] == k@[pl as int]);
            }
            assert(pl == lcp(p@, k@));
        }
        assert(pl as int == capped_lcp(p@, k@));
    }
    let mut r: Vec<u8> = Vec::new();
    r.push(pl as u8);
    let mut i: usize = pl;
    while i < k.len()
        invariant
            pl <= i <= k.len(),
            pl as int == capped_lcp(p@, k@),
            r@ =~= seq![pl as u8] + k@.subrange(pl as int, i as int),
        decreases k@.len() - i,
    {
        r.push(k[i]);
        i = i + 1;
        assert(r@ =~= seq![pl as u8] + k@.subrange(pl as int, i as int));
    }
    assert(r@ =~= encode_spec(p@, k@));
    r
}

/// Decode an encoded key against the boundary `p`, reproducing the full key.
pub fn prefix_decode(p: &[u8], e: &[u8]) -> (r: Vec<u8>)
    requires
        encoded_wf(e@, p@),
    ensures
        r@ == decode_spec(p@, e@),
{
    let pl: usize = e[0] as usize;
    let mut r: Vec<u8> = Vec::new();
    let mut i: usize = 0;
    while i < pl
        invariant
            i <= pl <= p.len(),
            r@ =~= p@.subrange(0, i as int),
        decreases pl - i,
    {
        r.push(p[i]);
        i = i + 1;
        assert(r@ =~= p@.subrange(0, i as int));
    }
    let mut j: usize = 1;
    while j < e.len()
        invariant
            1 <= j <= e.len(),
            pl <= p.len(),
            pl == e@[0] as int,
            r@ =~= p@.subrange(0, pl as int) + e@.subrange(1, j as int),
        decreases e@.len() - j,
    {
        r.push(e[j]);
        j = j + 1;
        assert(r@ =~= p@.subrange(0, pl as int) + e@.subrange(1, j as int));
    }
    assert(r@ =~= decode_spec(p@, e@));
    r
}

/// Compare two encoded keys that were encoded against the same boundary,
/// without decoding either: negative, zero or positive as for `lex_cmp` of
/// the decoded keys.
pub fn prefix_cmp(a: &[u8], b: &[u8]) -> (r: i32)
    ensures
        r as int == pcmp(a@, b@),
{
    if a.len() == 0 && b.len() == 0 {
        0
    } else if a.len() == 0 {
        -1
    } else if b.len() == 0 {
        1
    } else if a[0] > b[0] {
        -1
    } else if a[0] < b[0] {
        1
    } else {
        let sa = vstd::slice::slice_subrange(a, 1, a.len());
        let sb = vstd::slice::slice_subrange(b, 1, b.len());
        bytes_cmp(sa, sb)
    }
}

} // verus!
