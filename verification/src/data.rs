//! Sorted entry lists and the tagged page payload.
//!
//! Both index entries (separator key to child page) and leaf records
//! (key to value) are kept as sequences of pairs whose encoded keys are
//! strictly sorted under the direct prefix comparison. One generic search
//! and one generic split algorithm serve both variants.

use vstd::prelude::*;

use crate::order::{lemma_lex_cmp_eq, lex_cmp, lex_leq};
use crate::prefix::{
    decode_spec, encode_spec, encoded_wf, lemma_encode_properly, lemma_pcmp_antisym,
    lemma_pcmp_decoded, lemma_pcmp_eq, lemma_pcmp_trans, pcmp, prefix_cmp, prefix_decode,
    prefix_encode, properly_encoded,
};
use crate::{Key, PageError, PageID, Value};

verus! {

/// Copy a byte slice into a fresh owned vector.
pub fn clone_bytes(v: &[u8]) -> (r: Vec<u8>)
    ensures
        r@ == v@,
{
    let mut r: Vec<u8> = Vec::new();
    let mut i: usize = 0;
    while i < v.len()
        invariant
            i <= v.len(),
            r@ =~= v@.subrange(0, i as int),
        decreases v@.len() - i,
    {
        r.push(v[i]);
        i = i + 1;
        assert(r@ =~= v@.subrange(0, i as int));
    }
    assert(r@ =~= v@);
    r
}

/// Encoded keys strictly sorted under the direct prefix comparison.
pub open spec fn sorted_encoded<T>(s: Seq<(Key, T)>) -> bool {
    forall|i: int, j: int| 0 <= i < j < s.len() ==> #[trigger] pcmp(s[i].0@, s[j].0@) < 0
}

/// Every entry key is the proper encoding, against the boundary `p`, of a
/// full key at or above `p`.
pub open spec fn all_properly_encoded<T>(s: Seq<(Key, T)>, p: Seq<u8>) -> bool {
    forall|i: int| 0 <= i < s.len() ==> properly_encoded(#[trigger] s[i].0@, p)
}

/// Whether some entry carries exactly the encoded key `k`.
pub open spec fn has_key<T>(s: Seq<(Key, T)>, k: Seq<u8>) -> bool {
    exists|i: int| 0 <= i < s.len() && (#[trigger] s[i].0@) == k
}

/// The index of the entry carrying the encoded key `k` (unique in a sorted
/// list).
pub open spec fn key_index<T>(s: Seq<(Key, T)>, k: Seq<u8>) -> int {
    choose|i: int| 0 <= i < s.len() && (#[trigger] s[i].0@) == k
}

/// How many entry keys sort strictly before `k`: in a sorted list, the
/// position at which `k` would be inserted.
pub open spec fn count_lt<T>(s: Seq<(Key, T)>, k: Seq<u8>) -> int
    decreases s.len(),
{
    if s.len() == 0 {
        0
    } else {
        (if pcmp(s[0].0@, k) < 0 {
            1int
        } else {
            0int
        }) + count_lt(s.skip(1), k)
    }
}

/// `count_lt` counts a subset of the entries.
pub proof fn lemma_count_lt_bounds<T>(s: Seq<(Key, T)>, k: Seq<u8>)
    ensures
        0 <= count_lt(s, k) <= s.len(),
    decreases s.len(),
{
    if s.len() > 0 {
        lemma_count_lt_bounds(s.skip(1), k);
    }
}

/// In a sorted list, a bracket `j` (everything before sorts below `k`,
/// everything from `j` on sorts above) pins `count_lt` to `j`.
pub proof fn lemma_count_lt_bracket<T>(s: Seq<(Key, T)>, k: Seq<u8>, j: int)
    requires
        0 <= j <= s.len(),
        forall|i: int| 0 <= i < j ==> #[trigger] pcmp(s[i].0@, k) < 0,
        forall|i: int| j <= i < s.len() ==> #[trigger] pcmp(s[i].0@, k) > 0,
    ensures
        count_lt(s, k) == j,
    decreases s.len(),
{
    if s.len() > 0 {
        if j > 0 {
            assert(pcmp(s[0].0@, k) < 0);
            assert forall|i: int| 0 <= i < j - 1 implies #[trigger] pcmp(s.skip(1)[i].0@, k)
                < 0 by {
                assert(s.skip(1)[i] == s[i + 1]);
                assert(pcmp(s[i + 1].0@, k) < 0);
            }
            assert forall|i: int| j - 1 <= i < s.skip(1).len() implies #[trigger] pcmp(
                s.skip(1)[i].0@,
                k,
            ) > 0 by {
                assert(s.skip(1)[i] == s[i + 1]);
                assert(pcmp(s[i + 1].0@, k) > 0);
            }
            lemma_count_lt_bracket(s.skip(1), k, j - 1);
        } else {
            assert(pcmp(s[0].0@, k) > 0);
            assert forall|i: int| 0 <= i < s.skip(1).len() implies #[trigger] pcmp(
                s.skip(1)[i].0@,
                k,
            ) > 0 by {
                assert(s.skip(1)[i] == s[i + 1]);
                assert(pcmp(s[i + 1].0@, k) > 0);
            }
            lemma_count_lt_bracket(s.skip(1), k, 0);
        }
    }
}

/// Binary search over a sorted entry list by the direct prefix comparison.
/// `Ok` carries the position of the exact match, `Err` the insertion point.
pub fn search_entries<T>(xs: &Vec<(Key, T)>, key: &[u8]) -> (r: Result<usize, usize>)
    requires
        sorted_encoded(xs@),
    ensures
        match r {
            Ok(i) => 0 <= i < xs@.len() && xs@[i as int].0@ == key@,
            Err(j) => {
                &&& 0 <= j <= xs@.len()
                &&& forall|i: int| 0 <= i < j ==> #[trigger] pcmp(xs@[i].0@, key@) < 0
                &&& forall|i: int| j <= i < xs@.len() ==> #[trigger] pcmp(xs@[i].0@, key@) > 0
                &&& !has_key(xs@, key@)
            },
        },
{
    let mut lo: usize = 0;
    let mut hi: usize = xs.len();
    while lo < hi
        invariant
            0 <= lo <= hi <= xs@.len(),
            sorted_encoded(xs@),
            forall|i: int| 0 <= i < lo ==> #[trigger] pcmp(xs@[i].0@, key@) < 0,
            forall|i: int| hi <= i < xs@.len() ==> #[trigger] pcmp(xs@[i].0@, key@) > 0,
        decreases hi - lo,
    {
        let mid = lo + (hi - lo) / 2;
        let c = prefix_cmp(xs[mid].0.as_slice(), key);
        if c == 0 {
            proof {
                lemma_pcmp_eq(xs@[mid as int].0@, key@);
            }
            return Ok(mid);
        } else if c < 0 {
            proof {
                assert forall|i: int| 0 <= i < mid + 1 implies #[trigger] pcmp(xs@[i].0@, key@)
                    < 0 by {
                    if i < mid {
                        assert(pcmp(xs@[i].0@, xs@[mid as int].0@) < 0);
                        lemma_pcmp_trans(xs@[i].0@, xs@[mid as int].0@, key@);
                    }
                }
            }
            lo = mid + 1;
        } else {
            proof {
                assert forall|i: int| mid <= i < xs@.len() implies #[trigger] pcmp(xs@[i].0@, key@)
                    > 0 by {
                    if i > mid {
                        assert(pcmp(xs@[mid as int].0@, xs@[i].0@) < 0);
                        lemma_pcmp_antisym(xs@[mid as int].0@, key@);
                        lemma_pcmp_trans(key@, xs@[mid as int].0@, xs@[i].0@);
                        lemma_pcmp_antisym(key@, xs@[i].0@);
                    }
                }
            }
            hi = mid;
        }
    }
    proof {
        if has_key(xs@, key@) {
            let i = key_index(xs@, key@);
            lemma_pcmp_eq(xs@[i].0@, key@);
        }
    }
    Err(lo)
}

/// Inserting at the insertion point keeps the list sorted.
pub proof fn lemma_insert_sorted<T>(s: Seq<(Key, T)>, kv: (Key, T), j: int)
    requires
        sorted_encoded(s),
        0 <= j <= s.len(),
        forall|i: int| 0 <= i < j ==> #[trigger] pcmp(s[i].0@, kv.0@) < 0,
        forall|i: int| j <= i < s.len() ==> #[trigger] pcmp(s[i].0@, kv.0@) > 0,
    ensures
        sorted_encoded(s.insert(j, kv)),
{
    let t = s.insert(j, kv);
    assert forall|a: int, b: int| 0 <= a < b < t.len() implies #[trigger] pcmp(t[a].0@, t[b].0@)
        < 0 by {
        if a < j && b == j {
            assert(t[a] == s[a]);
        } else if a == j && b > j {
            assert(t[b] == s[b - 1]);
            lemma_pcmp_antisym(s[b - 1].0@, kv.0@);
        } else if a < j && b > j {
            assert(t[a] == s[a]);
            assert(t[b] == s[b - 1]);
        } else if b < j {
            assert(t[a] == s[a]);
            assert(t[b] == s[b]);
        } else {
            assert(a > j || (a == j && b > j) || b <= j);
            if a > j {
                assert(t[a] == s[a - 1]);
                assert(t[b] == s[b - 1]);
            }
        }
    }
}

/// Full (decoded) keys strictly sorted lexicographically.
pub open spec fn sorted_decoded<T>(s: Seq<(Key, T)>) -> bool {
    forall|i: int, j: int| 0 <= i < j < s.len() ==> #[trigger] lex_cmp(s[i].0@, s[j].0@) < 0
}

/// Sorted, properly encoded keys decode to sorted full keys.
pub proof fn lemma_sorted_decode<T>(s: Seq<(Key, T)>, p: Seq<u8>, d: Seq<(Key, T)>)
    requires
        sorted_encoded(s),
        all_properly_encoded(s, p),
        d.len() == s.len(),
        forall|i: int| 0 <= i < s.len() ==> (#[trigger] d[i]).0@ == decode_spec(p, s[i].0@),
    ensures
        sorted_decoded(d),
{
    assert forall|i: int, j: int| 0 <= i < j < d.len() implies #[trigger] lex_cmp(d[i].0@, d[j].0@)
        < 0 by {
        assert(pcmp(s[i].0@, s[j].0@) < 0);
        lemma_pcmp_decoded(p, s[i].0@, s[j].0@);
    }
}

/// An ordered list of (encoded key, item) pairs: the container behind both
/// index entries and, via the same generic algorithms, leaf records.
#[derive(Clone, Debug)]
pub struct Pointers<T> {
    ptrs: Vec<(Key, T)>,
}

impl<T> View for Pointers<T> {
    type V = Seq<(Key, T)>;

    closed spec fn view(&self) -> Seq<(Key, T)> {
        self.ptrs@
    }
}

impl<T> Pointers<T> {
    /// Wrap an entry list, typically one decoded from a base checkpoint.
    pub fn from_entries(entries: Vec<(Key, T)>) -> (r: Pointers<T>)
        ensures
            r@ == entries@,
    {
        Pointers { ptrs: entries }
    }

    pub fn len(&self) -> (r: usize)
        ensures
            r == self@.len(),
    {
        self.ptrs.len()
    }

    pub fn get(&self, idx: usize) -> (r: Option<&(Key, T)>)
        ensures
            match r {
                Some(p) => idx < self@.len() && *p == self@[idx as int],
                None => idx >= self@.len(),
            },
    {
        if idx < self.ptrs.len() {
            Some(&self.ptrs[idx])
        } else {
            None
        }
    }

    /// Insert a new entry, keeping the list sorted. Duplicate separators are
    /// a caller error, stated as the precondition that the key be absent.
    pub fn push_and_sort(&mut self, key_value: (Key, T))
        requires
            sorted_encoded(old(self)@),
            !has_key(old(self)@, key_value.0@),
        ensures
            final(self)@ == old(self)@.insert(count_lt(old(self)@, key_value.0@), key_value),
            sorted_encoded(final(self)@),
            final(self)@.len() == old(self)@.len() + 1,
    {
        let r = search_entries(&self.ptrs, key_value.0.as_slice());
        match r {
            Ok(i) => {
                proof {
                    // The precondition rules an exact match out.
                    assert(self.ptrs@[i as int].0@ == key_value.0@);
                    assert(has_key(self.ptrs@, key_value.0@));
                    assert(false);
                }
            },
            Err(j) => {
                proof {
                    lemma_count_lt_bracket(self.ptrs@, key_value.0@, j as int);
                    lemma_insert_sorted(self.ptrs@, key_value, j as int);
                }
                self.ptrs.insert(j, key_value);
            },
        }
    }

    /// Split an entry list whose keys have already been decoded: keep the
    /// smaller half on the left, hand the larger half (`ceil(n / 2)`
    /// entries) to the right, and re-encode the right half against its
    /// first key, the split key.
    fn split_decoded(xs: Vec<(Key, T)>) -> (r: (Key, Vec<(Key, T)>))
        requires
            xs@.len() >= 2,
            sorted_decoded(xs@),
        ensures
            ({
                let n = xs@.len() as int;
                let cut = n / 2;
                &&& r.0@ == xs@[cut].0@
                &&& r.1@.len() == n - cut
                &&& forall|i: int|
                    0 <= i < n - cut ==> (#[trigger] r.1@[i]).0@ == encode_spec(
                        xs@[cut].0@,
                        xs@[cut + i].0@,
                    ) && r.1@[i].1 == xs@[cut + i].1
            }),
    {
        let mut rest = xs;
        let cut = rest.len() / 2;
        let right = rest.split_off(cut);
        let ghost rhs0 = right@;
        let sk = clone_bytes(right[0].0.as_slice());
        let mut rest = right;
        let mut out: Vec<(Key, T)> = Vec::new();
        while rest.len() > 0
            invariant
                sk@ == rhs0[0].0@,
                out@.len() + rest@.len() == rhs0.len(),
                rhs0.len() >= 1,
                rest@ =~= rhs0.skip(out@.len() as int),
                forall|i: int|
                    0 <= i < out@.len() ==> (#[trigger] out@[i]).0@ == encode_spec(
                        sk@,
                        rhs0[i].0@,
                    ) && out@[i].1 == rhs0[i].1,
            decreases rest@.len(),
        {
            let ghost m = out@.len() as int;
            let pair = rest.remove(0);
            proof {
                assert(pair == rhs0.skip(m)[0]);
                assert(rhs0.skip(m)[0] == rhs0[m]);
                assert(rhs0.skip(m).remove(0) =~= rhs0.skip(m + 1));
            }
            let ek = prefix_encode(sk.as_slice(), pair.0.as_slice());
            out.push((ek, pair.1));
        }
        (sk, out)
    }

    /// Binary search by the direct prefix comparison: `Ok` on an exact
    /// match, `Err` with the insertion point otherwise.
    pub fn search(&self, encoded_key: &[u8]) -> (r: Result<usize, usize>)
        requires
            sorted_encoded(self@),
        ensures
            match r {
                Ok(i) => 0 <= i < self@.len() && self@[i as int].0@ == encoded_key@,
                Err(j) => {
                    &&& 0 <= j <= self@.len()
                    &&& forall|i: int| 0 <= i < j ==> #[trigger] pcmp(self@[i].0@, encoded_key@)
                        < 0
                    &&& forall|i: int|
                        j <= i < self@.len() ==> #[trigger] pcmp(self@[i].0@, encoded_key@) > 0
                    &&& !has_key(self@, encoded_key@)
                },
            },
    {
        search_entries(&self.ptrs, encoded_key)
    }
}

/// What a split leaves behind, stated over the entry keys: the right half
/// holds the larger `ceil(n / 2)` entries, its first (smallest) decoded key
/// is the split key, every right entry is re-encoded against the split key
/// and decodes back to the full key it had on the left boundary, and every
/// decoded right key sorts strictly above every decoded left key.
pub open spec fn split_post<T>(orig: Seq<(Key, T)>, p: Seq<u8>, sk: Seq<u8>, rhs: Seq<(Key, T)>) -> bool {
    let n = orig.len() as int;
    let cut = n / 2;
    &&& n >= 2
    &&& rhs.len() == n - cut
    &&& sk == decode_spec(p, orig[cut].0@)
    &&& forall|i: int|
        0 <= i < n - cut ==> (#[trigger] rhs[i]).0@ == encode_spec(
            sk,
            decode_spec(p, orig[cut + i].0@),
        )
    &&& forall|i: int|
        0 <= i < n - cut ==> decode_spec(sk, (#[trigger] rhs[i]).0@) == decode_spec(
            p,
            orig[cut + i].0@,
        )
    &&& sorted_encoded(rhs)
    &&& all_properly_encoded(rhs, sk)
    &&& forall|i: int, j: int|
        0 <= i < cut <= j < n ==> lex_cmp(
            #[trigger] decode_spec(p, orig[i].0@),
            #[trigger] decode_spec(p, orig[j].0@),
        ) < 0
}

/// The generic split algorithm establishes `split_post`.
proof fn lemma_split_post<T>(
    s: Seq<(Key, T)>,
    p: Seq<u8>,
    dv: Seq<(Key, T)>,
    sk: Seq<u8>,
    out: Seq<(Key, T)>,
)
    requires
        sorted_encoded(s),
        all_properly_encoded(s, p),
        s.len() >= 2,
        dv.len() == s.len(),
        forall|i: int| 0 <= i < s.len() ==> (#[trigger] dv[i]).0@ == decode_spec(p, s[i].0@),
        sk == dv[s.len() as int / 2].0@,
        out.len() == s.len() as int - s.len() as int / 2,
        forall|i: int|
            0 <= i < out.len() ==> (#[trigger] out[i]).0@ == encode_spec(
                sk,
                dv[s.len() as int / 2 + i].0@,
            ),
    ensures
        split_post(s, p, sk, out),
{
    let n = s.len() as int;
    let cut = n / 2;
    lemma_sorted_decode(s, p, dv);
    assert forall|i: int| 0 <= i < n - cut implies lex_leq(sk, #[trigger] dv[cut + i].0@) by {
        if i == 0 {
            lemma_lex_cmp_eq(sk, dv[cut].0@);
        } else {
            assert(lex_cmp(dv[cut].0@, dv[cut + i].0@) < 0);
        }
    }
    assert forall|i: int|
        0 <= i < n - cut implies properly_encoded(#[trigger] out[i].0@, sk) && decode_spec(
        sk,
        out[i].0@,
    ) == decode_spec(p, s[cut + i].0@) by {
        lemma_encode_properly(sk, dv[cut + i].0@);
    }
    assert forall|i: int, j: int| 0 <= i < j < out.len() implies #[trigger] pcmp(
        out[i].0@,
        out[j].0@,
    ) < 0 by {
        assert(lex_cmp(dv[cut + i].0@, dv[cut + j].0@) < 0);
        crate::prefix::lemma_prefix_cmp_encodes_order(sk, dv[cut + i].0@, dv[cut + j].0@);
    }
    assert forall|i: int, j: int| 0 <= i < cut <= j < n implies lex_cmp(
        #[trigger] decode_spec(p, s[i].0@),
        #[trigger] decode_spec(p, s[j].0@),
    ) < 0 by {
        if i < j {
            assert(lex_cmp(dv[i].0@, dv[j].0@) < 0);
        } else {
            lemma_lex_cmp_eq(dv[i].0@, dv[j].0@);
        }
    }
}

impl<T: Copy> Pointers<T> {
    /// Split this list: decode every key against the left page's boundary,
    /// take the larger half off the right end, and re-encode it against the
    /// smallest right key, which becomes the split key and the right page's
    /// boundary. Fails loudly on a list of fewer than two entries.
    pub fn split(&self, lhs_prefix: &[u8]) -> (r: Result<(Key, Pointers<T>), PageError>)
        requires
            sorted_encoded(self@),
            all_properly_encoded(self@, lhs_prefix@),
        ensures
            match r {
                Err(e) => e == PageError::SplitOnUndersizedPage && self@.len() < 2,
                Ok(pair) => {
                    &&& split_post(self@, lhs_prefix@, pair.0@, pair.1@)
                    &&& forall|i: int|
                        0 <= i < pair.1@.len() ==> (#[trigger] pair.1@[i]).1 == self@[self@.len()
                            as int / 2 + i].1
                },
            },
    {
        if self.ptrs.len() < 2 {
            return Err(PageError::SplitOnUndersizedPage);
        }
        let mut dv: Vec<(Key, T)> = Vec::new();
        let mut i: usize = 0;
        while i < self.ptrs.len()
            invariant
                i <= self.ptrs@.len(),
                all_properly_encoded(self.ptrs@, lhs_prefix@),
                dv@.len() == i,
                forall|j: int|
                    0 <= j < i ==> (#[trigger] dv@[j]).0@ == decode_spec(
                        lhs_prefix@,
                        self.ptrs@[j].0@,
                    ) && dv@[j].1 == self.ptrs@[j].1,
            decreases self.ptrs@.len() - i,
        {
            let pair = &self.ptrs[i];
            let dk = prefix_decode(lhs_prefix, pair.0.as_slice());
            dv.push((dk, pair.1));
            i = i + 1;
        }
        proof {
            lemma_sorted_decode(self.ptrs@, lhs_prefix@, dv@);
        }
        let ghost dv0 = dv@;
        let (sk, out) = Self::split_decoded(dv);
        proof {
            lemma_split_post(self.ptrs@, lhs_prefix@, dv0, sk@, out@);
        }
        Ok((sk, Pointers { ptrs: out }))
    }
}

/// A page's body: child pointers keyed by separator for an index page, or
/// records keyed by encoded key for a leaf page. A page keeps one variant
/// for its whole lifetime.
#[derive(Clone, Debug)]
pub enum Data {
    Index(Pointers<PageID>),
    Leaf(Vec<(Key, Value)>),
}

impl Data {
    pub open spec fn is_leaf(&self) -> bool {
        match self {
            Data::Index(_) => false,
            Data::Leaf(_) => true,
        }
    }

    /// The index entries; empty when this is a leaf.
    pub open spec fn index_entries(&self) -> Seq<(Key, PageID)> {
        match self {
            Data::Index(ptrs) => ptrs@,
            Data::Leaf(_) => Seq::empty(),
        }
    }

    /// The leaf records; empty when this is an index.
    pub open spec fn leaf_entries(&self) -> Seq<(Key, Value)> {
        match self {
            Data::Index(_) => Seq::empty(),
            Data::Leaf(records) => records@,
        }
    }

    /// The encoded entry keys, whichever the variant.
    pub open spec fn key_at(&self, i: int) -> Seq<u8> {
        match self {
            Data::Index(ptrs) => ptrs@[i].0@,
            Data::Leaf(records) => records@[i].0@,
        }
    }

    pub open spec fn spec_len(&self) -> int {
        match self {
            Data::Index(ptrs) => ptrs@.len() as int,
            Data::Leaf(records) => records@.len() as int,
        }
    }

    /// The payload's keys are strictly sorted under the direct comparison
    /// and properly encoded against the boundary `p`.
    pub open spec fn wf_encoded(&self, p: Seq<u8>) -> bool {
        match self {
            Data::Index(ptrs) => sorted_encoded(ptrs@) && all_properly_encoded(ptrs@, p),
            Data::Leaf(records) => sorted_encoded(records@) && all_properly_encoded(records@, p),
        }
    }

    /// Wrap index entries handed over by the tree driver.
    pub fn index(index_vec: Vec<(Key, PageID)>) -> (r: Data)
        ensures
            !r.is_leaf(),
            r.index_entries() == index_vec@,
    {
        Data::Index(Pointers::from_entries(index_vec))
    }

    pub fn len(&self) -> (r: usize)
        ensures
            r == self.spec_len(),
    {
        match self {
            Data::Index(ptrs) => ptrs.len(),
            Data::Leaf(records) => records.len(),
        }
    }

    /// Split the payload, whichever the variant, returning the split key
    /// and the right half as a payload of the same variant. See
    /// [`split_post`] for the balance and re-encoding guarantees.
    pub fn split(&self, lhs_prefix: &[u8]) -> (r: Result<(Key, Data), PageError>)
        requires
            self.wf_encoded(lhs_prefix@),
        ensures
            match r {
                Err(e) => e == PageError::SplitOnUndersizedPage && self.spec_len() < 2,
                Ok(pair) => {
                    &&& pair.1.is_leaf() == self.is_leaf()
                    &&& self.is_leaf() ==> split_post(
                        self.leaf_entries(),
                        lhs_prefix@,
                        pair.0@,
                        pair.1.leaf_entries(),
                    ) && forall|i: int|
                        0 <= i < pair.1.leaf_entries().len() ==> (#[trigger] pair.1.leaf_entries()[i]).1@
                            == self.leaf_entries()[self.leaf_entries().len() as int / 2 + i].1@
                    &&& !self.is_leaf() ==> split_post(
                        self.index_entries(),
                        lhs_prefix@,
                        pair.0@,
                        pair.1.index_entries(),
                    ) && forall|i: int|
                        0 <= i < pair.1.index_entries().len() ==> (#[trigger] pair.1.index_entries()[i]).1
                            == self.index_entries()[self.index_entries().len() as int / 2 + i].1
                },
            },
    {
        match self {
            Data::Index(ptrs) => {
                match ptrs.split(lhs_prefix) {
                    Ok((sk, rhs)) => Ok((sk, Data::Index(rhs))),
                    Err(e) => Err(e),
                }
            },
            Data::Leaf(records) => {
                if records.len() < 2 {
                    return Err(PageError::SplitOnUndersizedPage);
                }
                let mut dv: Vec<(Key, Value)> = Vec::new();
                let mut i: usize = 0;
                while i < records.len()
                    invariant
                        i <= records@.len(),
                        all_properly_encoded(records@, lhs_prefix@),
                        dv@.len() == i,
                        forall|j: int|
                            0 <= j < i ==> (#[trigger] dv@[j]).0@ == decode_spec(
                                lhs_prefix@,
                                records@[j].0@,
                            ) && dv@[j].1@ == records@[j].1@,
                    decreases records@.len() - i,
                {
                    let pair = &records[i];
                    let dk = prefix_decode(lhs_prefix, pair.0.as_slice());
                    let dval = clone_bytes(pair.1.as_slice());
                    dv.push((dk, dval));
                    i = i + 1;
                }
                proof {
                    lemma_sorted_decode(records@, lhs_prefix@, dv@);
                }
                let ghost dv0 = dv@;
                let (sk, out) = Pointers::<Value>::split_decoded(dv);
                proof {
                    lemma_split_post(records@, lhs_prefix@, dv0, sk@, out@);
                }
                Ok((sk, Data::Leaf(out)))
            },
        }
    }
}


/// The entries whose decoded key sorts strictly below `b`, in order: what
/// `drop_gte` retains.
pub open spec fn keep_lt<T>(s: Seq<(Key, T)>, p: Seq<u8>, b: Seq<u8>) -> Seq<(Key, T)>
    decreases s.len(),
{
    if s.len() == 0 {
        Seq::empty()
    } else if lex_cmp(decode_spec(p, s[0].0@), b) < 0 {
        seq![s[0]] + keep_lt(s.skip(1), p, b)
    } else {
        keep_lt(s.skip(1), p, b)
    }
}

/// Every retained entry is one of the original entries, and its decoded key
/// sorts strictly below the cut.
pub proof fn lemma_keep_lt_props<T>(s: Seq<(Key, T)>, p: Seq<u8>, b: Seq<u8>)
    ensures
        keep_lt(s, p, b).len() <= s.len(),
        forall|i: int|
            0 <= i < keep_lt(s, p, b).len() ==> lex_cmp(
                decode_spec(p, (#[trigger] keep_lt(s, p, b)[i]).0@),
                b,
            ) < 0 && s.contains(keep_lt(s, p, b)[i]),
    decreases s.len(),
{
    if s.len() > 0 {
        lemma_keep_lt_props(s.skip(1), p, b);
        let r = keep_lt(s, p, b);
        let rt = keep_lt(s.skip(1), p, b);
        assert forall|i: int| 0 <= i < r.len() implies lex_cmp(
            decode_spec(p, (#[trigger] r[i]).0@),
            b,
        ) < 0 && s.contains(r[i]) by {
            if lex_cmp(decode_spec(p, s[0].0@), b) < 0 && i == 0 {
                assert(r[0] == s[0]);
                assert(s[0] == s[0 as int]);
            } else {
                let ti = if lex_cmp(decode_spec(p, s[0].0@), b) < 0 {
                    i - 1
                } else {
                    i
                };
                assert(r[i] == rt[ti]);
                assert(s.skip(1).contains(rt[ti]));
                let j = choose|j: int| 0 <= j < s.skip(1).len() && s.skip(1)[j] == rt[ti];
                assert(s[j + 1] == rt[ti]);
            }
        }
    }
}

/// Filtering a sorted, properly encoded list keeps it sorted and properly
/// encoded.
pub proof fn lemma_keep_lt_sorted<T>(s: Seq<(Key, T)>, p: Seq<u8>, b: Seq<u8>)
    requires
        sorted_encoded(s),
        all_properly_encoded(s, p),
    ensures
        sorted_encoded(keep_lt(s, p, b)),
        all_properly_encoded(keep_lt(s, p, b), p),
    decreases s.len(),
{
    lemma_keep_lt_props(s, p, b);
    if s.len() > 0 {
        assert forall|i: int, j: int| 0 <= i < j < s.skip(1).len() implies #[trigger] pcmp(
            s.skip(1)[i].0@,
            s.skip(1)[j].0@,
        ) < 0 by {
            assert(s.skip(1)[i] == s[i + 1]);
            assert(s.skip(1)[j] == s[j + 1]);
            assert(pcmp(s[i + 1].0@, s[j + 1].0@) < 0);
        }
        assert forall|i: int| 0 <= i < s.skip(1).len() implies properly_encoded(
            (#[trigger] s.skip(1)[i]).0@,
            p,
        ) by {
            assert(s.skip(1)[i] == s[i + 1]);
            assert(properly_encoded(s[i + 1].0@, p));
        }
        lemma_keep_lt_sorted(s.skip(1), p, b);
        lemma_keep_lt_props(s.skip(1), p, b);
        let r = keep_lt(s, p, b);
        let rt = keep_lt(s.skip(1), p, b);
        assert forall|i: int, j: int| 0 <= i < j < r.len() implies #[trigger] pcmp(
            r[i].0@,
            r[j].0@,
        ) < 0 by {
            if lex_cmp(decode_spec(p, s[0].0@), b) < 0 {
                // r = [s[0]] + rt
                if i == 0 {
                    assert(r[j] == rt[j - 1]);
                    assert(s.skip(1).contains(rt[j - 1]));
                    let m = choose|m: int| 0 <= m < s.skip(1).len() && s.skip(1)[m] == rt[j - 1];
                    assert(s.skip(1)[m] == s[m + 1]);
                    assert(pcmp(s[0].0@, s[m + 1].0@) < 0);
                } else {
                    assert(r[i] == rt[i - 1]);
                    assert(r[j] == rt[j - 1]);
                    assert(pcmp(rt[i - 1].0@, rt[j - 1].0@) < 0);
                }
            } else {
                assert(r[i] == rt[i]);
                assert(r[j] == rt[j]);
            }
        }
        assert forall|i: int| 0 <= i < r.len() implies properly_encoded((#[trigger] r[i]).0@, p) by {
            assert(s.contains(r[i]));
            let m = choose|m: int| 0 <= m < s.len() && s[m] == r[i];
            assert(properly_encoded(s[m].0@, p));
        }
    }
}

impl Data {
    /// Remove every entry whose decoded key is not strictly below the cut
    /// key of `at`: run after a split on the left page, to discard what
    /// moved to the new right sibling. Decodes each key against the page's
    /// unchanged low boundary and compares to the raw cut key.
    pub fn drop_gte(&mut self, at: &crate::bound::Bound, prefix: &[u8])
        requires
            forall|i: int|
                0 <= i < old(self).spec_len() ==> encoded_wf(#[trigger] old(self).key_at(i), prefix@),
        ensures
            final(self).is_leaf() == old(self).is_leaf(),
            final(self).leaf_entries() == keep_lt(
                old(self).leaf_entries(),
                prefix@,
                at.inner_view(),
            ),
            final(self).index_entries() == keep_lt(
                old(self).index_entries(),
                prefix@,
                at.inner_view(),
            ),
    {
        let bound_key = at.inner();
        match &mut *self {
            Data::Index(ptrs) => {
                let ghost orig = ptrs.ptrs@;
                proof {
                    assert forall|i: int| 0 <= i < orig.len() implies encoded_wf(
                        (#[trigger] orig[i]).0@,
                        prefix@,
                    ) by {
                        assert(old(self).key_at(i) == orig[i].0@);
                    }
                }
                let mut out: Vec<(Key, PageID)> = Vec::new();
                while ptrs.ptrs.len() > 0
                    invariant
                        forall|i: int|
                            0 <= i < ptrs.ptrs@.len() ==> encoded_wf(
                                (#[trigger] ptrs.ptrs@[i]).0@,
                                prefix@,
                            ),
                        keep_lt(orig, prefix@, bound_key@) =~= out@ + keep_lt(
                            ptrs.ptrs@,
                            prefix@,
                            bound_key@,
                        ),
                    decreases ptrs.ptrs@.len(),
                {
                    let ghost before = ptrs.ptrs@;
                    let pair = ptrs.ptrs.remove(0);
                    proof {
                        assert(before.remove(0) =~= before.skip(1));
                        assert forall|i: int| 0 <= i < before.skip(1).len() implies encoded_wf(
                            (#[trigger] before.skip(1)[i]).0@,
                            prefix@,
                        ) by {
                            assert(before.skip(1)[i] == before[i + 1]);
                        }
                    }
                    let dk = prefix_decode(prefix, pair.0.as_slice());
                    let c = crate::order::bytes_cmp(dk.as_slice(), bound_key);
                    if c < 0 {
                        out.push(pair);
                    }
                }
                *ptrs = Pointers { ptrs: out };
            },
            Data::Leaf(records) => {
                let ghost orig = records@;
                proof {
                    assert forall|i: int| 0 <= i < orig.len() implies encoded_wf(
                        (#[trigger] orig[i]).0@,
                        prefix@,
                    ) by {
                        assert(old(self).key_at(i) == orig[i].0@);
                    }
                }
                let mut out: Vec<(Key, Value)> = Vec::new();
                while records.len() > 0
                    invariant
                        forall|i: int|
                            0 <= i < records@.len() ==> encoded_wf(
                                (#[trigger] records@[i]).0@,
                                prefix@,
                            ),
                        keep_lt(orig, prefix@, bound_key@) =~= out@ + keep_lt(
                            records@,
                            prefix@,
                            bound_key@,
                        ),
                    decreases records@.len(),
                {
                    let ghost before = records@;
                    let pair = records.remove(0);
                    proof {
                        assert(before.remove(0) =~= before.skip(1));
                        assert forall|i: int| 0 <= i < before.skip(1).len() implies encoded_wf(
                            (#[trigger] before.skip(1)[i]).0@,
                            prefix@,
                        ) by {
                            assert(before.skip(1)[i] == before[i + 1]);
                        }
                    }
                    let dk = prefix_decode(prefix, pair.0.as_slice());
                    let c = crate::order::bytes_cmp(dk.as_slice(), bound_key);
                    if c < 0 {
                        out.push(pair);
                    }
                }
                *records = out;
            },
        }
    }

    /// The leaf records as an owned copy, or nothing on an index payload:
    /// range-scan callers probe without knowing the variant, so the
    /// mismatch is deliberately not an error.
    pub fn leaf(&self) -> (r: Option<Vec<(Key, Value)>>)
        ensures
            match r {
                Some(v) => {
                    &&& self.is_leaf()
                    &&& v@.len() == self.leaf_entries().len()
                    &&& forall|i: int|
                        0 <= i < v@.len() ==> (#[trigger] v@[i]).0@ == self.leaf_entries()[i].0@
                            && v@[i].1@ == self.leaf_entries()[i].1@
                },
                None => !self.is_leaf(),
            },
    {
        match self {
            Data::Index(_) => None,
            Data::Leaf(records) => {
                let mut out: Vec<(Key, Value)> = Vec::new();
                let mut i: usize = 0;
                while i < records.len()
                    invariant
                        i <= records@.len(),
                        out@.len() == i,
                        forall|j: int|
                            0 <= j < i ==> (#[trigger] out@[j]).0@ == records@[j].0@
                                && out@[j].1@ == records@[j].1@,
                    decreases records@.len() - i,
                {
                    let k = clone_bytes(records[i].0.as_slice());
                    let v = clone_bytes(records[i].1.as_slice());
                    out.push((k, v));
                    i = i + 1;
                }
                Some(out)
            },
        }
    }

    /// Borrow the leaf records, or nothing on an index payload.
    pub fn leaf_ref(&self) -> (r: Option<&Vec<(Key, Value)>>)
        ensures
            match r {
                Some(v) => self.is_leaf() && v@ == self.leaf_entries(),
                None => !self.is_leaf(),
            },
    {
        match self {
            Data::Index(_) => None,
            Data::Leaf(records) => Some(records),
        }
    }
}


} // verus!
