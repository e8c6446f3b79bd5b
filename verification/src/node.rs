//! The materialized page and fragment replay.
//!
//! A `Node` is a page's full in-memory state: identity, payload, key range
//! `[lo, hi)` and the B-link side pointer `next` that is set while a split
//! is mid-flight. `apply` replays one fragment onto the page; `split`
//! computes the new right sibling without touching the left page, whose
//! truncation is itself a fragment (`ChildSplit`) replayed afterwards.

use vstd::prelude::*;

use crate::bound::{key_below_bound, Bound};
use crate::data::{
    clone_bytes, has_key, keep_lt, lemma_insert_sorted, lemma_keep_lt_props,
    lemma_keep_lt_sorted, search_entries, sorted_encoded, split_post, Data,
};
use crate::order::{lex_cmp, lex_leq};
use crate::prefix::{
    decode_spec, encode_spec, encoded_wf, lemma_decode_encode, lemma_encode_properly,
    lemma_pcmp_eq, pcmp, prefix_decode, prefix_encode, properly_encoded,
};
use crate::{Key, PageError, PageID, Value};

verus! {

/// The view of a leaf record list: each record as (encoded key, value) over
/// plain byte sequences.
pub open spec fn leaf_view(s: Seq<(Key, Value)>) -> Seq<(Seq<u8>, Seq<u8>)> {
    Seq::new(s.len(), |i: int| (s[i].0@, s[i].1@))
}

/// Whether some record carries exactly the encoded key `k`.
pub open spec fn v_has_key(s: Seq<(Seq<u8>, Seq<u8>)>, k: Seq<u8>) -> bool {
    exists|i: int| 0 <= i < s.len() && (#[trigger] s[i]).0 == k
}

/// The index of the record carrying the encoded key `k`.
pub open spec fn v_key_index(s: Seq<(Seq<u8>, Seq<u8>)>, k: Seq<u8>) -> int {
    choose|i: int| 0 <= i < s.len() && (#[trigger] s[i]).0 == k
}

/// How many record keys sort strictly before `k` under the direct prefix
/// comparison: in a sorted list, the position at which `k` is inserted.
pub open spec fn v_count_lt(s: Seq<(Seq<u8>, Seq<u8>)>, k: Seq<u8>) -> int
    decreases s.len(),
{
    if s.len() == 0 {
        0
    } else {
        (if pcmp(s[0].0, k) < 0 {
            1int
        } else {
            0int
        }) + v_count_lt(s.skip(1), k)
    }
}

/// The value stored at encoded key `k`, if any.
pub open spec fn v_lookup(s: Seq<(Seq<u8>, Seq<u8>)>, k: Seq<u8>) -> Option<Seq<u8>> {
    if v_has_key(s, k) {
        Some(s[v_key_index(s, k)].1)
    } else {
        None
    }
}

/// What a `Put` does to the records: replace the value in place when the
/// key is present, insert at the sorted position when it is absent.
pub open spec fn v_upsert(s: Seq<(Seq<u8>, Seq<u8>)>, k: Seq<u8>, v: Seq<u8>) -> Seq<
    (Seq<u8>, Seq<u8>),
> {
    if v_has_key(s, k) {
        s.update(v_key_index(s, k), (k, v))
    } else {
        s.insert(v_count_lt(s, k), (k, v))
    }
}

/// What a `Del` does to the records: remove the entry when present.
pub open spec fn v_del(s: Seq<(Seq<u8>, Seq<u8>)>, k: Seq<u8>) -> Seq<(Seq<u8>, Seq<u8>)> {
    if v_has_key(s, k) {
        s.remove(v_key_index(s, k))
    } else {
        s
    }
}

/// What a `Merge` does to the records once the operator has produced `r`:
/// an answer upserts, no answer deletes the record (or leaves an absent key
/// absent).
pub open spec fn v_merge(
    s: Seq<(Seq<u8>, Seq<u8>)>,
    k: Seq<u8>,
    r: Option<Seq<u8>>,
) -> Seq<(Seq<u8>, Seq<u8>)> {
    if v_has_key(s, k) {
        match r {
            Some(w) => s.update(v_key_index(s, k), (k, w)),
            None => s.remove(v_key_index(s, k)),
        }
    } else {
        match r {
            Some(w) => s.insert(v_count_lt(s, k), (k, w)),
            None => s,
        }
    }
}

/// A bracket `j` (everything before sorts below `k`, everything from `j`
/// on sorts above) pins `v_count_lt` to `j`.
pub proof fn lemma_v_count_lt_bracket(s: Seq<(Seq<u8>, Seq<u8>)>, k: Seq<u8>, j: int)
    requires
        0 <= j <= s.len(),
        forall|i: int| 0 <= i < j ==> pcmp((#[trigger] s[i]).0, k) < 0,
        forall|i: int| j <= i < s.len() ==> pcmp((#[trigger] s[i]).0, k) > 0,
    ensures
        v_count_lt(s, k) == j,
    decreases s.len(),
{
    if s.len() > 0 {
        assert forall|i: int| 0 <= i < s.skip(1).len() implies s.skip(1)[i] == s[i + 1] by {}
        if j > 0 {
            lemma_v_count_lt_bracket(s.skip(1), k, j - 1);
        } else {
            lemma_v_count_lt_bracket(s.skip(1), k, 0);
        }
    }
}

/// In a list whose keys are strictly sorted, an exact match is unique.
pub proof fn lemma_v_key_index_unique(s: Seq<(Seq<u8>, Seq<u8>)>, k: Seq<u8>, i: int)
    requires
        forall|a: int, b: int| 0 <= a < b < s.len() ==> pcmp((#[trigger] s[a]).0, (#[trigger] s[b]).0) < 0,
        0 <= i < s.len(),
        s[i].0 == k,
    ensures
        v_has_key(s, k),
        v_key_index(s, k) == i,
{
    assert(v_has_key(s, k));
    let j = v_key_index(s, k);
    if i != j {
        lemma_pcmp_eq(s[i].0, s[j].0);
        if i < j {
            assert(pcmp(s[i].0, s[j].0) < 0);
        } else {
            assert(pcmp(s[j].0, s[i].0) < 0);
        }
    }
}

/// The view of an optional stored value.
pub open spec fn opt_value_view(o: Option<Value>) -> Option<Seq<u8>> {
    match o {
        Some(v) => Some(v@),
        None => None,
    }
}

/// The merge operator, called on the decoded key `k`, the stored value
/// `old_v` (if any) and the incoming value `new_v`, can answer `r`: some
/// call of `f` on values with exactly these views has `r` among its
/// admissible results.
pub open spec fn merge_op_result<F: Fn(Key, Option<Value>, Value) -> Option<Value>>(
    f: F,
    k: Seq<u8>,
    old_v: Option<Seq<u8>>,
    new_v: Seq<u8>,
    r: Option<Seq<u8>>,
) -> bool {
    exists|kk: Key, ov: Option<Value>, nv: Value, rr: Option<Value>|
        kk@ == k && opt_value_view(ov) == old_v && nv@ == new_v && opt_value_view(rr) == r
            && #[trigger] call_ensures(f, (kk, ov, nv), rr)
}

/// Truncate the left page after a split: discard every entry at or above
/// the cut, shorten the range, and point sideways at the new right sibling.
#[derive(Clone, Debug)]
pub struct ChildSplit {
    pub at: Bound,
    pub to: PageID,
}

/// Link the new right sibling from the parent index page: insert the
/// separator/child pointer `(at, to)`.
#[derive(Clone, Debug)]
pub struct ParentSplit {
    pub at: Bound,
    pub to: PageID,
}

/// One immutable log entry describing a single mutation to be replayed
/// onto a materialized page.
#[derive(Clone, Debug)]
pub enum Frag {
    Put(Key, Value),
    Merge(Key, Value),
    Del(Key),
    Base(Node),
    ChildSplit(ChildSplit),
    ParentSplit(ParentSplit),
}

/// The caller obligations under which replaying a fragment preserves the
/// page's data-model invariant: record keys must be properly encoded
/// against the page's low boundary and decode to a key at or above `lo`
/// (the upper end is checked at replay time), and a separator must lie in
/// the parent page's range.
pub open spec fn frag_compatible(frag: &Frag, n: Node) -> bool {
    match frag {
        Frag::Put(k, _) => properly_encoded(k@, n.lo_key()) && n.lo.admits_as_lo(
            decode_spec(n.lo_key(), k@),
        ),
        Frag::Merge(k, _) => properly_encoded(k@, n.lo_key()) && n.lo.admits_as_lo(
            decode_spec(n.lo_key(), k@),
        ),
        Frag::Del(_) => true,
        Frag::ChildSplit(_) => true,
        Frag::ParentSplit(ps) => lex_leq(n.lo_key(), ps.at.inner_view()) && n.lo.admits_as_lo(
            ps.at.inner_view(),
        ) && n.hi.admits_as_hi(ps.at.inner_view()),
        Frag::Base(_) => true,
    }
}

/// A materialized page: identity, payload, the half-open key range
/// `[lo, hi)` it is responsible for, and the side pointer `next` that is
/// non-empty only while a split is mid-flight.
#[derive(Clone, Debug)]
pub struct Node {
    pub id: PageID,
    pub data: Data,
    pub next: Option<PageID>,
    pub lo: Bound,
    pub hi: Bound,
}

impl Node {
    /// The boundary that this page's entry keys are encoded against.
    pub open spec fn lo_key(&self) -> Seq<u8> {
        self.lo.inner_view()
    }

    /// The full key of entry `i`, decoded against the page's low boundary.
    pub open spec fn decoded_key_at(&self, i: int) -> Seq<u8> {
        decode_spec(self.lo_key(), self.data.key_at(i))
    }

    /// The page's entry keys are strictly sorted and properly encoded
    /// against its own low boundary.
    pub open spec fn inv_sorted(&self) -> bool {
        self.data.wf_encoded(self.lo_key())
    }

    /// Every entry's decoded key lies in the page's range `[lo, hi)`.
    pub open spec fn inv_range(&self) -> bool {
        forall|i: int|
            0 <= i < self.data.spec_len() ==> self.hi.admits_as_hi(#[trigger] self.decoded_key_at(i))
                && self.lo.admits_as_lo(self.decoded_key_at(i))
    }

    /// The page's data-model invariant.
    pub open spec fn wf(&self) -> bool {
        self.inv_sorted() && self.inv_range()
    }

    /// The leaf records over plain byte sequences.
    pub open spec fn leaf_records(&self) -> Seq<(Seq<u8>, Seq<u8>)> {
        leaf_view(self.data.leaf_entries())
    }

    /// Decode an encoded key against this page's low boundary.
    fn prefix_decode_key(&self, key: &[u8]) -> (r: Vec<u8>)
        requires
            encoded_wf(key@, self.lo_key()),
        ensures
            r@ == decode_spec(self.lo_key(), key@),
    {
        let lo = self.lo.inner();
        prefix_decode(lo, key)
    }

    /// Upsert a record into a leaf page: replace the value when the key is
    /// present, insert at the sorted position when it is absent. On an
    /// index page this is an invariant violation and the page is untouched.
    pub fn set_leaf(&mut self, key: Key, val: Value) -> (r: Result<(), PageError>)
        requires
            old(self).inv_sorted(),
        ensures
            final(self).id == old(self).id,
            final(self).next == old(self).next,
            final(self).lo == old(self).lo,
            final(self).hi == old(self).hi,
            final(self).data.is_leaf() == old(self).data.is_leaf(),
            match r {
                Err(e) => e == PageError::ConsolidationInvariant && !old(self).data.is_leaf()
                    && *final(self) == *old(self),
                Ok(u) => old(self).data.is_leaf() && final(self).leaf_records() == v_upsert(
                    old(self).leaf_records(),
                    key@,
                    val@,
                ),
            },
            r is Ok && properly_encoded(key@, old(self).lo_key()) ==> final(self).inv_sorted(),
            r is Ok && old(self).wf() && properly_encoded(key@, old(self).lo_key())
                && old(self).lo.admits_as_lo(decode_spec(old(self).lo_key(), key@))
                && old(self).hi.admits_as_hi(decode_spec(old(self).lo_key(), key@)) ==> final(self).wf(),
    {
        let ghost old_node = *old(self);
        let ghost s0 = old(self).data.leaf_entries();
        let ghost mut was_update: bool = false;
        let ghost mut pos: int = 0;
        match &mut self.data {
            Data::Leaf(records) => {
                let sr = search_entries(records, key.as_slice());
                match sr {
                    Ok(idx) => {
                        records.remove(idx);
                        records.insert(idx, (key, val));
                        proof {
                            was_update = true;
                            pos = idx as int;
                        }
                    },
                    Err(j) => {
                        records.insert(j, (key, val));
                        proof {
                            pos = j as int;
                        }
                    },
                }
            },
            Data::Index(_) => {
                return Err(PageError::ConsolidationInvariant);
            },
        }
        proof {
            if was_update {
                assert(self.data.leaf_entries() =~= s0.update(pos, (key, val)));
                lemma_set_update_post(old_node, *self, s0, key, val, pos);
            } else {
                lemma_set_insert_post(old_node, *self, s0, key, val, pos);
            }
        }
        Ok(())
    }

    /// Combine an incoming value with the stored one through the caller's
    /// merge operator: the operator sees the decoded key, the stored value
    /// if any, and the incoming value; an answer is upserted, no answer
    /// deletes the record. On an index page this is an invariant violation
    /// and the page is untouched.
    pub fn merge_leaf<F: Fn(Key, Option<Value>, Value) -> Option<Value>>(
        &mut self,
        key: Key,
        val: Value,
        merge_fn: &F,
    ) -> (r: Result<(), PageError>)
        requires
            old(self).inv_sorted(),
            encoded_wf(key@, old(self).lo_key()),
            forall|kk: Key, ov: Option<Value>, nv: Value|
                kk@ == decode_spec(old(self).lo_key(), key@) && nv@ == val@
                    ==> #[trigger] call_requires(*merge_fn, (kk, ov, nv)),
        ensures
            final(self).id == old(self).id,
            final(self).next == old(self).next,
            final(self).lo == old(self).lo,
            final(self).hi == old(self).hi,
            final(self).data.is_leaf() == old(self).data.is_leaf(),
            match r {
                Err(e) => e == PageError::ConsolidationInvariant && !old(self).data.is_leaf()
                    && *final(self) == *old(self),
                Ok(u) => old(self).data.is_leaf() && exists|res: Option<Seq<u8>>|
                    merge_op_result(
                        *merge_fn,
                        decode_spec(old(self).lo_key(), key@),
                        v_lookup(old(self).leaf_records(), key@),
                        val@,
                        res,
                    ) && final(self).leaf_records() == v_merge(
                        old(self).leaf_records(),
                        key@,
                        res,
                    ),
            },
            r is Ok && properly_encoded(key@, old(self).lo_key()) ==> final(self).inv_sorted(),
            r is Ok && old(self).wf() && properly_encoded(key@, old(self).lo_key())
                && old(self).lo.admits_as_lo(decode_spec(old(self).lo_key(), key@))
                && old(self).hi.admits_as_hi(decode_spec(old(self).lo_key(), key@)) ==> final(self).wf(),
    {
        let ghost old_node = *old(self);
        let ghost s0 = old(self).data.leaf_entries();
        let dk = self.prefix_decode_key(key.as_slice());
        let ghost g_dk: Key = dk;
        let ghost mut g_old: Option<Value> = None;
        let ghost g_val: Value = val;
        let ghost mut g_res: Option<Value> = None;
        // 0: replace, 1: remove, 2: insert, 3: untouched
        let ghost mut case: int = 0;
        let ghost mut stored: (Key, Value) = (key, val);
        let ghost mut pos: int = 0;
        match &mut self.data {
            Data::Leaf(records) => {
                let sr = search_entries(records, key.as_slice());
                match sr {
                    Ok(idx) => {
                        let old_v = clone_bytes(records[idx].1.as_slice());
                        proof {
                            g_old = Some(old_v);
                            pos = idx as int;
                        }
                        let res = (*merge_fn)(dk, Some(old_v), val);
                        proof {
                            g_res = res;
                        }
                        match res {
                            Some(w) => {
                                proof {
                                    case = 0;
                                    stored = (key, w);
                                }
                                records.remove(idx);
                                records.insert(idx, (key, w));
                            },
                            None => {
                                proof {
                                    case = 1;
                                }
                                records.remove(idx);
                            },
                        }
                    },
                    Err(j) => {
                        proof {
                            g_old = None;
                            pos = j as int;
                        }
                        let res = (*merge_fn)(dk, None, val);
                        proof {
                            g_res = res;
                        }
                        match res {
                            Some(w) => {
                                proof {
                                    case = 2;
                                    stored = (key, w);
                                }
                                records.insert(j, (key, w));
                            },
                            None => {
                                proof {
                                    case = 3;
                                    assert forall|i: int|
                                        0 <= i < leaf_view(s0).len() implies (#[trigger] leaf_view(
                                        s0,
                                    )[i]).0 != key@ by {
                                        assert(leaf_view(s0)[i].0 == s0[i].0@);
                                        if s0[i].0@ == key@ {
                                            assert(has_key(s0, key@));
                                        }
                                    }
                                    assert(!v_has_key(leaf_view(s0), key@));
                                }
                            },
                        }
                    },
                }
            },
            Data::Index(_) => {
                return Err(PageError::ConsolidationInvariant);
            },
        }
        proof {
            let rv = opt_value_view(g_res);
            assert(call_ensures(*merge_fn, (g_dk, g_old, g_val), g_res));
            // Tie the looked-up old value to the spec-level lookup.
            let v0 = leaf_view(s0);
            assert forall|a: int, b: int| 0 <= a < b < v0.len() implies pcmp(
                (#[trigger] v0[a]).0,
                (#[trigger] v0[b]).0,
            ) < 0 by {
                assert(pcmp(s0[a].0@, s0[b].0@) < 0);
            }
            if case == 0 || case == 1 {
                assert(v0[pos].0 == s0[pos].0@);
                lemma_v_key_index_unique(v0, key@, pos);
                assert(v_lookup(v0, key@) == Some(s0[pos].1@));
                assert(opt_value_view(g_old) == v_lookup(old_node.leaf_records(), key@));
            } else {
                assert(opt_value_view(g_old) == v_lookup(old_node.leaf_records(), key@));
            }
            assert(merge_op_result(
                *merge_fn,
                decode_spec(old_node.lo_key(), key@),
                v_lookup(old_node.leaf_records(), key@),
                val@,
                rv,
            ));
            if case == 0 {
                assert(self.data.leaf_entries() =~= s0.update(pos, stored));
                lemma_set_update_post(old_node, *self, s0, stored.0, stored.1, pos);
                assert(rv == Some(stored.1@));
                assert(self.leaf_records() == v_merge(old_node.leaf_records(), key@, rv));
            } else if case == 1 {
                lemma_del_post(old_node, *self, s0, key@, pos);
                assert(rv == Option::<Seq<u8>>::None);
                assert(self.leaf_records() == v_merge(old_node.leaf_records(), key@, rv));
            } else if case == 2 {
                lemma_set_insert_post(old_node, *self, s0, stored.0, stored.1, pos);
                assert(rv == Some(stored.1@));
                assert(self.leaf_records() == v_merge(old_node.leaf_records(), key@, rv));
            } else {
                assert(*self == old_node);
                assert(rv == Option::<Seq<u8>>::None);
                assert(!v_has_key(old_node.leaf_records(), key@));
                assert(self.leaf_records() == v_merge(old_node.leaf_records(), key@, rv));
            }
            assert(merge_op_result(
                *merge_fn,
                decode_spec(old_node.lo_key(), key@),
                v_lookup(old_node.leaf_records(), key@),
                val@,
                rv,
            ) && self.leaf_records() == v_merge(old_node.leaf_records(), key@, rv));
        }
        Ok(())
    }

    /// Remove a record from a leaf page; absent keys are a no-op. On an
    /// index page this is an invariant violation and the page is untouched.
    pub fn del_leaf(&mut self, key: &[u8]) -> (r: Result<(), PageError>)
        requires
            old(self).inv_sorted(),
        ensures
            final(self).id == old(self).id,
            final(self).next == old(self).next,
            final(self).lo == old(self).lo,
            final(self).hi == old(self).hi,
            final(self).data.is_leaf() == old(self).data.is_leaf(),
            match r {
                Err(e) => e == PageError::ConsolidationInvariant && !old(self).data.is_leaf()
                    && *final(self) == *old(self),
                Ok(u) => old(self).data.is_leaf() && final(self).leaf_records() == v_del(
                    old(self).leaf_records(),
                    key@,
                ),
            },
            r is Ok ==> final(self).inv_sorted(),
            r is Ok && old(self).wf() ==> final(self).wf(),
    {
        let ghost old_node = *old(self);
        let ghost s0 = old(self).data.leaf_entries();
        let ghost mut found: bool = false;
        let ghost mut pos: int = 0;
        match &mut self.data {
            Data::Leaf(records) => {
                let sr = search_entries(records, key);
                match sr {
                    Ok(idx) => {
                        records.remove(idx);
                        proof {
                            found = true;
                            pos = idx as int;
                        }
                    },
                    Err(_) => {
                        proof {
                            assert forall|i: int|
                                0 <= i < leaf_view(s0).len() implies (#[trigger] leaf_view(
                                s0,
                            )[i]).0 != key@ by {
                                assert(leaf_view(s0)[i].0 == s0[i].0@);
                                if s0[i].0@ == key@ {
                                    assert(has_key(s0, key@));
                                }
                            }
                            assert(!v_has_key(leaf_view(s0), key@));
                        }
                    },
                }
            },
            Data::Index(_) => {
                return Err(PageError::ConsolidationInvariant);
            },
        }
        proof {
            if found {
                lemma_del_post(old_node, *self, s0, key@, pos);
            } else {
                assert(*self == old_node);
                assert(self.leaf_records() == v_del(old_node.leaf_records(), key@));
            }
        }
        Ok(())
    }

    /// Replay a `ChildSplit`: discard every entry at or above the cut,
    /// truncate the range to end (exclusively) at the cut, and remember the
    /// new right sibling in the side pointer. Always valid on either
    /// payload variant; a reader that has not yet seen the parent update
    /// can still reach the moved keys through `next`.
    pub fn child_split(&mut self, cs: &ChildSplit)
        requires
            old(self).inv_sorted(),
        ensures
            final(self).id == old(self).id,
            final(self).lo == old(self).lo,
            final(self).next == Some(cs.to),
            !final(self).hi.is_inclusive(),
            final(self).hi.inner_view() == cs.at.inner_view(),
            final(self).data.is_leaf() == old(self).data.is_leaf(),
            final(self).data.leaf_entries() == keep_lt(
                old(self).data.leaf_entries(),
                old(self).lo_key(),
                cs.at.inner_view(),
            ),
            final(self).data.index_entries() == keep_lt(
                old(self).data.index_entries(),
                old(self).lo_key(),
                cs.at.inner_view(),
            ),
            final(self).inv_sorted(),
            old(self).wf() ==> final(self).wf(),
    {
        let ghost old_node = *old(self);
        let lo_bytes = clone_bytes(self.lo.inner());
        proof {
            assert forall|i: int| 0 <= i < self.data.spec_len() implies encoded_wf(
                #[trigger] self.data.key_at(i),
                lo_bytes@,
            ) by {
                if self.data.is_leaf() {
                    assert(self.data.key_at(i) == self.data.leaf_entries()[i].0@);
                    assert(properly_encoded(self.data.leaf_entries()[i].0@, old_node.lo_key()));
                } else {
                    assert(self.data.key_at(i) == self.data.index_entries()[i].0@);
                    assert(properly_encoded(self.data.index_entries()[i].0@, old_node.lo_key()));
                }
            }
        }
        self.data.drop_gte(&cs.at, lo_bytes.as_slice());
        self.hi = Bound::Exclusive(clone_bytes(cs.at.inner()));
        self.next = Some(cs.to);
        proof {
            let p = old_node.lo_key();
            let b = cs.at.inner_view();
            if old_node.data.is_leaf() {
                lemma_keep_lt_sorted(old_node.data.leaf_entries(), p, b);
                lemma_keep_lt_props(old_node.data.leaf_entries(), p, b);
            } else {
                lemma_keep_lt_sorted(old_node.data.index_entries(), p, b);
                lemma_keep_lt_props(old_node.data.index_entries(), p, b);
            }
            assert(self.inv_sorted());
            if old_node.wf() {
                assert forall|i: int| 0 <= i < self.data.spec_len() implies self.hi.admits_as_hi(
                    #[trigger] self.decoded_key_at(i),
                ) && self.lo.admits_as_lo(self.decoded_key_at(i)) by {
                    if old_node.data.is_leaf() {
                        let s = old_node.data.leaf_entries();
                        let r = keep_lt(s, p, b);
                        assert(self.data.key_at(i) == r[i].0@);
                        assert(lex_cmp(decode_spec(p, r[i].0@), b) < 0 && s.contains(r[i]));
                        let m = choose|m: int| 0 <= m < s.len() && s[m] == r[i];
                        assert(old_node.data.key_at(m) == s[m].0@);
                        assert(old_node.lo.admits_as_lo(old_node.decoded_key_at(m)));
                    } else {
                        let s = old_node.data.index_entries();
                        let r = keep_lt(s, p, b);
                        assert(self.data.key_at(i) == r[i].0@);
                        assert(lex_cmp(decode_spec(p, r[i].0@), b) < 0 && s.contains(r[i]));
                        let m = choose|m: int| 0 <= m < s.len() && s[m] == r[i];
                        assert(old_node.data.key_at(m) == s[m].0@);
                        assert(old_node.lo.admits_as_lo(old_node.decoded_key_at(m)));
                    }
                }
            }
        }
    }

    /// Replay a `ParentSplit` on an index page: encode the separator
    /// against this page's low boundary and insert the separator/child
    /// pointer. On a leaf this is an invariant violation and the page is
    /// untouched. Duplicate separators are a caller error, stated as the
    /// precondition that the encoded separator be absent.
    pub fn parent_split(&mut self, ps: &ParentSplit) -> (r: Result<(), PageError>)
        requires
            old(self).inv_sorted(),
            !has_key(
                old(self).data.index_entries(),
                encode_spec(old(self).lo_key(), ps.at.inner_view()),
            ),
        ensures
            final(self).id == old(self).id,
            final(self).next == old(self).next,
            final(self).lo == old(self).lo,
            final(self).hi == old(self).hi,
            final(self).data.is_leaf() == old(self).data.is_leaf(),
            match r {
                Err(e) => e == PageError::ConsolidationInvariant && old(self).data.is_leaf()
                    && *final(self) == *old(self),
                Ok(u) => {
                    let es = encode_spec(old(self).lo_key(), ps.at.inner_view());
                    let s0 = old(self).data.index_entries();
                    let j = crate::data::count_lt(s0, es);
                    let s1 = final(self).data.index_entries();
                    &&& !old(self).data.is_leaf()
                    &&& s1.len() == s0.len() + 1
                    &&& 0 <= j <= s0.len()
                    &&& s1[j].0@ == es && s1[j].1 == ps.to
                    &&& forall|i: int| 0 <= i < j ==> #[trigger] s1[i] == s0[i]
                    &&& forall|i: int| j < i < s1.len() ==> #[trigger] s1[i] == s0[i - 1]
                },
            },
            r is Ok && lex_leq(old(self).lo_key(), ps.at.inner_view()) ==> final(self).inv_sorted(),
            r is Ok && old(self).wf() && lex_leq(old(self).lo_key(), ps.at.inner_view())
                && old(self).lo.admits_as_lo(ps.at.inner_view()) && old(self).hi.admits_as_hi(
                ps.at.inner_view(),
            ) ==> final(self).wf(),
    {
        let ghost old_node = *old(self);
        let lo_bytes = clone_bytes(self.lo.inner());
        let es = prefix_encode(lo_bytes.as_slice(), ps.at.inner());
        let ghost g_pair: (Key, PageID) = (es, ps.to);
        match &mut self.data {
            Data::Index(ptrs) => {
                ptrs.push_and_sort((es, ps.to));
            },
            Data::Leaf(_) => {
                return Err(PageError::ConsolidationInvariant);
            },
        }
        proof {
            let s0 = old_node.data.index_entries();
            let esv = encode_spec(old_node.lo_key(), ps.at.inner_view());
            let j = crate::data::count_lt(s0, esv);
            crate::data::lemma_count_lt_bounds(s0, esv);
            assert(self.data.index_entries() == s0.insert(j, g_pair));
            assert forall|i: int| 0 <= i < j implies #[trigger] self.data.index_entries()[i]
                == s0[i] by {
                assert(s0.insert(j, g_pair)[i] == s0[i]);
            }
            if lex_leq(old_node.lo_key(), ps.at.inner_view()) {
                lemma_encode_properly(old_node.lo_key(), ps.at.inner_view());
                let s1 = self.data.index_entries();
                assert forall|i: int| 0 <= i < s1.len() implies properly_encoded(
                    (#[trigger] s1[i]).0@,
                    old_node.lo_key(),
                ) by {
                    if i < j {
                        assert(s1[i] == s0[i]);
                        assert(properly_encoded(s0[i].0@, old_node.lo_key()));
                    } else if i == j {
                        assert(s1[i].0@ == esv);
                    } else {
                        assert(s1[i] == s0[i - 1]);
                        assert(properly_encoded(s0[i - 1].0@, old_node.lo_key()));
                    }
                }
                assert(self.inv_sorted());
                if old_node.wf() && old_node.lo.admits_as_lo(ps.at.inner_view())
                    && old_node.hi.admits_as_hi(ps.at.inner_view()) {
                    lemma_decode_encode(old_node.lo_key(), ps.at.inner_view());
                    assert forall|i: int|
                        0 <= i < self.data.spec_len() implies self.hi.admits_as_hi(
                        #[trigger] self.decoded_key_at(i),
                    ) && self.lo.admits_as_lo(self.decoded_key_at(i)) by {
                        assert(self.data.key_at(i) == s1[i].0@);
                        if i < j {
                            assert(s1[i] == s0[i]);
                            assert(old_node.data.key_at(i) == s0[i].0@);
                            assert(old_node.hi.admits_as_hi(old_node.decoded_key_at(i)));
                        } else if i == j {
                            assert(self.decoded_key_at(i) == ps.at.inner_view());
                        } else {
                            assert(s1[i] == s0[i - 1]);
                            assert(old_node.data.key_at(i - 1) == s0[i - 1].0@);
                            assert(old_node.hi.admits_as_hi(old_node.decoded_key_at(i - 1)));
                        }
                    }
                }
            }
        }
        Ok(())
    }

    /// Whether the page has outgrown the caller's fanout threshold.
    pub fn should_split(&self, fanout: u8) -> (r: bool)
        ensures
            r == (self.data.spec_len() > fanout as int),
    {
        self.data.len() > fanout as usize
    }

    /// Compute the new right sibling: the larger half of this page's
    /// entries re-encoded against the split key, owning `[split key, hi)`
    /// and inheriting the side pointer. This page is not touched; the
    /// caller must afterwards replay a `ChildSplit` here and a
    /// `ParentSplit` on the parent, in that order, which is what keeps
    /// concurrent readers correct in between.
    pub fn split(&self, id: PageID) -> (r: Result<Node, PageError>)
        requires
            self.inv_sorted(),
        ensures
            match r {
                Err(e) => e == PageError::SplitOnUndersizedPage && self.data.spec_len() < 2,
                Ok(rn) => {
                    &&& self.data.spec_len() >= 2
                    &&& rn.id == id
                    &&& rn.next == self.next
                    &&& rn.hi.inner_view() == self.hi.inner_view()
                    &&& rn.hi.is_inclusive() == self.hi.is_inclusive()
                    &&& rn.lo.is_inclusive()
                    &&& rn.lo_key() == decode_spec(
                        self.lo_key(),
                        self.data.key_at(self.data.spec_len() / 2),
                    )
                    &&& rn.data.is_leaf() == self.data.is_leaf()
                    &&& self.data.is_leaf() ==> split_post(
                        self.data.leaf_entries(),
                        self.lo_key(),
                        rn.lo_key(),
                        rn.data.leaf_entries(),
                    ) && (forall|i: int|
                        0 <= i < rn.data.leaf_entries().len()
                            ==> (#[trigger] rn.data.leaf_entries()[i]).1@
                            == self.data.leaf_entries()[self.data.spec_len() / 2 + i].1@)
                    &&& !self.data.is_leaf() ==> split_post(
                        self.data.index_entries(),
                        self.lo_key(),
                        rn.lo_key(),
                        rn.data.index_entries(),
                    ) && (forall|i: int|
                        0 <= i < rn.data.index_entries().len()
                            ==> (#[trigger] rn.data.index_entries()[i]).1
                            == self.data.index_entries()[self.data.spec_len() / 2 + i].1)
                    &&& rn.inv_sorted()
                    &&& self.wf() ==> rn.wf()
                },
            },
    {
        let lo_bytes = self.lo.inner();
        match self.data.split(lo_bytes) {
            Err(e) => Err(e),
            Ok((sk, rd)) => {
                let rn = Node {
                    id,
                    data: rd,
                    next: self.next,
                    lo: Bound::Inclusive(sk),
                    hi: self.hi.duplicate(),
                };
                proof {
                    lemma_node_split_wf(*self, rn);
                }
                Ok(rn)
            },
        }
    }

    /// Replay one fragment onto this page: the transition function of the
    /// consolidation state machine. A violation of a fragment's
    /// precondition reports the invariant failure and leaves the page
    /// untouched; it is never silently absorbed.
    pub fn apply<F: Fn(Key, Option<Value>, Value) -> Option<Value>>(
        &mut self,
        frag: &Frag,
        merge_operator: Option<&F>,
    ) -> (r: Result<(), PageError>)
        requires
            old(self).inv_sorted(),
            match frag {
                Frag::Put(k, _) => encoded_wf(k@, old(self).lo_key()),
                Frag::Merge(k, _) => encoded_wf(k@, old(self).lo_key()),
                Frag::Del(k) => encoded_wf(k@, old(self).lo_key()),
                Frag::ParentSplit(ps) => !has_key(
                    old(self).data.index_entries(),
                    encode_spec(old(self).lo_key(), ps.at.inner_view()),
                ),
                _ => true,
            },
            match (frag, merge_operator) {
                (Frag::Merge(k, v), Some(f)) => forall|kk: Key, ov: Option<Value>, nv: Value|
                    kk@ == decode_spec(old(self).lo_key(), k@) && nv@ == v@
                        ==> #[trigger] call_requires(*f, (kk, ov, nv)),
                _ => true,
            },
        ensures
            final(self).id == old(self).id,
            final(self).lo == old(self).lo,
            r is Err ==> *final(self) == *old(self),
            match frag {
                Frag::Put(k, v) => {
                    let dk = decode_spec(old(self).lo_key(), k@);
                    if !old(self).hi.admits_as_hi(dk) || !old(self).data.is_leaf() {
                        r matches Err(e) && e == PageError::ConsolidationInvariant
                    } else {
                        &&& r is Ok
                        &&& final(self).data.is_leaf()
                        &&& final(self).leaf_records() == v_upsert(
                            old(self).leaf_records(),
                            k@,
                            v@,
                        )
                        &&& final(self).hi == old(self).hi
                        &&& final(self).next == old(self).next
                    }
                },
                Frag::Merge(k, v) => {
                    let dk = decode_spec(old(self).lo_key(), k@);
                    if !old(self).hi.admits_as_hi(dk) {
                        r matches Err(e) && e == PageError::ConsolidationInvariant
                    } else if merge_operator is None {
                        r matches Err(e) && e == PageError::MissingMergeOperator
                    } else if !old(self).data.is_leaf() {
                        r matches Err(e) && e == PageError::ConsolidationInvariant
                    } else {
                        &&& r is Ok
                        &&& final(self).data.is_leaf()
                        &&& merge_operator matches Some(f) && exists|res: Option<Seq<u8>>|
                            merge_op_result(
                                *f,
                                dk,
                                v_lookup(old(self).leaf_records(), k@),
                                v@,
                                res,
                            ) && final(self).leaf_records() == v_merge(
                                old(self).leaf_records(),
                                k@,
                                res,
                            )
                        &&& final(self).hi == old(self).hi
                        &&& final(self).next == old(self).next
                    }
                },
                Frag::Del(k) => {
                    let dk = decode_spec(old(self).lo_key(), k@);
                    if !old(self).hi.admits_as_hi(dk) || !old(self).data.is_leaf() {
                        r matches Err(e) && e == PageError::ConsolidationInvariant
                    } else {
                        &&& r is Ok
                        &&& final(self).data.is_leaf()
                        &&& final(self).leaf_records() == v_del(old(self).leaf_records(), k@)
                        &&& final(self).hi == old(self).hi
                        &&& final(self).next == old(self).next
                    }
                },
                Frag::ChildSplit(cs) => {
                    &&& r is Ok
                    &&& final(self).next == Some(cs.to)
                    &&& !final(self).hi.is_inclusive()
                    &&& final(self).hi.inner_view() == cs.at.inner_view()
                    &&& final(self).data.is_leaf() == old(self).data.is_leaf()
                    &&& final(self).data.leaf_entries() == keep_lt(
                        old(self).data.leaf_entries(),
                        old(self).lo_key(),
                        cs.at.inner_view(),
                    )
                    &&& final(self).data.index_entries() == keep_lt(
                        old(self).data.index_entries(),
                        old(self).lo_key(),
                        cs.at.inner_view(),
                    )
                    &&& final(self).inv_sorted()
                },
                Frag::ParentSplit(ps) => {
                    if old(self).data.is_leaf() {
                        r matches Err(e) && e == PageError::ConsolidationInvariant
                    } else {
                        let es = encode_spec(old(self).lo_key(), ps.at.inner_view());
                        let s0 = old(self).data.index_entries();
                        let j = crate::data::count_lt(s0, es);
                        let s1 = final(self).data.index_entries();
                        &&& r is Ok
                        &&& !final(self).data.is_leaf()
                        &&& s1.len() == s0.len() + 1
                        &&& 0 <= j <= s0.len()
                        &&& s1[j].0@ == es && s1[j].1 == ps.to
                        &&& forall|i: int| 0 <= i < j ==> #[trigger] s1[i] == s0[i]
                        &&& forall|i: int| j < i < s1.len() ==> #[trigger] s1[i] == s0[i - 1]
                        &&& final(self).hi == old(self).hi
                        &&& final(self).next == old(self).next
                    }
                },
                Frag::Base(_) => r matches Err(e) && e == PageError::UnexpectedBaseFragment,
            },
            old(self).wf() && frag_compatible(frag, *old(self)) && r is Ok ==> final(self).wf(),
    {
        match frag {
            Frag::Put(k, v) => {
                let dk = self.prefix_decode_key(k.as_slice());
                if key_below_bound(dk.as_slice(), &self.hi) {
                    let kk = clone_bytes(k.as_slice());
                    let vv = clone_bytes(v.as_slice());
                    self.set_leaf(kk, vv)
                } else {
                    Err(PageError::ConsolidationInvariant)
                }
            },
            Frag::Merge(k, v) => {
                let dk = self.prefix_decode_key(k.as_slice());
                if key_below_bound(dk.as_slice(), &self.hi) {
                    match merge_operator {
                        Some(f) => {
                            let kk = clone_bytes(k.as_slice());
                            let vv = clone_bytes(v.as_slice());
                            self.merge_leaf(kk, vv, f)
                        },
                        None => Err(PageError::MissingMergeOperator),
                    }
                } else {
                    Err(PageError::ConsolidationInvariant)
                }
            },
            Frag::Del(k) => {
                let dk = self.prefix_decode_key(k.as_slice());
                if key_below_bound(dk.as_slice(), &self.hi) {
                    self.del_leaf(k.as_slice())
                } else {
                    Err(PageError::ConsolidationInvariant)
                }
            },
            Frag::ChildSplit(cs) => {
                self.child_split(cs);
                Ok(())
            },
            Frag::ParentSplit(ps) => self.parent_split(ps),
            Frag::Base(_) => Err(PageError::UnexpectedBaseFragment),
        }
    }
}

/// After replacing the value at an exact match, the records are the
/// view-level upsert of the old records, and the invariants carry over.
proof fn lemma_set_update_post(
    old_node: Node,
    new_node: Node,
    s0: Seq<(Key, Value)>,
    key: Key,
    val: Value,
    idx: int,
)
    requires
        old_node.data.is_leaf(),
        old_node.data.leaf_entries() == s0,
        old_node.inv_sorted(),
        0 <= idx < s0.len(),
        s0[idx].0@ == key@,
        new_node.data.is_leaf(),
        new_node.data.leaf_entries() == s0.update(idx, (key, val)),
        new_node.id == old_node.id,
        new_node.next == old_node.next,
        new_node.lo == old_node.lo,
        new_node.hi == old_node.hi,
    ensures
        new_node.leaf_records() == v_upsert(old_node.leaf_records(), key@, val@),
        properly_encoded(key@, old_node.lo_key()) ==> new_node.inv_sorted(),
        old_node.wf() && properly_encoded(key@, old_node.lo_key()) && old_node.lo.admits_as_lo(
            decode_spec(old_node.lo_key(), key@),
        ) && old_node.hi.admits_as_hi(decode_spec(old_node.lo_key(), key@)) ==> new_node.wf(),
{
    let v0 = leaf_view(s0);
    let s1 = s0.update(idx, (key, val));
    assert forall|a: int, b: int| 0 <= a < b < v0.len() implies pcmp(
        (#[trigger] v0[a]).0,
        (#[trigger] v0[b]).0,
    ) < 0 by {
        assert(pcmp(s0[a].0@, s0[b].0@) < 0);
    }
    lemma_v_key_index_unique(v0, key@, idx);
    assert(leaf_view(s1) =~= v0.update(idx, (key@, val@)));
    assert(new_node.leaf_records() == v_upsert(old_node.leaf_records(), key@, val@));
    // Sorted and properly encoded: every key view is unchanged.
    assert forall|i: int| 0 <= i < s1.len() implies (#[trigger] s1[i]).0@ == s0[i].0@ by {}
    if properly_encoded(key@, old_node.lo_key()) {
        assert forall|a: int, b: int| 0 <= a < b < s1.len() implies #[trigger] pcmp(
            s1[a].0@,
            s1[b].0@,
        ) < 0 by {
            assert(pcmp(s0[a].0@, s0[b].0@) < 0);
        }
        assert forall|i: int| 0 <= i < s1.len() implies properly_encoded(
            (#[trigger] s1[i]).0@,
            old_node.lo_key(),
        ) by {
            assert(properly_encoded(s0[i].0@, old_node.lo_key()));
        }
        assert(new_node.inv_sorted());
        if old_node.wf() {
            assert forall|i: int| 0 <= i < new_node.data.spec_len() implies new_node.hi.admits_as_hi(
                #[trigger] new_node.decoded_key_at(i),
            ) && new_node.lo.admits_as_lo(new_node.decoded_key_at(i)) by {
                assert(new_node.data.key_at(i) == s1[i].0@);
                assert(old_node.data.key_at(i) == s0[i].0@);
                assert(new_node.decoded_key_at(i) == old_node.decoded_key_at(i));
                assert(old_node.hi.admits_as_hi(old_node.decoded_key_at(i)));
            }
        }
    }
}

/// After inserting at the insertion point, the records are the view-level
/// upsert of the old records, and the invariants carry over.
proof fn lemma_set_insert_post(
    old_node: Node,
    new_node: Node,
    s0: Seq<(Key, Value)>,
    key: Key,
    val: Value,
    j: int,
)
    requires
        old_node.data.is_leaf(),
        old_node.data.leaf_entries() == s0,
        old_node.inv_sorted(),
        0 <= j <= s0.len(),
        forall|i: int| 0 <= i < j ==> #[trigger] pcmp(s0[i].0@, key@) < 0,
        forall|i: int| j <= i < s0.len() ==> #[trigger] pcmp(s0[i].0@, key@) > 0,
        new_node.data.is_leaf(),
        new_node.data.leaf_entries() == s0.insert(j, (key, val)),
        new_node.id == old_node.id,
        new_node.next == old_node.next,
        new_node.lo == old_node.lo,
        new_node.hi == old_node.hi,
    ensures
        new_node.leaf_records() == v_upsert(old_node.leaf_records(), key@, val@),
        properly_encoded(key@, old_node.lo_key()) ==> new_node.inv_sorted(),
        old_node.wf() && properly_encoded(key@, old_node.lo_key()) && old_node.lo.admits_as_lo(
            decode_spec(old_node.lo_key(), key@),
        ) && old_node.hi.admits_as_hi(decode_spec(old_node.lo_key(), key@)) ==> new_node.wf(),
{
    let v0 = leaf_view(s0);
    let s1 = s0.insert(j, (key, val));
    assert forall|i: int| 0 <= i < v0.len() implies (#[trigger] v0[i]).0 != key@ by {
        assert(v0[i].0 == s0[i].0@);
        lemma_pcmp_eq(s0[i].0@, key@);
    }
    assert(!v_has_key(v0, key@));
    assert forall|i: int| 0 <= i < j implies pcmp((#[trigger] v0[i]).0, key@) < 0 by {
        assert(pcmp(s0[i].0@, key@) < 0);
    }
    assert forall|i: int| j <= i < v0.len() implies pcmp((#[trigger] v0[i]).0, key@) > 0 by {
        assert(pcmp(s0[i].0@, key@) > 0);
    }
    lemma_v_count_lt_bracket(v0, key@, j);
    assert(leaf_view(s1) =~= v0.insert(j, (key@, val@)));
    assert(new_node.leaf_records() == v_upsert(old_node.leaf_records(), key@, val@));
    if properly_encoded(key@, old_node.lo_key()) {
        lemma_insert_sorted(s0, (key, val), j);
        assert(sorted_encoded(s1));
        assert forall|i: int| 0 <= i < s1.len() implies properly_encoded(
            (#[trigger] s1[i]).0@,
            old_node.lo_key(),
        ) by {
            if i < j {
                assert(s1[i] == s0[i]);
                assert(properly_encoded(s0[i].0@, old_node.lo_key()));
            } else if i == j {
            } else {
                assert(s1[i] == s0[i - 1]);
                assert(properly_encoded(s0[i - 1].0@, old_node.lo_key()));
            }
        }
        assert(new_node.inv_sorted());
        if old_node.wf() && old_node.lo.admits_as_lo(decode_spec(old_node.lo_key(), key@))
            && old_node.hi.admits_as_hi(decode_spec(old_node.lo_key(), key@)) {
            assert forall|i: int| 0 <= i < new_node.data.spec_len() implies new_node.hi.admits_as_hi(
                #[trigger] new_node.decoded_key_at(i),
            ) && new_node.lo.admits_as_lo(new_node.decoded_key_at(i)) by {
                assert(new_node.data.key_at(i) == s1[i].0@);
                if i < j {
                    assert(s1[i] == s0[i]);
                    assert(old_node.data.key_at(i) == s0[i].0@);
                    assert(old_node.hi.admits_as_hi(old_node.decoded_key_at(i)));
                } else if i == j {
                } else {
                    assert(s1[i] == s0[i - 1]);
                    assert(old_node.data.key_at(i - 1) == s0[i - 1].0@);
                    assert(old_node.hi.admits_as_hi(old_node.decoded_key_at(i - 1)));
                }
            }
        }
    }
}

/// After removing an exact match, the records are the view-level delete of
/// the old records, and the invariants carry over.
proof fn lemma_del_post(
    old_node: Node,
    new_node: Node,
    s0: Seq<(Key, Value)>,
    key: Seq<u8>,
    idx: int,
)
    requires
        old_node.data.is_leaf(),
        old_node.data.leaf_entries() == s0,
        old_node.inv_sorted(),
        0 <= idx < s0.len(),
        s0[idx].0@ == key,
        new_node.data.is_leaf(),
        new_node.data.leaf_entries() == s0.remove(idx),
        new_node.id == old_node.id,
        new_node.next == old_node.next,
        new_node.lo == old_node.lo,
        new_node.hi == old_node.hi,
    ensures
        new_node.leaf_records() == v_del(old_node.leaf_records(), key),
        new_node.inv_sorted(),
        old_node.wf() ==> new_node.wf(),
{
    let v0 = leaf_view(s0);
    let s1 = s0.remove(idx);
    assert forall|a: int, b: int| 0 <= a < b < v0.len() implies pcmp(
        (#[trigger] v0[a]).0,
        (#[trigger] v0[b]).0,
    ) < 0 by {
        assert(pcmp(s0[a].0@, s0[b].0@) < 0);
    }
    lemma_v_key_index_unique(v0, key, idx);
    assert(leaf_view(s1) =~= v0.remove(idx));
    assert(new_node.leaf_records() == v_del(old_node.leaf_records(), key));
    assert forall|a: int, b: int| 0 <= a < b < s1.len() implies #[trigger] pcmp(
        s1[a].0@,
        s1[b].0@,
    ) < 0 by {
        let a0 = if a < idx {
            a
        } else {
            a + 1
        };
        let b0 = if b < idx {
            b
        } else {
            b + 1
        };
        assert(s1[a] == s0[a0]);
        assert(s1[b] == s0[b0]);
        assert(pcmp(s0[a0].0@, s0[b0].0@) < 0);
    }
    assert forall|i: int| 0 <= i < s1.len() implies properly_encoded(
        (#[trigger] s1[i]).0@,
        old_node.lo_key(),
    ) by {
        let i0 = if i < idx {
            i
        } else {
            i + 1
        };
        assert(s1[i] == s0[i0]);
        assert(properly_encoded(s0[i0].0@, old_node.lo_key()));
    }
    assert(new_node.inv_sorted());
    if old_node.wf() {
        assert forall|i: int| 0 <= i < new_node.data.spec_len() implies new_node.hi.admits_as_hi(
            #[trigger] new_node.decoded_key_at(i),
        ) && new_node.lo.admits_as_lo(new_node.decoded_key_at(i)) by {
            let i0 = if i < idx {
                i
            } else {
                i + 1
            };
            assert(new_node.data.key_at(i) == s1[i].0@);
            assert(s1[i] == s0[i0]);
            assert(old_node.data.key_at(i0) == s0[i0].0@);
            assert(old_node.hi.admits_as_hi(old_node.decoded_key_at(i0)));
        }
    }
}


/// The right sibling built by `split` satisfies the sorted invariant, and
/// the full data-model invariant whenever the left page did.
proof fn lemma_node_split_wf(n: Node, rn: Node)
    requires
        n.inv_sorted(),
        n.data.spec_len() >= 2,
        rn.data.is_leaf() == n.data.is_leaf(),
        rn.lo.is_inclusive(),
        rn.hi.inner_view() == n.hi.inner_view(),
        rn.hi.is_inclusive() == n.hi.is_inclusive(),
        n.data.is_leaf() ==> split_post(
            n.data.leaf_entries(),
            n.lo_key(),
            rn.lo_key(),
            rn.data.leaf_entries(),
        ),
        !n.data.is_leaf() ==> split_post(
            n.data.index_entries(),
            n.lo_key(),
            rn.lo_key(),
            rn.data.index_entries(),
        ),
    ensures
        rn.inv_sorted(),
        n.wf() ==> rn.wf(),
{
    let cut = n.data.spec_len() / 2;
    if n.data.is_leaf() {
        let s = n.data.leaf_entries();
        let t = rn.data.leaf_entries();
        assert forall|i: int| 0 <= i < rn.data.spec_len() implies properly_encoded(
            #[trigger] rn.data.key_at(i),
            rn.lo_key(),
        ) by {
            assert(rn.data.key_at(i) == t[i].0@);
            assert(properly_encoded(t[i].0@, rn.lo_key()));
        }
        assert(rn.inv_sorted());
        if n.wf() {
            assert forall|i: int| 0 <= i < rn.data.spec_len() implies rn.hi.admits_as_hi(
                #[trigger] rn.decoded_key_at(i),
            ) && rn.lo.admits_as_lo(rn.decoded_key_at(i)) by {
                assert(rn.decoded_key_at(i) == decode_spec(rn.lo_key(), t[i].0@));
                assert(decode_spec(rn.lo_key(), t[i].0@) == decode_spec(n.lo_key(), s[cut + i].0@));
                assert(n.data.key_at(cut + i) == s[cut + i].0@);
                assert(n.hi.admits_as_hi(n.decoded_key_at(cut + i)));
                // proper encoding against the split key gives the lo side
                assert(properly_encoded(t[i].0@, rn.lo_key()));
            }
        }
    } else {
        let s = n.data.index_entries();
        let t = rn.data.index_entries();
        assert forall|i: int| 0 <= i < rn.data.spec_len() implies properly_encoded(
            #[trigger] rn.data.key_at(i),
            rn.lo_key(),
        ) by {
            assert(rn.data.key_at(i) == t[i].0@);
            assert(properly_encoded(t[i].0@, rn.lo_key()));
        }
        assert(rn.inv_sorted());
        if n.wf() {
            assert forall|i: int| 0 <= i < rn.data.spec_len() implies rn.hi.admits_as_hi(
                #[trigger] rn.decoded_key_at(i),
            ) && rn.lo.admits_as_lo(rn.decoded_key_at(i)) by {
                assert(rn.decoded_key_at(i) == decode_spec(rn.lo_key(), t[i].0@));
                assert(decode_spec(rn.lo_key(), t[i].0@) == decode_spec(n.lo_key(), s[cut + i].0@));
                assert(n.data.key_at(cut + i) == s[cut + i].0@);
                assert(n.hi.admits_as_hi(n.decoded_key_at(cut + i)));
                assert(properly_encoded(t[i].0@, rn.lo_key()));
            }
        }
    }
}


/// `pcmp` only takes the values -1, 0 and 1.
proof fn lemma_pcmp_range(a: Seq<u8>, b: Seq<u8>)
    ensures
        -1 <= pcmp(a, b) <= 1,
{
    if a.len() > 0 && b.len() > 0 && a[0] == b[0] {
        crate::order::lemma_lex_cmp_range(a.skip(1), b.skip(1));
    }
}

/// Mixed transitivity: a key at or below `b` sorts strictly below
/// anything `b` sorts strictly below.
proof fn lemma_pcmp_trans_mixed(a: Seq<u8>, b: Seq<u8>, c: Seq<u8>)
    requires
        pcmp(a, b) <= 0,
        pcmp(b, c) < 0,
    ensures
        pcmp(a, c) < 0,
{
    if pcmp(a, b) == 0 {
        lemma_pcmp_eq(a, b);
    } else {
        crate::prefix::lemma_pcmp_trans(a, b, c);
    }
}

/// In a sorted record list, `v_count_lt` brackets the records: everything
/// before it sorts strictly below `k`, nothing after does.
proof fn lemma_v_count_lt_sorted(s: Seq<(Seq<u8>, Seq<u8>)>, k: Seq<u8>)
    requires
        forall|a: int, b: int|
            0 <= a < b < s.len() ==> pcmp((#[trigger] s[a]).0, (#[trigger] s[b]).0) < 0,
    ensures
        0 <= v_count_lt(s, k) <= s.len(),
        forall|i: int| 0 <= i < v_count_lt(s, k) ==> pcmp((#[trigger] s[i]).0, k) < 0,
        forall|i: int| v_count_lt(s, k) <= i < s.len() ==> pcmp((#[trigger] s[i]).0, k) >= 0,
    decreases s.len(),
{
    if s.len() > 0 {
        let t = s.skip(1);
        assert forall|a: int, b: int| 0 <= a < b < t.len() implies pcmp(
            (#[trigger] t[a]).0,
            (#[trigger] t[b]).0,
        ) < 0 by {
            assert(t[a] == s[a + 1]);
            assert(t[b] == s[b + 1]);
            assert(pcmp(s[a + 1].0, s[b + 1].0) < 0);
        }
        lemma_v_count_lt_sorted(t, k);
        if pcmp(s[0].0, k) < 0 {
            assert forall|i: int| 0 <= i < v_count_lt(s, k) implies pcmp((#[trigger] s[i]).0, k)
                < 0 by {
                if i > 0 {
                    assert(t[i - 1] == s[i]);
                    assert(pcmp(t[i - 1].0, k) < 0);
                }
            }
            assert forall|i: int| v_count_lt(s, k) <= i < s.len() implies pcmp(
                (#[trigger] s[i]).0,
                k,
            ) >= 0 by {
                assert(t[i - 1] == s[i]);
                assert(pcmp(t[i - 1].0, k) >= 0);
            }
        } else {
            // The head already sits at or above k, so nothing sorts below.
            lemma_pcmp_range(s[0].0, k);
            assert forall|i: int| 0 <= i < t.len() implies pcmp((#[trigger] t[i]).0, k) > 0 by {
                assert(t[i] == s[i + 1]);
                assert(pcmp(s[0].0, s[i + 1].0) < 0);
                crate::prefix::lemma_pcmp_antisym(s[0].0, k);
                lemma_pcmp_trans_mixed(k, s[0].0, s[i + 1].0);
                crate::prefix::lemma_pcmp_antisym(k, s[i + 1].0);
            }
            lemma_v_count_lt_bracket(t, k, 0);
            assert(v_count_lt(s, k) == 0);
            assert forall|i: int| 0 <= i < s.len() implies pcmp((#[trigger] s[i]).0, k) >= 0 by {
                if i > 0 {
                    assert(t[i - 1] == s[i]);
                    assert(pcmp(t[i - 1].0, k) > 0);
                }
            }
        }
    }
}

/// Inserting `(k, v)` at the sorted position of an absent key keeps the
/// records sorted, and the key then sits exactly there.
proof fn lemma_v_insert_sorted(s: Seq<(Seq<u8>, Seq<u8>)>, k: Seq<u8>, v: Seq<u8>)
    requires
        forall|a: int, b: int|
            0 <= a < b < s.len() ==> pcmp((#[trigger] s[a]).0, (#[trigger] s[b]).0) < 0,
        !v_has_key(s, k),
    ensures
        ({
            let j = v_count_lt(s, k);
            let s1 = s.insert(j, (k, v));
            &&& 0 <= j <= s.len()
            &&& forall|a: int, b: int|
                0 <= a < b < s1.len() ==> pcmp((#[trigger] s1[a]).0, (#[trigger] s1[b]).0) < 0
            &&& v_has_key(s1, k)
            &&& v_key_index(s1, k) == j
        }),
{
    lemma_v_count_lt_sorted(s, k);
    let j = v_count_lt(s, k);
    assert forall|i: int| j <= i < s.len() implies pcmp((#[trigger] s[i]).0, k) > 0 by {
        lemma_pcmp_eq(s[i].0, k);
        if s[i].0 == k {
            assert(v_has_key(s, k));
        }
    }
    let s1 = s.insert(j, (k, v));
    assert forall|a: int, b: int| 0 <= a < b < s1.len() implies pcmp(
        (#[trigger] s1[a]).0,
        (#[trigger] s1[b]).0,
    ) < 0 by {
        if a < j && b == j {
            assert(s1[a] == s[a]);
        } else if a == j && b > j {
            assert(s1[b] == s[b - 1]);
            crate::prefix::lemma_pcmp_antisym(s[b - 1].0, k);
        } else if a < j && b > j {
            assert(s1[a] == s[a]);
            assert(s1[b] == s[b - 1]);
            if a == b - 1 {
                lemma_pcmp_trans_mixed(s1[a].0, k, s1[b].0);
            } else {
                assert(pcmp(s[a].0, s[b - 1].0) < 0);
            }
        } else if b < j {
            assert(s1[a] == s[a]);
            assert(s1[b] == s[b]);
        } else if a > j {
            assert(s1[a] == s[a - 1]);
            assert(s1[b] == s[b - 1]);
        }
    }
    lemma_v_key_index_unique(s1, k, j);
}

/// `Del` inverts `Put` at an absent key: putting a record and then
/// deleting its key restores the records exactly. Putting into an empty
/// leaf page and deleting restores the empty page.
pub proof fn lemma_put_del_inverse(s: Seq<(Seq<u8>, Seq<u8>)>, k: Seq<u8>, v: Seq<u8>)
    requires
        forall|a: int, b: int|
            0 <= a < b < s.len() ==> pcmp((#[trigger] s[a]).0, (#[trigger] s[b]).0) < 0,
        !v_has_key(s, k),
    ensures
        v_del(v_upsert(s, k, v), k) == s,
{
    lemma_v_insert_sorted(s, k, v);
    let j = v_count_lt(s, k);
    let s1 = s.insert(j, (k, v));
    assert(v_upsert(s, k, v) == s1);
    assert(v_del(s1, k) == s1.remove(j));
    assert(s1.remove(j) =~= s);
}

/// Merge semantics at an initially absent key: the first operator call
/// sees no stored value; if it answers `w1`, the record then holds exactly
/// `w1`, so a second merge at the same key hands `Some(w1)` to the
/// operator, and its answer `r2` upserts or deletes that record.
pub proof fn lemma_merge_chain(
    s: Seq<(Seq<u8>, Seq<u8>)>,
    k: Seq<u8>,
    w1: Seq<u8>,
    r2: Option<Seq<u8>>,
)
    requires
        forall|a: int, b: int|
            0 <= a < b < s.len() ==> pcmp((#[trigger] s[a]).0, (#[trigger] s[b]).0) < 0,
        !v_has_key(s, k),
    ensures
        v_lookup(s, k) == Option::<Seq<u8>>::None,
        v_lookup(v_merge(s, k, Some(w1)), k) == Some(w1),
        v_merge(v_merge(s, k, Some(w1)), k, r2) == (match r2 {
            Some(w2) => v_merge(s, k, Some(w2)),
            None => s,
        }),
{
    lemma_v_insert_sorted(s, k, w1);
    let j = v_count_lt(s, k);
    let s1 = s.insert(j, (k, w1));
    assert(v_merge(s, k, Some(w1)) == s1);
    assert(v_lookup(s1, k) == Some(w1));
    match r2 {
        Some(w2) => {
            assert(v_merge(s1, k, r2) == s1.update(j, (k, w2)));
            lemma_v_insert_sorted(s, k, w2);
            assert(v_merge(s, k, Some(w2)) == s.insert(j, (k, w2)));
            assert(s1.update(j, (k, w2)) =~= s.insert(j, (k, w2)));
        },
        None => {
            assert(v_merge(s1, k, r2) == s1.remove(j));
            assert(s1.remove(j) =~= s);
        },
    }
}

} // verus!
