//! Key-range endpoints.
//!
//! A page is responsible for the half-open key range `[lo, hi)`. An endpoint
//! carries a key and says whether a key equal to it counts as inside: for
//! range-membership tests an `Exclusive(k)` endpoint sits strictly above any
//! key equal to `k`, while an `Inclusive(k)` endpoint sits exactly at `k`.
//! An endpoint whose key is empty is unbounded on that side.

use vstd::prelude::*;

use crate::order::{lex_leq, lex_lt};

verus! {

#[derive(Clone, Debug)]
pub enum Bound {
    Inclusive(Vec<u8>),
    Exclusive(Vec<u8>),
}

impl Bound {
    /// The endpoint's key bytes.
    pub open spec fn inner_view(&self) -> Seq<u8> {
        match self {
            Bound::Inclusive(v) => v@,
            Bound::Exclusive(v) => v@,
        }
    }

    pub open spec fn is_inclusive(&self) -> bool {
        match self {
            Bound::Inclusive(_) => true,
            Bound::Exclusive(_) => false,
        }
    }

    /// Whether the key `k` lies strictly below this endpoint, used with the
    /// endpoint as the upper end `hi` of a page's range. An `Exclusive`
    /// endpoint sits strictly above a key equal to its own, an `Inclusive`
    /// endpoint exactly at it; an empty endpoint key means unbounded.
    pub open spec fn admits_as_hi(&self, k: Seq<u8>) -> bool {
        if self.inner_view().len() == 0 {
            true
        } else if self.is_inclusive() {
            lex_lt(k, self.inner_view())
        } else {
            lex_leq(k, self.inner_view())
        }
    }

    /// Whether the key `k` lies at or above this endpoint, used with the
    /// endpoint as the lower end `lo` of a page's range.
    pub open spec fn admits_as_lo(&self, k: Seq<u8>) -> bool {
        if self.inner_view().len() == 0 {
            true
        } else if self.is_inclusive() {
            lex_leq(self.inner_view(), k)
        } else {
            lex_lt(self.inner_view(), k)
        }
    }

    /// The endpoint's key bytes, also the boundary that a page's entries are
    /// prefix-encoded against when this is the page's `lo`.
    pub fn inner(&self) -> (r: &[u8])
        ensures
            r@ == self.inner_view(),
    {
        match self {
            Bound::Inclusive(v) => v.as_slice(),
            Bound::Exclusive(v) => v.as_slice(),
        }
    }

    /// A copy with the same endpoint key and the same endpoint kind.
    pub fn duplicate(&self) -> (r: Bound)
        ensures
            r.inner_view() == self.inner_view(),
            r.is_inclusive() == self.is_inclusive(),
    {
        match self {
            Bound::Inclusive(v) => Bound::Inclusive(crate::data::clone_bytes(v.as_slice())),
            Bound::Exclusive(v) => Bound::Exclusive(crate::data::clone_bytes(v.as_slice())),
        }
    }
}

/// Executable test for `admits_as_hi`: does `k` lie strictly below `hi`?
pub fn key_below_bound(k: &[u8], hi: &Bound) -> (r: bool)
    ensures
        r == hi.admits_as_hi(k@),
{
    let inner = hi.inner();
    if inner.len() == 0 {
        return true;
    }
    let c = crate::order::bytes_cmp(k, inner);
    match hi {
        Bound::Inclusive(_) => c < 0,
        Bound::Exclusive(_) => c <= 0,
    }
}

} // verus!
