//! Page consolidation and split engine for a log-structured B-tree.
//!
//! A page is never mutated in place: updates arrive as immutable fragments
//! that are replayed onto a materialized page (`node::Node`). This crate
//! provides the prefix codec for keys stored relative to a page's low
//! boundary, the sorted pointer lists that hold index and leaf entries, and
//! the split protocol that keeps pages bounded (B-link style side pointers).

use vstd::prelude::*;

pub mod bound;
pub mod data;
pub mod node;
pub mod order;
pub mod prefix;

verus! {

/// A full, un-encoded key: an opaque byte sequence ordered lexicographically.
pub type Key = Vec<u8>;

/// An opaque value byte sequence stored in leaf records.
pub type Value = Vec<u8>;

/// Handle of a page slot; allocated and owned by the external page cache.
pub type PageID = usize;

/// Invariant violations surfaced during fragment replay or splitting.
///
/// None of these is an expected runtime condition: each one means the
/// fragment chain is corrupted or the caller that built it has a bug, so the
/// current consolidation attempt must be aborted rather than retried.
#[derive(Clone, Copy, Debug, PartialEq, Eq, Structural)]
pub enum PageError {
    /// A record fragment's key falls outside the page's range, or a
    /// fragment was applied to the wrong payload variant (a record fragment
    /// to an index page, a separator to a leaf page). The leaf accessors are
    /// the one deliberate non-error: probed on an index payload they answer
    /// with an absent result instead.
    ConsolidationInvariant,
    /// A merge fragment was replayed with no merge operator resolved.
    MissingMergeOperator,
    /// A base checkpoint was encountered in the middle of a chain.
    UnexpectedBaseFragment,
    /// Split was invoked on a payload with fewer than two entries.
    SplitOnUndersizedPage,
}

} // verus!
