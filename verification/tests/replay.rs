use blink_tree::bound::Bound;
use blink_tree::data::Data;
use blink_tree::node::{ChildSplit, Frag, Node, ParentSplit};
use blink_tree::prefix::{prefix_cmp, prefix_decode, prefix_encode};
use blink_tree::PageError;

type Op = fn(Vec<u8>, Option<Vec<u8>>, Vec<u8>) -> Option<Vec<u8>>;

fn enc(p: &[u8], k: &[u8]) -> Vec<u8> {
    prefix_encode(p, k)
}

/// An unbounded empty leaf page.
fn empty_leaf(id: usize) -> Node {
    Node {
        id,
        data: Data::Leaf(vec![]),
        next: None,
        lo: Bound::Inclusive(vec![]),
        hi: Bound::Exclusive(vec![]),
    }
}

fn leaf_keys(n: &Node) -> Vec<Vec<u8>> {
    let lo = match &n.lo {
        Bound::Inclusive(v) => v.clone(),
        Bound::Exclusive(v) => v.clone(),
    };
    n.data
        .leaf_ref()
        .unwrap()
        .iter()
        .map(|(k, _)| prefix_decode(&lo, k))
        .collect()
}

#[test]
fn set_then_get_roundtrip() {
    let mut n = empty_leaf(1);
    let p: &[u8] = b"";
    n.set_leaf(enc(p, b"b"), vec![2]).unwrap();
    n.set_leaf(enc(p, b"a"), vec![1]).unwrap();
    n.set_leaf(enc(p, b"c"), vec![3]).unwrap();
    assert_eq!(leaf_keys(&n), vec![b"a".to_vec(), b"b".to_vec(), b"c".to_vec()]);
    // Replacing an existing key keeps one record.
    n.set_leaf(enc(p, b"b"), vec![9]).unwrap();
    let records = n.data.leaf_ref().unwrap();
    assert_eq!(records.len(), 3);
    assert_eq!(records[1].1, vec![9]);
}

#[test]
fn set_on_index_is_invariant_violation() {
    let p: &[u8] = b"";
    let mut n = Node {
        id: 1,
        data: Data::index(vec![(enc(p, b"m"), 7)]),
        next: None,
        lo: Bound::Inclusive(vec![]),
        hi: Bound::Exclusive(vec![]),
    };
    assert_eq!(
        n.set_leaf(enc(p, b"a"), vec![1]).unwrap_err(),
        PageError::ConsolidationInvariant
    );
    assert_eq!(
        n.del_leaf(&enc(p, b"a")).unwrap_err(),
        PageError::ConsolidationInvariant
    );
    assert_eq!(n.data.len(), 1);
}

#[test]
fn del_absent_key_is_noop() {
    let mut n = empty_leaf(1);
    let p: &[u8] = b"";
    n.set_leaf(enc(p, b"a"), vec![1]).unwrap();
    n.del_leaf(&enc(p, b"x")).unwrap();
    assert_eq!(n.data.len(), 1);
}

#[test]
fn put_then_del_restores_empty_page() {
    // Applying Put(k, v) then Del(k) to an empty leaf page yields the
    // original empty page, side pointer and range included.
    let mut n = empty_leaf(1);
    let p: &[u8] = b"";
    let k = enc(p, b"a");
    n.apply::<Op>(&Frag::Put(k.clone(), vec![42]), None).unwrap();
    assert_eq!(n.data.len(), 1);
    n.apply::<Op>(&Frag::Del(k), None).unwrap();
    assert_eq!(n.data.len(), 0);
    assert!(n.data.leaf_ref().unwrap().is_empty());
    assert_eq!(n.id, 1);
    assert!(n.next.is_none());
    assert!(matches!(&n.lo, Bound::Inclusive(v) if v.is_empty()));
    assert!(matches!(&n.hi, Bound::Exclusive(v) if v.is_empty()));
}

#[test]
fn out_of_range_put_fails_and_leaves_page_unmodified() {
    // hi = Exclusive("m"): a Put at "z" is a consolidation invariant
    // violation and must not touch the page.
    let p: &[u8] = b"";
    let mut n = Node {
        id: 3,
        data: Data::Leaf(vec![(enc(p, b"a"), vec![1])]),
        next: None,
        lo: Bound::Inclusive(vec![]),
        hi: Bound::Exclusive(b"m".to_vec()),
    };
    let r = n.apply::<Op>(&Frag::Put(enc(p, b"z"), vec![9]), None);
    assert_eq!(r.unwrap_err(), PageError::ConsolidationInvariant);
    let records = n.data.leaf_ref().unwrap();
    assert_eq!(records.len(), 1);
    assert_eq!(prefix_decode(p, &records[0].0), b"a".to_vec());
    assert_eq!(records[0].1, vec![1]);
    assert!(matches!(&n.hi, Bound::Exclusive(v) if v == b"m"));
}

#[test]
fn base_fragment_mid_chain_is_rejected() {
    let mut n = empty_leaf(1);
    let r = n.apply::<Op>(&Frag::Base(empty_leaf(9)), None);
    assert_eq!(r.unwrap_err(), PageError::UnexpectedBaseFragment);
}

#[test]
fn merge_without_operator_is_rejected() {
    let mut n = empty_leaf(1);
    let p: &[u8] = b"";
    let r = n.apply::<Op>(&Frag::Merge(enc(p, b"a"), vec![1]), None);
    assert_eq!(r.unwrap_err(), PageError::MissingMergeOperator);
    assert_eq!(n.data.len(), 0);
}

fn concat_merge(_k: Vec<u8>, old: Option<Vec<u8>>, new: Vec<u8>) -> Option<Vec<u8>> {
    let mut out = old.unwrap_or_default();
    out.extend(new);
    Some(out)
}

#[test]
fn merge_twice_matches_direct_computation() {
    // Merge(k, v1) on an absent key, then Merge(k, v2), must equal the
    // operator applied to (None, v1) and then to (Some(result1), v2).
    let mut n = empty_leaf(1);
    let p: &[u8] = b"";
    let k = enc(p, b"a");
    let f: Op = concat_merge;
    n.apply(&Frag::Merge(k.clone(), b"x".to_vec()), Some(&f)).unwrap();
    n.apply(&Frag::Merge(k.clone(), b"y".to_vec()), Some(&f)).unwrap();
    let r1 = concat_merge(b"a".to_vec(), None, b"x".to_vec()).unwrap();
    let expect = concat_merge(b"a".to_vec(), Some(r1), b"y".to_vec()).unwrap();
    let records = n.data.leaf_ref().unwrap();
    assert_eq!(records.len(), 1);
    assert_eq!(records[0].1, expect);
    assert_eq!(records[0].1, b"xy".to_vec());
}

fn subtract_merge(_k: Vec<u8>, old: Option<Vec<u8>>, new: Vec<u8>) -> Option<Vec<u8>> {
    match old {
        None => Some(new),
        Some(o) => {
            if o == new {
                None
            } else {
                Some(o)
            }
        },
    }
}

#[test]
fn merge_operator_answer_of_none_deletes() {
    let mut n = empty_leaf(1);
    let p: &[u8] = b"";
    let k = enc(p, b"a");
    let f: Op = subtract_merge;
    n.apply(&Frag::Merge(k.clone(), vec![7]), Some(&f)).unwrap();
    assert_eq!(n.data.len(), 1);
    n.apply(&Frag::Merge(k.clone(), vec![7]), Some(&f)).unwrap();
    assert_eq!(n.data.len(), 0);
}

#[test]
fn parent_split_on_leaf_is_invariant_violation() {
    let mut n = empty_leaf(1);
    let ps = ParentSplit { at: Bound::Inclusive(b"m".to_vec()), to: 5 };
    assert_eq!(
        n.apply::<Op>(&Frag::ParentSplit(ps), None).unwrap_err(),
        PageError::ConsolidationInvariant
    );
    assert_eq!(n.data.len(), 0);
}

#[test]
fn parent_split_inserts_separator() {
    let p: &[u8] = b"";
    let mut n = Node {
        id: 0,
        data: Data::index(vec![(enc(p, b"a"), 1), (enc(p, b"m"), 2)]),
        next: None,
        lo: Bound::Inclusive(vec![]),
        hi: Bound::Exclusive(vec![]),
    };
    let ps = ParentSplit { at: Bound::Inclusive(b"g".to_vec()), to: 9 };
    n.apply::<Op>(&Frag::ParentSplit(ps), None).unwrap();
    assert_eq!(n.data.len(), 3);
    match &n.data {
        Data::Index(ptrs) => {
            assert_eq!(ptrs.get(0).unwrap().1, 1);
            assert_eq!(ptrs.get(1).unwrap().1, 9);
            assert_eq!(ptrs.get(2).unwrap().1, 2);
            assert_eq!(prefix_decode(p, &ptrs.get(1).unwrap().0), b"g".to_vec());
        },
        Data::Leaf(_) => panic!("payload changed variant"),
    }
}

#[test]
fn should_split_compares_to_fanout() {
    let mut n = empty_leaf(1);
    let p: &[u8] = b"";
    assert!(!n.should_split(2));
    for (i, k) in [b"a", b"b", b"c"].iter().enumerate() {
        n.set_leaf(enc(p, *k), vec![i as u8]).unwrap();
    }
    assert!(n.should_split(2));
    assert!(!n.should_split(3));
}

#[test]
fn split_undersized_node_fails_loudly() {
    let n = empty_leaf(1);
    assert_eq!(n.split(2).unwrap_err(), PageError::SplitOnUndersizedPage);
}

/// The B-link continuity scenario: split a full leaf, truncate the left
/// page with a `ChildSplit`, and reach a moved key from the left page by
/// following its side pointer, as a stale reader would.
#[test]
fn blink_split_keeps_moved_keys_reachable() {
    let p: &[u8] = b"";
    let mut left = empty_leaf(1);
    for (i, k) in [b"a", b"b", b"c", b"d"].iter().enumerate() {
        left.set_leaf(enc(p, *k), vec![i as u8 + 1]).unwrap();
    }
    assert!(left.should_split(2));

    // Phase one: compute the right sibling; the left page is untouched.
    let right = left.split(2).unwrap();
    assert_eq!(right.id, 2);
    assert!(matches!(&right.lo, Bound::Inclusive(v) if v == b"c"));
    assert!(matches!(&right.hi, Bound::Exclusive(v) if v.is_empty()));
    assert_eq!(leaf_keys(&right), vec![b"c".to_vec(), b"d".to_vec()]);
    assert_eq!(left.data.len(), 4);

    // Phase two: truncate the left page through a ChildSplit fragment.
    let cs = ChildSplit { at: Bound::Inclusive(b"c".to_vec()), to: right.id };
    left.apply::<Op>(&Frag::ChildSplit(cs), None).unwrap();
    assert_eq!(leaf_keys(&left), vec![b"a".to_vec(), b"b".to_vec()]);
    assert!(matches!(&left.hi, Bound::Exclusive(v) if v == b"c"));
    assert_eq!(left.next, Some(2));

    // A stale reader looks for "d" on the left page: the key is outside
    // the truncated range, so it chases the side pointer and finds the
    // record on the right page.
    let target: &[u8] = b"d";
    let left_lo = vec![];
    let on_left = left
        .data
        .leaf_ref()
        .unwrap()
        .iter()
        .any(|(k, _)| prefix_decode(&left_lo, k) == target);
    assert!(!on_left);
    let next = left.next.expect("side pointer must be set");
    assert_eq!(next, right.id);
    let right_lo = match &right.lo {
        Bound::Inclusive(v) => v.clone(),
        Bound::Exclusive(v) => v.clone(),
    };
    let ek = enc(&right_lo, target);
    let found = right
        .data
        .leaf_ref()
        .unwrap()
        .iter()
        .find(|(k, _)| prefix_cmp(k, &ek) == 0)
        .expect("moved key must be on the right page");
    assert_eq!(found.1, vec![4]);
}

#[test]
fn split_of_index_page_keeps_variant() {
    let p: &[u8] = b"";
    let n = Node {
        id: 0,
        data: Data::index(vec![
            (enc(p, b"a"), 1),
            (enc(p, b"g"), 2),
            (enc(p, b"m"), 3),
            (enc(p, b"t"), 4),
        ]),
        next: None,
        lo: Bound::Inclusive(vec![]),
        hi: Bound::Exclusive(vec![]),
    };
    let right = n.split(7).unwrap();
    assert!(matches!(&right.lo, Bound::Inclusive(v) if v == b"m"));
    match &right.data {
        Data::Index(ptrs) => {
            assert_eq!(ptrs.len(), 2);
            assert_eq!(ptrs.get(0).unwrap().1, 3);
            assert_eq!(ptrs.get(1).unwrap().1, 4);
        },
        Data::Leaf(_) => panic!("payload changed variant"),
    }
}

#[test]
fn split_inherits_side_pointer_and_hi() {
    let p: &[u8] = b"";
    let mut n = empty_leaf(1);
    n.hi = Bound::Exclusive(b"zz".to_vec());
    n.next = Some(17);
    for (i, k) in [b"p", b"q", b"r"].iter().enumerate() {
        n.set_leaf(enc(p, *k), vec![i as u8]).unwrap();
    }
    let right = n.split(4).unwrap();
    assert_eq!(right.next, Some(17));
    assert!(matches!(&right.hi, Bound::Exclusive(v) if v == b"zz"));
    // Three entries: one stays left, the larger two go right.
    assert_eq!(right.data.len(), 2);
    assert!(matches!(&right.lo, Bound::Inclusive(v) if v == b"q"));
}

#[test]
fn exclusive_hi_admits_its_own_key() {
    // For range membership an Exclusive(k) endpoint sits strictly above a
    // key equal to k, so a record at exactly "m" is still admitted.
    let p: &[u8] = b"";
    let mut n = empty_leaf(1);
    n.hi = Bound::Exclusive(b"m".to_vec());
    n.apply::<Op>(&Frag::Put(enc(p, b"m"), vec![1]), None).unwrap();
    assert_eq!(n.data.len(), 1);
}

#[test]
fn inclusive_hi_rejects_its_own_key() {
    // An Inclusive(k) endpoint sits exactly at k, so for the half-open
    // range a record at exactly "m" is already outside.
    let p: &[u8] = b"";
    let mut n = empty_leaf(1);
    n.hi = Bound::Inclusive(b"m".to_vec());
    let r = n.apply::<Op>(&Frag::Put(enc(p, b"m"), vec![1]), None);
    assert_eq!(r.unwrap_err(), PageError::ConsolidationInvariant);
    assert_eq!(n.data.len(), 0);
}

#[test]
fn child_split_works_on_index_pages_too() {
    let p: &[u8] = b"";
    let mut n = Node {
        id: 0,
        data: Data::index(vec![(enc(p, b"c"), 1), (enc(p, b"g"), 2), (enc(p, b"m"), 3)]),
        next: None,
        lo: Bound::Inclusive(vec![]),
        hi: Bound::Exclusive(vec![]),
    };
    let cs = ChildSplit { at: Bound::Inclusive(b"g".to_vec()), to: 8 };
    n.apply::<Op>(&Frag::ChildSplit(cs), None).unwrap();
    assert_eq!(n.data.len(), 1);
    assert_eq!(n.next, Some(8));
    assert!(matches!(&n.hi, Bound::Exclusive(v) if v == b"g"));
}
