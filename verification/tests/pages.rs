use blink_tree::bound::Bound;
use blink_tree::data::{Data, Pointers};
use blink_tree::prefix::{prefix_cmp, prefix_decode, prefix_encode};
use blink_tree::PageError;

fn enc(p: &[u8], k: &[u8]) -> Vec<u8> {
    prefix_encode(p, k)
}

#[test]
fn pointers_len_get_search() {
    let p: &[u8] = b"";
    let entries: Vec<(Vec<u8>, usize)> = vec![
        (enc(p, b"b"), 10),
        (enc(p, b"d"), 20),
        (enc(p, b"f"), 30),
    ];
    let ptrs = Pointers::from_entries(entries);
    assert_eq!(ptrs.len(), 3);
    assert_eq!(ptrs.get(1).unwrap().1, 20);
    assert!(ptrs.get(3).is_none());
    assert_eq!(ptrs.search(&enc(p, b"d")), Ok(1));
    assert_eq!(ptrs.search(&enc(p, b"a")), Err(0));
    assert_eq!(ptrs.search(&enc(p, b"c")), Err(1));
    assert_eq!(ptrs.search(&enc(p, b"g")), Err(3));
}

#[test]
fn push_and_sort_keeps_order() {
    let p: &[u8] = b"";
    let entries: Vec<(Vec<u8>, usize)> = vec![(enc(p, b"b"), 1), (enc(p, b"f"), 3)];
    let mut ptrs = Pointers::from_entries(entries);
    ptrs.push_and_sort((enc(p, b"d"), 2));
    assert_eq!(ptrs.len(), 3);
    assert_eq!(ptrs.get(0).unwrap().1, 1);
    assert_eq!(ptrs.get(1).unwrap().1, 2);
    assert_eq!(ptrs.get(2).unwrap().1, 3);
}

#[test]
fn pointers_split_balances() {
    let p: &[u8] = b"";
    let entries: Vec<(Vec<u8>, usize)> = vec![
        (enc(p, b"a"), 1),
        (enc(p, b"b"), 2),
        (enc(p, b"c"), 3),
        (enc(p, b"d"), 4),
        (enc(p, b"e"), 5),
    ];
    let ptrs = Pointers::from_entries(entries);
    let (sk, rhs) = ptrs.split(p).unwrap();
    // Five entries: two stay left, the larger three go right.
    assert_eq!(sk, b"c".to_vec());
    assert_eq!(rhs.len(), 3);
    assert_eq!(rhs.get(0).unwrap().1, 3);
    assert_eq!(rhs.get(2).unwrap().1, 5);
    // Right-half keys are re-encoded against the split key.
    assert_eq!(prefix_decode(&sk, &rhs.get(0).unwrap().0), b"c".to_vec());
    assert_eq!(prefix_decode(&sk, &rhs.get(1).unwrap().0), b"d".to_vec());
}

#[test]
fn data_len_and_variants() {
    let p: &[u8] = b"";
    let idx = Data::index(vec![(enc(p, b"a"), 1), (enc(p, b"m"), 2)]);
    assert_eq!(idx.len(), 2);
    assert!(idx.leaf().is_none());
    assert!(idx.leaf_ref().is_none());
    let leaf = Data::Leaf(vec![(enc(p, b"a"), vec![1]), (enc(p, b"b"), vec![2])]);
    assert_eq!(leaf.len(), 2);
    let copy = leaf.leaf().unwrap();
    assert_eq!(copy.len(), 2);
    assert_eq!(copy[0].1, vec![1]);
    assert_eq!(leaf.leaf_ref().unwrap().len(), 2);
}

#[test]
fn data_split_leaf_exact_balance() {
    // Four records: the left half keeps two, the right half gets two, the
    // split key is the smallest right key.
    let p: &[u8] = b"";
    let leaf = Data::Leaf(vec![
        (enc(p, b"a"), vec![1]),
        (enc(p, b"b"), vec![2]),
        (enc(p, b"c"), vec![3]),
        (enc(p, b"d"), vec![4]),
    ]);
    let (sk, right) = leaf.split(p).unwrap();
    assert_eq!(sk, b"c".to_vec());
    assert_eq!(right.len(), 2);
    let records = right.leaf().unwrap();
    assert_eq!(prefix_decode(&sk, &records[0].0), b"c".to_vec());
    assert_eq!(records[0].1, vec![3]);
    assert_eq!(prefix_decode(&sk, &records[1].0), b"d".to_vec());
    assert_eq!(records[1].1, vec![4]);
}

#[test]
fn data_split_reencodes_against_split_key() {
    // Keys share a long prefix; re-encoding against the split key must
    // still decode to the original full keys.
    let p: &[u8] = b"user_";
    let keys: [&[u8]; 4] = [b"user_aa", b"user_ab", b"user_ba", b"user_bb"];
    let leaf = Data::Leaf(
        keys.iter().enumerate().map(|(i, k)| (enc(p, k), vec![i as u8])).collect(),
    );
    let (sk, right) = leaf.split(p).unwrap();
    assert_eq!(sk, b"user_ba".to_vec());
    let records = right.leaf().unwrap();
    assert_eq!(records.len(), 2);
    assert_eq!(prefix_decode(&sk, &records[0].0), b"user_ba".to_vec());
    assert_eq!(prefix_decode(&sk, &records[1].0), b"user_bb".to_vec());
    // Encoded keys still compare in decoded order under the new boundary.
    assert!(prefix_cmp(&records[0].0, &records[1].0) < 0);
}

#[test]
fn data_split_undersized_fails_loudly() {
    let p: &[u8] = b"";
    let leaf = Data::Leaf(vec![(enc(p, b"a"), vec![1])]);
    assert_eq!(leaf.split(p).unwrap_err(), PageError::SplitOnUndersizedPage);
    let empty = Data::Leaf(vec![]);
    assert_eq!(empty.split(p).unwrap_err(), PageError::SplitOnUndersizedPage);
    let idx = Data::index(vec![(enc(p, b"a"), 1)]);
    assert_eq!(idx.split(p).unwrap_err(), PageError::SplitOnUndersizedPage);
}

#[test]
fn drop_gte_retains_strictly_less() {
    let p: &[u8] = b"";
    let mut leaf = Data::Leaf(vec![
        (enc(p, b"a"), vec![1]),
        (enc(p, b"c"), vec![3]),
        (enc(p, b"e"), vec![5]),
    ]);
    leaf.drop_gte(&Bound::Inclusive(b"c".to_vec()), p);
    let records = leaf.leaf().unwrap();
    assert_eq!(records.len(), 1);
    assert_eq!(prefix_decode(p, &records[0].0), b"a".to_vec());
}

#[test]
fn drop_gte_on_index() {
    let p: &[u8] = b"";
    let mut idx = Data::index(vec![
        (enc(p, b"b"), 1),
        (enc(p, b"d"), 2),
        (enc(p, b"f"), 3),
    ]);
    idx.drop_gte(&Bound::Exclusive(b"e".to_vec()), p);
    assert_eq!(idx.len(), 2);
}
