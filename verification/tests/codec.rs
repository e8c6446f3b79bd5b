use blink_tree::order::bytes_cmp;
use blink_tree::prefix::{prefix_cmp, prefix_decode, prefix_encode};

#[test]
fn bytes_cmp_orders_lexicographically() {
    assert_eq!(bytes_cmp(b"", b""), 0);
    assert_eq!(bytes_cmp(b"", b"a"), -1);
    assert_eq!(bytes_cmp(b"a", b""), 1);
    assert_eq!(bytes_cmp(b"abc", b"abd"), -1);
    assert_eq!(bytes_cmp(b"abd", b"abc"), 1);
    assert_eq!(bytes_cmp(b"ab", b"abc"), -1);
    assert_eq!(bytes_cmp(b"abc", b"abc"), 0);
}

#[test]
fn encode_strips_shared_prefix() {
    // Boundary "user_" shares five bytes with "user_123".
    let e = prefix_encode(b"user_", b"user_123");
    assert_eq!(e, vec![5, b'1', b'2', b'3']);
    // An empty boundary shares nothing: one length byte, then the key.
    let e = prefix_encode(b"", b"abc");
    assert_eq!(e, vec![0, b'a', b'b', b'c']);
}

#[test]
fn decode_inverts_encode() {
    let cases: &[(&[u8], &[u8])] = &[
        (b"", b""),
        (b"", b"abc"),
        (b"abc", b"abc"),
        (b"app", b"apple"),
        (b"user_", b"user_123"),
        (b"aa", b"ab"),
    ];
    for (p, k) in cases {
        let e = prefix_encode(p, k);
        let d = prefix_decode(p, &e);
        assert_eq!(&d, k, "round trip failed for boundary {:?} key {:?}", p, k);
    }
}

#[test]
fn encoded_compare_agrees_with_full_compare() {
    // All keys at or above the shared boundary "app".
    let p: &[u8] = b"app";
    let keys: &[&[u8]] = &[b"app", b"apple", b"apply", b"apq", b"b", b"banana"];
    for a in keys {
        for b in keys {
            let ea = prefix_encode(p, a);
            let eb = prefix_encode(p, b);
            let full = bytes_cmp(a, b);
            let enc = prefix_cmp(&ea, &eb);
            assert_eq!(enc, full, "order broken for {:?} vs {:?}", a, b);
        }
    }
}

#[test]
fn encoded_compare_equal_only_on_same_key() {
    let p: &[u8] = b"ke";
    let ea = prefix_encode(p, b"key1");
    let eb = prefix_encode(p, b"key2");
    assert_eq!(prefix_cmp(&ea, &ea), 0);
    assert_ne!(prefix_cmp(&ea, &eb), 0);
}

#[test]
fn long_shared_prefix_is_capped() {
    // A shared prefix longer than 255 bytes cannot fit in the length byte.
    let p = vec![7u8; 300];
    let mut k = vec![7u8; 300];
    k.push(9);
    let e = prefix_encode(&p, &k);
    assert_eq!(e[0], 255);
    assert_eq!(e.len(), 1 + (301 - 255));
    let d = prefix_decode(&p, &e);
    assert_eq!(d, k);
}
