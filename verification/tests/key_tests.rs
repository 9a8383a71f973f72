use kademlia::key::{Distance, Key, KEY_LEN};

fn key_with_last(b: u8) -> Key {
    let mut bytes = [0u8; KEY_LEN];
    bytes[KEY_LEN - 1] = b;
    Key(bytes)
}

#[test]
fn key_test_debug_key() {
    let key = Key::random();
    println!("{}", key.to_hex());
    assert_eq!(key.0.len(), KEY_LEN)
}

#[test]
fn main_test_debug_key() {
    let key = Key::random();
    println!("{}", key.to_hex());
    assert_eq!(key.0.len(), KEY_LEN);
}

#[test]
fn dist_is_bytewise_xor() {
    let a = Key([0xf0u8; KEY_LEN]);
    let b = Key([0x3cu8; KEY_LEN]);
    let d = a.dist(b);
    assert!(d.0.iter().all(|x| *x == 0xcc));
    // XOR with itself is the zero distance.
    assert!(a.dist(a).0.iter().all(|x| *x == 0));
    // The distance is symmetric.
    assert!(a.dist(b) == b.dist(a));
}

#[test]
fn zeroes_in_prefix_gives_last_bucket() {
    assert_eq!(Distance([0u8; KEY_LEN]).zeroes_in_prefix(), KEY_LEN * 8 - 1);
    assert_eq!(Distance([0xffu8; KEY_LEN]).zeroes_in_prefix(), KEY_LEN * 8 - 1);
    assert_eq!(key_with_last(1).dist(key_with_last(0)).zeroes_in_prefix(), 159);
}

#[test]
fn distance_order_is_lexicographic() {
    let small = key_with_last(1).dist(key_with_last(0));
    let big = key_with_last(2).dist(key_with_last(0));
    assert!(small.less_than(&big));
    assert!(!big.less_than(&small));
    assert!(!small.less_than(&small));
    let mut high = [0u8; KEY_LEN];
    high[0] = 1;
    assert!(big.less_than(&Distance(high)));
}

#[test]
fn hash_is_prefix_of_sha1_hex() {
    // SHA-1("hello") = aaf4c61ddcc5e8a2dabede0f3b482cd9aea9434d
    let k = Key::hash(String::from("hello"));
    assert_eq!(&k.0[..], b"aaf4c61ddcc5e8a2dabe");
    assert!(Key::hash(String::from("")).0.iter().all(|b| b"0123456789abcdef".contains(b)));
    let k2 = Key::hash(String::from("hello"));
    assert!(k == k2);
    let other = Key::hash(String::from("world"));
    assert!(k != other);
}

#[test]
fn from_hex_digest_pads_short_input() {
    let k = Key::from_hex_digest(&vec![1u8, 2, 3]);
    assert_eq!(&k.0[..3], &[1u8, 2, 3]);
    assert!(k.0[3..].iter().all(|x| *x == 0));
    let long: Vec<u8> = (0u8..40).collect();
    let k = Key::from_hex_digest(&long);
    let expected: Vec<u8> = (0u8..20).collect();
    assert_eq!(&k.0[..], &expected[..]);
}

#[test]
fn key_equality_compares_bytes() {
    assert!(key_with_last(3) == key_with_last(3));
    assert!(key_with_last(3) != key_with_last(4));
}

#[test]
fn hex_text_of_key_and_distance() {
    let mut bytes = [0u8; KEY_LEN];
    bytes[0] = 0xab;
    bytes[1] = 0x01;
    bytes[KEY_LEN - 1] = 0xf0;
    let k = Key(bytes);
    let h = k.to_hex();
    assert_eq!(h.len(), 2 * KEY_LEN);
    assert_eq!(&h[..4], "ab01");
    assert_eq!(&h[4..38], "0".repeat(34));
    assert_eq!(&h[38..], "f0");
    let d = Distance([0x5au8; KEY_LEN]);
    assert_eq!(d.to_hex(), "5a".repeat(KEY_LEN));
}
