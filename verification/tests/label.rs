use ic_kit::label::{compare_bytes, Cmp, Label, Prefix};

#[test]
fn prefix_of_byte_keys() {
    let k = b"user/42".to_vec();
    assert!(k.is_prefix(b"user/"));
    assert!(k.is_prefix(b""));
    assert!(k.is_prefix(b"user/42"));
    assert!(!k.is_prefix(b"user/420"));
    assert!(!k.is_prefix(b"admin"));
}

#[test]
fn prefix_of_string_keys() {
    let k = String::from("héllo");
    assert!(k.is_prefix("hé".as_bytes()));
    assert!(!k.is_prefix("he".as_bytes()));
    assert_eq!(k.as_label(), "héllo".as_bytes().to_vec());
}

#[test]
fn labels_order_bytes_with_prefix_first() {
    assert_eq!(compare_bytes(b"ab", b"abc"), Cmp::Less);
    assert_eq!(compare_bytes(b"b", b"abc"), Cmp::Greater);
    assert_eq!(compare_bytes(b"abc", b"abc"), Cmp::Equal);
    assert_eq!(1u32.as_label(), vec![0, 0, 0, 1]);
    assert_eq!(true.as_label(), vec![1]);
}
