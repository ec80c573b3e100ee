use ic_kit::collections::CertifiedMap;
use ic_kit::rbtree::{Entry, RbTree};

#[test]
fn entry_vacant_then_occupied() {
    let mut t = RbTree::<u32>::new();
    match t.entry(b"a".to_vec()) {
        Entry::Vacant(e) => {
            assert_eq!(e.key(), &b"a".to_vec());
            assert_eq!(*e.insert(1), 1);
        }
        Entry::Occupied(_) => panic!("the key was not there"),
    }
    match t.entry(b"a".to_vec()) {
        Entry::Occupied(e) => {
            assert_eq!(*e.get(), 1);
            assert_eq!(e.key(), &b"a".to_vec());
            assert_eq!(e.remove(), 1);
        }
        Entry::Vacant(_) => panic!("the key was there"),
    }
    assert_eq!(t.get(b"a"), None);
}

#[test]
fn entry_or_insert_and_modify() {
    let mut t = RbTree::<u32>::new();
    assert_eq!(*t.entry(b"k".to_vec()).or_insert(5), 5);
    assert_eq!(*t.entry(b"k".to_vec()).or_insert(7), 5);
    assert_eq!(*t.entry(b"k".to_vec()).and_modify(|v| v + 1).or_insert(0), 6);
    assert_eq!(*t.entry(b"j".to_vec()).and_modify(|v| v + 1).or_insert_with(|| 9), 9);
    assert_eq!(*t.entry(b"i".to_vec()).or_insert_with_key(|k: &Vec<u8>| k.len() as u32), 1);
    assert_eq!(t.entry(b"z".to_vec()).key(), &b"z".to_vec());
    match t.entry(b"j".to_vec()) {
        Entry::Occupied(e) => assert_eq!(e.remove_entry(), (b"j".to_vec(), 9)),
        Entry::Vacant(_) => panic!("the key was there"),
    }
    match t.entry(b"q".to_vec()) {
        Entry::Vacant(e) => assert_eq!(e.into_key(), b"q".to_vec()),
        Entry::Occupied(_) => panic!("the key was not there"),
    }
    assert_eq!(t.len(), 2);
    assert_eq!(ic_kit::label::AsHashTree::as_hash_tree(&t).reconstruct(), t.root_hash());
}

#[test]
fn map_entry() {
    let mut map = CertifiedMap::<String, u32>::new();
    assert_eq!(*map.entry("x".to_string()).or_insert(3), 3);
    assert_eq!(map.get(&"x".to_string()), Some(&3));
}

#[test]
fn entry_or_default_inserts_default_once() {
    let mut t = RbTree::<u64>::new();
    assert_eq!(*t.entry(b"k".to_vec()).or_default(), 0);
    assert_eq!(*t.entry(b"k".to_vec()).and_modify(|v| v + 3).or_default(), 3);
    assert_eq!(*t.entry(b"k".to_vec()).or_default(), 3);
    assert_eq!(t.get(b"k"), Some(&3));
}
