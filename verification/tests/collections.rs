use ic_kit::collections::{CertifiedMap, CertifiedSeq, Paged};
use ic_kit::label::AsHashTree;
use ic_kit::rbtree::RbTree;

fn hex_be(i: u32) -> String {
    format!("{:08x}", i)
}

#[test]
fn insert() {
    let mut map = CertifiedMap::<String, u32>::new();
    assert_eq!(map.insert("A".into(), 0), None);
    assert_eq!(map.insert("A".into(), 1), Some(0));
    assert_eq!(map.insert("B".into(), 2), None);
    assert_eq!(map.insert("C".into(), 3), None);
    assert_eq!(map.insert("B".into(), 4), Some(2));
    assert_eq!(map.insert("C".into(), 5), Some(3));
    assert_eq!(map.insert("B".into(), 6), Some(4));
    assert_eq!(map.insert("C".into(), 7), Some(5));
    assert_eq!(map.insert("A".into(), 8), Some(1));

    assert_eq!(map.get(&"A".to_string()), Some(&8));
    assert_eq!(map.get(&"B".to_string()), Some(&6));
    assert_eq!(map.get(&"C".to_string()), Some(&7));
    assert_eq!(map.get(&"D".to_string()), None);
}

#[test]
fn remove() {
    let mut map = CertifiedMap::<String, u32>::new();

    for i in 0..200u32 {
        map.insert(hex_be(i), i);
    }

    for i in 0..200u32 {
        assert_eq!(map.remove(&hex_be(i)), Some(i));
    }

    for i in 0..200u32 {
        assert_eq!(map.get(&hex_be(i)), None);
    }
}

#[test]
fn remove_rev() {
    let mut map = CertifiedMap::<String, u32>::new();

    for i in 0..200u32 {
        map.insert(hex_be(i), i);
    }

    for i in (0..200u32).rev() {
        assert_eq!(map.remove(&hex_be(i)), Some(i));
    }

    for i in 0..200u32 {
        assert_eq!(map.get(&hex_be(i)), None);
    }
}

fn paged_key(key: i32, page: u32) -> Vec<u8> {
    let mut v = key.to_be_bytes().to_vec();
    v.extend_from_slice(&page.to_be_bytes());
    v
}

#[test]
fn modify_max_with_prefix() {
    let mut tree = RbTree::<CertifiedSeq<i32>>::new();
    tree.insert(paged_key(1, 0), CertifiedSeq::from_vec(vec![0, 1, 2]));
    tree.insert(paged_key(1, 1), CertifiedSeq::from_vec(vec![3, 4, 5]));
    tree.insert(paged_key(1, 2), CertifiedSeq::from_vec(vec![18]));
    tree.insert(paged_key(3, 0), CertifiedSeq::from_vec(vec![6, 7, 8]));
    tree.insert(paged_key(3, 1), CertifiedSeq::from_vec(vec![9, 10, 11]));
    tree.insert(paged_key(5, 0), CertifiedSeq::from_vec(vec![12, 13, 14]));
    tree.insert(paged_key(5, 1), CertifiedSeq::from_vec(vec![15, 16, 17]));

    let key_of = |k: &Vec<u8>, v: CertifiedSeq<i32>| (v, k.clone());
    assert_eq!(tree.modify_max_with_prefix(&0i32.to_be_bytes(), key_of), None);
    assert_eq!(tree.modify_max_with_prefix(&1i32.to_be_bytes(), key_of), Some(paged_key(1, 2)));
    assert_eq!(tree.modify_max_with_prefix(&2i32.to_be_bytes(), key_of), None);
    assert_eq!(tree.modify_max_with_prefix(&3i32.to_be_bytes(), key_of), Some(paged_key(3, 1)));
    assert_eq!(tree.modify_max_with_prefix(&4i32.to_be_bytes(), key_of), None);
    assert_eq!(tree.modify_max_with_prefix(&5i32.to_be_bytes(), key_of), Some(paged_key(5, 1)));
    assert_eq!(tree.modify_max_with_prefix(&6i32.to_be_bytes(), key_of), None);
}

#[test]
fn get() {
    let mut paged = Paged::<i32, i32, 3>::new();

    // For each key from 0 to 4, insert 10 items, which is 3 full page + one last page
    // with one item.
    for i in 0..50 {
        paged.insert(i % 5, i);
    }

    for k in 0..5 {
        for p in 0..3 {
            let seq = CertifiedSeq::from_vec((0..3).map(|i| 15 * p + 5 * i + k).collect());
            assert_eq!(paged.get(&k, p as usize), Some(&seq));
        }
    }

    for k in 0..5 {
        let seq = CertifiedSeq::from_vec(vec![45 + k]);
        assert_eq!(paged.get(&k, 3), Some(&seq));
        assert_eq!(paged.get(&k, 4), None);
    }
}

#[test]
fn paged_last_page_and_witnesses() {
    let mut paged = Paged::<u32, u32, 2>::new();
    assert_eq!(paged.get_last_page_number(&7), None);
    for i in 0..5 {
        paged.insert(7, i);
    }
    assert_eq!(paged.get_last_page_number(&7), Some(2));
    assert_eq!(paged.get_last_page_number(&8), None);
    assert_eq!(paged.witness(&7, 1).reconstruct(), paged.root_hash());
    assert_eq!(paged.witness_last_page_number(&7).reconstruct(), paged.root_hash());
    assert_eq!(paged.witness_last_page_number(&9).reconstruct(), paged.root_hash());
}

#[test]
fn append() {
    let mut seq = CertifiedSeq::<usize>::with_capacity(1000);
    let mut hash = seq.root_hash();
    assert_eq!(seq.is_empty(), true);

    for i in 0..1000 {
        seq.append(i);
        assert_eq!(seq.len(), i + 1);
        let new_hash = seq.root_hash();
        assert_ne!(hash, new_hash);
        hash = new_hash;
    }

    assert_eq!(seq.is_empty(), false);

    seq.clear();
    assert_eq!(seq.len(), 0);
    assert_eq!(seq.is_empty(), true);
    assert_eq!(seq.root_hash(), CertifiedSeq::<usize>::new().root_hash());

    for i in 0..1000 {
        seq.append(i);
    }

    assert_eq!(hash, seq.root_hash());
}

#[test]
fn extend() {
    let manual = {
        let mut seq = CertifiedSeq::<usize>::with_capacity(100);
        for i in 0..100 {
            seq.append(i);
        }
        seq
    };

    {
        let mut seq = CertifiedSeq::<usize>::new();
        seq.extend((0..100).collect());

        assert_eq!(manual.len(), seq.len());
        assert_eq!(manual.root_hash(), seq.root_hash());
    }

    {
        let mut seq = CertifiedSeq::<usize>::new();
        seq.extend((0..50).collect());
        seq.extend((50..100).collect());
        assert_eq!(manual.len(), seq.len());
        assert_eq!(manual.root_hash(), seq.root_hash());
    }

    {
        let mut seq = CertifiedSeq::<usize>::new();
        seq.extend((0..50).collect());
        seq.append(50);
        seq.extend((51..100).collect());
        assert_eq!(manual.len(), seq.len());
        assert_eq!(manual.root_hash(), seq.root_hash());
    }
}

#[test]
fn index() {
    let seq = CertifiedSeq::from_vec((0..100).collect());

    for i in 0..100 {
        assert_eq!(*seq.index(i), i);
    }
}

#[test]
#[should_panic]
fn index_out_of_range() {
    let seq = CertifiedSeq::<u8>::new();
    seq.index(0);
}

#[test]
fn serde_cbor() {
    let seq = CertifiedSeq::from_vec((0..10).collect::<Vec<i32>>());
    let serialized = serde_cbor::to_vec(seq.as_vec()).unwrap();
    let actual: CertifiedSeq<i32> = CertifiedSeq::from_vec(serde_cbor::from_slice::<Vec<i32>>(&serialized).unwrap());
    assert_eq!(actual.len(), 10);
    assert_eq!(actual.root_hash(), seq.root_hash());
    assert_eq!(actual, seq);
    let expected = (0..10).collect::<Vec<_>>();
    let deserialized_as_vec: Vec<i32> = serde_cbor::from_slice(&serialized).unwrap();
    assert_eq!(deserialized_as_vec, expected);
}

#[test]
fn seq_hash_chains_item_hashes() {
    // The hash of [7] is sha256 of 32 zero bytes followed by the leaf hash of 7.
    let mut seq = CertifiedSeq::<u32>::new();
    assert_eq!(seq.root_hash(), [0u8; 32]);
    seq.append(7);
    assert_ne!(seq.root_hash(), [0u8; 32]);
    let other = CertifiedSeq::from_vec(vec![7u32]);
    assert_eq!(other.root_hash(), seq.root_hash());
    assert_eq!(seq.as_hash_tree().reconstruct(), seq.root_hash());
    seq.reserve(10);
    seq.reserve_exact(10);
    assert!(seq.capacity() >= 1);
    seq.shrink_to_fit();
    assert_eq!(seq.as_vec(), &vec![7u32]);
    assert_eq!(seq.into_vec(), vec![7u32]);
}

#[test]
fn map_append_deep_and_witnesses() {
    let mut map = CertifiedMap::<String, CertifiedSeq<u32>>::new();
    map.append_deep("a".to_string(), 1);
    map.append_deep("a".to_string(), 2);
    map.append_deep("b".to_string(), 3);
    assert_eq!(map.len_deep(&"a".to_string()), 2);
    assert_eq!(map.len_deep(&"b".to_string()), 1);
    assert_eq!(map.len_deep(&"c".to_string()), 0);
    assert_eq!(map.len(), 2);
    assert!(!map.is_empty());
    let root = map.root_hash();
    assert_eq!(map.witness(&"a".to_string()).reconstruct(), root);
    assert_eq!(map.witness(&"z".to_string()).reconstruct(), root);
    assert_eq!(map.witness_keys().reconstruct(), root);
    assert_eq!(map.witness_key_range(&"a".to_string(), &"b".to_string()).reconstruct(), root);
    assert_eq!(map.witness_value_range(&"a".to_string(), &"b".to_string()).reconstruct(), root);
    assert_eq!(map.witness_keys_with_prefix(b"a").reconstruct(), root);
    assert_eq!(map.as_tree().root_hash(), root);
    assert_eq!(map.remove_entry(&"a".to_string()).map(|e| e.0), Some(b"a".to_vec()));
    assert_eq!(map.len(), 1);
    map.clear();
    assert!(map.is_empty());
}

#[test]
fn empty_map_root_hash_is_empty_tree_hash() {
    let map = CertifiedMap::<String, u32>::new();
    assert_eq!(map.root_hash(), ic_kit::hashtree::HashTree::Empty.reconstruct());
    let mut other = CertifiedMap::<String, u32>::new();
    other.insert("A".into(), 1);
    other.clear();
    assert_eq!(other.root_hash(), map.root_hash());
}

#[test]
fn remove_of_absent_key_keeps_root_hash() {
    let mut map = CertifiedMap::<String, u32>::new();
    map.insert("A".into(), 1);
    let before = map.root_hash();
    assert_eq!(map.remove(&"B".to_string()), None);
    assert_eq!(map.root_hash(), before);
}

#[test]
fn new_sequence_hash_tree_is_pruned_zero_hash() {
    let seq = CertifiedSeq::<u32>::new();
    assert_eq!(seq.as_hash_tree(), ic_kit::hashtree::HashTree::Pruned([0u8; 32]));
}
