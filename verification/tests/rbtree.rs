use ic_kit::hashtree::HashTree;
use ic_kit::label::{AsHashTree, Cmp};
use ic_kit::rbtree::{KeyBound, RbTree, RbTreeIterator};
use std::collections::HashMap;

#[test]
fn should_visit_all() {
    let mut tree = RbTree::<u8>::new();

    for i in 0..250u8 {
        tree.insert(vec![i], i);
    }

    let mut iter = RbTreeIterator::new(&tree);

    let mut expected_v = 0u8;

    while let Some((_, v)) = iter.next() {
        assert_eq!(v, &expected_v);
        expected_v += 1;
    }

    assert_eq!(expected_v, 250);
}

#[test]
fn iterator_size_hint_counts_down() {
    let mut tree = RbTree::<u8>::new();
    for i in [5u8, 1, 3] {
        tree.insert(vec![i], i);
    }
    let mut iter = tree.iter();
    assert_eq!(iter.size_hint(), (3, Some(3)));
    assert_eq!(iter.next().map(|(k, _)| k.clone()), Some(vec![1]));
    assert_eq!(iter.size_hint(), (2, Some(2)));
    iter.next();
    iter.next();
    assert_eq!(iter.next(), None);
    assert_eq!(iter.size_hint(), (0, Some(0)));
}

#[test]
fn test_witness() {
    let mut t = RbTree::<Vec<u8>>::new();

    for i in 0u64..10 {
        let key = (1 + 2 * i).to_be_bytes();
        let val = (1 + 2 * i).to_le_bytes();
        t.insert(key.to_vec(), val.to_vec());
        assert_eq!(t.get(&key[..]).map(|v| &v[..]), Some(&val[..]));
    }

    for i in 0u64..10 {
        let key = (1 + 2 * i).to_be_bytes();
        let key = key.as_ref();

        let ht = t.witness(key);
        assert_eq!(ht.reconstruct(), t.root_hash(), "key: {:?}, witness {:?}", key, ht);

        let ht = t.keys_with_prefix(key);
        assert_eq!(
            ht.reconstruct(),
            t.root_hash(),
            "key: {:?}, lower bound: {:?}, upper_bound: {:?}, witness {:?}",
            key,
            t.lower_bound(key),
            t.right_prefix_neighbor(key),
            ht
        );
    }

    for i in 0u64..10 {
        for j in i..10 {
            let start = (2 * i).to_be_bytes();
            let end = (2 * j).to_be_bytes();
            let ht = t.key_range(&start[..], &end[..]);
            assert_eq!(ht.reconstruct(), t.root_hash(), "key range: [{:?}, {:?}], witness {:?}", start, end, ht);

            let ht = t.value_range(&start[..], &end[..]);
            assert_eq!(ht.reconstruct(), t.root_hash(), "key range: [{:?}, {:?}], witness {:?}", start, end, ht);
        }
    }

    for i in 0u64..11 {
        let key = (2 * i).to_be_bytes();
        let ht = t.witness(&key[..]);
        assert_eq!(ht.reconstruct(), t.root_hash(), "key: {:?}, witness {:?}", key, ht);
    }

    for i in 0u64..10 {
        let key = (1 + 2 * i).to_be_bytes();
        let val = (1 + 2 * i).to_le_bytes();

        assert_eq!(t.get(&key[..]).map(|v| &v[..]), Some(&val[..]));

        t.delete(&key[..]);
        for j in 0u64..10 {
            let witness_key = (1 + 2 * j).to_be_bytes();
            let ht = t.witness(&witness_key[..]);
            assert_eq!(ht.reconstruct(), t.root_hash(), "key: {:?}, witness {:?}", key, ht);
        }
        assert_eq!(t.get(&key[..]), None);
    }
}

#[test]
fn test_key_bounds() {
    let mut t = RbTree::<Vec<u8>>::new();
    t.insert(vec![1], vec![10]);
    t.insert(vec![3], vec![30]);

    assert_eq!(t.lower_bound(&[0u8][..]), None);
    assert_eq!(t.lower_bound(&[1u8][..]), Some(KeyBound::Exact(vec![1u8])));
    assert_eq!(t.lower_bound(&[2u8][..]), Some(KeyBound::Neighbor(vec![1u8])));
    assert_eq!(t.lower_bound(&[3u8][..]), Some(KeyBound::Exact(vec![3u8])));
    assert_eq!(t.lower_bound(&[4u8][..]), Some(KeyBound::Neighbor(vec![3u8])));

    assert_eq!(t.upper_bound(&[0u8][..]), Some(KeyBound::Neighbor(vec![1u8])));
    assert_eq!(t.upper_bound(&[1u8][..]), Some(KeyBound::Exact(vec![1u8])));
    assert_eq!(t.upper_bound(&[2u8][..]), Some(KeyBound::Neighbor(vec![3u8])));
    assert_eq!(t.upper_bound(&[3u8][..]), Some(KeyBound::Exact(vec![3u8])));
    assert_eq!(t.upper_bound(&[4u8][..]), None);
}

#[test]
fn test_prefix_neighbor() {
    let mut t = RbTree::<Vec<u8>>::new();
    t.insert(b"a/b".to_vec(), vec![0]);
    t.insert(b"a/b".to_vec(), vec![0]);
    t.insert(b"a/b/c".to_vec(), vec![1]);
    t.insert(b"a/b/d".to_vec(), vec![2]);
    t.insert(b"a/c/d".to_vec(), vec![3]);

    assert_eq!(t.right_prefix_neighbor(b"a/b/c"), Some(KeyBound::Neighbor(b"a/b/d".to_vec())));
    assert_eq!(t.right_prefix_neighbor(b"a/b"), Some(KeyBound::Neighbor(b"a/c/d".to_vec())));
    assert_eq!(t.right_prefix_neighbor(b"a/c/d"), None);
    assert_eq!(t.right_prefix_neighbor(b"a"), None);
}

#[test]
fn simple_delete_test() {
    let mut t = RbTree::<String>::new();
    t.insert(b"x".to_vec(), "a".into());
    t.insert(b"y".to_vec(), "b".into());
    t.insert(b"z".to_vec(), "c".into());

    t.delete(b"x");
    assert_eq!(t.get(b"x"), None);
    assert_eq!(t.get(b"y"), Some(&"b".into()));
    assert_eq!(t.get(b"z"), Some(&"c".into()));

    t.delete(b"y");
    assert_eq!(t.get(b"y"), None);
    assert_eq!(t.get(b"z"), Some(&"c".into()));

    t.delete(b"z");
    assert_eq!(t.get(b"z"), None);
}

#[test]
fn simple_delete_test_2() {
    let mut t = RbTree::<String>::new();
    t.insert(b"x".to_vec(), "y".into());
    t.insert(b"z".to_vec(), "w".into());

    t.delete(b"z");
    assert_eq!(t.get(b"z"), None);
    assert_eq!(t.get(b"x"), Some(&"y".into()));
}

#[test]
fn map_model_test() {
    let mut hm: HashMap<Vec<u8>, Vec<u8>> = HashMap::new();
    let mut rb = RbTree::<Vec<u8>>::new();

    for i in 0..100u64 {
        hm.insert(i.to_be_bytes().to_vec(), i.to_be_bytes().to_vec());
        rb.insert(i.to_be_bytes().to_vec(), i.to_be_bytes().to_vec());

        for k in hm.keys() {
            assert_eq!(hm.get(k), rb.get(k));
        }
    }
    let keys: Vec<_> = hm.keys().cloned().collect();

    for k in keys {
        hm.remove(&k);

        assert!(rb.get(&k).is_some());
        rb.delete(&k);
        assert!(rb.get(&k).is_none());

        for k in hm.keys() {
            assert_eq!(hm.get(k), rb.get(k));
        }
    }
    assert_eq!(rb.len(), 0);
    assert!(rb.is_empty());
}

#[test]
fn test_nested_witness() {
    let mut rb: RbTree<RbTree<String>> = RbTree::new();
    let mut nested = RbTree::new();
    nested.insert(b"bottom".to_vec(), "data".into());
    rb.insert(b"top".to_vec(), nested);

    let ht = rb.nested_witness(b"top", |v: &RbTree<String>| v.witness(b"bottom"));

    assert_eq!(ht.reconstruct(), rb.root_hash());
    match ht {
        HashTree::Labeled(lt, tt) => {
            assert_eq!(lt.as_slice(), b"top");
            match &(*tt) {
                HashTree::Labeled(lb, _) => {
                    assert_eq!(lb.as_slice(), b"bottom");
                }
                other => panic!("unexpected nested tree: {:?}", other),
            }
        }
        other => panic!("expected a labeled tree, got {:?}", other),
    }

    rb.modify(b"top", |mut m: RbTree<String>| {
        m.delete(b"bottom");
        (m, ())
    });
    let ht = rb.nested_witness(b"top", |v: &RbTree<String>| v.witness(b"bottom"));
    assert_eq!(ht.reconstruct(), rb.root_hash());
}

#[test]
fn test_witness_key_range() {
    let mut t = RbTree::<String>::new();
    t.insert(b"b".to_vec(), "x".into());
    t.insert(b"d".to_vec(), "y".into());
    t.insert(b"f".to_vec(), "z".into());

    assert_eq!(t.key_range(b"a", b"a").get_labels(), vec![b"b".to_vec()]);
    assert_eq!(t.key_range(b"a", b"b").get_labels(), vec![b"b".to_vec()]);
    assert_eq!(t.key_range(b"a", b"c").get_labels(), vec![b"b".to_vec(), b"d".to_vec()]);
    assert_eq!(t.key_range(b"a", b"f").get_labels(), vec![b"b".to_vec(), b"d".to_vec(), b"f".to_vec()]);
    assert_eq!(t.key_range(b"a", b"z").get_labels(), vec![b"b".to_vec(), b"d".to_vec(), b"f".to_vec()]);

    assert_eq!(t.key_range(b"b", b"b").get_labels(), vec![b"b".to_vec()]);
    assert_eq!(t.key_range(b"b", b"c").get_labels(), vec![b"b".to_vec(), b"d".to_vec()]);
    assert_eq!(t.key_range(b"b", b"f").get_labels(), vec![b"b".to_vec(), b"d".to_vec(), b"f".to_vec()]);
    assert_eq!(t.key_range(b"b", b"z").get_labels(), vec![b"b".to_vec(), b"d".to_vec(), b"f".to_vec()]);

    assert_eq!(t.key_range(b"d", b"e").get_labels(), vec![b"d".to_vec(), b"f".to_vec()]);
    assert_eq!(t.key_range(b"d", b"f").get_labels(), vec![b"d".to_vec(), b"f".to_vec()]);
    assert_eq!(t.key_range(b"d", b"z").get_labels(), vec![b"d".to_vec(), b"f".to_vec()]);
    assert_eq!(t.key_range(b"y", b"z").get_labels(), vec![b"f".to_vec()]);

    assert!(t.key_range(b"a", b"z").get_leaf_values().is_empty());
}

#[test]
fn test_witness_value_range() {
    let mut t = RbTree::<String>::new();
    t.insert(b"b".to_vec(), "x".into());
    t.insert(b"d".to_vec(), "y".into());
    t.insert(b"f".to_vec(), "z".into());

    assert_eq!(t.key_range(b"a", b"a").get_labels(), vec![b"b".to_vec()]);
    assert!(t.value_range(b"a", b"a").get_leaf_values().is_empty());

    assert_eq!(t.value_range(b"a", b"b").get_labels(), vec![b"b".to_vec()]);
    assert_eq!(t.value_range(b"a", b"b").get_leaf_values(), vec![b"x".to_vec()]);

    assert_eq!(t.value_range(b"f", b"z").get_labels(), vec![b"f".to_vec()]);
    assert_eq!(t.value_range(b"f", b"z").get_leaf_values(), vec![b"z".to_vec()]);

    assert_eq!(t.value_range(b"g", b"z").get_labels(), vec![b"f".to_vec()]);
    assert!(t.value_range(b"g", b"z").get_leaf_values().is_empty());

    assert_eq!(t.value_range(b"a", b"z").get_labels(), vec![b"b".to_vec(), b"d".to_vec(), b"f".to_vec()]);
    assert_eq!(t.value_range(b"a", b"z").get_leaf_values(), vec![b"x".to_vec(), b"y".to_vec(), b"z".to_vec()]);
}

#[test]
fn max_entry_with_prefix_and_get_with() {
    let mut t = RbTree::<u32>::new();
    t.insert(b"a1".to_vec(), 1);
    t.insert(b"a2".to_vec(), 2);
    t.insert(b"b1".to_vec(), 3);
    assert_eq!(t.max_entry_with_prefix(b"a").map(|(k, v)| (k.clone(), *v)), Some((b"a2".to_vec(), 2)));
    assert_eq!(t.max_entry_with_prefix(b"b").map(|(k, v)| (k.clone(), *v)), Some((b"b1".to_vec(), 3)));
    assert_eq!(t.max_entry_with_prefix(b"c").map(|(k, v)| (k.clone(), *v)), None);
    let target = b"a2".to_vec();
    let found = t.get_with(|k: &[u8]| {
        if target.as_slice() < k {
            Cmp::Less
        } else if target.as_slice() == k {
            Cmp::Equal
        } else {
            Cmp::Greater
        }
    });
    assert_eq!(found, Some(&2));
    assert_eq!(t.modify(b"b1", |v: u32| (v + 10, v)), Some(3));
    assert_eq!(t.get(b"b1"), Some(&13));
    assert_eq!(t.modify(b"zz", |v: u32| (v, v)), None);
    assert_eq!(t.as_hash_tree().reconstruct(), t.root_hash());
    assert_eq!(t.keys().get_labels(), vec![b"a1".to_vec(), b"a2".to_vec(), b"b1".to_vec()]);
}

#[test]
fn for_each_visits_in_key_order() {
    let mut tree = RbTree::<u8>::new();
    for i in [9u8, 2, 7, 4] {
        tree.insert(vec![i], i * 10);
    }
    let mut seen: Vec<(Vec<u8>, u8)> = Vec::new();
    tree.for_each(|k, v| seen.push((k.clone(), *v)));
    assert_eq!(seen, vec![(vec![2], 20), (vec![4], 40), (vec![7], 70), (vec![9], 90)]);
}

#[test]
fn empty_tree_hash_tree_is_empty() {
    let t = RbTree::<Vec<u8>>::new();
    assert_eq!(t.as_hash_tree(), HashTree::Empty);
}

#[test]
fn witness_holds_the_value_tree() {
    let mut t = RbTree::<Vec<u8>>::new();
    t.insert(b"b".to_vec(), b"x".to_vec());
    t.insert(b"d".to_vec(), b"y".to_vec());
    let w = t.witness(b"d");
    assert_eq!(w.get_labels(), vec![b"d".to_vec()]);
    assert_eq!(w.get_leaf_values(), vec![b"y".to_vec()]);
}
