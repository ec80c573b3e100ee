use ic_kit::group::{Group, GroupBuilder, GroupBuilderNode, GroupNode, GroupNodeInner};
use std::collections::VecDeque;

fn path(names: &[&str]) -> Vec<String> {
    names.iter().map(|s| s.to_string()).collect()
}

fn leaf(tid: u64) -> GroupNode {
    GroupNode { id: 0, data: GroupNodeInner::Leaf(tid) }
}

fn labeled(name: &str, sub: GroupNode) -> GroupNode {
    GroupNode { id: 0, data: GroupNodeInner::Labeled(name.to_string(), Box::new(sub)) }
}

fn fork(a: GroupNode, b: GroupNode) -> GroupNode {
    GroupNode { id: 0, data: GroupNodeInner::Fork(Box::new(a), Box::new(b)) }
}

#[test]
fn group_single_leaf() {
    let g: Group<&str> = GroupBuilder::new().insert(path(&["a"]), 1, "one").build();
    assert_eq!(g.root, labeled("a", leaf(1)));
    assert_eq!(g.data, vec![(1, "one")]);
}

#[test]
fn group_children_in_name_order_and_paired() {
    let g: Group<u8> = GroupBuilder::new()
        .insert(path(&["c"]), 3, 30)
        .insert(path(&["a"]), 1, 10)
        .insert(path(&["b"]), 2, 20)
        .build();
    // Three children are paired into a fork of the first two, then with the third.
    assert_eq!(g.root, fork(fork(labeled("a", leaf(1)), labeled("b", leaf(2))), labeled("c", leaf(3))));
    assert_eq!(g.data, vec![(3, 30), (1, 10), (2, 20)]);
}

#[test]
fn group_nested_directories() {
    let g: Group<()> = GroupBuilder::default()
        .insert(path(&["x", "q"]), 7, ())
        .insert(path(&["x", "p"]), 8, ())
        .insert(path(&["y"]), 9, ())
        .build();
    let x = labeled("x", fork(labeled("p", leaf(8)), labeled("q", leaf(7))));
    assert_eq!(g.root, fork(x, labeled("y", leaf(9))));
}

#[test]
fn group_four_children_balanced() {
    let mut b = GroupBuilder::new();
    for (i, n) in ["d", "b", "a", "c"].iter().enumerate() {
        b = b.insert(path(&[n]), i as u64, ());
    }
    let g = b.build();
    let ab = fork(labeled("a", leaf(2)), labeled("b", leaf(1)));
    let cd = fork(labeled("c", leaf(3)), labeled("d", leaf(0)));
    assert_eq!(g.root, fork(ab, cd));
}

#[test]
fn group_builder_node_insert_and_build() {
    let mut node = GroupBuilderNode::Directory { children: Vec::new() };
    let p: VecDeque<String> = path(&["dir", "leaf"]).into_iter().collect();
    node.insert(p, 5);
    let built = node.build();
    assert_eq!(built, labeled("dir", labeled("leaf", leaf(5))));
}
