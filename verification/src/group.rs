//! Building a group: a tree of named directories whose leaves are typed
//! pieces of certified data, turned into a tree of labeled and forked nodes.
//!
//! A leaf's type is identified by a number, unique within a group.
use vstd::prelude::*;
use std::collections::VecDeque;
use crate::label::{compare_bytes, lex_lt, Cmp, lemma_lex_irreflexive, lemma_lex_transitive};
use crate::hole::ceil_log2_spec;

verus! {

/// A node of a built group.
#[derive(Debug, PartialEq, Eq)]
pub struct GroupNode {
    pub id: u64,
    pub data: GroupNodeInner,
}

/// What a node of a built group holds: a named child, two children, or a
/// leaf of the given type.
#[derive(Debug, PartialEq, Eq)]
pub enum GroupNodeInner {
    Labeled(String, Box<GroupNode>),
    Fork(Box<GroupNode>, Box<GroupNode>),
    Leaf(u64),
}

/// A node of a group under construction: a directory of named children kept
/// in increasing order of name, or a leaf of the given type.
pub enum GroupBuilderNode {
    Directory { children: Vec<(String, Box<GroupBuilderNode>)> },
    Leaf { tid: u64 },
}

/// The bytes of a name, by which names are ordered.
pub open spec fn name_bytes(s: String) -> Seq<u8> {
    vstd::utf8::encode_utf8(s@)
}

/// The type of the leaf at `path` below `n`, if there is a leaf there.
pub closed spec fn leaf_at(n: GroupBuilderNode, path: Seq<Seq<u8>>) -> Option<u64>
    decreases n,
{
    match n {
        GroupBuilderNode::Leaf { tid } => if path.len() == 0 { Some(tid) } else { None },
        GroupBuilderNode::Directory { children } => if path.len() == 0 {
            None
        } else {
            child_leaf_at(children@, path)
        },
    }
}

/// The type of the leaf at `path` below the children `cs`, the first name of
/// the path naming the child.
pub closed spec fn child_leaf_at(cs: Seq<(String, Box<GroupBuilderNode>)>, path: Seq<Seq<u8>>) -> Option<u64>
    decreases cs,
{
    if cs.len() == 0 || path.len() == 0 {
        None
    } else if name_bytes(cs.last().0) == path[0] {
        leaf_at(*cs.last().1, path.drop_first())
    } else {
        child_leaf_at(cs.drop_last(), path)
    }
}

/// The names of the children strictly increase.
pub open spec fn names_increasing(cs: Seq<(String, Box<GroupBuilderNode>)>) -> bool {
    forall|i: int, j: int| 0 <= i < j < cs.len() ==> lex_lt(name_bytes(#[trigger] cs[i].0), name_bytes(#[trigger] cs[j].0))
}

/// A node that is not an empty directory.
pub open spec fn non_empty(n: GroupBuilderNode) -> bool {
    match n {
        GroupBuilderNode::Directory { children } => children@.len() > 0,
        GroupBuilderNode::Leaf { .. } => true,
    }
}

/// A well-formed node: in each directory the names strictly increase, and
/// every directory but the outermost has a child.
pub closed spec fn node_wf(n: GroupBuilderNode) -> bool
    decreases n,
{
    match n {
        GroupBuilderNode::Leaf { .. } => true,
        GroupBuilderNode::Directory { children } => {
            &&& names_increasing(children@)
            &&& forall|i: int| 0 <= i < children@.len() ==> node_wf(*(#[trigger] children@[i]).1)
            &&& forall|i: int| 0 <= i < children@.len() ==> non_empty(*(#[trigger] children@[i]).1)
        },
    }
}

/// The child of the directory `cs` named `name`, if there is one.
pub closed spec fn named_child(cs: Seq<(String, Box<GroupBuilderNode>)>, name: Seq<u8>) -> Option<GroupBuilderNode>
    decreases cs.len(),
{
    if cs.len() == 0 {
        None
    } else if name_bytes(cs.last().0) == name {
        Some(*cs.last().1)
    } else {
        named_child(cs.drop_last(), name)
    }
}

/// `a` is a prefix of `b`, or `b` itself.
pub open spec fn path_prefix(a: Seq<Seq<u8>>, b: Seq<Seq<u8>>) -> bool {
    a.len() <= b.len() && b.subrange(0, a.len() as int) == a
}

/// A leaf can be put at `path` below `n`: the path is not empty, no leaf lies
/// on it or at it, and no leaf lies below it.
pub open spec fn insertable(n: GroupBuilderNode, path: Seq<Seq<u8>>) -> bool {
    &&& path.len() > 0
    &&& forall|p: Seq<Seq<u8>>| #[trigger] leaf_at(n, p) is Some ==> !path_prefix(p, path) && !path_prefix(path, p)
}

/// The names of a path, as bytes.
pub open spec fn path_names(path: Seq<String>) -> Seq<Seq<u8>> {
    path.map_values(|s: String| name_bytes(s))
}

/// A lookup in a directory goes to the child named by the path's first name.
proof fn lemma_child_leaf_named(cs: Seq<(String, Box<GroupBuilderNode>)>, path: Seq<Seq<u8>>)
    requires
        path.len() > 0,
    ensures
        child_leaf_at(cs, path) == match named_child(cs, path[0]) {
            Some(c) => leaf_at(c, path.drop_first()),
            None => None,
        },
    decreases cs.len(),
{
    if cs.len() > 0 && name_bytes(cs.last().0) != path[0] {
        lemma_child_leaf_named(cs.drop_last(), path);
    }
}

/// In a directory whose names increase, the child named like the `i`-th is
/// the `i`-th.
proof fn lemma_named_found(cs: Seq<(String, Box<GroupBuilderNode>)>, i: int)
    requires
        names_increasing(cs),
        0 <= i < cs.len(),
    ensures
        named_child(cs, name_bytes(cs[i].0)) == Some(*cs[i].1),
    decreases cs.len(),
{
    if i < cs.len() - 1 {
        assert(lex_lt(name_bytes(cs[i].0), name_bytes(cs[cs.len() - 1].0)));
        lemma_lex_irreflexive(name_bytes(cs[i].0));
        assert(names_increasing(cs.drop_last()));
        assert(cs.drop_last()[i] == cs[i]);
        lemma_named_found(cs.drop_last(), i);
    }
}

/// A directory has no child named like none of its children.
proof fn lemma_named_absent(cs: Seq<(String, Box<GroupBuilderNode>)>, name: Seq<u8>)
    requires
        forall|i: int| 0 <= i < cs.len() ==> name_bytes(#[trigger] cs[i].0) != name,
    ensures
        named_child(cs, name) is None,
    decreases cs.len(),
{
    if cs.len() > 0 {
        assert(name_bytes(cs[cs.len() - 1].0) != name);
        assert forall|i: int| 0 <= i < cs.drop_last().len() implies name_bytes(#[trigger] cs.drop_last()[i].0) != name by {
            assert(cs.drop_last()[i] == cs[i]);
        }
        lemma_named_absent(cs.drop_last(), name);
    }
}

/// What a lookup by name finds, in a directory whose names increase.
proof fn lemma_named_lookup(cs: Seq<(String, Box<GroupBuilderNode>)>, name: Seq<u8>)
    requires
        names_increasing(cs),
    ensures
        (exists|i: int| 0 <= i < cs.len() && name_bytes(cs[i].0) == name) ==> named_child(cs, name) == Some(
            *cs[choose|i: int| 0 <= i < cs.len() && name_bytes(cs[i].0) == name].1,
        ),
        !(exists|i: int| 0 <= i < cs.len() && name_bytes(cs[i].0) == name) ==> named_child(cs, name) is None,
{
    if exists|i: int| 0 <= i < cs.len() && name_bytes(cs[i].0) == name {
        let i = choose|i: int| 0 <= i < cs.len() && name_bytes(cs[i].0) == name;
        lemma_named_found(cs, i);
    } else {
        lemma_named_absent(cs, name);
    }
}

/// Putting a child into a directory at its place in name order: the lookup of
/// its name finds it, and every other lookup is unchanged.
proof fn lemma_named_insert(cs: Seq<(String, Box<GroupBuilderNode>)>, i: int, x: (String, Box<GroupBuilderNode>), name: Seq<u8>)
    requires
        0 <= i <= cs.len(),
        names_increasing(cs.insert(i, x)),
    ensures
        named_child(cs.insert(i, x), name) == if name == name_bytes(x.0) {
            Some(*x.1)
        } else {
            named_child(cs, name)
        },
{
    let ns = cs.insert(i, x);
    assert(names_increasing(cs)) by {
        assert forall|a: int, b: int| 0 <= a < b < cs.len() implies lex_lt(name_bytes(#[trigger] cs[a].0), name_bytes(#[trigger] cs[b].0)) by {
            let a2 = if a < i { a } else { a + 1 };
            let b2 = if b < i { b } else { b + 1 };
            assert(ns[a2] == cs[a] && ns[b2] == cs[b]);
        }
    }
    if name == name_bytes(x.0) {
        assert(ns[i] == x);
        lemma_named_found(ns, i);
    } else {
        lemma_named_lookup(cs, name);
        lemma_named_lookup(ns, name);
        if exists|j: int| 0 <= j < cs.len() && name_bytes(cs[j].0) == name {
            let j = choose|j: int| 0 <= j < cs.len() && name_bytes(cs[j].0) == name;
            let j2 = if j < i { j } else { j + 1 };
            assert(ns[j2] == cs[j]);
            lemma_named_found(ns, j2);
            lemma_named_found(cs, j);
        } else {
            assert forall|k: int| 0 <= k < ns.len() implies name_bytes(#[trigger] ns[k].0) != name by {
                if k < i {
                    assert(ns[k] == cs[k]);
                } else if k > i {
                    assert(ns[k] == cs[k - 1]);
                }
            }
            lemma_named_absent(ns, name);
        }
    }
}

/// Replacing the `i`-th child by one of the same name: the lookup of that
/// name finds the new child, and every other lookup is unchanged.
proof fn lemma_named_update(cs: Seq<(String, Box<GroupBuilderNode>)>, i: int, x: (String, Box<GroupBuilderNode>), name: Seq<u8>)
    requires
        0 <= i < cs.len(),
        names_increasing(cs),
        name_bytes(x.0) == name_bytes(cs[i].0),
    ensures
        names_increasing(cs.update(i, x)),
        named_child(cs.update(i, x), name) == if name == name_bytes(x.0) {
            Some(*x.1)
        } else {
            named_child(cs, name)
        },
{
    let ns = cs.update(i, x);
    assert(names_increasing(ns)) by {
        assert forall|a: int, b: int| 0 <= a < b < ns.len() implies lex_lt(name_bytes(#[trigger] ns[a].0), name_bytes(#[trigger] ns[b].0)) by {
            assert(name_bytes(ns[a].0) == name_bytes(cs[a].0));
            assert(name_bytes(ns[b].0) == name_bytes(cs[b].0));
        }
    }
    if name == name_bytes(x.0) {
        lemma_named_found(ns, i);
    } else {
        lemma_named_lookup(cs, name);
        if exists|j: int| 0 <= j < cs.len() && name_bytes(cs[j].0) == name {
            let j = choose|j: int| 0 <= j < cs.len() && name_bytes(cs[j].0) == name;
            assert(j != i);
            assert(ns[j] == cs[j]);
            lemma_named_found(ns, j);
            lemma_named_found(cs, j);
        } else {
            assert forall|k: int| 0 <= k < ns.len() implies name_bytes(#[trigger] ns[k].0) != name by {
                if k != i {
                    assert(ns[k] == cs[k]);
                }
            }
            lemma_named_absent(ns, name);
        }
    }
}

/// A well-formed node that is not an empty directory holds a leaf.
proof fn lemma_has_leaf(n: GroupBuilderNode)
    requires
        node_wf(n),
        non_empty(n),
    ensures
        exists|p: Seq<Seq<u8>>| #[trigger] leaf_at(n, p) is Some,
    decreases n,
{
    match n {
        GroupBuilderNode::Leaf { tid } => {
            assert(leaf_at(n, Seq::empty()) is Some);
        },
        GroupBuilderNode::Directory { children } => {
            let cs = children@;
            let c = cs[0];
            assert(node_wf(*c.1) && non_empty(*c.1));
            lemma_has_leaf(*c.1);
            let q = choose|p: Seq<Seq<u8>>| #[trigger] leaf_at(*c.1, p) is Some;
            let p = seq![name_bytes(c.0)] + q;
            assert(p.drop_first() =~= q);
            lemma_child_leaf_named(cs, p);
            lemma_named_found(cs, 0);
            assert(leaf_at(n, p) is Some);
        },
    }
}

/// The nodes of a built group that hang below its top forks, in order.
pub open spec fn fork_items(g: GroupNode) -> Seq<GroupNode>
    decreases g,
{
    match g.data {
        GroupNodeInner::Fork(a, b) => fork_items(*a) + fork_items(*b),
        _ => seq![g],
    }
}

/// The number of forks on the longest way down from the top of a built
/// group to a node that is not a fork.
pub open spec fn fork_depth(g: GroupNode) -> nat
    decreases g,
{
    match g.data {
        GroupNodeInner::Fork(a, b) => 1 + if fork_depth(*a) >= fork_depth(*b) {
            fork_depth(*a)
        } else {
            fork_depth(*b)
        },
        _ => 0,
    }
}

/// The top forks of a built group carry the number 0.
pub open spec fn forks_unnumbered(g: GroupNode) -> bool
    decreases g,
{
    match g.data {
        GroupNodeInner::Fork(a, b) => g.id == 0 && forks_unnumbered(*a) && forks_unnumbered(*b),
        _ => true,
    }
}

/// The nodes below the top forks of a sequence of built groups, in order.
pub open spec fn items_of(s: Seq<GroupNode>) -> Seq<GroupNode>
    decreases s.len(),
{
    if s.len() == 0 {
        Seq::empty()
    } else {
        items_of(s.drop_last()) + fork_items(s.last())
    }
}

/// `g` is the built form of `n`: a leaf becomes a leaf of the same type; a
/// directory becomes a tree of forks whose nodes below, in order, are its
/// children, each labeled with its name over its own built form. Every node
/// made is numbered 0.
pub open spec fn built_from(g: GroupNode, n: GroupBuilderNode) -> bool
    decreases n,
{
    match n {
        GroupBuilderNode::Leaf { tid } => g == GroupNode { id: 0, data: GroupNodeInner::Leaf(tid) },
        GroupBuilderNode::Directory { children } => {
            &&& forks_unnumbered(g)
            &&& fork_items(g).len() == children@.len()
            &&& forall|i: int| 0 <= i < children@.len() ==> labeled_from(#[trigger] fork_items(g)[i], children@[i])
        },
    }
}

/// `g` is the child `c` labeled with its name over its built form.
pub open spec fn labeled_from(g: GroupNode, c: (String, Box<GroupBuilderNode>)) -> bool
    decreases c,
{
    &&& g.id == 0
    &&& g.data matches GroupNodeInner::Labeled(name, sub)
    &&& name == c.0
    &&& built_from(*sub, *c.1)
}

/// Where `name` stands among the children: the index of the child with that
/// name, or where such a child would go, and whether it is there.
fn find_child(children: &Vec<(String, Box<GroupBuilderNode>)>, name: &String) -> (r: (usize, bool))
    requires
        names_increasing(children@),
    ensures
        r.0 <= children@.len(),
        r.1 ==> r.0 < children@.len() && name_bytes(children@[r.0 as int].0) == name_bytes(*name),
        !r.1 ==> forall|j: int| 0 <= j < r.0 ==> lex_lt(name_bytes(#[trigger] children@[j].0), name_bytes(*name)),
        !r.1 ==> forall|j: int| r.0 <= j < children@.len() ==> lex_lt(name_bytes(*name), name_bytes(#[trigger] children@[j].0)),
{
    let mut i: usize = 0;
    while i < children.len()
        invariant
            names_increasing(children@),
            i <= children@.len(),
            forall|j: int| 0 <= j < i ==> lex_lt(name_bytes(#[trigger] children@[j].0), name_bytes(*name)),
        decreases children@.len() - i,
    {
        let c = compare_bytes(children[i].0.as_str().as_bytes(), name.as_str().as_bytes());
        match c {
            Cmp::Less => {
                i = i + 1;
            },
            Cmp::Equal => {
                return (i, true);
            },
            Cmp::Greater => {
                proof {
                    assert forall|j: int| i <= j < children@.len() implies lex_lt(name_bytes(*name), name_bytes(#[trigger] children@[j].0)) by {
                        if j > i {
                            assert(lex_lt(name_bytes(children@[i as int].0), name_bytes(children@[j].0)));
                            lemma_lex_transitive(name_bytes(*name), name_bytes(children@[i as int].0), name_bytes(children@[j].0));
                        }
                    }
                }
                return (i, false);
            },
        }
    }
    (i, false)
}

/// Put a leaf of type `tid` at `path` below the directory `n`, making the
/// directories on the way that are not there yet.
#[verifier::rlimit(40)]
fn insert_node(n: GroupBuilderNode, path: VecDeque<String>, tid: u64) -> (r: GroupBuilderNode)
    requires
        node_wf(n),
        n is Directory,
        insertable(n, path_names(path@)),
    ensures
        node_wf(r),
        r is Directory,
        non_empty(r),
        forall|p: Seq<Seq<u8>>| #[trigger] leaf_at(r, p) == if p == path_names(path@) {
            Some(tid)
        } else {
            leaf_at(n, p)
        },
    decreases path@.len(),
{
    let ghost full = path_names(path@);
    let mut path = path;
    let mut children = match n {
        GroupBuilderNode::Directory { children } => children,
        GroupBuilderNode::Leaf { .. } => Vec::new(),
    };
    let ghost cs = children@;
    proof {
        assert(full.len() == path@.len());
        assert(full[0] == name_bytes(path@[0]));
    }
    if path.len() == 1 {
        let name = path.pop_back().unwrap();
        let (i, found) = find_child(&children, &name);
        if found {
            proof {
                lemma_named_found(cs, i as int);
                let c = *cs[i as int].1;
                assert(node_wf(c) && non_empty(c));
                lemma_has_leaf(c);
                let q = choose|q: Seq<Seq<u8>>| #[trigger] leaf_at(c, q) is Some;
                let p = seq![name_bytes(name)] + q;
                assert(p.drop_first() =~= q);
                lemma_child_leaf_named(cs, p);
                assert(leaf_at(n, p) is Some);
                assert(full =~= seq![name_bytes(name)]);
                assert(p.subrange(0, 1) =~= full);
            }
            assert(false);
        }
        let leaf = GroupBuilderNode::Leaf { tid };
        let ghost x = (name, Box::new(leaf));
        children.insert(i, (name, Box::new(leaf)));
        let r = GroupBuilderNode::Directory { children };
        proof {
            let ns = children@;
            assert(ns == cs.insert(i as int, x));
            assert(names_increasing(ns)) by {
                assert forall|a: int, b: int| 0 <= a < b < ns.len() implies lex_lt(name_bytes(#[trigger] ns[a].0), name_bytes(#[trigger] ns[b].0)) by {
                    if a < i && b < i {
                        assert(ns[a] == cs[a] && ns[b] == cs[b]);
                    } else if a < i && b == i {
                        assert(ns[a] == cs[a]);
                    } else if a < i {
                        assert(ns[a] == cs[a] && ns[b] == cs[b - 1]);
                    } else if a == i {
                        assert(ns[b] == cs[b - 1]);
                    } else {
                        assert(ns[a] == cs[a - 1] && ns[b] == cs[b - 1]);
                    }
                }
            }
            assert forall|k: int| 0 <= k < ns.len() implies node_wf(*(#[trigger] ns[k]).1) && non_empty(*ns[k].1) by {
                if k < i {
                    assert(ns[k] == cs[k]);
                } else if k > i {
                    assert(ns[k] == cs[k - 1]);
                }
            }
            assert forall|p: Seq<Seq<u8>>| #[trigger] leaf_at(r, p) == if p == full {
                Some(tid)
            } else {
                leaf_at(n, p)
            } by {
                if p.len() > 0 {
                    lemma_child_leaf_named(ns, p);
                    lemma_child_leaf_named(cs, p);
                    lemma_named_insert(cs, i as int, x, p[0]);
                    if p[0] == name_bytes(name) {
                        assert forall|j: int| 0 <= j < cs.len() implies name_bytes(#[trigger] cs[j].0) != name_bytes(name) by {
                            if j < i {
                                assert(lex_lt(name_bytes(cs[j].0), name_bytes(name)));
                            } else {
                                assert(lex_lt(name_bytes(name), name_bytes(cs[j].0)));
                            }
                            lemma_lex_irreflexive(name_bytes(name));
                        }
                        lemma_named_absent(cs, p[0]);
                        if p.len() == 1 {
                            assert(p =~= full);
                        } else {
                            assert(p != full);
                        }
                    } else {
                        assert(p != full);
                    }
                }
            }
        }
        r
    } else {
        let name = path.pop_front().unwrap();
        let ghost rest = path_names(path@);
        proof {
            assert(full =~= seq![name_bytes(name)] + rest);
        }
        let (i, found) = find_child(&children, &name);
        if found {
            let (cname, child) = children.remove(i);
            proof {
                lemma_named_found(cs, i as int);
                assert(cs[i as int] == (cname, child));
                assert(node_wf(*child) && non_empty(*child));
                if *child is Leaf {
                    let p = seq![name_bytes(name)];
                    assert(p.drop_first() =~= Seq::<Seq<u8>>::empty());
                    lemma_child_leaf_named(cs, p);
                    assert(leaf_at(n, p) is Some);
                    assert(full.subrange(0, 1) =~= p);
                    assert(false);
                }
                assert forall|q: Seq<Seq<u8>>| #[trigger] leaf_at(*child, q) is Some implies !path_prefix(q, rest) && !path_prefix(rest, q) by {
                    let p = seq![name_bytes(name)] + q;
                    assert(p.drop_first() =~= q);
                    lemma_child_leaf_named(cs, p);
                    assert(leaf_at(n, p) is Some);
                    if path_prefix(q, rest) {
                        assert(full.subrange(0, p.len() as int) =~= p);
                    }
                    if path_prefix(rest, q) {
                        assert(p.subrange(0, full.len() as int) =~= full);
                    }
                }
            }
            let sub = insert_node(*child, path, tid);
            let ghost x = (cname, Box::new(sub));
            children.insert(i, (cname, Box::new(sub)));
            let r = GroupBuilderNode::Directory { children };
            proof {
                let ns = children@;
                assert(ns =~= cs.update(i as int, x));
                lemma_named_update(cs, i as int, x, name_bytes(name));
                assert forall|k: int| 0 <= k < ns.len() implies node_wf(*(#[trigger] ns[k]).1) && non_empty(*ns[k].1) by {
                    if k != i {
                        assert(ns[k] == cs[k]);
                    }
                }
                assert forall|p: Seq<Seq<u8>>| #[trigger] leaf_at(r, p) == if p == full {
                    Some(tid)
                } else {
                    leaf_at(n, p)
                } by {
                    if p.len() > 0 {
                        lemma_child_leaf_named(ns, p);
                        lemma_child_leaf_named(cs, p);
                        lemma_named_update(cs, i as int, x, p[0]);
                        if p[0] == name_bytes(name) {
                            if p.drop_first() == rest {
                                assert(p =~= full);
                            } else {
                                assert(p != full) by {
                                    if p == full {
                                        assert(p.drop_first() =~= rest);
                                    }
                                }
                            }
                        } else {
                            assert(p != full);
                        }
                    }
                }
            }
            r
        } else {
            let empty = GroupBuilderNode::Directory { children: Vec::new() };
            proof {
                assert forall|q: Seq<Seq<u8>>| #[trigger] leaf_at(empty, q) is None by {
                    if q.len() > 0 {
                        lemma_child_leaf_named(Seq::empty(), q);
                    }
                }
                assert(rest.len() > 0);
            }
            let sub = insert_node(empty, path, tid);
            let ghost x = (name, Box::new(sub));
            children.insert(i, (name, Box::new(sub)));
            let r = GroupBuilderNode::Directory { children };
            proof {
                let ns = children@;
                assert(ns == cs.insert(i as int, x));
                assert(names_increasing(ns)) by {
                    assert forall|a: int, b: int| 0 <= a < b < ns.len() implies lex_lt(name_bytes(#[trigger] ns[a].0), name_bytes(#[trigger] ns[b].0)) by {
                        if a < i && b < i {
                            assert(ns[a] == cs[a] && ns[b] == cs[b]);
                        } else if a < i && b == i {
                            assert(ns[a] == cs[a]);
                        } else if a < i {
                            assert(ns[a] == cs[a] && ns[b] == cs[b - 1]);
                        } else if a == i {
                            assert(ns[b] == cs[b - 1]);
                        } else {
                            assert(ns[a] == cs[a - 1] && ns[b] == cs[b - 1]);
                        }
                    }
                }
                assert forall|k: int| 0 <= k < ns.len() implies node_wf(*(#[trigger] ns[k]).1) && non_empty(*ns[k].1) by {
                    if k < i {
                        assert(ns[k] == cs[k]);
                    } else if k > i {
                        assert(ns[k] == cs[k - 1]);
                    }
                }
                assert forall|p: Seq<Seq<u8>>| #[trigger] leaf_at(r, p) == if p == full {
                    Some(tid)
                } else {
                    leaf_at(n, p)
                } by {
                    if p.len() > 0 {
                        lemma_child_leaf_named(ns, p);
                        lemma_child_leaf_named(cs, p);
                        lemma_named_insert(cs, i as int, x, p[0]);
                        if p[0] == name_bytes(name) {
                            assert forall|j: int| 0 <= j < cs.len() implies name_bytes(#[trigger] cs[j].0) != name_bytes(name) by {
                                if j < i {
                                    assert(lex_lt(name_bytes(cs[j].0), name_bytes(name)));
                                } else {
                                    assert(lex_lt(name_bytes(name), name_bytes(cs[j].0)));
                                }
                                lemma_lex_irreflexive(name_bytes(name));
                            }
                            lemma_named_absent(cs, p[0]);
                            assert(leaf_at(empty, p.drop_first()) is None);
                            if p.drop_first() == rest {
                                assert(p =~= full);
                            } else {
                                assert(p != full) by {
                                    if p == full {
                                        assert(p.drop_first() =~= rest);
                                    }
                                }
                            }
                        } else {
                            assert(p != full);
                        }
                    }
                }
            }
            r
        }
    }
}

/// Adding a node at the end adds its items at the end.
proof fn lemma_items_push(s: Seq<GroupNode>, x: GroupNode)
    ensures
        items_of(s.push(x)) == items_of(s) + fork_items(x),
{
    assert(s.push(x).drop_last() =~= s);
}

/// Taking the first node off takes its items off the front.
proof fn lemma_items_front(x: GroupNode, s: Seq<GroupNode>)
    ensures
        items_of(seq![x] + s) == fork_items(x) + items_of(s),
    decreases s.len(),
{
    if s.len() == 0 {
        assert(seq![x] + s =~= Seq::<GroupNode>::empty().push(x));
        lemma_items_push(Seq::empty(), x);
        assert(items_of(Seq::<GroupNode>::empty()) =~= Seq::<GroupNode>::empty());
        assert(fork_items(x) + items_of(s) =~= fork_items(x));
        assert(Seq::<GroupNode>::empty() + fork_items(x) =~= fork_items(x));
    } else {
        lemma_items_front(x, s.drop_last());
        assert((seq![x] + s).drop_last() =~= seq![x] + s.drop_last());
        assert((seq![x] + s).last() == s.last());
        assert(fork_items(x) + items_of(s.drop_last()) + fork_items(s.last()) =~= fork_items(x) + (items_of(s.drop_last()) + fork_items(s.last())));
    }
}

/// Nodes that are not forks are their own items.
proof fn lemma_items_plain(s: Seq<GroupNode>)
    requires
        forall|j: int| 0 <= j < s.len() ==> !(#[trigger] s[j].data is Fork),
    ensures
        items_of(s) == s,
    decreases s.len(),
{
    if s.len() > 0 {
        assert forall|j: int| 0 <= j < s.drop_last().len() implies !(#[trigger] s.drop_last()[j].data is Fork) by {
            assert(s.drop_last()[j] == s[j]);
        }
        lemma_items_plain(s.drop_last());
        assert(!(s[s.len() - 1].data is Fork));
        assert(s =~= s.drop_last().push(s.last()));
    }
}

impl GroupBuilderNode {
    /// Put a leaf of type `tid` at `path` below this directory, making the
    /// directories on the way that are not there yet.
    pub fn insert(&mut self, path: VecDeque<String>, tid: u64)
        requires
            node_wf(*old(self)),
            *old(self) is Directory,
            insertable(*old(self), path_names(path@)),
        ensures
            node_wf(*final(self)),
            *final(self) is Directory,
            non_empty(*final(self)),
            forall|p: Seq<Seq<u8>>| #[trigger] leaf_at(*final(self), p) == if p == path_names(path@) {
                Some(tid)
            } else {
                leaf_at(*old(self), p)
            },
    {
        let mut node = GroupBuilderNode::Leaf { tid: 0 };
        std::mem::swap(self, &mut node);
        *self = insert_node(node, path, tid);
    }

    /// The built form of this node: a directory becomes a tree of forks,
    /// paired off round by round so that it stays nearly balanced, over its
    /// children labeled with their names.
    pub fn build(self) -> (r: GroupNode)
        requires
            node_wf(self),
            non_empty(self),
        ensures
            built_from(r, self),
            self matches GroupBuilderNode::Directory { children } ==> fork_depth(r) <= ceil_log2_spec(children@.len() as int),
        decreases self,
    {
        match self {
            GroupBuilderNode::Leaf { tid } => GroupNode { id: 0, data: GroupNodeInner::Leaf(tid) },
            GroupBuilderNode::Directory { children } => {
                let ghost cs = children@;
                let ghost whole = self;
                let mut children = children;
                let mut items: VecDeque<GroupNode> = VecDeque::new();
                while children.len() > 0
                    invariant
                        whole == self,
                        whole matches GroupBuilderNode::Directory { children: c0 } && c0@ == cs,
                        children@ == cs.subrange(0, children@.len() as int),
                        items@.len() + children@.len() == cs.len(),
                        forall|k: int| 0 <= k < cs.len() ==> node_wf(*(#[trigger] cs[k]).1) && non_empty(*cs[k].1),
                        forall|j: int| 0 <= j < items@.len() ==> labeled_from(#[trigger] items@[j], cs[children@.len() + j]),
                    decreases children@.len(),
                {
                    let ghost k = children@.len() - 1;
                    let (name, child) = children.pop().unwrap();
                    proof {
                        assert(cs[k] == (name, child));
                        assert(decreases_to!(whole => *child));
                    }
                    let sub = (*child).build();
                    let item = GroupNode { id: 0, data: GroupNodeInner::Labeled(name, Box::new(sub)) };
                    let ghost before = items@;
                    items.push_front(item);
                    proof {
                        assert forall|j: int| 0 <= j < items@.len() implies labeled_from(#[trigger] items@[j], cs[children@.len() + j]) by {
                            if j > 0 {
                                assert(items@[j] == before[j - 1]);
                            }
                        }
                    }
                }
                proof {
                    assert(forall|j: int| 0 <= j < items@.len() ==> labeled_from(#[trigger] items@[j], cs[j]));
                    assert forall|j: int| 0 <= j < items@.len() implies !(#[trigger] items@[j].data is Fork) by {
                        assert(labeled_from(items@[j], cs[j]));
                    }
                    lemma_items_plain(items@);
                }
                let ghost labeled = items@;
                let ghost mut rounds: int = 0;
                proof {
                    assert forall|j: int| 0 <= j < items@.len() implies fork_depth(#[trigger] items@[j]) <= rounds by {
                        assert(labeled_from(items@[j], cs[j]));
                    }
                }
                while items.len() > 1
                    invariant
                        items@.len() >= 1,
                        items_of(items@) == labeled,
                        forall|j: int| 0 <= j < items@.len() ==> forks_unnumbered(#[trigger] items@[j]),
                        rounds >= 0,
                        rounds + ceil_log2_spec(items@.len() as int) == ceil_log2_spec(cs.len() as int),
                        forall|j: int| 0 <= j < items@.len() ==> fork_depth(#[trigger] items@[j]) <= rounds,
                    decreases items@.len(),
                {
                    let ghost n0 = items@.len();
                    let mut next: VecDeque<GroupNode> = VecDeque::new();
                    while items.len() > 1
                        invariant
                            2 * next@.len() + items@.len() == n0,
                            items_of(next@) + items_of(items@) == labeled,
                            forall|j: int| 0 <= j < items@.len() ==> forks_unnumbered(#[trigger] items@[j]),
                            forall|j: int| 0 <= j < next@.len() ==> forks_unnumbered(#[trigger] next@[j]),
                            forall|j: int| 0 <= j < items@.len() ==> fork_depth(#[trigger] items@[j]) <= rounds,
                            forall|j: int| 0 <= j < next@.len() ==> fork_depth(#[trigger] next@[j]) <= rounds + 1,
                        decreases items@.len(),
                    {
                        let ghost before = items@;
                        let a = items.pop_front().unwrap();
                        let b = items.pop_front().unwrap();
                        let ghost prev = next@;
                        let f = GroupNode { id: 0, data: GroupNodeInner::Fork(Box::new(a), Box::new(b)) };
                        next.push_back(f);
                        proof {
                            assert(before =~= seq![a] + (seq![b] + items@));
                            lemma_items_front(a, seq![b] + items@);
                            lemma_items_front(b, items@);
                            lemma_items_push(prev, f);
                            assert(fork_items(f) == fork_items(a) + fork_items(b));
                            assert(items_of(next@) + items_of(items@) =~= items_of(prev) + items_of(before));
                            assert(forks_unnumbered(before[0]) && forks_unnumbered(before[1]));
                            assert forall|j: int| 0 <= j < items@.len() implies forks_unnumbered(#[trigger] items@[j]) by {
                                assert(items@[j] == before[j + 2]);
                            }
                            assert forall|j: int| 0 <= j < next@.len() implies forks_unnumbered(#[trigger] next@[j]) by {
                                if j < prev.len() {
                                    assert(next@[j] == prev[j]);
                                }
                            }
                            assert(fork_depth(before[0]) <= rounds && fork_depth(before[1]) <= rounds);
                            assert forall|j: int| 0 <= j < items@.len() implies fork_depth(#[trigger] items@[j]) <= rounds by {
                                assert(items@[j] == before[j + 2]);
                            }
                            assert forall|j: int| 0 <= j < next@.len() implies fork_depth(#[trigger] next@[j]) <= rounds + 1 by {
                                if j < prev.len() {
                                    assert(next@[j] == prev[j]);
                                }
                            }
                        }
                    }
                    if items.len() == 1 {
                        let ghost prev = next@;
                        let ghost before = items@;
                        let last = items.pop_front().unwrap();
                        next.push_back(last);
                        proof {
                            assert(before =~= seq![last]);
                            lemma_items_push(prev, last);
                            lemma_items_push(Seq::empty(), last);
                            assert(seq![last] =~= Seq::<GroupNode>::empty().push(last));
                            assert(items_of(Seq::<GroupNode>::empty()) =~= Seq::<GroupNode>::empty());
                            assert(items_of(seq![last]) =~= fork_items(last));
                            assert forall|j: int| 0 <= j < next@.len() implies forks_unnumbered(#[trigger] next@[j]) by {
                                if j < prev.len() {
                                    assert(next@[j] == prev[j]);
                                }
                            }
                            assert(fork_depth(before[0]) <= rounds);
                            assert forall|j: int| 0 <= j < next@.len() implies fork_depth(#[trigger] next@[j]) <= rounds + 1 by {
                                if j < prev.len() {
                                    assert(next@[j] == prev[j]);
                                }
                            }
                        }
                    } else {
                        proof {
                            assert(items_of(items@) =~= Seq::<GroupNode>::empty());
                            assert(items_of(next@) + items_of(items@) =~= items_of(next@));
                        }
                    }
                    proof {
                        assert(items_of(Seq::<GroupNode>::empty()) =~= Seq::<GroupNode>::empty());
                        assert(items_of(next@) + Seq::<GroupNode>::empty() =~= items_of(next@));
                        assert(next@.len() == (n0 + 1) / 2);
                        assert(ceil_log2_spec(n0 as int) == 1 + ceil_log2_spec((n0 as int + 1) / 2));
                        rounds = rounds + 1;
                    }
                    items = next;
                }
                let ghost before = items@;
                let g = items.pop_front().unwrap();
                proof {
                    assert(before =~= seq![g]);
                    assert(seq![g] =~= Seq::<GroupNode>::empty().push(g));
                    lemma_items_push(Seq::empty(), g);
                    assert(items_of(Seq::<GroupNode>::empty()) =~= Seq::<GroupNode>::empty());
                    assert(fork_items(g) =~= labeled);
                    assert(ceil_log2_spec(1) == 0);
                    assert(fork_depth(before[0]) <= rounds);
                    assert forall|i: int| 0 <= i < cs.len() implies labeled_from(#[trigger] fork_items(g)[i], cs[i]) by {
                        assert(fork_items(g)[i] == labeled[i]);
                    }
                }
                g
            },
        }
    }
}

/// A built group: its tree of nodes, and each leaf type with its data.
pub struct Group<L> {
    pub root: GroupNode,
    pub data: Vec<(u64, L)>,
}

/// A group under construction: a directory tree whose leaves name types, and
/// each type with its data.
pub struct GroupBuilder<L> {
    root: GroupBuilderNode,
    data: Vec<(u64, L)>,
}

/// No leaf of `leaves` lies on `path`, at it or below it, and the path is not
/// empty.
pub open spec fn path_free(leaves: Map<Seq<Seq<u8>>, u64>, path: Seq<Seq<u8>>) -> bool {
    &&& path.len() > 0
    &&& forall|p: Seq<Seq<u8>>| #[trigger] leaves.dom().contains(p) ==> !path_prefix(p, path) && !path_prefix(path, p)
}

/// Some entry of `data` is of type `tid`.
pub open spec fn type_used<L>(data: Seq<(u64, L)>, tid: u64) -> bool {
    exists|i: int| 0 <= i < data.len() && (#[trigger] data[i]).0 == tid
}

impl<L> GroupBuilder<L> {
    /// The tree is well formed, each type is used once, and the leaves and
    /// the data name the same types.
    pub closed spec fn wf(&self) -> bool {
        &&& node_wf(self.root)
        &&& self.root is Directory
        &&& forall|i: int, j: int| 0 <= i < j < self.data@.len() ==> (#[trigger] self.data@[i]).0 != (#[trigger] self.data@[j]).0
        &&& forall|p: Seq<Seq<u8>>| #[trigger] leaf_at(self.root, p) is Some ==> type_used(self.data@, leaf_at(self.root, p)->Some_0)
        &&& forall|i: int| 0 <= i < self.data@.len() ==> exists|p: Seq<Seq<u8>>| #[trigger] leaf_at(self.root, p) == Some((#[trigger] self.data@[i]).0)
    }

    /// The directory tree.
    pub closed spec fn root(&self) -> GroupBuilderNode {
        self.root
    }

    /// The type of each leaf, by its path.
    pub closed spec fn leaves(&self) -> Map<Seq<Seq<u8>>, u64> {
        Map::new(|p: Seq<Seq<u8>>| leaf_at(self.root, p) is Some, |p: Seq<Seq<u8>>| leaf_at(self.root, p)->Some_0)
    }

    /// Each leaf type with its data, in the order they were put in.
    pub closed spec fn data(&self) -> Seq<(u64, L)> {
        self.data@
    }

    /// An empty group.
    pub fn new() -> (r: Self)
        ensures
            r.wf(),
            r.leaves() == Map::<Seq<Seq<u8>>, u64>::empty(),
            r.data() == Seq::<(u64, L)>::empty(),
    {
        let r = GroupBuilder { root: GroupBuilderNode::Directory { children: Vec::new() }, data: Vec::new() };
        proof {
            assert forall|p: Seq<Seq<u8>>| #[trigger] leaf_at(r.root, p) is None by {
                if p.len() > 0 {
                    lemma_child_leaf_named(Seq::empty(), p);
                }
            }
            assert(r.leaves() =~= Map::<Seq<Seq<u8>>, u64>::empty());
        }
        r
    }

    /// Put `data`, of type `tid`, at `path`, making the directories on the
    /// way that are not there yet.
    pub fn insert(self, path: Vec<String>, tid: u64, data: L) -> (r: Self)
        requires
            self.wf(),
            !type_used(self.data(), tid),
            path_free(self.leaves(), path_names(path@)),
        ensures
            r.wf(),
            r.leaves() == self.leaves().insert(path_names(path@), tid),
            r.data() == self.data().push((tid, data)),
    {
        let ghost full = path_names(path@);
        let ghost old_root = self.root;
        let ghost old_data = self.data@;
        let mut this = self;
        let mut path = path;
        let ghost whole = path@;
        let mut names: VecDeque<String> = VecDeque::new();
        while path.len() > 0
            invariant
                path@ + names@ == whole,
            decreases path@.len(),
        {
            let ghost before = names@;
            let ghost rest = path@;
            let x = path.pop().unwrap();
            names.push_front(x);
            proof {
                assert(rest =~= path@.push(x));
                assert(path@ + names@ =~= rest + before);
            }
        }
        proof {
            assert(names@ =~= whole);
            assert forall|p: Seq<Seq<u8>>| #[trigger] leaf_at(old_root, p) is Some implies !path_prefix(p, full) && !path_prefix(full, p) by {
                assert(self.leaves().dom().contains(p));
            }
        }
        this.data.push((tid, data));
        this.root.insert(names, tid);
        proof {
            let nd = this.data@;
            assert(nd == old_data.push((tid, data)));
            assert forall|i: int, j: int| 0 <= i < j < nd.len() implies (#[trigger] nd[i]).0 != (#[trigger] nd[j]).0 by {
                if j == nd.len() - 1 {
                    assert(nd[i] == old_data[i]);
                    if nd[i].0 == tid {
                        assert(type_used(old_data, tid));
                    }
                } else {
                    assert(nd[i] == old_data[i] && nd[j] == old_data[j]);
                }
            }
            assert forall|p: Seq<Seq<u8>>| #[trigger] leaf_at(this.root, p) is Some implies type_used(nd, leaf_at(this.root, p)->Some_0) by {
                if p == full {
                    assert(nd[nd.len() - 1].0 == tid);
                } else {
                    let t = leaf_at(old_root, p)->Some_0;
                    let i = choose|i: int| 0 <= i < old_data.len() && (#[trigger] old_data[i]).0 == t;
                    assert(nd[i] == old_data[i]);
                }
            }
            assert forall|i: int| 0 <= i < nd.len() implies exists|p: Seq<Seq<u8>>| #[trigger] leaf_at(this.root, p) == Some((#[trigger] nd[i]).0) by {
                if i == nd.len() - 1 {
                    assert(leaf_at(this.root, full) == Some(tid));
                } else {
                    assert(nd[i] == old_data[i]);
                    let p = choose|p: Seq<Seq<u8>>| #[trigger] leaf_at(old_root, p) == Some(old_data[i].0);
                    assert(p != full) by {
                        assert(path_prefix(p, p)) by {
                            assert(p.subrange(0, p.len() as int) =~= p);
                        }
                    }
                    assert(leaf_at(this.root, p) == Some(nd[i].0));
                }
            }
            assert(this.leaves() =~= self.leaves().insert(full, tid));
        }
        this
    }

    /// The built group: the directory tree made into a tree of labeled and
    /// forked nodes, with the data of every leaf type.
    pub fn build(self) -> (r: Group<L>)
        requires
            self.wf(),
            exists|p: Seq<Seq<u8>>| #[trigger] self.leaves().dom().contains(p),
        ensures
            built_from(r.root, self.root()),
            r.data@ == self.data(),
    {
        proof {
            let p = choose|p: Seq<Seq<u8>>| #[trigger] self.leaves().dom().contains(p);
            if self.root->children@.len() == 0 {
                if p.len() > 0 {
                    lemma_child_leaf_named(self.root->children@, p);
                }
                assert(false);
            }
        }
        let GroupBuilder { root, data } = self;
        Group { root: root.build(), data }
    }
}

impl<L> Default for GroupBuilder<L> {
    fn default() -> (r: Self)
        ensures
            r.wf(),
            r.leaves() == Map::<Seq<Seq<u8>>, u64>::empty(),
            r.data() == Seq::<(u64, L)>::empty(),
    {
        Self::new()
    }
}

/// The type of the leaf at `path` in a built group, if there is one: a
/// labeled node passes the rest of the path to its child, and a fork looks in
/// its left child first.
pub open spec fn group_leaf_at(g: GroupNode, path: Seq<Seq<u8>>) -> Option<u64>
    decreases g,
{
    match g.data {
        GroupNodeInner::Leaf(tid) => if path.len() == 0 { Some(tid) } else { None },
        GroupNodeInner::Labeled(name, sub) => if path.len() > 0 && name_bytes(name) == path[0] {
            group_leaf_at(*sub, path.drop_first())
        } else {
            None
        },
        GroupNodeInner::Fork(a, b) => match group_leaf_at(*a, path) {
            Some(t) => Some(t),
            None => group_leaf_at(*b, path),
        },
    }
}

/// The first leaf at `path` among the nodes `s`, from the left.
pub open spec fn items_leaf_at(s: Seq<GroupNode>, path: Seq<Seq<u8>>) -> Option<u64>
    decreases s.len(),
{
    if s.len() == 0 {
        None
    } else {
        match group_leaf_at(s[0], path) {
            Some(t) => Some(t),
            None => items_leaf_at(s.drop_first(), path),
        }
    }
}

proof fn lemma_items_leaf_concat(a: Seq<GroupNode>, b: Seq<GroupNode>, path: Seq<Seq<u8>>)
    ensures
        items_leaf_at(a + b, path) == match items_leaf_at(a, path) {
            Some(t) => Some(t),
            None => items_leaf_at(b, path),
        },
    decreases a.len(),
{
    if a.len() == 0 {
        assert(a + b =~= b);
    } else {
        assert((a + b)[0] == a[0]);
        assert((a + b).drop_first() =~= a.drop_first() + b);
        lemma_items_leaf_concat(a.drop_first(), b, path);
    }
}

/// Looking through the forks of a group is looking through its items.
proof fn lemma_fork_leaf(g: GroupNode, path: Seq<Seq<u8>>)
    ensures
        group_leaf_at(g, path) == items_leaf_at(fork_items(g), path),
    decreases g,
{
    match g.data {
        GroupNodeInner::Fork(a, b) => {
            lemma_fork_leaf(*a, path);
            lemma_fork_leaf(*b, path);
            lemma_items_leaf_concat(fork_items(*a), fork_items(*b), path);
            assert(fork_items(g) == fork_items(*a) + fork_items(*b));
            if group_leaf_at(*a, path) is Some {
                assert(group_leaf_at(g, path) == group_leaf_at(*a, path));
                assert(items_leaf_at(fork_items(g), path) == items_leaf_at(fork_items(*a), path));
            } else {
                assert(group_leaf_at(g, path) == group_leaf_at(*b, path));
                assert(items_leaf_at(fork_items(g), path) == items_leaf_at(fork_items(*b), path));
            }
        },
        _ => {
            assert(seq![g].drop_first() =~= Seq::<GroupNode>::empty());
            assert(items_leaf_at(Seq::<GroupNode>::empty(), path) is None);
            assert(fork_items(g) == seq![g]);
        },
    }
}

/// Where only the `i`-th node has a leaf at `path`, the items find it.
proof fn lemma_items_leaf_one(s: Seq<GroupNode>, i: int, path: Seq<Seq<u8>>)
    requires
        0 <= i < s.len(),
        forall|j: int| 0 <= j < s.len() && j != i ==> group_leaf_at(#[trigger] s[j], path) is None,
    ensures
        items_leaf_at(s, path) == group_leaf_at(s[i], path),
    decreases s.len(),
{
    if i == 0 {
        if group_leaf_at(s[0], path) is None {
            assert forall|j: int| 0 <= j < s.drop_first().len() implies group_leaf_at(#[trigger] s.drop_first()[j], path) is None by {
                assert(s.drop_first()[j] == s[j + 1]);
            }
            lemma_items_leaf_none(s.drop_first(), path);
        }
    } else {
        assert forall|j: int| 0 <= j < s.drop_first().len() && j != i - 1 implies group_leaf_at(#[trigger] s.drop_first()[j], path) is None by {
            assert(s.drop_first()[j] == s[j + 1]);
        }
        lemma_items_leaf_one(s.drop_first(), i - 1, path);
    }
}

/// Where no node has a leaf at `path`, the items find none.
proof fn lemma_items_leaf_none(s: Seq<GroupNode>, path: Seq<Seq<u8>>)
    requires
        forall|j: int| 0 <= j < s.len() ==> group_leaf_at(#[trigger] s[j], path) is None,
    ensures
        items_leaf_at(s, path) is None,
    decreases s.len(),
{
    if s.len() > 0 {
        assert(group_leaf_at(s[0], path) is None);
        assert forall|j: int| 0 <= j < s.drop_first().len() implies group_leaf_at(#[trigger] s.drop_first()[j], path) is None by {
            assert(s.drop_first()[j] == s[j + 1]);
        }
        lemma_items_leaf_none(s.drop_first(), path);
    }
}

/// The built form of a node has the node's leaves at the same paths.
proof fn lemma_built_leaf(g: GroupNode, n: GroupBuilderNode, path: Seq<Seq<u8>>)
    requires
        built_from(g, n),
        node_wf(n),
    ensures
        group_leaf_at(g, path) == leaf_at(n, path),
    decreases n,
{
    match n {
        GroupBuilderNode::Leaf { tid } => {},
        GroupBuilderNode::Directory { children } => {
            let cs = children@;
            let items = fork_items(g);
            lemma_fork_leaf(g, path);
            if path.len() == 0 {
                assert forall|j: int| 0 <= j < items.len() implies group_leaf_at(#[trigger] items[j], path) is None by {
                    assert(labeled_from(items[j], cs[j]));
                }
                lemma_items_leaf_none(items, path);
            } else {
                lemma_child_leaf_named(cs, path);
                lemma_named_lookup(cs, path[0]);
                if exists|i: int| 0 <= i < cs.len() && name_bytes(cs[i].0) == path[0] {
                    let i = choose|i: int| 0 <= i < cs.len() && name_bytes(cs[i].0) == path[0];
                    assert(labeled_from(items[i], cs[i]));
                    let sub = items[i].data->Labeled_1;
                    assert(decreases_to!(n => *cs[i].1));
                    lemma_built_leaf(*sub, *cs[i].1, path.drop_first());
                    assert forall|j: int| 0 <= j < items.len() && j != i implies group_leaf_at(#[trigger] items[j], path) is None by {
                        assert(labeled_from(items[j], cs[j]));
                        if j < i {
                            assert(lex_lt(name_bytes(cs[j].0), name_bytes(cs[i].0)));
                        } else {
                            assert(lex_lt(name_bytes(cs[i].0), name_bytes(cs[j].0)));
                        }
                        lemma_lex_irreflexive(name_bytes(cs[i].0));
                    }
                    lemma_items_leaf_one(items, i, path);
                } else {
                    assert forall|j: int| 0 <= j < items.len() implies group_leaf_at(#[trigger] items[j], path) is None by {
                        assert(labeled_from(items[j], cs[j]));
                    }
                    lemma_items_leaf_none(items, path);
                }
            }
        },
    }
}

/// A group built from a builder has, at every path, exactly the leaf the
/// builder has there.
pub proof fn lemma_build_keeps_leaves<L>(b: GroupBuilder<L>, g: Group<L>, path: Seq<Seq<u8>>)
    requires
        b.wf(),
        built_from(g.root, b.root()),
    ensures
        group_leaf_at(g.root, path) == if b.leaves().dom().contains(path) {
            Some(b.leaves()[path])
        } else {
            None
        },
{
    lemma_built_leaf(g.root, b.root, path);
}

} // verus!
