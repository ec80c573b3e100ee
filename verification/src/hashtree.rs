//! Merkle hash trees: the witnesses that a certified data structure hands
//! out, and the hashing that turns a tree into its root hash.

use vstd::prelude::*;
use sha2::Digest;

verus! {

/// A SHA-256 hash.
pub type Hash = [u8; 32];

/// A hash tree: a full tree of the certified data, or a witness that prunes
/// the parts a reader need not see down to their hashes.
#[derive(Debug, PartialEq, Eq)]
pub enum HashTree {
    Empty,
    Fork(Box<(HashTree, HashTree)>),
    Labeled(Vec<u8>, Box<HashTree>),
    Leaf(Vec<u8>),
    Pruned(Hash),
}

/// A hash tree as the contracts see it: labels, leaves and pruned hashes
/// as byte sequences.
pub enum TreeView {
    Empty,
    Fork(Box<TreeView>, Box<TreeView>),
    Labeled(Seq<u8>, Box<TreeView>),
    Leaf(Seq<u8>),
    Pruned(Seq<u8>),
}

/// The view of a hash tree.
pub open spec fn tree_view(t: HashTree) -> TreeView
    decreases t,
{
    match t {
        HashTree::Empty => TreeView::Empty,
        HashTree::Fork(b) => TreeView::Fork(Box::new(tree_view(b.0)), Box::new(tree_view(b.1))),
        HashTree::Labeled(l, sub) => TreeView::Labeled(l@, Box::new(tree_view(*sub))),
        HashTree::Leaf(d) => TreeView::Leaf(d@),
        HashTree::Pruned(h) => TreeView::Pruned(h@),
    }
}

/// Three parts of a tree joined left to right, with empty sides folded
/// away, as `three_way_fork` joins them when the middle is not pruned.
pub open spec fn three_way_view(l: TreeView, m: TreeView, r: TreeView) -> TreeView {
    if l is Empty && r is Empty {
        m
    } else if r is Empty {
        TreeView::Fork(Box::new(l), Box::new(m))
    } else if l is Empty {
        TreeView::Fork(Box::new(m), Box::new(r))
    } else {
        TreeView::Fork(Box::new(l), Box::new(TreeView::Fork(Box::new(m), Box::new(r))))
    }
}

/// The SHA-256 digest of `data`.
pub uninterp spec fn sha256_spec(data: Seq<u8>) -> Seq<u8>;

/// Calls `sha2::Sha256::digest`: its result is the SHA-256 digest of the
/// bytes, which is a function of the bytes alone (named `sha256_spec`).
#[verifier::external_body]
pub(crate) fn sha256(data: &[u8]) -> (r: Hash)
    ensures
        r@ == sha256_spec(data@),
{
    sha2::Sha256::digest(data).into()
}

/// The domain separator of an empty tree: its length, then
/// `"ic-hashtree-empty"`.
pub open spec fn empty_tag() -> Seq<u8> {
    seq![17u8, 105u8, 99u8, 45u8, 104u8, 97u8, 115u8, 104u8, 116u8, 114u8, 101u8, 101u8, 45u8, 101u8, 109u8, 112u8, 116u8, 121u8]
}

/// The domain separator of a fork: its length, then `"ic-hashtree-fork"`.
pub open spec fn fork_tag() -> Seq<u8> {
    seq![16u8, 105u8, 99u8, 45u8, 104u8, 97u8, 115u8, 104u8, 116u8, 114u8, 101u8, 101u8, 45u8, 102u8, 111u8, 114u8, 107u8]
}

/// The domain separator of a labeled tree: its length, then
/// `"ic-hashtree-labeled"`.
pub open spec fn labeled_tag() -> Seq<u8> {
    seq![19u8, 105u8, 99u8, 45u8, 104u8, 97u8, 115u8, 104u8, 116u8, 114u8, 101u8, 101u8, 45u8, 108u8, 97u8, 98u8, 101u8, 108u8, 101u8, 100u8]
}

/// The domain separator of a leaf: its length, then `"ic-hashtree-leaf"`.
pub open spec fn leaf_tag() -> Seq<u8> {
    seq![16u8, 105u8, 99u8, 45u8, 104u8, 97u8, 115u8, 104u8, 116u8, 114u8, 101u8, 101u8, 45u8, 108u8, 101u8, 97u8, 102u8]
}

/// The hash of an empty tree.
pub open spec fn empty_hash_spec() -> Seq<u8> {
    sha256_spec(empty_tag())
}

/// The hash of a fork of two trees with these hashes.
pub open spec fn fork_hash_spec(l: Seq<u8>, r: Seq<u8>) -> Seq<u8> {
    sha256_spec(fork_tag() + l + r)
}

/// The hash of a tree with this hash under a label.
pub open spec fn labeled_hash_spec(label: Seq<u8>, content: Seq<u8>) -> Seq<u8> {
    sha256_spec(labeled_tag() + label + content)
}

/// The hash of a leaf.
pub open spec fn leaf_hash_spec(data: Seq<u8>) -> Seq<u8> {
    sha256_spec(leaf_tag() + data)
}

/// The root hash of a tree.
pub open spec fn reconstruct_spec(t: HashTree) -> Seq<u8>
    decreases t,
{
    match t {
        HashTree::Empty => empty_hash_spec(),
        HashTree::Fork(b) => fork_hash_spec(reconstruct_spec(b.0), reconstruct_spec(b.1)),
        HashTree::Labeled(l, sub) => labeled_hash_spec(l@, reconstruct_spec(*sub)),
        HashTree::Leaf(d) => leaf_hash_spec(d@),
        HashTree::Pruned(h) => h@,
    }
}

/// The labels of a tree that are not nested under another label, left to
/// right.
pub open spec fn labels_spec(t: HashTree) -> Seq<Seq<u8>>
    decreases t,
{
    match t {
        HashTree::Labeled(l, _) => seq![l@],
        HashTree::Fork(b) => labels_spec(b.0) + labels_spec(b.1),
        _ => Seq::empty(),
    }
}

/// The labeled subtrees at the top of a tree, left to right, each with its
/// label.
pub open spec fn labeled_parts(t: HashTree) -> Seq<(Seq<u8>, HashTree)>
    decreases t,
{
    match t {
        HashTree::Labeled(l, sub) => seq![(l@, *sub)],
        HashTree::Fork(b) => labeled_parts(b.0) + labeled_parts(b.1),
        _ => Seq::empty(),
    }
}

/// The leaf values of a tree, left to right.
pub open spec fn leaf_values_spec(t: HashTree) -> Seq<Seq<u8>>
    decreases t,
{
    match t {
        HashTree::Leaf(d) => seq![d@],
        HashTree::Fork(b) => leaf_values_spec(b.0) + leaf_values_spec(b.1),
        HashTree::Labeled(_, sub) => leaf_values_spec(*sub),
        _ => Seq::empty(),
    }
}

/// A copy of the bytes.
pub fn copy_bytes(s: &[u8]) -> (r: Vec<u8>)
    ensures
        r@ == s@,
{
    let mut r: Vec<u8> = Vec::new();
    let mut i: usize = 0;
    while i < s.len()
        invariant
            i <= s@.len(),
            r@ == s@.subrange(0, i as int),
        decreases s@.len() - i,
    {
        r.push(s[i]);
        i = i + 1;
        proof {
            assert(r@ =~= s@.subrange(0, i as int));
        }
    }
    proof {
        assert(r@ =~= s@);
    }
    r
}

/// Append the bytes `s` to `v`.
pub(crate) fn push_bytes(v: &mut Vec<u8>, s: &[u8])
    ensures
        final(v)@ == old(v)@ + s@,
{
    let ghost start = v@;
    let mut i: usize = 0;
    while i < s.len()
        invariant
            i <= s@.len(),
            v@ == start + s@.subrange(0, i as int),
        decreases s@.len() - i,
    {
        v.push(s[i]);
        i = i + 1;
        proof {
            assert(v@ =~= start + s@.subrange(0, i as int));
        }
    }
    proof {
        assert(s@.subrange(0, s@.len() as int) =~= s@);
    }
}

/// The hash of an empty tree.
pub fn empty_hash() -> (r: Hash)
    ensures
        r@ == empty_hash_spec(),
{
    let tag: Vec<u8> = vec![17u8, 105u8, 99u8, 45u8, 104u8, 97u8, 115u8, 104u8, 116u8, 114u8, 101u8, 101u8, 45u8, 101u8, 109u8, 112u8, 116u8, 121u8];
    proof {
        assert(tag@ =~= empty_tag());
    }
    sha256(tag.as_slice())
}

/// The hash of a fork of two trees with the given hashes.
pub fn fork_hash(l: &Hash, r: &Hash) -> (h: Hash)
    ensures
        h@ == fork_hash_spec(l@, r@),
{
    let mut buf: Vec<u8> = vec![16u8, 105u8, 99u8, 45u8, 104u8, 97u8, 115u8, 104u8, 116u8, 114u8, 101u8, 101u8, 45u8, 102u8, 111u8, 114u8, 107u8];
    proof {
        assert(buf@ =~= fork_tag());
    }
    push_bytes(&mut buf, l.as_slice());
    push_bytes(&mut buf, r.as_slice());
    sha256(buf.as_slice())
}

/// The hash of a tree with the given hash under a label.
pub fn labeled_hash(label: &[u8], content: &Hash) -> (h: Hash)
    ensures
        h@ == labeled_hash_spec(label@, content@),
{
    let mut buf: Vec<u8> = vec![19u8, 105u8, 99u8, 45u8, 104u8, 97u8, 115u8, 104u8, 116u8, 114u8, 101u8, 101u8, 45u8, 108u8, 97u8, 98u8, 101u8, 108u8, 101u8, 100u8];
    proof {
        assert(buf@ =~= labeled_tag());
    }
    push_bytes(&mut buf, label);
    push_bytes(&mut buf, content.as_slice());
    sha256(buf.as_slice())
}

/// The hash of a leaf.
pub fn leaf_hash(data: &[u8]) -> (h: Hash)
    ensures
        h@ == leaf_hash_spec(data@),
{
    let mut buf: Vec<u8> = vec![16u8, 105u8, 99u8, 45u8, 104u8, 97u8, 115u8, 104u8, 116u8, 114u8, 101u8, 101u8, 45u8, 108u8, 101u8, 97u8, 102u8];
    proof {
        assert(buf@ =~= leaf_tag());
    }
    push_bytes(&mut buf, data);
    sha256(buf.as_slice())
}

/// A fork of two trees.
pub fn fork(l: HashTree, r: HashTree) -> (t: HashTree)
    ensures
        t == HashTree::Fork(Box::new((l, r))),
{
    HashTree::Fork(Box::new((l, r)))
}

/// A tree under a label.
pub fn labeled(label: &[u8], t: HashTree) -> (r: HashTree)
    ensures
        r matches HashTree::Labeled(l, sub) && l@ == label@ && *sub == t,
{
    HashTree::Labeled(copy_bytes(label), Box::new(t))
}

impl HashTree {
    /// The root hash of this tree.
    pub fn reconstruct(&self) -> (h: Hash)
        ensures
            h@ == reconstruct_spec(*self),
        decreases self,
    {
        match self {
            HashTree::Empty => empty_hash(),
            HashTree::Fork(b) => {
                let l = b.0.reconstruct();
                let r = b.1.reconstruct();
                fork_hash(&l, &r)
            },
            HashTree::Labeled(l, sub) => {
                let h = sub.reconstruct();
                labeled_hash(l.as_slice(), &h)
            },
            HashTree::Leaf(d) => leaf_hash(d.as_slice()),
            HashTree::Pruned(h) => *h,
        }
    }

    /// Collect the labels of this tree that are not nested under another
    /// label into `out`.
    fn collect_labels(&self, out: &mut Vec<Vec<u8>>)
        ensures
            final(out)@.map_values(|v: Vec<u8>| v@) == old(out)@.map_values(|v: Vec<u8>| v@) + labels_spec(*self),
        decreases self,
    {
        match self {
            HashTree::Labeled(l, _) => {
                let ghost before = out@;
                out.push(copy_bytes(l.as_slice()));
                proof {
                    assert(out@.map_values(|v: Vec<u8>| v@) =~= before.map_values(|v: Vec<u8>| v@) + labels_spec(*self));
                }
            },
            HashTree::Fork(b) => {
                let ghost before = out@.map_values(|v: Vec<u8>| v@);
                b.0.collect_labels(out);
                b.1.collect_labels(out);
                proof {
                    assert(before + labels_spec(b.0) + labels_spec(b.1) =~= before + (labels_spec(b.0) + labels_spec(b.1)));
                }
            },
            _ => {
                proof {
                    assert(out@.map_values(|v: Vec<u8>| v@) =~= out@.map_values(|v: Vec<u8>| v@) + labels_spec(*self));
                }
            },
        }
    }

    /// The labels of this tree that are not nested under another label, left
    /// to right.
    pub fn get_labels(&self) -> (r: Vec<Vec<u8>>)
        ensures
            r@.map_values(|v: Vec<u8>| v@) == labels_spec(*self),
    {
        let mut out: Vec<Vec<u8>> = Vec::new();
        proof {
            assert(out@.map_values(|v: Vec<u8>| v@) =~= Seq::<Seq<u8>>::empty());
        }
        self.collect_labels(&mut out);
        proof {
            assert(Seq::<Seq<u8>>::empty() + labels_spec(*self) =~= labels_spec(*self));
        }
        out
    }

    /// Collect the leaf values of this tree into `out`.
    fn collect_leaf_values(&self, out: &mut Vec<Vec<u8>>)
        ensures
            final(out)@.map_values(|v: Vec<u8>| v@) == old(out)@.map_values(|v: Vec<u8>| v@) + leaf_values_spec(*self),
        decreases self,
    {
        match self {
            HashTree::Leaf(d) => {
                let ghost before = out@;
                out.push(copy_bytes(d.as_slice()));
                proof {
                    assert(out@.map_values(|v: Vec<u8>| v@) =~= before.map_values(|v: Vec<u8>| v@) + leaf_values_spec(*self));
                }
            },
            HashTree::Fork(b) => {
                let ghost before = out@.map_values(|v: Vec<u8>| v@);
                b.0.collect_leaf_values(out);
                b.1.collect_leaf_values(out);
                proof {
                    assert(before + leaf_values_spec(b.0) + leaf_values_spec(b.1) =~= before + (leaf_values_spec(b.0) + leaf_values_spec(b.1)));
                }
            },
            HashTree::Labeled(_, sub) => {
                sub.collect_leaf_values(out);
            },
            _ => {
                proof {
                    assert(out@.map_values(|v: Vec<u8>| v@) =~= out@.map_values(|v: Vec<u8>| v@) + leaf_values_spec(*self));
                }
            },
        }
    }

    /// The leaf values of this tree, left to right.
    pub fn get_leaf_values(&self) -> (r: Vec<Vec<u8>>)
        ensures
            r@.map_values(|v: Vec<u8>| v@) == leaf_values_spec(*self),
    {
        let mut out: Vec<Vec<u8>> = Vec::new();
        proof {
            assert(out@.map_values(|v: Vec<u8>| v@) =~= Seq::<Seq<u8>>::empty());
        }
        self.collect_leaf_values(&mut out);
        proof {
            assert(Seq::<Seq<u8>>::empty() + leaf_values_spec(*self) =~= leaf_values_spec(*self));
        }
        out
    }
}

/// The tree `three_way_fork` builds from a left part, a middle part and a
/// right part: empty parts on the sides are dropped, and three pruned parts
/// (or two on the right) are folded into one pruned hash.
pub open spec fn three_way_fork_spec(l: HashTree, m: HashTree, r: HashTree) -> HashTree {
    if l is Empty && r is Empty {
        m
    } else if r is Empty {
        HashTree::Fork(Box::new((l, m)))
    } else if l is Empty {
        HashTree::Fork(Box::new((m, r)))
    } else if l is Pruned && m is Pruned && r is Pruned {
        HashTree::Pruned(arbitrary())
    } else if m is Pruned && r is Pruned {
        HashTree::Fork(Box::new((l, HashTree::Pruned(arbitrary()))))
    } else {
        HashTree::Fork(Box::new((l, HashTree::Fork(Box::new((m, r))))))
    }
}

/// The root hash of a tree built from a left part, a middle part and a right
/// part, where an empty side is left out.
pub open spec fn three_way_hash(l: HashTree, m: HashTree, r: HashTree) -> Seq<u8> {
    if l is Empty && r is Empty {
        reconstruct_spec(m)
    } else if r is Empty {
        fork_hash_spec(reconstruct_spec(l), reconstruct_spec(m))
    } else if l is Empty {
        fork_hash_spec(reconstruct_spec(m), reconstruct_spec(r))
    } else {
        fork_hash_spec(reconstruct_spec(l), fork_hash_spec(reconstruct_spec(m), reconstruct_spec(r)))
    }
}

/// Join three parts of a tree, left to right, folding empty sides away and
/// pruned parts together.
pub fn three_way_fork(l: HashTree, m: HashTree, r: HashTree) -> (t: HashTree)
    ensures
        reconstruct_spec(t) == three_way_hash(l, m, r),
        t is Empty <==> (l is Empty && m is Empty && r is Empty),
        labels_spec(t) == labels_spec(l) + labels_spec(m) + labels_spec(r),
        leaf_values_spec(t) == leaf_values_spec(l) + leaf_values_spec(m) + leaf_values_spec(r),
        labeled_parts(t) == labeled_parts(l) + labeled_parts(m) + labeled_parts(r),
        !(m is Pruned) ==> tree_view(t) == three_way_view(tree_view(l), tree_view(m), tree_view(r)),
        !(l is Pruned && m is Pruned && r is Pruned) && !(!(l is Empty) && !(r is Empty) && m is Pruned && r is Pruned)
            ==> t == three_way_fork_spec(l, m, r),
{
    let ghost (gl, gm, gr) = (l, m, r);
    proof {
        assert(labels_spec(gl) + labels_spec(gm) + labels_spec(gr) =~= labels_spec(gl) + (labels_spec(gm) + labels_spec(gr)));
        assert(leaf_values_spec(gl) + leaf_values_spec(gm) + leaf_values_spec(gr) =~= leaf_values_spec(gl) + (leaf_values_spec(gm) + leaf_values_spec(gr)));
        assert(labeled_parts(gl) + labeled_parts(gm) + labeled_parts(gr) =~= labeled_parts(gl) + (labeled_parts(gm) + labeled_parts(gr)));
    }
    let t = match (l, m, r) {
        (HashTree::Empty, m, HashTree::Empty) => {
            proof {
                assert(labels_spec(gl) + labels_spec(gm) + labels_spec(gr) =~= labels_spec(gm));
                assert(leaf_values_spec(gl) + leaf_values_spec(gm) + leaf_values_spec(gr) =~= leaf_values_spec(gm));
                assert(labeled_parts(gl) + labeled_parts(gm) + labeled_parts(gr) =~= labeled_parts(gm));
            }
            m
        },
        (l, m, HashTree::Empty) => {
            proof {
                assert(labels_spec(gl) + labels_spec(gm) + labels_spec(gr) =~= labels_spec(gl) + labels_spec(gm));
                assert(leaf_values_spec(gl) + leaf_values_spec(gm) + leaf_values_spec(gr) =~= leaf_values_spec(gl) + leaf_values_spec(gm));
                assert(labeled_parts(gl) + labeled_parts(gm) + labeled_parts(gr) =~= labeled_parts(gl) + labeled_parts(gm));
            }
            fork(l, m)
        },
        (HashTree::Empty, m, r) => {
            proof {
                assert(labels_spec(gl) + labels_spec(gm) + labels_spec(gr) =~= labels_spec(gm) + labels_spec(gr));
                assert(leaf_values_spec(gl) + leaf_values_spec(gm) + leaf_values_spec(gr) =~= leaf_values_spec(gm) + leaf_values_spec(gr));
                assert(labeled_parts(gl) + labeled_parts(gm) + labeled_parts(gr) =~= labeled_parts(gm) + labeled_parts(gr));
            }
            fork(m, r)
        },
        (HashTree::Pruned(lhash), HashTree::Pruned(mhash), HashTree::Pruned(rhash)) => {
            let mr = fork_hash(&mhash, &rhash);
            let t = HashTree::Pruned(fork_hash(&lhash, &mr));
            proof {
                assert(labels_spec(gl) + labels_spec(gm) + labels_spec(gr) =~= Seq::<Seq<u8>>::empty());
                assert(leaf_values_spec(gl) + leaf_values_spec(gm) + leaf_values_spec(gr) =~= Seq::<Seq<u8>>::empty());
                assert(labeled_parts(gl) + labeled_parts(gm) + labeled_parts(gr) =~= Seq::<(Seq<u8>, HashTree)>::empty());
            }
            t
        },
        (l, HashTree::Pruned(mhash), HashTree::Pruned(rhash)) => {
            let p = HashTree::Pruned(fork_hash(&mhash, &rhash));
            proof {
                assert(reconstruct_spec(p) == fork_hash_spec(reconstruct_spec(gm), reconstruct_spec(gr)));
                assert(labels_spec(gl) + labels_spec(gm) + labels_spec(gr) =~= labels_spec(gl) + labels_spec(p));
                assert(leaf_values_spec(gl) + leaf_values_spec(gm) + leaf_values_spec(gr) =~= leaf_values_spec(gl) + leaf_values_spec(p));
                assert(labeled_parts(gl) + labeled_parts(gm) + labeled_parts(gr) =~= labeled_parts(gl) + labeled_parts(p));
            }
            fork(l, p)
        },
        (l, m, r) => {
            let mr = fork(m, r);
            proof {
                assert(reconstruct_spec(mr) == fork_hash_spec(reconstruct_spec(gm), reconstruct_spec(gr)));
                assert(labels_spec(mr) == labels_spec(gm) + labels_spec(gr));
                assert(leaf_values_spec(mr) == leaf_values_spec(gm) + leaf_values_spec(gr));
                assert(labeled_parts(mr) == labeled_parts(gm) + labeled_parts(gr));
            }
            fork(l, mr)
        },
    };
    proof {
        if !(gm is Pruned) {
            assert(t == three_way_fork_spec(gl, gm, gr));
            if !(gl is Empty) && !(gr is Empty) {
                let inner = HashTree::Fork(Box::new((gm, gr)));
                assert(tree_view(inner) == TreeView::Fork(Box::new(tree_view(gm)), Box::new(tree_view(gr))));
            }
        }
    }
    t
}

} // verus!
