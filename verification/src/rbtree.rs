//! A left-leaning red-black tree that keeps, in every node, the hash of the
//! subtree below it, so that it can hand out Merkle witnesses of its content.
//!
//! It is a low level data structure with only basic functionality; the
//! collections built on it are the intended interface.

use vstd::prelude::*;
use crate::hashtree::{
    HashTree, empty_hash, fork_hash, labeled_hash, empty_hash_spec, fork_hash_spec, labeled_hash_spec,
    reconstruct_spec, three_way_fork, three_way_hash, copy_bytes, labels_spec, leaf_values_spec, labeled_parts,
    TreeView, tree_view, three_way_view,
};
use crate::label::{
    AsHashTree, Cmp, compare_bytes, compare_spec, lex_lt, lex_le, is_prefix_of, starts_with, lemma_lex_irreflexive,
    lemma_lex_asymmetric, lemma_lex_transitive, lemma_lex_total, lemma_lex_le_lt, lemma_prefix_before,
};

verus! {

/// The color of a node.
#[derive(Debug, Clone, Copy, PartialEq, Eq)]
pub enum Color {
    Red,
    Black,
}

impl Color {
    /// The other color.
    pub fn flip(self) -> (r: Color)
        ensures
            r == (match self {
                Color::Red => Color::Black,
                Color::Black => Color::Red,
            }),
    {
        match self {
            Color::Red => Color::Black,
            Color::Black => Color::Red,
        }
    }
}

/// A node of the tree: a key-value entry, its children, its color and the
/// hash of the full hash tree of the subtree it roots.
pub struct Node<V> {
    key: Vec<u8>,
    value: V,
    left: Option<Box<Node<V>>>,
    right: Option<Box<Node<V>>>,
    color: Color,
    subtree_hash: crate::hashtree::Hash,
}

/// The entries of a subtree, by key.
pub closed spec fn tree_map<V>(t: Option<Box<Node<V>>>) -> Map<Seq<u8>, V>
    decreases t,
{
    match t {
        None => Map::empty(),
        Some(n) => tree_map(n.left).union_prefer_right(tree_map(n.right)).insert(n.key@, n.value),
    }
}

/// The hash stored at the root of a subtree, or the hash of the empty tree.
pub closed spec fn stored_hash<V>(t: Option<Box<Node<V>>>) -> Seq<u8> {
    match t {
        None => empty_hash_spec(),
        Some(n) => n.subtree_hash@,
    }
}

/// The hash of a node's own entry: its value's root hash under its key.
pub closed spec fn data_hash_spec<V: AsHashTree>(n: Node<V>) -> Seq<u8> {
    labeled_hash_spec(n.key@, n.value.root_hash_spec())
}

/// The hash of a subtree with the given parts; a missing child is left out.
pub open spec fn combine_hash(l: Option<Seq<u8>>, d: Seq<u8>, r: Option<Seq<u8>>) -> Seq<u8> {
    match (l, r) {
        (None, None) => d,
        (Some(lh), None) => fork_hash_spec(lh, d),
        (None, Some(rh)) => fork_hash_spec(d, rh),
        (Some(lh), Some(rh)) => fork_hash_spec(lh, fork_hash_spec(d, rh)),
    }
}

/// The stored hash of a child, if there is a child.
pub closed spec fn child_hash<V>(t: Option<Box<Node<V>>>) -> Option<Seq<u8>> {
    match t {
        None => None,
        Some(n) => Some(n.subtree_hash@),
    }
}

/// The hash a node should store, from its children's stored hashes.
pub closed spec fn computed_hash<V: AsHashTree>(n: Node<V>) -> Seq<u8> {
    combine_hash(child_hash(n.left), data_hash_spec(n), child_hash(n.right))
}

/// A subtree is a search tree by key (in label order), and every node stores
/// the hash of its subtree.
pub closed spec fn tree_wf<V: AsHashTree>(t: Option<Box<Node<V>>>) -> bool
    decreases t,
{
    match t {
        None => true,
        Some(n) => {
            &&& tree_wf(n.left)
            &&& tree_wf(n.right)
            &&& n.value.inv()
            &&& n.subtree_hash@ == computed_hash(*n)
            &&& forall|k: Seq<u8>| #[trigger] tree_map(n.left).dom().contains(k) ==> lex_lt(k, n.key@)
            &&& forall|k: Seq<u8>| #[trigger] tree_map(n.right).dom().contains(k) ==> lex_lt(n.key@, k)
        },
    }
}

/// The key of a subtree's root.
pub closed spec fn root_key<V>(t: Option<Box<Node<V>>>) -> Seq<u8> {
    match t {
        None => Seq::empty(),
        Some(n) => n.key@,
    }
}

/// The subtree's root is red.
pub closed spec fn is_red_spec<V>(t: Option<Box<Node<V>>>) -> bool {
    match t {
        None => false,
        Some(n) => n.color == Color::Red,
    }
}

/// The keys of a subtree are finite, and its root key is among them.
proof fn lemma_tree_map_finite<V>(t: Option<Box<Node<V>>>)
    ensures
        tree_map(t).dom().finite(),
        t matches Some(n) ==> tree_map(t).dom().contains(n.key@) && tree_map(t)[n.key@] == n.value,
    decreases t,
{
    if let Some(n) = t {
        lemma_tree_map_finite(n.left);
        lemma_tree_map_finite(n.right);
        assert(tree_map(t).dom() =~= tree_map(n.left).dom().union(tree_map(n.right).dom()).insert(n.key@));
    }
}

/// In a search tree, a key lies at the root, in the left subtree (below the
/// root key) or in the right subtree (above it), and nowhere else.
proof fn lemma_tree_parts<V: AsHashTree>(n: Box<Node<V>>)
    requires
        tree_wf(Some(n)),
    ensures
        forall|k: Seq<u8>| tree_map(Some(n)).dom().contains(k) <==> (k == n.key@ || tree_map(n.left).dom().contains(k)
            || tree_map(n.right).dom().contains(k)),
        !tree_map(n.left).dom().contains(n.key@),
        !tree_map(n.right).dom().contains(n.key@),
        forall|k: Seq<u8>| tree_map(n.left).dom().contains(k) ==> !tree_map(n.right).dom().contains(k),
        forall|k: Seq<u8>| #[trigger] tree_map(n.left).dom().contains(k) ==> tree_map(Some(n))[k] == tree_map(n.left)[k],
        forall|k: Seq<u8>| #[trigger] tree_map(n.right).dom().contains(k) ==> tree_map(Some(n))[k] == tree_map(n.right)[k],
        tree_map(Some(n))[n.key@] == n.value,
{
    lemma_lex_irreflexive(n.key@);
    assert forall|k: Seq<u8>| tree_map(n.left).dom().contains(k) implies !tree_map(n.right).dom().contains(k) by {
        if tree_map(n.right).dom().contains(k) {
            lemma_lex_transitive(k, n.key@, k);
            lemma_lex_irreflexive(k);
        }
    }
    assert forall|k: Seq<u8>| #[trigger] tree_map(n.left).dom().contains(k) implies tree_map(Some(n))[k] == tree_map(n.left)[k] by {
        assert(lex_lt(k, n.key@));
        assert(k != n.key@);
    }
}

/// Every value stored in a well-formed subtree keeps its invariant.
proof fn lemma_tree_values_inv<V: AsHashTree>(t: Option<Box<Node<V>>>, k: Seq<u8>)
    requires
        tree_wf(t),
        tree_map(t).dom().contains(k),
    ensures
        tree_map(t)[k].inv(),
    decreases t,
{
    if let Some(n) = t {
        lemma_tree_parts(n);
        if tree_map(n.left).dom().contains(k) {
            lemma_tree_values_inv(n.left, k);
        } else if tree_map(n.right).dom().contains(k) {
            lemma_tree_values_inv(n.right, k);
        }
    }
}

/// Recompute the hash a node stores from its children and its entry.
fn rehash<V: AsHashTree>(n: &mut Box<Node<V>>)
    requires
        old(n).value.inv(),
    ensures
        final(n).key == old(n).key,
        final(n).value == old(n).value,
        final(n).left == old(n).left,
        final(n).right == old(n).right,
        final(n).color == old(n).color,
        final(n).subtree_hash@ == computed_hash(**final(n)),
{
    let vh = n.value.root_hash();
    let h = labeled_hash(n.key.as_slice(), &vh);
    let new_hash = match (&n.left, &n.right) {
        (None, None) => h,
        (Some(l), None) => fork_hash(&l.subtree_hash, &h),
        (None, Some(r)) => fork_hash(&h, &r.subtree_hash),
        (Some(l), Some(r)) => {
            let hr = fork_hash(&h, &r.subtree_hash);
            fork_hash(&l.subtree_hash, &hr)
        },
    };
    n.subtree_hash = new_hash;
}

impl<V: AsHashTree> Node<V> {
    /// A new red node with no children.
    pub fn new(key: Vec<u8>, value: V) -> (r: Box<Node<V>>)
        requires
            value.inv(),
        ensures
            tree_wf(Some(r)),
            tree_map(Some(r)) == Map::<Seq<u8>, V>::empty().insert(key@, value),
            root_key(Some(r)) == key@,
            is_red_spec(Some(r)),
            llrb(Some(r), 0),
    {
        let vh = value.root_hash();
        let data_hash = labeled_hash(key.as_slice(), &vh);
        let r = Box::new(Node { key, value, left: None, right: None, color: Color::Red, subtree_hash: data_hash });
        proof {
            assert(tree_wf::<V>(None));
            assert(llrb::<V>(None, 0));
            assert(llrb(Some(r), 0));
            assert(tree_map(r.left) =~= Map::<Seq<u8>, V>::empty());
            assert(tree_map(Some(r)) =~= Map::<Seq<u8>, V>::empty().insert(key@, value));
        }
        r
    }

    /// The empty subtree.
    pub fn null() -> (r: Option<Box<Node<V>>>)
        ensures
            r is None,
    {
        None
    }
}

/// Whether the subtree's root is red; an empty subtree is black.
fn is_red<V>(t: &Option<Box<Node<V>>>) -> (r: bool)
    ensures
        r == is_red_spec(*t),
{
    match t {
        None => false,
        Some(n) => match n.color {
            Color::Red => true,
            Color::Black => false,
        },
    }
}

/// The other color.
pub open spec fn flipped(c: Color) -> Color {
    match c {
        Color::Red => Color::Black,
        Color::Black => Color::Red,
    }
}

/// Flip the colors of a node and of its children.
fn flip_colors<V: AsHashTree>(h: &mut Box<Node<V>>)
    requires
        tree_wf(Some(*old(h))),
    ensures
        tree_wf(Some(*final(h))),
        tree_map(Some(*final(h))) == tree_map(Some(*old(h))),
        final(h).key == old(h).key,
        final(h).left is Some == old(h).left is Some,
        final(h).right is Some == old(h).right is Some,
        final(h).color == flipped(old(h).color),
        old(h).left matches Some(l) ==> (final(h).left matches Some(l2) && l2.color == flipped(l.color) && l2.left
            == l.left && l2.right == l.right && l2.key == l.key),
        old(h).right matches Some(r) ==> (final(h).right matches Some(r2) && r2.color == flipped(r.color) && r2.left
            == r.left && r2.right == r.right && r2.key == r.key),
{
    h.color = h.color.flip();
    let ghost old_left = h.left;
    let ghost old_right = h.right;
    match &mut h.left {
        Some(l) => {
            l.color = l.color.flip();
        },
        None => {},
    }
    match &mut h.right {
        Some(r) => {
            r.color = r.color.flip();
        },
        None => {},
    }
    proof {
        let new_left = h.left;
        let new_right = h.right;
        assert(tree_wf(new_left) == tree_wf(old_left));
        assert(tree_wf(new_right) == tree_wf(old_right));
        assert(tree_map(h.left) == tree_map(old_left));
        assert(tree_map(h.right) == tree_map(old_right));
        assert(child_hash(h.left) == child_hash(old_left));
        assert(child_hash(h.right) == child_hash(old_right));
    }
}

/// The height of a subtree.
pub closed spec fn tree_height<V>(t: Option<Box<Node<V>>>) -> nat
    decreases t,
{
    match t {
        None => 0,
        Some(n) => 1 + vstd::math::max(tree_height(n.left) as int, tree_height(n.right) as int) as nat,
    }
}

/// Make a right-leaning red link lean to the left.
fn rotate_left<V: AsHashTree>(h: Box<Node<V>>) -> (r: Box<Node<V>>)
    requires
        tree_wf(Some(h)),
    ensures
        tree_wf(Some(r)),
        tree_map(Some(r)) == tree_map(Some(h)),
        h.right is Some ==> r.key@ == h.right.unwrap().key@ && lex_lt(h.key@, r.key@),
        h.right is None ==> r == h,
        h.right matches Some(x) ==> (r.color == h.color && r.right == x.right && (r.left matches Some(hh) && hh.color
            == Color::Red && hh.left == h.left && hh.right == x.left)),
{
    let ghost old_h = h;
    proof {
        lemma_tree_parts(h);
    }
    let mut h = h;
    let right = h.right.take();
    match right {
        None => h,
        Some(mut x) => {
            let ghost old_x = x;
            proof {
                assert(old_h.right == Some(old_x));
                assert(tree_wf(Some(old_x)));
                lemma_tree_parts(x);
            }
            h.right = x.left.take();
            x.color = h.color;
            h.color = Color::Red;
            rehash(&mut h);
            let ghost new_h = h;
            proof {
                assert(new_h.left == old_h.left);
                assert(new_h.right == old_x.left);
                assert(new_h.key == old_h.key);
                assert forall|k: Seq<u8>| #[trigger] tree_map(new_h.right).dom().contains(k) implies lex_lt(new_h.key@, k) by {
                    assert(tree_map(Some(old_x)).dom().contains(k));
                }
                assert(tree_wf(Some(new_h)));
                lemma_tree_parts(new_h);
                assert forall|k: Seq<u8>| #[trigger] tree_map(Some(new_h)).dom().contains(k) implies lex_lt(k, old_x.key@) by {
                    if tree_map(old_h.left).dom().contains(k) {
                        lemma_lex_transitive(k, old_h.key@, old_x.key@);
                    }
                }
            }
            x.left = Some(h);
            rehash(&mut x);
            proof {
                assert(tree_wf(Some(x)));
                assert(tree_map(Some(x)) =~= tree_map(Some(old_h)));
            }
            x
        },
    }
}

/// Make a left-leaning red link lean to the right.
fn rotate_right<V: AsHashTree>(h: Box<Node<V>>) -> (r: Box<Node<V>>)
    requires
        tree_wf(Some(h)),
    ensures
        tree_wf(Some(r)),
        tree_map(Some(r)) == tree_map(Some(h)),
        h.left is Some ==> r.key@ == h.left.unwrap().key@ && lex_lt(r.key@, h.key@),
        h.left is None ==> r == h,
        h.left matches Some(x) ==> (r.color == h.color && r.left == x.left && (r.right matches Some(hh) && hh.color
            == Color::Red && hh.right == h.right && hh.left == x.right && hh.key == h.key)),
{
    let ghost old_h = h;
    proof {
        lemma_tree_parts(h);
    }
    let mut h = h;
    let left = h.left.take();
    match left {
        None => h,
        Some(mut x) => {
            let ghost old_x = x;
            proof {
                assert(old_h.left == Some(old_x));
                assert(tree_wf(Some(old_x)));
                lemma_tree_parts(x);
            }
            h.left = x.right.take();
            x.color = h.color;
            h.color = Color::Red;
            rehash(&mut h);
            let ghost new_h = h;
            proof {
                assert(new_h.right == old_h.right);
                assert(new_h.left == old_x.right);
                assert(new_h.key == old_h.key);
                assert forall|k: Seq<u8>| #[trigger] tree_map(new_h.left).dom().contains(k) implies lex_lt(k, new_h.key@) by {
                    assert(tree_map(Some(old_x)).dom().contains(k));
                }
                assert(tree_wf(Some(new_h)));
                lemma_tree_parts(new_h);
                assert forall|k: Seq<u8>| #[trigger] tree_map(Some(new_h)).dom().contains(k) implies lex_lt(old_x.key@, k) by {
                    if tree_map(old_h.right).dom().contains(k) {
                        lemma_lex_transitive(old_x.key@, old_h.key@, k);
                    }
                }
            }
            x.right = Some(h);
            rehash(&mut x);
            proof {
                assert(tree_wf(Some(x)));
                assert(tree_map(Some(x)) =~= tree_map(Some(old_h)));
            }
            x
        },
    }
}

/// Whether the left child of `h` has a red left child.
fn left_left_red<V>(h: &Box<Node<V>>) -> (r: bool)
    ensures
        r == (h.left matches Some(l) && is_red_spec(l.left)),
{
    match &h.left {
        Some(l) => is_red(&l.left),
        None => false,
    }
}

/// The number of black nodes below a node of color `c` on a path that has
/// `bh` of them from the node down.
pub open spec fn black_below(c: Color, bh: nat) -> nat {
    if c == Color::Black {
        (bh - 1) as nat
    } else {
        bh
    }
}

/// The subtree is a left-leaning red-black tree with `bh` black nodes on
/// every path from its root down: no right child is red, no red node has a
/// red left child, and all paths have as many black nodes. Its root may be
/// of either color.
pub closed spec fn llrb<V>(t: Option<Box<Node<V>>>, bh: nat) -> bool
    decreases t,
{
    match t {
        None => bh == 0,
        Some(n) => {
            &&& (n.color == Color::Black ==> bh >= 1)
            &&& !is_red_spec(n.right)
            &&& (n.color == Color::Red ==> !is_red_spec(n.left))
            &&& llrb(n.left, black_below(n.color, bh))
            &&& llrb(n.right, black_below(n.color, bh))
        },
    }
}

/// Two subtrees have the same shape: the same nodes, in the same places,
/// with the same colors.
pub closed spec fn same_shape<V>(a: Option<Box<Node<V>>>, b: Option<Box<Node<V>>>) -> bool
    decreases a,
{
    match a {
        None => b is None,
        Some(x) => b matches Some(y) && x.color == y.color && same_shape(x.left, y.left) && same_shape(
            x.right,
            y.right,
        ),
    }
}

/// A subtree of the same shape as a left-leaning red-black tree is one too.
proof fn lemma_same_shape_llrb<V>(a: Option<Box<Node<V>>>, b: Option<Box<Node<V>>>, bh: nat)
    requires
        same_shape(a, b),
        llrb(a, bh),
    ensures
        llrb(b, bh),
    decreases a,
{
    if let Some(x) = a {
        let y = b.unwrap();
        lemma_same_shape_llrb(x.left, y.left, black_below(x.color, bh));
        lemma_same_shape_llrb(x.right, y.right, black_below(x.color, bh));
        lemma_same_shape_color(x.left, y.left);
        lemma_same_shape_color(x.right, y.right);
    }
}

/// Subtrees of the same shape have roots of the same color.
proof fn lemma_same_shape_color<V>(a: Option<Box<Node<V>>>, b: Option<Box<Node<V>>>)
    requires
        same_shape(a, b),
    ensures
        is_red_spec(a) == is_red_spec(b),
{
}

/// A subtree has its own shape.
proof fn lemma_same_shape_refl<V>(a: Option<Box<Node<V>>>)
    ensures
        same_shape(a, a),
    decreases a,
{
    if let Some(x) = a {
        lemma_same_shape_refl(x.left);
        lemma_same_shape_refl(x.right);
    }
}

/// The subtree's root is red, and so is its left child.
pub closed spec fn red_red<V>(t: Option<Box<Node<V>>>) -> bool {
    t matches Some(n) && n.color == Color::Red && is_red_spec(n.left)
}

/// The subtree is a left-leaning red-black tree with `bh` black nodes on
/// every path but for its root, which is red and may have a red left
/// child.
pub closed spec fn llrb_but_root<V>(t: Option<Box<Node<V>>>, bh: nat) -> bool {
    t matches Some(n) && n.color == Color::Red && !is_red_spec(n.right) && llrb(n.left, bh) && llrb(n.right, bh)
}

/// A node whose children were just updated that `balance` makes a
/// left-leaning red-black tree again: its children have the right black
/// height, the left one may have a red root with a red left child, and no
/// two reds meet that one rotation and one color flip cannot part.
pub closed spec fn fixable<V>(h: Node<V>, bh: nat) -> bool {
    let b = black_below(h.color, bh);
    &&& (h.color == Color::Black ==> bh >= 1)
    &&& (llrb_but_root(h.left, b) || llrb(h.left, b))
    &&& llrb(h.right, b)
    &&& !(red_red(h.left) && is_red_spec(h.right))
    &&& (h.color == Color::Red ==> !red_red(h.left) && !(is_red_spec(h.left) && is_red_spec(h.right)))
}

/// A red subtree that is a left-leaning red-black tree keeps its shape but
/// for its root.
proof fn lemma_llrb_red<V>(t: Option<Box<Node<V>>>, bh: nat)
    requires
        llrb(t, bh),
        is_red_spec(t),
    ensures
        llrb_but_root(t, bh),
        !red_red(t),
{
}

/// Restore the left-leaning shape at `h` after an update below it.
fn balance<V: AsHashTree>(h: Box<Node<V>>, Ghost(bh): Ghost<nat>) -> (r: Box<Node<V>>)
    requires
        tree_wf(Some(h)),
    ensures
        tree_wf(Some(r)),
        tree_map(Some(r)) == tree_map(Some(h)),
        fixable(*h, bh) && h.color == Color::Black ==> llrb(Some(r), bh),
        fixable(*h, bh) && h.color == Color::Red ==> llrb_but_root(Some(r), bh),
        !is_red_spec(h.left) && !is_red_spec(h.right) ==> r == h,
        fixable(*h, bh) && h.color == Color::Black && llrb(h.left, black_below(h.color, bh)) && !(is_red_spec(h.left)
            && is_red_spec(h.right)) ==> r.color == Color::Black,
{
    let ghost h0 = *h;
    let ghost b = black_below(h0.color, bh);
    let mut h = h;
    if is_red(&h.right) && !is_red(&h.left) {
        h = rotate_left(h);
        proof {
            if fixable(h0, bh) {
                let x0 = h0.right.unwrap();
                assert(llrb(Some(x0), b));
                if !(h0.left is None) {
                    assert(llrb(h0.left, b));
                }
                let hh = h.left.unwrap();
                if h0.color == Color::Black {
                    assert(llrb(h.left, b));
                    assert(llrb(Some(h), bh));
                } else {
                    assert(llrb(hh.left, b) && llrb(hh.right, b));
                    assert(llrb(h.left, b));
                    assert(llrb_but_root(Some(h), bh));
                }
            }
        }
    } else {
        proof {
            if fixable(h0, bh) && !is_red_spec(h0.right) && !red_red(h0.left) && is_red_spec(h0.left) {
                assert(llrb(h0.left, b));
            }
        }
    }
    let ghost h1 = *h;
    if is_red(&h.left) && left_left_red(&h) {
        h = rotate_right(h);
    }
    let ghost h2 = *h;
    if is_red(&h.left) && is_red(&h.right) {
        flip_colors(&mut h);
        proof {
            if fixable(h0, bh) && h0.color == Color::Black {
                if red_red(h0.left) {
                    let x0 = h0.left.unwrap();
                    assert(llrb_but_root(h0.left, b));
                    let xl = x0.left.unwrap();
                    assert(llrb(Some(xl), b));
                    assert(llrb(h.left, bh));
                    assert(llrb(h.right, bh));
                    assert(llrb(Some(h), bh));
                } else {
                    assert(is_red_spec(h0.left) && is_red_spec(h0.right));
                    if llrb(h0.left, b) {
                        lemma_llrb_red(h0.left, b);
                    }
                    assert(llrb_but_root(h0.left, b));
                    assert(llrb(h.left, bh));
                    assert(llrb(h.right, bh));
                    assert(llrb(Some(h), bh));
                }
            }
        }
    }
    h
}

/// Insert `(k, v)` into the subtree `h`; returns the new subtree and the
/// value `k` had before, if any.
fn insert_node<V: AsHashTree>(h: Option<Box<Node<V>>>, k: Vec<u8>, v: V, Ghost(bh): Ghost<nat>) -> (r: (
    Box<Node<V>>,
    Option<V>,
))
    requires
        tree_wf(h),
        v.inv(),
    ensures
        tree_wf(Some(r.0)),
        llrb(h, bh) && !is_red_spec(h) ==> llrb(Some(r.0), bh),
        llrb(h, bh) && is_red_spec(h) ==> llrb_but_root(Some(r.0), bh),
        tree_map(Some(r.0)) == tree_map(h).insert(k@, v),
        r.1 == (if tree_map(h).dom().contains(k@) { Some(tree_map(h)[k@]) } else { None }),
    decreases h,
{
    match h {
        None => {
            proof {
                assert(llrb(h, bh) ==> bh == 0);
            }
            (Node::new(k, v), None)
        },
        Some(n) => {
            let ghost old_n = n;
            proof {
                lemma_tree_parts(n);
            }
            let mut n = n;
            let c = compare_bytes(k.as_slice(), n.key.as_slice());
            let old_value = match c {
                Cmp::Equal => {
                    let mut v = v;
                    std::mem::swap(&mut n.value, &mut v);
                    rehash(&mut n);
                    proof {
                        assert(tree_wf(Some(n)));
                        assert(tree_map(Some(n)) =~= tree_map(Some(old_n)).insert(k@, n.value));
                    }
                    Some(v)
                },
                Cmp::Less => {
                    let left = n.left.take();
                    let (child, old) = insert_node(left, k, v, Ghost(black_below(old_n.color, bh)));
                    n.left = Some(child);
                    rehash(&mut n);
                    proof {
                        assert forall|kk: Seq<u8>| #[trigger] tree_map(n.left).dom().contains(kk) implies lex_lt(kk, n.key@) by {
                            if kk != k@ {
                                assert(tree_map(old_n.left).dom().contains(kk));
                            }
                        }
                        assert(tree_wf(Some(n)));
                        assert forall|kk: Seq<u8>| tree_map(old_n.right).dom().contains(kk) implies kk != k@ by {
                            lemma_lex_asymmetric(k@, n.key@);
                            if kk == k@ {
                                assert(lex_lt(n.key@, k@));
                            }
                        }
                        assert(tree_map(Some(n)) =~= tree_map(Some(old_n)).insert(k@, v));
                    }
                    old
                },
                Cmp::Greater => {
                    let right = n.right.take();
                    let (child, old) = insert_node(right, k, v, Ghost(black_below(old_n.color, bh)));
                    n.right = Some(child);
                    rehash(&mut n);
                    proof {
                        assert forall|kk: Seq<u8>| #[trigger] tree_map(n.right).dom().contains(kk) implies lex_lt(n.key@, kk) by {
                            if kk != k@ {
                                assert(tree_map(old_n.right).dom().contains(kk));
                            }
                        }
                        assert(tree_wf(Some(n)));
                        assert forall|kk: Seq<u8>| tree_map(old_n.left).dom().contains(kk) implies kk != k@ by {
                            lemma_lex_asymmetric(n.key@, k@);
                            if kk == k@ {
                                assert(lex_lt(k@, n.key@));
                            }
                        }
                        assert(tree_map(Some(n)) =~= tree_map(Some(old_n)).insert(k@, v));
                    }
                    old
                },
            };
            proof {
                if llrb(Some(old_n), bh) {
                    let b = black_below(old_n.color, bh);
                    assert(n.color == old_n.color);
                    if c == Cmp::Equal {
                        assert(n.left == old_n.left && n.right == old_n.right);
                        if is_red_spec(n.left) {
                            lemma_llrb_red(n.left, b);
                        }
                    } else if c == Cmp::Less {
                        assert(n.right == old_n.right);
                        if is_red_spec(n.left) && !is_red_spec(old_n.left) {
                            lemma_llrb_red(n.left, b);
                        }
                    } else {
                        assert(n.left == old_n.left);
                        if is_red_spec(n.left) {
                            lemma_llrb_red(n.left, b);
                        }
                    }
                    assert(fixable(*n, bh));
                }
            }
            (balance(n, Ghost(bh)), old_value)
        },
    }
}


/// Which form the entries inside a witnessed range take.
#[derive(Debug, Clone, Copy, PartialEq, Eq)]
pub enum Reveal {
    /// Each entry with its value's hash tree.
    Data,
    /// Each entry's key, with its value pruned to its hash.
    Keys,
}

/// A bound of a witnessed range: a key that is in the tree and equals the
/// bound asked for, or the closest key of the tree past it.
#[derive(Debug, PartialEq, Eq)]
pub enum KeyBound {
    Exact(Vec<u8>),
    Neighbor(Vec<u8>),
}

/// The key of a bound.
pub open spec fn bound_key(b: KeyBound) -> Seq<u8> {
    match b {
        KeyBound::Exact(k) => k@,
        KeyBound::Neighbor(k) => k@,
    }
}

/// `k` lies within the optional bounds, both included.
pub open spec fn in_bounds(lo: Option<Seq<u8>>, hi: Option<Seq<u8>>, k: Seq<u8>) -> bool {
    &&& (lo matches Some(l) ==> lex_le(l, k))
    &&& (hi matches Some(h) ==> lex_le(k, h))
}

/// The keys of a subtree within the bounds, in order.
pub closed spec fn range_keys<V>(t: Option<Box<Node<V>>>, lo: Option<Seq<u8>>, hi: Option<Seq<u8>>) -> Seq<Seq<u8>>
    decreases t,
{
    match t {
        None => Seq::empty(),
        Some(n) => range_keys(n.left, lo, hi) + (if in_bounds(lo, hi, n.key@) { seq![n.key@] } else { Seq::empty() })
            + range_keys(n.right, lo, hi),
    }
}

/// No key of the subtree is within the bounds: none is listed.
proof fn lemma_range_none<V: AsHashTree>(t: Option<Box<Node<V>>>, lo: Option<Seq<u8>>, hi: Option<Seq<u8>>)
    requires
        tree_wf(t),
        forall|k: Seq<u8>| #[trigger] tree_map(t).dom().contains(k) ==> !in_bounds(lo, hi, k),
    ensures
        range_keys(t, lo, hi) == Seq::<Seq<u8>>::empty(),
    decreases t,
{
    if let Some(n) = t {
        lemma_tree_parts(n);
        lemma_range_none(n.left, lo, hi);
        lemma_range_none(n.right, lo, hi);
        assert(range_keys(t, lo, hi) =~= Seq::<Seq<u8>>::empty());
    }
}

/// Every key of the subtree is within the bounds: all are listed.
proof fn lemma_range_all<V: AsHashTree>(t: Option<Box<Node<V>>>, lo: Option<Seq<u8>>, hi: Option<Seq<u8>>)
    requires
        tree_wf(t),
        forall|k: Seq<u8>| #[trigger] tree_map(t).dom().contains(k) ==> in_bounds(lo, hi, k),
    ensures
        range_keys(t, lo, hi) == range_keys(t, None, None),
    decreases t,
{
    if let Some(n) = t {
        lemma_tree_parts(n);
        lemma_range_all(n.left, lo, hi);
        lemma_range_all(n.right, lo, hi);
    }
}

/// Where the lower bound is not below a node's key, none of its left
/// subtree is listed.
proof fn lemma_left_out<V: AsHashTree>(n: Box<Node<V>>, lo: Seq<u8>, hi: Option<Seq<u8>>)
    requires
        tree_wf(Some(n)),
        lex_le(n.key@, lo),
    ensures
        range_keys(n.left, Some(lo), hi) == Seq::<Seq<u8>>::empty(),
{
    assert forall|k: Seq<u8>| #[trigger] tree_map(n.left).dom().contains(k) implies !in_bounds(Some(lo), hi, k) by {
        lemma_lex_le_lt(k, n.key@, lo);
        lemma_lex_asymmetric(k, lo);
        lemma_lex_irreflexive(k);
    }
    lemma_range_none(n.left, Some(lo), hi);
}

/// Where the upper bound is not above a node's key, none of its right
/// subtree is listed.
proof fn lemma_right_out<V: AsHashTree>(n: Box<Node<V>>, lo: Option<Seq<u8>>, hi: Seq<u8>)
    requires
        tree_wf(Some(n)),
        lex_le(hi, n.key@),
    ensures
        range_keys(n.right, lo, Some(hi)) == Seq::<Seq<u8>>::empty(),
{
    assert forall|k: Seq<u8>| #[trigger] tree_map(n.right).dom().contains(k) implies !in_bounds(lo, Some(hi), k) by {
        lemma_lex_le_lt(hi, n.key@, k);
        lemma_lex_asymmetric(hi, k);
        lemma_lex_irreflexive(k);
    }
    lemma_range_none(n.right, lo, Some(hi));
}

/// Where the lower bound is not above a node's key, its whole right subtree
/// is above it.
proof fn lemma_right_in<V: AsHashTree>(n: Box<Node<V>>, lo: Seq<u8>)
    requires
        tree_wf(Some(n)),
        lex_le(lo, n.key@),
    ensures
        range_keys(n.right, Some(lo), None) == range_keys(n.right, None, None),
{
    assert forall|k: Seq<u8>| #[trigger] tree_map(n.right).dom().contains(k) implies in_bounds(Some(lo), None, k) by {
        lemma_lex_le_lt(lo, n.key@, k);
    }
    lemma_range_all(n.right, Some(lo), None);
}

/// Where the upper bound is not below a node's key, its whole left subtree
/// is below it.
proof fn lemma_left_in<V: AsHashTree>(n: Box<Node<V>>, hi: Seq<u8>)
    requires
        tree_wf(Some(n)),
        lex_le(n.key@, hi),
    ensures
        range_keys(n.left, None, Some(hi)) == range_keys(n.left, None, None),
{
    assert forall|k: Seq<u8>| #[trigger] tree_map(n.left).dom().contains(k) implies in_bounds(None, Some(hi), k) by {
        lemma_lex_le_lt(k, n.key@, hi);
    }
    lemma_range_all(n.left, None, Some(hi));
}

/// The keys within the bounds are the in-order keys within them.
proof fn lemma_range_keys_filter<V>(t: Option<Box<Node<V>>>, lo: Option<Seq<u8>>, hi: Option<Seq<u8>>)
    ensures
        range_keys(t, lo, hi) == inorder(t).map_values(|e: (Seq<u8>, V)| e.0).filter(|k: Seq<u8>| in_bounds(lo, hi, k)),
    decreases t,
{
    let pred = |k: Seq<u8>| in_bounds(lo, hi, k);
    let key_of = |e: (Seq<u8>, V)| e.0;
    match t {
        None => {
            assert(inorder(t).map_values(key_of) =~= Seq::<Seq<u8>>::empty());
            assert(Seq::<Seq<u8>>::empty().filter(pred) =~= Seq::<Seq<u8>>::empty()) by {
                reveal_with_fuel(Seq::filter, 1);
            }
        },
        Some(n) => {
            lemma_range_keys_filter(n.left, lo, hi);
            lemma_range_keys_filter(n.right, lo, hi);
            let a = inorder(n.left).map_values(key_of);
            let m = seq![n.key@];
            let b = inorder(n.right).map_values(key_of);
            assert(inorder(t).map_values(key_of) =~= a + m + b);
            Seq::filter_distributes_over_add(a + m, b, pred);
            Seq::filter_distributes_over_add(a, m, pred);
            assert(m.filter(pred) =~= (if in_bounds(lo, hi, n.key@) { seq![n.key@] } else { Seq::empty() })) by {
                reveal_with_fuel(Seq::filter, 2);
                assert(m.drop_last() =~= Seq::<Seq<u8>>::empty());
            }
        },
    }
}

/// The hash of a node's entry.
fn data_hash<V: AsHashTree>(n: &Node<V>) -> (r: crate::hashtree::Hash)
    requires
        n.value.inv(),
    ensures
        r@ == data_hash_spec(*n),
{
    let vh = n.value.root_hash();
    labeled_hash(n.key.as_slice(), &vh)
}

/// The full hash tree of a subtree: each entry's key labels its value's
/// tree, and the entries are forked together in key order, each node's
/// entry between the trees of its left and right subtrees.
pub closed spec fn full_tree<V: AsHashTree>(t: Option<Box<Node<V>>>) -> TreeView
    decreases t,
{
    match t {
        None => TreeView::Empty,
        Some(n) => three_way_view(
            full_tree(n.left),
            TreeView::Labeled(n.key@, Box::new(n.value.tree_spec())),
            full_tree(n.right),
        ),
    }
}

/// A key is admitted by an optional lower bound: there is none, the key is
/// above it, or the bound is exact and the key is the bound's key.
pub open spec fn admits_above(b: Option<KeyBound>, k: Seq<u8>) -> bool {
    match b {
        None => true,
        Some(b) => lex_lt(bound_key(b), k) || (b is Exact && k == bound_key(b)),
    }
}

/// A key is admitted by an optional upper bound: there is none, the key is
/// below it, or the bound is exact and the key is the bound's key.
pub open spec fn admits_below(b: Option<KeyBound>, k: Seq<u8>) -> bool {
    match b {
        None => true,
        Some(b) => lex_lt(k, bound_key(b)) || (b is Exact && k == bound_key(b)),
    }
}

/// A witness between these bounds reveals the value of the key.
pub open spec fn revealed(lo: Option<KeyBound>, hi: Option<KeyBound>, k: Seq<u8>) -> bool {
    admits_above(lo, k) && admits_below(hi, k)
}

/// The labeled parts of a witness are entries of `m`: the value's hash tree
/// under each key the bounds admit, and a pruned hash under the others.
pub open spec fn parts_reveal<V: AsHashTree>(
    ps: Seq<(Seq<u8>, HashTree)>,
    m: Map<Seq<u8>, V>,
    lo: Option<KeyBound>,
    hi: Option<KeyBound>,
) -> bool {
    forall|i: int|
        0 <= i < ps.len() ==> {
            &&& m.dom().contains(#[trigger] ps[i].0)
            &&& revealed(lo, hi, ps[i].0) ==> tree_view(ps[i].1) == m[ps[i].0].tree_spec()
            &&& !revealed(lo, hi, ps[i].0) ==> ps[i].1 is Pruned
        }
}

/// The parts of a node's hash tree, left subtree, entry and right subtree,
/// reveal as each of them does.
proof fn lemma_fork_reveal<V: AsHashTree>(
    n: Box<Node<V>>,
    l: Seq<(Seq<u8>, HashTree)>,
    mid: Seq<(Seq<u8>, HashTree)>,
    r: Seq<(Seq<u8>, HashTree)>,
    lo: Option<KeyBound>,
    hi: Option<KeyBound>,
)
    requires
        tree_wf(Some(n)),
        parts_reveal(l, tree_map(n.left), lo, hi),
        parts_reveal(mid, tree_map(Some(n)), lo, hi),
        parts_reveal(r, tree_map(n.right), lo, hi),
    ensures
        parts_reveal(l + mid + r, tree_map(Some(n)), lo, hi),
{
    lemma_tree_parts(n);
    let s = l + mid + r;
    assert forall|i: int| 0 <= i < s.len() implies {
        &&& tree_map(Some(n)).dom().contains(#[trigger] s[i].0)
        &&& revealed(lo, hi, s[i].0) ==> tree_view(s[i].1) == tree_map(Some(n))[s[i].0].tree_spec()
        &&& !revealed(lo, hi, s[i].0) ==> s[i].1 is Pruned
    } by {
        if i < l.len() {
            assert(s[i] == l[i]);
        } else if i < l.len() + mid.len() {
            assert(s[i] == mid[i - l.len()]);
        } else {
            assert(s[i] == r[i - l.len() - mid.len()]);
        }
    }
}

/// The one part of a node's entry reveals as the bounds say.
proof fn lemma_node_reveal<V: AsHashTree>(n: Box<Node<V>>, mt: HashTree, lo: Option<KeyBound>, hi: Option<KeyBound>)
    requires
        tree_wf(Some(n)),
        labeled_parts(mt).len() == 1,
        labeled_parts(mt)[0].0 == n.key@,
        revealed(lo, hi, n.key@) ==> tree_view(labeled_parts(mt)[0].1) == n.value.tree_spec(),
        !revealed(lo, hi, n.key@) ==> labeled_parts(mt)[0].1 is Pruned,
    ensures
        parts_reveal(labeled_parts(mt), tree_map(Some(n)), lo, hi),
{
    lemma_tree_parts(n);
    lemma_tree_map_finite(Some(n));
}

/// Parts that reveal under some bounds reveal under others that admit the
/// same keys of `m`.
proof fn lemma_parts_rebound<V: AsHashTree>(
    ps: Seq<(Seq<u8>, HashTree)>,
    m: Map<Seq<u8>, V>,
    lo: Option<KeyBound>,
    hi: Option<KeyBound>,
    lo2: Option<KeyBound>,
    hi2: Option<KeyBound>,
)
    requires
        parts_reveal(ps, m, lo, hi),
        forall|k: Seq<u8>| #[trigger] m.dom().contains(k) ==> revealed(lo, hi, k) == revealed(lo2, hi2, k),
    ensures
        parts_reveal(ps, m, lo2, hi2),
{
    assert forall|i: int| 0 <= i < ps.len() implies {
        &&& m.dom().contains(#[trigger] ps[i].0)
        &&& revealed(lo2, hi2, ps[i].0) ==> tree_view(ps[i].1) == m[ps[i].0].tree_spec()
        &&& !revealed(lo2, hi2, ps[i].0) ==> ps[i].1 is Pruned
    } by {
        assert(m.dom().contains(ps[i].0));
    }
}

/// The right subtree of a node not below a lower bound's key is admitted
/// whole by that bound.
proof fn lemma_right_revealed<V: AsHashTree>(n: Box<Node<V>>, ps: Seq<(Seq<u8>, HashTree)>, lo: KeyBound, hi: Option<KeyBound>)
    requires
        tree_wf(Some(n)),
        lex_le(bound_key(lo), n.key@),
        parts_reveal(ps, tree_map(n.right), None, hi),
    ensures
        parts_reveal(ps, tree_map(n.right), Some(lo), hi),
{
    assert forall|k: Seq<u8>| #[trigger] tree_map(n.right).dom().contains(k) implies revealed(None, hi, k) == revealed(
        Some(lo),
        hi,
        k,
    ) by {
        lemma_lex_le_lt(bound_key(lo), n.key@, k);
    }
    lemma_parts_rebound(ps, tree_map(n.right), None, hi, Some(lo), hi);
}

/// The left subtree of a node not above an upper bound's key is admitted
/// whole by that bound.
proof fn lemma_left_revealed<V: AsHashTree>(n: Box<Node<V>>, ps: Seq<(Seq<u8>, HashTree)>, lo: Option<KeyBound>, hi: KeyBound)
    requires
        tree_wf(Some(n)),
        lex_le(n.key@, bound_key(hi)),
        parts_reveal(ps, tree_map(n.left), lo, None),
    ensures
        parts_reveal(ps, tree_map(n.left), lo, Some(hi)),
{
    assert forall|k: Seq<u8>| #[trigger] tree_map(n.left).dom().contains(k) implies revealed(lo, None, k) == revealed(
        lo,
        Some(hi),
        k,
    ) by {
        lemma_lex_le_lt(k, n.key@, bound_key(hi));
    }
    lemma_parts_rebound(ps, tree_map(n.left), lo, None, lo, Some(hi));
}

/// The entry of a node as a hash tree: its key over its value's tree, or over
/// its value's hash.
fn node_tree<V: AsHashTree>(n: &Node<V>, mode: Reveal) -> (r: HashTree)
    requires
        n.value.inv(),
    ensures
        reconstruct_spec(r) == data_hash_spec(*n),
        !(r is Empty),
        labels_spec(r) == seq![n.key@],
        mode == Reveal::Keys ==> leaf_values_spec(r) == Seq::<Seq<u8>>::empty(),
        r is Labeled,
        mode == Reveal::Data ==> tree_view(r) == TreeView::Labeled(n.key@, Box::new(n.value.tree_spec())),
        labeled_parts(r).len() == 1,
        labeled_parts(r)[0].0 == n.key@,
        mode == Reveal::Data ==> tree_view(labeled_parts(r)[0].1) == n.value.tree_spec(),
        mode == Reveal::Keys ==> labeled_parts(r)[0].1 is Pruned,
{
    let k = copy_bytes(n.key.as_slice());
    let sub = match mode {
        Reveal::Data => n.value.as_hash_tree(),
        Reveal::Keys => HashTree::Pruned(n.value.root_hash()),
    };
    let r = HashTree::Labeled(k, Box::new(sub));
    proof {
        assert(reconstruct_spec(r) == labeled_hash_spec(k@, reconstruct_spec(sub)));
        assert(leaf_values_spec(r) == leaf_values_spec(sub));
        if mode == Reveal::Keys {
            assert(leaf_values_spec(sub) =~= Seq::<Seq<u8>>::empty());
        }
    }
    r
}

/// A left child pruned to its hash, or nothing.
fn left_hash_tree<V>(n: &Node<V>) -> (r: HashTree)
    ensures
        r is Empty <==> n.left is None,
        n.left is Some ==> reconstruct_spec(r) == stored_hash(n.left),
        labels_spec(r) == Seq::<Seq<u8>>::empty(),
        leaf_values_spec(r) == Seq::<Seq<u8>>::empty(),
        labeled_parts(r) == Seq::<(Seq<u8>, HashTree)>::empty(),
{
    match &n.left {
        None => HashTree::Empty,
        Some(l) => HashTree::Pruned(l.subtree_hash),
    }
}

/// A right child pruned to its hash, or nothing.
fn right_hash_tree<V>(n: &Node<V>) -> (r: HashTree)
    ensures
        r is Empty <==> n.right is None,
        n.right is Some ==> reconstruct_spec(r) == stored_hash(n.right),
        labels_spec(r) == Seq::<Seq<u8>>::empty(),
        leaf_values_spec(r) == Seq::<Seq<u8>>::empty(),
        labeled_parts(r) == Seq::<(Seq<u8>, HashTree)>::empty(),
{
    match &n.right {
        None => HashTree::Empty,
        Some(rr) => HashTree::Pruned(rr.subtree_hash),
    }
}

/// The parts of a node's hash tree combine to the hash the node stores.
proof fn lemma_node_fork<V: AsHashTree>(n: Box<Node<V>>, l: HashTree, m: HashTree, r: HashTree)
    requires
        tree_wf(Some(n)),
        l is Empty <==> n.left is None,
        n.left is Some ==> reconstruct_spec(l) == stored_hash(n.left),
        r is Empty <==> n.right is None,
        n.right is Some ==> reconstruct_spec(r) == stored_hash(n.right),
        reconstruct_spec(m) == data_hash_spec(*n),
    ensures
        three_way_hash(l, m, r) == stored_hash(Some(n)),
{
}

/// The full hash tree of a subtree: every entry in the given form.
fn full_witness_tree<V: AsHashTree>(t: &Option<Box<Node<V>>>, mode: Reveal) -> (r: HashTree)
    requires
        tree_wf(*t),
    ensures
        reconstruct_spec(r) == stored_hash(*t),
        r is Empty <==> t is None,
        labels_spec(r) == range_keys(*t, None, None),
        mode == Reveal::Keys ==> leaf_values_spec(r) == Seq::<Seq<u8>>::empty(),
        mode == Reveal::Data ==> tree_view(r) == full_tree(*t),
        mode == Reveal::Data ==> parts_reveal(labeled_parts(r), tree_map(*t), None, None),
    decreases *t,
{
    match t {
        None => {
            proof {
                assert(range_keys::<V>(None, None, None) =~= Seq::<Seq<u8>>::empty());
                assert(labels_spec(HashTree::Empty) =~= Seq::<Seq<u8>>::empty());
                assert(leaf_values_spec(HashTree::Empty) =~= Seq::<Seq<u8>>::empty());
            }
            HashTree::Empty
        },
        Some(n) => {
            let l = full_witness_tree(&n.left, mode);
            let m = node_tree(n, mode);
            let r = full_witness_tree(&n.right, mode);
            proof {
                lemma_node_fork(*n, l, m, r);
                if mode == Reveal::Data {
                    lemma_node_reveal(*n, m, None, None);
                    lemma_fork_reveal(*n, labeled_parts(l), labeled_parts(m), labeled_parts(r), None, None);
                }
            }
            three_way_fork(l, m, r)
        },
    }
}

/// The hash tree of the entries of `t` from `lo` up.
fn witness_range_above<V: AsHashTree>(t: &Option<Box<Node<V>>>, lo: &KeyBound, mode: Reveal) -> (r: HashTree)
    requires
        tree_wf(*t),
    ensures
        reconstruct_spec(r) == stored_hash(*t),
        r is Empty <==> t is None,
        labels_spec(r) == range_keys(*t, Some(bound_key(*lo)), None),
        mode == Reveal::Keys ==> leaf_values_spec(r) == Seq::<Seq<u8>>::empty(),
        mode == Reveal::Data ==> parts_reveal(labeled_parts(r), tree_map(*t), Some(*lo), None),
    decreases *t,
{
    match t {
        None => {
            proof {
                assert(range_keys(*t, Some(bound_key(*lo)), None) =~= Seq::<Seq<u8>>::empty());
                assert(labels_spec(HashTree::Empty) =~= Seq::<Seq<u8>>::empty());
                assert(leaf_values_spec(HashTree::Empty) =~= Seq::<Seq<u8>>::empty());
            }
            HashTree::Empty
        },
        Some(n) => {
            let (lo_key, exact) = match lo {
                KeyBound::Exact(k) => (k, true),
                KeyBound::Neighbor(k) => (k, false),
            };
            match compare_bytes(n.key.as_slice(), lo_key.as_slice()) {
                Cmp::Equal => {
                    let l = left_hash_tree(n);
                    let m = if exact { node_tree(n, mode) } else { node_tree(n, Reveal::Keys) };
                    let r = full_witness_tree(&n.right, mode);
                    proof {
                        lemma_node_fork(*n, l, m, r);
                        lemma_left_out(*n, lo_key@, None);
                        lemma_right_in(*n, lo_key@);
                        assert(range_keys(*t, Some(bound_key(*lo)), None) =~= labels_spec(l) + labels_spec(m) + labels_spec(r));
                        assert(leaf_values_spec(l) + leaf_values_spec(m) + leaf_values_spec(r) =~= leaf_values_spec(m) + leaf_values_spec(r));
                        if mode == Reveal::Data {
                            lemma_lex_irreflexive(n.key@);
                            lemma_node_reveal(*n, m, Some(*lo), None);
                            lemma_right_revealed(*n, labeled_parts(r), *lo, None);
                            lemma_fork_reveal(*n, labeled_parts(l), labeled_parts(m), labeled_parts(r), Some(*lo), None);
                        }
                    }
                    three_way_fork(l, m, r)
                },
                Cmp::Less => {
                    let l = left_hash_tree(n);
                    let m = HashTree::Pruned(data_hash(n));
                    let r = witness_range_above(&n.right, lo, mode);
                    proof {
                        lemma_node_fork(*n, l, m, r);
                        lemma_left_out(*n, lo_key@, None);
                        lemma_lex_asymmetric(n.key@, lo_key@);
                        assert(range_keys(*t, Some(bound_key(*lo)), None) =~= labels_spec(l) + labels_spec(m) + labels_spec(r));
                        assert(leaf_values_spec(l) + leaf_values_spec(m) + leaf_values_spec(r) =~= leaf_values_spec(r));
                        if mode == Reveal::Data {
                            lemma_fork_reveal(*n, labeled_parts(l), labeled_parts(m), labeled_parts(r), Some(*lo), None);
                        }
                    }
                    three_way_fork(l, m, r)
                },
                Cmp::Greater => {
                    let l = witness_range_above(&n.left, lo, mode);
                    let m = node_tree(n, mode);
                    let r = full_witness_tree(&n.right, mode);
                    proof {
                        lemma_node_fork(*n, l, m, r);
                        lemma_right_in(*n, lo_key@);
                        assert(range_keys(*t, Some(bound_key(*lo)), None) =~= labels_spec(l) + labels_spec(m) + labels_spec(r));
                        if mode == Reveal::Keys {
                            assert(leaf_values_spec(l) + leaf_values_spec(m) + leaf_values_spec(r) =~= Seq::<Seq<u8>>::empty());
                        }
                        if mode == Reveal::Data {
                            lemma_node_reveal(*n, m, Some(*lo), None);
                            lemma_right_revealed(*n, labeled_parts(r), *lo, None);
                            lemma_fork_reveal(*n, labeled_parts(l), labeled_parts(m), labeled_parts(r), Some(*lo), None);
                        }
                    }
                    three_way_fork(l, m, r)
                },
            }
        },
    }
}

/// The hash tree of the entries of `t` up to `hi`.
fn witness_range_below<V: AsHashTree>(t: &Option<Box<Node<V>>>, hi: &KeyBound, mode: Reveal) -> (r: HashTree)
    requires
        tree_wf(*t),
    ensures
        reconstruct_spec(r) == stored_hash(*t),
        r is Empty <==> t is None,
        labels_spec(r) == range_keys(*t, None, Some(bound_key(*hi))),
        mode == Reveal::Keys ==> leaf_values_spec(r) == Seq::<Seq<u8>>::empty(),
        mode == Reveal::Data ==> parts_reveal(labeled_parts(r), tree_map(*t), None, Some(*hi)),
    decreases *t,
{
    match t {
        None => {
            proof {
                assert(range_keys(*t, None, Some(bound_key(*hi))) =~= Seq::<Seq<u8>>::empty());
                assert(labels_spec(HashTree::Empty) =~= Seq::<Seq<u8>>::empty());
                assert(leaf_values_spec(HashTree::Empty) =~= Seq::<Seq<u8>>::empty());
            }
            HashTree::Empty
        },
        Some(n) => {
            let (hi_key, exact) = match hi {
                KeyBound::Exact(k) => (k, true),
                KeyBound::Neighbor(k) => (k, false),
            };
            match compare_bytes(n.key.as_slice(), hi_key.as_slice()) {
                Cmp::Equal => {
                    let l = full_witness_tree(&n.left, mode);
                    let m = if exact { node_tree(n, mode) } else { node_tree(n, Reveal::Keys) };
                    let r = right_hash_tree(n);
                    proof {
                        lemma_node_fork(*n, l, m, r);
                        lemma_left_in(*n, hi_key@);
                        lemma_right_out(*n, None, hi_key@);
                        assert(range_keys(*t, None, Some(bound_key(*hi))) =~= labels_spec(l) + labels_spec(m) + labels_spec(r));
                        if mode == Reveal::Keys {
                            assert(leaf_values_spec(l) + leaf_values_spec(m) + leaf_values_spec(r) =~= Seq::<Seq<u8>>::empty());
                        }
                        if mode == Reveal::Data {
                            lemma_lex_irreflexive(n.key@);
                            lemma_node_reveal(*n, m, None, Some(*hi));
                            lemma_left_revealed(*n, labeled_parts(l), None, *hi);
                            lemma_fork_reveal(*n, labeled_parts(l), labeled_parts(m), labeled_parts(r), None, Some(*hi));
                        }
                    }
                    three_way_fork(l, m, r)
                },
                Cmp::Greater => {
                    let l = witness_range_below(&n.left, hi, mode);
                    let m = HashTree::Pruned(data_hash(n));
                    let r = right_hash_tree(n);
                    proof {
                        lemma_node_fork(*n, l, m, r);
                        lemma_right_out(*n, None, hi_key@);
                        lemma_lex_asymmetric(hi_key@, n.key@);
                        assert(range_keys(*t, None, Some(bound_key(*hi))) =~= labels_spec(l) + labels_spec(m) + labels_spec(r));
                        assert(leaf_values_spec(l) + leaf_values_spec(m) + leaf_values_spec(r) =~= leaf_values_spec(l));
                        if mode == Reveal::Data {
                            lemma_fork_reveal(*n, labeled_parts(l), labeled_parts(m), labeled_parts(r), None, Some(*hi));
                        }
                    }
                    three_way_fork(l, m, r)
                },
                Cmp::Less => {
                    let l = full_witness_tree(&n.left, mode);
                    let m = node_tree(n, mode);
                    let r = witness_range_below(&n.right, hi, mode);
                    proof {
                        lemma_node_fork(*n, l, m, r);
                        lemma_left_in(*n, hi_key@);
                        assert(range_keys(*t, None, Some(bound_key(*hi))) =~= labels_spec(l) + labels_spec(m) + labels_spec(r));
                        if mode == Reveal::Keys {
                            assert(leaf_values_spec(l) + leaf_values_spec(m) + leaf_values_spec(r) =~= Seq::<Seq<u8>>::empty());
                        }
                        if mode == Reveal::Data {
                            lemma_node_reveal(*n, m, None, Some(*hi));
                            lemma_left_revealed(*n, labeled_parts(l), None, *hi);
                            lemma_fork_reveal(*n, labeled_parts(l), labeled_parts(m), labeled_parts(r), None, Some(*hi));
                        }
                    }
                    three_way_fork(l, m, r)
                },
            }
        },
    }
}

/// The hash tree of the entries of `t` between `lo` and `hi`.
fn witness_range_between<V: AsHashTree>(t: &Option<Box<Node<V>>>, lo: &KeyBound, hi: &KeyBound, mode: Reveal) -> (r: HashTree)
    requires
        tree_wf(*t),
    ensures
        reconstruct_spec(r) == stored_hash(*t),
        r is Empty <==> t is None,
        lex_le(bound_key(*lo), bound_key(*hi)) ==> labels_spec(r) == range_keys(*t, Some(bound_key(*lo)), Some(bound_key(*hi))),
        lex_le(bound_key(*lo), bound_key(*hi)) && mode == Reveal::Keys ==> leaf_values_spec(r) == Seq::<Seq<u8>>::empty(),
        lex_le(bound_key(*lo), bound_key(*hi)) && bounds_consistent(*lo, *hi) && mode == Reveal::Data ==> parts_reveal(
            labeled_parts(r),
            tree_map(*t),
            Some(*lo),
            Some(*hi),
        ),
    decreases *t,
{
    match t {
        None => {
            proof {
                assert(range_keys(*t, Some(bound_key(*lo)), Some(bound_key(*hi))) =~= Seq::<Seq<u8>>::empty());
                assert(labels_spec(HashTree::Empty) =~= Seq::<Seq<u8>>::empty());
                assert(leaf_values_spec(HashTree::Empty) =~= Seq::<Seq<u8>>::empty());
            }
            HashTree::Empty
        },
        Some(n) => {
            let (lo_key, lo_exact) = match lo {
                KeyBound::Exact(k) => (k, true),
                KeyBound::Neighbor(k) => (k, false),
            };
            let (hi_key, hi_exact) = match hi {
                KeyBound::Exact(k) => (k, true),
                KeyBound::Neighbor(k) => (k, false),
            };
            let ghost ls = lo_key@;
            let ghost hs = hi_key@;
            let ghost ks = n.key@;
            let ghost ordered = lex_le(ls, hs);
            let c_lo = compare_bytes(lo_key.as_slice(), n.key.as_slice());
            let c_hi = compare_bytes(n.key.as_slice(), hi_key.as_slice());
            match (c_lo, c_hi) {
                (Cmp::Less, Cmp::Less) => {
                    let l = witness_range_between(&n.left, lo, hi, mode);
                    let r = witness_range_between(&n.right, lo, hi, mode);
                    let m = node_tree(n, mode);
                    proof {
                        lemma_node_fork(*n, l, m, r);
                        if ordered {
                            assert(in_bounds(Some(ls), Some(hs), ks));
                            assert(range_keys(*t, Some(ls), Some(hs)) =~= labels_spec(l) + labels_spec(m) + labels_spec(r));
                            if mode == Reveal::Keys {
                                assert(leaf_values_spec(l) + leaf_values_spec(m) + leaf_values_spec(r) =~= Seq::<Seq<u8>>::empty());
                            }
                            if mode == Reveal::Data && bounds_consistent(*lo, *hi) {
                                lemma_node_reveal(*n, m, Some(*lo), Some(*hi));
                                lemma_fork_reveal(*n, labeled_parts(l), labeled_parts(m), labeled_parts(r), Some(*lo), Some(*hi));
                            }
                        }
                    }
                    three_way_fork(l, m, r)
                },
                (Cmp::Equal, Cmp::Equal) => {
                    let l = left_hash_tree(n);
                    let m = if lo_exact || hi_exact { node_tree(n, mode) } else { node_tree(n, Reveal::Keys) };
                    let r = right_hash_tree(n);
                    proof {
                        lemma_node_fork(*n, l, m, r);
                        lemma_left_out(*n, ls, Some(hs));
                        lemma_right_out(*n, Some(ls), hs);
                        assert(in_bounds(Some(ls), Some(hs), ks));
                        assert(range_keys(*t, Some(ls), Some(hs)) =~= labels_spec(l) + labels_spec(m) + labels_spec(r));
                        assert(leaf_values_spec(l) + leaf_values_spec(m) + leaf_values_spec(r) =~= leaf_values_spec(m));
                        if mode == Reveal::Data && bounds_consistent(*lo, *hi) {
                            lemma_lex_irreflexive(ks);
                            lemma_node_reveal(*n, m, Some(*lo), Some(*hi));
                            lemma_fork_reveal(*n, labeled_parts(l), labeled_parts(m), labeled_parts(r), Some(*lo), Some(*hi));
                        }
                    }
                    three_way_fork(l, m, r)
                },
                (_, Cmp::Equal) => {
                    let l = witness_range_between(&n.left, lo, hi, mode);
                    let m = if hi_exact { node_tree(n, mode) } else { node_tree(n, Reveal::Keys) };
                    let r = right_hash_tree(n);
                    proof {
                        lemma_node_fork(*n, l, m, r);
                        if ordered {
                            lemma_right_out(*n, Some(ls), hs);
                            assert(in_bounds(Some(ls), Some(hs), ks));
                            assert(range_keys(*t, Some(ls), Some(hs)) =~= labels_spec(l) + labels_spec(m) + labels_spec(r));
                            if mode == Reveal::Keys {
                                assert(leaf_values_spec(l) + leaf_values_spec(m) + leaf_values_spec(r) =~= Seq::<Seq<u8>>::empty());
                            }
                            if mode == Reveal::Data && bounds_consistent(*lo, *hi) {
                                lemma_lex_irreflexive(ks);
                                if c_lo == Cmp::Greater {
                                    lemma_lex_le_lt(ls, hs, ls);
                                }
                                lemma_node_reveal(*n, m, Some(*lo), Some(*hi));
                                lemma_fork_reveal(*n, labeled_parts(l), labeled_parts(m), labeled_parts(r), Some(*lo), Some(*hi));
                            }
                        }
                    }
                    three_way_fork(l, m, r)
                },
                (Cmp::Equal, _) => {
                    let l = left_hash_tree(n);
                    let m = if lo_exact { node_tree(n, mode) } else { node_tree(n, Reveal::Keys) };
                    let r = witness_range_between(&n.right, lo, hi, mode);
                    proof {
                        lemma_node_fork(*n, l, m, r);
                        if ordered {
                            lemma_left_out(*n, ls, Some(hs));
                            assert(in_bounds(Some(ls), Some(hs), ks));
                            assert(range_keys(*t, Some(ls), Some(hs)) =~= labels_spec(l) + labels_spec(m) + labels_spec(r));
                            if mode == Reveal::Keys {
                                assert(leaf_values_spec(l) + leaf_values_spec(m) + leaf_values_spec(r) =~= Seq::<Seq<u8>>::empty());
                            }
                            if mode == Reveal::Data && bounds_consistent(*lo, *hi) {
                                lemma_lex_irreflexive(ks);
                                if c_hi == Cmp::Greater {
                                    lemma_lex_le_lt(ks, hs, ks);
                                }
                                lemma_node_reveal(*n, m, Some(*lo), Some(*hi));
                                lemma_fork_reveal(*n, labeled_parts(l), labeled_parts(m), labeled_parts(r), Some(*lo), Some(*hi));
                            }
                        }
                    }
                    three_way_fork(l, m, r)
                },
                (Cmp::Less, Cmp::Greater) => {
                    let l = witness_range_between(&n.left, lo, hi, mode);
                    let m = HashTree::Pruned(data_hash(n));
                    let r = right_hash_tree(n);
                    proof {
                        lemma_node_fork(*n, l, m, r);
                        if ordered {
                            lemma_right_out(*n, Some(ls), hs);
                            lemma_lex_asymmetric(hs, ks);
                            lemma_lex_irreflexive(ks);
                            assert(!in_bounds(Some(ls), Some(hs), ks));
                            assert(range_keys(*t, Some(ls), Some(hs)) =~= labels_spec(l) + labels_spec(m) + labels_spec(r));
                            assert(leaf_values_spec(l) + leaf_values_spec(m) + leaf_values_spec(r) =~= leaf_values_spec(l));
                            if mode == Reveal::Data && bounds_consistent(*lo, *hi) {
                                lemma_fork_reveal(*n, labeled_parts(l), labeled_parts(m), labeled_parts(r), Some(*lo), Some(*hi));
                            }
                        }
                    }
                    three_way_fork(l, m, r)
                },
                (Cmp::Greater, Cmp::Less) => {
                    let l = left_hash_tree(n);
                    let m = HashTree::Pruned(data_hash(n));
                    let r = witness_range_between(&n.right, lo, hi, mode);
                    proof {
                        lemma_node_fork(*n, l, m, r);
                        if ordered {
                            lemma_left_out(*n, ls, Some(hs));
                            lemma_lex_asymmetric(ks, ls);
                            lemma_lex_irreflexive(ks);
                            assert(!in_bounds(Some(ls), Some(hs), ks));
                            assert(range_keys(*t, Some(ls), Some(hs)) =~= labels_spec(l) + labels_spec(m) + labels_spec(r));
                            assert(leaf_values_spec(l) + leaf_values_spec(m) + leaf_values_spec(r) =~= leaf_values_spec(r));
                            if mode == Reveal::Data && bounds_consistent(*lo, *hi) {
                                lemma_fork_reveal(*n, labeled_parts(l), labeled_parts(m), labeled_parts(r), Some(*lo), Some(*hi));
                            }
                        }
                    }
                    three_way_fork(l, m, r)
                },
                _ => {
                    proof {
                        lemma_lex_transitive(hs, ks, ls);
                        lemma_lex_asymmetric(hs, ls);
                        lemma_lex_irreflexive(ls);
                    }
                    HashTree::Pruned(n.subtree_hash)
                },
            }
        },
    }
}

/// Bounds on one key are both exact or both not.
pub open spec fn bounds_consistent(lo: KeyBound, hi: KeyBound) -> bool {
    bound_key(lo) == bound_key(hi) ==> (lo is Exact <==> hi is Exact)
}

/// Optional bounds on one key are both exact or both not.
pub open spec fn opt_bounds_consistent(lo: Option<KeyBound>, hi: Option<KeyBound>) -> bool {
    match (lo, hi) {
        (Some(a), Some(b)) => bounds_consistent(a, b),
        _ => true,
    }
}

/// The labeled parts of a witness are entries of `m`: the value's hash tree
/// under each key from `first` to `last`, and a pruned hash under the others.
pub open spec fn parts_reveal_range<V: AsHashTree>(
    ps: Seq<(Seq<u8>, HashTree)>,
    m: Map<Seq<u8>, V>,
    first: Seq<u8>,
    last: Seq<u8>,
) -> bool {
    forall|i: int|
        0 <= i < ps.len() ==> {
            &&& m.dom().contains(#[trigger] ps[i].0)
            &&& in_bounds(Some(first), Some(last), ps[i].0) ==> tree_view(ps[i].1) == m[ps[i].0].tree_spec()
            &&& !in_bounds(Some(first), Some(last), ps[i].0) ==> ps[i].1 is Pruned
        }
}

/// The lower bound of `first` and the upper bound of `last` admit exactly
/// the keys from `first` to `last`.
proof fn lemma_bounds_admit<V>(m: Map<Seq<u8>, V>, first: Seq<u8>, last: Seq<u8>, lo: Option<KeyBound>, hi: Option<KeyBound>)
    requires
        is_lower_bound(m, first, lo),
        is_upper_bound(m, last, hi),
    ensures
        forall|k: Seq<u8>| #[trigger] m.dom().contains(k) ==> revealed(lo, hi, k) == in_bounds(Some(first), Some(last), k),
{
    assert forall|k: Seq<u8>| #[trigger] m.dom().contains(k) implies revealed(lo, hi, k) == in_bounds(
        Some(first),
        Some(last),
        k,
    ) by {
        lemma_lex_total(first, k);
        lemma_lex_total(k, last);
        if let Some(b) = lo {
            let bk = bound_key(b);
            lemma_lex_total(bk, k);
            lemma_lex_irreflexive(k);
            if lex_le(k, first) {
                assert(lex_le(k, bk));
                if lex_lt(bk, k) {
                    lemma_lex_le_lt(k, bk, k);
                }
            }
            if lex_lt(first, k) {
                lemma_lex_le_lt(bk, first, k);
            }
            if lex_lt(bk, first) {
                lemma_lex_asymmetric(bk, first);
            }
        }
        if let Some(b) = hi {
            let bk = bound_key(b);
            lemma_lex_total(k, bk);
            lemma_lex_irreflexive(k);
            if lex_le(last, k) {
                assert(lex_le(bk, k));
                if lex_lt(k, bk) {
                    lemma_lex_le_lt(k, bk, k);
                }
            }
            if lex_lt(k, last) {
                lemma_lex_le_lt(k, last, bk);
            }
        }
    }
}

/// The hash tree of the entries of `t` between the optional bounds.
fn range_witness<V: AsHashTree>(t: &Option<Box<Node<V>>>, left: &Option<KeyBound>, right: &Option<KeyBound>, mode: Reveal) -> (r: HashTree)
    requires
        tree_wf(*t),
    ensures
        reconstruct_spec(r) == stored_hash(*t),
        bounds_ordered(*left, *right) ==> labels_spec(r) == range_keys(*t, opt_bound_key(*left), opt_bound_key(*right)),
        bounds_ordered(*left, *right) && mode == Reveal::Keys ==> leaf_values_spec(r) == Seq::<Seq<u8>>::empty(),
        bounds_ordered(*left, *right) && opt_bounds_consistent(*left, *right) && mode == Reveal::Data ==> parts_reveal(
            labeled_parts(r),
            tree_map(*t),
            *left,
            *right,
        ),
{
    match (left, right) {
        (None, None) => full_witness_tree(t, mode),
        (Some(l), None) => witness_range_above(t, l, mode),
        (None, Some(r)) => witness_range_below(t, r, mode),
        (Some(l), Some(r)) => witness_range_between(t, l, r, mode),
    }
}


/// `r` is the lower bound of `key` in the entries `m`: the greatest key not
/// above `key`, exact if it is `key` itself.
pub open spec fn is_lower_bound<V>(m: Map<Seq<u8>, V>, key: Seq<u8>, r: Option<KeyBound>) -> bool {
    match r {
        None => forall|k: Seq<u8>| #[trigger] m.dom().contains(k) ==> lex_lt(key, k),
        Some(b) => {
            &&& m.dom().contains(bound_key(b))
            &&& lex_le(bound_key(b), key)
            &&& (b is Exact <==> bound_key(b) == key)
            &&& forall|k: Seq<u8>| #[trigger] m.dom().contains(k) && lex_le(k, key) ==> lex_le(k, bound_key(b))
        },
    }
}

/// `r` is the upper bound of `key` in the entries `m`: the least key not
/// below `key`, exact if it is `key` itself.
pub open spec fn is_upper_bound<V>(m: Map<Seq<u8>, V>, key: Seq<u8>, r: Option<KeyBound>) -> bool {
    match r {
        None => forall|k: Seq<u8>| #[trigger] m.dom().contains(k) ==> lex_lt(k, key),
        Some(b) => {
            &&& m.dom().contains(bound_key(b))
            &&& lex_le(key, bound_key(b))
            &&& (b is Exact <==> bound_key(b) == key)
            &&& forall|k: Seq<u8>| #[trigger] m.dom().contains(k) && lex_le(key, k) ==> lex_le(bound_key(b), k)
        },
    }
}

/// A key past `prefix` that does not start with it.
pub open spec fn past_prefix(prefix: Seq<u8>, k: Seq<u8>) -> bool {
    lex_lt(prefix, k) && !is_prefix_of(prefix, k)
}

/// `r` is the right neighbor of the keys with `prefix` in the entries `m`:
/// the least key past `prefix` that does not start with it.
pub open spec fn is_prefix_neighbor<V>(m: Map<Seq<u8>, V>, prefix: Seq<u8>, r: Option<KeyBound>) -> bool {
    match r {
        None => forall|k: Seq<u8>| #[trigger] m.dom().contains(k) ==> !past_prefix(prefix, k),
        Some(b) => {
            &&& b is Neighbor
            &&& m.dom().contains(bound_key(b))
            &&& past_prefix(prefix, bound_key(b))
            &&& forall|k: Seq<u8>| #[trigger] m.dom().contains(k) && past_prefix(prefix, k) ==> lex_le(bound_key(b), k)
        },
    }
}

/// The key of an optional bound.
pub open spec fn opt_bound_key(b: Option<KeyBound>) -> Option<Seq<u8>> {
    match b {
        Some(k) => Some(bound_key(k)),
        None => None,
    }
}

/// Two optional bounds are in order: the lower not above the upper.
pub open spec fn bounds_ordered(lo: Option<KeyBound>, hi: Option<KeyBound>) -> bool {
    match (lo, hi) {
        (Some(a), Some(b)) => lex_le(bound_key(a), bound_key(b)),
        _ => true,
    }
}

/// The keys of a sequence of entries.
pub open spec fn keys_of<V>(s: Seq<(Seq<u8>, V)>) -> Seq<Seq<u8>> {
    s.map_values(|e: (Seq<u8>, V)| e.0)
}

/// `k` is not below the greatest key of `m` that is not above `first`: every
/// key of `m` not above `first` is not above `k` either.
pub open spec fn from_floor<V>(m: Map<Seq<u8>, V>, first: Seq<u8>, k: Seq<u8>) -> bool {
    forall|k2: Seq<u8>| #[trigger] m.dom().contains(k2) && lex_le(k2, first) ==> lex_le(k2, k)
}

/// `k` is not above the least key of `m` that is not below `last`: every key
/// of `m` not below `last` is not below `k` either.
pub open spec fn to_ceiling<V>(m: Map<Seq<u8>, V>, last: Seq<u8>, k: Seq<u8>) -> bool {
    forall|k2: Seq<u8>| #[trigger] m.dom().contains(k2) && lex_le(last, k2) ==> lex_le(k, k2)
}

/// `k` is not above the least key of `m` past the keys that start with
/// `prefix`.
pub open spec fn to_prefix_end<V>(m: Map<Seq<u8>, V>, prefix: Seq<u8>, k: Seq<u8>) -> bool {
    forall|k2: Seq<u8>| #[trigger] m.dom().contains(k2) && past_prefix(prefix, k2) ==> lex_le(k, k2)
}

/// The keys of `m`, in order, from the greatest key not above `first` to the
/// least key not below `last`.
pub open spec fn keys_around<V>(keys: Seq<Seq<u8>>, m: Map<Seq<u8>, V>, first: Seq<u8>, last: Seq<u8>) -> Seq<Seq<u8>> {
    keys.filter(|k: Seq<u8>| from_floor(m, first, k) && to_ceiling(m, last, k))
}

/// The keys of `m`, in order, from the greatest key not above `prefix` to the
/// least key past the keys that start with `prefix`.
pub open spec fn keys_around_prefix<V>(keys: Seq<Seq<u8>>, m: Map<Seq<u8>, V>, prefix: Seq<u8>) -> Seq<Seq<u8>> {
    keys.filter(|k: Seq<u8>| from_floor(m, prefix, k) && to_prefix_end(m, prefix, k))
}

/// Filtering by two predicates that agree on every element gives the same.
proof fn lemma_filter_agree(s: Seq<Seq<u8>>, p: spec_fn(Seq<u8>) -> bool, q: spec_fn(Seq<u8>) -> bool)
    requires
        forall|i: int| 0 <= i < s.len() ==> p(#[trigger] s[i]) == q(s[i]),
    ensures
        s.filter(p) == s.filter(q),
    decreases s.len(),
{
    reveal_with_fuel(Seq::filter, 1);
    if s.len() > 0 {
        assert forall|i: int| 0 <= i < s.drop_last().len() implies p(#[trigger] s.drop_last()[i]) == q(s.drop_last()[i]) by {
            assert(s.drop_last()[i] == s[i]);
        }
        lemma_filter_agree(s.drop_last(), p, q);
        assert(p(s[s.len() - 1]) == q(s[s.len() - 1]));
    }
}

/// A key of `m` is above the lower bound of `first` exactly when it is from
/// the floor of `first`.
proof fn lemma_floor_bound<V>(m: Map<Seq<u8>, V>, first: Seq<u8>, lo: Option<KeyBound>, k: Seq<u8>)
    requires
        is_lower_bound(m, first, lo),
    ensures
        in_bounds(opt_bound_key(lo), None, k) == from_floor(m, first, k),
{
    match lo {
        None => {
            assert forall|k2: Seq<u8>| #[trigger] m.dom().contains(k2) && lex_le(k2, first) implies lex_le(k2, k) by {
                lemma_lex_asymmetric(first, k2);
                lemma_lex_irreflexive(first);
            }
        },
        Some(b) => {
            if lex_le(bound_key(b), k) {
                assert forall|k2: Seq<u8>| #[trigger] m.dom().contains(k2) && lex_le(k2, first) implies lex_le(k2, k) by {
                    lemma_lex_le_lt(k2, bound_key(b), k);
                }
            }
        },
    }
}

/// A key of `m` is below the upper bound of `last` exactly when it is up to
/// the ceiling of `last`.
proof fn lemma_ceiling_bound<V>(m: Map<Seq<u8>, V>, last: Seq<u8>, hi: Option<KeyBound>, k: Seq<u8>)
    requires
        is_upper_bound(m, last, hi),
    ensures
        in_bounds(None, opt_bound_key(hi), k) == to_ceiling(m, last, k),
{
    match hi {
        None => {
            assert forall|k2: Seq<u8>| #[trigger] m.dom().contains(k2) && lex_le(last, k2) implies lex_le(k, k2) by {
                lemma_lex_asymmetric(k2, last);
                lemma_lex_irreflexive(last);
            }
        },
        Some(b) => {
            if lex_le(k, bound_key(b)) {
                assert forall|k2: Seq<u8>| #[trigger] m.dom().contains(k2) && lex_le(last, k2) implies lex_le(k, k2) by {
                    lemma_lex_le_lt(k, bound_key(b), k2);
                }
            }
        },
    }
}

/// A key of `m` is below the prefix neighbor exactly when it is up to the end
/// of the keys with `prefix`.
proof fn lemma_prefix_end_bound<V>(m: Map<Seq<u8>, V>, prefix: Seq<u8>, hi: Option<KeyBound>, k: Seq<u8>)
    requires
        is_prefix_neighbor(m, prefix, hi),
    ensures
        in_bounds(None, opt_bound_key(hi), k) == to_prefix_end(m, prefix, k),
{
    if let Some(b) = hi {
        if lex_le(k, bound_key(b)) {
            assert forall|k2: Seq<u8>| #[trigger] m.dom().contains(k2) && past_prefix(prefix, k2) implies lex_le(k, k2) by {
                lemma_lex_le_lt(k, bound_key(b), k2);
            }
        }
    }
}

/// The subtree's keys within the bounds found for `first` and `last` are its
/// keys from the floor of `first` to the ceiling of `last`.
proof fn lemma_range_around<V: AsHashTree>(t: Option<Box<Node<V>>>, first: Seq<u8>, last: Seq<u8>, lo: Option<KeyBound>, hi: Option<KeyBound>)
    requires
        tree_wf(t),
        is_lower_bound(tree_map(t), first, lo),
        is_upper_bound(tree_map(t), last, hi),
    ensures
        range_keys(t, opt_bound_key(lo), opt_bound_key(hi)) == keys_around(keys_of(inorder(t)), tree_map(t), first, last),
{
    let m = tree_map(t);
    let s = keys_of(inorder(t));
    lemma_range_keys_filter(t, opt_bound_key(lo), opt_bound_key(hi));
    lemma_inorder(t);
    let p = |k: Seq<u8>| in_bounds(opt_bound_key(lo), opt_bound_key(hi), k);
    let q = |k: Seq<u8>| from_floor(m, first, k) && to_ceiling(m, last, k);
    assert forall|i: int| 0 <= i < s.len() implies p(#[trigger] s[i]) == q(s[i]) by {
        lemma_floor_bound(m, first, lo, s[i]);
        lemma_ceiling_bound(m, last, hi, s[i]);
    }
    lemma_filter_agree(s, p, q);
}

/// The subtree's keys within the bounds found for `prefix` are its keys from
/// the floor of `prefix` to the end of the keys with `prefix`.
proof fn lemma_range_around_prefix<V: AsHashTree>(t: Option<Box<Node<V>>>, prefix: Seq<u8>, lo: Option<KeyBound>, hi: Option<KeyBound>)
    requires
        tree_wf(t),
        is_lower_bound(tree_map(t), prefix, lo),
        is_prefix_neighbor(tree_map(t), prefix, hi),
    ensures
        range_keys(t, opt_bound_key(lo), opt_bound_key(hi)) == keys_around_prefix(keys_of(inorder(t)), tree_map(t), prefix),
{
    let m = tree_map(t);
    let s = keys_of(inorder(t));
    lemma_range_keys_filter(t, opt_bound_key(lo), opt_bound_key(hi));
    lemma_inorder(t);
    let p = |k: Seq<u8>| in_bounds(opt_bound_key(lo), opt_bound_key(hi), k);
    let q = |k: Seq<u8>| from_floor(m, prefix, k) && to_prefix_end(m, prefix, k);
    assert forall|i: int| 0 <= i < s.len() implies p(#[trigger] s[i]) == q(s[i]) by {
        lemma_floor_bound(m, prefix, lo, s[i]);
        lemma_prefix_end_bound(m, prefix, hi, s[i]);
    }
    lemma_filter_agree(s, p, q);
}

/// Without bounds, a subtree lists all its keys in order.
proof fn lemma_range_keys_unbounded<V>(t: Option<Box<Node<V>>>)
    ensures
        range_keys(t, None, None) == keys_of(inorder(t)),
    decreases t,
{
    if let Some(n) = t {
        lemma_range_keys_unbounded(n.left);
        lemma_range_keys_unbounded(n.right);
        assert(keys_of(inorder(t)) =~= keys_of(inorder(n.left)) + seq![n.key@] + keys_of(inorder(n.right)));
    } else {
        assert(keys_of(inorder(t)) =~= Seq::<Seq<u8>>::empty());
    }
}

/// The lower bound of `key` in the subtree.
fn lower_bound_node<V: AsHashTree>(t: &Option<Box<Node<V>>>, key: &[u8]) -> (r: Option<KeyBound>)
    requires
        tree_wf(*t),
    ensures
        is_lower_bound(tree_map(*t), key@, r),
    decreases *t,
{
    match t {
        None => None,
        Some(n) => {
            proof {
                lemma_tree_parts(*n);
            }
            match compare_bytes(n.key.as_slice(), key) {
                Cmp::Less => {
                    let r = lower_bound_node(&n.right, key);
                    proof {
                        let ghost m = tree_map(*t);
                        if r is Some {
                            let b = r->Some_0;
                            assert forall|k: Seq<u8>| #[trigger] m.dom().contains(k) && lex_le(k, key@) implies lex_le(k, bound_key(b)) by {
                                if tree_map(n.left).dom().contains(k) {
                                    lemma_lex_transitive(k, n.key@, bound_key(b));
                                } else if k == n.key@ {
                                }
                            }
                        } else {
                            assert forall|k: Seq<u8>| #[trigger] m.dom().contains(k) && lex_le(k, key@) implies lex_le(k, n.key@) by {
                                if tree_map(n.right).dom().contains(k) {
                                    lemma_lex_asymmetric(key@, k);
                                    lemma_lex_irreflexive(k);
                                }
                            }
                            lemma_lex_irreflexive(key@);
                        }
                    }
                    match r {
                        Some(b) => Some(b),
                        None => Some(KeyBound::Neighbor(copy_bytes(n.key.as_slice()))),
                    }
                },
                Cmp::Equal => Some(KeyBound::Exact(copy_bytes(n.key.as_slice()))),
                Cmp::Greater => {
                    let r = lower_bound_node(&n.left, key);
                    proof {
                        let ghost m = tree_map(*t);
                        assert forall|k: Seq<u8>| #[trigger] m.dom().contains(k) && !tree_map(n.left).dom().contains(k) implies lex_lt(key@, k) by {
                            if k != n.key@ {
                                lemma_lex_transitive(key@, n.key@, k);
                            }
                        }
                        if r is Some {
                            let b = r->Some_0;
                            assert forall|k: Seq<u8>| #[trigger] m.dom().contains(k) && lex_le(k, key@) implies lex_le(k, bound_key(b)) by {
                                if !tree_map(n.left).dom().contains(k) {
                                    lemma_lex_asymmetric(key@, k);
                                    lemma_lex_irreflexive(k);
                                }
                            }
                        }
                    }
                    r
                },
            }
        },
    }
}

/// The upper bound of `key` in the subtree.
fn upper_bound_node<V: AsHashTree>(t: &Option<Box<Node<V>>>, key: &[u8]) -> (r: Option<KeyBound>)
    requires
        tree_wf(*t),
    ensures
        is_upper_bound(tree_map(*t), key@, r),
    decreases *t,
{
    match t {
        None => None,
        Some(n) => {
            proof {
                lemma_tree_parts(*n);
            }
            match compare_bytes(n.key.as_slice(), key) {
                Cmp::Greater => {
                    let r = upper_bound_node(&n.left, key);
                    proof {
                        let ghost m = tree_map(*t);
                        if r is Some {
                            let b = r->Some_0;
                            assert forall|k: Seq<u8>| #[trigger] m.dom().contains(k) && lex_le(key@, k) implies lex_le(bound_key(b), k) by {
                                if tree_map(n.right).dom().contains(k) {
                                    lemma_lex_transitive(bound_key(b), n.key@, k);
                                } else if k == n.key@ {
                                }
                            }
                        } else {
                            assert forall|k: Seq<u8>| #[trigger] m.dom().contains(k) && lex_le(key@, k) implies lex_le(n.key@, k) by {
                                if tree_map(n.left).dom().contains(k) {
                                    lemma_lex_asymmetric(k, key@);
                                    lemma_lex_irreflexive(k);
                                }
                            }
                            lemma_lex_irreflexive(key@);
                        }
                    }
                    match r {
                        Some(b) => Some(b),
                        None => Some(KeyBound::Neighbor(copy_bytes(n.key.as_slice()))),
                    }
                },
                Cmp::Equal => Some(KeyBound::Exact(copy_bytes(n.key.as_slice()))),
                Cmp::Less => {
                    let r = upper_bound_node(&n.right, key);
                    proof {
                        let ghost m = tree_map(*t);
                        assert forall|k: Seq<u8>| #[trigger] m.dom().contains(k) && !tree_map(n.right).dom().contains(k) implies lex_lt(k, key@) by {
                            if k != n.key@ {
                                lemma_lex_transitive(k, n.key@, key@);
                            }
                        }
                        if r is Some {
                            let b = r->Some_0;
                            assert forall|k: Seq<u8>| #[trigger] m.dom().contains(k) && lex_le(key@, k) implies lex_le(bound_key(b), k) by {
                                if !tree_map(n.right).dom().contains(k) {
                                    lemma_lex_asymmetric(k, key@);
                                    lemma_lex_irreflexive(k);
                                }
                            }
                        }
                    }
                    r
                },
            }
        },
    }
}

/// The right neighbor of the keys with `prefix` in the subtree.
fn prefix_neighbor_node<V: AsHashTree>(t: &Option<Box<Node<V>>>, prefix: &[u8]) -> (r: Option<KeyBound>)
    requires
        tree_wf(*t),
    ensures
        is_prefix_neighbor(tree_map(*t), prefix@, r),
    decreases *t,
{
    match t {
        None => None,
        Some(n) => {
            proof {
                lemma_tree_parts(*n);
            }
            let c = compare_bytes(n.key.as_slice(), prefix);
            let has_prefix = starts_with(n.key.as_slice(), prefix);
            let ghost m = tree_map(*t);
            match c {
                Cmp::Greater => {
                    if has_prefix {
                        let r = prefix_neighbor_node(&n.right, prefix);
                        proof {
                            assert forall|k: Seq<u8>| #[trigger] m.dom().contains(k) && past_prefix(prefix@, k) implies tree_map(n.right).dom().contains(k) by {
                                if tree_map(n.left).dom().contains(k) {
                                    lemma_prefix_before(prefix@, n.key@, k);
                                    lemma_lex_asymmetric(k, n.key@);
                                }
                            }
                        }
                        r
                    } else {
                        let r = prefix_neighbor_node(&n.left, prefix);
                        proof {
                            if r is Some {
                            let b = r->Some_0;
                                assert forall|k: Seq<u8>| #[trigger] m.dom().contains(k) && past_prefix(prefix@, k) implies lex_le(bound_key(b), k) by {
                                    if tree_map(n.right).dom().contains(k) {
                                        lemma_lex_transitive(bound_key(b), n.key@, k);
                                    }
                                }
                            } else {
                                assert forall|k: Seq<u8>| #[trigger] m.dom().contains(k) && past_prefix(prefix@, k) implies lex_le(n.key@, k) by {
                                }
                            }
                        }
                        match r {
                            Some(b) => Some(b),
                            None => Some(KeyBound::Neighbor(copy_bytes(n.key.as_slice()))),
                        }
                    }
                },
                _ => {
                    let r = prefix_neighbor_node(&n.right, prefix);
                    proof {
                        assert forall|k: Seq<u8>| #[trigger] m.dom().contains(k) && past_prefix(prefix@, k) implies tree_map(n.right).dom().contains(k) by {
                            if tree_map(n.left).dom().contains(k) {
                                lemma_lex_le_lt(k, n.key@, prefix@);
                                lemma_lex_asymmetric(prefix@, k);
                            }
                            if k == n.key@ {
                                lemma_lex_asymmetric(prefix@, k);
                                lemma_lex_irreflexive(k);
                            }
                        }
                    }
                    r
                },
            }
        },
    }
}

/// The witness for `key` in the subtree, with `f` building the witness of its
/// value; `None` if the key is absent.
fn lookup_and_build_witness<V: AsHashTree, F: FnOnce(&V) -> HashTree>(t: &Option<Box<Node<V>>>, key: &[u8], f: F) -> (r: Option<HashTree>)
    requires
        tree_wf(*t),
        forall|v: &V| v.inv() ==> #[trigger] f.requires((v,)),
        forall|v: &V, h: HashTree| #[trigger] f.ensures((v,), h) ==> reconstruct_spec(h) == v.root_hash_spec(),
    ensures
        r is Some <==> tree_map(*t).dom().contains(key@),
        r matches Some(h) ==> reconstruct_spec(h) == stored_hash(*t) && !(h is Empty),
        r matches Some(h) ==> labels_spec(h) == seq![key@],
        r matches Some(h) ==> labeled_parts(h).len() == 1 && labeled_parts(h)[0].0 == key@ && f.ensures(
            (&tree_map(*t)[key@],),
            labeled_parts(h)[0].1,
        ),
    decreases *t,
{
    match t {
        None => None,
        Some(n) => {
            proof {
                lemma_tree_parts(*n);
            }
            match compare_bytes(key, n.key.as_slice()) {
                Cmp::Equal => {
                    let l = left_hash_tree(n);
                    let sub = f(&n.value);
                    let m = HashTree::Labeled(copy_bytes(n.key.as_slice()), Box::new(sub));
                    let r = right_hash_tree(n);
                    proof {
                        assert(reconstruct_spec(m) == labeled_hash_spec(n.key@, reconstruct_spec(sub)));
                        lemma_node_fork(*n, l, m, r);
                        assert(labels_spec(l) + labels_spec(m) + labels_spec(r) =~= seq![key@]);
                        assert(labeled_parts(l) + labeled_parts(m) + labeled_parts(r) =~= seq![(key@, sub)]);
                    }
                    Some(three_way_fork(l, m, r))
                },
                Cmp::Less => {
                    proof {
                        lemma_lex_asymmetric(key@, n.key@);
                    }
                    let sub = lookup_and_build_witness(&n.left, key, f);
                    match sub {
                        None => None,
                        Some(subtree) => {
                            let m = HashTree::Pruned(data_hash(n));
                            let r = right_hash_tree(n);
                            proof {
                                lemma_node_fork(*n, subtree, m, r);
                                assert(labels_spec(subtree) + labels_spec(m) + labels_spec(r) =~= seq![key@]);
                                assert(labeled_parts(subtree) + labeled_parts(m) + labeled_parts(r) =~= labeled_parts(subtree));
                                assert(tree_map(n.left).dom().contains(key@));
                            }
                            Some(three_way_fork(subtree, m, r))
                        },
                    }
                },
                Cmp::Greater => {
                    proof {
                        lemma_lex_asymmetric(n.key@, key@);
                    }
                    let sub = lookup_and_build_witness(&n.right, key, f);
                    match sub {
                        None => None,
                        Some(subtree) => {
                            let l = left_hash_tree(n);
                            let m = HashTree::Pruned(data_hash(n));
                            proof {
                                lemma_node_fork(*n, l, m, subtree);
                                assert(labels_spec(l) + labels_spec(m) + labels_spec(subtree) =~= seq![key@]);
                                assert(labeled_parts(l) + labeled_parts(m) + labeled_parts(subtree) =~= labeled_parts(subtree));
                                assert(tree_map(n.right).dom().contains(key@));
                            }
                            Some(three_way_fork(l, m, subtree))
                        },
                    }
                },
            }
        },
    }
}


/// Whether the right child of `h` has a red left child.
fn right_left_red<V>(h: &Box<Node<V>>) -> (r: bool)
    ensures
        r == (h.right matches Some(rr) && is_red_spec(rr.left)),
{
    match &h.right {
        Some(rr) => is_red(&rr.left),
        None => false,
    }
}

/// The number of entries of a child is below that of its parent.
proof fn lemma_child_smaller<V: AsHashTree>(n: Box<Node<V>>)
    requires
        tree_wf(Some(n)),
    ensures
        tree_map(n.left).len() < tree_map(Some(n)).len(),
        tree_map(n.right).len() < tree_map(Some(n)).len(),
{
    lemma_tree_parts(n);
    lemma_tree_map_finite(n.left);
    lemma_tree_map_finite(n.right);
    lemma_tree_map_finite(Some(n));
    let d = tree_map(Some(n)).dom();
    assert(tree_map(n.left).dom().insert(n.key@).subset_of(d));
    assert(tree_map(n.right).dom().insert(n.key@).subset_of(d));
    vstd::set_lib::lemma_len_subset(tree_map(n.left).dom().insert(n.key@), d);
    vstd::set_lib::lemma_len_subset(tree_map(n.right).dom().insert(n.key@), d);
}

/// A red node of a left-leaning red-black tree whose left child and that
/// child's left child are both black: the way down to the left must first
/// borrow a red link.
spec fn needs_red_left<V>(h: Box<Node<V>>, b: nat) -> bool {
    &&& h.color == Color::Red
    &&& llrb(Some(h), b)
    &&& h.left matches Some(l) && l.color == Color::Black && !is_red_spec(l.left)
}

/// A red node of a left-leaning red-black tree whose right child has a black
/// left child: the way down to the right must first borrow a red link.
spec fn needs_red_right<V>(h: Box<Node<V>>, b: nat) -> bool {
    &&& h.color == Color::Red
    &&& llrb(Some(h), b)
    &&& h.right matches Some(x) && !is_red_spec(x.left)
}

/// A black node with two red children, each the root of a left-leaning
/// red-black tree, below which paths have `b` black nodes in all.
spec fn split_red<V>(r: Box<Node<V>>, b: nat) -> bool {
    &&& r.color == Color::Black
    &&& b >= 1
    &&& is_red_spec(r.left)
    &&& llrb(r.left, (b - 1) as nat)
    &&& is_red_spec(r.right)
    &&& llrb(r.right, (b - 1) as nat)
}

/// A black node whose left child is black and whose right child is red,
/// each the root of a left-leaning red-black tree: one right-leaning red
/// link at the top, with `b` black nodes on every path.
spec fn leans_right<V>(t: Box<Node<V>>, b: nat) -> bool {
    &&& t.color == Color::Black
    &&& b >= 1
    &&& !is_red_spec(t.left)
    &&& is_red_spec(t.right)
    &&& llrb(t.left, (b - 1) as nat)
    &&& llrb(t.right, (b - 1) as nat)
}

/// Make the left child of `h`, or one of its children, red, as the way down
/// to the left requires.
fn move_red_left<V: AsHashTree>(h: Box<Node<V>>, Ghost(b): Ghost<nat>) -> (r: Box<Node<V>>)
    requires
        tree_wf(Some(h)),
    ensures
        tree_wf(Some(r)),
        tree_map(Some(r)) == tree_map(Some(h)),
        lex_le(h.key@, r.key@),
        needs_red_left(h, b) ==> split_red(r, b) || (llrb(Some(r), b) && r.color == Color::Red && (r.left matches Some(
            l) && is_red_spec(l.left))),
{
    let ghost h0 = h;
    let mut h = h;
    flip_colors(&mut h);
    let ghost h1 = h;
    proof {
        if needs_red_left(h0, b) {
            let l = h0.left.unwrap();
            assert(llrb(h0.left, b));
            assert(llrb(h0.right, b));
            assert(b >= 1);
            assert(h0.right is Some);
            let x = h0.right.unwrap();
            assert(x.color == Color::Black);
            let l2 = h1.left.unwrap();
            assert(llrb(h1.left, (b - 1) as nat));
        }
    }
    if right_left_red(&h) {
        let ghost before = h;
        let right = h.right.take().unwrap();
        proof {
            lemma_tree_parts(before);
            assert(tree_wf(Some(right)));
        }
        let rotated = rotate_right(right);
        h.right = Some(rotated);
        rehash(&mut h);
        proof {
            assert forall|k: Seq<u8>| #[trigger] tree_map(h.right).dom().contains(k) implies lex_lt(h.key@, k) by {
                assert(tree_map(before.right).dom().contains(k));
            }
            assert(tree_wf(Some(h)));
            assert(tree_map(Some(h)) =~= tree_map(Some(before)));
        }
        let ghost h2 = h;
        h = rotate_left(h);
        let ghost h3 = h;
        flip_colors(&mut h);
        proof {
            if needs_red_left(h0, b) {
                let x = h0.right.unwrap();
                assert(llrb(Some(x), b));
                let y = x.left.unwrap();
                assert(llrb(x.left, (b - 1) as nat));
                assert(llrb(Some(y), (b - 1) as nat));
                assert(llrb(y.left, (b - 1) as nat));
                assert(llrb(y.right, (b - 1) as nat));
                assert(llrb(x.right, (b - 1) as nat));
                assert(llrb(h.left, b));
                assert(llrb(h.right, b));
                assert(llrb(Some(h), b));
            }
        }
    } else {
        proof {
            if needs_red_left(h0, b) {
                assert(llrb(h1.right, (b - 1) as nat));
                assert(split_red(h1, b));
            }
        }
    }
    h
}

/// Make the right child of `h`, or one of its children, red, as the way down
/// to the right requires.
fn move_red_right<V: AsHashTree>(h: Box<Node<V>>, Ghost(b): Ghost<nat>) -> (r: Box<Node<V>>)
    requires
        tree_wf(Some(h)),
    ensures
        tree_wf(Some(r)),
        tree_map(Some(r)) == tree_map(Some(h)),
        lex_le(r.key@, h.key@),
        needs_red_right(h, b) ==> split_red(r, b) || (r.color == Color::Red && llrb(r.left, b) && !is_red_spec(r.left)
            && (r.right matches Some(x) && leans_right(x, b) && x.key == h.key)),
{
    let ghost h0 = h;
    let mut h = h;
    flip_colors(&mut h);
    let ghost h1 = h;
    proof {
        if needs_red_right(h0, b) {
            assert(llrb(h0.left, b));
            assert(llrb(h0.right, b));
            assert(b >= 1);
            assert(h0.left is Some);
            assert(llrb(h1.right, (b - 1) as nat));
        }
    }
    if left_left_red(&h) {
        h = rotate_right(h);
        flip_colors(&mut h);
        proof {
            if needs_red_right(h0, b) {
                let l = h0.left.unwrap();
                assert(llrb(Some(l), b));
                assert(llrb(l.left, (b - 1) as nat));
                assert(llrb(l.right, (b - 1) as nat));
                let ll = l.left.unwrap();
                assert(llrb(Some(ll), (b - 1) as nat));
                assert(llrb(h.left, b));
                assert(leans_right(h.right.unwrap(), b));
            }
        }
    } else {
        proof {
            if needs_red_right(h0, b) {
                assert(llrb(h1.left, (b - 1) as nat));
                assert(split_red(h1, b));
            }
        }
    }
    h
}

/// A node of a left-leaning red-black tree from which an entry can be taken
/// without changing the number of black nodes on its paths: it is red, or
/// its left child is.
spec fn del_ready<V>(h: Box<Node<V>>, b: nat) -> bool {
    llrb(Some(h), b) && (h.color == Color::Red || is_red_spec(h.left))
}

/// A node whose children are left-leaning red-black trees of the right
/// height, and which has no red child if it is red, is one that `balance`
/// can restore; if it is red, it is already a left-leaning red-black tree.
proof fn lemma_rebalance_ready<V>(h: Box<Node<V>>, b: nat)
    requires
        llrb(h.left, black_below(h.color, b)),
        llrb(h.right, black_below(h.color, b)),
        h.color == Color::Black ==> b >= 1,
        h.color == Color::Red ==> !is_red_spec(h.left) && !is_red_spec(h.right),
    ensures
        fixable(*h, b),
        h.color == Color::Red ==> llrb(Some(h), b),
{
    if is_red_spec(h.left) {
        lemma_llrb_red(h.left, black_below(h.color, b));
    }
}

/// Remove the least entry of the subtree; returns what is left and the entry.
fn delete_min<V: AsHashTree>(h: Box<Node<V>>, Ghost(b): Ghost<nat>) -> (r: (Option<Box<Node<V>>>, (Vec<u8>, V)))
    requires
        tree_wf(Some(h)),
    ensures
        tree_wf(r.0),
        tree_map(Some(h)).dom().contains(r.1.0@),
        tree_map(Some(h))[r.1.0@] == r.1.1,
        tree_map(r.0) == tree_map(Some(h)).remove(r.1.0@),
        forall|k: Seq<u8>| #[trigger] tree_map(Some(h)).dom().contains(k) ==> lex_le(r.1.0@, k),
        del_ready(h, b) ==> llrb(r.0, b) && (h.color == Color::Black ==> !is_red_spec(r.0)),
    decreases tree_map(Some(h)).len(),
{
    let ghost h0 = h;
    proof {
        lemma_tree_parts(h);
    }
    if h.left.is_none() {
        let ghost old_h = h;
        let n = *h;
        proof {
            assert(tree_map::<V>(None) =~= Map::<Seq<u8>, V>::empty());
            assert(tree_map(n.right) =~= tree_map(Some(old_h)).remove(n.key@));
            if del_ready(h0, b) {
                assert(llrb(h0.left, b));
                assert(b == 0);
                assert(llrb(h0.right, b));
                assert(h0.right is None);
            }
        }
        return (n.right, (n.key, n.value));
    }
    let mut h = h;
    if !is_red(&h.left) && !left_left_red(&h) {
        proof {
            if del_ready(h0, b) {
                assert(needs_red_left(h0, b));
            }
        }
        h = move_red_left(h, Ghost(b));
    }
    let ghost before = h;
    proof {
        lemma_tree_parts(before);
        lemma_child_smaller(before);
        if del_ready(h0, b) {
            if before.color == Color::Black {
                assert(llrb(before.left, (b - 1) as nat));
            } else {
                assert(llrb(before.left, b));
            }
        }
    }
    let left = match h.left.take() {
        Some(left) => left,
        None => {
            let n = *h;
            proof {
                assert(tree_map::<V>(None) =~= Map::<Seq<u8>, V>::empty());
                assert(tree_map(n.right) =~= tree_map(Some(before)).remove(n.key@));
            }
            return (n.right, (n.key, n.value));
        },
    };
    proof {
        assert(tree_wf(Some(left)));
    }
    let (new_left, min) = delete_min(left, Ghost(black_below(before.color, b)));
    h.left = new_left;
    rehash(&mut h);
    proof {
        assert forall|k: Seq<u8>| #[trigger] tree_map(h.left).dom().contains(k) implies lex_lt(k, h.key@) by {
            assert(tree_map(before.left).dom().contains(k));
        }
        assert(tree_wf(Some(h)));
        assert forall|k: Seq<u8>| #[trigger] tree_map(Some(before)).dom().contains(k) implies lex_le(min.0@, k) by {
            if k == before.key@ {
                lemma_lex_le_lt(min.0@, before.left.unwrap().key@, k);
                assert(tree_map(before.left).dom().contains(before.left.unwrap().key@)) by {
                    lemma_tree_map_finite(before.left);
                }
            } else if tree_map(before.right).dom().contains(k) {
                assert(tree_map(before.left).dom().contains(min.0@));
                lemma_lex_transitive(min.0@, before.key@, k);
            }
        }
        assert(tree_map(Some(h)) =~= tree_map(Some(before)).remove(min.0@));
        if del_ready(h0, b) {
            assert(llrb(h.right, black_below(h.color, b)));
            lemma_rebalance_ready(h, b);
        }
    }
    let ghost unbalanced = h;
    let r = balance(h, Ghost(b));
    proof {
        if del_ready(h0, b) && unbalanced.color == Color::Red {
            assert(r == unbalanced);
        }
    }
    (Some(r), min)
}

/// Whether `delete_node` keeps the black height of the subtree at `h` when
/// it removes `key`: the subtree is ready for a deletion, or it leans right
/// at the top and `key` is not below its root key.
spec fn del_node_ready<V>(h: Box<Node<V>>, key: Seq<u8>, b: nat) -> bool {
    del_ready(h, b) || (leans_right(h, b) && lex_le(h.key@, key))
}

/// Remove the entry of `key`, which is in the subtree; returns what is left
/// and the entry.
fn delete_node<V: AsHashTree>(h: Box<Node<V>>, key: &[u8], Ghost(b): Ghost<nat>) -> (r: (
    Option<Box<Node<V>>>,
    (Vec<u8>, V),
))
    requires
        tree_wf(Some(h)),
        tree_map(Some(h)).dom().contains(key@),
    ensures
        tree_wf(r.0),
        r.1.0@ == key@,
        r.1.1 == tree_map(Some(h))[key@],
        tree_map(r.0) == tree_map(Some(h)).remove(key@),
        del_node_ready(h, key@, b) ==> llrb(r.0, b) && (h.color == Color::Black ==> !is_red_spec(r.0)),
    decreases tree_map(Some(h)).len(),
{
    let ghost orig = h;
    let ghost pre = del_node_ready(h, key@, b);
    let mut h = h;
    let result;
    if matches!(compare_bytes(key, h.key.as_slice()), Cmp::Less) {
        proof {
            lemma_tree_parts(orig);
            if leans_right(orig, b) && lex_le(orig.key@, key@) {
                lemma_lex_le_lt(orig.key@, key@, orig.key@);
                lemma_lex_irreflexive(orig.key@);
            }
            if tree_map(orig.right).dom().contains(key@) {
                lemma_lex_transitive(key@, orig.key@, key@);
                lemma_lex_irreflexive(key@);
            }
            lemma_lex_irreflexive(key@);
            assert(tree_map(orig.left).dom().contains(key@));
        }
        if !is_red(&h.left) && !left_left_red(&h) {
            proof {
                if pre {
                    assert(needs_red_left(orig, b));
                }
            }
            h = move_red_left(h, Ghost(b));
        }
        let ghost before = h;
        proof {
            lemma_tree_parts(before);
            lemma_child_smaller(before);
            lemma_lex_le_lt(key@, orig.key@, before.key@);
            if key@ == before.key@ || tree_map(before.right).dom().contains(key@) {
                lemma_lex_irreflexive(key@);
                if tree_map(before.right).dom().contains(key@) {
                    lemma_lex_transitive(key@, before.key@, key@);
                }
            }
            assert(tree_map(before.left).dom().contains(key@));
            if pre {
                if before.color == Color::Black {
                    assert(llrb(before.left, (b - 1) as nat));
                } else {
                    assert(llrb(before.left, b));
                }
            }
        }
        let left = h.left.take().unwrap();
        let (new_left, res) = delete_node(left, key, Ghost(black_below(before.color, b)));
        h.left = new_left;
        result = res;
        rehash(&mut h);
        proof {
            assert forall|k: Seq<u8>| #[trigger] tree_map(h.left).dom().contains(k) implies lex_lt(k, h.key@) by {
                assert(tree_map(before.left).dom().contains(k));
            }
            assert(tree_wf(Some(h)));
            assert(tree_map(Some(h)) =~= tree_map(Some(before)).remove(key@));
            if pre {
                assert(llrb(h.right, black_below(h.color, b)));
                lemma_rebalance_ready(h, b);
            }
        }
    } else {
        proof {
            lemma_lex_total(key@, orig.key@);
        }
        if is_red(&h.left) {
            h = rotate_right(h);
        }
        let ghost mid = h;
        proof {
            if pre {
                if del_ready(orig, b) && orig.color == Color::Black {
                    let l = orig.left.unwrap();
                    assert(llrb(Some(l), (b - 1) as nat));
                    assert(leans_right(mid, b));
                    lemma_lex_le_lt(mid.key@, orig.key@, key@);
                }
                assert((mid.color == Color::Red && llrb(Some(mid), b)) || (leans_right(mid, b) && lex_le(
                    mid.key@,
                    key@,
                )));
            }
        }
        if matches!(compare_bytes(key, h.key.as_slice()), Cmp::Equal) && h.right.is_none() {
            let ghost old_h = h;
            proof {
                lemma_tree_parts(old_h);
            }
            let n = *h;
            proof {
                assert(tree_map(n.left) =~= tree_map(Some(old_h)).remove(key@));
                if pre {
                    assert(llrb(old_h.right, b));
                    assert(b == 0);
                    assert(llrb(old_h.left, b));
                }
            }
            return (n.left, (n.key, n.value));
        }
        if !is_red(&h.right) && !right_left_red(&h) {
            proof {
                if pre {
                    lemma_tree_parts(mid);
                    if key@ != mid.key@ {
                        if tree_map(mid.left).dom().contains(key@) {
                            lemma_lex_asymmetric(key@, mid.key@);
                        }
                        assert(tree_map(mid.right).dom().contains(key@));
                    }
                    assert(needs_red_right(mid, b));
                }
            }
            h = move_red_right(h, Ghost(b));
        }
        let ghost before = h;
        proof {
            lemma_tree_parts(before);
            lemma_child_smaller(before);
        }
        if matches!(compare_bytes(key, h.key.as_slice()), Cmp::Equal) {
            proof {
                if pre && before.right is Some {
                    let x = before.right.unwrap();
                    if x.key == mid.key {
                        assert(tree_map(before.right).dom().contains(x.key@)) by {
                            lemma_tree_map_finite(before.right);
                        }
                        lemma_lex_irreflexive(key@);
                        lemma_lex_le_lt(key@, mid.key@, key@);
                    }
                }
            }
            let right = match h.right.take() {
                Some(right) => right,
                None => {
                    let n = *h;
                    proof {
                        assert(tree_map(n.left) =~= tree_map(Some(before)).remove(key@));
                    }
                    return (n.left, (n.key, n.value));
                },
            };
            proof {
                assert(tree_wf(Some(right)));
            }
            let (new_right, min) = delete_min(right, Ghost(black_below(before.color, b)));
            proof {
                lemma_tree_values_inv(Some(right), min.0@);
            }
            h.right = new_right;
            let mut min_key = min.0;
            let mut min_value = min.1;
            std::mem::swap(&mut h.key, &mut min_key);
            std::mem::swap(&mut h.value, &mut min_value);
            result = (min_key, min_value);
            rehash(&mut h);
            proof {
                let mk = h.key@;
                assert(tree_map(before.right).dom().contains(mk));
                assert forall|k: Seq<u8>| #[trigger] tree_map(h.left).dom().contains(k) implies lex_lt(k, h.key@) by {
                    assert(tree_map(before.left).dom().contains(k));
                    lemma_lex_transitive(k, before.key@, mk);
                }
                assert forall|k: Seq<u8>| #[trigger] tree_map(h.right).dom().contains(k) implies lex_lt(h.key@, k) by {
                    assert(tree_map(before.right).dom().contains(k));
                    assert(k != mk);
                }
                assert(tree_wf(Some(h)));
                assert(tree_map(Some(h)) =~= tree_map(Some(before)).remove(key@));
                if pre {
                    assert(llrb(h.left, black_below(h.color, b)));
                    lemma_rebalance_ready(h, b);
                }
            }
        } else {
            proof {
                lemma_lex_le_lt(before.key@, mid.key@, orig.key@);
                lemma_lex_le_lt(before.key@, orig.key@, key@);
                if tree_map(before.left).dom().contains(key@) {
                    lemma_lex_asymmetric(key@, before.key@);
                }
                assert(tree_map(before.right).dom().contains(key@));
            }
            let right = h.right.take().unwrap();
            let (new_right, res) = delete_node(right, key, Ghost(black_below(before.color, b)));
            h.right = new_right;
            result = res;
            rehash(&mut h);
            proof {
                assert forall|k: Seq<u8>| #[trigger] tree_map(h.right).dom().contains(k) implies lex_lt(h.key@, k) by {
                    assert(tree_map(before.right).dom().contains(k));
                }
                assert(tree_wf(Some(h)));
                assert(tree_map(Some(h)) =~= tree_map(Some(before)).remove(key@));
                if pre {
                    assert(llrb(h.left, black_below(h.color, b)));
                    lemma_rebalance_ready(h, b);
                }
            }
        }
    }
    let ghost unbalanced = h;
    let r = balance(h, Ghost(b));
    proof {
        if pre && unbalanced.color == Color::Red {
            assert(r == unbalanced);
        }
    }
    (Some(r), result)
}


/// A map from labels to values, as a left-leaning red-black tree (see
/// <https://www.cs.princeton.edu/~rs/talks/LLRB/LLRB.pdf>) in which every
/// node stores the hash of its subtree.
pub struct RbTree<V> {
    len: usize,
    root: Option<Box<Node<V>>>,
}

impl<V> View for RbTree<V> {
    type V = Map<Seq<u8>, V>;

    closed spec fn view(&self) -> Map<Seq<u8>, V> {
        tree_map(self.root)
    }
}

impl<V: AsHashTree> RbTree<V> {
    /// The tree is a search tree that stores the hashes of its subtrees, and
    /// its length is its number of entries.
    pub closed spec fn wf(&self) -> bool {
        &&& tree_wf(self.root)
        &&& self.len == tree_map(self.root).len()
    }

    /// The tree is balanced: its root is black, and it is a left-leaning
    /// red-black tree: every path from the root down has as many black
    /// nodes, no red node has a red child, and no right child is red.
    pub closed spec fn balanced(&self) -> bool {
        !is_red_spec(self.root) && exists|bh: nat| llrb(self.root, bh)
    }

    /// The root hash of the tree: the hash of the full hash tree of its
    /// entries, as the tree is shaped.
    pub closed spec fn root_hash_view(&self) -> Seq<u8> {
        stored_hash(self.root)
    }

    /// The full hash tree of the entries, as the tree is shaped: each key
    /// labels its value's hash tree.
    pub closed spec fn full_tree_view(&self) -> TreeView {
        full_tree(self.root)
    }

    /// Every value of a well-formed tree keeps its invariant.
    pub proof fn lemma_values_inv(&self, k: Seq<u8>)
        requires
            self.wf(),
            self@.dom().contains(k),
        ensures
            self@[k].inv(),
    {
        lemma_tree_values_inv(self.root, k);
    }

    /// The entries form a finite map.
    pub proof fn lemma_finite(&self)
        ensures
            self@.dom().finite(),
    {
        lemma_tree_map_finite(self.root);
    }

    /// An empty tree.
    pub fn new() -> (r: Self)
        ensures
            r.wf(),
            r@ == Map::<Seq<u8>, V>::empty(),
            r.balanced(),
            r.root_hash_view() == empty_hash_spec(),
            r.full_tree_view() == TreeView::Empty,
    {
        let r = RbTree { len: 0, root: None };
        proof {
            assert(tree_map::<V>(None) =~= Map::<Seq<u8>, V>::empty());
            assert(llrb::<V>(None, 0));
        }
        r
    }

    /// The number of entries.
    pub fn len(&self) -> (r: usize)
        requires
            self.wf(),
        ensures
            r == self@.len(),
    {
        self.len
    }

    /// Whether the tree has no entries.
    pub fn is_empty(&self) -> (r: bool)
        requires
            self.wf(),
        ensures
            r == (self@.len() == 0),
    {
        proof {
            lemma_tree_map_finite(self.root);
        }
        self.root.is_none()
    }

    /// The value of the entry with the given key.
    pub fn get(&self, key: &[u8]) -> (r: Option<&V>)
        requires
            self.wf(),
        ensures
            r is Some <==> self@.dom().contains(key@),
            r matches Some(v) ==> *v == self@[key@],
    {
        let mut cur = &self.root;
        loop
            invariant
                tree_wf(*cur),
                tree_map(*cur).dom().contains(key@) <==> self@.dom().contains(key@),
                tree_map(*cur).dom().contains(key@) ==> tree_map(*cur)[key@] == self@[key@],
            decreases tree_height(*cur),
        {
            match cur {
                None => {
                    return None;
                },
                Some(n) => {
                    proof {
                        lemma_tree_parts(*n);
                    }
                    match compare_bytes(key, n.key.as_slice()) {
                        Cmp::Equal => {
                            return Some(&n.value);
                        },
                        Cmp::Less => {
                            proof {
                                lemma_lex_asymmetric(key@, n.key@);
                            }
                            cur = &n.left;
                        },
                        Cmp::Greater => {
                            proof {
                                lemma_lex_asymmetric(n.key@, key@);
                            }
                            cur = &n.right;
                        },
                    }
                },
            }
        }
    }


    /// The lower bound of `key`: the greatest key not above it.
    pub fn lower_bound(&self, key: &[u8]) -> (r: Option<KeyBound>)
        requires
            self.wf(),
        ensures
            is_lower_bound(self@, key@, r),
    {
        lower_bound_node(&self.root, key)
    }

    /// The upper bound of `key`: the least key not below it.
    pub fn upper_bound(&self, key: &[u8]) -> (r: Option<KeyBound>)
        requires
            self.wf(),
        ensures
            is_upper_bound(self@, key@, r),
    {
        upper_bound_node(&self.root, key)
    }

    /// The right neighbor of the keys that start with `prefix`: the least key
    /// past `prefix` that does not start with it.
    pub fn right_prefix_neighbor(&self, prefix: &[u8]) -> (r: Option<KeyBound>)
        requires
            self.wf(),
        ensures
            is_prefix_neighbor(self@, prefix@, r),
    {
        prefix_neighbor_node(&self.root, prefix)
    }

    /// Like `witness`, but gives the caller more control over the
    /// construction of the value witness. This method is useful for
    /// constructing witnesses for nested certified maps.
    pub fn nested_witness<F: FnOnce(&V) -> HashTree>(&self, key: &[u8], f: F) -> (r: HashTree)
        requires
            self.wf(),
            forall|v: &V| v.inv() ==> #[trigger] f.requires((v,)),
            forall|v: &V, h: HashTree| #[trigger] f.ensures((v,), h) ==> reconstruct_spec(h) == v.root_hash_spec(),
        ensures
            reconstruct_spec(r) == self.root_hash_view(),
            self@.dom().contains(key@) ==> labels_spec(r) == seq![key@],
            self@.dom().contains(key@) ==> labeled_parts(r).len() == 1 && labeled_parts(r)[0].0 == key@ && f.ensures(
                (&self@[key@],),
                labeled_parts(r)[0].1,
            ),
            !self@.dom().contains(key@) ==> labels_spec(r) == keys_around(keys_of(self.entries()), self@, key@, key@),
            !self@.dom().contains(key@) ==> leaf_values_spec(r) == Seq::<Seq<u8>>::empty(),
    {
        if let Some(t) = lookup_and_build_witness(&self.root, key, f) {
            return t;
        }
        let lo = lower_bound_node(&self.root, key);
        let hi = upper_bound_node(&self.root, key);
        proof {
            lemma_range_around(self.root, key@, key@, lo, hi);
            if lo is Some && hi is Some {
                lemma_lex_le_lt(bound_key(lo->Some_0), key@, bound_key(hi->Some_0));
            }
        }
        range_witness(&self.root, &lo, &hi, Reveal::Keys)
    }

    /// Constructs a hash tree that acts as a proof that there is an entry
    /// with the specified key in this map. The proof also contains the value
    /// in question. If the key is not in the map, returns a proof of absence.
    pub fn witness(&self, key: &[u8]) -> (r: HashTree)
        requires
            self.wf(),
        ensures
            reconstruct_spec(r) == self.root_hash_view(),
            self@.dom().contains(key@) ==> labels_spec(r) == seq![key@],
            self@.dom().contains(key@) ==> labeled_parts(r).len() == 1 && labeled_parts(r)[0].0 == key@ && reconstruct_spec(
                labeled_parts(r)[0].1,
            ) == self@[key@].root_hash_spec() && tree_view(labeled_parts(r)[0].1) == self@[key@].tree_spec(),
            !self@.dom().contains(key@) ==> labels_spec(r) == keys_around(keys_of(self.entries()), self@, key@, key@),
            !self@.dom().contains(key@) ==> leaf_values_spec(r) == Seq::<Seq<u8>>::empty(),
    {
        self.nested_witness(key, |v: &V| -> (t: HashTree)
            requires
                v.inv(),
            ensures
                reconstruct_spec(t) == v.root_hash_spec(),
                tree_view(t) == v.tree_spec(),
            { v.as_hash_tree() })
    }

    /// Returns a witness enumerating all the keys in this map. The values are
    /// replaced with "Pruned" nodes.
    pub fn keys(&self) -> (r: HashTree)
        requires
            self.wf(),
        ensures
            reconstruct_spec(r) == self.root_hash_view(),
            labels_spec(r) == keys_of(self.entries()),
            leaf_values_spec(r) == Seq::<Seq<u8>>::empty(),
    {
        proof {
            lemma_range_keys_unbounded(self.root);
        }
        full_witness_tree(&self.root, Reveal::Keys)
    }

    /// Returns a witness for the keys in the specified range. The values are
    /// replaced with "Pruned" nodes.
    pub fn key_range(&self, first: &[u8], last: &[u8]) -> (r: HashTree)
        requires
            self.wf(),
        ensures
            reconstruct_spec(r) == self.root_hash_view(),
            lex_le(first@, last@) ==> labels_spec(r) == keys_around(keys_of(self.entries()), self@, first@, last@),
            lex_le(first@, last@) ==> leaf_values_spec(r) == Seq::<Seq<u8>>::empty(),
    {
        let lo = lower_bound_node(&self.root, first);
        let hi = upper_bound_node(&self.root, last);
        proof {
            lemma_range_around(self.root, first@, last@, lo, hi);
            if lo is Some && hi is Some && lex_le(first@, last@) {
                lemma_lex_le_lt(bound_key(lo->Some_0), first@, last@);
                lemma_lex_le_lt(bound_key(lo->Some_0), last@, bound_key(hi->Some_0));
            }
        }
        range_witness(&self.root, &lo, &hi, Reveal::Keys)
    }

    /// Returns a witness for the key-value pairs in the specified range. The
    /// resulting tree contains both keys and values.
    pub fn value_range(&self, first: &[u8], last: &[u8]) -> (r: HashTree)
        requires
            self.wf(),
        ensures
            reconstruct_spec(r) == self.root_hash_view(),
            lex_le(first@, last@) ==> labels_spec(r) == keys_around(keys_of(self.entries()), self@, first@, last@),
            lex_le(first@, last@) ==> parts_reveal_range(labeled_parts(r), self@, first@, last@),
    {
        let lo = lower_bound_node(&self.root, first);
        let hi = upper_bound_node(&self.root, last);
        proof {
            lemma_range_around(self.root, first@, last@, lo, hi);
            if lo is Some && hi is Some && lex_le(first@, last@) {
                lemma_lex_le_lt(bound_key(lo->Some_0), first@, last@);
                lemma_lex_le_lt(bound_key(lo->Some_0), last@, bound_key(hi->Some_0));
                let a = bound_key(lo->Some_0);
                let b = bound_key(hi->Some_0);
                if a == b {
                    lemma_lex_le_lt(last@, b, first@);
                    if lex_lt(first@, last@) {
                        lemma_lex_asymmetric(first@, last@);
                    }
                    if lex_lt(a, first@) {
                        lemma_lex_le_lt(a, first@, a);
                        lemma_lex_irreflexive(a);
                    }
                    if lex_lt(last@, b) {
                        lemma_lex_le_lt(b, last@, b);
                        lemma_lex_irreflexive(b);
                    }
                }
            }
            lemma_bounds_admit(self@, first@, last@, lo, hi);
        }
        let r = range_witness(&self.root, &lo, &hi, Reveal::Data);
        proof {
            if lex_le(first@, last@) {
                let ps = labeled_parts(r);
                assert forall|i: int| 0 <= i < ps.len() implies {
                    &&& self@.dom().contains(#[trigger] ps[i].0)
                    &&& in_bounds(Some(first@), Some(last@), ps[i].0) ==> tree_view(ps[i].1) == self@[ps[i].0].tree_spec()
                    &&& !in_bounds(Some(first@), Some(last@), ps[i].0) ==> ps[i].1 is Pruned
                } by {
                    assert(self@.dom().contains(ps[i].0));
                }
            }
        }
        r
    }

    /// Returns a witness that enumerates all the keys starting with the
    /// specified prefix.
    pub fn keys_with_prefix(&self, prefix: &[u8]) -> (r: HashTree)
        requires
            self.wf(),
        ensures
            reconstruct_spec(r) == self.root_hash_view(),
            labels_spec(r) == keys_around_prefix(keys_of(self.entries()), self@, prefix@),
            leaf_values_spec(r) == Seq::<Seq<u8>>::empty(),
            forall|k: Seq<u8>| #[trigger] self@.dom().contains(k) && is_prefix_of(prefix@, k) ==> labels_spec(r).contains(k),
    {
        let lo = lower_bound_node(&self.root, prefix);
        let hi = prefix_neighbor_node(&self.root, prefix);
        proof {
            self.lemma_entries();
            let m = self@;
            let keys = keys_of(self.entries());
            let pred = |k: Seq<u8>| from_floor(m, prefix@, k) && to_prefix_end(m, prefix@, k);
            assert forall|k: Seq<u8>| #[trigger] m.dom().contains(k) && is_prefix_of(prefix@, k) implies keys_around_prefix(
                keys,
                m,
                prefix@,
            ).contains(k) by {
                let i = choose|i: int| 0 <= i < self.entries().len() && self.entries()[i].0 == k;
                assert(keys[i] == k);
                lemma_prefix_not_before(prefix@, k);
                assert forall|k2: Seq<u8>| #[trigger] m.dom().contains(k2) && lex_le(k2, prefix@) implies lex_le(k2, k) by {
                    lemma_lex_le_lt(k2, prefix@, k);
                }
                assert forall|k2: Seq<u8>| #[trigger] m.dom().contains(k2) && past_prefix(prefix@, k2) implies lex_le(k, k2) by {
                    lemma_prefix_before(prefix@, k, k2);
                }
                assert(pred(keys[i]));
                keys.lemma_filter_contains(pred, i);
            }
            lemma_range_around_prefix(self.root, prefix@, lo, hi);
            if lo is Some && hi is Some {
                lemma_lex_le_lt(bound_key(lo->Some_0), prefix@, bound_key(hi->Some_0));
            }
        }
        range_witness(&self.root, &lo, &hi, Reveal::Keys)
    }

    /// The root hash of the tree.
    pub fn root_hash(&self) -> (r: crate::hashtree::Hash)
        requires
            self.wf(),
        ensures
            r@ == self.root_hash_view(),
    {
        match &self.root {
            None => empty_hash(),
            Some(n) => n.subtree_hash,
        }
    }


    /// Removes the specified key from the map; returns its entry, if it was
    /// there.
    pub fn delete(&mut self, key: &[u8]) -> (r: Option<(Vec<u8>, V)>)
        requires
            old(self).wf(),
        ensures
            final(self).wf(),
            final(self)@ == old(self)@.remove(key@),
            final(self)@.dom().finite(),
            r is Some <==> old(self)@.dom().contains(key@),
            r matches Some(e) ==> e.0@ == key@ && e.1 == old(self)@[key@],
            old(self).balanced() ==> final(self).balanced(),
            r is None ==> *final(self) == *old(self),
    {
        if self.get(key).is_none() {
            proof {
                assert(self@.remove(key@) =~= self@);
                lemma_tree_map_finite(self.root);
            }
            return None;
        }
        proof {
            lemma_tree_map_finite(self.root);
        }
        let ghost balanced = self.balanced();
        let ghost bh = choose|bh: nat| llrb(self.root, bh);
        let mut root = self.root.take().unwrap();
        let ghost root0 = root;
        let ghost mut b = bh;
        if !is_red(&root.left) && !is_red(&root.right) {
            root.color = Color::Red;
            proof {
                b = (bh - 1) as nat;
            }
        }
        proof {
            if balanced {
                assert(llrb(Some(root0), bh));
                assert(llrb(root0.left, (bh - 1) as nat));
                assert(llrb(root0.right, (bh - 1) as nat));
                assert(del_ready(root, b));
            }
        }
        let (new_root, result) = delete_node(root, key, Ghost(b));
        self.root = new_root;
        let ghost r0 = self.root;
        match &mut self.root {
            Some(n) => {
                n.color = Color::Black;
            },
            None => {},
        }
        proof {
            if balanced {
                assert(llrb(r0, b));
                if is_red_spec(r0) {
                    assert(llrb(self.root, b + 1));
                } else {
                    assert(llrb(self.root, b));
                }
            }
        }
        self.len = self.len - 1;
        proof {
            lemma_tree_map_finite(self.root);
        }
        Some(result)
    }

    /// Inserts a key-value entry into the map; returns the value the key had
    /// before, if any.
    pub fn insert(&mut self, key: Vec<u8>, value: V) -> (r: Option<V>)
        requires
            old(self).wf(),
            value.inv(),
            old(self)@.len() < usize::MAX,
        ensures
            final(self).wf(),
            final(self)@ == old(self)@.insert(key@, value),
            final(self)@.dom().finite(),
            r == (if old(self)@.dom().contains(key@) { Some(old(self)@[key@]) } else { None }),
            old(self).balanced() ==> final(self).balanced(),
    {
        proof {
            lemma_tree_map_finite(self.root);
        }
        let ghost bh = choose|bh: nat| llrb(self.root, bh);
        let root = self.root.take();
        let (mut node, old_value) = insert_node(root, key, value, Ghost(bh));
        let ghost inserted = node;
        node.color = Color::Black;
        proof {
            assert(tree_wf(Some(node)));
            if old(self).balanced() {
                assert(llrb(Some(inserted), bh));
                if inserted.color == Color::Red {
                    assert(llrb(Some(node), bh + 1));
                } else {
                    assert(llrb(Some(node), bh));
                }
            }
        }
        if old_value.is_none() {
            self.len = self.len + 1;
        }
        self.root = Some(node);
        proof {
            lemma_tree_map_finite(self.root);
        }
        old_value
    }
}

impl<V: AsHashTree> AsHashTree for RbTree<V> {
    open spec fn inv(&self) -> bool {
        self.wf()
    }

    open spec fn root_hash_spec(&self) -> Seq<u8> {
        self.root_hash_view()
    }

    open spec fn tree_spec(&self) -> TreeView {
        self.full_tree_view()
    }

    fn root_hash(&self) -> (r: crate::hashtree::Hash) {
        match &self.root {
            None => empty_hash(),
            Some(n) => n.subtree_hash,
        }
    }

    fn as_hash_tree(&self) -> (r: HashTree) {
        full_witness_tree(&self.root, Reveal::Data)
    }
}


/// The entries of a subtree in key order.
pub closed spec fn inorder<V>(t: Option<Box<Node<V>>>) -> Seq<(Seq<u8>, V)>
    decreases t,
{
    match t {
        None => Seq::empty(),
        Some(n) => inorder(n.left) + seq![(n.key@, n.value)] + inorder(n.right),
    }
}

/// The entries still to come from a stack of nodes whose left subtrees were
/// already visited: each node, then its right subtree, from the top down.
pub closed spec fn stack_entries<V>(s: Seq<&Node<V>>) -> Seq<(Seq<u8>, V)>
    decreases s.len(),
{
    if s.len() == 0 {
        Seq::empty()
    } else {
        let n = s.last();
        seq![(n.key@, n.value)] + inorder(n.right) + stack_entries(s.drop_last())
    }
}

/// The entries of a sequence are strictly increasing by key.
pub open spec fn sorted_by_key<V>(s: Seq<(Seq<u8>, V)>) -> bool {
    forall|i: int, j: int| 0 <= i < j < s.len() ==> lex_lt(#[trigger] s[i].0, #[trigger] s[j].0)
}

/// A sequence of entries lists exactly the entries of a map.
pub open spec fn lists_map<V>(s: Seq<(Seq<u8>, V)>, m: Map<Seq<u8>, V>) -> bool {
    &&& s.len() == m.len()
    &&& forall|i: int| 0 <= i < s.len() ==> m.dom().contains(#[trigger] s[i].0) && m[s[i].0] == s[i].1
    &&& forall|k: Seq<u8>| #[trigger] m.dom().contains(k) ==> exists|i: int| 0 <= i < s.len() && s[i].0 == k
}

/// The in-order entries of a search tree are its entries, in increasing key
/// order.
proof fn lemma_inorder<V: AsHashTree>(t: Option<Box<Node<V>>>)
    requires
        tree_wf(t),
    ensures
        sorted_by_key(inorder(t)),
        lists_map(inorder(t), tree_map(t)),
    decreases t,
{
    lemma_tree_map_finite(t);
    match t {
        None => {
            assert(tree_map(t) =~= Map::<Seq<u8>, V>::empty());
        },
        Some(n) => {
            lemma_inorder(n.left);
            lemma_inorder(n.right);
            lemma_tree_parts(n);
            lemma_tree_map_finite(n.left);
            lemma_tree_map_finite(n.right);
            let l = inorder(n.left);
            let r = inorder(n.right);
            let mid = seq![(n.key@, n.value)];
            let s = inorder(t);
            assert(s == l + mid + r);
            let nl = l.len() as int;
            assert forall|i: int| 0 <= i < s.len() implies #[trigger] s[i] == (if i < nl { l[i] } else if i
                == nl { (n.key@, n.value) } else { r[i - nl - 1] }) by {}
            assert forall|i: int, j: int| 0 <= i < j < s.len() implies lex_lt(#[trigger] s[i].0, #[trigger] s[j].0) by {
                if j < nl {
                } else if i < nl && j == nl {
                    assert(tree_map(n.left).dom().contains(l[i].0));
                } else if i < nl {
                    assert(tree_map(n.left).dom().contains(l[i].0));
                    assert(tree_map(n.right).dom().contains(r[j - nl - 1].0));
                    lemma_lex_transitive(l[i].0, n.key@, r[j - nl - 1].0);
                } else if i == nl {
                    assert(tree_map(n.right).dom().contains(r[j - nl - 1].0));
                } else {
                    assert(r[i - nl - 1].0 == s[i].0);
                    assert(r[j - nl - 1].0 == s[j].0);
                }
            }
            let m = tree_map(t);
            assert forall|i: int| 0 <= i < s.len() implies m.dom().contains(#[trigger] s[i].0) && m[s[i].0] == s[i].1 by {
                if i < nl {
                    assert(tree_map(n.left).dom().contains(l[i].0));
                } else if i > nl {
                    assert(tree_map(n.right).dom().contains(r[i - nl - 1].0));
                }
            }
            assert forall|k: Seq<u8>| #[trigger] m.dom().contains(k) implies exists|i: int| 0 <= i < s.len() && s[i].0 == k by {
                if k == n.key@ {
                    assert(s[nl].0 == k);
                } else if tree_map(n.left).dom().contains(k) {
                    let i = choose|i: int| 0 <= i < l.len() && l[i].0 == k;
                    assert(s[i].0 == k);
                } else {
                    assert(tree_map(n.right).dom().contains(k));
                    let i = choose|i: int| 0 <= i < r.len() && r[i].0 == k;
                    assert(s[i + nl + 1].0 == k);
                }
            }
            let dl = tree_map(n.left).dom();
            let dr = tree_map(n.right).dom();
            assert(dl.disjoint(dr));
            vstd::set_lib::lemma_set_disjoint_lens(dl, dr);
            assert(!(dl + dr).contains(n.key@));
            assert(m.dom() =~= (dl + dr).insert(n.key@));
        },
    }
}

/// Law: after `insert(k, v)`, `get(k)` gives `v` and every other key keeps
/// its entry; a `delete(k)` of a key that was not there before then gives
/// back the map as it was.
pub proof fn lemma_insert_get_delete<V>(m: Map<Seq<u8>, V>, k: Seq<u8>, v: V)
    ensures
        m.insert(k, v).dom().contains(k),
        m.insert(k, v)[k] == v,
        forall|k2: Seq<u8>| k2 != k ==> (#[trigger] m.insert(k, v).dom().contains(k2) <==> m.dom().contains(k2)),
        forall|k2: Seq<u8>| k2 != k && m.dom().contains(k2) ==> #[trigger] m.insert(k, v)[k2] == m[k2],
        !m.dom().contains(k) ==> m.insert(k, v).remove(k) == m,
        !m.remove(k).dom().contains(k),
{
    if !m.dom().contains(k) {
        assert(m.insert(k, v).remove(k) =~= m);
    }
}

/// An iterator over the entries of a tree, in key order.
pub struct RbTreeIterator<'tree, V> {
    visit: &'tree Option<Box<Node<V>>>,
    stack: Vec<&'tree Node<V>>,
    remaining_elements: usize,
}

impl<'tree, V> View for RbTreeIterator<'tree, V> {
    type V = Seq<(Seq<u8>, V)>;

    /// The entries the iterator has still to give, in order.
    closed spec fn view(&self) -> Seq<(Seq<u8>, V)> {
        inorder(*self.visit) + stack_entries(self.stack@)
    }
}

impl<'tree, V: AsHashTree> RbTreeIterator<'tree, V> {
    /// The iterator knows how many entries are left.
    pub closed spec fn wf(&self) -> bool {
        self.remaining_elements == self@.len()
    }

    /// An iterator over all the entries of `tree`, in key order.
    pub fn new(tree: &'tree RbTree<V>) -> (r: Self)
        requires
            tree.wf(),
        ensures
            r.wf(),
            r@ == tree.entries(),
    {
        proof {
            lemma_inorder(tree.root);
        }
        let r = RbTreeIterator { visit: &tree.root, stack: Vec::new(), remaining_elements: tree.len };
        proof {
            assert(stack_entries(r.stack@) =~= Seq::<(Seq<u8>, V)>::empty());
            assert(r@ =~= inorder(tree.root));
        }
        r
    }

    /// The next entry, if any is left.
    pub fn next(&mut self) -> (r: Option<(&'tree Vec<u8>, &'tree V)>)
        requires
            old(self).wf(),
        ensures
            final(self).wf(),
            old(self)@.len() == 0 ==> r is None && final(self)@ == old(self)@,
            old(self)@.len() > 0 ==> (r matches Some(e) && e.0@ == old(self)@[0].0 && *e.1 == old(self)@[0].1
                && final(self)@ == old(self)@.drop_first()),
    {
        loop
            invariant
                self@ == old(self)@,
                self.wf(),
            ensures
                self@ == old(self)@,
                self.wf(),
                *self.visit is None,
            decreases tree_height(*self.visit),
        {
            match self.visit {
                Some(n) => {
                    let ghost before = self.stack@;
                    self.stack.push(&**n);
                    self.visit = &n.left;
                    proof {
                        assert(self.stack@.drop_last() == before);
                        assert(inorder(*self.visit) + stack_entries(self.stack@) =~= inorder(Some(*n))
                            + stack_entries(before));
                    }
                },
                None => {
                    break ;
                },
            }
        }
        proof {
            assert(inorder::<V>(None) =~= Seq::<(Seq<u8>, V)>::empty());
            assert(self@ =~= stack_entries(self.stack@));
        }
        let ghost before = self.stack@;
        match self.stack.pop() {
            Some(node) => {
                self.visit = &node.right;
                proof {
                    assert(self.stack@ == before.drop_last());
                    assert(old(self)@ =~= seq![(node.key@, node.value)] + self@);
                    assert(self@ =~= old(self)@.drop_first());
                }
                self.remaining_elements = self.remaining_elements - 1;
                Some((&node.key, &node.value))
            },
            None => {
                proof {
                    assert(before.len() == 0);
                }
                None
            },
        }
    }

    /// The number of entries left, as lower and upper bound.
    pub fn size_hint(&self) -> (r: (usize, Option<usize>))
        requires
            self.wf(),
        ensures
            r.0 == self@.len(),
            r.1 == Some(self@.len() as usize),
    {
        (self.remaining_elements, Some(self.remaining_elements))
    }
}

impl<V: AsHashTree> RbTree<V> {
    /// The entries of the tree, in key order.
    pub closed spec fn entries(&self) -> Seq<(Seq<u8>, V)> {
        inorder(self.root)
    }

    /// Iteration lists every entry of a tree once, in increasing key order.
    pub proof fn lemma_entries(&self)
        requires
            self.wf(),
        ensures
            sorted_by_key(self.entries()),
            lists_map(self.entries(), self@),
    {
        lemma_inorder(self.root);
    }

    /// Enumerates all the key-value pairs in the tree, calling `f` on each,
    /// in increasing key order.
    pub fn for_each<'a, F: FnMut(&'a Vec<u8>, &'a V)>(&'a self, f: F)
        requires
            self.wf(),
            forall|k: &Vec<u8>, v: &V| self@.dom().contains(k@) && self@[k@] == *v ==> #[trigger] call_requires(f, (k, v)),
    {
        let mut f = f;
        let mut it = self.iter();
        loop
            invariant
                it.wf(),
                forall|i: int| 0 <= i < it@.len() ==> self@.dom().contains(#[trigger] it@[i].0) && self@[it@[i].0] == it@[i].1,
                forall|k: &Vec<u8>, v: &V| self@.dom().contains(k@) && self@[k@] == *v ==> #[trigger] call_requires(f, (k, v)),
            decreases it@.len(),
        {
            let ghost before = it@;
            match it.next() {
                Some((k, v)) => {
                    proof {
                        assert(self@.dom().contains(before[0].0));
                        assert forall|i: int| 0 <= i < it@.len() implies self@.dom().contains(#[trigger] it@[i].0)
                            && self@[it@[i].0] == it@[i].1 by {
                            assert(it@[i] == before[i + 1]);
                        }
                    }
                    f(k, v);
                },
                None => {
                    break;
                },
            }
        }
    }

    /// An iterator over the entries, in key order.
    pub fn iter(&self) -> (r: RbTreeIterator<'_, V>)
        requires
            self.wf(),
        ensures
            r.wf(),
            r@ == self.entries(),
            sorted_by_key(r@),
            lists_map(r@, self@),
    {
        proof {
            self.lemma_entries();
        }
        RbTreeIterator::new(self)
    }
}

/// Update the value of `key` in the subtree with `f`; the shape of the tree
/// stays, and the hashes on the way are recomputed.
fn modify_node<V: AsHashTree, T, F: FnOnce(V) -> (V, T)>(h: Option<Box<Node<V>>>, key: &[u8], f: F) -> (r: (
    Option<Box<Node<V>>>,
    Option<T>,
))
    requires
        tree_wf(h),
        tree_map(h).dom().contains(key@) ==> f.requires((tree_map(h)[key@],)),
        tree_map(h).dom().contains(key@) ==> forall|out: (V, T)| #[trigger] f.ensures((tree_map(h)[key@],), out) ==> out.0.inv(),
    ensures
        tree_wf(r.0),
        r.1 is Some <==> tree_map(h).dom().contains(key@),
        r.1 is None ==> tree_map(r.0) == tree_map(h),
        r.1 matches Some(t) ==> tree_map(r.0) == tree_map(h).insert(key@, tree_map(r.0)[key@]) && f.ensures(
            (tree_map(h)[key@],),
            (tree_map(r.0)[key@], t),
        ),
        same_shape(h, r.0),
    decreases h,
{
    match h {
        None => (None, None),
        Some(n) => {
            let ghost old_n = n;
            proof {
                lemma_tree_parts(n);
            }
            match compare_bytes(key, n.key.as_slice()) {
                Cmp::Equal => {
                    let Node { key: k, value, left, right, color, subtree_hash } = *n;
                    let (new_value, t) = f(value);
                    let mut m = Box::new(Node { key: k, value: new_value, left, right, color, subtree_hash });
                    rehash(&mut m);
                    proof {
                        assert(tree_wf(Some(m)));
                        assert(tree_map(Some(m)) =~= tree_map(Some(old_n)).insert(key@, new_value));
                        lemma_same_shape_refl(old_n.left);
                        lemma_same_shape_refl(old_n.right);
                    }
                    (Some(m), Some(t))
                },
                Cmp::Less => {
                    let mut n = n;
                    let left = n.left.take();
                    let (new_left, t) = modify_node(left, key, f);
                    n.left = new_left;
                    rehash(&mut n);
                    proof {
                        lemma_same_shape_refl(old_n.right);
                        lemma_lex_asymmetric(key@, old_n.key@);
                        assert forall|k: Seq<u8>| #[trigger] tree_map(n.left).dom().contains(k) implies lex_lt(k, n.key@) by {
                            assert(tree_map(old_n.left).dom().contains(k));
                        }
                        assert(tree_wf(Some(n)));
                        if t is Some {
                            assert(tree_map(n.left).dom().contains(key@));
                            assert(tree_map(Some(n)) =~= tree_map(Some(old_n)).insert(key@, tree_map(Some(n))[key@]));
                        } else {
                            assert(tree_map(Some(n)) =~= tree_map(Some(old_n)));
                        }
                    }
                    (Some(n), t)
                },
                Cmp::Greater => {
                    let mut n = n;
                    let right = n.right.take();
                    let (new_right, t) = modify_node(right, key, f);
                    n.right = new_right;
                    rehash(&mut n);
                    proof {
                        lemma_same_shape_refl(old_n.left);
                        lemma_lex_asymmetric(old_n.key@, key@);
                        assert forall|k: Seq<u8>| #[trigger] tree_map(n.right).dom().contains(k) implies lex_lt(n.key@, k) by {
                            assert(tree_map(old_n.right).dom().contains(k));
                        }
                        assert(tree_wf(Some(n)));
                        if t is Some {
                            assert(tree_map(n.right).dom().contains(key@));
                            assert(tree_map(Some(n)) =~= tree_map(Some(old_n)).insert(key@, tree_map(Some(n))[key@]));
                        } else {
                            assert(tree_map(Some(n)) =~= tree_map(Some(old_n)));
                        }
                    }
                    (Some(n), t)
                },
            }
        },
    }
}

/// A label starts with `p` only if it does not come before `p`.
proof fn lemma_prefix_not_before(p: Seq<u8>, a: Seq<u8>)
    requires
        is_prefix_of(p, a),
    ensures
        lex_le(p, a),
    decreases p.len(),
{
    if p.len() == 0 {
        if a.len() == 0 {
            assert(a =~= p);
        }
    } else {
        assert(a[0] == a.subrange(0, p.len() as int)[0]);
        assert(a.drop_first().subrange(0, p.len() - 1) =~= a.subrange(0, p.len() as int).drop_first());
        lemma_prefix_not_before(p.drop_first(), a.drop_first());
        if p.drop_first() == a.drop_first() {
            assert(p =~= seq![p[0]] + p.drop_first());
            assert(a =~= seq![a[0]] + a.drop_first());
        }
    }
}

/// `k` is the greatest key of `m` that starts with `p`.
pub open spec fn is_max_with_prefix<V>(m: Map<Seq<u8>, V>, p: Seq<u8>, k: Seq<u8>) -> bool {
    &&& m.dom().contains(k)
    &&& is_prefix_of(p, k)
    &&& forall|k2: Seq<u8>| #[trigger] m.dom().contains(k2) && is_prefix_of(p, k2) ==> lex_le(k2, k)
}

/// Some key of `m` starts with `p`.
pub open spec fn has_prefixed_key<V>(m: Map<Seq<u8>, V>, p: Seq<u8>) -> bool {
    exists|k: Seq<u8>| #[trigger] m.dom().contains(k) && is_prefix_of(p, k)
}

/// The greatest key of `m` that starts with `p`, where there is one.
pub open spec fn max_key_with_prefix<V>(m: Map<Seq<u8>, V>, p: Seq<u8>) -> Seq<u8> {
    choose|k: Seq<u8>| is_max_with_prefix(m, p, k)
}

/// There is at most one greatest key with a prefix.
pub proof fn lemma_max_with_prefix_unique<V>(m: Map<Seq<u8>, V>, p: Seq<u8>, k: Seq<u8>)
    requires
        is_max_with_prefix(m, p, k),
    ensures
        max_key_with_prefix(m, p) == k,
{
    let c = max_key_with_prefix(m, p);
    assert(is_max_with_prefix(m, p, c));
    assert(lex_le(k, c) && lex_le(c, k));
    if k != c {
        lemma_lex_asymmetric(k, c);
    }
}

/// The greatest entry of the subtree whose key starts with `prefix`.
fn max_with_prefix_node<'a, V: AsHashTree>(t: &'a Option<Box<Node<V>>>, prefix: &[u8]) -> (r: Option<(&'a Vec<u8>, &'a V)>)
    requires
        tree_wf(*t),
    ensures
        r is Some <==> has_prefixed_key(tree_map(*t), prefix@),
        r matches Some(e) ==> is_max_with_prefix(tree_map(*t), prefix@, e.0@) && *e.1 == tree_map(*t)[e.0@],
    decreases *t,
{
    match t {
        None => None,
        Some(n) => {
            proof {
                lemma_tree_parts(*n);
            }
            let c = compare_bytes(n.key.as_slice(), prefix);
            let is_prefix = starts_with(n.key.as_slice(), prefix);
            let ghost m = tree_map(*t);
            if is_prefix {
                let r = max_with_prefix_node(&n.right, prefix);
                match r {
                    Some(e) => {
                        proof {
                            assert forall|k2: Seq<u8>| #[trigger] m.dom().contains(k2) && is_prefix_of(prefix@, k2) implies lex_le(k2, e.0@) by {
                                if tree_map(n.right).dom().contains(k2) {
                                } else if k2 == n.key@ {
                                    assert(tree_map(n.right).dom().contains(e.0@));
                                } else {
                                    assert(tree_map(n.right).dom().contains(e.0@));
                                    lemma_lex_transitive(k2, n.key@, e.0@);
                                }
                            }
                        }
                        Some(e)
                    },
                    None => {
                        proof {
                            assert forall|k2: Seq<u8>| #[trigger] m.dom().contains(k2) && is_prefix_of(prefix@, k2) implies lex_le(k2, n.key@) by {
                                if tree_map(n.right).dom().contains(k2) {
                                    assert(has_prefixed_key(tree_map(n.right), prefix@));
                                }
                            }
                        }
                        Some((&n.key, &n.value))
                    },
                }
            } else if matches!(c, Cmp::Greater) {
                let r = max_with_prefix_node(&n.left, prefix);
                proof {
                    assert forall|k2: Seq<u8>| m.dom().contains(k2) && is_prefix_of(prefix@, k2) implies #[trigger] tree_map(n.left).dom().contains(k2) by {
                        lemma_prefix_before(prefix@, k2, n.key@);
                        if tree_map(n.right).dom().contains(k2) {
                            lemma_lex_asymmetric(k2, n.key@);
                        }
                        if k2 == n.key@ {
                            lemma_lex_irreflexive(k2);
                        }
                    }
                    if r is None && has_prefixed_key(m, prefix@) {
                        let w = choose|k: Seq<u8>| #[trigger] m.dom().contains(k) && is_prefix_of(prefix@, k);
                        assert(tree_map(n.left).dom().contains(w));
                    }
                }
                r
            } else {
                let r = max_with_prefix_node(&n.right, prefix);
                proof {
                    lemma_lex_total(n.key@, prefix@);
                    assert forall|k2: Seq<u8>| m.dom().contains(k2) && is_prefix_of(prefix@, k2) implies #[trigger] tree_map(n.right).dom().contains(k2) by {
                        lemma_prefix_not_before(prefix@, k2);
                        if k2 == n.key@ {
                        } else if tree_map(n.left).dom().contains(k2) {
                            lemma_lex_le_lt(prefix@, k2, n.key@);
                            lemma_lex_asymmetric(prefix@, n.key@);
                        }
                    }
                    if r is None && has_prefixed_key(m, prefix@) {
                        let w = choose|k: Seq<u8>| #[trigger] m.dom().contains(k) && is_prefix_of(prefix@, k);
                        assert(tree_map(n.right).dom().contains(w));
                    }
                }
                r
            }
        },
    }
}

/// `f` compares `target` with the key it is given, in label order.
pub open spec fn compares_with<F: Fn(&[u8]) -> Cmp>(f: F, target: Seq<u8>) -> bool {
    forall|k: &[u8], c: Cmp| #[trigger] f.ensures((k,), c) ==> c == compare_spec(target, k@)
}

/// The value of the entry whose key `cmp` answers `Equal` for, found by
/// walking down the tree as `cmp` directs.
fn get_with_node<'a, V: AsHashTree, F: Fn(&[u8]) -> Cmp>(t: &'a Option<Box<Node<V>>>, cmp: &F) -> (r: Option<&'a V>)
    requires
        tree_wf(*t),
        forall|k: &[u8]| #[trigger] cmp.requires((k,)),
    ensures
        forall|target: Seq<u8>| #[trigger] compares_with(*cmp, target) ==> {
            &&& r is Some <==> tree_map(*t).dom().contains(target)
            &&& r matches Some(v) ==> *v == tree_map(*t)[target]
        },
    decreases *t,
{
    match t {
        None => None,
        Some(n) => {
            proof {
                lemma_tree_parts(*n);
            }
            let ks = n.key.as_slice();
            let c = cmp(ks);
            match c {
                Cmp::Equal => Some(&n.value),
                Cmp::Less => {
                    let r = get_with_node(&n.left, cmp);
                    proof {
                        assert forall|target: Seq<u8>| #[trigger] compares_with(*cmp, target) implies {
                            &&& r is Some <==> tree_map(*t).dom().contains(target)
                            &&& r matches Some(v) ==> *v == tree_map(*t)[target]
                        } by {
                            assert(cmp.ensures((ks,), c));
                            lemma_lex_asymmetric(target, n.key@);
                        }
                    }
                    r
                },
                Cmp::Greater => {
                    let r = get_with_node(&n.right, cmp);
                    proof {
                        assert forall|target: Seq<u8>| #[trigger] compares_with(*cmp, target) implies {
                            &&& r is Some <==> tree_map(*t).dom().contains(target)
                            &&& r matches Some(v) ==> *v == tree_map(*t)[target]
                        } by {
                            assert(cmp.ensures((ks,), c));
                            lemma_lex_total(target, n.key@);
                            lemma_lex_asymmetric(n.key@, target);
                        }
                    }
                    r
                },
            }
        },
    }
}

impl<V: AsHashTree> RbTree<V> {
    /// The value found by walking down the tree as `cmp` directs: `cmp`
    /// compares the key it is after with the key of a node. Where `cmp`
    /// compares some `target` with each key, this is `get(target)`.
    pub fn get_with<F: Fn(&[u8]) -> Cmp>(&self, cmp: F) -> (r: Option<&V>)
        requires
            self.wf(),
            forall|k: &[u8]| #[trigger] cmp.requires((k,)),
        ensures
            forall|target: Seq<u8>| #[trigger] compares_with(cmp, target) ==> {
                &&& r is Some <==> self@.dom().contains(target)
                &&& r matches Some(v) ==> *v == self@[target]
            },
    {
        get_with_node(&self.root, &cmp)
    }

    /// Updates the value of `key` with `f`, which takes the value and gives
    /// back the new one and a result; returns that result, or `None` where
    /// the key is not in the tree.
    pub fn modify<T, F: FnOnce(V) -> (V, T)>(&mut self, key: &[u8], f: F) -> (r: Option<T>)
        requires
            old(self).wf(),
            old(self)@.dom().contains(key@) ==> f.requires((old(self)@[key@],)),
            old(self)@.dom().contains(key@) ==> forall|out: (V, T)| #[trigger] f.ensures((old(self)@[key@],), out) ==> out.0.inv(),
        ensures
            final(self).wf(),
            r is Some <==> old(self)@.dom().contains(key@),
            r is None ==> final(self)@ == old(self)@,
            r matches Some(t) ==> final(self)@ == old(self)@.insert(key@, final(self)@[key@]) && f.ensures(
                (old(self)@[key@],),
                (final(self)@[key@], t),
            ),
            old(self).balanced() ==> final(self).balanced(),
    {
        proof {
            lemma_tree_map_finite(self.root);
        }
        let ghost bh = choose|bh: nat| llrb(self.root, bh);
        let root = self.root.take();
        let (new_root, r) = modify_node(root, key, f);
        self.root = new_root;
        proof {
            if old(self).balanced() {
                lemma_same_shape_llrb(old(self).root, self.root, bh);
                lemma_same_shape_color(old(self).root, self.root);
            }
            lemma_tree_map_finite(self.root);
            if r is Some {
                assert(self@.dom() =~= old(self)@.dom());
            }
        }
        r
    }

    /// The greatest entry whose key starts with `prefix`.
    pub fn max_entry_with_prefix(&self, prefix: &[u8]) -> (r: Option<(&Vec<u8>, &V)>)
        requires
            self.wf(),
        ensures
            r is Some <==> has_prefixed_key(self@, prefix@),
            r matches Some(e) ==> is_max_with_prefix(self@, prefix@, e.0@) && *e.1 == self@[e.0@],
    {
        max_with_prefix_node(&self.root, prefix)
    }

    /// Updates, with `f`, the greatest entry whose key starts with `prefix`;
    /// `f` takes its key and value and gives back the new value and a result.
    /// Returns that result, or `None` where no key starts with `prefix`.
    pub fn modify_max_with_prefix<T, F: FnOnce(&Vec<u8>, V) -> (V, T)>(&mut self, prefix: &[u8], f: F) -> (r: Option<T>)
        requires
            old(self).wf(),
            has_prefixed_key(old(self)@, prefix@) ==> forall|k: &Vec<u8>| #[trigger] f.requires(
                (k, old(self)@[max_key_with_prefix(old(self)@, prefix@)]),
            ),
            has_prefixed_key(old(self)@, prefix@) ==> forall|k: &Vec<u8>, out: (V, T)| #[trigger] f.ensures(
                (k, old(self)@[max_key_with_prefix(old(self)@, prefix@)]),
                out,
            ) ==> out.0.inv(),
        ensures
            final(self).wf(),
            r is Some <==> has_prefixed_key(old(self)@, prefix@),
            r is None ==> final(self)@ == old(self)@,
            r matches Some(t) ==> ({
                let k = max_key_with_prefix(old(self)@, prefix@);
                &&& final(self)@ == old(self)@.insert(k, final(self)@[k])
                &&& exists|kv: Vec<u8>| kv@ == k && f.ensures((&kv, old(self)@[k]), (final(self)@[k], t))
            }),
            old(self).balanced() ==> final(self).balanced(),
    {
        let key = match self.max_entry_with_prefix(prefix) {
            None => {
                return None;
            },
            Some(e) => copy_bytes(e.0.as_slice()),
        };
        proof {
            lemma_max_with_prefix_unique(self@, prefix@, key@);
        }
        let search = copy_bytes(key.as_slice());
        let ghost kv = key;
        let g = move |v: V| -> (out: (V, T))
            requires
                f.requires((&key, v)),
            ensures
                f.ensures((&key, v), out),
            { f(&key, v) };
        let r = self.modify(search.as_slice(), g);
        proof {
            if r is Some {
                assert(g.ensures((old(self)@[kv@],), (self@[kv@], r.unwrap())));
            }
        }
        r
    }
}

/// A view into a single entry of a tree, which is either vacant or
/// occupied; it is constructed by `RbTree::entry`.
pub enum Entry<'a, V> {
    Vacant(VacantEntry<'a, V>),
    Occupied(OccupiedEntry<'a, V>),
}

/// A vacant entry of a tree: its key is not in the tree.
pub struct VacantEntry<'a, V> {
    /// The tree the entry belongs to.
    pub map: &'a mut RbTree<V>,
    /// The key of the entry.
    pub key: Vec<u8>,
}

/// An occupied entry of a tree: its key is in the tree.
pub struct OccupiedEntry<'a, V> {
    /// The tree the entry belongs to.
    pub map: &'a mut RbTree<V>,
    /// The key of the entry.
    pub key: Vec<u8>,
}

impl<V: AsHashTree> RbTree<V> {
    /// The entry of `key`, for in-place manipulation.
    pub fn entry<'a>(&'a mut self, key: Vec<u8>) -> (r: Entry<'a, V>)
        requires
            old(self).wf(),
        ensures
            (match r {
                Entry::Vacant(e) => !old(self)@.dom().contains(key@) && *e.map == *old(self) && *final(e.map)
                    == *final(self) && e.key == key,
                Entry::Occupied(e) => old(self)@.dom().contains(key@) && *e.map == *old(self) && *final(e.map)
                    == *final(self) && e.key == key,
            }),
    {
        if self.get(key.as_slice()).is_some() {
            Entry::Occupied(OccupiedEntry { map: self, key })
        } else {
            Entry::Vacant(VacantEntry { map: self, key })
        }
    }
}

impl<'a, V: AsHashTree> VacantEntry<'a, V> {
    /// Sets the value of the entry, and returns a reference to it.
    pub fn insert(self, value: V) -> (r: &'a V)
        requires
            self.map.wf(),
            value.inv(),
            self.map@.len() < usize::MAX,
        ensures
            final(self.map).wf(),
            final(self.map)@ == old(self.map)@.insert(self.key@, value),
            *r == value,
            old(self.map).balanced() ==> final(self.map).balanced(),
    {
        let VacantEntry { map, key } = self;
        let search = copy_bytes(key.as_slice());
        map.insert(key, value);
        let m: &'a RbTree<V> = map;
        m.get(search.as_slice()).unwrap()
    }

    /// Take ownership of the key; the tree is left as it is.
    pub fn into_key(self) -> (r: Vec<u8>)
        ensures
            r == self.key,
            *final(self.map) == *old(self.map),
    {
        let VacantEntry { map, key } = self;
        key
    }

    /// The key that would be used when inserting a value through the entry.
    pub fn key(&self) -> (r: &Vec<u8>)
        ensures
            *r == self.key,
    {
        &self.key
    }
}

impl<'a, V: AsHashTree> OccupiedEntry<'a, V> {
    /// The value in the entry.
    pub fn get(&self) -> (r: &V)
        requires
            self.map.wf(),
            self.map@.dom().contains(self.key@),
        ensures
            *r == old(self.map)@[self.key@],
    {
        self.map.get(self.key.as_slice()).unwrap()
    }

    /// The key in the entry.
    pub fn key(&self) -> (r: &Vec<u8>)
        ensures
            *r == self.key,
    {
        &self.key
    }

    /// Takes the value of the entry out of the tree, and returns it.
    pub fn remove(self) -> (r: V)
        requires
            self.map.wf(),
            self.map@.dom().contains(self.key@),
        ensures
            final(self.map).wf(),
            final(self.map)@ == old(self.map)@.remove(self.key@),
            r == old(self.map)@[self.key@],
            old(self.map).balanced() ==> final(self.map).balanced(),
    {
        let OccupiedEntry { map, key } = self;
        map.delete(key.as_slice()).unwrap().1
    }

    /// Takes the key and the value of the entry out of the tree.
    pub fn remove_entry(self) -> (r: (Vec<u8>, V))
        requires
            self.map.wf(),
            self.map@.dom().contains(self.key@),
        ensures
            final(self.map).wf(),
            final(self.map)@ == old(self.map)@.remove(self.key@),
            r.0@ == self.key@,
            r.1 == old(self.map)@[self.key@],
            old(self.map).balanced() ==> final(self.map).balanced(),
    {
        let OccupiedEntry { map, key } = self;
        map.delete(key.as_slice()).unwrap()
    }

    /// The value in the entry, with the lifetime of the entry's borrow of the
    /// tree; the tree is left as it is.
    pub fn into_ref(self) -> (r: &'a V)
        requires
            self.map.wf(),
            self.map@.dom().contains(self.key@),
        ensures
            *r == old(self.map)@[self.key@],
            *final(self.map) == *old(self.map),
    {
        let OccupiedEntry { map, key } = self;
        let m: &'a RbTree<V> = map;
        m.get(key.as_slice()).unwrap()
    }
}

impl<'a, V: AsHashTree> Entry<'a, V> {
    /// Updates the value of an occupied entry with `f` before any insert;
    /// a vacant entry is left as it is.
    pub fn and_modify<F: FnOnce(V) -> V>(self, f: F) -> (r: Self)
        requires
            (match self {
                Entry::Vacant(e) => e.map.wf(),
                Entry::Occupied(e) => e.map.wf() && e.map@.dom().contains(e.key@) && f.requires((e.map@[e.key@],))
                    && forall|out: V| #[trigger] f.ensures((e.map@[e.key@],), out) ==> out.inv(),
            }),
        ensures
            (match (self, r) {
                (Entry::Vacant(e), Entry::Vacant(e2)) => *e2.map == *e.map && e2.key == e.key && *final(e2.map)
                    == *final(e.map),
                (Entry::Occupied(e), Entry::Occupied(e2)) => {
                    &&& e2.map.wf()
                    &&& e2.map@ == e.map@.insert(e.key@, e2.map@[e.key@])
                    &&& f.ensures((e.map@[e.key@],), e2.map@[e.key@])
                    &&& e2.key == e.key
                    &&& e.map.balanced() ==> e2.map.balanced()
                    &&& *final(e2.map) == *final(e.map)
                },
                _ => false,
            }),
    {
        match self {
            Entry::Occupied(e) => {
                let OccupiedEntry { map, key } = e;
                let g = move |v: V| -> (out: (V, ()))
                    requires
                        f.requires((v,)),
                    ensures
                        f.ensures((v,), out.0),
                    { (f(v), ()) };
                map.modify(key.as_slice(), g);
                Entry::Occupied(OccupiedEntry { map, key })
            },
            Entry::Vacant(e) => Entry::Vacant(e),
        }
    }

    /// Ensures a value is in the entry by inserting `default` if it is
    /// vacant; returns a reference to the value in the entry.
    pub fn or_insert(self, default: V) -> (r: &'a V)
        requires
            (match self {
                Entry::Vacant(e) => e.map.wf() && e.map@.len() < usize::MAX && default.inv(),
                Entry::Occupied(e) => e.map.wf() && e.map@.dom().contains(e.key@),
            }),
        ensures
            (match self {
                Entry::Vacant(e) => final(e.map).wf() && final(e.map)@ == e.map@.insert(e.key@, default) && *r == default
                    && (e.map.balanced() ==> final(e.map).balanced()),
                Entry::Occupied(e) => *final(e.map) == *e.map && *r == e.map@[e.key@],
            }),
    {
        match self {
            Entry::Occupied(e) => e.into_ref(),
            Entry::Vacant(e) => e.insert(default),
        }
    }

    /// Ensures a value is in the entry by inserting the result of `default`
    /// if it is vacant; returns a reference to the value in the entry.
    pub fn or_insert_with<F: FnOnce() -> V>(self, default: F) -> (r: &'a V)
        requires
            (match self {
                Entry::Vacant(e) => e.map.wf() && e.map@.len() < usize::MAX && default.requires(())
                    && forall|v: V| #[trigger] default.ensures((), v) ==> v.inv(),
                Entry::Occupied(e) => e.map.wf() && e.map@.dom().contains(e.key@),
            }),
        ensures
            (match self {
                Entry::Vacant(e) => final(e.map).wf() && final(e.map)@ == e.map@.insert(e.key@, *r) && default.ensures((), *r)
                    && (e.map.balanced() ==> final(e.map).balanced()),
                Entry::Occupied(e) => *final(e.map) == *e.map && *r == e.map@[e.key@],
            }),
    {
        match self {
            Entry::Occupied(e) => e.into_ref(),
            Entry::Vacant(e) => {
                let v = default();
                e.insert(v)
            },
        }
    }

    /// Ensures a value is in the entry by inserting, if it is vacant, the
    /// result of `default` on the entry's key; returns a reference to the
    /// value in the entry.
    pub fn or_insert_with_key<F: FnOnce(&Vec<u8>) -> V>(self, default: F) -> (r: &'a V)
        requires
            (match self {
                Entry::Vacant(e) => e.map.wf() && e.map@.len() < usize::MAX && default.requires((&e.key,))
                    && forall|v: V| #[trigger] default.ensures((&e.key,), v) ==> v.inv(),
                Entry::Occupied(e) => e.map.wf() && e.map@.dom().contains(e.key@),
            }),
        ensures
            (match self {
                Entry::Vacant(e) => final(e.map).wf() && final(e.map)@ == e.map@.insert(e.key@, *r) && default.ensures(
                    (&e.key,),
                    *r,
                ) && (e.map.balanced() ==> final(e.map).balanced()),
                Entry::Occupied(e) => *final(e.map) == *e.map && *r == e.map@[e.key@],
            }),
    {
        match self {
            Entry::Occupied(e) => e.into_ref(),
            Entry::Vacant(e) => {
                let v = default(&e.key);
                e.insert(v)
            },
        }
    }

    /// Ensures a value is in the entry by inserting the default value if it
    /// is vacant; returns a reference to the value in the entry.
    pub fn or_default(self) -> (r: &'a V)
        where
            V: Default,
        requires
            (match self {
                Entry::Vacant(e) => e.map.wf() && e.map@.len() < usize::MAX && forall|v: V| #[trigger] call_ensures(V::default, (), v) ==> v.inv(),
                Entry::Occupied(e) => e.map.wf() && e.map@.dom().contains(e.key@),
            }),
        ensures
            (match self {
                Entry::Vacant(e) => final(e.map).wf() && final(e.map)@ == e.map@.insert(e.key@, *r) && call_ensures(V::default, (), *r)
                    && (e.map.balanced() ==> final(e.map).balanced()),
                Entry::Occupied(e) => *final(e.map) == *e.map && *r == e.map@[e.key@],
            }),
    {
        match self {
            Entry::Occupied(e) => e.into_ref(),
            Entry::Vacant(e) => {
                let v = V::default();
                e.insert(v)
            },
        }
    }

    /// The key of the entry.
    pub fn key(&self) -> (r: &Vec<u8>)
        ensures
            *r == (match self {
                Entry::Vacant(e) => e.key,
                Entry::Occupied(e) => e.key,
            }),
    {
        match self {
            Entry::Occupied(e) => &e.key,
            Entry::Vacant(e) => &e.key,
        }
    }
}

} // verus!
