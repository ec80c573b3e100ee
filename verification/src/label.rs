//! Keys and values of the certified collections: keys are ordered by their
//! labels (byte strings, compared lexicographically), and values know their
//! own hash tree.

use vstd::prelude::*;
use crate::hashtree::{
    HashTree, reconstruct_spec, leaf_hash_spec, leaf_hash, copy_bytes, TreeView, tree_view,
};

verus! {

/// The result of comparing two labels.
#[derive(Debug, Clone, Copy, PartialEq, Eq)]
pub enum Cmp {
    Less,
    Equal,
    Greater,
}

/// `a` comes before `b` in lexicographic byte order (a proper prefix comes
/// first).
pub open spec fn lex_lt(a: Seq<u8>, b: Seq<u8>) -> bool
    decreases a.len(),
{
    if a.len() == 0 {
        b.len() > 0
    } else if b.len() == 0 {
        false
    } else if a[0] < b[0] {
        true
    } else if a[0] > b[0] {
        false
    } else {
        lex_lt(a.drop_first(), b.drop_first())
    }
}

/// How `a` compares with `b` in label order.
pub open spec fn compare_spec(a: Seq<u8>, b: Seq<u8>) -> Cmp {
    if lex_lt(a, b) {
        Cmp::Less
    } else if a == b {
        Cmp::Equal
    } else {
        Cmp::Greater
    }
}

/// `a` comes before `b`, or equals it.
pub open spec fn lex_le(a: Seq<u8>, b: Seq<u8>) -> bool {
    lex_lt(a, b) || a == b
}

/// `p` is a prefix of `s`.
pub open spec fn is_prefix_of(p: Seq<u8>, s: Seq<u8>) -> bool {
    p.len() <= s.len() && s.subrange(0, p.len() as int) == p
}

/// No label comes before itself.
pub proof fn lemma_lex_irreflexive(a: Seq<u8>)
    ensures
        !lex_lt(a, a),
    decreases a.len(),
{
    if a.len() > 0 {
        lemma_lex_irreflexive(a.drop_first());
    }
}

/// The order is asymmetric.
pub proof fn lemma_lex_asymmetric(a: Seq<u8>, b: Seq<u8>)
    ensures
        lex_lt(a, b) ==> !lex_lt(b, a),
    decreases a.len(),
{
    if a.len() > 0 && b.len() > 0 && a[0] == b[0] {
        lemma_lex_asymmetric(a.drop_first(), b.drop_first());
    }
}

/// `le` and `lt` chain.
pub proof fn lemma_lex_le_lt(a: Seq<u8>, b: Seq<u8>, c: Seq<u8>)
    ensures
        lex_le(a, b) && lex_lt(b, c) ==> lex_lt(a, c),
        lex_lt(a, b) && lex_le(b, c) ==> lex_lt(a, c),
        lex_le(a, b) && lex_le(b, c) ==> lex_le(a, c),
{
    if lex_lt(a, b) && lex_lt(b, c) {
        lemma_lex_transitive(a, b, c);
    }
}

/// The order is transitive.
pub proof fn lemma_lex_transitive(a: Seq<u8>, b: Seq<u8>, c: Seq<u8>)
    requires
        lex_lt(a, b),
        lex_lt(b, c),
    ensures
        lex_lt(a, c),
    decreases a.len(),
{
    if a.len() > 0 && b.len() > 0 && c.len() > 0 && a[0] == b[0] && b[0] == c[0] {
        lemma_lex_transitive(a.drop_first(), b.drop_first(), c.drop_first());
    }
}

/// The order is total.
pub proof fn lemma_lex_total(a: Seq<u8>, b: Seq<u8>)
    ensures
        a == b || lex_lt(a, b) || lex_lt(b, a),
    decreases a.len(),
{
    if a.len() > 0 && b.len() > 0 && a[0] == b[0] {
        lemma_lex_total(a.drop_first(), b.drop_first());
        if a.drop_first() == b.drop_first() {
            assert(a =~= seq![a[0]] + a.drop_first());
            assert(b =~= seq![b[0]] + b.drop_first());
        }
    } else if a.len() == 0 && b.len() == 0 {
        assert(a =~= b);
    }
}

/// A label that starts with `p` comes before every label above `p` that does
/// not start with `p`.
pub proof fn lemma_prefix_before(p: Seq<u8>, a: Seq<u8>, b: Seq<u8>)
    requires
        is_prefix_of(p, a),
        lex_lt(p, b),
        !is_prefix_of(p, b),
    ensures
        lex_lt(a, b),
    decreases p.len(),
{
    if p.len() == 0 {
        assert(b.subrange(0, 0) =~= p);
    } else {
        assert(a[0] == a.subrange(0, p.len() as int)[0]);
        if p[0] == b[0] {
            let p1 = p.drop_first();
            let a1 = a.drop_first();
            let b1 = b.drop_first();
            assert(a1.subrange(0, p1.len() as int) =~= a.subrange(0, p.len() as int).drop_first());
            assert(is_prefix_of(p1, a1));
            if is_prefix_of(p1, b1) {
                assert(b.subrange(0, p.len() as int) =~= seq![b[0]] + b1.subrange(0, p1.len() as int));
                assert(p =~= seq![p[0]] + p1);
            }
            lemma_prefix_before(p1, a1, b1);
        }
    }
}

/// Comparing after a common prefix is comparing the whole.
proof fn lemma_lex_skip(a: Seq<u8>, b: Seq<u8>, i: int)
    requires
        0 <= i <= a.len(),
        i <= b.len(),
        a.subrange(0, i) == b.subrange(0, i),
    ensures
        lex_lt(a, b) == lex_lt(a.subrange(i, a.len() as int), b.subrange(i, b.len() as int)),
    decreases i,
{
    if i > 0 {
        assert(a[0] == a.subrange(0, i)[0]);
        assert(b[0] == b.subrange(0, i)[0]);
        assert(a.drop_first().subrange(0, i - 1) =~= a.subrange(1, i));
        assert(b.drop_first().subrange(0, i - 1) =~= b.subrange(1, i));
        assert(a.subrange(1, i) =~= a.subrange(0, i).drop_first());
        assert(b.subrange(1, i) =~= b.subrange(0, i).drop_first());
        lemma_lex_skip(a.drop_first(), b.drop_first(), i - 1);
        assert(a.drop_first().subrange(i - 1, a.len() - 1) =~= a.subrange(i, a.len() as int));
        assert(b.drop_first().subrange(i - 1, b.len() - 1) =~= b.subrange(i, b.len() as int));
    } else {
        assert(a.subrange(0, a.len() as int) =~= a);
        assert(b.subrange(0, b.len() as int) =~= b);
    }
}

/// Under a common label, the big-endian bytes of numbers come in the
/// numbers' order.
pub proof fn lemma_u32_be_order(l: Seq<u8>, p: u32, q: u32)
    requires
        p < q,
    ensures
        lex_lt(l + u32_be(p), l + u32_be(q)),
{
    let a = l + u32_be(p);
    let b = l + u32_be(q);
    assert(a.subrange(0, l.len() as int) =~= l);
    assert(b.subrange(0, l.len() as int) =~= l);
    lemma_lex_skip(a, b, l.len() as int);
    assert(a.subrange(l.len() as int, a.len() as int) =~= u32_be(p));
    assert(b.subrange(l.len() as int, b.len() as int) =~= u32_be(q));
    let ap = u32_be(p);
    let bq = u32_be(q);
    let p0 = (p >> 24u32) as u8;
    let p1 = ((p >> 16u32) & 0xff) as u8;
    let p2 = ((p >> 8u32) & 0xff) as u8;
    let p3 = (p & 0xff) as u8;
    let q0 = (q >> 24u32) as u8;
    let q1 = ((q >> 16u32) & 0xff) as u8;
    let q2 = ((q >> 8u32) & 0xff) as u8;
    let q3 = (q & 0xff) as u8;
    assert(p0 < q0 || (p0 == q0 && p1 < q1) || (p0 == q0 && p1 == q1 && p2 < q2) || (p0 == q0 && p1 == q1 && p2
        == q2 && p3 < q3)) by (bit_vector)
        requires
            p < q,
            p0 == (p >> 24u32) as u8,
            p1 == ((p >> 16u32) & 0xff) as u8,
            p2 == ((p >> 8u32) & 0xff) as u8,
            p3 == (p & 0xff) as u8,
            q0 == (q >> 24u32) as u8,
            q1 == ((q >> 16u32) & 0xff) as u8,
            q2 == ((q >> 8u32) & 0xff) as u8,
            q3 == (q & 0xff) as u8,
    ;
    assert(ap.drop_first() =~= seq![ap[1], ap[2], ap[3]]);
    assert(bq.drop_first() =~= seq![bq[1], bq[2], bq[3]]);
    assert(ap.drop_first().drop_first() =~= seq![ap[2], ap[3]]);
    assert(bq.drop_first().drop_first() =~= seq![bq[2], bq[3]]);
    assert(ap.drop_first().drop_first().drop_first() =~= seq![ap[3]]);
    assert(bq.drop_first().drop_first().drop_first() =~= seq![bq[3]]);
    assert(ap.drop_first().drop_first().drop_first().drop_first().len() == 0);
    reveal_with_fuel(lex_lt, 5);
}

/// Labels of one length keep their order whatever follows each of them.
proof fn lemma_lex_extend(a: Seq<u8>, b: Seq<u8>, x: Seq<u8>, y: Seq<u8>)
    requires
        a.len() == b.len(),
        lex_lt(a, b),
    ensures
        lex_lt(a + x, b + y),
    decreases a.len(),
{
    assert((a + x)[0] == a[0]);
    assert((b + y)[0] == b[0]);
    if a[0] == b[0] {
        assert((a + x).drop_first() =~= a.drop_first() + x);
        assert((b + y).drop_first() =~= b.drop_first() + y);
        lemma_lex_extend(a.drop_first(), b.drop_first(), x, y);
    }
}

/// The big-endian bytes of a `u64` are those of its high half, then those
/// of its low half.
proof fn lemma_u64_be_halves(x: u64)
    ensures
        u64_be(x) =~= u32_be((x >> 32u64) as u32) + u32_be(x as u32),
{
    let hi: u32 = (x >> 32u64) as u32;
    let lo: u32 = x as u32;
    assert((x >> 56u64) as u8 == (hi >> 24u32) as u8 && ((x >> 48u64) & 0xff) as u8 == ((hi >> 16u32) & 0xff) as u8
        && ((x >> 40u64) & 0xff) as u8 == ((hi >> 8u32) & 0xff) as u8 && ((x >> 32u64) & 0xff) as u8 == (hi & 0xff) as u8)
        by (bit_vector)
        requires
            hi == (x >> 32u64) as u32,
    ;
    assert(((x >> 24u64) & 0xff) as u8 == (lo >> 24u32) as u8 && ((x >> 16u64) & 0xff) as u8 == ((lo >> 16u32) & 0xff) as u8
        && ((x >> 8u64) & 0xff) as u8 == ((lo >> 8u32) & 0xff) as u8 && (x & 0xff) as u8 == (lo & 0xff) as u8)
        by (bit_vector)
        requires
            lo == x as u32,
    ;
}

/// The label of a `u64` is eight bytes long, and labels of `u64` numbers
/// come in the numbers' order: a smaller number has a smaller label.
pub proof fn lemma_u64_label_order(p: u64, q: u64)
    requires
        p < q,
    ensures
        p.label_spec().len() == 8,
        lex_lt(p.label_spec(), q.label_spec()),
{
    let hp: u32 = (p >> 32u64) as u32;
    let lp: u32 = p as u32;
    let hq: u32 = (q >> 32u64) as u32;
    let lq: u32 = q as u32;
    lemma_u64_be_halves(p);
    lemma_u64_be_halves(q);
    assert(hp < hq || (hp == hq && lp < lq)) by (bit_vector)
        requires
            p < q,
            hp == (p >> 32u64) as u32,
            lp == p as u32,
            hq == (q >> 32u64) as u32,
            lq == q as u32,
    ;
    if hp < hq {
        lemma_u32_be_order(Seq::empty(), hp, hq);
        assert(Seq::<u8>::empty() + u32_be(hp) =~= u32_be(hp));
        assert(Seq::<u8>::empty() + u32_be(hq) =~= u32_be(hq));
        lemma_lex_extend(u32_be(hp), u32_be(hq), u32_be(lp), u32_be(lq));
    } else {
        lemma_u32_be_order(u32_be(hp), lp, lq);
    }
}

/// Labels of `u32` numbers come in the numbers' order.
pub proof fn lemma_u32_label_order(p: u32, q: u32)
    requires
        p < q,
    ensures
        p.label_spec().len() == 4,
        lex_lt(p.label_spec(), q.label_spec()),
{
    lemma_u32_be_order(Seq::empty(), p, q);
    assert(Seq::<u8>::empty() + u32_be(p) =~= u32_be(p));
    assert(Seq::<u8>::empty() + u32_be(q) =~= u32_be(q));
}

/// Compare two labels in lexicographic byte order.
pub fn compare_bytes(a: &[u8], b: &[u8]) -> (r: Cmp)
    ensures
        r == Cmp::Less <==> lex_lt(a@, b@),
        r == Cmp::Equal <==> a@ == b@,
        r == Cmp::Greater <==> lex_lt(b@, a@),
{
    let mut i: usize = 0;
    while i < a.len() && i < b.len()
        invariant
            i <= a@.len(),
            i <= b@.len(),
            a@.subrange(0, i as int) == b@.subrange(0, i as int),
        decreases a@.len() - i,
    {
        if a[i] < b[i] {
            proof {
                lemma_lex_skip(a@, b@, i as int);
                lemma_lex_asymmetric(a@, b@);
            }
            return Cmp::Less;
        }
        if a[i] > b[i] {
            proof {
                lemma_lex_skip(b@, a@, i as int);
                lemma_lex_asymmetric(b@, a@);
            }
            return Cmp::Greater;
        }
        proof {
            assert(a@.subrange(0, i + 1) =~= a@.subrange(0, i as int).push(a@[i as int]));
            assert(b@.subrange(0, i + 1) =~= b@.subrange(0, i as int).push(b@[i as int]));
        }
        i = i + 1;
    }
    proof {
        lemma_lex_skip(a@, b@, i as int);
        lemma_lex_skip(b@, a@, i as int);
        lemma_lex_irreflexive(a@);
    }
    if a.len() == b.len() {
        proof {
            assert(a@ =~= a@.subrange(0, i as int));
            assert(b@ =~= b@.subrange(0, i as int));
        }
        Cmp::Equal
    } else if a.len() < b.len() {
        proof {
            lemma_lex_asymmetric(a@, b@);
        }
        Cmp::Less
    } else {
        proof {
            lemma_lex_asymmetric(b@, a@);
        }
        Cmp::Greater
    }
}

/// Whether `p` is a prefix of `s`.
pub fn starts_with(s: &[u8], p: &[u8]) -> (r: bool)
    ensures
        r == is_prefix_of(p@, s@),
{
    if p.len() > s.len() {
        return false;
    }
    let mut i: usize = 0;
    while i < p.len()
        invariant
            i <= p@.len(),
            p@.len() <= s@.len(),
            s@.subrange(0, i as int) == p@.subrange(0, i as int),
        decreases p@.len() - i,
    {
        if s[i] != p[i] {
            proof {
                assert(s@.subrange(0, p@.len() as int)[i as int] != p@[i as int]);
            }
            return false;
        }
        proof {
            assert(s@.subrange(0, i + 1) =~= s@.subrange(0, i as int).push(s@[i as int]));
            assert(p@.subrange(0, i + 1) =~= p@.subrange(0, i as int).push(p@[i as int]));
        }
        i = i + 1;
    }
    proof {
        assert(p@.subrange(0, p@.len() as int) =~= p@);
    }
    true
}

/// Any value that can be used as a key of the certified collections: its
/// label is the byte string it is ordered and certified by.
pub trait Label {
    /// The label of the value.
    spec fn label_spec(&self) -> Seq<u8>;

    /// The label of the value, as bytes.
    fn as_label(&self) -> (r: Vec<u8>)
        ensures
            r@ == self.label_spec(),
    ;
}

/// A key whose label can be tested for a prefix, as the certified
/// collections do to enumerate the keys that start with it.
pub trait Prefix: Label {
    /// Whether `prefix` is a prefix of the label of this key.
    fn is_prefix(&self, prefix: &[u8]) -> (r: bool)
        ensures
            r == is_prefix_of(prefix@, self.label_spec()),
    ;
}

/// The big-endian bytes of a `u32`.
pub open spec fn u32_be(x: u32) -> Seq<u8> {
    seq![(x >> 24u32) as u8, ((x >> 16u32) & 0xff) as u8, ((x >> 8u32) & 0xff) as u8, (x & 0xff) as u8]
}

/// The big-endian bytes of a `u64`.
pub open spec fn u64_be(x: u64) -> Seq<u8> {
    seq![
        (x >> 56u64) as u8, ((x >> 48u64) & 0xff) as u8, ((x >> 40u64) & 0xff) as u8, ((x >> 32u64) & 0xff) as u8,
        ((x >> 24u64) & 0xff) as u8, ((x >> 16u64) & 0xff) as u8, ((x >> 8u64) & 0xff) as u8, (x & 0xff) as u8,
    ]
}

/// The big-endian bytes of a `u32`.
pub fn u32_to_be(x: u32) -> (r: Vec<u8>)
    ensures
        r@ == u32_be(x),
{
    let v: Vec<u8> = vec![(x >> 24) as u8, ((x >> 16) & 0xff) as u8, ((x >> 8) & 0xff) as u8, (x & 0xff) as u8];
    proof {
        assert(v@ =~= u32_be(x));
    }
    v
}

/// The big-endian bytes of a `u64`.
pub fn u64_to_be(x: u64) -> (r: Vec<u8>)
    ensures
        r@ == u64_be(x),
{
    let v: Vec<u8> = vec![
        (x >> 56) as u8, ((x >> 48) & 0xff) as u8, ((x >> 40) & 0xff) as u8, ((x >> 32) & 0xff) as u8,
        ((x >> 24) & 0xff) as u8, ((x >> 16) & 0xff) as u8, ((x >> 8) & 0xff) as u8, (x & 0xff) as u8,
    ];
    proof {
        assert(v@ =~= u64_be(x));
    }
    v
}

impl Label for Vec<u8> {
    open spec fn label_spec(&self) -> Seq<u8> {
        self@
    }

    fn as_label(&self) -> (r: Vec<u8>) {
        copy_bytes(self.as_slice())
    }
}

impl Label for String {
    open spec fn label_spec(&self) -> Seq<u8> {
        vstd::utf8::encode_utf8(self@)
    }

    fn as_label(&self) -> (r: Vec<u8>) {
        copy_bytes(self.as_str().as_bytes())
    }
}

impl Prefix for Vec<u8> {
    fn is_prefix(&self, prefix: &[u8]) -> (r: bool) {
        starts_with(self.as_slice(), prefix)
    }
}

impl Prefix for String {
    fn is_prefix(&self, prefix: &[u8]) -> (r: bool) {
        starts_with(self.as_str().as_bytes(), prefix)
    }
}

impl Label for bool {
    open spec fn label_spec(&self) -> Seq<u8> {
        if *self { seq![1u8] } else { seq![0u8] }
    }

    fn as_label(&self) -> (r: Vec<u8>) {
        let v: Vec<u8> = if *self { vec![1u8] } else { vec![0u8] };
        proof {
            assert(v@ =~= self.label_spec());
        }
        v
    }
}

impl Label for u32 {
    open spec fn label_spec(&self) -> Seq<u8> {
        u32_be(*self)
    }

    fn as_label(&self) -> (r: Vec<u8>) {
        u32_to_be(*self)
    }
}

impl Label for u64 {
    open spec fn label_spec(&self) -> Seq<u8> {
        u64_be(*self)
    }

    fn as_label(&self) -> (r: Vec<u8>) {
        u64_to_be(*self)
    }
}

impl Label for i32 {
    open spec fn label_spec(&self) -> Seq<u8> {
        u32_be(*self as u32)
    }

    fn as_label(&self) -> (r: Vec<u8>) {
        u32_to_be(*self as u32)
    }
}

/// Defines any type that can be converted to a [`HashTree`].
///
/// For number types the big-endian bytes of the number are the leaf.
pub trait AsHashTree {
    /// The value is well formed, so that its hash tree is consistent.
    spec fn inv(&self) -> bool;

    /// The root hash of the value's hash tree.
    spec fn root_hash_spec(&self) -> Seq<u8>;

    /// The value's hash tree.
    spec fn tree_spec(&self) -> TreeView;

    /// This method should return the root hash of this hash tree; it is the
    /// root hash of `as_hash_tree()`.
    fn root_hash(&self) -> (r: crate::hashtree::Hash)
        requires
            self.inv(),
        ensures
            r@ == self.root_hash_spec(),
    ;

    /// Constructs a hash tree corresponding to the data.
    fn as_hash_tree(&self) -> (r: HashTree)
        requires
            self.inv(),
        ensures
            reconstruct_spec(r) == self.root_hash_spec(),
            tree_view(r) == self.tree_spec(),
    ;
}

impl AsHashTree for Vec<u8> {
    open spec fn inv(&self) -> bool {
        true
    }

    /// A leaf of its bytes.
    open spec fn tree_spec(&self) -> TreeView {
        TreeView::Leaf(self@)
    }

    open spec fn root_hash_spec(&self) -> Seq<u8> {
        leaf_hash_spec(self@)
    }

    fn root_hash(&self) -> (r: crate::hashtree::Hash) {
        leaf_hash(self.as_slice())
    }

    fn as_hash_tree(&self) -> (r: HashTree) {
        HashTree::Leaf(copy_bytes(self.as_slice()))
    }
}

impl AsHashTree for String {
    open spec fn inv(&self) -> bool {
        true
    }

    /// A leaf of its bytes.
    open spec fn tree_spec(&self) -> TreeView {
        TreeView::Leaf(vstd::utf8::encode_utf8(self@))
    }

    open spec fn root_hash_spec(&self) -> Seq<u8> {
        leaf_hash_spec(vstd::utf8::encode_utf8(self@))
    }

    fn root_hash(&self) -> (r: crate::hashtree::Hash) {
        leaf_hash(self.as_str().as_bytes())
    }

    fn as_hash_tree(&self) -> (r: HashTree) {
        HashTree::Leaf(copy_bytes(self.as_str().as_bytes()))
    }
}

impl AsHashTree for bool {
    open spec fn inv(&self) -> bool {
        true
    }

    /// A leaf of its bytes.
    open spec fn tree_spec(&self) -> TreeView {
        TreeView::Leaf(self.label_spec())
    }

    open spec fn root_hash_spec(&self) -> Seq<u8> {
        leaf_hash_spec(self.label_spec())
    }

    fn root_hash(&self) -> (r: crate::hashtree::Hash) {
        let v = self.as_label();
        leaf_hash(v.as_slice())
    }

    fn as_hash_tree(&self) -> (r: HashTree) {
        HashTree::Leaf(self.as_label())
    }
}

impl AsHashTree for u32 {
    open spec fn inv(&self) -> bool {
        true
    }

    /// A leaf of its bytes.
    open spec fn tree_spec(&self) -> TreeView {
        TreeView::Leaf(u32_be(*self))
    }

    open spec fn root_hash_spec(&self) -> Seq<u8> {
        leaf_hash_spec(u32_be(*self))
    }

    fn root_hash(&self) -> (r: crate::hashtree::Hash) {
        let v = u32_to_be(*self);
        leaf_hash(v.as_slice())
    }

    fn as_hash_tree(&self) -> (r: HashTree) {
        HashTree::Leaf(u32_to_be(*self))
    }
}

impl AsHashTree for i32 {
    open spec fn inv(&self) -> bool {
        true
    }

    /// A leaf of its bytes.
    open spec fn tree_spec(&self) -> TreeView {
        TreeView::Leaf(u32_be(*self as u32))
    }

    open spec fn root_hash_spec(&self) -> Seq<u8> {
        leaf_hash_spec(u32_be(*self as u32))
    }

    fn root_hash(&self) -> (r: crate::hashtree::Hash) {
        let v = u32_to_be(*self as u32);
        leaf_hash(v.as_slice())
    }

    fn as_hash_tree(&self) -> (r: HashTree) {
        HashTree::Leaf(u32_to_be(*self as u32))
    }
}

impl AsHashTree for u64 {
    open spec fn inv(&self) -> bool {
        true
    }

    /// A leaf of its bytes.
    open spec fn tree_spec(&self) -> TreeView {
        TreeView::Leaf(u64_be(*self))
    }

    open spec fn root_hash_spec(&self) -> Seq<u8> {
        leaf_hash_spec(u64_be(*self))
    }

    fn root_hash(&self) -> (r: crate::hashtree::Hash) {
        let v = u64_to_be(*self);
        leaf_hash(v.as_slice())
    }

    fn as_hash_tree(&self) -> (r: HashTree) {
        HashTree::Leaf(u64_to_be(*self))
    }
}

impl AsHashTree for u8 {
    open spec fn inv(&self) -> bool {
        true
    }

    /// A leaf of its bytes.
    open spec fn tree_spec(&self) -> TreeView {
        TreeView::Leaf(seq![*self])
    }

    open spec fn root_hash_spec(&self) -> Seq<u8> {
        leaf_hash_spec(seq![*self])
    }

    fn root_hash(&self) -> (r: crate::hashtree::Hash) {
        let v: Vec<u8> = vec![*self];
        proof {
            assert(v@ =~= seq![*self]);
        }
        leaf_hash(v.as_slice())
    }

    fn as_hash_tree(&self) -> (r: HashTree) {
        let v: Vec<u8> = vec![*self];
        proof {
            assert(v@ =~= seq![*self]);
        }
        HashTree::Leaf(v)
    }
}

impl Label for u8 {
    open spec fn label_spec(&self) -> Seq<u8> {
        seq![*self]
    }

    fn as_label(&self) -> (r: Vec<u8>) {
        let v: Vec<u8> = vec![*self];
        proof {
            assert(v@ =~= seq![*self]);
        }
        v
    }
}

impl AsHashTree for usize {
    open spec fn inv(&self) -> bool {
        true
    }

    /// A leaf of its bytes.
    open spec fn tree_spec(&self) -> TreeView {
        TreeView::Leaf(u64_be(*self as u64))
    }

    /// The leaf of a `usize` is its 8 big-endian bytes, as on a 64-bit
    /// target.
    open spec fn root_hash_spec(&self) -> Seq<u8> {
        leaf_hash_spec(u64_be(*self as u64))
    }

    fn root_hash(&self) -> (r: crate::hashtree::Hash) {
        let v = u64_to_be(*self as u64);
        leaf_hash(v.as_slice())
    }

    fn as_hash_tree(&self) -> (r: HashTree) {
        HashTree::Leaf(u64_to_be(*self as u64))
    }
}

} // verus!
