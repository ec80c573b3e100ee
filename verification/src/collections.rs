//! The certified collections: an append-only sequence with a running hash,
//! a map from labels to values, and a map of paged sequences.

use vstd::prelude::*;
use std::marker::PhantomData;
use crate::hashtree::{HashTree, sha256, sha256_spec, push_bytes, reconstruct_spec, copy_bytes, empty_hash_spec};
use crate::label::{AsHashTree, Label, u32_be, u32_to_be};
use crate::rbtree::{
    Entry, RbTree, RbTreeIterator, has_prefixed_key, max_key_with_prefix, sorted_by_key, lists_map, is_max_with_prefix,
    lemma_max_with_prefix_unique, keys_of, keys_around, keys_around_prefix, parts_reveal_range,
};
use crate::hashtree::{labels_spec, leaf_values_spec, labeled_parts, TreeView, tree_view};
use crate::label::{lex_le, is_prefix_of, lemma_u32_be_order};

verus! {

/// 32 zero bytes: the hash of an empty sequence.
pub open spec fn zero_hash() -> Seq<u8> {
    Seq::new(32, |i: int| 0u8)
}

/// The hash of a sequence whose items have the given root hashes: it starts
/// as 32 zero bytes, and each item's root hash is chained in with SHA-256.
pub open spec fn chain_hash(hs: Seq<Seq<u8>>) -> Seq<u8>
    decreases hs.len(),
{
    if hs.len() == 0 {
        zero_hash()
    } else {
        sha256_spec(chain_hash(hs.drop_last()) + hs.last())
    }
}

/// The root hashes of a sequence of items.
pub open spec fn item_hashes<T: AsHashTree>(s: Seq<T>) -> Seq<Seq<u8>> {
    s.map_values(|t: T| t.root_hash_spec())
}

/// The hash of a sequence of items.
pub open spec fn seq_hash<T: AsHashTree>(s: Seq<T>) -> Seq<u8> {
    chain_hash(item_hashes(s))
}

/// The hash of a sequence with one more item.
proof fn lemma_seq_hash_push<T: AsHashTree>(s: Seq<T>, item: T)
    ensures
        seq_hash(s.push(item)) == sha256_spec(seq_hash(s) + item.root_hash_spec()),
{
    assert(item_hashes(s.push(item)).drop_last() =~= item_hashes(s));
}

/// An append-only list of `T`, with a hash that chains the root hashes of
/// its items in order.
#[derive(Eq, PartialEq, Clone, Debug)]
pub struct CertifiedSeq<T> {
    hash: crate::hashtree::Hash,
    items: Vec<T>,
}

impl<T> View for CertifiedSeq<T> {
    type V = Seq<T>;

    closed spec fn view(&self) -> Seq<T> {
        self.items@
    }
}

/// 32 zero bytes.
fn zero_hash_bytes() -> (r: crate::hashtree::Hash)
    ensures
        r@ == zero_hash(),
{
    let r = [0u8; 32];
    proof {
        assert(r@ =~= zero_hash());
    }
    r
}

/// Calls `Vec::shrink_to_fit`, which only lowers the capacity: the items
/// stay as they are.
#[verifier::external_body]
fn vec_shrink_to_fit<T>(v: &mut Vec<T>)
    ensures
        final(v)@ == old(v)@,
{
    v.shrink_to_fit()
}

/// Calls `Vec::reserve_exact`, which only raises the capacity: the items
/// stay as they are. (Like `reserve`, it aborts where the allocation fails.)
#[verifier::external_body]
fn vec_reserve_exact<T>(v: &mut Vec<T>, additional: usize)
    ensures
        final(v)@ == old(v)@,
{
    v.reserve_exact(additional)
}

/// Calls `Vec::capacity`: the number of items the vector holds without
/// reallocating, never below its length. Which number it is depends on the
/// allocator, so nothing more is said of it.
#[verifier::external_body]
fn vec_capacity<T>(v: &Vec<T>) -> (r: usize)
    ensures
        r >= v@.len(),
{
    v.capacity()
}

impl<T> CertifiedSeq<T> {
    /// The hash of the sequence, as bytes.
    pub closed spec fn hash_view(&self) -> Seq<u8> {
        self.hash@
    }

}

impl<T: AsHashTree> CertifiedSeq<T> {
    /// The hash chains the root hashes of the items, which are well formed.
    pub closed spec fn wf(&self) -> bool {
        &&& self.hash@ == seq_hash(self.items@)
        &&& forall|i: int| 0 <= i < self.items@.len() ==> (#[trigger] self.items@[i]).inv()
    }

    /// Create a new, empty sequence.
    pub fn new() -> (r: Self)
        ensures
            r.wf(),
            r@ == Seq::<T>::empty(),
            r.hash_view() == zero_hash(),
    {
        let r = CertifiedSeq { items: Vec::new(), hash: zero_hash_bytes() };
        proof {
            assert(item_hashes(r.items@) =~= Seq::<Seq<u8>>::empty());
        }
        r
    }

    /// Construct a new, empty sequence with the specified capacity.
    pub fn with_capacity(capacity: usize) -> (r: Self)
        ensures
            r.wf(),
            r@ == Seq::<T>::empty(),
            r.hash_view() == zero_hash(),
    {
        let r = CertifiedSeq { items: Vec::with_capacity(capacity), hash: zero_hash_bytes() };
        proof {
            assert(item_hashes(r.items@) =~= Seq::<Seq<u8>>::empty());
        }
        r
    }

    /// Append a new item to the sequence and update the hash.
    pub fn append(&mut self, item: T)
        requires
            old(self).wf(),
            item.inv(),
        ensures
            final(self).wf(),
            final(self)@ == old(self)@.push(item),
    {
        let ih = item.root_hash();
        let mut buf: Vec<u8> = Vec::new();
        push_bytes(&mut buf, self.hash.as_slice());
        push_bytes(&mut buf, ih.as_slice());
        proof {
            lemma_seq_hash_push(self.items@, item);
            assert(buf@ =~= self.hash@ + ih@);
        }
        self.hash = sha256(buf.as_slice());
        self.items.push(item);
    }

    /// Clear the sequence by removing all of the items. This method does not
    /// have any effects on the allocated memory.
    pub fn clear(&mut self)
        ensures
            final(self).wf(),
            final(self)@ == Seq::<T>::empty(),
    {
        self.hash = zero_hash_bytes();
        self.items.clear();
    }

    /// Shrinks the capacity of the sequence as much as possible.
    pub fn shrink_to_fit(&mut self)
        requires
            old(self).wf(),
        ensures
            final(self).wf(),
            final(self)@ == old(self)@,
    {
        vec_shrink_to_fit(&mut self.items);
    }

    /// Reserve space for at least `additional` more elements.
    pub fn reserve(&mut self, additional: usize)
        requires
            old(self).wf(),
        ensures
            final(self).wf(),
            final(self)@ == old(self)@,
    {
        self.items.reserve(additional)
    }

    /// Reserve space for exactly `additional` more elements.
    pub fn reserve_exact(&mut self, additional: usize)
        requires
            old(self).wf(),
        ensures
            final(self).wf(),
            final(self)@ == old(self)@,
    {
        vec_reserve_exact(&mut self.items, additional)
    }

    /// Return the underlying vector containing the items.
    pub fn as_vec(&self) -> (r: &Vec<T>)
        ensures
            r@ == self@,
    {
        &self.items
    }

    /// Returns `true` if the sequence does not have any elements.
    pub fn is_empty(&self) -> (r: bool)
        ensures
            r == (self@.len() == 0),
    {
        self.items.len() == 0
    }

    /// Returns the number of elements in the sequence.
    pub fn len(&self) -> (r: usize)
        ensures
            r == self@.len(),
    {
        self.items.len()
    }

    /// Returns the number of elements the sequence can hold without
    /// reallocating.
    pub fn capacity(&self) -> (r: usize)
        ensures
            r >= self@.len(),
    {
        vec_capacity(&self.items)
    }

    /// The item at `index`.
    pub fn index(&self, index: usize) -> (r: &T)
        requires
            index < self@.len(),
        ensures
            *r == self@[index as int],
    {
        &self.items[index]
    }

    /// Chain the root hashes of the items from `prev_len` on into the hash.
    fn recompute_hash(&mut self, prev_len: usize)
        requires
            prev_len <= old(self).items@.len(),
            old(self).hash@ == seq_hash(old(self).items@.subrange(0, prev_len as int)),
            forall|i: int| 0 <= i < old(self).items@.len() ==> (#[trigger] old(self).items@[i]).inv(),
        ensures
            final(self).wf(),
            final(self)@ == old(self)@,
    {
        let mut hash = self.hash;
        let mut i: usize = prev_len;
        while i < self.items.len()
            invariant
                prev_len <= i <= self.items@.len(),
                self.items@ == old(self).items@,
                hash@ == seq_hash(self.items@.subrange(0, i as int)),
                forall|j: int| 0 <= j < self.items@.len() ==> (#[trigger] self.items@[j]).inv(),
            decreases self.items@.len() - i,
        {
            let ih = self.items[i].root_hash();
            let mut buf: Vec<u8> = Vec::new();
            push_bytes(&mut buf, hash.as_slice());
            push_bytes(&mut buf, ih.as_slice());
            proof {
                let s = self.items@.subrange(0, i as int);
                lemma_seq_hash_push(s, self.items@[i as int]);
                assert(s.push(self.items@[i as int]) =~= self.items@.subrange(0, i + 1));
                assert(buf@ =~= hash@ + ih@);
            }
            hash = sha256(buf.as_slice());
            i = i + 1;
        }
        proof {
            assert(self.items@.subrange(0, i as int) =~= self.items@);
        }
        self.hash = hash;
    }

    /// A sequence of the given items, with its hash computed.
    pub fn from_vec(items: Vec<T>) -> (r: Self)
        requires
            forall|i: int| 0 <= i < items@.len() ==> (#[trigger] items@[i]).inv(),
        ensures
            r.wf(),
            r@ == items@,
    {
        let mut seq = CertifiedSeq { items, hash: zero_hash_bytes() };
        proof {
            assert(seq.items@.subrange(0, 0) =~= Seq::<T>::empty());
            assert(item_hashes(Seq::<T>::empty()) =~= Seq::<Seq<u8>>::empty());
        }
        seq.recompute_hash(0);
        seq
    }

    /// Append all the given items, in order.
    pub fn extend(&mut self, items: Vec<T>)
        requires
            old(self).wf(),
            forall|i: int| 0 <= i < items@.len() ==> (#[trigger] items@[i]).inv(),
        ensures
            final(self).wf(),
            final(self)@ == old(self)@ + items@,
    {
        let prev_len = self.items.len();
        let mut items = items;
        let ghost before = self.items@;
        let ghost added = items@;
        self.items.append(&mut items);
        proof {
            assert(self.items@.subrange(0, prev_len as int) =~= before);
            assert forall|i: int| 0 <= i < self.items@.len() implies (#[trigger] self.items@[i]).inv() by {
                if i >= prev_len {
                    assert(self.items@[i] == added[i - prev_len]);
                }
            }
        }
        self.recompute_hash(prev_len);
    }

    /// The items of the sequence.
    pub fn into_vec(self) -> (r: Vec<T>)
        ensures
            r@ == self@,
    {
        self.items
    }
}

impl<T: AsHashTree> Default for CertifiedSeq<T> {
    fn default() -> (r: Self)
        ensures
            r.wf(),
            r@ == Seq::<T>::empty(),
            r.hash_view() == zero_hash(),
    {
        Self::new()
    }
}

impl<T: AsHashTree> AsHashTree for CertifiedSeq<T> {
    open spec fn inv(&self) -> bool {
        self.wf()
    }

    open spec fn root_hash_spec(&self) -> Seq<u8> {
        seq_hash(self@)
    }

    /// The hash of the sequence, pruned.
    open spec fn tree_spec(&self) -> TreeView {
        TreeView::Pruned(self.hash_view())
    }

    fn root_hash(&self) -> (r: crate::hashtree::Hash) {
        self.hash
    }

    fn as_hash_tree(&self) -> (r: HashTree) {
        HashTree::Pruned(self.hash)
    }
}

impl<T: AsHashTree> CertifiedSeq<T> {
    /// The root hash of a sequence is the hash of its items.
    pub proof fn lemma_root_hash(&self)
        ensures
            self.root_hash_spec() == seq_hash(self@),
    {
    }
}

/// A map from keys to values, ordered and certified by the keys' labels. It
/// holds each entry under its key's label.
pub struct CertifiedMap<K, V> {
    inner: RbTree<V>,
    key_type: PhantomData<K>,
}

impl<K, V> View for CertifiedMap<K, V> {
    type V = Map<Seq<u8>, V>;

    /// The entries, by label.
    closed spec fn view(&self) -> Map<Seq<u8>, V> {
        self.inner@
    }
}

impl<K: Label, V: AsHashTree> CertifiedMap<K, V> {
    /// The entries of a map form a finite map.
    pub proof fn lemma_finite(&self)
        ensures
            self@.dom().finite(),
    {
        self.inner.lemma_finite();
    }

    /// The underlying tree is well formed and balanced.
    pub closed spec fn wf(&self) -> bool {
        self.inner.wf() && self.inner.balanced()
    }

    /// The root hash of the map.
    pub closed spec fn root_hash_view(&self) -> Seq<u8> {
        self.inner.root_hash_view()
    }

    /// The underlying tree.
    pub closed spec fn tree(&self) -> RbTree<V> {
        self.inner
    }

    /// The labels of the entries, in order.
    pub closed spec fn key_labels(&self) -> Seq<Seq<u8>> {
        keys_of(self.inner.entries())
    }

    /// An empty map.
    pub fn new() -> (r: Self)
        ensures
            r.wf(),
            r@ == Map::<Seq<u8>, V>::empty(),
            r.root_hash_view() == empty_hash_spec(),
            r.tree().full_tree_view() == TreeView::Empty,
    {
        CertifiedMap { inner: RbTree::new(), key_type: PhantomData }
    }

    /// Returns `true` if the map does not contain any values.
    pub fn is_empty(&self) -> (r: bool)
        requires
            self.wf(),
        ensures
            r == (self@.len() == 0),
    {
        self.inner.is_empty()
    }

    /// Returns the number of elements in the map.
    pub fn len(&self) -> (r: usize)
        requires
            self.wf(),
        ensures
            r == self@.len(),
    {
        self.inner.len()
    }

    /// Clear the map.
    pub fn clear(&mut self)
        ensures
            final(self).wf(),
            final(self)@ == Map::<Seq<u8>, V>::empty(),
            final(self).root_hash_view() == empty_hash_spec(),
            final(self).tree().full_tree_view() == TreeView::Empty,
    {
        self.inner = RbTree::new();
    }

    /// Insert a key-value pair into the map. Returns `None` if the key did
    /// not exist in the map, otherwise the previous value of the key.
    pub fn insert(&mut self, key: K, value: V) -> (r: Option<V>)
        requires
            old(self).wf(),
            value.inv(),
            old(self)@.len() < usize::MAX,
        ensures
            final(self).wf(),
            final(self)@ == old(self)@.insert(key.label_spec(), value),
            final(self)@.dom().finite(),
            r == (if old(self)@.dom().contains(key.label_spec()) {
                Some(old(self)@[key.label_spec()])
            } else {
                None
            }),
    {
        let label = key.as_label();
        self.inner.insert(label, value)
    }

    /// Remove the value associated with the given key from the map; returns
    /// the previous value associated with the key.
    pub fn remove(&mut self, key: &K) -> (r: Option<V>)
        requires
            old(self).wf(),
        ensures
            final(self).wf(),
            final(self)@ == old(self)@.remove(key.label_spec()),
            final(self)@.dom().finite(),
            r == (if old(self)@.dom().contains(key.label_spec()) {
                Some(old(self)@[key.label_spec()])
            } else {
                None
            }),
            r is None ==> final(self).root_hash_view() == old(self).root_hash_view(),
    {
        let label = key.as_label();
        match self.inner.delete(label.as_slice()) {
            Some(e) => Some(e.1),
            None => None,
        }
    }

    /// Remove an entry from the map and return its label and value.
    pub fn remove_entry(&mut self, key: &K) -> (r: Option<(Vec<u8>, V)>)
        requires
            old(self).wf(),
        ensures
            final(self).wf(),
            final(self)@ == old(self)@.remove(key.label_spec()),
            final(self)@.dom().finite(),
            r is Some <==> old(self)@.dom().contains(key.label_spec()),
            r matches Some(e) ==> e.0@ == key.label_spec() && e.1 == old(self)@[key.label_spec()],
            r is None ==> final(self).root_hash_view() == old(self).root_hash_view(),
    {
        let label = key.as_label();
        self.inner.delete(label.as_slice())
    }

    /// The entry of `key`, for in-place manipulation.
    pub fn entry(&mut self, key: K) -> (r: Entry<'_, V>)
        requires
            old(self).wf(),
        ensures
            (match r {
                Entry::Vacant(e) => !old(self)@.dom().contains(key.label_spec()) && *e.map == old(self).tree()
                    && *final(e.map) == final(self).tree() && e.key@ == key.label_spec(),
                Entry::Occupied(e) => old(self)@.dom().contains(key.label_spec()) && *e.map == old(self).tree()
                    && *final(e.map) == final(self).tree() && e.key@ == key.label_spec(),
            }),
            (match r {
                Entry::Vacant(e) => {
                    &&& e.map.wf() && e.map.balanced() && e.map@ == old(self)@
                    &&& final(self)@ == final(e.map)@
                    &&& final(self).root_hash_view() == final(e.map).root_hash_view()
                    &&& final(self).wf() <==> final(e.map).wf() && final(e.map).balanced()
                },
                Entry::Occupied(e) => {
                    &&& e.map.wf() && e.map.balanced() && e.map@ == old(self)@
                    &&& final(self)@ == final(e.map)@
                    &&& final(self).root_hash_view() == final(e.map).root_hash_view()
                    &&& final(self).wf() <==> final(e.map).wf() && final(e.map).balanced()
                },
            }),
    {
        let label = key.as_label();
        self.inner.entry(label)
    }

    /// Return the value associated with the given key.
    pub fn get(&self, key: &K) -> (r: Option<&V>)
        requires
            self.wf(),
        ensures
            r is Some <==> self@.dom().contains(key.label_spec()),
            r matches Some(v) ==> *v == self@[key.label_spec()],
    {
        let label = key.as_label();
        self.inner.get(label.as_slice())
    }

    /// Return an iterator over the entries of the map, in label order.
    pub fn iter(&self) -> (r: RbTreeIterator<'_, V>)
        requires
            self.wf(),
        ensures
            r.wf(),
            r@ == self.tree().entries(),
            sorted_by_key(r@),
            lists_map(r@, self@),
    {
        proof {
            self.inner.lemma_entries();
        }
        self.inner.iter()
    }

    /// Create a hash tree witness for the value associated with the given
    /// key, or of its absence.
    pub fn witness(&self, key: &K) -> (r: HashTree)
        requires
            self.wf(),
        ensures
            reconstruct_spec(r) == self.root_hash_view(),
            self@.dom().contains(key.label_spec()) ==> labels_spec(r) == seq![key.label_spec()],
            self@.dom().contains(key.label_spec()) ==> labeled_parts(r).len() == 1 && labeled_parts(r)[0].0
                == key.label_spec() && reconstruct_spec(labeled_parts(r)[0].1) == self@[key.label_spec()].root_hash_spec()
                && tree_view(labeled_parts(r)[0].1) == self@[key.label_spec()].tree_spec(),
            !self@.dom().contains(key.label_spec()) ==> labels_spec(r) == keys_around(
                self.key_labels(),
                self@,
                key.label_spec(),
                key.label_spec(),
            ),
            !self@.dom().contains(key.label_spec()) ==> leaf_values_spec(r) == Seq::<Seq<u8>>::empty(),
    {
        let label = key.as_label();
        self.inner.witness(label.as_slice())
    }

    /// Returns a witness enumerating all the keys in this map. The values are
    /// replaced with "Pruned" nodes.
    pub fn witness_keys(&self) -> (r: HashTree)
        requires
            self.wf(),
        ensures
            reconstruct_spec(r) == self.root_hash_view(),
            labels_spec(r) == self.key_labels(),
            leaf_values_spec(r) == Seq::<Seq<u8>>::empty(),
    {
        self.inner.keys()
    }

    /// Returns a witness for the key-value pairs in the specified range. The
    /// resulting tree contains both keys and values.
    pub fn witness_value_range(&self, first: &K, last: &K) -> (r: HashTree)
        requires
            self.wf(),
        ensures
            reconstruct_spec(r) == self.root_hash_view(),
            lex_le(first.label_spec(), last.label_spec()) ==> labels_spec(r) == keys_around(
                self.key_labels(),
                self@,
                first.label_spec(),
                last.label_spec(),
            ),
            lex_le(first.label_spec(), last.label_spec()) ==> parts_reveal_range(
                labeled_parts(r),
                self@,
                first.label_spec(),
                last.label_spec(),
            ),
    {
        let f = first.as_label();
        let l = last.as_label();
        self.inner.value_range(f.as_slice(), l.as_slice())
    }

    /// Returns a witness for the keys in the specified range. The values are
    /// replaced with "Pruned" nodes.
    pub fn witness_key_range(&self, first: &K, last: &K) -> (r: HashTree)
        requires
            self.wf(),
        ensures
            reconstruct_spec(r) == self.root_hash_view(),
            lex_le(first.label_spec(), last.label_spec()) ==> labels_spec(r) == keys_around(
                self.key_labels(),
                self@,
                first.label_spec(),
                last.label_spec(),
            ),
            lex_le(first.label_spec(), last.label_spec()) ==> leaf_values_spec(r) == Seq::<Seq<u8>>::empty(),
    {
        let f = first.as_label();
        let l = last.as_label();
        self.inner.key_range(f.as_slice(), l.as_slice())
    }

    /// Returns a witness for the keys whose labels start with `prefix`; the
    /// values are replaced with "Pruned" nodes.
    pub fn witness_keys_with_prefix(&self, prefix: &[u8]) -> (r: HashTree)
        requires
            self.wf(),
        ensures
            reconstruct_spec(r) == self.root_hash_view(),
            labels_spec(r) == keys_around_prefix(self.key_labels(), self@, prefix@),
            leaf_values_spec(r) == Seq::<Seq<u8>>::empty(),
            forall|k: Seq<u8>| #[trigger] self@.dom().contains(k) && is_prefix_of(prefix@, k) ==> labels_spec(r).contains(k),
    {
        self.inner.keys_with_prefix(prefix)
    }

    /// Return the underlying tree of this map.
    pub fn as_tree(&self) -> (r: &RbTree<V>)
        ensures
            *r == self.tree(),
    {
        &self.inner
    }
}

impl<K: Label, V: AsHashTree> CertifiedMap<K, CertifiedSeq<V>> {
    /// Append `value` to the sequence of `key`; where the key has none yet,
    /// insert a sequence that holds just `value`.
    pub fn append_deep(&mut self, key: K, value: V)
        requires
            old(self).wf(),
            value.inv(),
            old(self)@.len() < usize::MAX,
        ensures
            final(self).wf(),
            final(self)@.dom().finite(),
            final(self)@.dom() == old(self)@.dom().insert(key.label_spec()),
            forall|k: Seq<u8>| k != key.label_spec() && #[trigger] old(self)@.dom().contains(k) ==> final(self)@[k] == old(self)@[k],
            old(self)@.dom().contains(key.label_spec()) ==> final(self)@[key.label_spec()]@ == old(self)@[key.label_spec()]@.push(value),
            !old(self)@.dom().contains(key.label_spec()) ==> final(self)@[key.label_spec()]@ == seq![value],
    {
        let label = key.as_label();
        if self.inner.get(label.as_slice()).is_some() {
            proof {
                self.inner.lemma_values_inv(label@);
            }
            let f = move |seq: CertifiedSeq<V>| -> (out: (CertifiedSeq<V>, ()))
                requires
                    seq.wf(),
                    value.inv(),
                ensures
                    out.0.wf(),
                    out.0@ == seq@.push(value),
                {
                    let mut seq = seq;
                    seq.append(value);
                    (seq, ())
                };
            self.inner.modify(label.as_slice(), f);
            proof {
                self.inner.lemma_finite();
            }
        } else {
            let mut seq = CertifiedSeq::new();
            seq.append(value);
            self.inner.insert(label, seq);
            proof {
                assert(seq![value] =~= Seq::<V>::empty().push(value));
            }
        }
    }

    /// The length of the sequence of `key`, or 0 where it has none.
    pub fn len_deep(&mut self, key: &K) -> (r: usize)
        requires
            old(self).wf(),
        ensures
            *final(self) == *old(self),
            r == (if old(self)@.dom().contains(key.label_spec()) {
                old(self)@[key.label_spec()]@.len()
            } else {
                0
            }),
    {
        let label = key.as_label();
        match self.inner.get(label.as_slice()) {
            Some(seq) => seq.len(),
            None => 0,
        }
    }
}

impl<K: Label, V: AsHashTree> Default for CertifiedMap<K, V> {
    fn default() -> (r: Self)
        ensures
            r.wf(),
            r@ == Map::<Seq<u8>, V>::empty(),
            r.root_hash_view() == empty_hash_spec(),
    {
        Self::new()
    }
}

impl<K: Label, V: AsHashTree> AsHashTree for CertifiedMap<K, V> {
    open spec fn inv(&self) -> bool {
        self.wf()
    }

    open spec fn root_hash_spec(&self) -> Seq<u8> {
        self.root_hash_view()
    }

    open spec fn tree_spec(&self) -> TreeView {
        self.tree().full_tree_view()
    }

    fn root_hash(&self) -> (r: crate::hashtree::Hash) {
        self.inner.root_hash()
    }

    fn as_hash_tree(&self) -> (r: HashTree) {
        self.inner.as_hash_tree()
    }
}

/// The label of page `page` of the key with label `l`: the key's label, then
/// the page number in big-endian bytes.
pub open spec fn paged_label(l: Seq<u8>, page: u32) -> Seq<u8> {
    l + u32_be(page)
}

/// The page number at the end of a paged label: its last four bytes, read in
/// big-endian order (0 for a label shorter than that).
pub open spec fn page_of(k: Seq<u8>) -> u32 {
    if k.len() < 4 {
        0
    } else {
        let n = k.len() as int;
        (k[n - 4] as int * 16777216 + k[n - 3] as int * 65536 + k[n - 2] as int * 256 + k[n - 1] as int) as u32
    }
}

/// The page after `page`; the page number wraps around after the last one.
pub open spec fn next_page(page: u32) -> u32 {
    if page == u32::MAX {
        0
    } else {
        (page + 1) as u32
    }
}

/// The pages `m2` after `item` was inserted under the key with label `l`
/// into the pages `m`: it goes to the last page of the key (the one with the
/// greatest label that starts with `l`) unless that page holds `s` items,
/// and otherwise to a new page after it (page 0 where the key has none).
pub open spec fn paged_insert_step<V>(
    m: Map<Seq<u8>, CertifiedSeq<V>>,
    m2: Map<Seq<u8>, CertifiedSeq<V>>,
    l: Seq<u8>,
    item: V,
    s: nat,
) -> bool {
    let last = max_key_with_prefix(m, l);
    if has_prefixed_key(m, l) && m[last]@.len() != s {
        &&& m2 == m.insert(last, m2[last])
        &&& m2[last]@ == m[last]@.push(item)
    } else {
        let page = if has_prefixed_key(m, l) { next_page(page_of(last)) } else { 0 };
        &&& m2 == m.insert(paged_label(l, page), m2[paged_label(l, page)])
        &&& m2[paged_label(l, page)]@ == seq![item]
    }
}

/// The number of pages that `n` items take, `s` to a page.
pub open spec fn page_count(n: nat, s: nat) -> nat {
    if n == 0 {
        0
    } else {
        ((n - 1) as nat / s + 1) as nat
    }
}

/// The items on page `p`, `s` to a page.
pub open spec fn page_items<V>(it: Seq<V>, s: nat, p: nat) -> Seq<V> {
    it.subrange((p * s) as int, vstd::math::min(((p + 1) * s) as int, it.len() as int))
}

/// The pages of the key with label `l` in `m` hold the items `it` in order,
/// `s` to a page: page `p` is there exactly for the pages the items take,
/// with its share of the items, and every label of `m` that starts with `l`
/// is that of a page.
pub open spec fn pages_of<V>(m: Map<Seq<u8>, CertifiedSeq<V>>, l: Seq<u8>, it: Seq<V>, s: nat) -> bool {
    &&& forall|p: u32| #[trigger] m.dom().contains(paged_label(l, p)) <==> (p as nat) < page_count(it.len(), s)
    &&& forall|p: u32| (p as nat) < page_count(it.len(), s) ==> (#[trigger] m[paged_label(l, p)])@ == page_items(it, s, p as nat)
    &&& forall|k: Seq<u8>| #[trigger] m.dom().contains(k) && is_prefix_of(l, k) ==> exists|p: u32| k == paged_label(l, p)
}

/// The page number of a paged label is the page's.
proof fn lemma_page_of(l: Seq<u8>, p: u32)
    ensures
        page_of(paged_label(l, p)) == p,
        is_prefix_of(l, paged_label(l, p)),
{
    let k = paged_label(l, p);
    let n = k.len() as int;
    assert(k.subrange(0, l.len() as int) =~= l);
    let b0 = (p >> 24u32) as u8;
    let b1 = ((p >> 16u32) & 0xff) as u8;
    let b2 = ((p >> 8u32) & 0xff) as u8;
    let b3 = (p & 0xff) as u8;
    assert(k[n - 4] == b0 && k[n - 3] == b1 && k[n - 2] == b2 && k[n - 1] == b3);
    assert(b0 as u32 * 16777216u32 + b1 as u32 * 65536u32 + b2 as u32 * 256u32 + b3 as u32 == p) by (bit_vector)
        requires
            b0 == (p >> 24u32) as u8,
            b1 == ((p >> 16u32) & 0xff) as u8,
            b2 == ((p >> 8u32) & 0xff) as u8,
            b3 == (p & 0xff) as u8,
    ;
}

/// Paged labels of one key are apart for apart pages, and ordered as the
/// pages are.
proof fn lemma_paged_label_order(l: Seq<u8>, p: u32, q: u32)
    ensures
        paged_label(l, p) == paged_label(l, q) ==> p == q,
        p <= q ==> lex_le(paged_label(l, p), paged_label(l, q)),
{
    lemma_page_of(l, p);
    lemma_page_of(l, q);
    if p < q {
        lemma_u32_be_order(l, p, q);
    }
}

/// The quotient of `n` by `s` is `q` when `n` lies between `q * s` and the
/// next multiple.
proof fn lemma_div_between(n: int, s: int, q: int)
    requires
        s > 0,
        q * s <= n < (q + 1) * s,
    ensures
        n / s == q,
{
    vstd::arithmetic::div_mod::lemma_fundamental_div_mod(n, s);
    vstd::arithmetic::div_mod::lemma_mod_bound(n, s);
    let d = n / s;
    let r = n % s;
    assert(d == q) by (nonlinear_arith)
        requires
            s > 0,
            n == s * d + r,
            0 <= r < s,
            q * s <= n < (q + 1) * s,
    ;
}

/// Law: in an empty map of pages, every key's pages hold no items.
pub proof fn lemma_no_pages<V>(l: Seq<u8>, s: nat)
    ensures
        pages_of(Map::<Seq<u8>, CertifiedSeq<V>>::empty(), l, Seq::<V>::empty(), s),
{
}

/// Law: where the pages of a key hold its items, the key has pages exactly
/// when it has items; its last page is the one that the last item is on,
/// and the page after it, which `witness_last_page_number` certifies, is
/// absent.
pub proof fn lemma_last_page<V>(m: Map<Seq<u8>, CertifiedSeq<V>>, l: Seq<u8>, it: Seq<V>, s: nat)
    requires
        s >= 1,
        pages_of(m, l, it, s),
        page_count(it.len(), s) <= u32::MAX as nat,
    ensures
        has_prefixed_key(m, l) <==> it.len() > 0,
        it.len() > 0 ==> page_of(max_key_with_prefix(m, l)) == (it.len() - 1) as nat / s,
        ({
            let next = if has_prefixed_key(m, l) { next_page(page_of(max_key_with_prefix(m, l))) } else { 0 };
            !m.dom().contains(paged_label(l, next))
        }),
{
    let n = it.len();
    if n == 0 {
        if has_prefixed_key(m, l) {
            let k = choose|k: Seq<u8>| #[trigger] m.dom().contains(k) && is_prefix_of(l, k);
            let p = choose|p: u32| k == paged_label(l, p);
            assert(m.dom().contains(paged_label(l, p)));
        }
        assert(!m.dom().contains(paged_label(l, 0)));
    } else {
        let q = ((n - 1) as nat / s) as int;
        assert(q >= 0) by (nonlinear_arith)
            requires
                s >= 1,
                n >= 1,
                q == (n - 1) as int / s as int,
        {
            vstd::arithmetic::div_mod::lemma_fundamental_div_mod((n - 1) as int, s as int);
            vstd::arithmetic::div_mod::lemma_mod_bound((n - 1) as int, s as int);
        }
        let last_page = q as u32;
        let last = paged_label(l, last_page);
        assert(m.dom().contains(last));
        lemma_page_of(l, last_page);
        assert(is_max_with_prefix(m, l, last)) by {
            assert forall|k2: Seq<u8>| #[trigger] m.dom().contains(k2) && is_prefix_of(l, k2) implies lex_le(k2, last) by {
                let p = choose|p: u32| k2 == paged_label(l, p);
                assert(m.dom().contains(paged_label(l, p)));
                lemma_paged_label_order(l, p, last_page);
            }
        }
        lemma_max_with_prefix_unique(m, l, last);
        assert(has_prefixed_key(m, l));
        let next = (q + 1) as u32;
        assert(next_page(last_page) == next);
        assert(!m.dom().contains(paged_label(l, next)));
    }
}

/// Law: inserting an item under a key whose pages hold its items in order
/// keeps them so, with the item last, as long as page numbers do not wrap
/// around; the labels that do not start with the key's label keep their
/// pages.
pub proof fn lemma_insert_keeps_pages<V>(
    m: Map<Seq<u8>, CertifiedSeq<V>>,
    m2: Map<Seq<u8>, CertifiedSeq<V>>,
    l: Seq<u8>,
    it: Seq<V>,
    item: V,
    s: nat,
)
    requires
        s >= 1,
        pages_of(m, l, it, s),
        page_count(it.len() + 1, s) <= u32::MAX as nat,
        paged_insert_step(m, m2, l, item, s),
    ensures
        pages_of(m2, l, it.push(item), s),
        forall|k: Seq<u8>| !is_prefix_of(l, k) ==> (#[trigger] m2.dom().contains(k) == m.dom().contains(k) && (
        m.dom().contains(k) ==> m2[k] == m[k])),
{
    let n = it.len();
    let np = page_count(n, s);
    let it2 = it.push(item);
    if n == 0 {
        assert(!has_prefixed_key(m, l)) by {
            if has_prefixed_key(m, l) {
                let k = choose|k: Seq<u8>| #[trigger] m.dom().contains(k) && is_prefix_of(l, k);
                let p = choose|p: u32| k == paged_label(l, p);
                assert(m.dom().contains(paged_label(l, p)));
            }
        }
        assert(page_count(1, s) == 1) by {
            assert(0nat / s == 0) by (nonlinear_arith)
                requires s >= 1;
        }
        lemma_page_of(l, 0);
        assert forall|p: u32| #[trigger] m2.dom().contains(paged_label(l, p)) <==> (p as nat) < page_count(it2.len(), s) by {
            lemma_paged_label_order(l, p, 0);
        }
        assert forall|p: u32| (p as nat) < page_count(it2.len(), s) implies (#[trigger] m2[paged_label(l, p)])@ == page_items(it2, s, p as nat) by {
            assert(p == 0);
            assert(vstd::math::min(s as int, 1) == 1);
            assert(it2.subrange(0, 1) =~= seq![item]);
        }
        assert forall|k: Seq<u8>| #[trigger] m2.dom().contains(k) && is_prefix_of(l, k) implies exists|p: u32| k == paged_label(l, p) by {
            if k != paged_label(l, 0) {
                assert(m.dom().contains(k));
            }
        }
        assert forall|k: Seq<u8>| !is_prefix_of(l, k) implies (#[trigger] m2.dom().contains(k) == m.dom().contains(k) && (
        m.dom().contains(k) ==> m2[k] == m[k])) by {
            assert(k != paged_label(l, 0));
        }
    } else {
        let q = ((n - 1) as nat / s) as int;
        assert(q * s <= n - 1 < (q + 1) * s && q >= 0) by (nonlinear_arith)
            requires
                s >= 1,
                n >= 1,
                q == (n - 1) as int / s as int,
        {
            vstd::arithmetic::div_mod::lemma_fundamental_div_mod((n - 1) as int, s as int);
            vstd::arithmetic::div_mod::lemma_mod_bound((n - 1) as int, s as int);
        }
        assert(np == q + 1);
        assert((q + 1) * s == q * s + s && (q + 2) * s == (q + 1) * s + s) by (nonlinear_arith);
        let full = n == (q + 1) * s;
        if full {
            lemma_div_between(n as int, s as int, q + 1);
            assert(page_count(n + 1, s) == q + 2);
        } else {
            lemma_div_between(n as int, s as int, q);
            assert(page_count(n + 1, s) == q + 1);
        }
        let last_page = q as u32;
        assert(last_page as nat == q);
        let last = paged_label(l, last_page);
        assert(m.dom().contains(last));
        lemma_page_of(l, last_page);
        assert(is_max_with_prefix(m, l, last)) by {
            assert forall|k2: Seq<u8>| #[trigger] m.dom().contains(k2) && is_prefix_of(l, k2) implies lex_le(k2, last) by {
                let p = choose|p: u32| k2 == paged_label(l, p);
                assert(m.dom().contains(paged_label(l, p)));
                lemma_paged_label_order(l, p, last_page);
            }
        }
        lemma_max_with_prefix_unique(m, l, last);
        assert(has_prefixed_key(m, l));
        assert(vstd::math::min(((q + 1) * s) as int, n as int) == n as int);
        assert(m[last]@.len() == n - q * s);
        if !full {
            // the last page has room
            assert(m[last]@.len() != s);
            assert(m2 == m.insert(last, m2[last]));
            assert forall|p: u32| #[trigger] m2.dom().contains(paged_label(l, p)) <==> (p as nat) < page_count(it2.len(), s) by {
                lemma_paged_label_order(l, p, last_page);
            }
            assert forall|p: u32| (p as nat) < page_count(it2.len(), s) implies (#[trigger] m2[paged_label(l, p)])@ == page_items(it2, s, p as nat) by {
                lemma_paged_label_order(l, p, last_page);
                if p == last_page {
                    assert(vstd::math::min(((q + 1) * s) as int, n + 1int) == n + 1);
                    assert(it2.subrange(q * s, n + 1int) =~= it.subrange(q * s, n as int).push(item));
                } else {
                    let a = p as int * s as int;
                    let b = (p as int + 1) * s as int;
                    assert(0 <= a <= b <= q * s) by (nonlinear_arith)
                        requires
                            0 <= p < q,
                            s >= 1,
                            a == p * s,
                            b == (p + 1) * s,
                    ;
                    assert(vstd::math::min(b, n + 1int) == b && vstd::math::min(b, n as int) == b);
                    assert(it2.subrange(a, b) =~= it.subrange(a, b));
                }
            }
            assert forall|k: Seq<u8>| #[trigger] m2.dom().contains(k) && is_prefix_of(l, k) implies exists|p: u32| k == paged_label(l, p) by {
                if k != last {
                    assert(m.dom().contains(k));
                }
            }
            assert forall|k: Seq<u8>| !is_prefix_of(l, k) implies (#[trigger] m2.dom().contains(k) == m.dom().contains(k) && (
            m.dom().contains(k) ==> m2[k] == m[k])) by {
                assert(k != last);
            }
        } else {
            // the last page is full: a new page follows it
            assert(m[last]@.len() == s) by (nonlinear_arith)
                requires
                    m[last]@.len() == n - q * s,
                    n == (q + 1) * s,
            ;
            let new_page = (q + 1) as u32;
            assert(next_page(last_page) == new_page);
            lemma_page_of(l, new_page);
            let x = paged_label(l, new_page);
            assert(m2 == m.insert(x, m2[x]));
            assert forall|p: u32| #[trigger] m2.dom().contains(paged_label(l, p)) <==> (p as nat) < page_count(it2.len(), s) by {
                lemma_paged_label_order(l, p, new_page);
            }
            assert forall|p: u32| (p as nat) < page_count(it2.len(), s) implies (#[trigger] m2[paged_label(l, p)])@ == page_items(it2, s, p as nat) by {
                lemma_paged_label_order(l, p, new_page);
                if p == new_page {
                    assert(vstd::math::min(((q + 2) * s) as int, n + 1int) == n + 1) by (nonlinear_arith)
                        requires
                            n == (q + 1) * s,
                            s >= 1,
                    ;
                    assert(it2.subrange(n as int, n + 1int) =~= seq![item]);
                } else {
                    let a = p as int * s as int;
                    let b = (p as int + 1) * s as int;
                    assert(0 <= a <= b <= n) by (nonlinear_arith)
                        requires
                            0 <= p <= q,
                            n == (q + 1) * s,
                            s >= 1,
                            a == p * s,
                            b == (p + 1) * s,
                    ;
                    assert(vstd::math::min(b, n + 1int) == b && vstd::math::min(b, n as int) == b);
                    assert(it2.subrange(a, b) =~= it.subrange(a, b));
                }
            }
            assert forall|k: Seq<u8>| #[trigger] m2.dom().contains(k) && is_prefix_of(l, k) implies exists|p: u32| k == paged_label(l, p) by {
                if k != x {
                    assert(m.dom().contains(k));
                }
            }
            assert forall|k: Seq<u8>| !is_prefix_of(l, k) implies (#[trigger] m2.dom().contains(k) == m.dom().contains(k) && (
            m.dom().contains(k) ==> m2[k] == m[k])) by {
                assert(k != x);
            }
        }
    }
}

/// The page number at the end of a paged label.
fn read_page(k: &[u8]) -> (r: u32)
    ensures
        r == page_of(k@),
{
    if k.len() < 4 {
        return 0;
    }
    let n = k.len();
    let a = k[n - 4] as u32;
    let b = k[n - 3] as u32;
    let c = k[n - 2] as u32;
    let d = k[n - 1] as u32;
    a * 16777216 + b * 65536 + c * 256 + d
}

/// A map from keys to sequences of values, kept in pages of at most `S`
/// values: page `p` of key `k` is held under the label of `k` followed by
/// `p` in big-endian bytes. Keys are expected to have labels of one length,
/// as the numbers do, so that the labels of the pages of one key are not
/// prefixes of those of another.
pub struct Paged<K, V, const S: usize> {
    data: CertifiedMap<K, CertifiedSeq<V>>,
}

impl<K, V, const S: usize> View for Paged<K, V, S> {
    type V = Map<Seq<u8>, CertifiedSeq<V>>;

    /// The pages, by label.
    closed spec fn view(&self) -> Map<Seq<u8>, CertifiedSeq<V>> {
        self.data@
    }
}

impl<K: Label, V: AsHashTree, const S: usize> Paged<K, V, S> {
    /// The map of pages is well formed.
    pub closed spec fn wf(&self) -> bool {
        self.data.wf()
    }

    /// The root hash of the map of pages.
    pub closed spec fn root_hash_view(&self) -> Seq<u8> {
        self.data.root_hash_view()
    }

    /// The full hash tree of the pages.
    pub closed spec fn tree_view_spec(&self) -> TreeView {
        self.data.tree().full_tree_view()
    }

    /// The labels of the pages, in order.
    pub closed spec fn page_labels(&self) -> Seq<Seq<u8>> {
        self.data.key_labels()
    }

    /// An empty map.
    pub fn new() -> (r: Self)
        ensures
            r.wf(),
            r@ == Map::<Seq<u8>, CertifiedSeq<V>>::empty(),
    {
        Paged { data: CertifiedMap::new() }
    }

    /// Insert a new page with the single item `item`.
    fn insert_page(&mut self, label: Vec<u8>, page: u32, item: V)
        requires
            old(self).wf(),
            item.inv(),
            old(self)@.len() < usize::MAX,
        ensures
            final(self).wf(),
            final(self)@ == old(self)@.insert(paged_label(label@, page), final(self)@[paged_label(label@, page)]),
            final(self)@[paged_label(label@, page)]@ == seq![item],
    {
        let mut k = label;
        let p = u32_to_be(page);
        push_bytes(&mut k, p.as_slice());
        let mut seq = CertifiedSeq::new();
        seq.append(item);
        self.data.inner.insert(k, seq);
        proof {
            assert(seq![item] =~= Seq::<V>::empty().push(item));
        }
    }

    /// Append `item` to the last page of `key`, or, where that page is full
    /// or the key has none, put it on a new page after it.
    pub fn insert(&mut self, key: K, item: V)
        requires
            old(self).wf(),
            item.inv(),
            old(self)@.len() < usize::MAX,
        ensures
            final(self).wf(),
            paged_insert_step(old(self)@, final(self)@, key.label_spec(), item, S as nat),
    {
        let label = key.as_label();
        let found = match self.data.inner.max_entry_with_prefix(label.as_slice()) {
            Some(e) => {
                let page = read_page(e.0.as_slice());
                Some((copy_bytes(e.0.as_slice()), e.1.len(), page))
            },
            None => None,
        };
        match found {
            Some((last, len, page)) => {
                proof {
                    lemma_max_with_prefix_unique(self@, label@, last@);
                    self.data.inner.lemma_values_inv(last@);
                }
                if len == S {
                    let next = page.wrapping_add(1);
                    self.insert_page(label, next, item);
                } else {
                    let f = move |seq: CertifiedSeq<V>| -> (out: (CertifiedSeq<V>, ()))
                        requires
                            seq.wf(),
                            item.inv(),
                        ensures
                            out.0.wf(),
                            out.0@ == seq@.push(item),
                        {
                            let mut seq = seq;
                            seq.append(item);
                            (seq, ())
                        };
                    self.data.inner.modify(last.as_slice(), f);
                }
            },
            None => {
                self.insert_page(label, 0, item);
            },
        }
    }

    /// The number of the last page of `key`, if it has any.
    pub fn get_last_page_number(&self, key: &K) -> (r: Option<usize>)
        requires
            self.wf(),
        ensures
            r is Some <==> has_prefixed_key(self@, key.label_spec()),
            r matches Some(p) ==> p == page_of(max_key_with_prefix(self@, key.label_spec())),
    {
        let label = key.as_label();
        match self.data.inner.max_entry_with_prefix(label.as_slice()) {
            Some(e) => {
                proof {
                    lemma_max_with_prefix_unique(self@, label@, e.0@);
                }
                let page = read_page(e.0.as_slice());
                Some(page as usize)
            },
            None => None,
        }
    }

    /// A witness of the page after the last page of `key` (page 0 where the
    /// key has none), which is absent: it shows where the next page goes.
    pub fn witness_last_page_number(&self, key: &K) -> (r: HashTree)
        requires
            self.wf(),
        ensures
            reconstruct_spec(r) == self.root_hash_view(),
            ({
                let l = key.label_spec();
                let page = if has_prefixed_key(self@, l) {
                    next_page(page_of(max_key_with_prefix(self@, l)))
                } else {
                    0
                };
                let k = paged_label(l, page);
                &&& self@.dom().contains(k) ==> labels_spec(r) == seq![k]
                &&& !self@.dom().contains(k) ==> labels_spec(r) == keys_around(self.page_labels(), self@, k, k)
            }),
    {
        let label = key.as_label();
        let page = match self.data.inner.max_entry_with_prefix(label.as_slice()) {
            Some(e) => {
                proof {
                    lemma_max_with_prefix_unique(self@, label@, e.0@);
                }
                read_page(e.0.as_slice()).wrapping_add(1)
            },
            None => 0,
        };
        let mut k = label;
        let p = u32_to_be(page);
        push_bytes(&mut k, p.as_slice());
        self.data.inner.witness(k.as_slice())
    }

    /// Page `page` of `key`, if there is one. The page number is taken
    /// modulo 2^32, as pages are numbered by `u32`.
    pub fn get(&self, key: &K, page: usize) -> (r: Option<&CertifiedSeq<V>>)
        requires
            self.wf(),
        ensures
            r is Some <==> self@.dom().contains(paged_label(key.label_spec(), page as u32)),
            r matches Some(s) ==> *s == self@[paged_label(key.label_spec(), page as u32)],
    {
        let mut k = key.as_label();
        let p = u32_to_be(page as u32);
        push_bytes(&mut k, p.as_slice());
        self.data.inner.get(k.as_slice())
    }

    /// A witness of page `page` of `key`, or of its absence.
    pub fn witness(&self, key: &K, page: usize) -> (r: HashTree)
        requires
            self.wf(),
        ensures
            reconstruct_spec(r) == self.root_hash_view(),
            self@.dom().contains(paged_label(key.label_spec(), page as u32)) ==> labels_spec(r) == seq![
                paged_label(key.label_spec(), page as u32),
            ],
            !self@.dom().contains(paged_label(key.label_spec(), page as u32)) ==> labels_spec(r) == keys_around(
                self.page_labels(),
                self@,
                paged_label(key.label_spec(), page as u32),
                paged_label(key.label_spec(), page as u32),
            ),
    {
        let mut k = key.as_label();
        let p = u32_to_be(page as u32);
        push_bytes(&mut k, p.as_slice());
        self.data.inner.witness(k.as_slice())
    }
}

impl<K: Label, V: AsHashTree, const S: usize> Default for Paged<K, V, S> {
    fn default() -> (r: Self)
        ensures
            r.wf(),
            r@ == Map::<Seq<u8>, CertifiedSeq<V>>::empty(),
    {
        Self::new()
    }
}

impl<K: Label, V: AsHashTree, const S: usize> AsHashTree for Paged<K, V, S> {
    open spec fn inv(&self) -> bool {
        self.wf()
    }

    open spec fn root_hash_spec(&self) -> Seq<u8> {
        self.root_hash_view()
    }

    open spec fn tree_spec(&self) -> TreeView {
        self.tree_view_spec()
    }

    fn root_hash(&self) -> (r: crate::hashtree::Hash) {
        self.data.inner.root_hash()
    }

    fn as_hash_tree(&self) -> (r: HashTree) {
        self.data.inner.as_hash_tree()
    }
}

} // verus!
