//! A least-recently-used cache of the blocks of the stable storage: it keeps
//! the content of recently used blocks on the heap, writes modified blocks
//! back, and never drops a block that is pinned by a live reference.

use vstd::prelude::*;
use std::marker::PhantomData;
use crate::allocator::{
    StableAllocator, BlockAddress, header_size, free_accepted, block_allocated, lemma_allocated_block_is_freed,
};
use crate::checksum::CheckedU40;
use crate::hole::{merged_hole, merge_levels, push_head, size_class, header_bytes, head_addr};
use crate::memory::{Memory, write_bytes};

verus! {

/// Configuration values for an LRU cache.
#[derive(Copy, Clone, Debug, PartialEq, Eq)]
pub struct LruCacheConfig {
    /// Only keep this many bytes of modified blocks before writing them back.
    /// Default: 1,000 WebAssembly pages (62.5MB).
    pub modified_capacity: u64,
    /// The total size of the blocks the cache may hold.
    /// Default: 30,000 WebAssembly pages (1875MB).
    pub total_capacity: u64,
}

impl Default for LruCacheConfig {
    fn default() -> (r: Self)
        ensures
            r.modified_capacity == 1_000 * 65536,
            r.total_capacity == 30_000 * 65536,
    {
        let modified_capacity: u64 = 1_000 << 16;
        let total_capacity: u64 = 30_000 << 16;
        assert(modified_capacity == 1_000 * 65536 && total_capacity == 30_000 * 65536) by (bit_vector)
            requires
                modified_capacity == 1_000u64 << 16u64,
                total_capacity == 30_000u64 << 16u64,
        ;
        LruCacheConfig { modified_capacity, total_capacity }
    }
}

/// The block whose content starts at `address` has a valid header in the
/// storage, which holds a size of at least 8 (the header itself), and its
/// content lies within the storage.
pub open spec fn valid_block(storage: Seq<u8>, address: u64) -> bool {
    header_size(storage, address) matches Some(s) && s >= 8 && address + (s - 8) <= storage.len()
        && s - 8 <= usize::MAX
}

/// A block that `allocate` handed out can be loaded, where its content size
/// fits in a `usize`.
pub proof fn lemma_allocated_block_valid<M: Memory>(allocator: StableAllocator<M>, p: u64, size: u64)
    requires
        block_allocated(allocator.holes(), p, size),
        allocator.storage().len() <= u64::MAX,
    ensures
        header_size(allocator.storage(), p) matches Some(bs) && bs >= size && (bs - 8 <= usize::MAX ==> valid_block(
            allocator.storage(),
            p,
        )),
{
    lemma_allocated_block_is_freed(allocator.holes(), p, size);
}

/// The size of the content of the block at `address`.
pub open spec fn block_content_size(storage: Seq<u8>, address: u64) -> int {
    header_size(storage, address).unwrap() - 8
}

/// A block loaded from the stable storage: its address, and its content
/// without the header.
#[derive(Debug)]
pub struct BlockEntry {
    address: BlockAddress,
    size: usize,
    data: Vec<u8>,
    modified: bool,
}

impl BlockEntry {
    /// The address of the block.
    pub closed spec fn address_spec(&self) -> u64 {
        self.address
    }

    /// The content of the block.
    pub closed spec fn data_spec(&self) -> Seq<u8> {
        self.data@
    }

    /// The content has changed since it was read from the storage.
    pub closed spec fn modified_spec(&self) -> bool {
        self.modified
    }

    /// The size of the content.
    pub closed spec fn size_spec(&self) -> nat {
        self.size as nat
    }

    /// The size is that of the content.
    pub closed spec fn wf(&self) -> bool {
        self.data@.len() == self.size
    }

    /// Create a block entry by loading the content of the block at the given
    /// address from the stable storage.
    pub fn new<M: Memory>(allocator: &StableAllocator<M>, address: BlockAddress) -> (r: BlockEntry)
        requires
            allocator.wf(),
            valid_block(allocator.storage(), address),
        ensures
            r.wf(),
            r.address_spec() == address,
            r.size_spec() == block_content_size(allocator.storage(), address),
            r.data_spec() == allocator.storage().subrange(
                address as int,
                address + block_content_size(allocator.storage(), address),
            ),
            !r.modified_spec(),
    {
        let header = allocator.read(address - 8, 8);
        let word = vstd::bytes::u64_from_le_bytes(header.as_slice());
        let size = match CheckedU40::from_word(word).verify() {
            Some(s) => s,
            None => 0,
        };
        proof {
            assert(allocator.storage().subrange(address - 8, address as int) == header@);
        }
        let size = size - 8;
        let data = allocator.read(address, size);
        BlockEntry { address, size: size as usize, data, modified: false }
    }

    /// The address of the block.
    pub fn address(&self) -> (r: BlockAddress)
        ensures
            r == self.address_spec(),
    {
        self.address
    }

    /// The size of the content of the block.
    pub fn size(&self) -> (r: usize)
        ensures
            r == self.size_spec(),
    {
        self.size
    }

    /// The content of the block, without its header.
    pub fn data(&self) -> (r: &[u8])
        ensures
            r@ == self.data_spec(),
    {
        self.data.as_slice()
    }

    /// Free this block and give it back to the allocator.
    pub fn free<M: Memory>(self, allocator: &mut StableAllocator<M>)
        requires
            old(allocator).wf(),
        ensures
            final(allocator).wf(),
            free_accepted(old(allocator).holes(), self.address_spec()) ==> {
                let addr = self.address_spec();
                let blk = (addr - 8) as u64;
                let size = header_size(old(allocator).storage(), addr).unwrap();
                let m = merged_hole(old(allocator).holes().levels(), blk, size);
                let ml = merge_levels(old(allocator).holes().levels(), blk, size);
                &&& final(allocator).holes().levels() == push_head(ml, size_class(m.1 as int), m)
                &&& final(allocator).storage() == write_bytes(
                    old(allocator).storage(),
                    m.0 as int,
                    header_bytes(m.1, head_addr(ml[size_class(m.1 as int)])),
                )
            },
            !free_accepted(old(allocator).holes(), self.address_spec()) ==> final(allocator).holes().levels()
                == old(allocator).holes().levels() && final(allocator).storage() == old(allocator).storage(),
    {
        allocator.free(self.address);
    }
}

/// A cached block as the contracts see it: its address, its content, and
/// whether it was modified since it was read.
pub type CachedBlock = (u64, Seq<u8>, bool);

/// The total size of the cached blocks.
pub open spec fn total_size(es: Seq<CachedBlock>) -> int
    decreases es.len(),
{
    if es.len() == 0 {
        0
    } else {
        total_size(es.drop_last()) + es.last().1.len()
    }
}

/// The total size of the modified cached blocks.
pub open spec fn dirty_size(es: Seq<CachedBlock>) -> int
    decreases es.len(),
{
    if es.len() == 0 {
        0
    } else {
        dirty_size(es.drop_last()) + if es.last().2 { es.last().1.len() as int } else { 0 }
    }
}

/// The number of modified cached blocks.
pub open spec fn dirty_count(es: Seq<CachedBlock>) -> nat
    decreases es.len(),
{
    if es.len() == 0 {
        0
    } else {
        dirty_count(es.drop_last()) + if es.last().2 { 1nat } else { 0nat }
    }
}

/// The writes that give the modified blocks back to the storage, in order.
pub open spec fn dirty_writes(es: Seq<CachedBlock>) -> Seq<(u64, Seq<u8>)>
    decreases es.len(),
{
    if es.len() == 0 {
        Seq::empty()
    } else if es.last().2 {
        dirty_writes(es.drop_last()).push((es.last().0, es.last().1))
    } else {
        dirty_writes(es.drop_last())
    }
}

/// The storage after the given writes, in order.
pub open spec fn write_all(storage: Seq<u8>, ws: Seq<(u64, Seq<u8>)>) -> Seq<u8>
    decreases ws.len(),
{
    if ws.len() == 0 {
        storage
    } else {
        write_bytes(write_all(storage, ws.drop_last()), ws.last().0 as int, ws.last().1)
    }
}

/// The eviction policy: scanning from the least recently used block on,
/// drop each block that is not pinned, as long as the total size is above
/// the capacity. Gives the blocks kept, and those dropped in the order they
/// were dropped.
pub open spec fn lru_drop(es: Seq<CachedBlock>, pinned: Set<u64>, size: int, cap: int) -> (Seq<CachedBlock>, Seq<CachedBlock>)
    decreases es.len(),
{
    if es.len() == 0 || size <= cap {
        (es, Seq::empty())
    } else {
        let last = es.last();
        if pinned.contains(last.0) {
            let (k, d) = lru_drop(es.drop_last(), pinned, size, cap);
            (k.push(last), d)
        } else {
            let (k, d) = lru_drop(es.drop_last(), pinned, size - last.1.len(), cap);
            (k, seq![last] + d)
        }
    }
}

/// `i` is the modified block with the lowest address.
pub open spec fn is_min_dirty(es: Seq<CachedBlock>, i: int) -> bool {
    &&& 0 <= i < es.len()
    &&& es[i].2
    &&& forall|j: int| 0 <= j < es.len() && (#[trigger] es[j]).2 ==> es[i].0 <= es[j].0
}

/// The modified block with the lowest address, where there is one.
pub open spec fn min_dirty(es: Seq<CachedBlock>) -> int {
    choose|i: int| is_min_dirty(es, i)
}

/// Marking a modified block unmodified lowers the count of modified blocks.
pub proof fn lemma_dirty_count_clean(es: Seq<CachedBlock>, i: int)
    requires
        0 <= i < es.len(),
        es[i].2,
    ensures
        dirty_count(es.update(i, (es[i].0, es[i].1, false))) + 1 == dirty_count(es),
    decreases es.len(),
{
    let u = es.update(i, (es[i].0, es[i].1, false));
    if i < es.len() - 1 {
        assert(u.drop_last() =~= es.drop_last().update(i, (es[i].0, es[i].1, false)));
        lemma_dirty_count_clean(es.drop_last(), i);
    } else {
        assert(u.drop_last() =~= es.drop_last());
    }
}

/// The write-back policy: while the modified blocks are above the capacity,
/// write back the modified block with the lowest address. Gives the blocks
/// after it, and the writes in order.
pub open spec fn lru_flush(es: Seq<CachedBlock>, dirty: int, cap: int) -> (Seq<CachedBlock>, Seq<(u64, Seq<u8>)>)
    decreases dirty_count(es),
{
    let i = min_dirty(es);
    if dirty <= cap || !is_min_dirty(es, i) {
        (es, Seq::empty())
    } else {
        proof {
            lemma_dirty_count_clean(es, i);
        }
        let e = es[i];
        let (r, w) = lru_flush(es.update(i, (e.0, e.1, false)), dirty - e.1.len(), cap);
        (r, seq![(e.0, e.1)] + w)
    }
}

/// The cached blocks have distinct addresses.
pub open spec fn distinct_addresses(es: Seq<CachedBlock>) -> bool {
    forall|i: int, j: int| 0 <= i < j < es.len() ==> #[trigger] es[i].0 != #[trigger] es[j].0
}

/// The view of a block entry.
pub open spec fn block_view(e: BlockEntry) -> CachedBlock {
    (e.address_spec(), e.data_spec(), e.modified_spec())
}

/// The sums over blocks add up over a concatenation.
pub proof fn lemma_sums_concat(a: Seq<CachedBlock>, b: Seq<CachedBlock>)
    ensures
        total_size(a + b) == total_size(a) + total_size(b),
        dirty_size(a + b) == dirty_size(a) + dirty_size(b),
        dirty_count(a + b) == dirty_count(a) + dirty_count(b),
        dirty_writes(a + b) == dirty_writes(a) + dirty_writes(b),
    decreases b.len(),
{
    if b.len() == 0 {
        assert(a + b =~= a);
        assert(dirty_writes(a) + dirty_writes(b) =~= dirty_writes(a));
    } else {
        lemma_sums_concat(a, b.drop_last());
        assert((a + b).drop_last() =~= a + b.drop_last());
        assert((a + b).last() == b.last());
        if b.last().2 {
            assert(dirty_writes(a + b) =~= dirty_writes(a) + dirty_writes(b));
        }
    }
}

/// The sums over one block.
pub proof fn lemma_sums_one(e: CachedBlock)
    ensures
        total_size(seq![e]) == e.1.len(),
        dirty_size(seq![e]) == if e.2 { e.1.len() as int } else { 0 },
        dirty_count(seq![e]) == if e.2 { 1nat } else { 0nat },
        dirty_writes(seq![e]) == if e.2 { seq![(e.0, e.1)] } else { Seq::empty() },
{
    let s = seq![e];
    assert(s.drop_last() =~= Seq::<CachedBlock>::empty());
    assert(s.last() == e);
    assert(total_size(s.drop_last()) == 0);
    assert(dirty_size(s.drop_last()) == 0);
    assert(dirty_count(s.drop_last()) == 0);
    assert(dirty_writes(s.drop_last()) =~= Seq::<(u64, Seq<u8>)>::empty());
    assert(Seq::<(u64, Seq<u8>)>::empty().push((e.0, e.1)) =~= seq![(e.0, e.1)]);
}

/// The sums over blocks split at an index.
pub proof fn lemma_sums_split(s: Seq<CachedBlock>, i: int)
    requires
        0 <= i < s.len(),
    ensures
        s == s.subrange(0, i) + seq![s[i]] + s.subrange(i + 1, s.len() as int),
        s.remove(i) == s.subrange(0, i) + s.subrange(i + 1, s.len() as int),
        total_size(s) == total_size(s.remove(i)) + s[i].1.len(),
        dirty_size(s) == dirty_size(s.remove(i)) + if s[i].2 { s[i].1.len() as int } else { 0 },
        dirty_count(s) == dirty_count(s.remove(i)) + if s[i].2 { 1nat } else { 0nat },
{
    let a = s.subrange(0, i);
    let b = s.subrange(i + 1, s.len() as int);
    assert(s =~= a + seq![s[i]] + b);
    assert(s.remove(i) =~= a + b);
    lemma_sums_concat(a + seq![s[i]], b);
    lemma_sums_concat(a, seq![s[i]]);
    lemma_sums_concat(a, b);
    lemma_sums_one(s[i]);
}

/// The sums are not negative, and the modified part is within the total.
pub proof fn lemma_sums_bounds(s: Seq<CachedBlock>)
    ensures
        0 <= dirty_size(s) <= total_size(s),
        dirty_size(s) > 0 ==> exists|i: int| 0 <= i < s.len() && (#[trigger] s[i]).2,
    decreases s.len(),
{
    if s.len() > 0 {
        lemma_sums_bounds(s.drop_last());
        if dirty_size(s) > 0 && !s.last().2 {
            let i = choose|i: int| 0 <= i < s.drop_last().len() && (#[trigger] s.drop_last()[i]).2;
            assert(s[i] == s.drop_last()[i]);
        }
        if s.last().2 {
            assert(s[s.len() - 1].2);
        }
    }
}

/// A modified block has the lowest address where its address is below that
/// of every other modified block; with distinct addresses, there is one.
pub proof fn lemma_min_dirty_exists(s: Seq<CachedBlock>)
    requires
        exists|i: int| 0 <= i < s.len() && (#[trigger] s[i]).2,
    ensures
        exists|i: int| is_min_dirty(s, i),
    decreases s.len(),
{
    let t = s.drop_last();
    if exists|i: int| 0 <= i < t.len() && (#[trigger] t[i]).2 {
        lemma_min_dirty_exists(t);
        let m = choose|i: int| is_min_dirty(t, i);
        assert(s[m] == t[m]);
        if s.last().2 && s.last().0 < t[m].0 {
            assert forall|j: int| 0 <= j < s.len() && (#[trigger] s[j]).2 implies s[s.len() - 1].0 <= s[j].0 by {
                if j < s.len() - 1 {
                    assert(s[j] == t[j]);
                }
            }
            assert(is_min_dirty(s, s.len() - 1));
        } else {
            assert forall|j: int| 0 <= j < s.len() && (#[trigger] s[j]).2 implies s[m].0 <= s[j].0 by {
                if j < s.len() - 1 {
                    assert(s[j] == t[j]);
                }
            }
            assert(is_min_dirty(s, m));
        }
    } else {
        let i = choose|i: int| 0 <= i < s.len() && (#[trigger] s[i]).2;
        assert(i == s.len() - 1) by {
            if i < s.len() - 1 {
                assert(t[i] == s[i]);
            }
        }
        assert forall|j: int| 0 <= j < s.len() && (#[trigger] s[j]).2 implies s[i].0 <= s[j].0 by {
            if j < s.len() - 1 {
                assert(t[j] == s[j]);
            }
        }
        assert(is_min_dirty(s, i));
    }
}

/// With distinct addresses, the modified block with the lowest address is
/// the one `min_dirty` names.
pub proof fn lemma_min_dirty_unique(s: Seq<CachedBlock>, i: int)
    requires
        distinct_addresses(s),
        is_min_dirty(s, i),
    ensures
        min_dirty(s) == i,
{
    let m = min_dirty(s);
    assert(is_min_dirty(s, m));
    assert(s[m].0 <= s[i].0 && s[i].0 <= s[m].0);
    if m != i {
        if m < i {
            assert(s[m].0 != s[i].0);
        } else {
            assert(s[i].0 != s[m].0);
        }
    }
}

/// Writing within the storage keeps its length.
pub proof fn lemma_write_all_len(storage: Seq<u8>, ws: Seq<(u64, Seq<u8>)>)
    requires
        forall|i: int| 0 <= i < ws.len() ==> (#[trigger] ws[i]).0 + ws[i].1.len() <= storage.len(),
    ensures
        write_all(storage, ws).len() == storage.len(),
    decreases ws.len(),
{
    if ws.len() > 0 {
        let t = ws.drop_last();
        assert forall|i: int| 0 <= i < t.len() implies (#[trigger] t[i]).0 + t[i].1.len() <= storage.len() by {
            assert(t[i] == ws[i]);
        }
        lemma_write_all_len(storage, t);
        assert(ws[ws.len() - 1] == ws.last());
    }
}


/// The pin counts after one more pin of `a`.
pub open spec fn pinned_once(m: Map<u64, nat>, a: u64) -> Map<u64, nat> {
    m.insert(a, if m.dom().contains(a) { m[a] + 1 } else { 1 })
}

/// The pin counts after one unpin of `a`: a count that reaches zero goes.
pub open spec fn unpinned_once(m: Map<u64, nat>, a: u64) -> Map<u64, nat> {
    if !m.dom().contains(a) {
        m
    } else if m[a] <= 1 {
        m.remove(a)
    } else {
        m.insert(a, (m[a] - 1) as nat)
    }
}

/// Law: unpinning an address undoes pinning it.
pub proof fn lemma_unpin_undoes_pin(m: Map<u64, nat>, a: u64)
    requires
        forall|x: u64| #[trigger] m.dom().contains(x) ==> m[x] >= 1,
    ensures
        unpinned_once(pinned_once(m, a), a) == m,
{
    if m.dom().contains(a) {
        assert(pinned_once(m, a).insert(a, m[a]) =~= m);
    } else {
        assert(pinned_once(m, a).remove(a) =~= m);
    }
}

/// A least-recently-used cache of the blocks of the stable storage.
pub struct LruCache<M> {
    config: LruCacheConfig,
    /// The cached blocks, the most recently used first.
    entries: Vec<BlockEntry>,
    /// The number of live references of each pinned address; never zero.
    ref_count: Vec<(u64, usize)>,
    /// The total size of the cached blocks.
    size: u64,
    /// The total size of the modified cached blocks.
    modified_size: u64,
    memory: PhantomData<M>,
}

impl<M: Memory> LruCache<M> {
    /// The cached blocks, the most recently used first.
    pub closed spec fn blocks(&self) -> Seq<CachedBlock> {
        self.entries@.map_values(|e: BlockEntry| block_view(e))
    }

    /// The number of live references to each pinned address.
    pub closed spec fn pins(&self) -> Map<u64, nat> {
        Map::new(
            |a: u64| exists|i: int| 0 <= i < self.ref_count@.len() && self.ref_count@[i].0 == a,
            |a: u64| {
                let i = choose|i: int| 0 <= i < self.ref_count@.len() && self.ref_count@[i].0 == a;
                self.ref_count@[i].1 as nat
            },
        )
    }

    /// The configuration.
    pub closed spec fn config_spec(&self) -> LruCacheConfig {
        self.config
    }

    /// The total size of the cached blocks, as kept.
    pub closed spec fn size_spec(&self) -> u64 {
        self.size
    }

    /// The total size of the modified cached blocks, as kept.
    pub closed spec fn modified_size_spec(&self) -> u64 {
        self.modified_size
    }

    /// The cache is well formed: its blocks have distinct addresses and their
    /// sizes add up to the totals it keeps; each pin count is above zero.
    pub closed spec fn wf(&self) -> bool {
        &&& forall|i: int| 0 <= i < self.entries@.len() ==> (#[trigger] self.entries@[i]).wf()
        &&& distinct_addresses(self.blocks())
        &&& self.size == total_size(self.blocks())
        &&& self.modified_size == dirty_size(self.blocks())
        &&& forall|i: int, j: int| 0 <= i < j < self.ref_count@.len() ==> #[trigger] self.ref_count@[i].0 != #[trigger] self.ref_count@[j].0
        &&& forall|i: int| 0 <= i < self.ref_count@.len() ==> (#[trigger] self.ref_count@[i]).1 >= 1
    }

    /// Every cached block lies within a storage of `len` bytes.
    pub open spec fn fits(&self, len: int) -> bool {
        forall|i: int| 0 <= i < self.blocks().len() ==> (#[trigger] self.blocks()[i]).0 + self.blocks()[i].1.len() <= len
    }

    /// A new, empty cache with the given configuration.
    pub fn new(config: LruCacheConfig) -> (r: Self)
        ensures
            r.wf(),
            r.blocks() == Seq::<CachedBlock>::empty(),
            r.pins() == Map::<u64, nat>::empty(),
            r.config_spec() == config,
    {
        let r = LruCache { config, entries: Vec::new(), ref_count: Vec::new(), size: 0, modified_size: 0, memory: PhantomData };
        proof {
            assert(r.blocks() =~= Seq::<CachedBlock>::empty());
            assert(r.pins() =~= Map::<u64, nat>::empty());
        }
        r
    }

    /// The index of the pin count of `address`, if it is pinned.
    fn find_pin(&self, address: u64) -> (r: Option<usize>)
        ensures
            r is None <==> forall|i: int| 0 <= i < self.ref_count@.len() ==> self.ref_count@[i].0 != address,
            r matches Some(i) ==> i < self.ref_count@.len() && self.ref_count@[i as int].0 == address,
    {
        let mut i: usize = 0;
        while i < self.ref_count.len()
            invariant
                i <= self.ref_count@.len(),
                forall|j: int| 0 <= j < i ==> self.ref_count@[j].0 != address,
            decreases self.ref_count@.len() - i,
        {
            if self.ref_count[i].0 == address {
                return Some(i);
            }
            i = i + 1;
        }
        None
    }

    /// The pin count of a pinned address is at its index.
    proof fn lemma_pin_at(&self, i: int)
        requires
            self.wf(),
            0 <= i < self.ref_count@.len(),
        ensures
            self.pins().dom().contains(self.ref_count@[i].0),
            self.pins()[self.ref_count@[i].0] == self.ref_count@[i].1,
    {
        let a = self.ref_count@[i].0;
        let j = choose|j: int| 0 <= j < self.ref_count@.len() && self.ref_count@[j].0 == a;
        if j != i {
            if j < i {
                assert(self.ref_count@[j].0 != self.ref_count@[i].0);
            } else {
                assert(self.ref_count@[i].0 != self.ref_count@[j].0);
            }
        }
    }

    /// Increment the reference count of a block, so that it is not dropped.
    pub fn pin(&mut self, address: BlockAddress)
        requires
            old(self).wf(),
            old(self).pins().dom().contains(address) ==> old(self).pins()[address] < usize::MAX,
        ensures
            final(self).wf(),
            final(self).pins() == pinned_once(old(self).pins(), address),
            final(self).blocks() == old(self).blocks(),
            final(self).config_spec() == old(self).config_spec(),
            final(self).size_spec() == old(self).size_spec(),
            final(self).modified_size_spec() == old(self).modified_size_spec(),
    {
        let ghost old_rc = self.ref_count@;
        match self.find_pin(address) {
            Some(i) => {
                proof {
                    self.lemma_pin_at(i as int);
                }
                let c = self.ref_count[i].1;
                self.ref_count.set(i, (address, c + 1));
                proof {
                    let rc = self.ref_count@;
                    assert forall|x: int, y: int| 0 <= x < y < rc.len() implies #[trigger] rc[x].0 != #[trigger] rc[y].0 by {
                        assert(rc[x].0 == old_rc[x].0 && rc[y].0 == old_rc[y].0);
                    }
                    assert forall|x: int| 0 <= x < rc.len() implies (#[trigger] rc[x]).1 >= 1 by {
                        if x != i {
                            assert(rc[x] == old_rc[x]);
                        }
                    }
                    assert forall|a: u64| #[trigger] self.pins().dom().contains(a) <==> old(self).pins().insert(address, (c + 1) as nat).dom().contains(a) by {
                        if old(self).pins().dom().contains(a) {
                            let j = choose|j: int| 0 <= j < old_rc.len() && old_rc[j].0 == a;
                            assert(rc[j].0 == a);
                        }
                        if self.pins().dom().contains(a) {
                            let j = choose|j: int| 0 <= j < rc.len() && rc[j].0 == a;
                            assert(old_rc[j].0 == a);
                        }
                        if a == address {
                            assert(rc[i as int].0 == a);
                        }
                    }
                    assert forall|a: u64| #[trigger] self.pins().dom().contains(a) implies self.pins()[a] == old(self).pins().insert(address, (c + 1) as nat)[a] by {
                        let j = choose|j: int| 0 <= j < rc.len() && rc[j].0 == a;
                        self.lemma_pin_at(j);
                        if a != address {
                            assert(old_rc[j] == rc[j]);
                            old(self).lemma_pin_at(j);
                        } else {
                            assert(j == i) by {
                                if j != i {
                                    if j < i {
                                        assert(rc[j].0 != rc[i as int].0);
                                    } else {
                                        assert(rc[i as int].0 != rc[j].0);
                                    }
                                }
                            }
                        }
                    }
                    assert(self.pins() =~= old(self).pins().insert(address, (c + 1) as nat));
                }
            },
            None => {
                self.ref_count.push((address, 1));
                proof {
                    let rc = self.ref_count@;
                    assert(!old(self).pins().dom().contains(address));
                    assert forall|x: int, y: int| 0 <= x < y < rc.len() implies #[trigger] rc[x].0 != #[trigger] rc[y].0 by {
                        assert(rc[x] == old_rc[x]);
                        if y < old_rc.len() {
                            assert(rc[y] == old_rc[y]);
                        }
                    }
                    assert forall|a: u64| #[trigger] self.pins().dom().contains(a) <==> old(self).pins().insert(address, 1).dom().contains(a) by {
                        if old(self).pins().dom().contains(a) {
                            let j = choose|j: int| 0 <= j < old_rc.len() && old_rc[j].0 == a;
                            assert(rc[j].0 == a);
                        }
                        if self.pins().dom().contains(a) && a != address {
                            let j = choose|j: int| 0 <= j < rc.len() && rc[j].0 == a;
                            assert(old_rc[j].0 == a);
                        }
                        if a == address {
                            assert(rc[old_rc.len() as int].0 == a);
                        }
                    }
                    assert forall|a: u64| #[trigger] self.pins().dom().contains(a) implies self.pins()[a] == old(self).pins().insert(address, 1)[a] by {
                        let j = choose|j: int| 0 <= j < rc.len() && rc[j].0 == a;
                        self.lemma_pin_at(j);
                        if a != address {
                            assert(old_rc[j] == rc[j]);
                            old(self).lemma_pin_at(j);
                        }
                    }
                    assert(self.pins() =~= old(self).pins().insert(address, 1));
                }
            },
        }
    }

    /// Decrement the reference count of a block; at zero, the block is no
    /// longer pinned.
    pub fn unpin(&mut self, address: BlockAddress)
        requires
            old(self).wf(),
        ensures
            final(self).wf(),
            final(self).pins() == unpinned_once(old(self).pins(), address),
            final(self).blocks() == old(self).blocks(),
            final(self).config_spec() == old(self).config_spec(),
            final(self).size_spec() == old(self).size_spec(),
            final(self).modified_size_spec() == old(self).modified_size_spec(),
    {
        let ghost old_rc = self.ref_count@;
        match self.find_pin(address) {
            Some(i) => {
                proof {
                    self.lemma_pin_at(i as int);
                }
                let c = self.ref_count[i].1;
                if c <= 1 {
                    self.ref_count.remove(i);
                    proof {
                        let rc = self.ref_count@;
                        assert forall|x: int, y: int| 0 <= x < y < rc.len() implies #[trigger] rc[x].0 != #[trigger] rc[y].0 by {
                            let ox = if x < i { x } else { x + 1 };
                            let oy = if y < i { y } else { y + 1 };
                            assert(rc[x] == old_rc[ox] && rc[y] == old_rc[oy]);
                        }
                        assert forall|x: int| 0 <= x < rc.len() implies (#[trigger] rc[x]).1 >= 1 by {
                            let ox = if x < i { x } else { x + 1 };
                            assert(rc[x] == old_rc[ox]);
                        }
                        assert forall|a: u64| #[trigger] self.pins().dom().contains(a) <==> old(self).pins().remove(address).dom().contains(a) by {
                            if old(self).pins().dom().contains(a) && a != address {
                                let j = choose|j: int| 0 <= j < old_rc.len() && old_rc[j].0 == a;
                                assert(j != i);
                                let nj = if j < i { j } else { j - 1 };
                                assert(rc[nj].0 == a);
                            }
                            if self.pins().dom().contains(a) {
                                let j = choose|j: int| 0 <= j < rc.len() && rc[j].0 == a;
                                let oj = if j < i { j } else { j + 1 };
                                assert(old_rc[oj].0 == a);
                                assert(oj != i);
                            }
                        }
                        assert forall|a: u64| #[trigger] self.pins().dom().contains(a) implies self.pins()[a] == old(self).pins()[a] by {
                            let j = choose|j: int| 0 <= j < rc.len() && rc[j].0 == a;
                            let oj = if j < i { j } else { j + 1 };
                            self.lemma_pin_at(j);
                            assert(old_rc[oj] == rc[j]);
                            old(self).lemma_pin_at(oj);
                        }
                        assert(self.pins() =~= old(self).pins().remove(address));
                    }
                } else {
                    self.ref_count.set(i, (address, c - 1));
                    proof {
                        let rc = self.ref_count@;
                        assert forall|x: int, y: int| 0 <= x < y < rc.len() implies #[trigger] rc[x].0 != #[trigger] rc[y].0 by {
                            assert(rc[x].0 == old_rc[x].0 && rc[y].0 == old_rc[y].0);
                        }
                        assert forall|x: int| 0 <= x < rc.len() implies (#[trigger] rc[x]).1 >= 1 by {
                            if x != i {
                                assert(rc[x] == old_rc[x]);
                            }
                        }
                        assert forall|a: u64| #[trigger] self.pins().dom().contains(a) <==> old(self).pins().dom().contains(a) by {
                            if old(self).pins().dom().contains(a) {
                                let j = choose|j: int| 0 <= j < old_rc.len() && old_rc[j].0 == a;
                                assert(rc[j].0 == a);
                            }
                            if self.pins().dom().contains(a) {
                                let j = choose|j: int| 0 <= j < rc.len() && rc[j].0 == a;
                                assert(old_rc[j].0 == a);
                            }
                        }
                        assert forall|a: u64| #[trigger] self.pins().dom().contains(a) implies self.pins()[a] == old(self).pins().insert(address, (c - 1) as nat)[a] by {
                            let j = choose|j: int| 0 <= j < rc.len() && rc[j].0 == a;
                            self.lemma_pin_at(j);
                            if a != address {
                                assert(old_rc[j] == rc[j]);
                                old(self).lemma_pin_at(j);
                            } else {
                                assert(j == i) by {
                                    if j != i {
                                        if j < i {
                                            assert(rc[j].0 != rc[i as int].0);
                                        } else {
                                            assert(rc[i as int].0 != rc[j].0);
                                        }
                                    }
                                }
                            }
                        }
                        assert(self.pins() =~= old(self).pins().insert(address, (c - 1) as nat));
                    }
                }
            },
            None => {
                proof {
                    assert forall|a: u64| self.pins().dom().contains(a) implies a != address by {
                        let j = choose|j: int| 0 <= j < old_rc.len() && old_rc[j].0 == a;
                    }
                }
            },
        }
    }
}

impl<M: Memory> LruCache<M> {
    /// The index of the cached block at `address`, if it is cached.
    fn find_entry(&self, address: u64) -> (r: Option<usize>)
        requires
            self.wf(),
        ensures
            r is None <==> forall|i: int| 0 <= i < self.blocks().len() ==> self.blocks()[i].0 != address,
            r matches Some(i) ==> i < self.blocks().len() && self.blocks()[i as int].0 == address,
    {
        let mut i: usize = 0;
        while i < self.entries.len()
            invariant
                i <= self.entries@.len(),
                self.blocks().len() == self.entries@.len(),
                forall|j: int| 0 <= j < i ==> self.blocks()[j].0 != address,
            decreases self.entries@.len() - i,
        {
            proof {
                assert(self.blocks()[i as int] == block_view(self.entries@[i as int]));
            }
            if self.entries[i].address == address {
                return Some(i);
            }
            i = i + 1;
        }
        None
    }

    /// Load the block at `address` into the cache, where it is not cached,
    /// and make it the most recently used one.
    #[verifier::spinoff_prover]
    #[verifier::rlimit(60)]
    fn load_internal(&mut self, allocator: &StableAllocator<M>, address: BlockAddress)
        requires
            old(self).wf(),
            allocator.wf(),
            old(self).fits(allocator.storage().len() as int),
            (forall|i: int| 0 <= i < old(self).blocks().len() ==> old(self).blocks()[i].0 != address) ==> {
                &&& valid_block(allocator.storage(), address)
                &&& old(self).size_spec() + block_content_size(allocator.storage(), address) <= u64::MAX
            },
        ensures
            final(self).wf(),
            final(self).fits(allocator.storage().len() as int),
            final(self).pins() == old(self).pins(),
            final(self).config_spec() == old(self).config_spec(),
            final(self).modified_size_spec() == old(self).modified_size_spec(),
            forall|i: int| 0 <= i < old(self).blocks().len() && old(self).blocks()[i].0 == address ==> {
                &&& final(self).blocks() == seq![old(self).blocks()[i]] + old(self).blocks().remove(i)
                &&& final(self).size_spec() == old(self).size_spec()
            },
            (forall|i: int| 0 <= i < old(self).blocks().len() ==> old(self).blocks()[i].0 != address) ==> {
                let cs = block_content_size(allocator.storage(), address);
                &&& final(self).blocks() == seq![(address, allocator.storage().subrange(address as int, address + cs), false)]
                    + old(self).blocks()
                &&& final(self).size_spec() == old(self).size_spec() + cs
            },
    {
        let ghost old_blocks = self.blocks();
        match self.find_entry(address) {
            Some(i) => {
                let e = self.entries.remove(i);
                self.entries.insert(0, e);
                proof {
                    let b = self.blocks();
                    assert(b =~= seq![old_blocks[i as int]] + old_blocks.remove(i as int));
                    lemma_sums_split(old_blocks, i as int);
                    lemma_sums_concat(seq![old_blocks[i as int]], old_blocks.remove(i as int));
                    lemma_sums_one(old_blocks[i as int]);
                    assert forall|x: int| 0 <= x < self.entries@.len() implies (#[trigger] self.entries@[x]).wf() by {
                        if x > 0 {
                            let ox = if x - 1 < i { x - 1 } else { x };
                            assert(self.entries@[x] == old(self).entries@[ox]);
                        }
                    }
                    assert forall|x: int, y: int| 0 <= x < y < b.len() implies #[trigger] b[x].0 != #[trigger] b[y].0 by {
                        let ox = if x == 0 { i as int } else if x - 1 < i { x - 1 } else { x };
                        let oy = if y - 1 < i { y - 1 } else { y };
                        assert(b[x] == old_blocks[ox] && b[y] == old_blocks[oy]);
                        assert(ox != oy);
                    }
                    assert forall|x: int| 0 <= x < b.len() implies (#[trigger] b[x]).0 + b[x].1.len() <= allocator.storage().len() by {
                        let ox = if x == 0 { i as int } else if x - 1 < i { x - 1 } else { x };
                        assert(b[x] == old_blocks[ox]);
                    }
                }
            },
            None => {
                let e = BlockEntry::new(allocator, address);
                let sz = e.size;
                self.size = self.size + sz as u64;
                self.entries.insert(0, e);
                proof {
                    let b = self.blocks();
                    assert(b =~= seq![block_view(e)] + old_blocks);
                    lemma_sums_concat(seq![block_view(e)], old_blocks);
                    lemma_sums_one(block_view(e));
                    assert forall|x: int| 0 <= x < self.entries@.len() implies (#[trigger] self.entries@[x]).wf() by {
                        if x > 0 {
                            assert(self.entries@[x] == old(self).entries@[x - 1]);
                        }
                    }
                    assert forall|x: int, y: int| 0 <= x < y < b.len() implies #[trigger] b[x].0 != #[trigger] b[y].0 by {
                        assert(b[y] == old_blocks[y - 1]);
                        if x > 0 {
                            assert(b[x] == old_blocks[x - 1]);
                        }
                    }
                    assert forall|x: int| 0 <= x < b.len() implies (#[trigger] b[x]).0 + b[x].1.len() <= allocator.storage().len() by {
                        if x > 0 {
                            assert(b[x] == old_blocks[x - 1]);
                        }
                    }
                }
            },
        }
    }

    /// The content of the block at `address`, which becomes the most recently
    /// used block; it is loaded from the storage where it is not cached.
    pub fn get(&mut self, allocator: &StableAllocator<M>, address: BlockAddress) -> (r: &[u8])
        requires
            old(self).wf(),
            allocator.wf(),
            old(self).fits(allocator.storage().len() as int),
            (forall|i: int| 0 <= i < old(self).blocks().len() ==> old(self).blocks()[i].0 != address) ==> {
                &&& valid_block(allocator.storage(), address)
                &&& old(self).size_spec() + block_content_size(allocator.storage(), address) <= u64::MAX
            },
        ensures
            final(self).wf(),
            final(self).fits(allocator.storage().len() as int),
            final(self).pins() == old(self).pins(),
            final(self).config_spec() == old(self).config_spec(),
            final(self).modified_size_spec() == old(self).modified_size_spec(),
            forall|i: int| 0 <= i < old(self).blocks().len() && old(self).blocks()[i].0 == address ==> {
                &&& final(self).blocks() == seq![old(self).blocks()[i]] + old(self).blocks().remove(i)
                &&& final(self).size_spec() == old(self).size_spec()
            },
            (forall|i: int| 0 <= i < old(self).blocks().len() ==> old(self).blocks()[i].0 != address) ==> {
                let cs = block_content_size(allocator.storage(), address);
                &&& final(self).blocks() == seq![(address, allocator.storage().subrange(address as int, address + cs), false)]
                    + old(self).blocks()
                &&& final(self).size_spec() == old(self).size_spec() + cs
            },
            r@ == final(self).blocks()[0].1,
    {
        self.load_internal(allocator, address);
        self.entries[0].data()
    }

    /// Remove the block at `address` from the cache: the block is being
    /// freed, so its content, modified or not, is dropped. Its pins stay.
    pub fn free(&mut self, address: BlockAddress)
        requires
            old(self).wf(),
        ensures
            final(self).wf(),
            final(self).config_spec() == old(self).config_spec(),
            final(self).pins() == old(self).pins(),
            forall|i: int| 0 <= i < old(self).blocks().len() && old(self).blocks()[i].0 == address ==> final(self).blocks()
                == old(self).blocks().remove(i),
            (forall|i: int| 0 <= i < old(self).blocks().len() ==> old(self).blocks()[i].0 != address) ==> final(self).blocks()
                == old(self).blocks(),
            final(self).size_spec() == total_size(final(self).blocks()),
            final(self).modified_size_spec() == dirty_size(final(self).blocks()),
            forall|i: int| 0 <= i < old(self).blocks().len() && old(self).blocks()[i].0 == address ==> {
                &&& final(self).size_spec() == old(self).size_spec() - old(self).blocks()[i].1.len()
                &&& final(self).modified_size_spec() == old(self).modified_size_spec() - (if old(self).blocks()[i].2 {
                    old(self).blocks()[i].1.len() as int
                } else {
                    0int
                })
            },
    {
        let ghost old_blocks = self.blocks();
        if let Some(i) = self.find_entry(address) {
            proof {
                lemma_sums_split(old_blocks, i as int);
                lemma_sums_bounds(old_blocks.remove(i as int));
            }
            let e = self.entries.remove(i);
            self.size = self.size - e.size as u64;
            if e.modified {
                self.modified_size = self.modified_size - e.size as u64;
            }
            proof {
                let b = self.blocks();
                assert(b =~= old_blocks.remove(i as int));
                assert forall|x: int| 0 <= x < self.entries@.len() implies (#[trigger] self.entries@[x]).wf() by {
                    let ox = if x < i { x } else { x + 1 };
                    assert(self.entries@[x] == old(self).entries@[ox]);
                }
                assert forall|x: int, y: int| 0 <= x < y < b.len() implies #[trigger] b[x].0 != #[trigger] b[y].0 by {
                    let ox = if x < i { x } else { x + 1 };
                    let oy = if y < i { y } else { y + 1 };
                    assert(b[x] == old_blocks[ox] && b[y] == old_blocks[oy]);
                }
            }
        }
        proof {
            assert(self.pins() =~= old(self).pins());
            if exists|i: int| 0 <= i < old_blocks.len() && old_blocks[i].0 == address {
                let c = choose|i: int| 0 <= i < old_blocks.len() && old_blocks[i].0 == address;
                assert forall|i: int| 0 <= i < old_blocks.len() && old_blocks[i].0 == address implies i == c by {
                    if i != c {
                        if i < c {
                            assert(old_blocks[i].0 != old_blocks[c].0);
                        } else {
                            assert(old_blocks[c].0 != old_blocks[i].0);
                        }
                    }
                }
            }
        }
    }
}

/// Scanning a prefix: the policy over the blocks is that over a prefix,
/// followed by the policy's steps over the rest.
proof fn lemma_lru_drop_step(es: Seq<CachedBlock>, pinned: Set<u64>, size: int, cap: int, i: int)
    requires
        0 < i <= es.len(),
        size > cap,
    ensures
        ({
            let e = es[i - 1];
            let (k, d) = lru_drop(es.take(i), pinned, size, cap);
            if pinned.contains(e.0) {
                let (k1, d1) = lru_drop(es.take(i - 1), pinned, size, cap);
                k == k1.push(e) && d == d1
            } else {
                let (k1, d1) = lru_drop(es.take(i - 1), pinned, size - e.1.len(), cap);
                k == k1 && d == seq![e] + d1
            }
        }),
{
    assert(es.take(i).drop_last() =~= es.take(i - 1));
    assert(es.take(i).last() == es[i - 1]);
}

impl<M: Memory> LruCache<M> {
    /// The set of pinned addresses.
    pub open spec fn pinned(&self) -> Set<u64> {
        self.pins().dom()
    }

    /// Whether `address` is pinned.
    fn is_pinned(&self, address: u64) -> (r: bool)
        requires
            self.wf(),
        ensures
            r == self.pinned().contains(address),
    {
        match self.find_pin(address) {
            Some(j) => {
                proof {
                    self.lemma_pin_at(j as int);
                }
                true
            },
            None => {
                proof {
                    if self.pinned().contains(address) {
                        let j = choose|j: int| 0 <= j < self.ref_count@.len() && self.ref_count@[j].0 == address;
                    }
                }
                false
            },
        }
    }

    /// Drop the least recently used blocks that are not pinned, as long as
    /// the cache holds more than its capacity; modified blocks are written
    /// back as they are dropped.
    #[verifier::spinoff_prover]
    #[verifier::rlimit(60)]
    fn drop_least_recently_used(&mut self, allocator: &mut StableAllocator<M>)
        requires
            old(self).wf(),
            old(allocator).wf(),
            old(self).fits(old(allocator).storage().len() as int),
        ensures
            final(self).wf(),
            final(allocator).wf(),
            final(self).fits(final(allocator).storage().len() as int),
            final(allocator).storage().len() == old(allocator).storage().len(),
            final(allocator).holes().levels() == old(allocator).holes().levels(),
            final(allocator).holes().right_boundary() == old(allocator).holes().right_boundary(),
            final(allocator).holes().left_boundary() == old(allocator).holes().left_boundary(),
            final(self).pins() == old(self).pins(),
            final(self).config_spec() == old(self).config_spec(),
            ({
                let (k, d) = lru_drop(old(self).blocks(), old(self).pinned(), old(self).size_spec() as int,
                    old(self).config_spec().total_capacity as int);
                &&& final(self).blocks() == k
                &&& final(allocator).storage() == write_all(old(allocator).storage(), dirty_writes(d))
            }),
    {
        let ghost orig = self.blocks();
        let ghost orig_size = self.size as int;
        let ghost pinned = self.pinned();
        let ghost cap = self.config.total_capacity as int;
        let ghost orig_storage = allocator.storage();
        let ghost mut dropped: Seq<CachedBlock> = Seq::empty();
        let mut i = self.entries.len();
        proof {
            assert(self.blocks().take(i as int) =~= self.blocks());
            assert(self.blocks().skip(i as int) =~= Seq::<CachedBlock>::empty());
            assert(dirty_writes(dropped) =~= Seq::<(u64, Seq<u8>)>::empty());
            assert(Seq::<CachedBlock>::empty() + lru_drop(orig, pinned, orig_size, cap).1 =~= lru_drop(orig, pinned, orig_size, cap).1);
        }
        while i > 0 && self.config.total_capacity < self.size
            invariant
                self.wf(),
                allocator.wf(),
                i <= self.entries@.len(),
                self.fits(orig_storage.len() as int),
                allocator.storage().len() == orig_storage.len(),
                allocator.holes().levels() == old(allocator).holes().levels(),
                allocator.holes().right_boundary() == old(allocator).holes().right_boundary(),
                allocator.holes().left_boundary() == old(allocator).holes().left_boundary(),
                self.pins() == old(self).pins(),
                self.config_spec() == old(self).config_spec(),
                pinned == self.pinned(),
                cap == self.config_spec().total_capacity,
                ({
                    let (k, d) = lru_drop(self.blocks().take(i as int), pinned, self.size as int, cap);
                    lru_drop(orig, pinned, orig_size, cap) == (k + self.blocks().skip(i as int), dropped + d)
                }),
                allocator.storage() == write_all(orig_storage, dirty_writes(dropped)),
            decreases i,
        {
            i = i - 1;
            let ghost before = self.blocks();
            let ghost before_entries = self.entries@;
            let ghost before_size = self.size as int;
            proof {
                lemma_lru_drop_step(before, pinned, before_size, cap, i + 1);
                assert(before[i as int] == block_view(self.entries@[i as int]));
            }
            let address = self.entries[i].address;
            if !self.is_pinned(address) {
                proof {
                    lemma_sums_split(before, i as int);
                    lemma_sums_bounds(before.remove(i as int));
                }
                let e = self.entries.remove(i);
                if e.modified {
                    proof {
                        assert(e.address + e.data@.len() <= orig_storage.len());
                    }
                    allocator.write(e.address, e.data.as_slice());
                    self.modified_size = self.modified_size - e.size as u64;
                }
                self.size = self.size - e.size as u64;
                proof {
                    let b = self.blocks();
                    let ev = block_view(e);
                    assert(b =~= before.remove(i as int));
                    assert(b.take(i as int) =~= before.take(i as int));
                    assert(b.skip(i as int) =~= before.skip(i + 1));
                    assert forall|x: int| 0 <= x < self.entries@.len() implies (#[trigger] self.entries@[x]).wf() by {
                        let ox = if x < i { x } else { x + 1 };
                        assert(self.entries@[x] == before_entries[ox]);
                    }
                    assert forall|x: int, y: int| 0 <= x < y < b.len() implies #[trigger] b[x].0 != #[trigger] b[y].0 by {
                        let ox = if x < i { x } else { x + 1 };
                        let oy = if y < i { y } else { y + 1 };
                        assert(b[x] == before[ox] && b[y] == before[oy]);
                    }
                    assert forall|x: int| 0 <= x < b.len() implies (#[trigger] b[x]).0 + b[x].1.len() <= orig_storage.len() by {
                        let ox = if x < i { x } else { x + 1 };
                        assert(b[x] == before[ox]);
                    }
                    let nd = dropped.push(ev);
                    assert(nd.drop_last() =~= dropped);
                    assert(nd.last() == ev);
                    if ev.2 {
                        let ws = dirty_writes(dropped);
                        assert(dirty_writes(nd) == ws.push((ev.0, ev.1)));
                        assert(ws.push((ev.0, ev.1)).drop_last() =~= ws);
                        assert(write_all(orig_storage, ws.push((ev.0, ev.1))) == write_bytes(
                            write_all(orig_storage, ws), ev.0 as int, ev.1));
                    } else {
                        assert(dirty_writes(nd) == dirty_writes(dropped));
                    }
                    assert(dropped + (seq![ev] + lru_drop(b.take(i as int), pinned, self.size as int, cap).1) =~= nd
                        + lru_drop(b.take(i as int), pinned, self.size as int, cap).1);
                    dropped = nd;
                }
            } else {
                proof {
                    let b = self.blocks();
                    assert(b.take(i + 1) =~= b.take(i as int).push(b[i as int]));
                    assert(b.skip(i as int) =~= seq![b[i as int]] + b.skip(i + 1));
                    let (k1, d1) = lru_drop(b.take(i as int), pinned, self.size as int, cap);
                    assert(k1.push(b[i as int]) + b.skip(i + 1) =~= k1 + b.skip(i as int));
                }
            }
        }
        proof {
            let b = self.blocks();
            assert(b.take(i as int) + b.skip(i as int) =~= b);
            assert(dropped + Seq::<CachedBlock>::empty() =~= dropped);
        }
    }
}

impl<M: Memory> LruCache<M> {
    /// The index of the modified block with the lowest address.
    fn min_dirty_index(&self) -> (r: usize)
        requires
            self.wf(),
            exists|i: int| 0 <= i < self.blocks().len() && (#[trigger] self.blocks()[i]).2,
        ensures
            is_min_dirty(self.blocks(), r as int),
            r == min_dirty(self.blocks()),
    {
        let ghost b = self.blocks();
        let mut best: Option<usize> = None;
        let mut i: usize = 0;
        while i < self.entries.len()
            invariant
                i <= self.entries@.len(),
                b == self.blocks(),
                b.len() == self.entries@.len(),
                best is None ==> forall|j: int| 0 <= j < i ==> !(#[trigger] b[j]).2,
                best matches Some(m) ==> m < i && b[m as int].2 && forall|j: int| 0 <= j < i && (#[trigger] b[j]).2 ==> b[m as int].0
                    <= b[j].0,
            decreases self.entries@.len() - i,
        {
            proof {
                assert(b[i as int] == block_view(self.entries@[i as int]));
            }
            if self.entries[i].modified {
                match best {
                    None => {
                        best = Some(i);
                    },
                    Some(m) => {
                        proof {
                            assert(b[m as int] == block_view(self.entries@[m as int]));
                        }
                        if self.entries[i].address < self.entries[m].address {
                            best = Some(i);
                        }
                    },
                }
            }
            i = i + 1;
        }
        match best {
            Some(m) => {
                proof {
                    lemma_min_dirty_unique(b, m as int);
                }
                m
            },
            None => {
                proof {
                    let w = choose|j: int| 0 <= j < b.len() && (#[trigger] b[j]).2;
                    assert(!b[w].2);
                }
                0
            },
        }
    }

    /// Write modified blocks back, the lowest address first, until the
    /// modified blocks are within their capacity.
    #[verifier::spinoff_prover]
    #[verifier::rlimit(60)]
    fn write_modified(&mut self, allocator: &mut StableAllocator<M>)
        requires
            old(self).wf(),
            old(allocator).wf(),
            old(self).fits(old(allocator).storage().len() as int),
        ensures
            final(self).wf(),
            final(allocator).wf(),
            final(self).fits(final(allocator).storage().len() as int),
            final(allocator).storage().len() == old(allocator).storage().len(),
            final(allocator).holes().levels() == old(allocator).holes().levels(),
            final(allocator).holes().right_boundary() == old(allocator).holes().right_boundary(),
            final(allocator).holes().left_boundary() == old(allocator).holes().left_boundary(),
            final(self).pins() == old(self).pins(),
            final(self).config_spec() == old(self).config_spec(),
            final(self).size_spec() == old(self).size_spec(),
            ({
                let (k, w) = lru_flush(old(self).blocks(), old(self).modified_size_spec() as int,
                    old(self).config_spec().modified_capacity as int);
                &&& final(self).blocks() == k
                &&& final(allocator).storage() == write_all(old(allocator).storage(), w)
            }),
    {
        let ghost orig = self.blocks();
        let ghost orig_msize = self.modified_size as int;
        let ghost cap = self.config.modified_capacity as int;
        let ghost orig_storage = allocator.storage();
        let ghost mut written: Seq<(u64, Seq<u8>)> = Seq::empty();
        proof {
            assert(Seq::<(u64, Seq<u8>)>::empty() + lru_flush(orig, orig_msize, cap).1 =~= lru_flush(orig, orig_msize, cap).1);
        }
        while self.config.modified_capacity < self.modified_size
            invariant
                self.wf(),
                allocator.wf(),
                self.fits(orig_storage.len() as int),
                allocator.storage().len() == orig_storage.len(),
                allocator.holes().levels() == old(allocator).holes().levels(),
                allocator.holes().right_boundary() == old(allocator).holes().right_boundary(),
                allocator.holes().left_boundary() == old(allocator).holes().left_boundary(),
                self.pins() == old(self).pins(),
                self.config_spec() == old(self).config_spec(),
                self.size_spec() == old(self).size_spec(),
                cap == self.config_spec().modified_capacity,
                ({
                    let (k, w) = lru_flush(self.blocks(), self.modified_size as int, cap);
                    lru_flush(orig, orig_msize, cap) == (k, written + w)
                }),
                allocator.storage() == write_all(orig_storage, written),
            decreases dirty_count(self.blocks()),
        {
            let ghost before = self.blocks();
            let ghost before_entries = self.entries@;
            proof {
                lemma_sums_bounds(before);
                lemma_min_dirty_exists(before);
            }
            let j = self.min_dirty_index();
            proof {
                assert(before[j as int] == block_view(self.entries@[j as int]));
                lemma_sums_split(before, j as int);
                lemma_sums_bounds(before.remove(j as int));
                lemma_dirty_count_clean(before, j as int);
            }
            let mut e = self.entries.remove(j);
            proof {
                assert(e.address + e.data@.len() <= orig_storage.len());
            }
            allocator.write(e.address, e.data.as_slice());
            self.modified_size = self.modified_size - e.size as u64;
            e.modified = false;
            self.entries.insert(j, e);
            proof {
                let b = self.blocks();
                let ev = before[j as int];
                let clean = (ev.0, ev.1, false);
                assert(b =~= before.update(j as int, clean));
                lemma_sums_split(b, j as int);
                assert(b.remove(j as int) =~= before.remove(j as int));
                assert forall|x: int| 0 <= x < self.entries@.len() implies (#[trigger] self.entries@[x]).wf() by {
                    if x != j {
                        assert(self.entries@[x] == before_entries[x]);
                    }
                }
                assert forall|x: int, y: int| 0 <= x < y < b.len() implies #[trigger] b[x].0 != #[trigger] b[y].0 by {
                    assert(b[x].0 == before[x].0 && b[y].0 == before[y].0);
                }
                assert forall|x: int| 0 <= x < b.len() implies (#[trigger] b[x]).0 + b[x].1.len() <= orig_storage.len() by {
                    assert(b[x].0 == before[x].0 && b[x].1 == before[x].1);
                }
                let nw = written.push((ev.0, ev.1));
                assert(nw.drop_last() =~= written);
                assert(nw.last() == (ev.0, ev.1));
                let (k2, w2) = lru_flush(b, self.modified_size as int, cap);
                assert(written + (seq![(ev.0, ev.1)] + w2) =~= nw + w2);
                written = nw;
            }
        }
    }

    /// Drop and write back blocks as the capacities demand: first the least
    /// recently used blocks that are not pinned, while the cache holds more
    /// than its total capacity, then the modified blocks, lowest address
    /// first, while they are above their capacity.
    fn maybe_flush(&mut self, allocator: &mut StableAllocator<M>)
        requires
            old(self).wf(),
            old(allocator).wf(),
            old(self).fits(old(allocator).storage().len() as int),
        ensures
            final(self).wf(),
            final(allocator).wf(),
            final(self).fits(final(allocator).storage().len() as int),
            final(allocator).storage().len() == old(allocator).storage().len(),
            final(allocator).holes().levels() == old(allocator).holes().levels(),
            final(allocator).holes().right_boundary() == old(allocator).holes().right_boundary(),
            final(allocator).holes().left_boundary() == old(allocator).holes().left_boundary(),
            final(self).pins() == old(self).pins(),
            final(self).config_spec() == old(self).config_spec(),
            ({
                let c = old(self).config_spec();
                let (k, d) = lru_drop(old(self).blocks(), old(self).pinned(), old(self).size_spec() as int,
                    c.total_capacity as int);
                let (k2, w) = lru_flush(k, dirty_size(k), c.modified_capacity as int);
                &&& final(self).blocks() == k2
                &&& final(allocator).storage() == write_all(old(allocator).storage(), dirty_writes(d) + w)
            }),
    {
        let ghost s0 = allocator.storage();
        if self.config.total_capacity < self.size {
            self.drop_least_recently_used(allocator);
        } else {
            proof {
                assert(dirty_writes(Seq::<CachedBlock>::empty()) =~= Seq::<(u64, Seq<u8>)>::empty());
            }
        }
        let ghost s1 = allocator.storage();
        if self.config.modified_capacity < self.modified_size {
            self.write_modified(allocator);
        }
        proof {
            lemma_write_all_concat(s0, dirty_writes(lru_drop(old(self).blocks(), old(self).pinned(),
                old(self).size_spec() as int, old(self).config_spec().total_capacity as int).1),
                lru_flush(lru_drop(old(self).blocks(), old(self).pinned(), old(self).size_spec() as int,
                old(self).config_spec().total_capacity as int).0, dirty_size(lru_drop(old(self).blocks(), old(self).pinned(), old(self).size_spec() as int,
                old(self).config_spec().total_capacity as int).0), old(self).config_spec().modified_capacity as int).1);
        }
    }
}

/// Writing two lists in turn is writing their concatenation.
pub proof fn lemma_write_all_concat(storage: Seq<u8>, a: Seq<(u64, Seq<u8>)>, b: Seq<(u64, Seq<u8>)>)
    ensures
        write_all(write_all(storage, a), b) == write_all(storage, a + b),
    decreases b.len(),
{
    if b.len() == 0 {
        assert(a + b =~= a);
    } else {
        lemma_write_all_concat(storage, a, b.drop_last());
        assert((a + b).drop_last() =~= a + b.drop_last());
        assert((a + b).last() == b.last());
    }
}

/// Law of the write-back policy: afterwards the modified blocks are within
/// the capacity, and nothing but the modified flags changed.
pub proof fn lemma_flush_within(es: Seq<CachedBlock>, dirty: int, cap: int)
    requires
        dirty == dirty_size(es),
        cap >= 0,
    ensures
        dirty_size(lru_flush(es, dirty, cap).0) <= cap,
        total_size(lru_flush(es, dirty, cap).0) == total_size(es),
        lru_flush(es, dirty, cap).0.len() == es.len(),
        forall|i: int| 0 <= i < es.len() ==> (#[trigger] lru_flush(es, dirty, cap).0[i]).0 == es[i].0
            && lru_flush(es, dirty, cap).0[i].1 == es[i].1,
    decreases dirty_count(es),
{
    if dirty > cap {
        lemma_sums_bounds(es);
        lemma_min_dirty_exists(es);
        let i = min_dirty(es);
        assert(is_min_dirty(es, i));
        let e = es[i];
        let u = es.update(i, (e.0, e.1, false));
        lemma_dirty_count_clean(es, i);
        lemma_sums_split(es, i);
        lemma_sums_split(u, i);
        assert(u.remove(i) =~= es.remove(i));
        lemma_flush_within(u, dirty - e.1.len(), cap);
        assert forall|j: int| 0 <= j < es.len() implies (#[trigger] lru_flush(es, dirty, cap).0[j]).0 == es[j].0
            && lru_flush(es, dirty, cap).0[j].1 == es[j].1 by {
            assert(u[j].0 == es[j].0 && u[j].1 == es[j].1);
        }
    }
}

/// Law of the eviction policy: afterwards the size is within the capacity,
/// or every block kept is pinned; no pinned block is dropped; and the size
/// left is the size less that of the blocks dropped.
pub proof fn lemma_drop_within(es: Seq<CachedBlock>, pinned: Set<u64>, size: int, cap: int)
    ensures
        ({
            let (k, d) = lru_drop(es, pinned, size, cap);
            &&& size - total_size(d) <= cap || forall|i: int| 0 <= i < k.len() ==> pinned.contains(#[trigger] k[i].0)
            &&& forall|i: int| 0 <= i < d.len() ==> !pinned.contains(#[trigger] d[i].0)
            &&& total_size(k) + total_size(d) == total_size(es)
            &&& dirty_size(k) + dirty_size(d) == dirty_size(es)
        }),
    decreases es.len(),
{
    if es.len() == 0 || size <= cap {
        assert(total_size(Seq::<CachedBlock>::empty()) == 0);
        assert(dirty_size(Seq::<CachedBlock>::empty()) == 0);
    } else {
        let last = es.last();
        let t = es.drop_last();
        assert(es =~= t.push(last));
        assert(total_size(es) == total_size(t) + last.1.len());
        assert(dirty_size(es) == dirty_size(t) + if last.2 { last.1.len() as int } else { 0 });
        if pinned.contains(last.0) {
            lemma_drop_within(t, pinned, size, cap);
            let (k1, d1) = lru_drop(t, pinned, size, cap);
            let k = k1.push(last);
            assert(k.drop_last() =~= k1);
            assert(total_size(k) == total_size(k1) + last.1.len());
            assert(dirty_size(k) == dirty_size(k1) + if last.2 { last.1.len() as int } else { 0 });
            assert forall|i: int| 0 <= i < k.len() && (forall|j: int| 0 <= j < k1.len() ==> pinned.contains(#[trigger] k1[j].0)) implies pinned.contains(#[trigger] k[i].0) by {
                if i < k1.len() {
                    assert(k[i] == k1[i]);
                }
            }
        } else {
            lemma_drop_within(t, pinned, size - last.1.len(), cap);
            let (k1, d1) = lru_drop(t, pinned, size - last.1.len(), cap);
            let d = seq![last] + d1;
            lemma_sums_concat(seq![last], d1);
            lemma_sums_one(last);
            assert forall|i: int| 0 <= i < d.len() implies !pinned.contains(#[trigger] d[i].0) by {
                if i > 0 {
                    assert(d[i] == d1[i - 1]);
                }
            }
        }
    }
}

impl<M: Memory> LruCache<M> {
    /// Mark the block at `address` as modified, so that it is written back
    /// to the stable storage; the cache then drops and writes back blocks as
    /// its capacities demand. Nothing happens where the block is not cached,
    /// or is already marked.
    pub fn mark_modified(&mut self, allocator: &mut StableAllocator<M>, address: BlockAddress)
        requires
            old(self).wf(),
            old(allocator).wf(),
            old(self).fits(old(allocator).storage().len() as int),
        ensures
            final(self).wf(),
            final(allocator).wf(),
            final(self).fits(final(allocator).storage().len() as int),
            final(allocator).holes().levels() == old(allocator).holes().levels(),
            final(self).pins() == old(self).pins(),
            final(self).config_spec() == old(self).config_spec(),
            forall|i: int| 0 <= i < old(self).blocks().len() && old(self).blocks()[i].0 == address && !old(self).blocks()[i].2 ==> {
                let b = old(self).blocks()[i];
                let es = old(self).blocks().update(i, (b.0, b.1, true));
                let c = old(self).config_spec();
                let (k, d) = lru_drop(es, old(self).pinned(), total_size(es), c.total_capacity as int);
                let (k2, w) = lru_flush(k, dirty_size(k), c.modified_capacity as int);
                &&& final(self).blocks() == k2
                &&& final(allocator).storage() == write_all(old(allocator).storage(), dirty_writes(d) + w)
            },
            (forall|i: int| 0 <= i < old(self).blocks().len() && old(self).blocks()[i].0 == address ==> old(self).blocks()[i].2)
                ==> final(self).blocks() == old(self).blocks() && final(allocator).storage() == old(allocator).storage(),
    {
        let ghost before = self.blocks();
        match self.find_entry(address) {
            Some(i) => {
                proof {
                    assert(before[i as int] == block_view(self.entries@[i as int]));
                }
                if !self.entries[i].modified {
                    let ghost before_entries = self.entries@;
                    proof {
                        lemma_sums_split(before, i as int);
                        lemma_sums_bounds(before.remove(i as int));
                    }
                    let mut e = self.entries.remove(i);
                    e.modified = true;
                    self.modified_size = self.modified_size + e.size as u64;
                    self.entries.insert(i, e);
                    proof {
                        let b = self.blocks();
                        let ev = before[i as int];
                        assert(b =~= before.update(i as int, (ev.0, ev.1, true)));
                        lemma_sums_split(b, i as int);
                        assert(b.remove(i as int) =~= before.remove(i as int));
                        assert forall|x: int| 0 <= x < self.entries@.len() implies (#[trigger] self.entries@[x]).wf() by {
                            if x != i {
                                assert(self.entries@[x] == before_entries[x]);
                            }
                        }
                        assert forall|x: int, y: int| 0 <= x < y < b.len() implies #[trigger] b[x].0 != #[trigger] b[y].0 by {
                            assert(b[x].0 == before[x].0 && b[y].0 == before[y].0);
                        }
                        assert forall|x: int| 0 <= x < b.len() implies (#[trigger] b[x]).0 + b[x].1.len() <= allocator.storage().len() by {
                            assert(b[x].0 == before[x].0 && b[x].1 == before[x].1);
                        }
                    }
                    self.maybe_flush(allocator);
                    proof {
                        assert forall|j: int| 0 <= j < before.len() && before[j].0 == address implies j == i by {
                            if j != i {
                                if j < i {
                                    assert(before[j].0 != before[i as int].0);
                                } else {
                                    assert(before[i as int].0 != before[j].0);
                                }
                            }
                        }
                    }
                }
            },
            None => {},
        }
    }

    /// Overwrite part of the content of the cached block at `address` with
    /// `bytes`, from `offset` on. The block is not marked modified: call
    /// `mark_modified` for it to be written back.
    pub fn write(&mut self, address: BlockAddress, offset: usize, bytes: &[u8])
        requires
            old(self).wf(),
            exists|i: int| 0 <= i < old(self).blocks().len() && old(self).blocks()[i].0 == address && offset + bytes@.len()
                <= old(self).blocks()[i].1.len(),
        ensures
            final(self).wf(),
            final(self).pins() == old(self).pins(),
            final(self).config_spec() == old(self).config_spec(),
            final(self).size_spec() == old(self).size_spec(),
            final(self).modified_size_spec() == old(self).modified_size_spec(),
            forall|i: int| 0 <= i < old(self).blocks().len() && old(self).blocks()[i].0 == address ==> {
                let b = old(self).blocks()[i];
                final(self).blocks() == old(self).blocks().update(i, (b.0, write_bytes(b.1, offset as int, bytes@), b.2))
            },
            forall|len: int| old(self).fits(len) ==> final(self).fits(len),
    {
        let ghost before = self.blocks();
        let ghost before_entries = self.entries@;
        let i = match self.find_entry(address) {
            Some(i) => i,
            None => {
                proof {
                    let w = choose|w: int| 0 <= w < before.len() && before[w].0 == address && offset + bytes@.len() <= before[w].1.len();
                }
                return;
            },
        };
        proof {
            assert(before[i as int] == block_view(self.entries@[i as int]));
            assert forall|j: int| 0 <= j < before.len() && before[j].0 == address implies j == i by {
                if j != i {
                    if j < i {
                        assert(before[j].0 != before[i as int].0);
                    } else {
                        assert(before[i as int].0 != before[j].0);
                    }
                }
            }
            lemma_sums_split(before, i as int);
        }
        let mut e = self.entries.remove(i);
        let mut k: usize = 0;
        let ghost d0 = e.data@;
        let ghost e0 = e;
        let dl = e.data.len();
        while k < bytes.len()
            invariant
                dl == d0.len(),
                k <= bytes@.len(),
                offset + bytes@.len() <= d0.len(),
                e.data@ == write_bytes(d0, offset as int, bytes@.subrange(0, k as int)),
                e.data@.len() == d0.len(),
                e.address == e0.address,
                e.modified == e0.modified,
                e.size == e0.size,
            decreases bytes@.len() - k,
        {
            e.data.set(offset + k, bytes[k]);
            k = k + 1;
            proof {
                assert(e.data@ =~= write_bytes(d0, offset as int, bytes@.subrange(0, k as int)));
            }
        }
        proof {
            assert(bytes@.subrange(0, k as int) =~= bytes@);
        }
        self.entries.insert(i, e);
        proof {
            let b = self.blocks();
            let ev = before[i as int];
            assert(b =~= before.update(i as int, (ev.0, write_bytes(ev.1, offset as int, bytes@), ev.2)));
            lemma_sums_split(b, i as int);
            assert(b.remove(i as int) =~= before.remove(i as int));
            assert forall|x: int| 0 <= x < self.entries@.len() implies (#[trigger] self.entries@[x]).wf() by {
                if x != i {
                    assert(self.entries@[x] == before_entries[x]);
                }
            }
            assert forall|x: int, y: int| 0 <= x < y < b.len() implies #[trigger] b[x].0 != #[trigger] b[y].0 by {
                assert(b[x].0 == before[x].0 && b[y].0 == before[y].0);
            }
            assert forall|len: int| old(self).fits(len) implies self.fits(len) by {
                assert forall|x: int| 0 <= x < b.len() implies (#[trigger] b[x]).0 + b[x].1.len() <= len by {
                    assert(b[x].0 == before[x].0 && b[x].1.len() == before[x].1.len());
                }
            }
        }
    }

    /// Write all the modified blocks back to the stable storage, and drop
    /// every block that is not pinned. Afterwards nothing is left to write
    /// back, and the blocks left (if they hold any content) are pinned.
    pub fn clear(&mut self, allocator: &mut StableAllocator<M>)
        requires
            old(self).wf(),
            old(allocator).wf(),
            old(self).fits(old(allocator).storage().len() as int),
        ensures
            final(self).wf(),
            final(allocator).wf(),
            final(self).fits(final(allocator).storage().len() as int),
            final(allocator).holes().levels() == old(allocator).holes().levels(),
            final(self).pins() == old(self).pins(),
            final(self).config_spec() == old(self).config_spec(),
            ({
                let (k, w) = lru_flush(old(self).blocks(), old(self).modified_size_spec() as int, 0);
                let (k2, d) = lru_drop(k, old(self).pinned(), total_size(k), 0);
                &&& final(self).blocks() == k2
                &&& final(allocator).storage() == write_all(old(allocator).storage(), w + dirty_writes(d))
            }),
            final(self).modified_size_spec() == 0,
            final(self).size_spec() == 0 || forall|i: int| 0 <= i < final(self).blocks().len() ==> old(self).pinned().contains(
                #[trigger] final(self).blocks()[i].0,
            ),
    {
        let config = self.config;
        self.config = LruCacheConfig { modified_capacity: 0, total_capacity: 0 };
        let ghost b0 = self.blocks();
        let ghost s0 = allocator.storage();
        self.write_modified(allocator);
        let ghost b1 = self.blocks();
        proof {
            lemma_flush_within(b0, dirty_size(b0), 0);
            lemma_sums_bounds(b1);
        }
        self.drop_least_recently_used(allocator);
        proof {
            lemma_drop_within(b1, old(self).pinned(), total_size(b1), 0);
            lemma_write_all_concat(s0, lru_flush(b0, dirty_size(b0), 0).1, dirty_writes(lru_drop(b1, old(self).pinned(), total_size(b1), 0).1));
            lemma_sums_bounds(self.blocks());
            lemma_sums_bounds(lru_drop(b1, old(self).pinned(), total_size(b1), 0).1);
        }
        self.config = config;
    }
}

impl<M: Memory> Default for LruCache<M> {
    /// An empty cache with the default configuration.
    fn default() -> (r: Self)
        ensures
            r.wf(),
            r.blocks() == Seq::<CachedBlock>::empty(),
            r.pins() == Map::<u64, nat>::empty(),
            r.config_spec().modified_capacity == 1_000 * 65536,
            r.config_spec().total_capacity == 30_000 * 65536,
    {
        Self::new(LruCacheConfig::default())
    }
}

} // verus!
