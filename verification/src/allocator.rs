//! An allocator over the stable storage. Each block starts with an 8-byte
//! checksummed header that holds the block's size, so that a freed address can
//! be told apart from a stray one.

use vstd::prelude::*;
use vstd::bytes::{spec_u64_to_le_bytes, spec_u64_from_le_bytes};
use crate::checksum::{CheckedU40, encode_u40, decode_u40, lemma_decode_encode};
use crate::hole::{
    HoleList, MIN_ALLOCATION_SIZE, MAX_HOLE_END, NUM_SIZE_CLASSES, size_class, first_level_hit, valid_slot, hole_ok,
    disjoint, disjoint_from_all, has_hole, remove_hole_spec, merged_hole, lemma_remove_slot,
    lemma_first_level_hit_found, lemma_first_level_hit_some, lemma_ceil_log2_spec, lemma_ceil_log2_monotone,
    ceil_log2_spec, levels_wf, push_head, merge_levels, header_bytes, head_addr, lemma_size_class_bound, is_right_boundary, is_left_boundary,
};
use crate::memory::{Memory, write_bytes, WASM_PAGE_SIZE};

verus! {

/// The address of a block.
pub type BlockAddress = u64;

/// The size of a block.
pub type BlockSize = u64;

/// A possible error value when dealing with stable memory.
#[derive(Debug, PartialEq, Eq)]
pub enum StableMemoryError {
    /// No more stable memory could be allocated.
    OutOfMemory,
    /// Attempted to read more stable memory than had been allocated.
    OutOfBounds,
}

impl StableMemoryError {
    /// The message that describes the error.
    pub fn to_string(&self) -> (r: String)
        ensures
            r@ == (match self {
                StableMemoryError::OutOfMemory => "Out of memory"@,
                StableMemoryError::OutOfBounds => "Read exceeds allocated memory"@,
            }),
    {
        match self {
            StableMemoryError::OutOfMemory => String::from_str("Out of memory"),
            StableMemoryError::OutOfBounds => String::from_str("Read exceeds allocated memory"),
        }
    }
}

/// The largest request `allocate` accepts: the header and the rounding up to
/// whole pages must fit in a `u64`.
pub open spec fn max_request() -> u64 {
    (u64::MAX - 8 - 65535) as u64
}

/// The largest request `allocate` accepts.
pub fn max_request_size() -> (r: u64)
    ensures
        r == max_request(),
{
    u64::MAX - 8 - 65535
}

/// The class search start for a block of `size` bytes in lists whose left
/// boundary is `left`.
pub open spec fn search_start(size: u64, left: int) -> int {
    let s: u64 = if size < MIN_ALLOCATION_SIZE { MIN_ALLOCATION_SIZE } else { size };
    let c = size_class(s as int);
    if c > left { c } else { left }
}

/// The number of whole pages the storage grows by to fit a block of `size`
/// bytes, header included.
pub open spec fn grow_pages(size: u64) -> int {
    (size + 65535) / 65536
}

/// The 8 bytes of the header of a block of `size` bytes.
pub open spec fn block_header(size: u64) -> Seq<u8> {
    spec_u64_to_le_bytes(encode_u40(size))
}

/// An allocator over the stable storage. This allocator assumes that it owns
/// the entire stable storage.
pub struct StableAllocator<M: Memory> {
    hole_list: HoleList<M>,
}

impl<M: Memory> StableAllocator<M> {
    /// The free holes.
    pub closed spec fn holes(&self) -> HoleList<M> {
        self.hole_list
    }

    /// The allocator is well formed.
    pub open spec fn wf(&self) -> bool {
        self.holes().wf()
    }

    /// The bytes of the storage.
    pub open spec fn storage(&self) -> Seq<u8> {
        self.holes().storage()
    }

    /// Create an allocator over the given storage, with no free holes yet.
    pub fn new(memory: M) -> (r: Self)
        requires
            memory.inv(),
        ensures
            r.wf(),
            r.holes().levels() == Seq::new(NUM_SIZE_CLASSES as nat, |i: int| Seq::<(u64, u64)>::empty()),
            r.holes().memory_spec() == memory,
    {
        StableAllocator { hole_list: HoleList::new(memory) }
    }

    /// The storage the allocator hands blocks out of.
    pub fn memory(&self) -> (r: &M)
        ensures
            *r == self.holes().memory_spec(),
    {
        self.hole_list.memory()
    }

    /// Read `len` bytes of the storage at `offset`.
    pub fn read(&self, offset: u64, len: u64) -> (r: Vec<u8>)
        requires
            self.wf(),
            offset + len <= self.storage().len(),
        ensures
            r@ == self.storage().subrange(offset as int, offset + len),
    {
        self.hole_list.read_memory(offset, len)
    }

    /// Write `buf` to the storage at `offset`; the holes stay as they are.
    pub fn write(&mut self, offset: u64, buf: &[u8])
        requires
            old(self).wf(),
            offset + buf@.len() <= old(self).storage().len(),
        ensures
            final(self).wf(),
            final(self).holes().levels() == old(self).holes().levels(),
            final(self).holes().right_boundary() == old(self).holes().right_boundary(),
            final(self).holes().left_boundary() == old(self).holes().left_boundary(),
            final(self).storage() == write_bytes(old(self).storage(), offset as int, buf@),
    {
        self.hole_list.write_memory(offset, buf)
    }

    /// Take a block for `size` bytes from the holes and write its header;
    /// returns the address of its content.
    fn take_block(&mut self, size: u64) -> (r: Option<u64>)
        requires
            old(self).wf(),
            size >= 8,
        ensures
            final(self).wf(),
            ({
                let s: u64 = if size < MIN_ALLOCATION_SIZE { MIN_ALLOCATION_SIZE } else { size };
                match first_level_hit(old(self).holes().levels(), search_start(size, old(self).holes().left_boundary()),
                    old(self).holes().right_boundary(), s) {
                    None => r is None && final(self).holes().levels() == old(self).holes().levels()
                        && final(self).storage() == old(self).storage(),
                    Some(hit) => r == Some((hit.1 + 8) as u64),
                }
            }),
            r matches Some(p) ==> block_allocated(final(self).holes(), p, size),
            final(self).storage().len() == old(self).storage().len(),
            r is None ==> final(self).holes().memory_spec() == old(self).holes().memory_spec(),
    {
        let ghost levels = self.hole_list.levels();
        let ghost mem_len = self.hole_list.storage().len() as int;
        let ghost start = search_start(size, old(self).holes().left_boundary());
        let ghost right = old(self).holes().right_boundary();
        let ghost s: u64 = if size < MIN_ALLOCATION_SIZE { MIN_ALLOCATION_SIZE } else { size };
        proof {
            self.hole_list.lemma_wf();
        }
        let found = self.hole_list.find(size);
        match found {
            None => None,
            Some((addr, bsize)) => {
                proof {
                    lemma_taken_block(levels, self.hole_list.levels(), mem_len, start, right, s, addr, bsize);
                }
                let ghost before = self.hole_list.storage();
                let header = CheckedU40::new(bsize);
                let bytes = vstd::bytes::u64_to_le_bytes(header.to_word());
                self.hole_list.write_memory(addr, bytes.as_slice());
                proof {
                    let st = self.hole_list.storage();
                    assert(st.subrange(addr as int, addr + 8) =~= bytes@);
                    assert(disjoint_from_all(self.hole_list.levels(), (addr, bsize)));
                    assert(encode_u40(bsize) == header.word());
                }
                Some(addr + 8)
            },
        }
    }

    /// Allocate a stable storage block with the given size. The storage is
    /// grown by whole pages when no hole is large enough.
    pub fn allocate(&mut self, size: BlockSize) -> (r: Result<BlockAddress, StableMemoryError>)
        requires
            old(self).wf(),
            size <= max_request(),
        ensures
            final(self).wf(),
            r matches Ok(p) ==> block_allocated(final(self).holes(), p, (size + 8) as u64),
            r matches Err(e) ==> e == StableMemoryError::OutOfMemory,
            ({
                let s: u64 = if size + 8 < MIN_ALLOCATION_SIZE { MIN_ALLOCATION_SIZE } else { (size + 8) as u64 };
                first_level_hit(old(self).holes().levels(), search_start((size + 8) as u64, old(self).holes().left_boundary()),
                    old(self).holes().right_boundary(), s) matches Some(hit) ==> r == Ok::<u64, StableMemoryError>((hit.1 + 8) as u64)
            }),
            ({
                let s: u64 = if size + 8 < MIN_ALLOCATION_SIZE { MIN_ALLOCATION_SIZE } else { (size + 8) as u64 };
                let l0 = old(self).storage().len() as int;
                let pages = grow_pages((size + 8) as u64);
                let grown = final(self).storage().len() != l0;
                first_level_hit(old(self).holes().levels(), search_start((size + 8) as u64, old(self).holes().left_boundary()),
                    old(self).holes().right_boundary(), s) is None ==> {
                    &&& grown <==> old(self).holes().memory_spec().can_grow(pages as u64)
                    &&& !grown ==> final(self).storage() == old(self).storage() && r is Err
                    &&& grown ==> final(self).storage().len() == l0 + pages * WASM_PAGE_SIZE
                    &&& r is Ok <==> grown && l0 / (WASM_PAGE_SIZE as int) + pages <= 0x80_0000
                }
            }),
    {
        // we need 8 more bytes to store the CheckedU40 for the block size.
        let size = size + 8;
        if let Some(p) = self.take_block(size) {
            return Ok(p);
        }
        // number of pages we need to grow in order to fit this size. this is a
        // ceiling division by 1 WebAssembly page.
        let rounded: u64 = size + 0xFFFF;
        let new_pages = rounded >> 16;
        proof {
            vstd::bits::lemma_u64_shr_is_div(rounded, 16);
            vstd::arithmetic::power2::lemma2_to64();
            assert(new_pages * 65536 >= size && new_pages * 65536 <= size + 65535 && new_pages >= 1) by (nonlinear_arith)
                requires new_pages == (size + 65535) / 65536, size >= 8;
        }
        let ghost pre_levels = self.hole_list.levels();
        let ghost pre_len = self.hole_list.storage().len() as int;
        proof {
            assert(new_pages == grow_pages(size)) by (nonlinear_arith)
                requires new_pages == (size + 65535) / 65536;
        }
        proof {
            self.hole_list.lemma_wf();
        }
        let start = self.hole_list.grow_memory(new_pages);
        // we couldn't allocate anymore.
        if start == -1 {
            return Err(StableMemoryError::OutOfMemory);
        }
        proof {
            assert(start as int == pre_len / 65536 && new_pages == grow_pages(size)) by (nonlinear_arith)
                requires
                    start as int * 65536 == pre_len,
                    new_pages == (size + 65535) / 65536;
            assert((MAX_HOLE_END >> 16u64) == 0x80_0000u64) by (bit_vector);
        }
        if start as u64 > (MAX_HOLE_END >> 16) || new_pages > (MAX_HOLE_END >> 16) - start as u64 {
            // the new pages lie beyond the range the holes can address.
            return Err(StableMemoryError::OutOfMemory);
        }
        proof {
            assert((MAX_HOLE_END >> 16u64) == 0x80_0000u64) by (bit_vector);
        }
        let addr = (start as u64) << 16;
        let grown = new_pages << 16;
        proof {
            vstd::bits::lemma_u64_shl_is_mul(start as u64, 16);
            vstd::bits::lemma_u64_shl_is_mul(new_pages, 16);
            vstd::arithmetic::power2::lemma2_to64();
            assert(addr + grown <= MAX_HOLE_END) by (nonlinear_arith)
                requires addr == start * 65536, grown == new_pages * 65536, start + new_pages <= 0x80_0000;
            assert forall|l: int, k: int| valid_slot(pre_levels, l, k) implies disjoint(#[trigger] pre_levels[l][k], (addr, grown)) by {
                assert(hole_ok(pre_levels[l][k], l, pre_len));
            }
        }
        self.hole_list.insert(addr, grown);
        proof {
            self.hole_list.lemma_wf();
            lemma_grown_hit(pre_levels, self.hole_list.levels(), addr, grown, size,
                self.hole_list.left_boundary(), self.hole_list.right_boundary());
        }
        match self.take_block(size) {
            Some(p) => Ok(p),
            None => Err(StableMemoryError::OutOfMemory),
        }
    }

    /// Free the stable storage block at the given address. The address must
    /// be an address returned by a previous call to [`allocate`]; an address
    /// whose header does not check out, or that names space that is already
    /// free, is ignored.
    pub fn free(&mut self, addr: BlockAddress)
        requires
            old(self).wf(),
        ensures
            final(self).wf(),
            free_accepted(old(self).holes(), addr) ==> {
                let blk = (addr - 8) as u64;
                let size = header_size(old(self).storage(), addr).unwrap();
                let m = merged_hole(old(self).holes().levels(), blk, size);
                let ml = merge_levels(old(self).holes().levels(), blk, size);
                &&& final(self).holes().levels() == push_head(ml, size_class(m.1 as int), m)
                &&& final(self).storage() == write_bytes(
                    old(self).storage(),
                    m.0 as int,
                    header_bytes(m.1, head_addr(ml[size_class(m.1 as int)])),
                )
            },
            !free_accepted(old(self).holes(), addr) ==> final(self).holes().levels() == old(self).holes().levels()
                && final(self).storage() == old(self).storage(),
    {
        if addr < 8 {
            return;
        }
        let len = match self.hole_list.storage_len() {
            Some(n) => n,
            None => {
                return;
            },
        };
        if addr > len {
            return;
        }
        let blk = addr - 8;
        // guard the api misuse by checking the checksum.
        let bytes = self.hole_list.read_memory(blk, 8);
        let word = vstd::bytes::u64_from_le_bytes(bytes.as_slice());
        if let Some(size) = CheckedU40::from_word(word).verify() {
            if size >= MIN_ALLOCATION_SIZE && size <= MAX_HOLE_END && blk <= MAX_HOLE_END - size && blk + size <= len {
                if !self.hole_list.overlaps_hole(blk, size) {
                    self.hole_list.insert(blk, size);
                }
            }
        }
    }
}

/// The size that the header in front of `addr` holds, if it is a valid
/// header within the storage.
pub open spec fn header_size(storage: Seq<u8>, addr: u64) -> Option<u64> {
    if addr >= 8 && addr <= storage.len() {
        decode_u40(spec_u64_from_le_bytes(storage.subrange(addr - 8, addr as int)))
    } else {
        None
    }
}

/// `free(addr)` gives a block back: the header in front of `addr` is valid
/// and names a block of at least `MIN_ALLOCATION_SIZE` bytes that lies within
/// the storage, below `MAX_HOLE_END`, and apart from every hole.
pub open spec fn free_accepted<M: Memory>(holes: HoleList<M>, addr: u64) -> bool {
    &&& holes.storage().len() <= u64::MAX
    &&& header_size(holes.storage(), addr) matches Some(size) && {
        &&& size >= MIN_ALLOCATION_SIZE
        &&& addr - 8 + size <= MAX_HOLE_END
        &&& addr - 8 + size <= holes.storage().len()
        &&& disjoint_from_all(holes.levels(), ((addr - 8) as u64, size))
    }
}

/// Law: a block that `allocate` handed out is taken back by `free` as long as
/// nothing else changed.
pub proof fn lemma_allocated_block_is_freed<M: Memory>(holes: HoleList<M>, p: u64, size: u64)
    requires
        block_allocated(holes, p, size),
        holes.storage().len() <= u64::MAX,
    ensures
        free_accepted(holes, p),
        header_size(holes.storage(), p) matches Some(bs) && bs >= size && bs >= MIN_ALLOCATION_SIZE && p - 8 + bs
            <= holes.storage().len(),
{
    let bs = choose|bs: u64|
        #![trigger encode_u40(bs)]
        bs >= size && bs >= MIN_ALLOCATION_SIZE && p - 8 + bs <= holes.storage().len() && p - 8 + bs <= MAX_HOLE_END
            && holes.storage().subrange(p - 8, p as int) == block_header(bs)
            && disjoint_from_all(holes.levels(), ((p - 8) as u64, bs));
    vstd::bytes::lemma_auto_spec_u64_to_from_le_bytes();
    assert(spec_u64_from_le_bytes(spec_u64_to_le_bytes(encode_u40(bs))) == encode_u40(bs));
    lemma_decode_encode(bs);
}

/// The block a successful `find` took out of the lists lies within the
/// storage and apart from every hole left.
proof fn lemma_taken_block(
    levels: Seq<Seq<(u64, u64)>>,
    nl: Seq<Seq<(u64, u64)>>,
    mem_len: int,
    start: int,
    right: int,
    s: u64,
    a: u64,
    bsize: u64,
)
    requires
        levels_wf(levels, mem_len),
        right <= NUM_SIZE_CLASSES,
        s >= MIN_ALLOCATION_SIZE,
        first_level_hit(levels, start, right, s) matches Some(hit) && hit.1 == a && (if hit.2 >= MIN_ALLOCATION_SIZE {
            bsize == s && nl == push_head(remove_hole_spec(levels, a), size_class(hit.2 as int), ((a + s) as u64, hit.2))
        } else {
            bsize == (s + hit.2) as u64 && nl == remove_hole_spec(levels, a)
        }),
    ensures
        bsize >= s,
        a + bsize <= MAX_HOLE_END,
        a + bsize <= mem_len,
        disjoint_from_all(nl, (a, bsize)),
{
    lemma_first_level_hit_found(levels, start, right, s);
    let hit = first_level_hit(levels, start, right, s).unwrap();
    let k = choose|k: int| valid_slot(levels, hit.0, k) && (#[trigger] levels[hit.0][k]).0 == hit.1 && levels[hit.0][k].1 == s + hit.2;
    let hole = levels[hit.0][k];
    assert(hole_ok(hole, hit.0, mem_len));
    assert(bsize <= hole.1);
    lemma_remove_slot(levels, mem_len, hit.0, k);
    let l1 = remove_hole_spec(levels, a);
    assert(levels_wf(l1, mem_len));
    if hit.2 >= MIN_ALLOCATION_SIZE {
        lemma_size_class_bound(hit.2);
    }
    assert forall|l: int, kk: int| valid_slot(nl, l, kk) implies disjoint(#[trigger] nl[l][kk], (a, bsize)) by {
        if hit.2 >= MIN_ALLOCATION_SIZE && l == size_class(hit.2 as int) && kk == 0 {
            assert(nl[l][kk] == ((a + s) as u64, hit.2));
        } else {
            let g = nl[l][kk];
            let o = if hit.2 >= MIN_ALLOCATION_SIZE && l == size_class(hit.2 as int) { kk - 1 } else { kk };
            assert(g == l1[l][o]);
            assert(valid_slot(l1, l, o));
            assert(has_hole(l1, g));
            assert(has_hole(levels, g) && g != hole);
            let (l0, k0) = choose|l0: int, k0: int| valid_slot(levels, l0, k0) && levels[l0][k0] == g;
            assert(l0 != hit.0 || k0 != k);
            assert(disjoint(g, hole));
        }
    }
}

/// After a grown region of at least `size` bytes was inserted, the search for
/// a block of `size` bytes finds one.
proof fn lemma_grown_hit(
    levels: Seq<Seq<(u64, u64)>>,
    nl: Seq<Seq<(u64, u64)>>,
    addr: u64,
    grown: u64,
    size: u64,
    left: int,
    right: int,
)
    requires
        size >= 8,
        grown >= size,
        grown >= MIN_ALLOCATION_SIZE,
        ({
            let m = merged_hole(levels, addr, grown);
            &&& m.1 >= grown
            &&& m.0 + m.1 <= MAX_HOLE_END
            &&& 0 <= size_class(m.1 as int) < NUM_SIZE_CLASSES
            &&& nl == push_head(crate::hole::merge_levels(levels, addr, grown), size_class(m.1 as int), m)
        }),
        crate::hole::merge_levels(levels, addr, grown).len() == NUM_SIZE_CLASSES,
        is_right_boundary(nl, right),
        is_left_boundary(nl, left),
    ensures
        first_level_hit(nl, search_start(size, left), right, if size < MIN_ALLOCATION_SIZE { MIN_ALLOCATION_SIZE } else { size }) is Some,
{
    let s: u64 = if size < MIN_ALLOCATION_SIZE { MIN_ALLOCATION_SIZE } else { size };
    let m = merged_hole(levels, addr, grown);
    let c = size_class(m.1 as int);
    assert(nl[c][0] == m);
    lemma_ceil_log2_spec(m.1 as int);
    lemma_ceil_log2_spec(s as int);
    lemma_ceil_log2_monotone(s as int, ceil_log2_spec(s as int) as int, m.1 as int, ceil_log2_spec(m.1 as int) as int);
    assert(c < right) by {
        if c >= right {
            assert(nl[c].len() == 0);
        }
    }
    assert(left <= c) by {
        if c < left {
            assert(nl[c].len() == 0);
        }
    }
    lemma_first_level_hit_some(nl, search_start(size, left), right, s, c, 0);
}

/// The block whose content starts at `p` and was asked for with `size` bytes
/// (header included) is allocated: its header holds its size, at least
/// `size`, and it lies within the storage, below `MAX_HOLE_END`, and apart from
/// every hole.
pub open spec fn block_allocated<M: Memory>(holes: HoleList<M>, p: u64, size: u64) -> bool {
    &&& p >= 8
    &&& p + 8 <= holes.storage().len()
    &&& exists|bs: u64|
        #![trigger encode_u40(bs)]
        bs >= size && bs >= MIN_ALLOCATION_SIZE && p - 8 + bs <= holes.storage().len() && p - 8 + bs <= MAX_HOLE_END
            && holes.storage().subrange(p - 8, p as int) == block_header(bs)
            && disjoint_from_all(holes.levels(), ((p - 8) as u64, bs))
}

} // verus!
