//! The stable-storage interface, and an implementation that keeps the whole
//! storage on the heap.

use vstd::prelude::*;

verus! {

/// The size of one WebAssembly page, the unit in which stable storage grows.
pub const WASM_PAGE_SIZE: u64 = 65536;

/// The contents `s` after the bytes `buf` were written at `offset`.
pub open spec fn write_bytes(s: Seq<u8>, offset: int, buf: Seq<u8>) -> Seq<u8> {
    s.subrange(0, offset) + buf + s.subrange(offset + buf.len(), s.len() as int)
}

/// `n` zero bytes.
pub open spec fn zeros(n: nat) -> Seq<u8> {
    Seq::new(n, |i: int| 0u8)
}

/// A stable storage: a byte array that grows by whole pages and is never
/// shrunk.
pub trait Memory: Sized {
    /// The bytes of the storage.
    spec fn content(&self) -> Seq<u8>;

    /// The well-formedness of the backing store.
    spec fn inv(&self) -> bool;

    /// Whether the storage can grow by `new_pages` pages.
    spec fn can_grow(&self, new_pages: u64) -> bool;

    /// The size of the storage, in pages.
    fn stable_size(&self) -> (r: u64)
        requires
            self.inv(),
        ensures
            r as int * WASM_PAGE_SIZE == self.content().len(),
    ;

    /// Grow the storage by `new_pages` zeroed pages. Returns the previous size
    /// in pages, or `-1` (with the storage unchanged) if it cannot grow.
    fn stable_grow(&mut self, new_pages: u64) -> (r: i64)
        requires
            old(self).inv(),
        ensures
            final(self).inv(),
            r == -1 <==> !old(self).can_grow(new_pages),
            r == -1 ==> final(self).content() == old(self).content(),
            r != -1 ==> {
                &&& r >= 0
                &&& r as int * WASM_PAGE_SIZE == old(self).content().len()
                &&& final(self).content() == old(self).content() + zeros(
                    (new_pages * WASM_PAGE_SIZE) as nat,
                )
            },
    ;

    /// Read `len` bytes starting at `offset`.
    fn stable_read(&self, offset: u64, len: u64) -> (r: Vec<u8>)
        requires
            self.inv(),
            offset + len <= self.content().len(),
        ensures
            r@ == self.content().subrange(offset as int, offset + len),
    ;

    /// Write `buf` at `offset`.
    fn stable_write(&mut self, offset: u64, buf: &[u8])
        requires
            old(self).inv(),
            offset + buf@.len() <= old(self).content().len(),
        ensures
            final(self).inv(),
            final(self).content() == write_bytes(old(self).content(), offset as int, buf@),
    ;
}

/// The largest page count whose bytes can be addressed with a `u64`.
pub open spec fn max_heap_pages() -> u64 {
    0x8000_0000_0000u64
}

/// A stable storage backend that stores everything in the heap. By default it
/// has a 128MB limit.
pub struct HeapStableMemory {
    data: Vec<u8>,
    max_pages: u64,
}

impl HeapStableMemory {
    /// Create a stable storage backend with the provided max page.
    pub fn new(max_pages: u64) -> (r: Self)
        requires
            max_pages <= max_heap_pages(),
        ensures
            r.inv(),
            r.content() == Seq::<u8>::empty(),
            r.max_pages() == max_pages,
    {
        HeapStableMemory { data: Vec::new(), max_pages }
    }

    /// The largest number of pages this storage may grow to.
    pub closed spec fn max_pages(&self) -> u64 {
        self.max_pages
    }
}

impl Default for HeapStableMemory {
    /// An empty storage that may grow to 128MB (2048 pages).
    fn default() -> (r: Self)
        ensures
            r.inv(),
            r.content() == Seq::<u8>::empty(),
            r.max_pages() == 2048,
    {
        let max_pages: u64 = 128 << 20 >> 16;
        assert(max_pages == 2048) by (bit_vector)
            requires max_pages == 128u64 << 20u64 >> 16u64;
        HeapStableMemory { data: Vec::new(), max_pages }
    }
}

impl Memory for HeapStableMemory {
    closed spec fn content(&self) -> Seq<u8> {
        self.data@
    }

    closed spec fn inv(&self) -> bool {
        &&& self.data@.len() % (WASM_PAGE_SIZE as nat) == 0
        &&& self.data@.len() <= self.max_pages as int * WASM_PAGE_SIZE
        &&& self.max_pages <= max_heap_pages()
    }

    fn stable_size(&self) -> (r: u64) {
        let len = self.data.len();
        (len as u64) / WASM_PAGE_SIZE
    }

    /// The storage grows unless it would then hold more than its largest
    /// number of pages.
    open spec fn can_grow(&self, new_pages: u64) -> bool {
        (self.content().len() as int) / (WASM_PAGE_SIZE as int) + new_pages <= self.max_pages()
    }

    fn stable_grow(&mut self, new_pages: u64) -> (r: i64)
        ensures
            final(self).max_pages() == old(self).max_pages(),
    {
        let size = (self.data.len() as u64) / WASM_PAGE_SIZE;
        proof {
            assert(size <= self.max_pages) by (nonlinear_arith)
                requires
                    size == self.data@.len() as int / 65536,
                    self.data@.len() <= self.max_pages as int * 65536,
            ;
            assert(size as int * 65536 == self.data@.len()) by (nonlinear_arith)
                requires
                    size == self.data@.len() as int / 65536,
                    self.data@.len() % 65536 == 0,
            ;
        }
        if new_pages > self.max_pages - size {
            -1
        } else {
            let ghost old_data = self.data@;
            proof {
                assert(new_pages * 65536 <= 0x8000_0000_0000 * 65536) by (nonlinear_arith)
                    requires new_pages <= 0x8000_0000_0000int;
            }
            let total: u64 = new_pages * WASM_PAGE_SIZE;
            let mut extra: Vec<u8> = Vec::new();
            let mut n: u64 = 0;
            while n < total
                invariant
                    n <= total,
                    extra@ == zeros(n as nat),
                decreases total - n,
            {
                extra.push(0u8);
                n = n + 1;
                proof {
                    assert(extra@ =~= zeros(n as nat));
                }
            }
            self.data.append(&mut extra);
            proof {
                assert(self.data@ =~= old_data + zeros(total as nat));
                assert((size + new_pages) * 65536 == old_data.len() + total) by (nonlinear_arith)
                    requires
                        size as int * 65536 == old_data.len(),
                        total == new_pages * 65536,
                ;
                assert((size + new_pages) * 65536 <= self.max_pages as int * 65536) by (nonlinear_arith)
                    requires size + new_pages <= self.max_pages;
                assert(self.data@.len() % 65536 == 0) by (nonlinear_arith)
                    requires self.data@.len() == (size + new_pages) * 65536;
                assert(size <= i64::MAX);
            }
            size as i64
        }
    }

    fn stable_read(&self, offset: u64, len: u64) -> (r: Vec<u8>) {
        let data_len = self.data.len();
        let mut buf: Vec<u8> = Vec::new();
        let mut i: u64 = 0;
        while i < len
            invariant
                i <= len,
                offset + len <= self.data@.len(),
                data_len == self.data@.len(),
                buf@ == self.data@.subrange(offset as int, offset + i),
            decreases len - i,
        {
            let b = self.data[(offset + i) as usize];
            let ghost before = buf@;
            buf.push(b);
            i = i + 1;
            proof {
                assert(buf@ == before.push(b));
                assert(buf@ =~= self.data@.subrange(offset as int, offset + i));
            }
        }
        buf
    }

    fn stable_write(&mut self, offset: u64, buf: &[u8])
        ensures
            final(self).max_pages() == old(self).max_pages(),
    {
        let ghost old_data = self.data@;
        let ghost mp = self.max_pages;
        let data_len = self.data.len();
        let mut i: usize = 0;
        while i < buf.len()
            invariant
                self.max_pages == mp,
                i <= buf@.len(),
                offset + buf@.len() <= old_data.len(),
                self.data@.len() == old_data.len(),
                data_len == old_data.len(),
                self.inv(),
                forall|k: int| 0 <= k < offset || offset + i <= k < old_data.len()
                    ==> self.data@[k] == old_data[k],
                forall|k: int| 0 <= k < i ==> self.data@[offset + k] == buf@[k],
            decreases buf@.len() - i,
        {
            let idx: usize = offset as usize + i;
            let ghost before = self.data@;
            self.data.set(idx, buf[i]);
            proof {
                assert(self.data@ == before.update(idx as int, buf@[i as int]));
            }
            i = i + 1;
        }
        proof {
            assert(self.data@ =~= write_bytes(old_data, offset as int, buf@));
        }
    }
}

} // verus!
