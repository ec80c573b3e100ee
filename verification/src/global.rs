//! The stable-storage state of a canister: its one allocator and its one
//! LRU cache, each set once, during initialization.

use vstd::prelude::*;
use crate::allocator::{
    StableAllocator, BlockAddress, BlockSize, StableMemoryError, max_request, search_start, block_allocated, free_accepted,
    header_size,
};
use crate::hole::{MIN_ALLOCATION_SIZE, first_level_hit, merged_hole, merge_levels, push_head, size_class, header_bytes, head_addr};
use crate::memory::write_bytes;
use crate::lru::LruCache;
use crate::memory::Memory;

verus! {

/// The allocator and the LRU cache a canister uses for its stable storage.
pub struct Globals<M: Memory> {
    allocator: Option<StableAllocator<M>>,
    lru: Option<LruCache<M>>,
}

impl<M: Memory> Globals<M> {
    /// The allocator, once it is set.
    pub closed spec fn allocator_spec(&self) -> Option<StableAllocator<M>> {
        self.allocator
    }

    /// The LRU cache, once it is set.
    pub closed spec fn lru_spec(&self) -> Option<LruCache<M>> {
        self.lru
    }

    /// Neither is set yet.
    pub fn new() -> (r: Self)
        ensures
            r.allocator_spec() is None,
            r.lru_spec() is None,
    {
        Globals { allocator: None, lru: None }
    }

    /// The LRU cache, once it is set.
    pub fn lru(&self) -> (r: Option<&LruCache<M>>)
        ensures
            r is Some <==> self.lru_spec() is Some,
            r matches Some(l) ==> *l == self.lru_spec().unwrap(),
    {
        match &self.lru {
            Some(l) => Some(l),
            None => None,
        }
    }

    /// The allocator, once it is set.
    pub fn allocator(&self) -> (r: Option<&StableAllocator<M>>)
        ensures
            r is Some <==> self.allocator_spec() is Some,
            r matches Some(a) ==> *a == self.allocator_spec().unwrap(),
    {
        match &self.allocator {
            Some(a) => Some(a),
            None => None,
        }
    }
}

/// Set the stable storage allocator to be used by the canister. It is set
/// only once in the canister's lifetime.
pub fn set_global_allocator<M: Memory>(globals: &mut Globals<M>, allocator: StableAllocator<M>)
    requires
        old(globals).allocator_spec() is None,
    ensures
        final(globals).allocator_spec() == Some(allocator),
        final(globals).lru_spec() == old(globals).lru_spec(),
{
    globals.allocator = Some(allocator);
}

/// Set a custom LRU cache for the canister. It is set only once, during the
/// initialization of the canister.
pub fn set_global_lru<M: Memory>(globals: &mut Globals<M>, lru: LruCache<M>)
    requires
        old(globals).lru_spec() is None,
    ensures
        final(globals).lru_spec() == Some(lru),
        final(globals).allocator_spec() == old(globals).allocator_spec(),
{
    globals.lru = Some(lru);
}

/// Allocate a block with the given size from the canister's allocator, which
/// must have been set.
pub fn allocate<M: Memory>(globals: &mut Globals<M>, size: BlockSize) -> (r: Result<BlockAddress, StableMemoryError>)
    requires
        old(globals).allocator_spec() matches Some(a) && a.wf(),
        size <= max_request(),
    ensures
        final(globals).lru_spec() == old(globals).lru_spec(),
        final(globals).allocator_spec() matches Some(a) && a.wf(),
        r matches Ok(p) ==> block_allocated(final(globals).allocator_spec().unwrap().holes(), p, (size + 8) as u64),
        r matches Err(e) ==> e == StableMemoryError::OutOfMemory,
        ({
            let a = old(globals).allocator_spec().unwrap();
            let s: u64 = if size + 8 < MIN_ALLOCATION_SIZE { MIN_ALLOCATION_SIZE } else { (size + 8) as u64 };
            first_level_hit(a.holes().levels(), search_start((size + 8) as u64, a.holes().left_boundary()),
                a.holes().right_boundary(), s) matches Some(hit) ==> r == Ok::<u64, StableMemoryError>((hit.1 + 8) as u64)
        }),
{
    let mut a = globals.allocator.take().unwrap();
    let r = a.allocate(size);
    globals.allocator = Some(a);
    r
}

/// Free the block at the given address, an address that `allocate` gave
/// earlier, in the canister's allocator, which must have been set.
pub fn free<M: Memory>(globals: &mut Globals<M>, address: BlockAddress)
    requires
        old(globals).allocator_spec() matches Some(a) && a.wf(),
    ensures
        final(globals).lru_spec() == old(globals).lru_spec(),
        final(globals).allocator_spec() matches Some(a) && a.wf(),
        ({
            let a0 = old(globals).allocator_spec().unwrap();
            let a1 = final(globals).allocator_spec().unwrap();
            &&& free_accepted(a0.holes(), address) ==> {
                let blk = (address - 8) as u64;
                let size = header_size(a0.storage(), address).unwrap();
                let m = merged_hole(a0.holes().levels(), blk, size);
                let ml = merge_levels(a0.holes().levels(), blk, size);
                &&& a1.holes().levels() == push_head(ml, size_class(m.1 as int), m)
                &&& a1.storage() == write_bytes(a0.storage(), m.0 as int, header_bytes(m.1, head_addr(ml[size_class(m.1 as int)])))
            }
            &&& !free_accepted(a0.holes(), address) ==> a1.holes().levels() == a0.holes().levels() && a1.storage()
                == a0.storage()
        }),
{
    let mut a = globals.allocator.take().unwrap();
    a.free(address);
    globals.allocator = Some(a);
}

} // verus!
