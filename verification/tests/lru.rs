use ic_kit::allocator::StableAllocator;
use ic_kit::global::{allocate, free, set_global_allocator, set_global_lru, Globals};
use ic_kit::lru::{BlockEntry, LruCache, LruCacheConfig};
use ic_kit::memory::HeapStableMemory;
use ic_kit::pointer::StablePtr;

#[test]
fn lru_block_entry() {
    let mut allocator = StableAllocator::new(HeapStableMemory::default());

    for size in (16..256).step_by(4) {
        let address = allocator.allocate(size).unwrap();
        let block = BlockEntry::new(&allocator, address);
        assert_eq!(block.size() as u64, size);
        assert_eq!(address, 8);
        block.free(&mut allocator);
    }
}

#[test]
fn lru_block_entry_data() {
    let mut allocator = StableAllocator::new(HeapStableMemory::default());
    let content = b"Hello Dfinity World!";
    let address = allocator.allocate(content.len() as u64).unwrap();
    allocator.write(address, content.as_slice());
    let block = BlockEntry::new(&allocator, address);
    assert_eq!(block.data(), content);
    assert_eq!(block.address(), address);
}

#[test]
fn lru_get_loads_and_caches() {
    let mut allocator = StableAllocator::new(HeapStableMemory::default());
    let a = allocator.allocate(4).unwrap();
    allocator.write(a, &[1, 2, 3, 4]);
    let mut lru: LruCache<HeapStableMemory> = LruCache::default();
    // The block holds at least the 4 bytes asked for.
    assert_eq!(&lru.get(&allocator, a)[..4], &[1, 2, 3, 4]);
    // A cached block is not read again.
    allocator.write(a, &[9, 9, 9, 9]);
    assert_eq!(&lru.get(&allocator, a)[..4], &[1, 2, 3, 4]);
}

#[test]
fn lru_modified_blocks_are_written_back_on_clear() {
    let mut allocator = StableAllocator::new(HeapStableMemory::default());
    let a = allocator.allocate(8).unwrap();
    let b = allocator.allocate(8).unwrap();
    let mut lru: LruCache<HeapStableMemory> = LruCache::new(LruCacheConfig { modified_capacity: 1 << 20, total_capacity: 1 << 20 });
    lru.get(&allocator, a);
    lru.get(&allocator, b);
    lru.write(a, 0, &[7, 7]);
    lru.mark_modified(&mut allocator, a);
    // Within the capacities, nothing is written back yet.
    assert_eq!(allocator.read(a, 2), vec![0, 0]);
    lru.pin(b);
    lru.clear(&mut allocator);
    assert_eq!(allocator.read(a, 2), vec![7, 7]);
    lru.unpin(b);
}

#[test]
fn lru_writes_back_past_the_modified_capacity() {
    let mut allocator = StableAllocator::new(HeapStableMemory::default());
    let a = allocator.allocate(8).unwrap();
    let mut lru: LruCache<HeapStableMemory> = LruCache::new(LruCacheConfig { modified_capacity: 0, total_capacity: 1 << 20 });
    lru.get(&allocator, a);
    lru.write(a, 1, &[5]);
    lru.mark_modified(&mut allocator, a);
    assert_eq!(allocator.read(a, 2), vec![0, 5]);
}

#[test]
fn lru_pinned_blocks_stay() {
    let mut allocator = StableAllocator::new(HeapStableMemory::default());
    let a = allocator.allocate(8).unwrap();
    let b = allocator.allocate(8).unwrap();
    let mut lru: LruCache<HeapStableMemory> = LruCache::new(LruCacheConfig { modified_capacity: 0, total_capacity: 0 });
    lru.pin(a);
    lru.get(&allocator, a);
    lru.get(&allocator, b);
    lru.write(b, 0, &[3]);
    lru.write(a, 0, &[4]);
    lru.mark_modified(&mut allocator, b);
    // b was dropped and written back; a is pinned, so it stays cached.
    assert_eq!(allocator.read(b, 1), vec![3]);
    allocator.write(a, &[0]);
    assert_eq!(lru.get(&allocator, a)[0], 4);
    lru.unpin(a);
    lru.free(a);
    assert_eq!(lru.get(&allocator, a)[0], 0);
}

#[test]
fn lru_config_default() {
    let config = LruCacheConfig::default();
    assert_eq!(config.modified_capacity, 1_000 << 16);
    assert_eq!(config.total_capacity, 30_000 << 16);
}

#[test]
fn globals_allocate_and_free() {
    let mut globals: Globals<HeapStableMemory> = Globals::new();
    set_global_allocator(&mut globals, StableAllocator::new(HeapStableMemory::default()));
    set_global_lru(&mut globals, LruCache::default());
    assert_eq!(allocate(&mut globals, 100), Ok(8));
    assert_eq!(allocate(&mut globals, 100), Ok(116));
    free(&mut globals, 8);
    assert_eq!(allocate(&mut globals, 100), Ok(8));
}

#[test]
fn stable_ptr_null() {
    let p = StablePtr::<u32>::null();
    assert!(!p.is_null());
    let q = StablePtr::<u32>::from_address(8);
    assert!(q.is_null());
    assert_eq!(q.address(), 8);
    assert_eq!(q.clone().address(), 8);
}
