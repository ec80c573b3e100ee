use ic_kit::allocator::{StableAllocator, StableMemoryError};
use ic_kit::checksum::CheckedU40;
use ic_kit::memory::{HeapStableMemory, Memory};

#[test]
fn allocate_after_free() {
    let mut allocator = StableAllocator::new(HeapStableMemory::default());
    assert_eq!(allocator.allocate(100), Ok(8));
    assert_eq!(allocator.allocate(100), Ok(116));
    allocator.free(8);
    assert_eq!(allocator.allocate(100), Ok(8));
}

#[test]
fn free_misuse_is_ignored() {
    let mut allocator = StableAllocator::new(HeapStableMemory::default());
    assert_eq!(allocator.allocate(100), Ok(8));
    assert_eq!(allocator.allocate(100), Ok(116));
    allocator.free(100);
    assert_eq!(allocator.allocate(100), Ok(224));
}

#[test]
fn allocate_out_of_memory() {
    let mut allocator = StableAllocator::new(HeapStableMemory::new(1));
    assert_eq!(allocator.allocate(100), Ok(8));
    assert_eq!(allocator.allocate(70000), Err(StableMemoryError::OutOfMemory));
    assert_eq!(StableMemoryError::OutOfMemory.to_string(), "Out of memory");
    assert_eq!(StableMemoryError::OutOfBounds.to_string(), "Read exceeds allocated memory");
}

#[test]
fn block_header_holds_the_size() {
    let mut allocator = StableAllocator::new(HeapStableMemory::default());
    let addr = allocator.allocate(100).unwrap();
    let bytes = allocator.memory().stable_read(addr - 8, 8);
    let word = u64::from_le_bytes([bytes[0], bytes[1], bytes[2], bytes[3], bytes[4], bytes[5], bytes[6], bytes[7]]);
    assert_eq!(CheckedU40::from_word(word).verify(), Some(108));
}

#[test]
fn checked_u40_round_trip() {
    for value in [1u64, 2, 255, 256, 0xff_ffff_ffff, 0x12_3456_789a] {
        assert_eq!(CheckedU40::new(value).verify(), Some(value));
    }
    assert_eq!(CheckedU40::from_word(0).verify(), None);
    assert_eq!(CheckedU40::from_word(1).verify(), None);
    let word = CheckedU40::new(0x10000).to_word();
    assert_eq!(CheckedU40::from_word(word ^ 1).verify(), None);
    assert_eq!(CheckedU40::new(0x0102030405).to_word(), 0x0002_0201_0203_0405);
}

#[test]
fn heap_memory_grow_read_write() {
    let mut memory = HeapStableMemory::new(2);
    assert_eq!(memory.stable_size(), 0);
    assert_eq!(memory.stable_grow(1), 0);
    assert_eq!(memory.stable_grow(2), -1);
    assert_eq!(memory.stable_grow(1), 1);
    assert_eq!(memory.stable_size(), 2);
    memory.stable_write(65530, &[1, 2, 3, 4, 5, 6, 7, 8]);
    assert_eq!(memory.stable_read(65528, 12), vec![0, 0, 1, 2, 3, 4, 5, 6, 7, 8, 0, 0]);
}

#[test]
fn allocate_beyond_limit_fails_after_no_growth() {
    let mut allocator = StableAllocator::new(HeapStableMemory::new(1));
    assert_eq!(allocator.allocate(70000), Err(StableMemoryError::OutOfMemory));
    assert_eq!(allocator.memory().stable_size(), 0);
    assert_eq!(allocator.allocate(100), Ok(8));
    assert_eq!(allocator.memory().stable_size(), 1);
}
