use ic_kit::hole::{HoleIterator, ceiling_log2, get_log2_index, HoleList, MIN_ALLOCATION_SIZE};
use ic_kit::memory::{HeapStableMemory, Memory};

fn one_page_list() -> HoleList<HeapStableMemory> {
    let mut memory = HeapStableMemory::default();
    assert_eq!(memory.stable_grow(1), 0);
    HoleList::new(memory)
}

#[test]
fn test_ceiling_log2() {
    assert_eq!(ceiling_log2(1), 0);
    assert_eq!(ceiling_log2(2), 1);
    assert_eq!(ceiling_log2(3), 2);
    assert_eq!(ceiling_log2(4), 2);
    assert_eq!(ceiling_log2(7), 3);
    assert_eq!(ceiling_log2(8), 3);
    assert_eq!(ceiling_log2(15), 4);
    assert_eq!(ceiling_log2(32), 5);
    assert_eq!(ceiling_log2(33), 6);
    assert_eq!(ceiling_log2(63), 6);
    assert_eq!(ceiling_log2(64), 6);
    assert_eq!(ceiling_log2(65), 7);
    assert_eq!(ceiling_log2(u32::MAX as u64), 32);
}

#[test]
fn ceiling_log2_extremes() {
    assert_eq!(ceiling_log2(u64::MAX), 64);
    assert_eq!(ceiling_log2(1 << 63), 63);
    assert_eq!(ceiling_log2((1 << 63) + 1), 64);
    assert_eq!(ceiling_log2(1 << 40), 40);
}

#[test]
fn test_get_log2_index() {
    assert_eq!(get_log2_index(MIN_ALLOCATION_SIZE), 0);
    assert_eq!(get_log2_index(MIN_ALLOCATION_SIZE << 1), 1);
    assert_eq!(get_log2_index(MIN_ALLOCATION_SIZE << 2), 2);
    assert_eq!(get_log2_index(MIN_ALLOCATION_SIZE << 3), 3);
    assert_eq!(get_log2_index(MIN_ALLOCATION_SIZE << 4), 4);
}

#[test]
fn get_log2_index_small_sizes() {
    assert_eq!(get_log2_index(9), 0);
    assert_eq!(get_log2_index(17), 1);
}

#[test]
fn hole_list_find_simple() {
    let mut list = one_page_list();
    list.insert(0, 116);
    assert_eq!(list.find(20), Some((0, 20)));
    assert_eq!(list.find(20), Some((20, 20)));
    assert_eq!(list.find(20), Some((40, 20)));
    assert_eq!(list.find(20), Some((60, 20)));
    assert_eq!(list.find(20), Some((80, 20)));
    assert_eq!(list.find(20), None);
    assert_eq!(list.find(16), Some((100, 16)));
}

#[test]
fn hole_list_find_small_size() {
    let mut list = one_page_list();
    list.insert(0, 116);
    assert_eq!(list.len(), 1);

    assert_eq!(list.find(100), Some((0, 100)));
    assert_eq!(list.len(), 1);

    assert_eq!(list.find(20), None);
    assert_eq!(list.find(16), Some((100, 16)));
    assert_eq!(list.len(), 0);

    let mut list = one_page_list();
    list.insert(0, 117);
    assert_eq!(list.len(), 1);
    assert_eq!(list.find(100), Some((0, 100)));
    assert_eq!(list.len(), 1);
    assert_eq!(list.find(20), None);
    assert_eq!(list.len(), 1);
    assert_eq!(list.find(16), Some((100, 17)));
    assert_eq!(list.len(), 0);
}

#[test]
fn hole_list_merge_prev() {
    let mut list = one_page_list();
    list.insert(0, 100);
    assert_eq!(list.len(), 1);
    list.insert(100, 70);
    assert_eq!(list.len(), 1);
    assert_eq!(list.find(150), Some((0, 150)));
    assert_eq!(list.len(), 1);
}

#[test]
fn hole_list_merge_next() {
    let mut list = one_page_list();
    list.insert(100, 70);
    list.insert(0, 100);
    assert_eq!(list.find(150), Some((0, 150)));
    assert_eq!(list.len(), 1);
}

#[test]
fn hole_list_merge_mid() {
    let mut list = one_page_list();
    list.insert(0, 70);
    list.insert(100, 70);
    assert_eq!(list.find(150), None);
    list.insert(70, 30);
    assert_eq!(list.find(150), Some((0, 150)));
}

#[test]
fn hole_root_boundary() {
    let mut list = one_page_list();
    assert_eq!(list.roots_right_boundary(), 0);
    assert_eq!(list.roots_left_boundary(), 36);

    list.insert(0, 16);
    assert_eq!(list.roots_right_boundary(), 1);
    assert_eq!(list.roots_left_boundary(), 0);

    list.insert(100, 32);
    assert_eq!(list.roots_right_boundary(), 2);
    assert_eq!(list.roots_left_boundary(), 0);

    list.insert(1000, 128);
    assert_eq!(list.roots_right_boundary(), 4);
    assert_eq!(list.roots_left_boundary(), 0);

    assert_eq!(list.len(), 3);

    assert_eq!(list.find(128), Some((1000, 128)));
    assert_eq!(list.roots_right_boundary(), 2);
    assert_eq!(list.roots_left_boundary(), 0);

    assert_eq!(list.find(16), Some((0, 16)));
    assert_eq!(list.find(10), Some((100, 16))); // 10 byte should return 16 bytes.
    assert_eq!(list.find(16), Some((116, 16)));
    assert_eq!(list.find(16), None);
    assert_eq!(list.roots_left_boundary(), 36);

    assert_eq!(list.len(), 0);
}

#[test]
fn hole_list_right_boundary() {
    let mut list = one_page_list();
    assert_eq!(list.roots_left_boundary(), 36);

    list.insert(0, 128);
    assert_eq!(list.roots_left_boundary(), 3);

    list.insert(200, 32);
    assert_eq!(list.roots_left_boundary(), 1);

    list.insert(300, 16);
    assert_eq!(list.roots_left_boundary(), 0);

    assert_eq!(list.find(16), Some((300, 16)));
    assert_eq!(list.roots_left_boundary(), 1);

    assert_eq!(list.find(16), Some((200, 16)));
    assert_eq!(list.roots_left_boundary(), 0);

    assert_eq!(list.find(16), Some((216, 16)));
    assert_eq!(list.roots_left_boundary(), 3);

    assert_eq!(list.find(64), Some((0, 64)));
    assert_eq!(list.roots_left_boundary(), 2);

    assert_eq!(list.find(32), Some((64, 32)));
    assert_eq!(list.roots_left_boundary(), 1);

    assert_eq!(list.find(32), Some((96, 32)));
    assert_eq!(list.roots_left_boundary(), 36);

    assert_eq!(list.len(), 0);
}

#[test]
fn hole_header_is_written() {
    let mut list = one_page_list();
    list.insert(64, 32);
    list.insert(200, 48);
    let header = list.read_memory(64, 16);
    assert_eq!(&header[..8], &32u64.to_le_bytes());
    assert_eq!(&header[8..], &0u64.to_le_bytes());
    assert!(list.is_root(64));
    assert!(list.is_root(200));
    assert!(!list.is_root(65));
}

#[test]
fn hole_iterator_picks_worst_fit_when_leftover_is_usable() {
    let holes = [(0u64, 40u64), (100, 60), (200, 35)];
    assert_eq!(HoleIterator::new(&holes).find(20), Some((100, 40)));
    assert_eq!(HoleIterator::new(&holes).find(40), Some((0, 0)));
    assert_eq!(HoleIterator::new(&holes).find(50), Some((100, 10)));
    assert_eq!(HoleIterator::new(&holes).find(61), None);
    let empty: [(u64, u64); 0] = [];
    assert_eq!(HoleIterator::new(&empty).find(1), None);
}
