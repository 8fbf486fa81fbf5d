//! Behaviour of the best-fit free-block allocator.

use boyko_ecs::free_mem_block::{MemFreeBlock, MemFreeBlockMaster};

#[test]
fn merge_adjacent_blocks_both_sides() {
    let mut master = MemFreeBlockMaster::new();
    master.insert(MemFreeBlock::new(0, 100));
    master.insert(MemFreeBlock::new(200, 300));
    assert_eq!(master.len(), 2);
    master.insert(MemFreeBlock::new(100, 200));
    assert_eq!(master.len(), 1);
    let only = master.get_by_index(0).unwrap();
    assert_eq!(only.start, 0);
    assert_eq!(only.end, 300);
}

#[test]
fn merge_left_only() {
    let mut master = MemFreeBlockMaster::new();
    master.insert(MemFreeBlock::new(0, 100));
    master.insert(MemFreeBlock::new(100, 150));
    assert_eq!(master.len(), 1);
    let only = master.get_by_index(0).unwrap();
    assert_eq!((only.start, only.end), (0, 150));
}

#[test]
fn merge_right_only() {
    let mut master = MemFreeBlockMaster::new();
    master.insert(MemFreeBlock::new(100, 150));
    master.insert(MemFreeBlock::new(50, 100));
    assert_eq!(master.len(), 1);
    let only = master.get_by_index(0).unwrap();
    assert_eq!((only.start, only.end), (50, 150));
}

#[test]
fn best_fit_prefers_smallest_fitting_block() {
    // Free blocks of sizes 100, 50, 100 and 60, pairwise non-adjacent.
    let mut master = MemFreeBlockMaster::new();
    master.insert(MemFreeBlock::new(0, 100));
    master.insert(MemFreeBlock::new(150, 200));
    master.insert(MemFreeBlock::new(250, 350));
    master.insert(MemFreeBlock::new(400, 460));
    // Requesting 60 bytes must take the size-60 block.
    let hit = master.allocate(60).unwrap();
    assert_eq!((hit.start, hit.end), (400, 460));
    // Requesting 70 bytes must take one of the size-100 blocks,
    // never the size-50 one.
    let hit = master.allocate(70).unwrap();
    assert_eq!(hit.end - hit.start, 70);
    assert!(hit.start == 0 || hit.start == 250);
    assert!(hit.start != 150);
}

#[test]
fn find_best_fit_leaves_blocks_alone() {
    let mut master = MemFreeBlockMaster::new();
    master.insert(MemFreeBlock::new(0, 10));
    master.insert(MemFreeBlock::new(20, 50));
    let hit = master.find_best_fit(8).unwrap();
    assert_eq!((hit.start, hit.end), (0, 10));
    assert_eq!(master.len(), 2);
}

#[test]
fn allocate_splits_remainder() {
    let mut master = MemFreeBlockMaster::new_init(1000);
    let taken = master.allocate(100).unwrap();
    assert_eq!((taken.start, taken.end), (0, 100));
    assert_eq!(master.len(), 1);
    assert_eq!(master.total_free_size(), 900);
}

#[test]
fn allocate_exact_fit_consumes_block() {
    let mut master = MemFreeBlockMaster::new_init(128);
    let taken = master.allocate(128).unwrap();
    assert_eq!((taken.start, taken.end), (0, 128));
    assert!(master.is_empty());
    assert!(master.allocate(1).is_none());
}

#[test]
fn allocate_zero_bytes_fails() {
    let mut master = MemFreeBlockMaster::new_init(64);
    assert!(master.allocate(0).is_none());
    assert_eq!(master.total_free_size(), 64);
}

#[test]
fn allocate_aligned_pads_and_returns_gap() {
    let mut master = MemFreeBlockMaster::new();
    master.insert(MemFreeBlock::new(5, 100));
    let taken = master.allocate_aligned(16, 8).unwrap();
    assert_eq!(taken.start % 8, 0);
    assert_eq!(taken.end - taken.start, 16);
    assert_eq!((taken.start, taken.end), (8, 24));
    // The leading gap and the tail are both free again.
    assert_eq!(master.total_free_size(), 95 - 16);
}

#[test]
fn block_size_reports_length() {
    let b = MemFreeBlock::new(16, 48);
    assert_eq!(b.size(), 32);
}

#[test]
fn free_size_sums_all_blocks() {
    let mut master = MemFreeBlockMaster::with_capacity(8);
    assert_eq!(master.total_free_size(), 0);
    master.insert(MemFreeBlock::new(0, 10));
    master.insert(MemFreeBlock::new(20, 25));
    assert_eq!(master.total_free_size(), 15);
    assert_eq!(master.len(), 2);
    assert!(!master.is_empty());
}

#[test]
fn memory_stats_snapshot_the_collection() {
    let mut master = MemFreeBlockMaster::new();
    master.insert(MemFreeBlock::new(0, 10));
    master.insert(MemFreeBlock::new(20, 50));
    let stats = master.get_memory_stats();
    assert_eq!(stats.active_blocks, 2);
    assert_eq!(stats.total_blocks, 2);
    assert_eq!(stats.free_slots, 0);
    assert_eq!(stats.total_memory, 40);
}

#[test]
fn enumeration_is_sorted_by_size() {
    let mut master = MemFreeBlockMaster::new();
    master.insert(MemFreeBlock::new(0, 10));
    master.insert(MemFreeBlock::new(20, 25));
    // The smaller block comes first, whatever its offset.
    let first = master.get_by_index(0).unwrap();
    let second = master.get_by_index(1).unwrap();
    assert_eq!((first.start, first.end), (20, 25));
    assert_eq!((second.start, second.end), (0, 10));
    assert!(master.get_by_index(2).is_none());
    // Equal sizes are ordered by start offset.
    master.insert(MemFreeBlock::new(40, 45));
    assert_eq!(master.get_by_index(0).unwrap().start, 20);
    assert_eq!(master.get_by_index(1).unwrap().start, 40);
    assert_eq!(master.get_by_index(2).unwrap().start, 0);
}
