//! Behaviour of the arena: bump allocation, alignment, reuse.

use boyko_ecs::arena::Arena;
use boyko_ecs::constants::{CACHE_LINE_SIZE, DEFAULT_ARENA_SIZE};

#[test]
fn capacity_rounds_up_to_cache_line() {
    let arena = Arena::with_capacity(100);
    assert_eq!(arena.capacity(), 128);
    let arena = Arena::with_capacity(128);
    assert_eq!(arena.capacity(), 128);
    assert_eq!(CACHE_LINE_SIZE, 64);
}

#[test]
fn default_arena_size_is_64_mib() {
    assert_eq!(DEFAULT_ARENA_SIZE, 64 * 1024 * 1024);
}

#[test]
fn grants_stay_in_bounds_and_aligned() {
    let mut arena = Arena::with_capacity(1024);
    let a = arena.allocate(100, 8).unwrap();
    assert!(a.end <= 1024);
    assert_eq!(a.start % 8, 0);
    assert_eq!(a.end - a.start, 100);
    let b = arena.allocate(200, 16).unwrap();
    assert!(b.end <= 1024);
    assert_eq!(b.start % 16, 0);
    // The two live grants are disjoint.
    assert!(a.end <= b.start || b.end <= a.start);
}

#[test]
fn minimum_alignment_floor_applies() {
    let mut arena = Arena::with_capacity(256);
    let a = arena.allocate(10, 1).unwrap();
    assert_eq!(a.start % 8, 0);
    let b = arena.allocate(10, 1).unwrap();
    assert_eq!(b.start % 8, 0);
    assert!(a.end <= b.start || b.end <= a.start);
}

#[test]
fn freeing_the_tail_retreats_the_cursor() {
    let mut arena = Arena::with_capacity(256);
    let a = arena.allocate(64, 8).unwrap();
    assert_eq!((a.start, a.end), (0, 64));
    assert_eq!(arena.cursor(), 64);
    arena.free(0, 64);
    assert_eq!(arena.cursor(), 0);
}

#[test]
fn freed_interior_range_is_reused_before_the_cursor_moves() {
    let mut arena = Arena::with_capacity(256);
    let a = arena.allocate(64, 8).unwrap();
    let b = arena.allocate(64, 8).unwrap();
    assert_eq!((a.start, a.end), (0, 64));
    assert_eq!((b.start, b.end), (64, 128));
    arena.free(a.start, 64);
    let c = arena.allocate(32, 8).unwrap();
    // The grant comes from the reclaimed range, not from the cursor.
    assert_eq!(c.start, 0);
    assert_eq!(arena.cursor(), 128);
}

#[test]
fn exhaustion_reports_no_capacity() {
    let mut arena = Arena::with_capacity(64);
    assert!(arena.allocate(65, 1).is_none());
    let a = arena.allocate(64, 1).unwrap();
    assert_eq!((a.start, a.end), (0, 64));
    assert!(arena.allocate(1, 1).is_none());
}

#[test]
fn allocate_from_free_blocks_never_bumps() {
    let mut arena = Arena::with_capacity(256);
    assert!(arena.allocate_from_free_blocks(16, 8).is_none());
    assert_eq!(arena.cursor(), 0);
    let a = arena.allocate(64, 8).unwrap();
    let _b = arena.allocate(64, 8).unwrap();
    arena.free(a.start, 64);
    let c = arena.allocate_from_free_blocks(16, 8).unwrap();
    assert_eq!(c.start, 0);
    assert_eq!(arena.cursor(), 128);
}
