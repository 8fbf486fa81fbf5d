//! Behaviour of chunks: slot allocation and reuse, occupancy
//! bookkeeping, record bytes and compaction.

use boyko_ecs::arena::Arena;
use boyko_ecs::chunk::Chunk;

fn record(tag: u8) -> Vec<u8> {
    vec![tag, tag, tag, tag]
}

#[test]
fn fresh_chunk_is_empty() {
    let mut arena = Arena::with_capacity(4096);
    let chunk = Chunk::new(&mut arena, 8, 4, 4).unwrap();
    assert_eq!(chunk.capacity(), 8);
    assert_eq!(chunk.count(), 0);
    assert_eq!(chunk.active_count(), 0);
    assert!(!chunk.is_full());
    for i in 0..8 {
        assert!(!chunk.is_occupied(i));
    }
}

#[test]
fn capacity_eight_scenario() {
    // A capacity-8 chunk: eight records land in slots 0 through 7, a
    // ninth is refused, and after freeing slot 3 the next record
    // reuses exactly that slot.
    let mut arena = Arena::with_capacity(4096);
    let mut chunk = Chunk::new(&mut arena, 8, 4, 4).unwrap();
    for i in 0..8 {
        let slot = chunk.raw_add(&record(i as u8)).unwrap();
        assert_eq!(slot, i);
    }
    assert!(chunk.is_full());
    assert!(chunk.raw_add(&record(9)).is_none());
    assert!(chunk.free_slot(3));
    assert!(!chunk.is_occupied(3));
    let slot = chunk.raw_add(&record(42)).unwrap();
    assert_eq!(slot, 3);
    assert_eq!(chunk.raw_get(3).unwrap(), record(42));
}

#[test]
fn occupancy_counts_stay_consistent() {
    // Through a mixed allocate/free sequence, the chunk keeps
    // active_count <= count <= capacity, and is_occupied tracks the
    // bitmap exactly.
    let mut arena = Arena::with_capacity(4096);
    let mut chunk = Chunk::new(&mut arena, 8, 4, 4).unwrap();
    let checks = |c: &Chunk| {
        assert!(c.active_count() <= c.count());
        assert!(c.count() <= c.capacity());
    };
    for i in 0..5 {
        chunk.allocate_slot().unwrap();
        checks(&chunk);
        assert!(chunk.is_occupied(i));
    }
    assert_eq!((chunk.count(), chunk.active_count()), (5, 5));
    assert!(chunk.free_slot(1));
    checks(&chunk);
    assert!(!chunk.is_occupied(1));
    assert_eq!((chunk.count(), chunk.active_count()), (5, 4));
    assert!(chunk.free_slot(4));
    checks(&chunk);
    assert_eq!((chunk.count(), chunk.active_count()), (5, 3));
    // Freeing twice is a no-op.
    assert!(!chunk.free_slot(4));
    assert_eq!(chunk.active_count(), 3);
    // The lowest free slot is reused first.
    assert_eq!(chunk.allocate_slot().unwrap(), 1);
    checks(&chunk);
}

#[test]
fn out_of_range_slots_are_rejected() {
    let mut arena = Arena::with_capacity(4096);
    let mut chunk = Chunk::new(&mut arena, 4, 4, 4).unwrap();
    assert!(!chunk.is_occupied(4));
    assert!(!chunk.free_slot(4));
    assert!(chunk.raw_get(4).is_none());
    assert!(!chunk.raw_set(4, &record(1)));
}

#[test]
fn records_read_back_and_freed_slots_zero() {
    let mut arena = Arena::with_capacity(4096);
    let mut chunk = Chunk::new(&mut arena, 4, 4, 4).unwrap();
    let s0 = chunk.raw_add(&record(7)).unwrap();
    let s1 = chunk.raw_add(&record(9)).unwrap();
    assert_eq!(chunk.raw_get(s0).unwrap(), record(7));
    assert_eq!(chunk.raw_get(s1).unwrap(), record(9));
    assert!(chunk.free_slot(s0));
    assert!(chunk.raw_get(s0).is_none());
    // raw_set claims a free slot directly and grows the high-water
    // mark when needed.
    assert!(chunk.raw_set(3, &record(5)));
    assert_eq!(chunk.count(), 4);
    assert_eq!(chunk.raw_get(3).unwrap(), record(5));
}

#[test]
fn compaction_packs_records_and_reports_moves() {
    let mut arena = Arena::with_capacity(4096);
    let mut chunk = Chunk::new(&mut arena, 8, 4, 4).unwrap();
    for tag in 0..4 {
        chunk.raw_add(&record(tag as u8)).unwrap();
    }
    assert!(chunk.free_slot(1));
    // Occupied: slots 0, 2, 3. Compaction slides each record to its
    // rank and reports exactly the records that moved.
    let moves = chunk.compact();
    assert_eq!(moves, vec![(2, 1), (3, 2)]);
    assert_eq!(chunk.count(), 3);
    assert_eq!(chunk.active_count(), 3);
    assert_eq!(chunk.raw_get(0).unwrap(), record(0));
    assert_eq!(chunk.raw_get(1).unwrap(), record(2));
    assert_eq!(chunk.raw_get(2).unwrap(), record(3));
    assert!(!chunk.is_occupied(3));
}

#[test]
fn compaction_of_dense_chunk_moves_nothing() {
    let mut arena = Arena::with_capacity(4096);
    let mut chunk = Chunk::new(&mut arena, 8, 4, 4).unwrap();
    chunk.raw_add(&record(1)).unwrap();
    chunk.raw_add(&record(2)).unwrap();
    let moves = chunk.compact();
    assert!(moves.is_empty());
    assert_eq!(chunk.raw_get(0).unwrap(), record(1));
    assert_eq!(chunk.raw_get(1).unwrap(), record(2));
}

#[test]
fn clear_frees_every_slot() {
    let mut arena = Arena::with_capacity(4096);
    let mut chunk = Chunk::new(&mut arena, 4, 4, 4).unwrap();
    chunk.raw_add(&record(1)).unwrap();
    chunk.raw_add(&record(2)).unwrap();
    chunk.clear();
    assert_eq!(chunk.count(), 0);
    assert_eq!(chunk.active_count(), 0);
    assert!(!chunk.is_occupied(0));
    assert_eq!(chunk.allocate_slot().unwrap(), 0);
}

#[test]
fn chunk_creation_fails_when_the_arena_is_spent() {
    let mut arena = Arena::with_capacity(64);
    // One chunk of 64 bytes fits exactly; a second cannot.
    let first = Chunk::new(&mut arena, 16, 4, 4);
    assert!(first.is_some());
    let second = Chunk::new(&mut arena, 16, 4, 4);
    assert!(second.is_none());
}

#[test]
fn default_capacity_chunk() {
    let mut arena = Arena::new();
    let chunk = Chunk::with_default_capacity(&mut arena, 16, 8).unwrap();
    assert_eq!(chunk.capacity(), boyko_ecs::constants::DEFAULT_COMPONENTS_PER_CHUNK);
    assert_eq!(chunk.active_count(), 0);
}

#[test]
fn range_visit_skips_free_slots() {
    let mut arena = Arena::with_capacity(4096);
    let mut chunk = Chunk::new(&mut arena, 8, 4, 4).unwrap();
    for tag in 0..6 {
        chunk.raw_add(&record(tag as u8)).unwrap();
    }
    chunk.free_slot(1);
    chunk.free_slot(4);
    assert_eq!(chunk.occupied_slots_in(0, 8), vec![0, 2, 3, 5]);
    assert_eq!(chunk.occupied_slots_in(2, 5), vec![2, 3]);
    assert_eq!(chunk.occupied_slots_in(6, 8), Vec::<usize>::new());
}
