//! Behaviour of component pools: stable logical indices, reuse,
//! growth, exhaustion and compaction.

use boyko_ecs::arena::Arena;
use boyko_ecs::component_pool::ComponentPool;
use boyko_ecs::identifiers::UnitId;

fn record(tag: u8) -> Vec<u8> {
    vec![tag, 0, 0, tag]
}

#[test]
fn indices_stay_stable_until_removed() {
    // After allocate returns index k, get(k) returns the record until
    // remove(k); then get(k) reads as not found, and a later allocate
    // may hand k out again with a new record.
    let mut arena = Arena::with_capacity(4096);
    let mut pool = ComponentPool::new(7, 4, 4, 8, 4);
    let k = pool.add(&mut arena, &record(1)).unwrap();
    assert_eq!(k, 0);
    assert_eq!(pool.get(k).unwrap(), record(1));
    let k2 = pool.add(&mut arena, &record(2)).unwrap();
    assert_eq!(k2, 1);
    assert_eq!(pool.get(k).unwrap(), record(1));
    assert!(pool.remove(k));
    assert!(pool.get(k).is_none());
    assert_eq!(pool.get(k2).unwrap(), record(2));
    let k3 = pool.add(&mut arena, &record(3)).unwrap();
    assert_eq!(k3, k);
    assert_eq!(pool.get(k3).unwrap(), record(3));
    assert_eq!(pool.get(k2).unwrap(), record(2));
}

#[test]
fn removing_a_dead_index_changes_nothing() {
    let mut arena = Arena::with_capacity(4096);
    let mut pool = ComponentPool::new(7, 4, 4, 8, 4);
    assert!(!pool.remove(0));
    let k = pool.add(&mut arena, &record(1)).unwrap();
    assert!(pool.remove(k));
    assert!(!pool.remove(k));
    assert!(pool.get(5).is_none());
}

#[test]
fn pool_grows_chunks_up_to_the_bound() {
    let mut arena = Arena::with_capacity(4096);
    let mut pool = ComponentPool::new(7, 4, 4, 2, 2);
    for tag in 0..4 {
        assert!(pool.add(&mut arena, &record(tag as u8)).is_some());
    }
    assert_eq!(pool.chunks_count(), 2);
    assert_eq!(pool.count(), 4);
    assert!(pool.is_full());
    assert!(pool.add(&mut arena, &record(9)).is_none());
    assert_eq!(pool.remaining_capacity(), 0);
    // Freeing one record makes room again without a new chunk.
    assert!(pool.remove(1));
    assert!(!pool.is_full());
    let k = pool.add(&mut arena, &record(9)).unwrap();
    assert_eq!(k, 1);
    assert_eq!(pool.chunks_count(), 2);
}

#[test]
fn set_overwrites_a_live_record() {
    let mut arena = Arena::with_capacity(4096);
    let mut pool = ComponentPool::new(3, 4, 4, 4, 2);
    let k = pool.add(&mut arena, &record(1)).unwrap();
    assert!(pool.set(k, &record(8)));
    assert_eq!(pool.get(k).unwrap(), record(8));
    assert!(!pool.set(17, &record(8)));
}

#[test]
fn pool_reports_its_shape() {
    let mut arena = Arena::with_capacity(4096);
    let mut pool = ComponentPool::new(11, 4, 4, 4, 3);
    assert_eq!(pool.component_id(), 11);
    assert_eq!(pool.component_size(), 4);
    assert_eq!(pool.component_align(), 4);
    assert_eq!(pool.capacity(), 0);
    pool.add(&mut arena, &record(1)).unwrap();
    assert_eq!(pool.capacity(), 4);
    assert_eq!(pool.chunk_component_count(0).unwrap(), 1);
    assert!(pool.chunk_component_count(1).is_none());
    assert_eq!(pool.current_chunk_index(), 0);
    assert_eq!(pool.remaining_capacity(), 3);
}

#[test]
fn default_sizes_follow_the_record_size() {
    let pool = ComponentPool::with_default_sizes(1, 8, 8);
    assert_eq!(pool.component_size(), 8);
    assert_eq!(pool.count(), 0);
}

#[test]
fn fragmentation_tracks_recycled_indices() {
    let mut arena = Arena::with_capacity(65536);
    let mut pool = ComponentPool::new(7, 4, 4, 32, 4);
    assert_eq!(pool.fragmentation_percent(), 0);
    assert!(!pool.should_compact());
    for tag in 0..24 {
        pool.add(&mut arena, &record(tag as u8)).unwrap();
    }
    for k in 0..7 {
        assert!(pool.remove(k));
    }
    // 7 of 24 assigned indices are recycled: 29 percent.
    assert_eq!(pool.fragmentation_percent(), 29);
    // Above the threshold, and 17 live records remain: compaction is
    // called for.
    assert!(pool.should_compact());
    for k in 7..16 {
        assert!(pool.remove(k));
    }
    // Only 8 live records remain: too few to bother.
    assert!(!pool.should_compact());
}

#[test]
fn compaction_keeps_every_live_record_and_reports_moves() {
    let mut arena = Arena::with_capacity(4096);
    let mut pool = ComponentPool::new(7, 4, 4, 4, 4);
    let mut keys = Vec::new();
    for tag in 0..8 {
        keys.push(pool.add(&mut arena, &record(tag as u8)).unwrap());
    }
    assert_eq!(pool.chunks_count(), 2);
    // Free two interior slots of the first chunk.
    assert!(pool.remove(keys[1]));
    assert!(pool.remove(keys[2]));
    let moves = pool.compact();
    // Only the record in slot 3 of chunk 0 had to move, into slot 1.
    assert_eq!(moves.len(), 1);
    assert_eq!(moves[0].0, UnitId::new(0, 3));
    assert_eq!(moves[0].1, UnitId::new(0, 1));
    // Every index that was live is still retrievable, with its record.
    assert_eq!(pool.get(keys[0]).unwrap(), record(0));
    assert_eq!(pool.get(keys[3]).unwrap(), record(3));
    for (i, k) in keys.iter().enumerate().skip(4) {
        assert_eq!(pool.get(*k).unwrap(), record(i as u8));
    }
    assert!(pool.get(keys[1]).is_none());
    assert_eq!(pool.count(), 6);
}

#[test]
fn compaction_registers_emptied_chunks_for_reuse() {
    let mut arena = Arena::with_capacity(4096);
    let mut pool = ComponentPool::new(7, 4, 4, 2, 4);
    for tag in 0..6 {
        pool.add(&mut arena, &record(tag as u8)).unwrap();
    }
    assert_eq!(pool.chunks_count(), 3);
    // Empty the middle chunk.
    assert!(pool.remove(2));
    assert!(pool.remove(3));
    let moves = pool.compact();
    assert!(moves.is_empty());
    // New records go to the reusable chunk; no fourth chunk appears.
    pool.add(&mut arena, &record(9)).unwrap();
    pool.add(&mut arena, &record(10)).unwrap();
    assert_eq!(pool.chunks_count(), 3);
    assert_eq!(pool.count(), 6);
}

#[test]
fn thread_ranges_cover_the_live_count() {
    let mut arena = Arena::with_capacity(4096);
    let mut pool = ComponentPool::new(7, 4, 4, 8, 4);
    for tag in 0..10 {
        pool.add(&mut arena, &record(tag as u8)).unwrap();
    }
    let (s0, e0) = pool.thread_range(0, 3);
    let (s1, e1) = pool.thread_range(1, 3);
    let (s2, e2) = pool.thread_range(2, 3);
    assert_eq!((s0, e0), (0, 4));
    assert_eq!((s1, e1), (4, 7));
    assert_eq!((s2, e2), (7, 10));
}
