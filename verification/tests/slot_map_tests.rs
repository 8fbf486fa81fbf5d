//! Behaviour of the generational sparse map: stale handles die when
//! their slot is recycled.

use boyko_ecs::identifiers::Slot;
use boyko_ecs::sparse_slot_map::SparseSlotMap;

#[test]
fn generation_protects_against_stale_handles() {
    // Insert at index 3 under generation 0, remove it, reinsert under
    // the bumped generation: the old handle must fail everywhere, the
    // new one must work.
    let mut map: SparseSlotMap<u32> = SparseSlotMap::new();
    let slot = map.create_slot(3);
    assert_eq!(map.insert(slot, 30), None);
    assert!(map.contains(slot));
    assert_eq!(map.get(slot), Some(&30));
    assert_eq!(map.remove(slot), Some(30));
    // The stale handle no longer matches.
    assert!(!map.contains(slot));
    assert_eq!(map.get(slot), None);
    assert_eq!(map.remove(slot), None);
    assert_eq!(map.insert(slot, 31), None);
    assert!(!map.contains(slot));
    // The bumped handle works.
    let fresh = Slot::new(3, 1);
    assert_eq!(map.insert(fresh, 33), None);
    assert_eq!(map.get(fresh), Some(&33));
    assert_eq!(map.get(slot), None);
    assert_eq!(map.remove(slot), None);
    assert_eq!(map.remove(fresh), Some(33));
}

#[test]
fn insert_replaces_under_matching_generation() {
    let mut map: SparseSlotMap<u32> = SparseSlotMap::with_capacity(4);
    let slot = map.create_slot(0);
    assert_eq!(map.insert(slot, 1), None);
    assert_eq!(map.insert(slot, 2), Some(1));
    assert_eq!(map.get(slot), Some(&2));
    assert_eq!(map.len(), 1);
}

#[test]
fn swap_removal_keeps_other_generational_entries() {
    let mut map: SparseSlotMap<u32> = SparseSlotMap::new();
    let a = map.create_slot(5);
    let b = map.create_slot(9);
    let c = map.create_slot(2);
    map.insert(a, 50);
    map.insert(b, 90);
    map.insert(c, 20);
    assert_eq!(map.remove(a), Some(50));
    assert_eq!(map.get(b), Some(&90));
    assert_eq!(map.get(c), Some(&20));
    assert_eq!(map.len(), 2);
    assert_eq!(map.remove(b), Some(90));
    assert_eq!(map.get(c), Some(&20));
}

#[test]
fn get_mut_respects_generations() {
    let mut map: SparseSlotMap<u32> = SparseSlotMap::new();
    let slot = map.create_slot(1);
    map.insert(slot, 10);
    if let Some(v) = map.get_mut(slot) {
        *v = 11;
    }
    assert_eq!(map.get(slot), Some(&11));
    map.remove(slot);
    assert!(map.get_mut(slot).is_none());
}

#[test]
fn clear_keeps_generations() {
    let mut map: SparseSlotMap<u32> = SparseSlotMap::new();
    let slot = map.create_slot(4);
    map.insert(slot, 40);
    assert_eq!(map.remove(slot), Some(40));
    map.insert(Slot::new(4, 1), 41);
    map.clear();
    assert!(map.is_empty());
    // The index is still at generation 1 after the clear.
    assert_eq!(map.insert(Slot::new(4, 0), 42), None);
    assert!(!map.contains(Slot::new(4, 0)));
    assert_eq!(map.insert(Slot::new(4, 1), 43), None);
    assert_eq!(map.get(Slot::new(4, 1)), Some(&43));
    assert_eq!(map.sparse_len(), 5);
}
