//! Behaviour of the plain sparse map.

use boyko_ecs::sparse_map::SparseMap;

#[test]
fn insert_lookup_and_replace() {
    let mut map: SparseMap<u32> = SparseMap::new();
    assert!(map.is_empty());
    assert_eq!(map.insert(5, 50), None);
    assert_eq!(map.insert(9, 90), None);
    assert_eq!(map.insert(2, 20), None);
    assert_eq!(map.len(), 3);
    assert!(map.contains(5));
    assert!(!map.contains(4));
    assert_eq!(map.get(9), Some(&90));
    assert_eq!(map.get(4), None);
    // Re-inserting replaces in place and hands the old value back.
    assert_eq!(map.insert(9, 91), Some(90));
    assert_eq!(map.len(), 3);
    assert_eq!(map.get(9), Some(&91));
}

#[test]
fn swap_remove_fixes_up_the_moved_entry() {
    let mut map: SparseMap<u32> = SparseMap::with_capacity(8);
    map.insert(5, 50);
    map.insert(9, 90);
    map.insert(2, 20);
    // Removing the first-inserted entry swaps the last one into its
    // packed position; lookups still find everything else.
    assert_eq!(map.swap_remove(5), Some(50));
    assert_eq!(map.len(), 2);
    assert!(!map.contains(5));
    assert_eq!(map.get(9), Some(&90));
    assert_eq!(map.get(2), Some(&20));
    assert_eq!(map.swap_remove(5), None);
    assert_eq!(map.swap_remove(9), Some(90));
    assert_eq!(map.get(2), Some(&20));
    assert_eq!(map.len(), 1);
}

#[test]
fn get_mut_changes_only_that_value() {
    let mut map: SparseMap<u32> = SparseMap::new();
    map.insert(1, 10);
    map.insert(3, 30);
    if let Some(v) = map.get_mut(1) {
        *v = 11;
    }
    assert_eq!(map.get(1), Some(&11));
    assert_eq!(map.get(3), Some(&30));
    assert!(map.get_mut(2).is_none());
}

#[test]
fn clear_vacates_but_keeps_the_sparse_side() {
    let mut map: SparseMap<u32> = SparseMap::new();
    map.insert(7, 70);
    map.insert(1, 10);
    let sparse_len = map.sparse_len();
    map.clear();
    assert!(map.is_empty());
    assert_eq!(map.len(), 0);
    assert!(!map.contains(7));
    assert_eq!(map.sparse_len(), sparse_len);
    assert_eq!(map.insert(7, 71), None);
    assert_eq!(map.get(7), Some(&71));
}
