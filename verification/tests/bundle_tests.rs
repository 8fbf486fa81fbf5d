//! Behaviour of the pool bundle and the record-type boundary.

use boyko_ecs::arena::Arena;
use boyko_ecs::component::{Component, ComponentMetadata};
use boyko_ecs::component_pool_bundle::ComponentPoolBundle;

struct Position;

impl Component for Position {
    fn component_id() -> usize {
        0
    }

    fn mem_size() -> usize {
        8
    }

    fn alignment() -> usize {
        4
    }
}

#[test]
fn one_pool_per_record_type() {
    let mut bundle = ComponentPoolBundle::new();
    assert!(bundle.is_empty());
    let p0 = bundle.add_pool(Position::component_id(), Position::mem_size(), Position::alignment());
    assert_eq!(p0, 0);
    assert_eq!(bundle.len(), 1);
    assert!(bundle.contains_id(0));
    assert!(!bundle.contains_id(1));
    // Registering the same record type again keeps its pool.
    let again = bundle.add_pool(0, 8, 4);
    assert_eq!(again, p0);
    assert_eq!(bundle.len(), 1);
    let p1 = bundle.add_pool(1, 16, 8);
    assert_eq!(p1, 1);
    assert_eq!(bundle.len(), 2);
}

#[test]
fn pools_are_reachable_by_identifier() {
    let mut bundle = ComponentPoolBundle::with_capacity(4);
    bundle.add_pool(3, 4, 4);
    let pool = bundle.get_pool_by_id(3).unwrap();
    assert_eq!(pool.component_id(), 3);
    assert_eq!(pool.component_size(), 4);
    assert!(bundle.get_pool_by_id(5).is_none());
}

#[test]
fn records_flow_through_the_bundle() {
    let mut arena = Arena::with_capacity(1 << 20);
    let mut bundle = ComponentPoolBundle::new();
    bundle.add_pool(2, 4, 4);
    let pool = bundle.get_pool_mut_by_id(2).unwrap();
    let k = pool.add(&mut arena, &vec![9, 8, 7, 6]).unwrap();
    assert_eq!(pool.get(k).unwrap(), vec![9, 8, 7, 6]);
    let read_back = bundle.get_pool_by_id(2).unwrap();
    assert_eq!(read_back.count(), 1);
    assert!(bundle.get_pool_mut_by_id(9).is_none());
}

#[test]
fn metadata_carries_the_three_layout_facts() {
    let m = ComponentMetadata::new(4, 24, 8);
    assert_eq!(m.id, 4);
    assert_eq!(m.size, 24);
    assert_eq!(m.alignment, 8);
    let copy = m;
    assert_eq!(copy, m);
}
