//! Behaviour of the identifier value types.

use boyko_ecs::identifiers::{ComponentIndex, Entity, Slot, UnitId};

#[test]
fn slot_carries_index_and_generation() {
    let mut slot = Slot::new(4, 7);
    assert_eq!(slot.index(), 4);
    assert_eq!(slot.generation(), 7);
    assert_eq!(slot.increment_generation(), 8);
    assert_eq!(slot.generation(), 8);
    let mut wrapping = Slot::new(0, u32::MAX);
    assert_eq!(wrapping.increment_generation(), 0);
}

#[test]
fn unit_id_carries_both_levels() {
    let u = UnitId::new(3, 17);
    assert_eq!(u.chunk_index(), 3);
    assert_eq!(u.inland_index(), 17);
    assert_eq!(u, UnitId::new(3, 17));
    assert_ne!(u, UnitId::new(3, 18));
}

#[test]
fn component_index_narrows_to_32_bits() {
    let ci = ComponentIndex::new(5, 600);
    assert_eq!(ci.chunk_index(), 5);
    assert_eq!(ci.inland_index(), 600);
    assert_eq!(ci, ComponentIndex::new(5, 600));
}

#[test]
fn entity_identity_needs_both_fields() {
    let a = Entity::new(10, 0);
    let b = Entity::with_id(10);
    assert!(a.is_same(&b));
    assert_eq!(a.id(), 10);
    assert_eq!(a.generation(), 0);
    let mut c = b;
    c.increment_generation();
    assert!(!a.is_same(&c));
    assert_eq!(c.generation(), 1);
    let mut wrapping = Entity::new(1, u16::MAX);
    wrapping.increment_generation();
    assert_eq!(wrapping.generation(), 0);
}
