//! The record-type boundary: every record type supplies a
//! process-stable small integer identifier, a byte size and a byte
//! alignment, fixed before any pool for the type exists. The pool and
//! chunk layers consume only these three values.

use vstd::prelude::*;

verus! {

/// The layout facts of one record type, keyed by its stable
/// identifier.
#[derive(Debug, Clone, Copy, PartialEq, Eq, Structural)]
pub struct ComponentMetadata {
    /// The process-stable identifier of the record type.
    pub id: usize,
    /// The record size in bytes.
    pub size: usize,
    /// The record alignment in bytes.
    pub alignment: usize,
}

impl ComponentMetadata {
    /// Collects the three layout facts of one record type.
    pub fn new(id: usize, size: usize, alignment: usize) -> (r: ComponentMetadata)
        ensures
            r == (ComponentMetadata { id, size, alignment }),
    {
        ComponentMetadata { id, size, alignment }
    }
}

/// A record type that can live in a component pool: it knows its
/// stable identifier and its layout. Implementations come from the
/// program that registers its record types, once, at start-up.
pub trait Component: Sized {
    /// The process-stable identifier assigned to this record type.
    fn component_id() -> usize;

    /// The record size in bytes.
    fn mem_size() -> usize;

    /// The record alignment in bytes.
    fn alignment() -> usize;
}

} // verus!
