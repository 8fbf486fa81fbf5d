//! Small identifier value types: generation-tagged slots, two-level
//! component addresses and entity handles.

use vstd::prelude::*;

verus! {

/// A generation counter attached to a recyclable index.
pub type Generation = u32;

/// An index paired with a generation counter, used to detect stale
/// references after an index has been recycled.
#[derive(Debug, Clone, Copy, PartialEq, Eq, Structural)]
pub struct Slot {
    /// The recyclable index.
    pub index: usize,
    /// The generation the index was seen at.
    pub generation: Generation,
}

impl Slot {
    /// Creates a slot with the given index and generation.
    pub fn new(index: usize, generation: Generation) -> (r: Slot)
        ensures
            r.index == index,
            r.generation == generation,
    {
        Slot { index, generation }
    }

    /// The index component of the slot.
    pub fn index(&self) -> (r: usize)
        ensures
            r == self.index,
    {
        self.index
    }

    /// The generation component of the slot.
    pub fn generation(&self) -> (r: Generation)
        ensures
            r == self.generation,
    {
        self.generation
    }

    /// Bumps the generation counter, wrapping at its maximum, and
    /// returns the new generation.
    pub fn increment_generation(&mut self) -> (r: Generation)
        ensures
            final(self).index == old(self).index,
            final(self).generation == if old(self).generation == Generation::MAX {
                0u32
            } else {
                (old(self).generation + 1) as u32
            },
            r == final(self).generation,
    {
        self.generation = if self.generation == Generation::MAX {
            0
        } else {
            self.generation + 1
        };
        self.generation
    }
}

/// A two-level component address: the chunk that holds the record and
/// the slot of the record within that chunk.
#[derive(Debug, Clone, Copy, PartialEq, Eq, Structural)]
pub struct UnitId {
    /// Index of the chunk containing the component.
    pub id_chunk: usize,
    /// Index of the component within the chunk.
    pub id_inland: usize,
}

impl UnitId {
    /// Creates an address from a chunk index and an in-chunk index.
    pub fn new(id_chunk: usize, id_inland: usize) -> (r: UnitId)
        ensures
            r.id_chunk == id_chunk,
            r.id_inland == id_inland,
    {
        UnitId { id_chunk, id_inland }
    }

    /// The chunk index.
    pub fn chunk_index(&self) -> (r: usize)
        ensures
            r == self.id_chunk,
    {
        self.id_chunk
    }

    /// The index within the chunk.
    pub fn inland_index(&self) -> (r: usize)
        ensures
            r == self.id_inland,
    {
        self.id_inland
    }
}

/// A compact two-level component address with 32-bit parts.
#[derive(Debug, Clone, Copy, PartialEq, Eq, Structural)]
pub struct ComponentIndex {
    /// Index of the chunk containing the component.
    pub id_chunk: u32,
    /// Index of the component within the chunk.
    pub id_inland: u32,
}

impl ComponentIndex {
    /// Creates an address from a chunk index and an in-chunk index,
    /// both of which must fit in 32 bits.
    pub fn new(id_chunk: usize, id_inland: usize) -> (r: ComponentIndex)
        requires
            id_chunk <= u32::MAX,
            id_inland <= u32::MAX,
        ensures
            r.id_chunk == id_chunk,
            r.id_inland == id_inland,
    {
        ComponentIndex { id_chunk: id_chunk as u32, id_inland: id_inland as u32 }
    }

    /// The chunk index.
    pub fn chunk_index(&self) -> (r: usize)
        ensures
            r == self.id_chunk,
    {
        self.id_chunk as usize
    }

    /// The index within the chunk.
    pub fn inland_index(&self) -> (r: usize)
        ensures
            r == self.id_inland,
    {
        self.id_inland as usize
    }
}

/// An entity handle: an identifier with a generation counter.
#[derive(Debug, Clone, Copy, PartialEq, Eq, Structural)]
pub struct Entity {
    /// The entity's identifier.
    pub id: usize,
    /// The generation of the identifier, bumped when it is recycled.
    pub generation: u16,
}

impl Entity {
    /// Creates an entity with the given identifier and generation.
    pub fn new(id: usize, generation: u16) -> (r: Entity)
        ensures
            r.id == id,
            r.generation == generation,
    {
        Entity { id, generation }
    }

    /// Creates an entity with the given identifier and generation 0.
    pub fn with_id(id: usize) -> (r: Entity)
        ensures
            r.id == id,
            r.generation == 0,
    {
        Entity { id, generation: 0 }
    }

    /// The entity's identifier.
    pub fn id(&self) -> (r: usize)
        ensures
            r == self.id,
    {
        self.id
    }

    /// The generation of the identifier.
    pub fn generation(&self) -> (r: u16)
        ensures
            r == self.generation,
    {
        self.generation
    }

    /// Bumps the generation counter, wrapping at its maximum.
    pub fn increment_generation(&mut self)
        ensures
            final(self).id == old(self).id,
            final(self).generation == if old(self).generation == u16::MAX {
                0u16
            } else {
                (old(self).generation + 1) as u16
            },
    {
        self.generation = if self.generation == u16::MAX {
            0
        } else {
            self.generation + 1
        };
    }

    /// Whether this handle names the same entity as `other`: both the
    /// identifier and the generation agree.
    pub fn is_same(&self, other: &Entity) -> (r: bool)
        ensures
            r == (self.id == other.id && self.generation == other.generation),
    {
        self.id == other.id && self.generation == other.generation
    }
}

} // verus!
