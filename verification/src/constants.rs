//! Sizing defaults for the arena, the chunks and the pools.

use vstd::prelude::*;

verus! {

/// Default arena size in bytes (64 MiB): the total amount of backing
/// memory set aside for all component storage.
pub const DEFAULT_ARENA_SIZE: usize = 64 * 1024 * 1024;

/// Typical CPU cache line size in bytes; arena grants are rounded up
/// to a multiple of it.
pub const CACHE_LINE_SIZE: usize = 64;

/// Minimum alignment for components: a record is placed on at least
/// this boundary even when its type asks for less.
pub const MIN_ALIGNMENT: usize = 8;

/// Default number of components per chunk.
pub const DEFAULT_COMPONENTS_PER_CHUNK: usize = 1024;

/// Default maximum number of chunks per component pool.
pub const DEFAULT_CHUNKS_PER_POOL: usize = 128;

/// Components per chunk for tiny records (below the tiny threshold).
pub const TINY_COMPONENTS_PER_CHUNK: usize = 2048;

/// Components per chunk for small records.
pub const SMALL_COMPONENTS_PER_CHUNK: usize = 1024;

/// Components per chunk for medium records.
pub const MEDIUM_COMPONENTS_PER_CHUNK: usize = 512;

/// Components per chunk for large records (above the medium threshold).
pub const LARGE_COMPONENTS_PER_CHUNK: usize = 256;

/// Record-size threshold (bytes) below which a record counts as tiny.
pub const TINY_COMPONENT_THRESHOLD: usize = 16;

/// Record-size threshold (bytes) below which a record counts as small.
pub const SMALL_COMPONENT_THRESHOLD: usize = 64;

/// Record-size threshold (bytes) below which a record counts as medium.
pub const MEDIUM_COMPONENT_THRESHOLD: usize = 256;

/// Initial entity capacity for archetypes.
pub const INITIAL_ENTITY_CAPACITY: usize = 1024;

/// Growth factor, in percent, applied when a container is resized.
pub const GROWTH_FACTOR_PERCENT: usize = 150;

/// Upper bound on how many times a pool may grow past its initial size.
pub const MAX_EXPANSION_FACTOR: usize = 8;

/// Fragmentation threshold, in percent of assigned logical indices,
/// above which pool compaction is considered.
pub const COMPACTION_THRESHOLD_PERCENT: usize = 25;

/// Minimum number of live records before compaction is considered;
/// keeps small pools from compacting over and over.
pub const MIN_COMPONENTS_FOR_COMPACTION: usize = 16;

/// Initial capacity of the vectors that track free component slots.
pub const INITIAL_FREE_SLOTS_CAPACITY: usize = 1024;

/// Share of fully empty chunks, in percent, above which a pool
/// reorganisation is considered.
pub const MAX_EMPTY_CHUNKS_PERCENT: usize = 20;

} // verus!
