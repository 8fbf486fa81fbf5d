//! Memory-management core of an entity/component data store.
//!
//! A fixed-capacity arena is carved into chunks of same-sized record
//! slots; a best-fit free-block allocator recycles released byte
//! ranges; component pools group the chunks of one record type behind
//! stable logical indices; sparse maps translate external indices into
//! densely packed storage, optionally guarded by generation counters.

pub mod arena;
pub mod chunk;
pub mod component;
pub mod component_pool;
pub mod component_pool_bundle;
pub mod constants;
pub mod free_chunk_master;
pub mod free_mem_block;
pub mod identifiers;
pub mod sparse_map;
pub mod sparse_slot_map;
pub mod utils;
