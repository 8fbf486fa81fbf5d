//! Component pools: the owner of all chunks for one record type. A
//! pool hands out stable logical indices; each live index resolves
//! through an index table to one occupied chunk slot, and every
//! occupied chunk slot is owned by exactly one logical index. Freed
//! indices are recycled through a free-index list, fully emptied
//! chunks through the free-chunk registry, and compaction packs the
//! records of each chunk while remapping the table.

use vstd::prelude::*;
use crate::arena::Arena;
use crate::chunk::Chunk;
use crate::constants::{
    CACHE_LINE_SIZE,
    COMPACTION_THRESHOLD_PERCENT,
    DEFAULT_CHUNKS_PER_POOL,
    LARGE_COMPONENTS_PER_CHUNK,
    MEDIUM_COMPONENTS_PER_CHUNK,
    MEDIUM_COMPONENT_THRESHOLD,
    MIN_ALIGNMENT,
    MIN_COMPONENTS_FOR_COMPACTION,
    SMALL_COMPONENTS_PER_CHUNK,
    SMALL_COMPONENT_THRESHOLD,
    TINY_COMPONENTS_PER_CHUNK,
    TINY_COMPONENT_THRESHOLD,
};
use crate::free_chunk_master::FreeChunkMaster;
use crate::identifiers::UnitId;
use crate::utils;

verus! {

/// The pool of chunks for one record type, with the logical-index
/// table, its reverse, the free-index list and the free-chunk
/// registry.
pub struct ComponentPool {
    chunks: Vec<Chunk>,
    rev: Vec<Vec<Option<usize>>>,
    index_table: Vec<Option<UnitId>>,
    free_indices: Vec<usize>,
    free_chunks: FreeChunkMaster,
    current_chunk_index: usize,
    count: usize,
    capacity_per_chunk: usize,
    max_chunks: usize,
    component_id: usize,
    component_size: usize,
    component_align: usize,
}

impl ComponentPool {
    /// The chunks of the pool.
    pub closed spec fn chunks_seq(self) -> Seq<Chunk> {
        self.chunks@
    }

    /// The reverse map: for each chunk slot, the logical index that
    /// owns it.
    pub closed spec fn rev_seq(self) -> Seq<Seq<Option<usize>>> {
        Seq::new(self.rev@.len(), |c: int| self.rev@[c]@)
    }

    /// The logical-index table.
    pub closed spec fn table_seq(self) -> Seq<Option<UnitId>> {
        self.index_table@
    }

    /// The recycled logical indices.
    pub closed spec fn free_seq(self) -> Seq<usize> {
        self.free_indices@
    }

    /// The free-chunk registry.
    pub closed spec fn registry(self) -> FreeChunkMaster {
        self.free_chunks
    }

    /// The number of live records.
    pub closed spec fn spec_count(self) -> int {
        self.count as int
    }

    /// The number of slots in each chunk.
    pub closed spec fn spec_capacity_per_chunk(self) -> int {
        self.capacity_per_chunk as int
    }

    /// The bound on the number of chunks.
    pub closed spec fn spec_max_chunks(self) -> int {
        self.max_chunks as int
    }

    /// The record type's identifier.
    pub closed spec fn spec_component_id(self) -> int {
        self.component_id as int
    }

    /// The record size in bytes.
    pub closed spec fn spec_component_size(self) -> int {
        self.component_size as int
    }

    /// The record alignment in bytes.
    pub closed spec fn spec_component_align(self) -> int {
        self.component_align as int
    }

    /// The chunk that received the most recent allocation.
    pub closed spec fn spec_current_chunk(self) -> int {
        self.current_chunk_index as int
    }

    /// Whether logical index `k` holds a record.
    pub open spec fn live(self, k: int) -> bool {
        0 <= k < self.table_seq().len() && self.table_seq()[k] is Some
    }

    /// The physical location of logical index `k`.
    pub open spec fn location(self, k: int) -> UnitId
        recommends
            self.live(k),
    {
        self.table_seq()[k]->0
    }

    /// The record bytes under logical index `k`.
    pub open spec fn record(self, k: int) -> Seq<u8>
        recommends
            self.live(k),
            self.wf(),
    {
        self.chunks_seq()[self.location(k).id_chunk as int].record_at(
            self.location(k).id_inland as int,
        )
    }

    /// Whether some existing chunk still has a free slot.
    pub open spec fn has_room(self) -> bool {
        exists|c: int|
            0 <= c < self.chunks_seq().len() && self.chunks_seq()[c].spec_active()
                < self.spec_capacity_per_chunk()
    }

    /// The byte size of one chunk's arena grant.
    pub open spec fn spec_chunk_bytes(self) -> int {
        utils::spec_align_up(
            utils::spec_align_up(self.spec_component_size(), self.spec_component_align())
                * self.spec_capacity_per_chunk(),
            CACHE_LINE_SIZE as int,
        )
    }

    /// Structural invariant: every chunk is well formed and shaped for
    /// this pool's record type; the index table and the reverse map
    /// point at each other exactly, so each live logical index owns
    /// one occupied slot and each occupied slot has one owner; the
    /// free-index list holds vacant table entries without duplicates,
    /// and balances the live count against the table length.
    pub open spec fn wf(self) -> bool {
        &&& self.spec_component_size() >= 1
        &&& utils::is_pow2(self.spec_component_align() as nat)
        &&& self.spec_capacity_per_chunk() >= 1
        &&& self.spec_max_chunks() >= 1
        &&& (self.spec_component_size() + self.spec_component_align())
            * self.spec_capacity_per_chunk() + CACHE_LINE_SIZE + self.spec_component_align()
            + MIN_ALIGNMENT <= usize::MAX
        &&& self.spec_max_chunks() * self.spec_capacity_per_chunk() <= usize::MAX
        &&& self.chunks_seq().len() <= self.spec_max_chunks()
        &&& forall|c: int|
            #![trigger self.chunks_seq()[c]]
            0 <= c < self.chunks_seq().len() ==> self.chunks_seq()[c].wf()
                && self.chunks_seq()[c].spec_capacity() == self.spec_capacity_per_chunk()
                && self.chunks_seq()[c].spec_component_size() == self.spec_component_size()
        &&& self.rev_seq().len() == self.chunks_seq().len()
        &&& forall|c: int|
            0 <= c < self.rev_seq().len() ==> self.rev_seq()[c].len()
                == self.spec_capacity_per_chunk()
        &&& forall|k: int|
            #![trigger self.table_seq()[k]]
            0 <= k < self.table_seq().len() && self.table_seq()[k] is Some ==> {
                let u = self.table_seq()[k]->0;
                &&& (u.id_chunk as int) < self.chunks_seq().len()
                &&& (u.id_inland as int) < self.spec_capacity_per_chunk()
                &&& self.chunks_seq()[u.id_chunk as int].occupied(u.id_inland as int)
                &&& self.rev_seq()[u.id_chunk as int][u.id_inland as int] == Some(k as usize)
            }
        &&& forall|c: int, s: int|
            #![trigger self.rev_seq()[c][s]]
            0 <= c < self.rev_seq().len() && 0 <= s < self.spec_capacity_per_chunk()
                && self.rev_seq()[c][s] is Some ==> {
                let k = self.rev_seq()[c][s]->0;
                &&& (k as int) < self.table_seq().len()
                &&& self.table_seq()[k as int] == Some(
                    UnitId { id_chunk: c as usize, id_inland: s as usize },
                )
            }
        &&& forall|c: int, s: int|
            #![trigger self.chunks_seq()[c].occupied(s)]
            0 <= c < self.chunks_seq().len() && 0 <= s < self.spec_capacity_per_chunk()
                && self.chunks_seq()[c].occupied(s) ==> self.rev_seq()[c][s] is Some
        &&& forall|p: int|
            #![trigger self.free_seq()[p]]
            0 <= p < self.free_seq().len() ==> (self.free_seq()[p] as int)
                < self.table_seq().len() && self.table_seq()[self.free_seq()[p] as int] is None
        &&& forall|p: int, q: int|
            0 <= p < q < self.free_seq().len() ==> self.free_seq()[p] != self.free_seq()[q]
        &&& self.spec_count() + self.free_seq().len() == self.table_seq().len()
        &&& self.registry().wf()
        &&& forall|x: usize|
            self.registry().spec_contains(x) ==> (x as int) < self.chunks_seq().len()
        &&& (self.chunks_seq().len() == 0 || self.spec_current_chunk()
            < self.chunks_seq().len())
    }

    /// Creates an empty pool for records of `component_size` bytes at
    /// alignment `component_align`, with `capacity_per_chunk` slots
    /// per chunk and at most `max_chunks` chunks. Chunks are carved
    /// from the arena lazily, as records arrive. Records are at least
    /// one byte: a tag-only record type stores one placeholder byte.
    pub fn new(
        component_id: usize,
        component_size: usize,
        component_align: usize,
        capacity_per_chunk: usize,
        max_chunks: usize,
    ) -> (r: ComponentPool)
        requires
            component_size >= 1,
            utils::is_pow2(component_align as nat),
            capacity_per_chunk >= 1,
            max_chunks >= 1,
            (component_size + component_align) * capacity_per_chunk + CACHE_LINE_SIZE
                + component_align + MIN_ALIGNMENT <= usize::MAX,
            max_chunks * capacity_per_chunk <= usize::MAX,
        ensures
            r.wf(),
            r.spec_component_id() == component_id,
            r.spec_component_size() == component_size,
            r.spec_component_align() == component_align,
            r.spec_capacity_per_chunk() == capacity_per_chunk,
            r.spec_max_chunks() == max_chunks,
            r.spec_count() == 0,
            r.chunks_seq().len() == 0,
            r.table_seq().len() == 0,
            forall|k: int| !r.live(k),
    {
        ComponentPool {
            chunks: Vec::new(),
            rev: Vec::new(),
            index_table: Vec::new(),
            free_indices: Vec::new(),
            free_chunks: FreeChunkMaster::new(),
            current_chunk_index: 0,
            count: 0,
            capacity_per_chunk,
            max_chunks,
            component_id,
            component_size,
            component_align,
        }
    }

    /// Creates a pool with the default chunk capacity for the record
    /// size — smaller records get larger chunks — and the default
    /// chunk bound.
    pub fn with_default_sizes(
        component_id: usize,
        component_size: usize,
        component_align: usize,
    ) -> (r: ComponentPool)
        requires
            component_size >= 1,
            utils::is_pow2(component_align as nat),
            (component_size + component_align) * TINY_COMPONENTS_PER_CHUNK + CACHE_LINE_SIZE
                + component_align + MIN_ALIGNMENT <= usize::MAX,
        ensures
            r.wf(),
            r.spec_component_id() == component_id,
            r.spec_component_size() == component_size,
            r.spec_component_align() == component_align,
            r.spec_max_chunks() == DEFAULT_CHUNKS_PER_POOL,
            r.spec_capacity_per_chunk() == if component_size <= TINY_COMPONENT_THRESHOLD {
                TINY_COMPONENTS_PER_CHUNK as int
            } else if component_size <= SMALL_COMPONENT_THRESHOLD {
                SMALL_COMPONENTS_PER_CHUNK as int
            } else if component_size <= MEDIUM_COMPONENT_THRESHOLD {
                MEDIUM_COMPONENTS_PER_CHUNK as int
            } else {
                LARGE_COMPONENTS_PER_CHUNK as int
            },
            r.spec_count() == 0,
            r.chunks_seq().len() == 0,
            forall|k: int| !r.live(k),
    {
        let capacity = get_optimal_chunk_capacity(component_size);
        proof {
            assert((component_size + component_align) * capacity <= (component_size
                + component_align) * TINY_COMPONENTS_PER_CHUNK && DEFAULT_CHUNKS_PER_POOL
                * capacity <= DEFAULT_CHUNKS_PER_POOL * TINY_COMPONENTS_PER_CHUNK)
                by (nonlinear_arith)
                requires
                    component_size >= 1,
                    component_align >= 1,
                    1 <= capacity <= TINY_COMPONENTS_PER_CHUNK,
            ;
        }
        ComponentPool::new(
            component_id,
            component_size,
            component_align,
            capacity,
            DEFAULT_CHUNKS_PER_POOL,
        )
    }

    /// Finds a chunk with a free slot: the most recently active chunk
    /// first, then a chunk offered by the free-chunk registry, then
    /// the first chunk with room. Registry entries that turn out full
    /// are discarded. Touches nothing but the registry.
    fn pick_chunk(&mut self) -> (r: Option<usize>)
        requires
            old(self).wf(),
        ensures
            final(self).wf(),
            final(self).chunks_seq() == old(self).chunks_seq(),
            final(self).rev_seq() == old(self).rev_seq(),
            final(self).table_seq() == old(self).table_seq(),
            final(self).free_seq() == old(self).free_seq(),
            final(self).spec_count() == old(self).spec_count(),
            final(self).spec_capacity_per_chunk() == old(self).spec_capacity_per_chunk(),
            final(self).spec_max_chunks() == old(self).spec_max_chunks(),
            final(self).spec_component_id() == old(self).spec_component_id(),
            final(self).spec_component_size() == old(self).spec_component_size(),
            final(self).spec_component_align() == old(self).spec_component_align(),
            final(self).spec_current_chunk() == old(self).spec_current_chunk(),
            match r {
                Some(c) => c < old(self).chunks_seq().len()
                    && old(self).chunks_seq()[c as int].spec_active() < old(self).spec_capacity_per_chunk(),
                None => !old(self).has_room(),
            },
    {
        if self.chunks.len() > 0 && self.current_chunk_index < self.chunks.len() {
            if self.chunks[self.current_chunk_index].active_count() < self.capacity_per_chunk {
                return Some(self.current_chunk_index);
            }
        }
        // Drain the registry until it offers a chunk that still has
        // room; stale entries fall away.
        loop
            invariant
                self.wf(),
                self.chunks_seq() == old(self).chunks_seq(),
                self.rev_seq() == old(self).rev_seq(),
                self.table_seq() == old(self).table_seq(),
                self.free_seq() == old(self).free_seq(),
                self.spec_count() == old(self).spec_count(),
                self.spec_capacity_per_chunk() == old(self).spec_capacity_per_chunk(),
                self.spec_max_chunks() == old(self).spec_max_chunks(),
                self.spec_component_id() == old(self).spec_component_id(),
                self.spec_component_size() == old(self).spec_component_size(),
                self.spec_component_align() == old(self).spec_component_align(),
                self.spec_current_chunk() == old(self).spec_current_chunk(),
            decreases self.registry().view_seq().len(),
        {
            match self.free_chunks.get_best_chunk() {
                Some(c) => {
                    if self.chunks[c].active_count() < self.capacity_per_chunk {
                        return Some(c);
                    }
                },
                None => {
                    break ;
                },
            }
        }
        // Fall back to a scan for any chunk with room.
        let mut c: usize = 0;
        while c < self.chunks.len()
            invariant
                self.wf(),
                c <= self.chunks_seq().len(),
                self.chunks_seq() == old(self).chunks_seq(),
                self.rev_seq() == old(self).rev_seq(),
                self.table_seq() == old(self).table_seq(),
                self.free_seq() == old(self).free_seq(),
                self.spec_count() == old(self).spec_count(),
                self.spec_capacity_per_chunk() == old(self).spec_capacity_per_chunk(),
                self.spec_max_chunks() == old(self).spec_max_chunks(),
                self.spec_component_id() == old(self).spec_component_id(),
                self.spec_component_size() == old(self).spec_component_size(),
                self.spec_component_align() == old(self).spec_component_align(),
                self.spec_current_chunk() == old(self).spec_current_chunk(),
                forall|i: int|
                    0 <= i < c ==> self.chunks_seq()[i].spec_active()
                        >= self.spec_capacity_per_chunk(),
            decreases self.chunks_seq().len() - c,
        {
            if self.chunks[c].active_count() < self.capacity_per_chunk {
                return Some(c);
            }
            c = c + 1;
        }
        None
    }

    /// Stores a record and hands back its stable logical index: a
    /// recycled index when one is free, else a fresh one. The record
    /// lands in the most recently active chunk when it has room, else
    /// in a reusable or scanned chunk, else in a chunk newly carved
    /// from the arena — all subject to the chunk bound. Fails exactly
    /// when no chunk has room and no further chunk can be had.
    pub fn add(&mut self, arena: &mut Arena, value: &Vec<u8>) -> (r: Option<usize>)
        requires
            old(self).wf(),
            old(arena).wf(),
            value@.len() == old(self).spec_component_size(),
        ensures
            final(self).wf(),
            final(arena).wf(),
            final(arena).spec_capacity() == old(arena).spec_capacity(),
            final(self).spec_capacity_per_chunk() == old(self).spec_capacity_per_chunk(),
            final(self).spec_max_chunks() == old(self).spec_max_chunks(),
            final(self).spec_component_id() == old(self).spec_component_id(),
            final(self).spec_component_size() == old(self).spec_component_size(),
            final(self).spec_component_align() == old(self).spec_component_align(),
            r is None <==> !(old(self).has_room() || (old(self).chunks_seq().len() < old(self).spec_max_chunks() && old(arena).can_fit(
                old(self).spec_chunk_bytes(),
                old(self).spec_component_align(),
            ))),
            r is None ==> final(self).table_seq() == old(self).table_seq() && final(self).chunks_seq() == old(self).chunks_seq() && final(self).free_seq() == old(self).free_seq() && final(self).spec_count() == old(self).spec_count() && *final(arena)
                == *old(arena),
            match r {
                Some(k) => {
                    &&& !old(self).live(k as int)
                    &&& final(self).live(k as int)
                    &&& final(self).record(k as int) == value@
                    &&& (k as int) == if old(self).free_seq().len() > 0 {
                        old(self).free_seq().last() as int
                    } else {
                        old(self).table_seq().len() as int
                    }
                    &&& forall|j: int|
                        #![trigger final(self).live(j)]
                        #![trigger old(self).live(j)]
                        j != k ==> (final(self).live(j) <==> old(self).live(j))
                    &&& forall|j: int|
                        #![trigger final(self).record(j)]
                        #![trigger old(self).record(j)]
                        old(self).live(j) && j != k ==> final(self).record(j) == old(self).record(j) && final(self).location(j) == old(self).location(j)
                    &&& final(self).spec_count() == old(self).spec_count() + 1
                    &&& final(self).free_seq().len() == if old(self).free_seq().len() > 0 {
                        old(self).free_seq().len() - 1
                    } else {
                        0int
                    }
                    &&& final(self).chunks_seq().len() == old(self).chunks_seq().len() + (
                    if old(self).has_room() {
                        0int
                    } else {
                        1int
                    })
                    &&& (final(self).location(k as int).id_chunk as int) < final(self).chunks_seq().len()
                    &&& forall|cc: int|
                        #![trigger final(self).chunks_seq()[cc]]
                        #![trigger old(self).chunks_seq()[cc]]
                        0 <= cc < old(self).chunks_seq().len() && cc != final(self).location(
                            k as int,
                        ).id_chunk ==> final(self).chunks_seq()[cc] == old(self).chunks_seq()[
                            cc]
                    &&& final(self).chunks_seq()[final(self).location(
                        k as int,
                    ).id_chunk as int].spec_active() == 1 + (
                    if (final(self).location(k as int).id_chunk as int) < old(self).chunks_seq().len() {
                        old(self).chunks_seq()[final(self).location(
                            k as int,
                        ).id_chunk as int].spec_active()
                    } else {
                        0int
                    })
                },
                None => true,
            },
    {
        let picked = self.pick_chunk();
        let ghost mp = *self;
        let target = match picked {
            Some(c) => c,
            None => {
                // Grow: carve one more chunk from the arena.
                if self.chunks.len() >= self.max_chunks {
                    return None;
                }
                let new_chunk = match Chunk::new(
                    arena,
                    self.capacity_per_chunk,
                    self.component_size,
                    self.component_align,
                ) {
                    Some(c) => c,
                    None => {
                        return None;
                    },
                };
                let mut row: Vec<Option<usize>> = Vec::new();
                while row.len() < self.capacity_per_chunk
                    invariant
                        row@.len() <= mp.spec_capacity_per_chunk(),
                        forall|s: int| 0 <= s < row@.len() ==> row@[s] is None,
                        *self == mp,
                        mp.wf(),
                    decreases mp.spec_capacity_per_chunk() - row@.len(),
                {
                    row.push(None);
                }
                self.chunks.push(new_chunk);
                self.rev.push(row);
                self.current_chunk_index = self.chunks.len() - 1;
                proof {
                    let c1 = *self;
                    assert(c1.chunks_seq() == mp.chunks_seq().push(new_chunk));
                    assert forall|c: int|
                        0 <= c < c1.rev_seq().len() implies c1.rev_seq()[c] == (
                        if c < mp.rev_seq().len() {
                            mp.rev_seq()[c]
                        } else {
                            row@
                        }) by {}
                    assert(c1.wf()) by {
                        assert forall|k: int|
                            #![trigger c1.table_seq()[k]]
                            0 <= k < c1.table_seq().len() && c1.table_seq()[k] is Some
                            implies {
                            let u = c1.table_seq()[k]->0;
                            &&& (u.id_chunk as int) < c1.chunks_seq().len()
                            &&& (u.id_inland as int) < c1.spec_capacity_per_chunk()
                            &&& c1.chunks_seq()[u.id_chunk as int].occupied(u.id_inland as int)
                            &&& c1.rev_seq()[u.id_chunk as int][u.id_inland as int] == Some(
                                k as usize,
                            )
                        } by {
                            assert(mp.table_seq()[k] is Some);
                        }
                        assert forall|c: int, s: int|
                            #![trigger c1.rev_seq()[c][s]]
                            0 <= c < c1.rev_seq().len() && 0 <= s
                                < c1.spec_capacity_per_chunk() && c1.rev_seq()[c][s] is Some
                            implies {
                            let k = c1.rev_seq()[c][s]->0;
                            &&& (k as int) < c1.table_seq().len()
                            &&& c1.table_seq()[k as int] == Some(
                                UnitId { id_chunk: c as usize, id_inland: s as usize },
                            )
                        } by {
                            assert(c < mp.rev_seq().len());
                            assert(mp.rev_seq()[c][s] is Some);
                        }
                        assert forall|c: int, s: int|
                            #![trigger c1.chunks_seq()[c].occupied(s)]
                            0 <= c < c1.chunks_seq().len() && 0 <= s
                                < c1.spec_capacity_per_chunk() && c1.chunks_seq()[c].occupied(
                            s,
                        ) implies c1.rev_seq()[c][s] is Some by {
                            if c < mp.chunks_seq().len() {
                                assert(mp.chunks_seq()[c].occupied(s));
                            } else {
                                assert(!new_chunk.occupied(s));
                            }
                        }
                    }
                }
                self.chunks.len() - 1
            },
        };
        let ghost m0 = *self;
        proof {
            assert(m0.chunks_seq()[target as int].spec_active()
                < m0.spec_capacity_per_chunk());
        }
        // Claim a slot in the target chunk and write the record.
        let ch = &mut self.chunks[target];
        let slot_opt = ch.raw_add(value);
        let slot = slot_opt.unwrap();
        let ghost m1 = *self;
        proof {
            assert(m1.chunks_seq() == m0.chunks_seq().update(
                target as int,
                m1.chunks_seq()[target as int],
            ));
        }
        // Take a logical index: recycle, else append.
        let k = match self.free_indices.pop() {
            Some(k) => k,
            None => {
                self.index_table.push(None);
                self.index_table.len() - 1
            },
        };
        self.index_table[k] = Some(UnitId::new(target, slot));
        let row = &mut self.rev[target];
        proof {
            assert(row@ == m0.rev_seq()[target as int]);
        }
        row[slot] = Some(k);
        self.current_chunk_index = target;
        let table_len = self.index_table.len();
        proof {
            assert(self.count < table_len);
        }
        self.count = self.count + 1;
        proof {
            let c1 = *self;
            let u = UnitId { id_chunk: target, id_inland: slot };
            let tgt = target as int;
            let st = slot as int;
            assert(c1.chunks_seq() == m1.chunks_seq());
            assert forall|c: int|
                0 <= c < c1.rev_seq().len() implies c1.rev_seq()[c] == (
                if c == tgt {
                    m0.rev_seq()[tgt].update(st, Some(k))
                } else {
                    m0.rev_seq()[c]
                }) by {}
            // The fresh slot was free before, so nothing owned it.
            assert(m0.rev_seq()[tgt][st] is None) by {
                if m0.rev_seq()[tgt][st] is Some {
                    assert(m0.chunks_seq()[tgt].occupied(st));
                }
            }
            assert(c1.wf()) by {
                assert forall|kk: int|
                    #![trigger c1.table_seq()[kk]]
                    0 <= kk < c1.table_seq().len() && c1.table_seq()[kk] is Some implies {
                    let uu = c1.table_seq()[kk]->0;
                    &&& (uu.id_chunk as int) < c1.chunks_seq().len()
                    &&& (uu.id_inland as int) < c1.spec_capacity_per_chunk()
                    &&& c1.chunks_seq()[uu.id_chunk as int].occupied(uu.id_inland as int)
                    &&& c1.rev_seq()[uu.id_chunk as int][uu.id_inland as int] == Some(
                        kk as usize,
                    )
                } by {
                    if kk != k {
                        assert(m0.table_seq()[kk] is Some);
                        let uu = m0.table_seq()[kk]->0;
                        assert(m0.rev_seq()[uu.id_chunk as int][uu.id_inland as int] == Some(
                            kk as usize,
                        ));
                        if (uu.id_chunk as int) == tgt {
                            assert(uu.id_inland as int != st);
                            assert(m0.chunks_seq()[tgt].occupied(uu.id_inland as int));
                        }
                    }
                }
                assert forall|c: int, sg: int|
                    #![trigger c1.rev_seq()[c][sg]]
                    0 <= c < c1.rev_seq().len() && 0 <= sg < c1.spec_capacity_per_chunk()
                        && c1.rev_seq()[c][sg] is Some implies {
                    let kk = c1.rev_seq()[c][sg]->0;
                    &&& (kk as int) < c1.table_seq().len()
                    &&& c1.table_seq()[kk as int] == Some(
                        UnitId { id_chunk: c as usize, id_inland: sg as usize },
                    )
                } by {
                    if !(c == tgt && sg == st) {
                        assert(m0.rev_seq()[c][sg] is Some);
                        let kk = m0.rev_seq()[c][sg]->0;
                        assert(m0.table_seq()[kk as int] == Some(
                            UnitId { id_chunk: c as usize, id_inland: sg as usize },
                        ));
                        assert(kk != k) by {
                            if kk == k {
                                assert(m0.table_seq()[k as int] is Some);
                                assert(m0.table_seq()[k as int] is None);
                            }
                        }
                    }
                }
                assert forall|c: int, sg: int|
                    #![trigger c1.chunks_seq()[c].occupied(sg)]
                    0 <= c < c1.chunks_seq().len() && 0 <= sg < c1.spec_capacity_per_chunk()
                        && c1.chunks_seq()[c].occupied(sg) implies c1.rev_seq()[c][sg]
                    is Some by {
                    if !(c == tgt && sg == st) {
                        if c == tgt {
                            assert(m0.chunks_seq()[tgt].occupied(sg));
                        } else {
                            assert(m0.chunks_seq()[c].occupied(sg));
                        }
                    }
                }
                assert forall|p: int|
                    #![trigger c1.free_seq()[p]]
                    0 <= p < c1.free_seq().len() implies (c1.free_seq()[p] as int)
                    < c1.table_seq().len() && c1.table_seq()[c1.free_seq()[p] as int]
                    is None by {
                    assert(c1.free_seq()[p] == m0.free_seq()[p]);
                    assert(m0.table_seq()[m0.free_seq()[p] as int] is None);
                    assert(c1.free_seq()[p] != k) by {
                        if m0.free_seq().len() > 0 && (k as int)
                            == m0.free_seq().last() as int {
                            assert(p < m0.free_seq().len() - 1);
                        }
                    }
                }
            }
            // The new record reads back; the others are untouched.
            assert(c1.record(k as int) == value@);
            assert forall|j: int|
                old(self).live(j) && j != k implies c1.record(j) == old(self).record(j)
                && c1.location(j) == old(self).location(j) by {
                let uu = old(self).table_seq()[j]->0;
                if (uu.id_chunk as int) == tgt {
                    assert(old(self).chunks_seq()[tgt].occupied(uu.id_inland as int));
                    assert(uu.id_inland as int != st);
                    assert(m1.chunks_seq()[tgt].record_at(uu.id_inland as int) == m0
                        .chunks_seq()[tgt].record_at(uu.id_inland as int));
                }
            }
        }
        Some(k)
    }

    /// Releases the record under logical index `index`: the chunk slot
    /// is freed and zeroed, the index goes to the free list for reuse,
    /// and a chunk left empty registers with the free-chunk registry.
    /// An index that is not live changes nothing.
    pub fn remove(&mut self, index: usize) -> (r: bool)
        requires
            old(self).wf(),
        ensures
            final(self).wf(),
            final(self).spec_capacity_per_chunk() == old(self).spec_capacity_per_chunk(),
            final(self).spec_max_chunks() == old(self).spec_max_chunks(),
            final(self).spec_component_id() == old(self).spec_component_id(),
            final(self).spec_component_size() == old(self).spec_component_size(),
            final(self).spec_component_align() == old(self).spec_component_align(),
            r == old(self).live(index as int),
            !r ==> *final(self) == *old(self),
            r ==> {
                &&& !final(self).live(index as int)
                &&& forall|j: int|
                    #![trigger final(self).live(j)]
                    #![trigger old(self).live(j)]
                    j != index ==> (final(self).live(j) <==> old(self).live(j))
                &&& forall|j: int|
                    #![trigger final(self).record(j)]
                    #![trigger old(self).record(j)]
                    old(self).live(j) && j != index ==> final(self).record(j) == old(self).record(j) && final(self).location(j) == old(self).location(j)
                &&& final(self).spec_count() == old(self).spec_count() - 1
                &&& final(self).table_seq().len() == old(self).table_seq().len()
                &&& final(self).free_seq() == old(self).free_seq().push(index)
                &&& final(self).chunks_seq().len() == old(self).chunks_seq().len()
                &&& forall|cc: int|
                    #![trigger final(self).chunks_seq()[cc]]
                    #![trigger old(self).chunks_seq()[cc]]
                    0 <= cc < old(self).chunks_seq().len() && cc != old(self).location(
                        index as int,
                    ).id_chunk ==> final(self).chunks_seq()[cc] == old(self).chunks_seq()[cc]
                &&& final(self).chunks_seq()[old(self).location(
                    index as int,
                ).id_chunk as int].spec_active() == old(self).chunks_seq()[old(self).location(index as int).id_chunk as int].spec_active() - 1
            },
    {
        if index >= self.index_table.len() {
            return false;
        }
        let u = match self.index_table[index] {
            Some(u) => u,
            None => {
                return false;
            },
        };
        proof {
            lemma_free_list_shorter(
                self.free_seq(),
                self.table_seq().len() as int,
                index as int,
            );
        }
        let ghost m0 = *self;
        let ch = &mut self.chunks[u.id_chunk];
        let freed = ch.free_slot(u.id_inland);
        let ghost m1 = *self;
        proof {
            assert(freed);
            assert(m1.chunks_seq() == m0.chunks_seq().update(
                u.id_chunk as int,
                m1.chunks_seq()[u.id_chunk as int],
            ));
        }
        let row = &mut self.rev[u.id_chunk];
        proof {
            assert(row@ == m0.rev_seq()[u.id_chunk as int]);
        }
        row[u.id_inland] = None;
        self.index_table[index] = None;
        self.free_indices.push(index);
        self.count = self.count - 1;
        let empty_now = self.chunks[u.id_chunk].active_count() == 0;
        if empty_now {
            self.free_chunks.add_chunk(u.id_chunk);
        }
        proof {
            let c1 = *self;
            let tgt = u.id_chunk as int;
            let st = u.id_inland as int;
            assert forall|c: int|
                0 <= c < c1.rev_seq().len() implies c1.rev_seq()[c] == (
                if c == tgt {
                    m0.rev_seq()[tgt].update(st, Option::<usize>::None)
                } else {
                    m0.rev_seq()[c]
                }) by {}
            assert(c1.wf()) by {
                assert forall|kk: int|
                    #![trigger c1.table_seq()[kk]]
                    0 <= kk < c1.table_seq().len() && c1.table_seq()[kk] is Some implies {
                    let uu = c1.table_seq()[kk]->0;
                    &&& (uu.id_chunk as int) < c1.chunks_seq().len()
                    &&& (uu.id_inland as int) < c1.spec_capacity_per_chunk()
                    &&& c1.chunks_seq()[uu.id_chunk as int].occupied(uu.id_inland as int)
                    &&& c1.rev_seq()[uu.id_chunk as int][uu.id_inland as int] == Some(
                        kk as usize,
                    )
                } by {
                    assert(kk != index);
                    assert(m0.table_seq()[kk] is Some);
                    let uu = m0.table_seq()[kk]->0;
                    assert(m0.rev_seq()[uu.id_chunk as int][uu.id_inland as int] == Some(
                        kk as usize,
                    ));
                    if (uu.id_chunk as int) == tgt {
                        assert(uu.id_inland as int != st) by {
                            if uu.id_inland as int == st {
                                assert(m0.rev_seq()[tgt][st] == Some(kk as usize));
                                assert(m0.rev_seq()[tgt][st] == Some(index));
                            }
                        }
                    }
                }
                assert forall|c: int, sg: int|
                    #![trigger c1.rev_seq()[c][sg]]
                    0 <= c < c1.rev_seq().len() && 0 <= sg < c1.spec_capacity_per_chunk()
                        && c1.rev_seq()[c][sg] is Some implies {
                    let kk = c1.rev_seq()[c][sg]->0;
                    &&& (kk as int) < c1.table_seq().len()
                    &&& c1.table_seq()[kk as int] == Some(
                        UnitId { id_chunk: c as usize, id_inland: sg as usize },
                    )
                } by {
                    assert(!(c == tgt && sg == st));
                    assert(m0.rev_seq()[c][sg] is Some);
                    let kk = m0.rev_seq()[c][sg]->0;
                    assert(m0.table_seq()[kk as int] == Some(
                        UnitId { id_chunk: c as usize, id_inland: sg as usize },
                    ));
                    assert(kk as int != index) by {
                        if kk as int == index {
                            assert(m0.table_seq()[index as int] == Some(u));
                        }
                    }
                }
                assert forall|c: int, sg: int|
                    #![trigger c1.chunks_seq()[c].occupied(sg)]
                    0 <= c < c1.chunks_seq().len() && 0 <= sg < c1.spec_capacity_per_chunk()
                        && c1.chunks_seq()[c].occupied(sg) implies c1.rev_seq()[c][sg]
                    is Some by {
                    if c == tgt {
                        assert(m0.chunks_seq()[tgt].occupied(sg) && sg != st);
                    } else {
                        assert(m0.chunks_seq()[c].occupied(sg));
                    }
                }
                assert forall|p: int, q: int|
                    0 <= p < q < c1.free_seq().len() implies c1.free_seq()[p]
                    != c1.free_seq()[q] by {
                    if q < c1.free_seq().len() - 1 {
                        assert(m0.free_seq()[p] != m0.free_seq()[q]);
                    } else {
                        assert(c1.free_seq()[q] == index);
                        assert(m0.table_seq()[m0.free_seq()[p] as int] is None);
                    }
                }
            }
            assert forall|j: int|
                old(self).live(j) && j != index implies c1.record(j) == old(self).record(j)
                && c1.location(j) == old(self).location(j) by {
                let uu = old(self).table_seq()[j]->0;
                if (uu.id_chunk as int) == tgt {
                    assert(old(self).chunks_seq()[tgt].occupied(uu.id_inland as int));
                    assert(uu.id_inland as int != st) by {
                        if uu.id_inland as int == st {
                            assert(m0.rev_seq()[tgt][st] == Some(j as usize));
                            assert(m0.rev_seq()[tgt][st] == Some(index));
                        }
                    }
                    assert(m1.chunks_seq()[tgt].record_at(uu.id_inland as int) == m0
                        .chunks_seq()[tgt].record_at(uu.id_inland as int));
                }
            }
        }
        true
    }

    /// A copy of the record bytes under logical index `index`; nothing
    /// comes back for an index that is not live.
    pub fn get(&self, index: usize) -> (r: Option<Vec<u8>>)
        requires
            self.wf(),
        ensures
            match r {
                Some(v) => self.live(index as int) && v@ == self.record(index as int),
                None => !self.live(index as int),
            },
    {
        if index >= self.index_table.len() {
            return None;
        }
        let u = match self.index_table[index] {
            Some(u) => u,
            None => {
                return None;
            },
        };
        self.chunks[u.id_chunk].raw_get(u.id_inland)
    }

    /// Overwrites the record under logical index `index`; an index
    /// that is not live changes nothing and reports false.
    pub fn set(&mut self, index: usize, value: &Vec<u8>) -> (r: bool)
        requires
            old(self).wf(),
            value@.len() == old(self).spec_component_size(),
        ensures
            final(self).wf(),
            final(self).spec_capacity_per_chunk() == old(self).spec_capacity_per_chunk(),
            final(self).spec_max_chunks() == old(self).spec_max_chunks(),
            final(self).spec_component_id() == old(self).spec_component_id(),
            final(self).spec_component_size() == old(self).spec_component_size(),
            final(self).spec_component_align() == old(self).spec_component_align(),
            r == old(self).live(index as int),
            !r ==> *final(self) == *old(self),
            r ==> {
                &&& final(self).record(index as int) == value@
                &&& forall|j: int|
                    #![trigger final(self).live(j)]
                    #![trigger old(self).live(j)]
                    final(self).live(j) <==> old(self).live(j)
                &&& forall|j: int|
                    #![trigger final(self).record(j)]
                    #![trigger old(self).record(j)]
                    old(self).live(j) && j != index ==> final(self).record(j) == old(self).record(j)
                &&& forall|j: int|
                    #![trigger final(self).location(j)]
                    #![trigger old(self).location(j)]
                    old(self).live(j) ==> final(self).location(j) == old(self).location(j)
                &&& final(self).spec_count() == old(self).spec_count()
            },
    {
        if index >= self.index_table.len() {
            return false;
        }
        let u = match self.index_table[index] {
            Some(u) => u,
            None => {
                return false;
            },
        };
        let ghost m0 = *self;
        let ch = &mut self.chunks[u.id_chunk];
        proof {
            assert(m0.chunks_seq()[u.id_chunk as int].occupied(u.id_inland as int));
        }
        let ok = ch.raw_set(u.id_inland, value);
        proof {
            let c1 = *self;
            let tgt = u.id_chunk as int;
            let st = u.id_inland as int;
            assert(c1.chunks_seq() == m0.chunks_seq().update(tgt, c1.chunks_seq()[tgt]));
            assert(c1.chunks_seq()[tgt].spec_active() == m0.chunks_seq()[tgt].spec_active());
            assert(c1.chunks_seq()[tgt].spec_count() == m0.chunks_seq()[tgt].spec_count());
            assert(c1.wf()) by {
                assert forall|kk: int|
                    #![trigger c1.table_seq()[kk]]
                    0 <= kk < c1.table_seq().len() && c1.table_seq()[kk] is Some implies {
                    let uu = c1.table_seq()[kk]->0;
                    &&& (uu.id_chunk as int) < c1.chunks_seq().len()
                    &&& (uu.id_inland as int) < c1.spec_capacity_per_chunk()
                    &&& c1.chunks_seq()[uu.id_chunk as int].occupied(uu.id_inland as int)
                    &&& c1.rev_seq()[uu.id_chunk as int][uu.id_inland as int] == Some(
                        kk as usize,
                    )
                } by {
                    let uu = m0.table_seq()[kk]->0;
                    if (uu.id_chunk as int) == tgt {
                        assert(m0.chunks_seq()[tgt].occupied(uu.id_inland as int));
                    }
                }
                assert forall|c: int, sg: int|
                    #![trigger c1.chunks_seq()[c].occupied(sg)]
                    0 <= c < c1.chunks_seq().len() && 0 <= sg < c1.spec_capacity_per_chunk()
                        && c1.chunks_seq()[c].occupied(sg) implies c1.rev_seq()[c][sg]
                    is Some by {
                    if c == tgt {
                        assert(m0.chunks_seq()[tgt].occupied(sg) || sg == st);
                    } else {
                        assert(m0.chunks_seq()[c].occupied(sg));
                    }
                }
            }
            assert forall|j: int|
                old(self).live(j) && j != index implies c1.record(j) == old(self).record(
                j,
            ) by {
                let uu = old(self).table_seq()[j]->0;
                if (uu.id_chunk as int) == tgt {
                    assert(old(self).chunks_seq()[tgt].occupied(uu.id_inland as int));
                    assert(uu.id_inland as int != st) by {
                        if uu.id_inland as int == st {
                            assert(m0.rev_seq()[tgt][st] == Some(j as usize));
                            assert(m0.rev_seq()[tgt][st] == Some(index));
                        }
                    }
                }
            }
        }
        true
    }

    /// Moves the record in slot `src` of chunk `c` down into the
    /// lowest free slot of that chunk, fixing the index table and the
    /// reverse map: the pool invariant holds again on return, with the
    /// same live indices and records, only the owner of `(c, src)`
    /// relocated.
    fn relocate_slot(&mut self, c: usize, src: usize) -> (dst: usize)
        requires
            old(self).wf(),
            c < old(self).chunks_seq().len(),
            src < old(self).spec_capacity_per_chunk(),
            old(self).chunks_seq()[c as int].occupied(src as int),
            old(self).chunks_seq()[c as int].rank(src as int) < src,
        ensures
            final(self).wf(),
            final(self).spec_capacity_per_chunk() == old(self).spec_capacity_per_chunk(),
            final(self).spec_max_chunks() == old(self).spec_max_chunks(),
            final(self).spec_component_id() == old(self).spec_component_id(),
            final(self).spec_component_size() == old(self).spec_component_size(),
            final(self).spec_component_align() == old(self).spec_component_align(),
            final(self).spec_count() == old(self).spec_count(),
            final(self).table_seq().len() == old(self).table_seq().len(),
            final(self).free_seq() == old(self).free_seq(),
            final(self).registry() == old(self).registry(),
            final(self).chunks_seq().len() == old(self).chunks_seq().len(),
            (dst as int) < src,
            forall|t: int| 0 <= t < dst ==> old(self).chunks_seq()[c as int].occupied(t),
            forall|cc: int|
                #![trigger final(self).chunks_seq()[cc]]
                0 <= cc < old(self).chunks_seq().len() && cc != c ==> final(self).chunks_seq()[cc] == old(self).chunks_seq()[cc],
            final(self).chunks_seq()[c as int].spec_active() == old(self).chunks_seq()[
                c as int].spec_active(),
            final(self).chunks_seq()[c as int].spec_count() == old(self).chunks_seq()[
                c as int].spec_count(),
            !final(self).chunks_seq()[c as int].occupied(src as int),
            final(self).chunks_seq()[c as int].occupied(dst as int),
            !old(self).chunks_seq()[c as int].occupied(dst as int),
            forall|t: int|
                #![trigger final(self).chunks_seq()[c as int].occupied(t)]
                0 <= t < old(self).spec_capacity_per_chunk() && t != src && t != dst ==> (
                final(self).chunks_seq()[c as int].occupied(t) <==> old(self).chunks_seq()[
                    c as int].occupied(t)),
            forall|j: int|
                #![trigger final(self).live(j)]
                #![trigger old(self).live(j)]
                final(self).live(j) <==> old(self).live(j),
            forall|j: int|
                #![trigger final(self).record(j)]
                #![trigger old(self).record(j)]
                old(self).live(j) ==> final(self).record(j) == old(self).record(j),
            forall|j: int|
                #![trigger final(self).location(j)]
                #![trigger old(self).location(j)]
                old(self).live(j) && old(self).location(j) != (UnitId {
                    id_chunk: c,
                    id_inland: src,
                }) ==> final(self).location(j) == old(self).location(j),
            forall|j: int|
                #![trigger final(self).location(j)]
                #![trigger old(self).location(j)]
                old(self).live(j) && old(self).location(j) == (UnitId {
                    id_chunk: c,
                    id_inland: src,
                }) ==> final(self).location(j) == (UnitId { id_chunk: c, id_inland: dst }),
    {
        let ghost m0 = *self;
        let ghost cap = self.spec_capacity_per_chunk();
        proof {
            // A free slot exists below `src`, so the chunk is not full
            // and the lowest free slot lies below `src`.
            crate::chunk::lemma_rank_bounds(
                m0.chunks_seq()[c as int],
                src + 1,
                cap,
            );
            crate::chunk::lemma_rank_nonneg(m0.chunks_seq()[c as int], src as int);
            assert(exists|f: int|
                0 <= f < src && !m0.chunks_seq()[c as int].occupied(f)) by {
                if forall|f: int| 0 <= f < src ==> m0.chunks_seq()[c as int].occupied(f) {
                    crate::chunk::lemma_rank_when_all_occupied(
                        m0.chunks_seq()[c as int],
                        src as int,
                    );
                }
            }
        }
        let bytes = self.chunks[c].raw_get(src).unwrap();
        let ch = &mut self.chunks[c];
        let dst = ch.allocate_slot().unwrap();
        proof {
            let f = choose|f: int| 0 <= f < src && !m0.chunks_seq()[c as int].occupied(f);
            assert((dst as int) <= f);
        }
        let ghost m1 = *self;
        let ch2 = &mut self.chunks[c];
        let wrote = ch2.raw_set(dst, &bytes);
        let ghost m2 = *self;
        let ch3 = &mut self.chunks[c];
        let freed = ch3.free_slot(src);
        let ghost m3 = *self;
        proof {
            assert(m3.chunks_seq() == m0.chunks_seq().update(
                c as int,
                m3.chunks_seq()[c as int],
            ));
        }
        // The owner of the moved record follows it.
        let k0 = self.rev[c][src].unwrap();
        proof {
            assert(m0.rev_seq()[c as int][src as int] == Some(k0));
            assert(m0.table_seq()[k0 as int] == Some(UnitId { id_chunk: c, id_inland: src }));
            // The destination slot was free, so nothing owned it.
            assert(m0.rev_seq()[c as int][dst as int] is None) by {
                if m0.rev_seq()[c as int][dst as int] is Some {
                    assert(m0.chunks_seq()[c as int].occupied(dst as int));
                }
            }
        }
        self.index_table[k0] = Some(UnitId::new(c, dst));
        let row = &mut self.rev[c];
        proof {
            assert(row@ == m0.rev_seq()[c as int]);
        }
        row[dst] = Some(k0);
        row[src] = None;
        proof {
            let c1 = *self;
            let tgt = c as int;
            let sl = src as int;
            let dl = dst as int;
            let chv = c1.chunks_seq()[tgt];
            let ch0 = m0.chunks_seq()[tgt];
            assert(c1.table_seq().len() <= usize::MAX) by {
                assert(c1.index_table.len() <= usize::MAX);
            }
            assert forall|cc: int|
                0 <= cc < c1.rev_seq().len() implies c1.rev_seq()[cc] == (
                if cc == tgt {
                    m0.rev_seq()[tgt].update(dl, Some(k0)).update(sl, Option::<usize>::None)
                } else {
                    m0.rev_seq()[cc]
                }) by {}
            // Chunk `c` after the three steps: occupied set swapped at
            // src/dst, records unchanged off the pair, dst holds the
            // moved bytes.
            assert(chv.record_at(dl) == ch0.record_at(sl));
            assert forall|t: int|
                0 <= t < cap && t != sl && t != dl implies (chv.occupied(t) <==> ch0.occupied(
                t,
            )) && chv.record_at(t) == ch0.record_at(t) by {
                assert(m1.chunks_seq()[tgt].record_at(t) == ch0.record_at(t));
                assert(m2.chunks_seq()[tgt].record_at(t) == m1.chunks_seq()[tgt].record_at(t));
            }
            assert(c1.wf()) by {
                assert forall|kk: int|
                    #![trigger c1.table_seq()[kk]]
                    0 <= kk < c1.table_seq().len() && c1.table_seq()[kk] is Some implies {
                    let uu = c1.table_seq()[kk]->0;
                    &&& (uu.id_chunk as int) < c1.chunks_seq().len()
                    &&& (uu.id_inland as int) < c1.spec_capacity_per_chunk()
                    &&& c1.chunks_seq()[uu.id_chunk as int].occupied(uu.id_inland as int)
                    &&& c1.rev_seq()[uu.id_chunk as int][uu.id_inland as int] == Some(
                        kk as usize,
                    )
                } by {
                    if kk != k0 {
                        assert(m0.table_seq()[kk] is Some);
                        let uu = m0.table_seq()[kk]->0;
                        assert(m0.rev_seq()[uu.id_chunk as int][uu.id_inland as int] == Some(
                            kk as usize,
                        ));
                        if (uu.id_chunk as int) == tgt {
                            assert(uu.id_inland as int != sl) by {
                                if uu.id_inland as int == sl {
                                    assert(m0.rev_seq()[tgt][sl] == Some(kk as usize));
                                    assert(m0.rev_seq()[tgt][sl] == Some(k0));
                                }
                            }
                            assert(uu.id_inland as int != dl) by {
                                if uu.id_inland as int == dl {
                                    assert(m0.chunks_seq()[tgt].occupied(dl));
                                }
                            }
                            assert(m0.chunks_seq()[tgt].occupied(uu.id_inland as int));
                        }
                    }
                }
                assert forall|cc: int, sg: int|
                    #![trigger c1.rev_seq()[cc][sg]]
                    0 <= cc < c1.rev_seq().len() && 0 <= sg < c1.spec_capacity_per_chunk()
                        && c1.rev_seq()[cc][sg] is Some implies {
                    let kk = c1.rev_seq()[cc][sg]->0;
                    &&& (kk as int) < c1.table_seq().len()
                    &&& c1.table_seq()[kk as int] == Some(
                        UnitId { id_chunk: cc as usize, id_inland: sg as usize },
                    )
                } by {
                    if !(cc == tgt && (sg == dl || sg == sl)) {
                        assert(m0.rev_seq()[cc][sg] is Some);
                        let kk = m0.rev_seq()[cc][sg]->0;
                        assert(m0.table_seq()[kk as int] == Some(
                            UnitId { id_chunk: cc as usize, id_inland: sg as usize },
                        ));
                        assert(kk != k0) by {
                            if kk == k0 {
                                assert(m0.table_seq()[k0 as int] == Some(
                                    UnitId { id_chunk: cc as usize, id_inland: sg as usize },
                                ));
                            }
                        }
                    }
                }
                assert forall|cc: int, sg: int|
                    #![trigger c1.chunks_seq()[cc].occupied(sg)]
                    0 <= cc < c1.chunks_seq().len() && 0 <= sg < c1.spec_capacity_per_chunk()
                        && c1.chunks_seq()[cc].occupied(sg) implies c1.rev_seq()[cc][sg]
                    is Some by {
                    if cc == tgt {
                        if sg != dl && sg != sl {
                            assert(m0.chunks_seq()[tgt].occupied(sg));
                        }
                    } else {
                        assert(m0.chunks_seq()[cc].occupied(sg));
                    }
                }
            }
            assert forall|j: int|
                old(self).live(j) implies c1.record(j) == old(self).record(j) by {
                let uu = old(self).table_seq()[j]->0;
                if j == k0 {
                    assert(c1.record(j) == chv.record_at(dl));
                } else {
                    assert(uu != (UnitId { id_chunk: c, id_inland: src })) by {
                        if uu == (UnitId { id_chunk: c, id_inland: src }) {
                            assert(m0.rev_seq()[uu.id_chunk as int][uu.id_inland as int]
                                == Some(j as usize));
                            assert(m0.rev_seq()[tgt][sl] == Some(k0));
                            assert(false);
                        }
                    }
                    if (uu.id_chunk as int) == tgt {
                        assert(m0.chunks_seq()[tgt].occupied(uu.id_inland as int));
                        assert(uu.id_inland as int != dl);
                    }
                }
            }
        }
        dst
    }

    /// Whether the list `mv` is a sound relocation record for the step
    /// from pool `p0` to pool `p1`: every entry's new location is owned
    /// by a logical index that was live in `p0` at the entry's old
    /// location, sits below its chunk's live count, and differs from
    /// where it was.
    pub open spec fn moves_ok(mv: Seq<(UnitId, UnitId)>, p0: ComponentPool, p1: ComponentPool, m: int) -> bool {
        let q = mv[m].1;
        &&& (q.id_chunk as int) < p1.chunks_seq().len()
        &&& (q.id_inland as int) < p1.chunks_seq()[q.id_chunk as int].spec_active()
        &&& p1.rev_seq()[q.id_chunk as int][q.id_inland as int] is Some
        &&& {
            let j = p1.rev_seq()[q.id_chunk as int][q.id_inland as int]->0 as int;
            &&& p0.live(j)
            &&& p0.location(j) == mv[m].0
            &&& p1.live(j)
            &&& p1.location(j) == q
            &&& mv[m].0 != q
        }
    }

    /// Packs the records of every chunk toward slot 0 and drops each
    /// chunk's high-water mark to its live count, remapping the index
    /// table as records move: every logical index that was live stays
    /// live with the same record, and the returned list holds one
    /// `(old_location, new_location)` pair for every record whose
    /// physical location changed — and none for the records that
    /// stayed put. Chunks left empty register with the free-chunk
    /// registry.
    #[verifier::rlimit(100)]
    #[verifier::spinoff_prover]
    pub fn compact(&mut self) -> (moves: Vec<(UnitId, UnitId)>)
        requires
            old(self).wf(),
        ensures
            final(self).wf(),
            final(self).spec_capacity_per_chunk() == old(self).spec_capacity_per_chunk(),
            final(self).spec_max_chunks() == old(self).spec_max_chunks(),
            final(self).spec_component_id() == old(self).spec_component_id(),
            final(self).spec_component_size() == old(self).spec_component_size(),
            final(self).spec_component_align() == old(self).spec_component_align(),
            final(self).spec_count() == old(self).spec_count(),
            final(self).table_seq().len() == old(self).table_seq().len(),
            final(self).free_seq() == old(self).free_seq(),
            final(self).chunks_seq().len() == old(self).chunks_seq().len(),
            forall|j: int|
                #![trigger final(self).live(j)]
                #![trigger old(self).live(j)]
                final(self).live(j) <==> old(self).live(j),
            forall|j: int|
                #![trigger final(self).record(j)]
                #![trigger old(self).record(j)]
                old(self).live(j) ==> final(self).record(j) == old(self).record(j),
            forall|cc: int|
                #![trigger final(self).chunks_seq()[cc]]
                0 <= cc < old(self).chunks_seq().len() ==> final(self).chunks_seq()[
                    cc].spec_count() == final(self).chunks_seq()[cc].spec_active(),
            forall|m: int|
                #![trigger moves@[m]]
                0 <= m < moves@.len() ==> Self::moves_ok(moves@, *old(self), *final(self), m),
            forall|j: int|
                #![trigger old(self).location(j)]
                old(self).live(j) && final(self).location(j) != old(self).location(j)
                    ==> moves@.contains((old(self).location(j), final(self).location(j))),
    {
        let mut moves: Vec<(UnitId, UnitId)> = Vec::new();
        let mut c: usize = 0;
        while c < self.chunks.len()
            invariant
                self.wf(),
                c <= self.chunks_seq().len(),
                self.spec_capacity_per_chunk() == old(self).spec_capacity_per_chunk(),
                self.spec_max_chunks() == old(self).spec_max_chunks(),
                self.spec_component_id() == old(self).spec_component_id(),
                self.spec_component_size() == old(self).spec_component_size(),
                self.spec_component_align() == old(self).spec_component_align(),
                self.spec_count() == old(self).spec_count(),
                self.table_seq().len() == old(self).table_seq().len(),
                self.free_seq() == old(self).free_seq(),
                self.chunks_seq().len() == old(self).chunks_seq().len(),
                forall|j: int|
                    #![trigger self.live(j)]
                    #![trigger old(self).live(j)]
                    self.live(j) <==> old(self).live(j),
                forall|j: int|
                    #![trigger self.record(j)]
                    #![trigger old(self).record(j)]
                    old(self).live(j) ==> self.record(j) == old(self).record(j),
                forall|cc: int|
                    #![trigger self.chunks_seq()[cc]]
                    0 <= cc < c ==> self.chunks_seq()[cc].spec_count() == self.chunks_seq()[
                        cc].spec_active(),
                forall|m: int|
                    #![trigger moves@[m]]
                    0 <= m < moves@.len() ==> Self::moves_ok(moves@, *old(self), *self, m),
                forall|j: int|
                    #![trigger old(self).location(j)]
                    old(self).live(j) && self.location(j) != old(self).location(j)
                        ==> moves@.contains((old(self).location(j), self.location(j))),
            decreases self.chunks_seq().len() - c,
        {
            let active_c = self.chunks[c].active_count();
            let mut s = self.chunks[c].count();
            proof {
                assert forall|t: int|
                    s <= t < self.spec_capacity_per_chunk() implies !self.chunks_seq()[
                    c as int].occupied(t) by {
                    assert(self.chunks_seq()[c as int].slot_free(t));
                }
            }
            while s > active_c
                invariant
                    self.wf(),
                    c < self.chunks_seq().len(),
                    active_c == self.chunks_seq()[c as int].spec_active(),
                    active_c <= s <= self.spec_capacity_per_chunk(),
                    self.spec_capacity_per_chunk() == old(self).spec_capacity_per_chunk(),
                    self.spec_max_chunks() == old(self).spec_max_chunks(),
                    self.spec_component_id() == old(self).spec_component_id(),
                    self.spec_component_size() == old(self).spec_component_size(),
                    self.spec_component_align() == old(self).spec_component_align(),
                    self.spec_count() == old(self).spec_count(),
                    self.table_seq().len() == old(self).table_seq().len(),
                    self.free_seq() == old(self).free_seq(),
                    self.chunks_seq().len() == old(self).chunks_seq().len(),
                    forall|t: int|
                        s <= t < self.spec_capacity_per_chunk() ==> !self.chunks_seq()[
                        c as int].occupied(t),
                    forall|j: int|
                        #![trigger self.live(j)]
                        #![trigger old(self).live(j)]
                        self.live(j) <==> old(self).live(j),
                    forall|j: int|
                        #![trigger self.record(j)]
                        #![trigger old(self).record(j)]
                        old(self).live(j) ==> self.record(j) == old(self).record(j),
                    forall|cc: int|
                        #![trigger self.chunks_seq()[cc]]
                        0 <= cc < c ==> self.chunks_seq()[cc].spec_count()
                            == self.chunks_seq()[cc].spec_active(),
                    forall|m: int|
                        #![trigger moves@[m]]
                        0 <= m < moves@.len() ==> Self::moves_ok(moves@, *old(self), *self, m),
                    forall|j: int|
                        #![trigger old(self).location(j)]
                        old(self).live(j) && self.location(j) != old(self).location(j)
                            ==> moves@.contains((old(self).location(j), self.location(j))),
                decreases s,
            {
                s = s - 1;
                if self.chunks[c].is_occupied(s) {
                    let ghost mprev = *self;
                    let ghost moves_prev = moves@;
                    proof {
                        let ch = mprev.chunks_seq()[c as int];
                        assert forall|t: int|
                            s + 1 <= t < mprev.spec_capacity_per_chunk() implies ch.slot_free(
                            t,
                        ) by {
                            assert(!ch.occupied(t));
                        }
                        crate::chunk::lemma_rank_free_above(
                            ch,
                            s + 1,
                            mprev.spec_capacity_per_chunk(),
                        );
                        crate::chunk::lemma_rank_nonneg(ch, s as int);
                        // rank(s + 1) == rank(s) + 1 <= active_c <= s
                    }
                    // The owner of the record about to move.
                    let ghost j0 = mprev.rev_seq()[c as int][s as int]->0 as int;
                    proof {
                        assert(mprev.chunks_seq()[c as int].occupied(s as int));
                        assert(mprev.rev_seq()[c as int][s as int] is Some);
                        assert(mprev.table_seq()[j0] == Some(
                            UnitId { id_chunk: c, id_inland: s },
                        ));
                        assert(mprev.live(j0) && mprev.location(j0) == (UnitId {
                            id_chunk: c,
                            id_inland: s,
                        }));
                        // The record at `(c, s)` has never moved: a moved
                        // record sits below its chunk's live count.
                        assert(old(self).location(j0) == mprev.location(j0)) by {
                            if old(self).location(j0) != mprev.location(j0) {
                                let e = (old(self).location(j0), mprev.location(j0));
                                assert(moves_prev.contains(e));
                                let m = choose|m: int|
                                    0 <= m < moves_prev.len() && moves_prev[m] == e;
                                assert(Self::moves_ok(moves_prev, *old(self), mprev, m));
                                assert((moves_prev[m].1.id_inland as int) < active_c);
                            }
                        }
                    }
                    let dst = self.relocate_slot(c, s);
                    proof {
                        // The destination lies below the live count: the
                        // slots under it are all occupied, and slot `s`
                        // above it is occupied too.
                        assert((dst as int) < active_c) by {
                            if (dst as int) >= active_c {
                                let ch = mprev.chunks_seq()[c as int];
                                crate::chunk::lemma_rank_when_all_occupied(ch, dst as int);
                                crate::chunk::lemma_rank_bounds(ch, dst as int, s as int);
                                crate::chunk::lemma_rank_bounds(
                                    ch,
                                    s + 1,
                                    mprev.spec_capacity_per_chunk(),
                                );
                            }
                        }
                    }
                    moves.push((UnitId::new(c, s), UnitId::new(c, dst)));
                    proof {
                        let entry = (
                            UnitId { id_chunk: c, id_inland: s },
                            UnitId { id_chunk: c, id_inland: dst },
                        );
                        assert(moves@ == moves_prev.push(entry));
                        assert(self.location(j0) == (UnitId { id_chunk: c, id_inland: dst }));
                        assert(self.rev_seq()[c as int][dst as int] == Some(j0 as usize)) by {
                            assert(self.table_seq()[j0] == Some(
                                UnitId { id_chunk: c, id_inland: dst },
                            ));
                        }
                        assert forall|m: int|
                            #![trigger moves@[m]]
                            0 <= m < moves@.len() implies Self::moves_ok(
                            moves@,
                            *old(self),
                            *self,
                            m,
                        ) by {
                            if m < moves_prev.len() {
                                assert(moves@[m] == moves_prev[m]);
                                assert(Self::moves_ok(moves_prev, *old(self), mprev, m));
                                let q = moves_prev[m].1;
                                // The old targets are occupied slots below
                                // their chunk's live count, so the swap at
                                // `(c, s)`/`(c, dst)` leaves them alone.
                                assert(q != (UnitId { id_chunk: c, id_inland: s }));
                                assert(q != (UnitId { id_chunk: c, id_inland: dst })) by {
                                    if q == (UnitId { id_chunk: c, id_inland: dst }) {
                                        assert(mprev.rev_seq()[c as int][dst as int]
                                            is Some);
                                        assert(mprev.chunks_seq()[c as int].occupied(
                                            dst as int,
                                        ));
                                    }
                                }
                                assert(self.rev_seq()[q.id_chunk as int][q.id_inland as int]
                                    == mprev.rev_seq()[q.id_chunk as int][
                                q.id_inland as int]);
                                let j = mprev.rev_seq()[q.id_chunk as int][
                                q.id_inland as int]->0 as int;
                                assert(self.location(j) == mprev.location(j)) by {
                                    assert(mprev.location(j) == q);
                                }
                                assert(self.chunks_seq()[q.id_chunk as int].spec_active()
                                    == mprev.chunks_seq()[q.id_chunk as int].spec_active());
                            } else {
                                assert(moves@[m] == entry);
                            }
                        }
                        assert forall|j: int|
                            old(self).live(j) && self.location(j) != old(self).location(j)
                            implies moves@.contains(
                            (old(self).location(j), self.location(j)),
                        ) by {
                            if j == j0 {
                                assert(moves@[moves@.len() - 1] == (
                                    old(self).location(j0),
                                    self.location(j0),
                                ));
                            } else {
                                assert(self.location(j) == mprev.location(j)) by {
                                    assert(mprev.live(j));
                                    assert(mprev.location(j) != (UnitId {
                                        id_chunk: c,
                                        id_inland: s,
                                    })) by {
                                        if mprev.location(j) == (UnitId {
                                            id_chunk: c,
                                            id_inland: s,
                                        }) {
                                            assert(mprev.rev_seq()[c as int][s as int]
                                                == Some(j as usize));
                                            assert(mprev.rev_seq()[c as int][s as int]
                                                == Some(j0 as usize));
                                            assert(j < mprev.table_seq().len());
                                            assert(mprev.index_table.len() <= usize::MAX);
                                        }
                                    }
                                }
                                if mprev.location(j) != old(self).location(j) {
                                    let e = (old(self).location(j), mprev.location(j));
                                    assert(moves_prev.contains(e));
                                    let m = choose|m: int|
                                        0 <= m < moves_prev.len() && moves_prev[m] == e;
                                    assert(moves@[m] == moves_prev[m]);
                                }
                            }
                        }
                    }
                }
            }
            // The chunk is packed: drop its high-water mark, and hand a
            // fully empty chunk to the registry.
            let ghost mt = *self;
            let ghost moves_snap = moves@;
            let ch = &mut self.chunks[c];
            proof {
                assert forall|t: int|
                    mt.chunks_seq()[c as int].spec_active() <= t < mt.chunks_seq()[
                    c as int].spec_capacity() implies !mt.chunks_seq()[c as int].occupied(
                    t,
                ) by {}
            }
            ch.trim_count();
            proof {
                let c1 = *self;
                assert(c1.chunks_seq() == mt.chunks_seq().update(
                    c as int,
                    c1.chunks_seq()[c as int],
                ));
                assert(c1.wf()) by {
                    assert forall|kk: int|
                        #![trigger c1.table_seq()[kk]]
                        0 <= kk < c1.table_seq().len() && c1.table_seq()[kk] is Some implies {
                        let uu = c1.table_seq()[kk]->0;
                        &&& (uu.id_chunk as int) < c1.chunks_seq().len()
                        &&& (uu.id_inland as int) < c1.spec_capacity_per_chunk()
                        &&& c1.chunks_seq()[uu.id_chunk as int].occupied(uu.id_inland as int)
                        &&& c1.rev_seq()[uu.id_chunk as int][uu.id_inland as int] == Some(
                            kk as usize,
                        )
                    } by {
                        let uu = mt.table_seq()[kk]->0;
                        if (uu.id_chunk as int) == c as int {
                            assert(mt.chunks_seq()[c as int].occupied(uu.id_inland as int));
                        }
                    }
                    assert forall|cc: int, sg: int|
                        #![trigger c1.chunks_seq()[cc].occupied(sg)]
                        0 <= cc < c1.chunks_seq().len() && 0 <= sg
                            < c1.spec_capacity_per_chunk() && c1.chunks_seq()[cc].occupied(
                        sg,
                    ) implies c1.rev_seq()[cc][sg] is Some by {
                        if cc == c as int {
                            assert(mt.chunks_seq()[c as int].occupied(sg));
                        } else {
                            assert(mt.chunks_seq()[cc].occupied(sg));
                        }
                    }
                }
                assert forall|j: int|
                    old(self).live(j) implies c1.record(j) == old(self).record(j) by {
                    assert(mt.record(j) == old(self).record(j));
                    let uu = mt.table_seq()[j]->0;
                    if (uu.id_chunk as int) == c as int {
                        assert(c1.chunks_seq()[c as int].record_at(uu.id_inland as int) == mt
                            .chunks_seq()[c as int].record_at(uu.id_inland as int));
                    }
                }
                assert forall|m: int|
                    #![trigger moves@[m]]
                    0 <= m < moves@.len() implies Self::moves_ok(
                    moves@,
                    *old(self),
                    c1,
                    m,
                ) by {
                    assert(Self::moves_ok(moves@, *old(self), mt, m));
                    let q = moves@[m].1;
                    assert(c1.chunks_seq()[q.id_chunk as int].spec_active()
                        == mt.chunks_seq()[q.id_chunk as int].spec_active());
                }
            }
            if self.chunks[c].active_count() == 0 {
                self.free_chunks.add_chunk(c);
            }
            c = c + 1;
        }
        moves
    }

    /// The pool-level fragmentation: the recycled logical indices as a
    /// percentage of all assigned indices; an empty table reads as 0.
    pub fn fragmentation_percent(&self) -> (r: usize)
        requires
            self.wf(),
        ensures
            r as int == if self.table_seq().len() == 0 {
                0int
            } else {
                (self.free_seq().len() * 100) as int / (self.table_seq().len() as int)
            },
    {
        let total = self.index_table.len();
        if total == 0 {
            return 0;
        }
        let frees = self.free_indices.len();
        let scaled = (frees as u128) * 100u128 / (total as u128);
        proof {
            assert((frees as u128) * 100u128 == (frees * 100) as u128) by (nonlinear_arith)
                requires
                    frees <= usize::MAX,
            ;
            assert(frees * 100 / (total as int) <= 100) by (nonlinear_arith)
                requires
                    0 <= frees <= total,
                    total >= 1,
            ;
            assert(frees * 100 >= 0) by (nonlinear_arith)
                requires
                    frees >= 0,
            ;
        }
        scaled as usize
    }

    /// Whether compaction is called for: the fragmentation exceeds the
    /// configured threshold and the pool holds at least the minimum
    /// number of live records.
    pub fn should_compact(&self) -> (r: bool)
        requires
            self.wf(),
        ensures
            r == (self.table_seq().len() > 0 && self.free_seq().len() * 100
                > self.table_seq().len() * (COMPACTION_THRESHOLD_PERCENT as int)
                && self.spec_count() >= MIN_COMPONENTS_FOR_COMPACTION),
    {
        let total = self.index_table.len();
        if total == 0 || self.count < MIN_COMPONENTS_FOR_COMPACTION {
            return false;
        }
        let frees = self.free_indices.len();
        proof {
            assert((frees as u128) * 100u128 == (frees * 100) as u128) by (nonlinear_arith)
                requires
                    frees <= usize::MAX,
            ;
            assert((total as u128) * (COMPACTION_THRESHOLD_PERCENT as u128) == (total
                * COMPACTION_THRESHOLD_PERCENT) as u128) by (nonlinear_arith)
                requires
                    total <= usize::MAX,
            ;
        }
        (frees as u128) * 100u128 > (total as u128) * (COMPACTION_THRESHOLD_PERCENT as u128)
    }

    /// The half-open range of dense iteration positions assigned to
    /// one thread out of `thread_count`, over the pool's live count.
    pub fn thread_range(&self, thread_id: usize, thread_count: usize) -> (r: (usize, usize))
        requires
            thread_count >= 1,
            thread_id < thread_count,
        ensures
            r.0 == utils::thread_range_start(
                thread_id as int,
                thread_count as int,
                self.spec_count(),
            ),
            r.1 == utils::thread_range_end(
                thread_id as int,
                thread_count as int,
                self.spec_count(),
            ),
            r.0 <= r.1 <= self.spec_count(),
    {
        utils::thread_range(thread_id, thread_count, self.count)
    }

    /// The number of live records.
    pub fn count(&self) -> (r: usize)
        ensures
            r == self.spec_count(),
    {
        self.count
    }

    /// The total number of slots across all chunks.
    pub fn capacity(&self) -> (r: usize)
        requires
            self.wf(),
        ensures
            r == self.chunks_seq().len() * self.spec_capacity_per_chunk(),
    {
        proof {
            vstd::arithmetic::mul::lemma_mul_inequality(
                self.chunks_seq().len() as int,
                self.spec_max_chunks(),
                self.spec_capacity_per_chunk(),
            );
            assert(self.chunks_seq().len() * self.spec_capacity_per_chunk() >= 0)
                by (nonlinear_arith);
        }
        self.chunks.len() * self.capacity_per_chunk
    }

    /// The number of chunks currently allocated.
    pub fn chunks_count(&self) -> (r: usize)
        ensures
            r == self.chunks_seq().len(),
    {
        self.chunks.len()
    }

    /// The chunk that received the most recent allocation.
    pub fn current_chunk_index(&self) -> (r: usize)
        ensures
            r == self.spec_current_chunk(),
    {
        self.current_chunk_index
    }

    /// The number of live records in chunk `chunk_index`.
    pub fn chunk_component_count(&self, chunk_index: usize) -> (r: Option<usize>)
        requires
            self.wf(),
        ensures
            match r {
                Some(n) => chunk_index < self.chunks_seq().len() && n
                    == self.chunks_seq()[chunk_index as int].spec_active(),
                None => chunk_index >= self.chunks_seq().len(),
            },
    {
        if chunk_index >= self.chunks.len() {
            return None;
        }
        Some(self.chunks[chunk_index].active_count())
    }

    /// The record type's identifier.
    pub fn component_id(&self) -> (r: usize)
        ensures
            r == self.spec_component_id(),
    {
        self.component_id
    }

    /// The record size in bytes.
    pub fn component_size(&self) -> (r: usize)
        ensures
            r == self.spec_component_size(),
    {
        self.component_size
    }

    /// The record alignment in bytes.
    pub fn component_align(&self) -> (r: usize)
        ensures
            r == self.spec_component_align(),
    {
        self.component_align
    }

    /// Whether no further record fits without growing past the chunk
    /// bound: every chunk is full and the bound is reached.
    pub fn is_full(&self) -> (r: bool)
        requires
            self.wf(),
        ensures
            r == (!self.has_room() && self.chunks_seq().len() == self.spec_max_chunks()),
    {
        if self.chunks.len() < self.max_chunks {
            return false;
        }
        let mut c: usize = 0;
        while c < self.chunks.len()
            invariant
                self.wf(),
                c <= self.chunks_seq().len(),
                forall|i: int|
                    0 <= i < c ==> self.chunks_seq()[i].spec_active()
                        == self.spec_capacity_per_chunk(),
            decreases self.chunks_seq().len() - c,
        {
            if self.chunks[c].active_count() < self.capacity_per_chunk {
                return false;
            }
            c = c + 1;
        }
        true
    }

    /// The number of slots still unused, counted against the chunks
    /// already allocated.
    pub fn remaining_capacity(&self) -> (r: usize)
        requires
            self.wf(),
        ensures
            r as int == if self.chunks_seq().len() * self.spec_capacity_per_chunk()
                >= self.spec_count() {
                self.chunks_seq().len() * self.spec_capacity_per_chunk() - self.spec_count()
            } else {
                0int
            },
    {
        let total = self.capacity();
        if total >= self.count {
            total - self.count
        } else {
            0
        }
    }
}

/// The default number of slots per chunk for a record of
/// `component_size` bytes: smaller records pack into larger chunks.
fn get_optimal_chunk_capacity(component_size: usize) -> (r: usize)
    ensures
        r == if component_size <= TINY_COMPONENT_THRESHOLD {
            TINY_COMPONENTS_PER_CHUNK as int
        } else if component_size <= SMALL_COMPONENT_THRESHOLD {
            SMALL_COMPONENTS_PER_CHUNK as int
        } else if component_size <= MEDIUM_COMPONENT_THRESHOLD {
            MEDIUM_COMPONENTS_PER_CHUNK as int
        } else {
            LARGE_COMPONENTS_PER_CHUNK as int
        },
        1 <= r <= TINY_COMPONENTS_PER_CHUNK,
{
    if component_size <= TINY_COMPONENT_THRESHOLD {
        TINY_COMPONENTS_PER_CHUNK
    } else if component_size <= SMALL_COMPONENT_THRESHOLD {
        SMALL_COMPONENTS_PER_CHUNK
    } else if component_size <= MEDIUM_COMPONENT_THRESHOLD {
        MEDIUM_COMPONENTS_PER_CHUNK
    } else {
        LARGE_COMPONENTS_PER_CHUNK
    }
}

/// A duplicate-free list of table positions that avoids one live
/// position cannot fill the whole table.
proof fn lemma_free_list_shorter(free: Seq<usize>, n: int, excl: int)
    requires
        forall|p: int, q: int| 0 <= p < q < free.len() ==> free[p] != free[q],
        forall|p: int|
            #![trigger free[p]]
            0 <= p < free.len() ==> (free[p] as int) < n && (free[p] as int) != excl,
        0 <= excl < n,
    ensures
        free.len() < n,
{
    let ints = Seq::new(free.len(), |i: int| free[i] as int);
    assert(ints.no_duplicates()) by {
        assert forall|p: int, q: int|
            0 <= p < ints.len() && 0 <= q < ints.len() && p != q implies ints[p]
            != ints[q] by {
            if p < q {
                assert(free[p] != free[q]);
            } else {
                assert(free[q] != free[p]);
            }
        }
    }
    ints.unique_seq_to_set();
    vstd::seq_lib::seq_to_set_is_finite(ints);
    let target = vstd::set_lib::set_int_range(0, n).remove(excl);
    vstd::set_lib::lemma_int_range(0, n);
    assert(ints.to_set().subset_of(target)) by {
        assert forall|x: int| ints.to_set().contains(x) implies target.contains(x) by {
            assert(ints.contains(x));
            let i = choose|i: int| 0 <= i < ints.len() && ints[i] == x;
            assert(free[i] as int == x);
        }
    }
    vstd::set_lib::lemma_len_subset(ints.to_set(), target);
    assert(target.len() == n - 1);
}

} // verus!
