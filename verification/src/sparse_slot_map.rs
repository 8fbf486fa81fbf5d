//! Generational sparse map: like the plain sparse map, but every
//! sparse entry carries a generation counter. A lookup, insertion or
//! removal succeeds only when the caller's generation matches the
//! stored one; a removal bumps the counter, so a handle taken before
//! the removal can never match again once the index is recycled.

use vstd::prelude::*;
use crate::identifiers::{Generation, Slot};

verus! {

/// One sparse entry: the current generation of the external index,
/// and, when a value is present, its position in the dense array.
#[derive(Debug, Clone, Copy, PartialEq, Eq, Structural)]
pub struct SparseEntry {
    /// The generation the index is currently at.
    pub generation: Generation,
    /// The position of the value in the dense array, if one is held.
    pub dense: Option<usize>,
}

/// The generational sparse/dense split. Entries the sparse side has
/// never seen read as generation 0 and vacant.
pub struct SparseSlotMap<V> {
    sparse: Vec<SparseEntry>,
    dense: Vec<V>,
    indices: Vec<usize>,
}

/// The generation that follows `g`, wrapping at the maximum.
pub open spec fn next_generation(g: Generation) -> Generation {
    if g == Generation::MAX {
        0
    } else {
        (g + 1) as Generation
    }
}

impl<V> SparseSlotMap<V> {
    /// The sparse lookup array.
    pub closed spec fn sparse_seq(self) -> Seq<SparseEntry> {
        self.sparse@
    }

    /// The packed values.
    pub closed spec fn dense_seq(self) -> Seq<V> {
        self.dense@
    }

    /// The external index of each packed value.
    pub closed spec fn indices_seq(self) -> Seq<usize> {
        self.indices@
    }

    /// The generation of external index `i`; an index the sparse side
    /// has not grown to yet is at generation 0.
    pub open spec fn spec_generation(self, i: int) -> Generation {
        if 0 <= i < self.sparse_seq().len() {
            self.sparse_seq()[i].generation
        } else {
            0
        }
    }

    /// Whether external index `i` holds a value.
    pub open spec fn live(self, i: int) -> bool {
        0 <= i < self.sparse_seq().len() && self.sparse_seq()[i].dense is Some
    }

    /// Whether `slot` matches: its generation is the current one of
    /// its index.
    pub open spec fn slot_matches(self, slot: Slot) -> bool {
        slot.generation == self.spec_generation(slot.index as int)
    }

    /// The value at external index `i`.
    pub open spec fn spec_get(self, i: int) -> V
        recommends
            self.live(i),
            self.wf(),
    {
        self.dense_seq()[self.sparse_seq()[i].dense->0 as int]
    }

    /// Structural invariant: `dense` and `indices` run in step, and
    /// the sparse and dense sides point at each other exactly.
    pub open spec fn wf(self) -> bool {
        &&& self.dense_seq().len() == self.indices_seq().len()
        &&& forall|d: int|
            0 <= d < self.indices_seq().len() ==> (self.indices_seq()[d] as int)
                < self.sparse_seq().len() && self.sparse_seq()[self.indices_seq()[d] as int].dense
                == Some(d as usize)
        &&& forall|s: int|
            #![trigger self.sparse_seq()[s]]
            0 <= s < self.sparse_seq().len() && self.sparse_seq()[s].dense is Some ==> (
            self.sparse_seq()[s].dense->0 as int) < self.dense_seq().len()
                && (self.indices_seq()[self.sparse_seq()[s].dense->0 as int] as int) == s
    }

    /// Creates an empty map.
    pub fn new() -> (r: SparseSlotMap<V>)
        ensures
            r.wf(),
            r.dense_seq().len() == 0,
            r.sparse_seq().len() == 0,
            forall|i: int| !r.live(i),
            forall|i: int| r.spec_generation(i) == 0,
    {
        SparseSlotMap { sparse: Vec::new(), dense: Vec::new(), indices: Vec::new() }
    }

    /// Creates an empty map with reserved room.
    pub fn with_capacity(capacity: usize) -> (r: SparseSlotMap<V>)
        ensures
            r.wf(),
            r.dense_seq().len() == 0,
            r.sparse_seq().len() == 0,
            forall|i: int| !r.live(i),
            forall|i: int| r.spec_generation(i) == 0,
    {
        SparseSlotMap {
            sparse: Vec::with_capacity(capacity),
            dense: Vec::with_capacity(capacity),
            indices: Vec::with_capacity(capacity),
        }
    }

    /// A fresh handle for an index never inserted before: generation 0.
    pub fn create_slot(&self, index: usize) -> (r: Slot)
        ensures
            r.index == index,
            r.generation == 0,
    {
        Slot::new(index, 0)
    }

    /// Stores `value` under `slot`. The slot's generation must be the
    /// current one of its index, else the handle is stale and nothing
    /// happens; on a match the value lands at the index — replacing
    /// and returning the old value if the index was live.
    pub fn insert(&mut self, slot: Slot, value: V) -> (r: Option<V>)
        requires
            old(self).wf(),
            slot.index < usize::MAX,
        ensures
            final(self).wf(),
            !old(self).slot_matches(slot) ==> *final(self) == *old(self) && r is None,
            old(self).slot_matches(slot) ==> {
                &&& forall|i: int|
                    #![trigger final(self).live(i)]
                    #![trigger old(self).live(i)]
                    final(self).live(i) <==> (old(self).live(i) || i == slot.index)
                &&& forall|i: int|
                    #![trigger final(self).spec_generation(i)]
                    final(self).spec_generation(i) == old(self).spec_generation(i)
                &&& final(self).spec_get(slot.index as int) == value
                &&& forall|i: int|
                    #![trigger final(self).spec_get(i)]
                    #![trigger old(self).spec_get(i)]
                    old(self).live(i) && i != slot.index ==> final(self).spec_get(i) == old(
                        self,
                    ).spec_get(i)
                &&& r == if old(self).live(slot.index as int) {
                    Some(old(self).spec_get(slot.index as int))
                } else {
                    Option::<V>::None
                }
                &&& final(self).dense_seq().len() == old(self).dense_seq().len() + (
                if old(self).live(slot.index as int) {
                    0int
                } else {
                    1int
                })
            },
    {
        let index = slot.index();
        let generation_matches = if index < self.sparse.len() {
            self.sparse[index].generation == slot.generation()
        } else {
            slot.generation() == 0
        };
        if !generation_matches {
            return None;
        }
        // Grow the sparse side up to the index: fresh entries are at
        // generation 0 and vacant.
        while self.sparse.len() <= index
            invariant
                old(self).wf(),
                index < usize::MAX,
                self.dense == old(self).dense,
                self.indices == old(self).indices,
                self.sparse_seq().len() >= old(self).sparse_seq().len(),
                forall|i: int|
                    0 <= i < self.sparse_seq().len() ==> self.sparse_seq()[i] == (
                    if i < old(self).sparse_seq().len() {
                        old(self).sparse_seq()[i]
                    } else {
                        SparseEntry { generation: 0, dense: None }
                    }),
            decreases index + 1 - self.sparse.len(),
        {
            self.sparse.push(SparseEntry { generation: 0, dense: None });
        }
        let ghost mg = *self;
        proof {
            assert(mg.wf());
            assert forall|i: int|
                #![trigger mg.live(i)]
                #![trigger old(self).live(i)]
                mg.live(i) <==> old(self).live(i) by {}
            assert forall|i: int| #![trigger mg.spec_generation(i)] mg.spec_generation(i) == old(
                self,
            ).spec_generation(i) by {}
        }
        let entry = self.sparse[index];
        match entry.dense {
            Some(d) => {
                self.dense.push(value);
                let old_value = self.dense.swap_remove(d);
                proof {
                    assert(self.dense_seq() =~= mg.dense_seq().update(d as int, value));
                    assert forall|i: int|
                        old(self).live(i) && i != index implies self.spec_get(i) == old(
                        self,
                    ).spec_get(i) by {
                        assert(mg.sparse_seq()[i].dense->0 != d);
                    }
                }
                Some(old_value)
            },
            None => {
                let d = self.dense.len();
                self.dense.push(value);
                self.indices.push(index);
                self.sparse[index] = SparseEntry { generation: entry.generation, dense: Some(d) };
                proof {
                    assert forall|i: int|
                        old(self).live(i) && i != index implies self.spec_get(i) == old(
                        self,
                    ).spec_get(i) by {
                        assert(mg.sparse_seq()[i] == self.sparse_seq()[i]);
                    }
                    assert(self.wf()) by {
                        assert forall|s: int|
                            #![trigger self.sparse_seq()[s]]
                            0 <= s < self.sparse_seq().len() && self.sparse_seq()[s].dense
                                is Some implies (self.sparse_seq()[s].dense->0 as int)
                            < self.dense_seq().len() && (
                        self.indices_seq()[self.sparse_seq()[s].dense->0 as int] as int)
                            == s by {
                            if s != index {
                                assert(mg.sparse_seq()[s] == self.sparse_seq()[s]);
                            }
                        }
                    }
                }
                None
            },
        }
    }

    /// Removes the value under `slot` and returns it. Succeeds only on
    /// a live index with a matching generation; the generation is then
    /// bumped, so the removed handle is dead from that point on.
    pub fn remove(&mut self, slot: Slot) -> (r: Option<V>)
        requires
            old(self).wf(),
        ensures
            final(self).wf(),
            r is Some <==> (old(self).slot_matches(slot) && old(self).live(slot.index as int)),
            r is None ==> *final(self) == *old(self),
            match r {
                Some(v) => {
                    &&& v == old(self).spec_get(slot.index as int)
                    &&& forall|i: int|
                        #![trigger final(self).live(i)]
                        #![trigger old(self).live(i)]
                        final(self).live(i) <==> (old(self).live(i) && i != slot.index)
                    &&& final(self).spec_generation(slot.index as int) == next_generation(
                        slot.generation,
                    )
                    &&& forall|i: int|
                        #![trigger final(self).spec_generation(i)]
                        i != slot.index ==> final(self).spec_generation(i) == old(
                            self,
                        ).spec_generation(i)
                    &&& forall|i: int|
                        #![trigger final(self).spec_get(i)]
                        #![trigger old(self).spec_get(i)]
                        old(self).live(i) && i != slot.index ==> final(self).spec_get(i) == old(
                            self,
                        ).spec_get(i)
                    &&& final(self).dense_seq().len() == old(self).dense_seq().len() - 1
                },
                None => true,
            },
    {
        let index = slot.index();
        if index >= self.sparse.len() {
            return None;
        }
        let entry = self.sparse[index];
        if entry.generation != slot.generation() {
            return None;
        }
        let d = match entry.dense {
            Some(d) => d,
            None => {
                return None;
            },
        };
        // Bump the generation and vacate the entry.
        let bumped: Generation = if entry.generation == Generation::MAX {
            0
        } else {
            entry.generation + 1
        };
        self.sparse[index] = SparseEntry { generation: bumped, dense: None };
        let last = self.dense.len() - 1;
        let ghost mg = *self;
        if d == last {
            let v = match self.dense.pop() {
                Some(v) => v,
                None => {
                    proof {
                        assert(false);
                    }
                    return None;
                },
            };
            self.indices.pop();
            proof {
                assert(self.dense_seq() =~= mg.dense_seq().drop_last());
                assert forall|i: int|
                    old(self).live(i) && i != index implies self.spec_get(i) == old(
                    self,
                ).spec_get(i) by {
                    assert(mg.sparse_seq()[i].dense->0 != d);
                }
            }
            Some(v)
        } else {
            let v = self.dense.swap_remove(d);
            self.indices.swap_remove(d);
            // The last packed value now sits at `d`: repoint the
            // sparse entry of its external index, keeping its
            // generation.
            let moved_ext = self.indices[d];
            proof {
                assert(moved_ext == old(self).indices_seq()[last as int]);
                assert(old(self).sparse_seq()[moved_ext as int].dense == Some(last));
                assert(moved_ext != index);
            }
            let moved_entry = self.sparse[moved_ext];
            self.sparse[moved_ext] = SparseEntry {
                generation: moved_entry.generation,
                dense: Some(d),
            };
            proof {
                let c1 = *self;
                assert forall|i: int|
                    old(self).live(i) && i != index implies c1.spec_get(i) == old(
                    self,
                ).spec_get(i) by {
                    let od = old(self).sparse_seq()[i].dense->0 as int;
                    if i == moved_ext {
                        assert(od == last);
                        assert(c1.dense_seq()[d as int] == old(self).dense_seq()[last as int]);
                    } else {
                        assert(c1.sparse_seq()[i] == old(self).sparse_seq()[i]);
                        assert(od != d && od != last);
                    }
                }
                assert(c1.wf()) by {
                    assert forall|dd: int|
                        0 <= dd < c1.indices_seq().len() implies (c1.indices_seq()[dd] as int)
                        < c1.sparse_seq().len() && c1.sparse_seq()[c1.indices_seq()[dd] as int]
                        .dense == Some(dd as usize) by {
                        if dd != d {
                            assert(c1.indices_seq()[dd] == old(self).indices_seq()[dd]);
                            assert(old(self).indices_seq()[dd] != index as usize);
                            assert(old(self).indices_seq()[dd] != moved_ext);
                        }
                    }
                    assert forall|s: int|
                        #![trigger c1.sparse_seq()[s]]
                        0 <= s < c1.sparse_seq().len() && c1.sparse_seq()[s].dense is Some
                        implies (c1.sparse_seq()[s].dense->0 as int) < c1.dense_seq().len() && (
                    c1.indices_seq()[c1.sparse_seq()[s].dense->0 as int] as int) == s by {
                        if s != moved_ext && s != index {
                            assert(c1.sparse_seq()[s] == old(self).sparse_seq()[s]);
                            let sd = old(self).sparse_seq()[s].dense->0 as int;
                            assert(old(self).indices_seq()[sd] as int == s);
                            assert(sd != d && sd != last);
                        }
                    }
                }
            }
            Some(v)
        }
    }

    /// Whether a value lives under `slot`: the index is live and the
    /// generation matches.
    pub fn contains(&self, slot: Slot) -> (r: bool)
        requires
            self.wf(),
        ensures
            r == (self.slot_matches(slot) && self.live(slot.index as int)),
    {
        let index = slot.index();
        if index >= self.sparse.len() {
            return false;
        }
        let entry = self.sparse[index];
        entry.generation == slot.generation() && entry.dense.is_some()
    }

    /// A reference to the value under `slot`; a stale or vacant handle
    /// reads as "not found".
    pub fn get(&self, slot: Slot) -> (r: Option<&V>)
        requires
            self.wf(),
        ensures
            match r {
                Some(v) => {
                    &&& self.slot_matches(slot)
                    &&& self.live(slot.index as int)
                    &&& *v == self.spec_get(slot.index as int)
                },
                None => !(self.slot_matches(slot) && self.live(slot.index as int)),
            },
    {
        let index = slot.index();
        if index >= self.sparse.len() {
            return None;
        }
        let entry = self.sparse[index];
        if entry.generation != slot.generation() {
            return None;
        }
        match entry.dense {
            Some(d) => Some(&self.dense[d]),
            None => None,
        }
    }

    /// A mutable reference to the value under `slot`. Nothing but the
    /// pointed-at value can change through it.
    pub fn get_mut(&mut self, slot: Slot) -> (r: Option<&mut V>)
        requires
            old(self).wf(),
        ensures
            r is Some <==> (old(self).slot_matches(slot) && old(self).live(slot.index as int)),
            r is None ==> *final(self) == *old(self),
            match r {
                Some(v) => {
                    &&& *v == old(self).spec_get(slot.index as int)
                    &&& final(self).wf()
                    &&& final(self).sparse_seq() == old(self).sparse_seq()
                    &&& final(self).indices_seq() == old(self).indices_seq()
                    &&& final(self).spec_get(slot.index as int) == *final(v)
                    &&& forall|i: int|
                        #![trigger final(self).spec_get(i)]
                        #![trigger old(self).spec_get(i)]
                        old(self).live(i) && i != slot.index ==> final(self).spec_get(i) == old(
                            self,
                        ).spec_get(i)
                },
                None => true,
            },
    {
        let index = slot.index();
        if index >= self.sparse.len() {
            return None;
        }
        let entry = self.sparse[index];
        if entry.generation != slot.generation() {
            return None;
        }
        match entry.dense {
            Some(d) => {
                proof {
                    assert forall|i: int|
                        old(self).live(i) && i != index implies old(
                        self,
                    ).sparse_seq()[i].dense->0 != d by {}
                }
                Some(vstd::std_specs::vec::vec_index_mut(&mut self.dense, d))
            },
            None => None,
        }
    }

    /// Whether the map holds no value.
    pub fn is_empty(&self) -> (r: bool)
        ensures
            r == (self.dense_seq().len() == 0),
    {
        self.dense.len() == 0
    }

    /// Removes every value. Generations are kept, so handles taken
    /// before the clear still match their index's current generation.
    pub fn clear(&mut self)
        requires
            old(self).wf(),
        ensures
            final(self).wf(),
            final(self).dense_seq().len() == 0,
            forall|i: int| !final(self).live(i),
            forall|i: int|
                #![trigger final(self).spec_generation(i)]
                final(self).spec_generation(i) == old(self).spec_generation(i),
    {
        let mut s: usize = 0;
        while s < self.sparse.len()
            invariant
                s <= self.sparse_seq().len(),
                self.sparse_seq().len() == old(self).sparse_seq().len(),
                self.dense == old(self).dense,
                self.indices == old(self).indices,
                forall|i: int|
                    0 <= i < s ==> self.sparse_seq()[i] == (SparseEntry {
                        generation: old(self).sparse_seq()[i].generation,
                        dense: None,
                    }),
                forall|i: int|
                    s <= i < self.sparse_seq().len() ==> self.sparse_seq()[i] == old(
                        self,
                    ).sparse_seq()[i],
            decreases self.sparse_seq().len() - s,
        {
            let g = self.sparse[s].generation;
            self.sparse[s] = SparseEntry { generation: g, dense: None };
            s = s + 1;
        }
        self.dense.clear();
        self.indices.clear();
    }

    /// The number of values held.
    pub fn len(&self) -> (r: usize)
        ensures
            r == self.dense_seq().len(),
    {
        self.dense.len()
    }

    /// The length of the sparse lookup array.
    pub fn sparse_len(&self) -> (r: usize)
        ensures
            r == self.sparse_seq().len(),
    {
        self.sparse.len()
    }
}

/// Law: bumping a generation always changes it, even at the wrap:
/// no generation is its own successor.
pub proof fn lemma_generation_bump_invalidates(g: Generation)
    ensures
        next_generation(g) != g,
{
}

/// Law: once the stored generation of an index has moved past a
/// handle's — as a successful removal moves it — that handle no longer
/// matches, so every lookup, insertion or removal through it reads as
/// "not found"; a handle carrying the bumped generation matches.
pub proof fn lemma_stale_handle_rejected<V>(m: SparseSlotMap<V>, stale: Slot, fresh: Slot)
    requires
        stale.index == fresh.index,
        fresh.generation == next_generation(stale.generation),
        m.spec_generation(stale.index as int) == next_generation(stale.generation),
    ensures
        !m.slot_matches(stale),
        m.slot_matches(fresh),
{
    lemma_generation_bump_invalidates(stale.generation);
}

} // verus!
