//! A bundle of component pools, one per record type, found by the
//! type's stable identifier through a sparse map.

use vstd::prelude::*;
use crate::component_pool::ComponentPool;
use crate::constants::{CACHE_LINE_SIZE, MIN_ALIGNMENT, TINY_COMPONENTS_PER_CHUNK};
use crate::sparse_map::SparseMap;
use crate::utils;

verus! {

/// The pools, and the identifier-to-pool translation.
pub struct ComponentPoolBundle {
    pools: Vec<ComponentPool>,
    sparse_indexes: SparseMap<usize>,
}

impl ComponentPoolBundle {
    /// The pools held.
    pub closed spec fn pools_seq(self) -> Seq<ComponentPool> {
        self.pools@
    }

    /// The identifier-to-pool map.
    pub closed spec fn index_map(self) -> SparseMap<usize> {
        self.sparse_indexes
    }

    /// Whether a pool exists for record type `id`.
    pub open spec fn has_pool(self, id: int) -> bool {
        self.index_map().spec_contains(id)
    }

    /// The position of the pool for record type `id`.
    pub open spec fn pool_index(self, id: int) -> int
        recommends
            self.has_pool(id),
    {
        self.index_map().spec_get(id) as int
    }

    /// Structural invariant: the map is well formed and points each
    /// registered identifier at a well-formed pool built for it.
    pub open spec fn wf(self) -> bool {
        &&& self.index_map().wf()
        &&& forall|id: int|
            #![trigger self.index_map().spec_contains(id)]
            self.index_map().spec_contains(id) ==> 0 <= self.pool_index(id)
                < self.pools_seq().len() && self.pools_seq()[self.pool_index(id)].wf()
                && self.pools_seq()[self.pool_index(id)].spec_component_id() == id
    }

    /// Creates an empty bundle.
    pub fn new() -> (r: ComponentPoolBundle)
        ensures
            r.wf(),
            r.pools_seq().len() == 0,
            forall|id: int| !r.has_pool(id),
    {
        ComponentPoolBundle { pools: Vec::new(), sparse_indexes: SparseMap::new() }
    }

    /// Creates an empty bundle with reserved room.
    pub fn with_capacity(capacity: usize) -> (r: ComponentPoolBundle)
        ensures
            r.wf(),
            r.pools_seq().len() == 0,
            forall|id: int| !r.has_pool(id),
    {
        ComponentPoolBundle {
            pools: Vec::with_capacity(capacity),
            sparse_indexes: SparseMap::with_capacity(capacity),
        }
    }

    /// Registers a pool for record type `component_id` with the
    /// default sizing and returns its position; a type already
    /// registered keeps its pool.
    pub fn add_pool(
        &mut self,
        component_id: usize,
        component_size: usize,
        component_align: usize,
    ) -> (r: usize)
        requires
            old(self).wf(),
            component_id < usize::MAX,
            component_size >= 1,
            utils::is_pow2(component_align as nat),
            (component_size + component_align) * TINY_COMPONENTS_PER_CHUNK + CACHE_LINE_SIZE
                + component_align + MIN_ALIGNMENT <= usize::MAX,
        ensures
            final(self).wf(),
            final(self).has_pool(component_id as int),
            r as int == final(self).pool_index(component_id as int),
            (r as int) < final(self).pools_seq().len(),
            final(self).pools_seq()[r as int].spec_component_id() == component_id,
            old(self).has_pool(component_id as int) ==> *final(self) == *old(self),
            !old(self).has_pool(component_id as int) ==> r as int == old(
                self,
            ).pools_seq().len(),
            !old(self).has_pool(component_id as int) ==> {
                &&& final(self).pools_seq() == old(self).pools_seq().push(
                    final(self).pools_seq().last(),
                )
                &&& final(self).pools_seq().last().spec_count() == 0
                &&& forall|id: int|
                    #![trigger final(self).has_pool(id)]
                    #![trigger old(self).has_pool(id)]
                    final(self).has_pool(id) <==> (old(self).has_pool(id) || id
                        == component_id)
            },
    {
        match self.sparse_indexes.get(component_id) {
            Some(existing) => {
                let idx = *existing;
                proof {
                    assert(self.has_pool(component_id as int));
                }
                idx
            },
            None => {
                let pool = ComponentPool::with_default_sizes(
                    component_id,
                    component_size,
                    component_align,
                );
                let idx = self.pools.len();
                self.pools.push(pool);
                self.sparse_indexes.insert(component_id, idx);
                proof {
                    assert forall|id: int|
                        #![trigger self.index_map().spec_contains(id)]
                        self.index_map().spec_contains(id) implies 0 <= self.pool_index(id)
                        < self.pools_seq().len() && self.pools_seq()[self.pool_index(
                        id,
                    )].wf() && self.pools_seq()[self.pool_index(id)].spec_component_id()
                        == id by {
                        if id != component_id {
                            assert(old(self).index_map().spec_contains(id));
                            assert(self.index_map().spec_get(id) == old(
                                self,
                            ).index_map().spec_get(id));
                        }
                    }
                }
                idx
            },
        }
    }

    /// A reference to the pool for record type `component_id`.
    pub fn get_pool_by_id(&self, component_id: usize) -> (r: Option<&ComponentPool>)
        requires
            self.wf(),
        ensures
            match r {
                Some(p) => self.has_pool(component_id as int) && *p == self.pools_seq()[
                    self.pool_index(component_id as int)],
                None => !self.has_pool(component_id as int),
            },
    {
        match self.sparse_indexes.get(component_id) {
            Some(idx) => Some(&self.pools[*idx]),
            None => None,
        }
    }

    /// A mutable reference to the pool for record type `component_id`.
    /// The bundle's invariant survives any use that keeps the pool
    /// well formed and leaves its type identifier alone.
    pub fn get_pool_mut_by_id(&mut self, component_id: usize) -> (r: Option<&mut ComponentPool>)
        requires
            old(self).wf(),
        ensures
            r is Some <==> old(self).has_pool(component_id as int),
            r is None ==> *final(self) == *old(self),
            match r {
                Some(p) => {
                    &&& *p == old(self).pools_seq()[old(self).pool_index(component_id as int)]
                    &&& final(self).index_map() == old(self).index_map()
                    &&& final(self).pools_seq() == old(self).pools_seq().update(
                        old(self).pool_index(component_id as int),
                        *final(p),
                    )
                    &&& (final(p).wf() && final(p).spec_component_id() == component_id
                        ==> final(self).wf())
                },
                None => true,
            },
    {
        match self.sparse_indexes.get(component_id) {
            Some(idx) => {
                let i = *idx;
                let ghost m0 = *self;
                let p = vstd::std_specs::vec::vec_index_mut(&mut self.pools, i);
                proof {
                    assert forall|id: int|
                        #![trigger m0.index_map().spec_contains(id)]
                        m0.index_map().spec_contains(id) && id != component_id implies
                        m0.pool_index(id) != i as int by {
                        if m0.pool_index(id) == i as int {
                            assert(m0.pools_seq()[i as int].spec_component_id() == id);
                            assert(m0.pools_seq()[i as int].spec_component_id()
                                == component_id);
                        }
                    }
                }
                Some(p)
            },
            None => None,
        }
    }

    /// Whether a pool exists for record type `component_id`.
    pub fn contains_id(&self, component_id: usize) -> (r: bool)
        requires
            self.wf(),
        ensures
            r == self.has_pool(component_id as int),
    {
        self.sparse_indexes.contains(component_id)
    }

    /// The number of pools held.
    pub fn len(&self) -> (r: usize)
        ensures
            r == self.pools_seq().len(),
    {
        self.pools.len()
    }

    /// Whether the bundle holds no pool.
    pub fn is_empty(&self) -> (r: bool)
        ensures
            r == (self.pools_seq().len() == 0),
    {
        self.pools.len() == 0
    }
}

} // verus!
