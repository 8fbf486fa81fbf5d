//! Sparse map: translates an unbounded external index space into a
//! densely packed value array, with constant-time insert, lookup and
//! swap-based removal.

use vstd::prelude::*;

verus! {

/// The sparse/dense split: `sparse[external]` points at a position in
/// `dense`, and `indices` maps that position back to its external
/// index, so a removal can fix up whichever entry was swapped into the
/// gap.
pub struct SparseMap<V> {
    sparse: Vec<Option<usize>>,
    dense: Vec<V>,
    indices: Vec<usize>,
}

impl<V> SparseMap<V> {
    /// The sparse lookup array.
    pub closed spec fn sparse_seq(self) -> Seq<Option<usize>> {
        self.sparse@
    }

    /// The packed values.
    pub closed spec fn dense_seq(self) -> Seq<V> {
        self.dense@
    }

    /// The external index of each packed value.
    pub closed spec fn indices_seq(self) -> Seq<usize> {
        self.indices@
    }

    /// Structural invariant: `dense` and `indices` run in step, and
    /// the sparse and dense sides point at each other exactly.
    pub open spec fn wf(self) -> bool {
        &&& self.dense_seq().len() == self.indices_seq().len()
        &&& forall|d: int|
            0 <= d < self.indices_seq().len() ==> (self.indices_seq()[d] as int)
                < self.sparse_seq().len() && self.sparse_seq()[self.indices_seq()[d] as int]
                == Some(d as usize)
        &&& forall|s: int|
            #![trigger self.sparse_seq()[s]]
            0 <= s < self.sparse_seq().len() && self.sparse_seq()[s] is Some ==> (
            self.sparse_seq()[s]->0 as int) < self.dense_seq().len()
                && (self.indices_seq()[self.sparse_seq()[s]->0 as int] as int) == s
    }

    /// Whether external index `i` holds a value.
    pub open spec fn spec_contains(self, i: int) -> bool {
        0 <= i < self.sparse_seq().len() && self.sparse_seq()[i] is Some
    }

    /// The value at external index `i`.
    pub open spec fn spec_get(self, i: int) -> V
        recommends
            self.spec_contains(i),
            self.wf(),
    {
        self.dense_seq()[self.sparse_seq()[i]->0 as int]
    }

    /// Creates an empty map.
    pub fn new() -> (r: SparseMap<V>)
        ensures
            r.wf(),
            r.dense_seq().len() == 0,
            r.sparse_seq().len() == 0,
            forall|i: int| !r.spec_contains(i),
    {
        SparseMap { sparse: Vec::new(), dense: Vec::new(), indices: Vec::new() }
    }

    /// Creates an empty map with reserved room.
    pub fn with_capacity(capacity: usize) -> (r: SparseMap<V>)
        ensures
            r.wf(),
            r.dense_seq().len() == 0,
            r.sparse_seq().len() == 0,
            forall|i: int| !r.spec_contains(i),
    {
        SparseMap {
            sparse: Vec::with_capacity(capacity),
            dense: Vec::with_capacity(capacity),
            indices: Vec::with_capacity(capacity),
        }
    }

    /// Stores `value` at external index `index`, growing the sparse
    /// side as needed; an index already present has its value replaced
    /// in place, and the old value comes back.
    pub fn insert(&mut self, index: usize, value: V) -> (r: Option<V>)
        requires
            old(self).wf(),
            index < usize::MAX,
        ensures
            final(self).wf(),
            forall|i: int|
                #![trigger final(self).spec_contains(i)]
                #![trigger old(self).spec_contains(i)]
                final(self).spec_contains(i) <==> (old(self).spec_contains(i) || i == index),
            final(self).spec_get(index as int) == value,
            forall|i: int|
                #![trigger final(self).spec_get(i)]
                #![trigger old(self).spec_get(i)]
                old(self).spec_contains(i) && i != index ==> final(self).spec_get(i) == old(
                    self,
                ).spec_get(i),
            r == if old(self).spec_contains(index as int) {
                Some(old(self).spec_get(index as int))
            } else {
                Option::<V>::None
            },
            final(self).dense_seq().len() == old(self).dense_seq().len() + (
            if old(self).spec_contains(index as int) {
                0int
            } else {
                1int
            }),
    {
        // Grow the sparse side up to the index.
        while self.sparse.len() <= index
            invariant
                old(self).wf(),
                index < usize::MAX,
                self.dense == old(self).dense,
                self.indices == old(self).indices,
                self.sparse_seq().len() >= old(self).sparse_seq().len(),
                forall|i: int|
                    0 <= i < self.sparse_seq().len() ==> self.sparse_seq()[i] == (
                    if i < old(self).sparse_seq().len() {
                        old(self).sparse_seq()[i]
                    } else {
                        Option::<usize>::None
                    }),
            decreases index + 1 - self.sparse.len(),
        {
            self.sparse.push(None);
        }
        let ghost mg = *self;
        proof {
            assert(mg.wf());
            assert forall|i: int|
                #![trigger mg.spec_contains(i)]
                #![trigger old(self).spec_contains(i)]
                mg.spec_contains(i) <==> old(self).spec_contains(i) by {}
        }
        match self.sparse[index] {
            Some(d) => {
                // Replace in place: push the new value, then swap it
                // into position `d`, recovering the old value.
                self.dense.push(value);
                let old_value = self.dense.swap_remove(d);
                proof {
                    assert(self.dense_seq() =~= mg.dense_seq().update(d as int, value));
                    assert forall|i: int|
                        old(self).spec_contains(i) && i != index implies self.spec_get(i)
                        == old(self).spec_get(i) by {
                        assert(mg.sparse_seq()[i]->0 != d);
                    }
                }
                Some(old_value)
            },
            None => {
                let d = self.dense.len();
                self.dense.push(value);
                self.indices.push(index);
                self.sparse[index] = Some(d);
                proof {
                    assert forall|i: int|
                        old(self).spec_contains(i) && i != index implies self.spec_get(i)
                        == old(self).spec_get(i) by {
                        assert(mg.sparse_seq()[i] == self.sparse_seq()[i]);
                    }
                    assert(self.wf()) by {
                        assert forall|s: int|
                            #![trigger self.sparse_seq()[s]]
                            0 <= s < self.sparse_seq().len() && self.sparse_seq()[s] is Some
                            implies (self.sparse_seq()[s]->0 as int) < self.dense_seq().len()
                            && (self.indices_seq()[self.sparse_seq()[s]->0 as int] as int)
                            == s by {
                            if s != index {
                                assert(mg.sparse_seq()[s] == self.sparse_seq()[s]);
                            }
                        }
                    }
                }
                None
            },
        }
    }

    /// Removes the value at external index `index` by swapping the
    /// last packed value into its place, and returns it; an absent
    /// index changes nothing.
    pub fn swap_remove(&mut self, index: usize) -> (r: Option<V>)
        requires
            old(self).wf(),
        ensures
            final(self).wf(),
            r is None <==> !old(self).spec_contains(index as int),
            r is None ==> *final(self) == *old(self),
            forall|i: int|
                #![trigger final(self).spec_contains(i)]
                #![trigger old(self).spec_contains(i)]
                final(self).spec_contains(i) <==> (old(self).spec_contains(i) && i != index),
            match r {
                Some(v) => {
                    &&& v == old(self).spec_get(index as int)
                    &&& forall|i: int|
                        #![trigger final(self).spec_get(i)]
                        #![trigger old(self).spec_get(i)]
                        old(self).spec_contains(i) && i != index ==> final(self).spec_get(i)
                            == old(self).spec_get(i)
                    &&& final(self).dense_seq().len() == old(self).dense_seq().len() - 1
                },
                None => true,
            },
    {
        if index >= self.sparse.len() {
            return None;
        }
        let entry = self.sparse[index];
        let d = match entry {
            Some(d) => d,
            None => {
                return None;
            },
        };
        self.sparse[index] = None;
        let last = self.dense.len() - 1;
        let ghost mg = *self;
        if d == last {
            let v = match self.dense.pop() {
                Some(v) => v,
                None => {
                    proof {
                        assert(false);
                    }
                    return None;
                },
            };
            self.indices.pop();
            proof {
                assert(self.dense_seq() =~= mg.dense_seq().drop_last());
                assert forall|i: int|
                    old(self).spec_contains(i) && i != index implies self.spec_get(i) == old(
                    self,
                ).spec_get(i) by {
                    assert(mg.sparse_seq()[i]->0 != d);
                }
            }
            Some(v)
        } else {
            let v = self.dense.swap_remove(d);
            self.indices.swap_remove(d);
            // The last packed value now sits at `d`: repoint the
            // sparse entry of its external index.
            let moved_ext = self.indices[d];
            proof {
                assert(moved_ext == old(self).indices_seq()[last as int]);
                assert(old(self).sparse_seq()[moved_ext as int] == Some(last));
                assert(moved_ext != index);
            }
            self.sparse[moved_ext] = Some(d);
            proof {
                let c1 = *self;
                assert forall|i: int|
                    old(self).spec_contains(i) && i != index implies c1.spec_get(i) == old(
                    self,
                ).spec_get(i) by {
                    let od = old(self).sparse_seq()[i]->0 as int;
                    if i == moved_ext {
                        assert(od == last);
                        assert(c1.dense_seq()[d as int] == old(self).dense_seq()[last as int]);
                    } else {
                        assert(c1.sparse_seq()[i] == old(self).sparse_seq()[i]);
                        assert(od != d && od != last);
                    }
                }
                assert(c1.wf()) by {
                    assert forall|dd: int|
                        0 <= dd < c1.indices_seq().len() implies (c1.indices_seq()[dd] as int)
                        < c1.sparse_seq().len() && c1.sparse_seq()[c1.indices_seq()[dd] as int]
                        == Some(dd as usize) by {
                        if dd != d {
                            assert(c1.indices_seq()[dd] == old(self).indices_seq()[dd]);
                            assert(old(self).indices_seq()[dd] != index as usize);
                            assert(old(self).indices_seq()[dd] != moved_ext);
                        }
                    }
                    assert forall|s: int|
                        #![trigger c1.sparse_seq()[s]]
                        0 <= s < c1.sparse_seq().len() && c1.sparse_seq()[s] is Some implies (
                    c1.sparse_seq()[s]->0 as int) < c1.dense_seq().len() && (
                    c1.indices_seq()[c1.sparse_seq()[s]->0 as int] as int) == s by {
                        if s != moved_ext && s != index {
                            assert(c1.sparse_seq()[s] == old(self).sparse_seq()[s]);
                            let sd = old(self).sparse_seq()[s]->0 as int;
                            assert(old(self).indices_seq()[sd] as int == s);
                            assert(sd != d && sd != last);
                        }
                    }
                }
            }
            Some(v)
        }
    }

    /// Whether external index `index` holds a value.
    pub fn contains(&self, index: usize) -> (r: bool)
        requires
            self.wf(),
        ensures
            r == self.spec_contains(index as int),
    {
        index < self.sparse.len() && self.sparse[index].is_some()
    }

    /// A reference to the value at external index `index`.
    pub fn get(&self, index: usize) -> (r: Option<&V>)
        requires
            self.wf(),
        ensures
            match r {
                Some(v) => self.spec_contains(index as int) && *v == self.spec_get(
                    index as int,
                ),
                None => !self.spec_contains(index as int),
            },
    {
        if index >= self.sparse.len() {
            return None;
        }
        match self.sparse[index] {
            Some(d) => Some(&self.dense[d]),
            None => None,
        }
    }

    /// A mutable reference to the value at external index `index`.
    /// Nothing but the pointed-at value can change through it.
    pub fn get_mut(&mut self, index: usize) -> (r: Option<&mut V>)
        requires
            old(self).wf(),
        ensures
            r is Some <==> old(self).spec_contains(index as int),
            r is None ==> *final(self) == *old(self),
            match r {
                Some(v) => {
                    &&& *v == old(self).spec_get(index as int)
                    &&& final(self).wf()
                    &&& final(self).sparse_seq() == old(self).sparse_seq()
                    &&& final(self).indices_seq() == old(self).indices_seq()
                    &&& final(self).dense_seq() == old(self).dense_seq().update(
                        old(self).sparse_seq()[index as int]->0 as int,
                        *final(v),
                    )
                    &&& final(self).spec_get(index as int) == *final(v)
                    &&& forall|i: int|
                        #![trigger final(self).spec_get(i)]
                        #![trigger old(self).spec_get(i)]
                        old(self).spec_contains(i) && i != index ==> final(self).spec_get(i)
                            == old(self).spec_get(i)
                },
                None => true,
            },
    {
        if index >= self.sparse.len() {
            return None;
        }
        match self.sparse[index] {
            Some(d) => {
                proof {
                    assert forall|i: int|
                        old(self).spec_contains(i) && i != index implies old(
                        self,
                    ).sparse_seq()[i]->0 != d by {}
                }
                Some(vstd::std_specs::vec::vec_index_mut(&mut self.dense, d))
            },
            None => None,
        }
    }

    /// Whether the map holds no value.
    pub fn is_empty(&self) -> (r: bool)
        ensures
            r == (self.dense_seq().len() == 0),
    {
        self.dense.len() == 0
    }

    /// Removes every value; the sparse side keeps its length, all
    /// entries vacant.
    pub fn clear(&mut self)
        requires
            old(self).wf(),
        ensures
            final(self).wf(),
            final(self).dense_seq().len() == 0,
            forall|i: int| !final(self).spec_contains(i),
            final(self).sparse_seq().len() == old(self).sparse_seq().len(),
    {
        let mut s: usize = 0;
        while s < self.sparse.len()
            invariant
                s <= self.sparse_seq().len(),
                self.sparse_seq().len() == old(self).sparse_seq().len(),
                self.dense == old(self).dense,
                self.indices == old(self).indices,
                forall|i: int| 0 <= i < s ==> self.sparse_seq()[i] is None,
            decreases self.sparse_seq().len() - s,
        {
            self.sparse[s] = None;
            s = s + 1;
        }
        self.dense.clear();
        self.indices.clear();
    }

    /// The number of values held.
    pub fn len(&self) -> (r: usize)
        ensures
            r == self.dense_seq().len(),
    {
        self.dense.len()
    }

    /// The length of the sparse lookup array.
    pub fn sparse_len(&self) -> (r: usize)
        ensures
            r == self.sparse_seq().len(),
    {
        self.sparse.len()
    }
}

} // verus!
