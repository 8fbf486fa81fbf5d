//! Registry of fully empty chunks available for reuse, kept as a
//! strictly descending list of chunk indices so that the
//! highest-indexed — most recently used — chunk is offered first.

use vstd::prelude::*;

verus! {

/// The free-chunk registry. `count` caches the length of `indices`.
pub struct FreeChunkMaster {
    indices: Vec<usize>,
    count: usize,
}

impl FreeChunkMaster {
    /// The registered chunk indices, highest first.
    pub closed spec fn view_seq(self) -> Seq<usize> {
        self.indices@
    }

    /// The cached element count.
    pub closed spec fn spec_count(self) -> nat {
        self.count as nat
    }

    /// Structural invariant: the list is strictly descending (hence
    /// duplicate free) and the cached count is its length.
    pub open spec fn wf(self) -> bool {
        &&& forall|i: int, j: int|
            0 <= i < j < self.view_seq().len() ==> self.view_seq()[i] > self.view_seq()[j]
        &&& self.spec_count() == self.view_seq().len()
    }

    /// Whether chunk `x` is registered.
    pub open spec fn spec_contains(self, x: usize) -> bool {
        exists|i: int| 0 <= i < self.view_seq().len() && self.view_seq()[i] == x
    }

    /// Creates an empty registry.
    pub fn new() -> (r: FreeChunkMaster)
        ensures
            r.wf(),
            r.view_seq().len() == 0,
            forall|x: usize| !r.spec_contains(x),
    {
        FreeChunkMaster { indices: Vec::new(), count: 0 }
    }

    /// Creates an empty registry with reserved room.
    pub fn with_capacity(capacity: usize) -> (r: FreeChunkMaster)
        ensures
            r.wf(),
            r.view_seq().len() == 0,
            forall|x: usize| !r.spec_contains(x),
    {
        FreeChunkMaster { indices: Vec::with_capacity(capacity), count: 0 }
    }

    /// Registers chunk `chunk_index`, keeping the descending order; a
    /// chunk already registered is left alone.
    pub fn add_chunk(&mut self, chunk_index: usize)
        requires
            old(self).wf(),
        ensures
            final(self).wf(),
            forall|x: usize|
                #![trigger final(self).spec_contains(x)]
                #![trigger old(self).spec_contains(x)]
                final(self).spec_contains(x) <==> (old(self).spec_contains(x) || x
                    == chunk_index),
            final(self).view_seq().len() == old(self).view_seq().len() + (
            if old(self).spec_contains(chunk_index) {
                0int
            } else {
                1int
            }),
    {
        let ghost s0 = self.view_seq();
        // Find the first position whose index is not above the new one.
        let mut pos: usize = 0;
        while pos < self.indices.len() && self.indices[pos] > chunk_index
            invariant
                pos <= self.view_seq().len(),
                forall|i: int| 0 <= i < pos ==> self.view_seq()[i] > chunk_index,
                *self == *old(self),
            decreases self.view_seq().len() - pos,
        {
            pos = pos + 1;
        }
        if pos < self.indices.len() && self.indices[pos] == chunk_index {
            // Already registered.
            proof {
                assert(old(self).spec_contains(chunk_index));
            }
            return ;
        }
        proof {
            assert forall|i: int| pos <= i < s0.len() implies s0[i] < chunk_index by {
                if i > pos {
                    assert(s0[pos as int] > s0[i]);
                }
            }
            assert(!old(self).spec_contains(chunk_index));
        }
        self.indices.insert(pos, chunk_index);
        self.count = self.indices.len();
        proof {
            let s1 = self.view_seq();
            assert forall|i: int, j: int| 0 <= i < j < s1.len() implies s1[i] > s1[j] by {
                if i == pos {
                    assert(s1[j] == s0[j - 1]);
                } else if j == pos {
                    assert(s1[i] == s0[i]);
                } else {
                    let i0 = if i < pos { i } else { i - 1 };
                    let j0 = if j < pos { j } else { j - 1 };
                    assert(s1[i] == s0[i0] && s1[j] == s0[j0]);
                }
            }
            assert forall|x: usize|
                #![trigger self.spec_contains(x)]
                #![trigger old(self).spec_contains(x)]
                self.spec_contains(x) <==> (old(self).spec_contains(x) || x == chunk_index) by {
                if self.spec_contains(x) {
                    let i = choose|i: int| 0 <= i < s1.len() && s1[i] == x;
                    if i != pos {
                        let i0 = if i < pos { i } else { i - 1 };
                        assert(s0[i0] == x);
                    }
                }
                if old(self).spec_contains(x) {
                    let i = choose|i: int| 0 <= i < s0.len() && s0[i] == x;
                    let i1 = if i < pos { i } else { i + 1 };
                    assert(s1[i1] == x);
                }
                if x == chunk_index {
                    assert(s1[pos as int] == x);
                }
            }
        }
    }

    /// Hands out the best chunk for reuse: the highest registered
    /// index, removed from the registry.
    pub fn get_best_chunk(&mut self) -> (r: Option<usize>)
        requires
            old(self).wf(),
        ensures
            final(self).wf(),
            r is None <==> old(self).view_seq().len() == 0,
            r is None ==> *final(self) == *old(self),
            match r {
                Some(x) => {
                    &&& old(self).spec_contains(x)
                    &&& x == old(self).view_seq()[0]
                    &&& forall|i: int|
                        0 <= i < old(self).view_seq().len() ==> old(self).view_seq()[i] <= x
                    &&& final(self).view_seq() == old(self).view_seq().drop_first()
                    &&& forall|y: usize|
                        #![trigger final(self).spec_contains(y)]
                        #![trigger old(self).spec_contains(y)]
                        final(self).spec_contains(y) <==> (old(self).spec_contains(y) && y != x)
                },
                None => true,
            },
    {
        if self.indices.len() == 0 {
            return None;
        }
        let ghost s0 = self.view_seq();
        let index = self.indices.remove(0);
        self.count = self.indices.len();
        proof {
            assert(s0[0] == index);
            let s1 = self.view_seq();
            assert(s1 == s0.drop_first());
            assert forall|i: int| 0 <= i < s0.len() implies s0[i] <= index by {
                if i > 0 {
                    assert(s0[0] > s0[i]);
                }
            }
            assert forall|y: usize|
                #![trigger self.spec_contains(y)]
                #![trigger old(self).spec_contains(y)]
                self.spec_contains(y) <==> (old(self).spec_contains(y) && y != index) by {
                if self.spec_contains(y) {
                    let i = choose|i: int| 0 <= i < s1.len() && s1[i] == y;
                    assert(s0[i + 1] == y);
                    assert(s0[0] > s0[i + 1]);
                }
                if old(self).spec_contains(y) && y != index {
                    let i = choose|i: int| 0 <= i < s0.len() && s0[i] == y;
                    assert(i != 0);
                    assert(s1[i - 1] == y);
                }
            }
        }
        Some(index)
    }

    /// Whether chunk `chunk_index` is registered.
    pub fn contains(&self, chunk_index: usize) -> (r: bool)
        requires
            self.wf(),
        ensures
            r == self.spec_contains(chunk_index),
    {
        let mut i: usize = 0;
        while i < self.indices.len()
            invariant
                i <= self.view_seq().len(),
                forall|j: int| 0 <= j < i ==> self.view_seq()[j] != chunk_index,
            decreases self.view_seq().len() - i,
        {
            if self.indices[i] == chunk_index {
                return true;
            }
            i = i + 1;
        }
        false
    }

    /// The number of registered chunks.
    pub fn len(&self) -> (r: usize)
        requires
            self.wf(),
        ensures
            r == self.view_seq().len(),
    {
        self.count
    }

    /// Whether no chunk is registered.
    pub fn is_empty(&self) -> (r: bool)
        requires
            self.wf(),
        ensures
            r == (self.view_seq().len() == 0),
    {
        self.count == 0
    }

    /// The chunks that compaction should discard: all but the
    /// `keep_count` highest-indexed ones, that is, the tail of the
    /// descending list.
    pub fn get_chunks_to_remove(&self, keep_count: usize) -> (r: Vec<usize>)
        requires
            self.wf(),
        ensures
            self.view_seq().len() <= keep_count ==> r@.len() == 0,
            self.view_seq().len() > keep_count ==> r@ == self.view_seq().skip(
                keep_count as int,
            ),
    {
        let mut result: Vec<usize> = Vec::new();
        if self.indices.len() <= keep_count {
            return result;
        }
        let mut i: usize = keep_count;
        while i < self.indices.len()
            invariant
                keep_count <= i <= self.view_seq().len(),
                result@ == self.view_seq().subrange(keep_count as int, i as int),
            decreases self.view_seq().len() - i,
        {
            result.push(self.indices[i]);
            proof {
                assert(result@ == self.view_seq().subrange(keep_count as int, i + 1));
            }
            i = i + 1;
        }
        proof {
            assert(result@ == self.view_seq().skip(keep_count as int));
        }
        result
    }

    /// Unregisters every chunk named in `chunks_to_remove`; chunks not
    /// registered are ignored.
    pub fn remove_chunks(&mut self, chunks_to_remove: &Vec<usize>)
        requires
            old(self).wf(),
        ensures
            final(self).wf(),
            forall|x: usize|
                #![trigger final(self).spec_contains(x)]
                #![trigger old(self).spec_contains(x)]
                final(self).spec_contains(x) <==> (old(self).spec_contains(x)
                    && !chunks_to_remove@.contains(x)),
    {
        let mut k: usize = 0;
        while k < chunks_to_remove.len()
            invariant
                k <= chunks_to_remove@.len(),
                self.wf(),
                forall|x: usize|
                    #![trigger self.spec_contains(x)]
                    #![trigger old(self).spec_contains(x)]
                    self.spec_contains(x) <==> (old(self).spec_contains(x)
                        && !chunks_to_remove@.take(k as int).contains(x)),
            decreases chunks_to_remove@.len() - k,
        {
            let ghost mprev = *self;
            self.remove_one(chunks_to_remove[k]);
            k = k + 1;
            proof {
                assert forall|x: usize|
                    #![trigger self.spec_contains(x)]
                    #![trigger old(self).spec_contains(x)]
                    self.spec_contains(x) <==> (old(self).spec_contains(x)
                        && !chunks_to_remove@.take(k as int).contains(x)) by {
                    assert(self.spec_contains(x) <==> (mprev.spec_contains(x) && x
                        != chunks_to_remove@[k - 1]));
                    if chunks_to_remove@.take(k as int).contains(x) {
                        let i = choose|i: int|
                            0 <= i < k && chunks_to_remove@.take(k as int)[i] == x;
                        if i < k - 1 {
                            assert(chunks_to_remove@.take(k - 1).contains(x)) by {
                                assert(chunks_to_remove@.take(k - 1)[i] == x);
                            }
                        }
                    }
                    let prev = chunks_to_remove@.take(k - 1);
                    if prev.contains(x) {
                        let i = choose|i: int| 0 <= i < prev.len() && prev[i] == x;
                        assert(chunks_to_remove@.take(k as int)[i] == x);
                    }
                    if x == chunks_to_remove@[k - 1] {
                        assert(chunks_to_remove@.take(k as int)[k - 1] == x);
                    }
                }
            }
        }
        proof {
            assert(chunks_to_remove@.take(k as int) == chunks_to_remove@);
        }
    }

    /// Unregisters one chunk, when registered.
    fn remove_one(&mut self, chunk_index: usize)
        requires
            old(self).wf(),
        ensures
            final(self).wf(),
            forall|x: usize|
                #![trigger final(self).spec_contains(x)]
                #![trigger old(self).spec_contains(x)]
                final(self).spec_contains(x) <==> (old(self).spec_contains(x) && x
                    != chunk_index),
    {
        let ghost s0 = self.view_seq();
        let mut i: usize = 0;
        while i < self.indices.len()
            invariant
                i <= self.view_seq().len(),
                forall|j: int| 0 <= j < i ==> self.view_seq()[j] != chunk_index,
                *self == *old(self),
                s0 == self.view_seq(),
                old(self).wf(),
            decreases self.view_seq().len() - i,
        {
            if self.indices[i] == chunk_index {
                self.indices.remove(i);
                self.count = self.indices.len();
                proof {
                    let s1 = self.view_seq();
                    assert(s1 == s0.remove(i as int));
                    assert forall|p: int, q: int| 0 <= p < q < s1.len() implies s1[p]
                        > s1[q] by {
                        let p0 = if p < i { p } else { p + 1 };
                        let q0 = if q < i { q } else { q + 1 };
                        assert(s1[p] == s0[p0] && s1[q] == s0[q0]);
                    }
                    assert forall|x: usize|
                        #![trigger self.spec_contains(x)]
                        #![trigger old(self).spec_contains(x)]
                        self.spec_contains(x) <==> (old(self).spec_contains(x) && x
                            != chunk_index) by {
                        if self.spec_contains(x) {
                            let p = choose|p: int| 0 <= p < s1.len() && s1[p] == x;
                            let p0 = if p < i { p } else { p + 1 };
                            assert(s0[p0] == x);
                            if x == chunk_index {
                                if p0 < i {
                                    assert(s0[p0] > s0[i as int]);
                                } else {
                                    assert(s0[i as int] > s0[p0]);
                                }
                            }
                        }
                        if old(self).spec_contains(x) && x != chunk_index {
                            let p = choose|p: int| 0 <= p < s0.len() && s0[p] == x;
                            let p1 = if p < i { p } else { p - 1 };
                            assert(s1[p1] == x);
                        }
                    }
                }
                return ;
            }
            i = i + 1;
        }
        proof {
            assert(!old(self).spec_contains(chunk_index));
        }
    }

    /// Clears the registry.
    pub fn clear(&mut self)
        ensures
            final(self).wf(),
            final(self).view_seq().len() == 0,
            forall|x: usize| !final(self).spec_contains(x),
    {
        self.indices.clear();
        self.count = 0;
    }
}

impl Clone for FreeChunkMaster {
    /// Clones the registry, contents and all.
    fn clone(&self) -> (r: FreeChunkMaster)
        ensures
            r.view_seq() == self.view_seq(),
            r.spec_count() == self.spec_count(),
    {
        FreeChunkMaster { indices: self.indices.clone(), count: self.count }
    }
}

} // verus!
