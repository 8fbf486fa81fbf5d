//! Chunks: fixed-capacity arrays of same-sized record slots, backed by
//! one arena grant, with a word-bitmap tracking which slots are
//! occupied. Records are raw bytes placed at computed offsets: slot
//! `i` occupies `stride` bytes starting at `i * stride`, of which the
//! first `component_size` hold the record.

use vstd::prelude::*;
use vstd::arithmetic::div_mod::{
    lemma_div_is_ordered,
    lemma_fundamental_div_mod,
    lemma_fundamental_div_mod_converse,
};
use vstd::arithmetic::mul::lemma_mul_inequality;
use crate::arena::Arena;
use crate::constants::{CACHE_LINE_SIZE, DEFAULT_COMPONENTS_PER_CHUNK, MIN_ALIGNMENT};
use crate::utils;

verus! {

/// A fixed-capacity array of record slots. `count` is the highest slot
/// ever used plus one; `active_count` the number of occupied slots;
/// `bitmap` holds one bit per slot, 1 meaning free, with the unused
/// trailing bits of the last word pinned to 0.
pub struct Chunk {
    base: usize,
    capacity: usize,
    component_size: usize,
    stride: usize,
    count: usize,
    active_count: usize,
    bitmap: Vec<u64>,
    data: Vec<u8>,
}

impl Chunk {
    /// Arena offset of the chunk's backing range.
    pub closed spec fn spec_base(self) -> int {
        self.base as int
    }

    /// Number of slots.
    pub closed spec fn spec_capacity(self) -> int {
        self.capacity as int
    }

    /// Bytes of one record.
    pub closed spec fn spec_component_size(self) -> int {
        self.component_size as int
    }

    /// Bytes from one slot to the next.
    pub closed spec fn spec_stride(self) -> int {
        self.stride as int
    }

    /// Highest slot ever used, plus one.
    pub closed spec fn spec_count(self) -> int {
        self.count as int
    }

    /// Number of occupied slots.
    pub closed spec fn spec_active(self) -> int {
        self.active_count as int
    }

    /// The occupancy bitmap words.
    pub closed spec fn spec_bitmap(self) -> Seq<u64> {
        self.bitmap@
    }

    /// The raw slot bytes.
    pub closed spec fn spec_data(self) -> Seq<u8> {
        self.data@
    }

    /// Whether the bitmap marks slot `i` free.
    pub open spec fn slot_free(self, i: int) -> bool {
        utils::bitmap_bit(self.spec_bitmap(), i)
    }

    /// Whether slot `i` holds a live record.
    pub open spec fn occupied(self, i: int) -> bool {
        !self.slot_free(i)
    }

    /// The record bytes of slot `i`.
    pub open spec fn record_at(self, i: int) -> Seq<u8> {
        self.spec_data().subrange(
            i * self.spec_stride(),
            i * self.spec_stride() + self.spec_component_size(),
        )
    }

    /// The number of occupied slots below `n`.
    pub open spec fn rank(self, n: int) -> int
        decreases n,
    {
        if n <= 0 {
            0
        } else {
            self.rank(n - 1) + if self.occupied(n - 1) {
                1int
            } else {
                0int
            }
        }
    }

    /// Structural invariant. In particular the occupancy counts are
    /// consistent — `active_count <= count <= capacity`, with
    /// `active_count` the exact number of occupied slots — every slot
    /// at or past `count` is free, and the bitmap bits past `capacity`
    /// are pinned to 0.
    pub open spec fn wf(self) -> bool {
        &&& self.spec_component_size() >= 1
        &&& self.spec_component_size() <= self.spec_stride()
        &&& self.spec_capacity() >= 1
        &&& self.spec_capacity() + 127 <= usize::MAX
        &&& self.spec_data().len() == self.spec_stride() * self.spec_capacity()
        &&& self.spec_bitmap().len() == (self.spec_capacity() + 63) / 64
        &&& self.spec_active() == self.rank(self.spec_capacity())
        &&& self.spec_active() <= self.spec_count() <= self.spec_capacity()
        &&& forall|i: int| self.spec_count() <= i < self.spec_capacity() ==> self.slot_free(i)
        &&& forall|i: int|
            self.spec_capacity() <= i < self.spec_bitmap().len() * 64 ==> !self.slot_free(i)
    }

    /// Creates a chunk of `capacity` slots for records of
    /// `component_size` bytes at alignment `component_align`, carved
    /// from the arena as one grant of `stride * capacity` bytes
    /// rounded up to the cache line; every slot starts free and
    /// zeroed. Fails exactly when the arena cannot serve that grant.
    /// Records are at least one byte: a tag-only record type stores
    /// one placeholder byte.
    pub fn new(
        arena: &mut Arena,
        capacity: usize,
        component_size: usize,
        component_align: usize,
    ) -> (r: Option<Chunk>)
        requires
            old(arena).wf(),
            capacity >= 1,
            component_size >= 1,
            utils::is_pow2(component_align as nat),
            (component_size + component_align) * capacity + CACHE_LINE_SIZE + component_align
                + MIN_ALIGNMENT <= usize::MAX,
        ensures
            final(arena).wf(),
            final(arena).spec_capacity() == old(arena).spec_capacity(),
            r is None <==> !old(arena).can_fit(
                utils::spec_align_up(
                    utils::spec_align_up(component_size as int, component_align as int)
                        * capacity,
                    CACHE_LINE_SIZE as int,
                ),
                component_align as int,
            ),
            r is None ==> *final(arena) == *old(arena),
            match r {
                Some(c) => {
                    &&& c.wf()
                    &&& c.spec_capacity() == capacity
                    &&& c.spec_component_size() == component_size
                    &&& c.spec_stride() == utils::spec_align_up(
                        component_size as int,
                        component_align as int,
                    )
                    &&& c.spec_count() == 0
                    &&& c.spec_active() == 0
                    &&& c.spec_base() % component_align as int == 0
                    &&& 0 <= c.spec_base()
                    &&& c.spec_base() + utils::spec_align_up(
                        c.spec_stride() * capacity,
                        CACHE_LINE_SIZE as int,
                    ) <= old(arena).spec_capacity()
                    &&& forall|a: int|
                        c.spec_base() <= a < c.spec_base() + utils::spec_align_up(
                            c.spec_stride() * capacity,
                            CACHE_LINE_SIZE as int,
                        ) ==> old(arena).is_free(a) && !final(arena).is_free(a)
                    &&& forall|i: int| 0 <= i < capacity ==> !c.occupied(i)
                    &&& forall|i: int|
                        0 <= i < capacity ==> c.record_at(i) == Seq::new(
                            component_size as nat,
                            |k: int| 0u8,
                        )
                    &&& forall|a: int| final(arena).is_free(a) ==> old(arena).is_free(a)
                },
                None => true,
            },
    {
        proof {
            assert((component_size + component_align) <= (component_size + component_align)
                * capacity && 2 * capacity <= (component_size + component_align) * capacity)
                by (nonlinear_arith)
                requires
                    capacity >= 1,
                    component_size >= 1,
                    component_align >= 1,
            ;
        }
        let stride = utils::align_up(component_size, component_align);
        proof {
            assert(stride * capacity <= (component_size + component_align) * capacity
                && stride * capacity >= 1) by (nonlinear_arith)
                requires
                    1 <= stride <= component_size + component_align,
                    capacity >= 1,
            ;
        }
        let bytes = stride * capacity;
        let rounded = utils::align_up(bytes, CACHE_LINE_SIZE);
        let block = match arena.allocate(rounded, component_align) {
            Some(b) => b,
            None => {
                return None;
            },
        };
        let data = zeroed_bytes(bytes);
        let bitmap = make_free_bitmap(capacity);
        let chunk = Chunk {
            base: block.start,
            capacity,
            component_size,
            stride,
            count: 0,
            active_count: 0,
            bitmap,
            data,
        };
        proof {
            lemma_rank_when_all_free(chunk, capacity as int);
            assert forall|i: int| 0 <= i < capacity implies !chunk.occupied(i) by {}
            assert forall|a: int|
                chunk.spec_base() <= a < chunk.spec_base() + utils::spec_align_up(
                    chunk.spec_stride() * capacity,
                    CACHE_LINE_SIZE as int,
                ) implies old(arena).is_free(a) && !arena.is_free(a) by {
                assert(block.covers(a));
            }
            assert forall|i: int| 0 <= i < capacity implies chunk.record_at(i) == Seq::new(
                component_size as nat,
                |k: int| 0u8,
            ) by {
                lemma_slot_offset_bound(i, capacity as int, stride as int);
                assert(chunk.record_at(i) =~= Seq::new(component_size as nat, |k: int| 0u8));
            }
        }
        Some(chunk)
    }

    /// Creates a chunk with the default number of slots.
    pub fn with_default_capacity(
        arena: &mut Arena,
        component_size: usize,
        component_align: usize,
    ) -> (r: Option<Chunk>)
        requires
            old(arena).wf(),
            component_size >= 1,
            utils::is_pow2(component_align as nat),
            (component_size + component_align) * DEFAULT_COMPONENTS_PER_CHUNK + CACHE_LINE_SIZE
                + component_align + MIN_ALIGNMENT <= usize::MAX,
        ensures
            final(arena).wf(),
            final(arena).spec_capacity() == old(arena).spec_capacity(),
            r is None <==> !old(arena).can_fit(
                utils::spec_align_up(
                    utils::spec_align_up(component_size as int, component_align as int)
                        * DEFAULT_COMPONENTS_PER_CHUNK,
                    CACHE_LINE_SIZE as int,
                ),
                component_align as int,
            ),
            r is None ==> *final(arena) == *old(arena),
            match r {
                Some(c) => {
                    &&& c.wf()
                    &&& c.spec_capacity() == DEFAULT_COMPONENTS_PER_CHUNK
                    &&& c.spec_component_size() == component_size
                    &&& c.spec_count() == 0
                    &&& c.spec_active() == 0
                    &&& forall|i: int|
                        0 <= i < DEFAULT_COMPONENTS_PER_CHUNK ==> !c.occupied(i)
                },
                None => true,
            },
    {
        Chunk::new(arena, DEFAULT_COMPONENTS_PER_CHUNK, component_size, component_align)
    }

    /// Finds the lowest free slot, scanning word by word and skipping
    /// words with no free bit.
    fn first_free_slot(&self) -> (r: Option<usize>)
        requires
            self.wf(),
        ensures
            match r {
                Some(i) => {
                    &&& i < self.spec_capacity()
                    &&& self.slot_free(i as int)
                    &&& forall|j: int| 0 <= j < i ==> self.occupied(j)
                },
                None => forall|j: int| 0 <= j < self.spec_capacity() ==> self.occupied(j),
            },
    {
        proof {
            lemma_words_cover_capacity(self.spec_capacity());
        }
        let words = self.bitmap.len();
        let mut w: usize = 0;
        while w < words
            invariant
                self.wf(),
                w <= words,
                words == self.spec_bitmap().len(),
                words * 64 <= self.spec_capacity() + 63,
                forall|j: int| 0 <= j < w * 64 ==> !self.slot_free(j),
            decreases words - w,
        {
            let word = self.bitmap[w];
            if word != 0 {
                let mut b: usize = 0;
                while b < 64
                    invariant
                        self.wf(),
                        b <= 64,
                        w < words,
                        words == self.spec_bitmap().len(),
                        words * 64 <= self.spec_capacity() + 63,
                        forall|j: int| 0 <= j < w * 64 + b ==> !self.slot_free(j),
                    decreases 64 - b,
                {
                    let idx = w * 64 + b;
                    if idx < self.capacity {
                        proof {
                            lemma_slot_word(idx as int, self.spec_capacity());
                        }
                        if utils::bitmap_test(&self.bitmap, idx) {
                            return Some(idx);
                        }
                    } else {
                        proof {
                            // Bits at or past the capacity are pinned to 0.
                            assert(!self.slot_free(idx as int));
                        }
                    }
                    b = b + 1;
                }
            } else {
                proof {
                    assert forall|j: int| w * 64 <= j < w * 64 + 64 implies !self.slot_free(
                        j,
                    ) by {
                        lemma_bit_in_word(j, w as int);
                        let bg = (j % 64) as u64;
                        assert(!utils::bit_of(0u64, bg)) by (bit_vector)
                            requires
                                bg < 64,
                        ;
                    }
                }
            }
            w = w + 1;
        }
        proof {
            assert forall|j: int| 0 <= j < self.spec_capacity() implies self.occupied(j) by {
                assert(j < words * 64) by {
                    lemma_words_cover_capacity(self.spec_capacity());
                }
            }
        }
        None
    }

    /// Overwrites the record bytes of slot `i`, touching nothing else.
    fn fill_record(&mut self, i: usize, bytes: &Vec<u8>)
        requires
            old(self).wf(),
            i < old(self).spec_capacity(),
            bytes@.len() == old(self).spec_component_size(),
        ensures
            final(self).wf(),
            final(self).spec_base() == old(self).spec_base(),
            final(self).spec_capacity() == old(self).spec_capacity(),
            final(self).spec_component_size() == old(self).spec_component_size(),
            final(self).spec_stride() == old(self).spec_stride(),
            final(self).spec_count() == old(self).spec_count(),
            final(self).spec_active() == old(self).spec_active(),
            final(self).spec_bitmap() == old(self).spec_bitmap(),
            final(self).record_at(i as int) == bytes@,
            forall|j: int|
                #![trigger final(self).record_at(j)]
                #![trigger old(self).record_at(j)]
                0 <= j < old(self).spec_capacity() && j != i ==> final(self).record_at(j)
                    == old(self).record_at(j),
    {
        proof {
            lemma_slot_offset_bound(i as int, old(self).spec_capacity(), old(self).spec_stride());
        }
        let data_len = self.data.len();
        let off = i * self.stride;
        let len = bytes.len();
        let mut j: usize = 0;
        while j < len
            invariant
                j <= len,
                off == i * old(self).spec_stride(),
                off + len <= old(self).spec_data().len(),
                off + len <= usize::MAX,
                len == old(self).spec_component_size(),
                bytes@.len() == len,
                i < old(self).spec_capacity(),
                old(self).wf(),
                self.base == old(self).base,
                self.capacity == old(self).capacity,
                self.component_size == old(self).component_size,
                self.stride == old(self).stride,
                self.count == old(self).count,
                self.active_count == old(self).active_count,
                self.bitmap == old(self).bitmap,
                self.spec_data().len() == old(self).spec_data().len(),
                forall|k: int|
                    0 <= k < old(self).spec_data().len() && !(off <= k < off + j)
                        ==> self.spec_data()[k] == old(self).spec_data()[k],
                forall|k: int| 0 <= k < j ==> self.spec_data()[off + k] == bytes@[k],
            decreases len - j,
        {
            self.data[off + j] = bytes[j];
            j = j + 1;
        }
        proof {
            let c0 = *old(self);
            let c1 = *self;
            assert forall|j: int| #![trigger c1.slot_free(j)] c1.slot_free(j) <==> c0.slot_free(
                j,
            ) by {
                assert(c1.spec_bitmap() == c0.spec_bitmap());
            }
            assert(c1.record_at(i as int) == bytes@) by {
                assert forall|k: int| 0 <= k < len implies c1.record_at(i as int)[k]
                    == bytes@[k] by {
                    assert(c1.spec_data()[off + k] == bytes@[k]);
                }
                assert(c1.record_at(i as int) =~= bytes@);
            }
            lemma_records_preserved(c0, c1, i as int);
            lemma_rank_delta(c0, c1, -1, c0.spec_capacity());
        }
    }

    /// Whether slot `index` holds a live record; out-of-range indices
    /// read as unoccupied.
    pub fn is_occupied(&self, index: usize) -> (r: bool)
        requires
            self.wf(),
        ensures
            r == (index < self.spec_capacity() && self.occupied(index as int)),
    {
        if index >= self.capacity {
            return false;
        }
        proof {
            lemma_slot_word(index as int, self.spec_capacity());
        }
        !utils::bitmap_test(&self.bitmap, index)
    }

    /// Claims a slot: the lowest free one, which reuses freed slots
    /// below the high-water mark before growing it. Fails exactly when
    /// every slot is occupied.
    pub fn allocate_slot(&mut self) -> (r: Option<usize>)
        requires
            old(self).wf(),
        ensures
            final(self).wf(),
            final(self).spec_base() == old(self).spec_base(),
            final(self).spec_capacity() == old(self).spec_capacity(),
            final(self).spec_component_size() == old(self).spec_component_size(),
            final(self).spec_stride() == old(self).spec_stride(),
            forall|j: int|
                #![trigger final(self).record_at(j)]
                #![trigger old(self).record_at(j)]
                0 <= j < old(self).spec_capacity() ==> final(self).record_at(j) == old(self).record_at(j),
            r is None <==> old(self).spec_active() == old(self).spec_capacity(),
            r is None ==> *final(self) == *old(self),
            match r {
                Some(i) => {
                    &&& i < old(self).spec_capacity()
                    &&& !old(self).occupied(i as int)
                    &&& forall|j: int| 0 <= j < i ==> old(self).occupied(j)
                    &&& final(self).occupied(i as int)
                    &&& forall|j: int|
                        #![trigger final(self).occupied(j)]
                        #![trigger old(self).occupied(j)]
                        0 <= j < old(self).spec_capacity() && j != i ==> (final(self).occupied(
                            j,
                        ) <==> old(self).occupied(j))
                    &&& final(self).spec_active() == old(self).spec_active() + 1
                    &&& final(self).spec_count() == if i + 1 > old(self).spec_count() {
                        i + 1
                    } else {
                        old(self).spec_count()
                    }
                },
                None => true,
            },
    {
        let index = match self.first_free_slot() {
            Some(i) => i,
            None => {
                proof {
                    lemma_rank_when_all_occupied(*self, self.spec_capacity());
                }
                return None;
            },
        };
        proof {
            lemma_rank_of_free_slot(*self, index as int, self.spec_capacity());
            lemma_slot_word(index as int, self.spec_capacity());
            lemma_words_cover_capacity(self.spec_capacity());
        }
        let ghost c0 = *self;
        utils::bitmap_clear(&mut self.bitmap, index);
        self.active_count = self.active_count + 1;
        if index + 1 > self.count {
            self.count = index + 1;
        }
        proof {
            let c1 = *self;
            lemma_records_identical(c0, c1);
            assert forall|j: int|
                0 <= j < c0.spec_bitmap().len() * 64 && j != index implies (c1.slot_free(j)
                <==> c0.slot_free(j)) by {}
            lemma_rank_delta(c0, c1, index as int, c0.spec_capacity());
            assert forall|j: int|
                c1.spec_count() <= j < c1.spec_capacity() implies c1.slot_free(j) by {
                assert(c0.slot_free(j));
            }
            assert forall|j: int|
                c1.spec_capacity() <= j < c1.spec_bitmap().len() * 64 implies !c1.slot_free(
                j,
            ) by {
                assert(!c0.slot_free(j));
            }
            // The new occupancy count still fits under the high-water mark.
            lemma_rank_free_above(c0, c0.spec_count(), c0.spec_capacity());
            if (index as int) < c0.spec_count() {
                lemma_rank_of_free_slot(c0, index as int, c0.spec_count());
            } else {
                lemma_rank_when_all_occupied(c0, index as int);
            }
        }
        Some(index)
    }

    /// Releases slot `index`: marks it free and zeroes its bytes. A
    /// no-op returning false when the slot is out of range or already
    /// free.
    pub fn free_slot(&mut self, index: usize) -> (r: bool)
        requires
            old(self).wf(),
        ensures
            final(self).wf(),
            final(self).spec_base() == old(self).spec_base(),
            final(self).spec_capacity() == old(self).spec_capacity(),
            final(self).spec_component_size() == old(self).spec_component_size(),
            final(self).spec_stride() == old(self).spec_stride(),
            final(self).spec_count() == old(self).spec_count(),
            r == (index < old(self).spec_capacity() && old(self).occupied(index as int)),
            !r ==> *final(self) == *old(self),
            r ==> !final(self).occupied(index as int),
            r ==> forall|j: int|
                #![trigger final(self).occupied(j)]
                #![trigger old(self).occupied(j)]
                0 <= j < old(self).spec_capacity() && j != index ==> (final(self).occupied(j)
                    <==> old(self).occupied(j)),
            r ==> final(self).spec_active() == old(self).spec_active() - 1,
            r ==> final(self).record_at(index as int) == Seq::new(
                old(self).spec_component_size() as nat,
                |k: int| 0u8,
            ),
            r ==> forall|j: int|
                #![trigger final(self).record_at(j)]
                #![trigger old(self).record_at(j)]
                0 <= j < old(self).spec_capacity() && j != index ==> final(self).record_at(j)
                    == old(self).record_at(j),
    {
        if index >= self.capacity {
            return false;
        }
        proof {
            lemma_slot_word(index as int, self.spec_capacity());
            lemma_words_cover_capacity(self.spec_capacity());
        }
        if utils::bitmap_test(&self.bitmap, index) {
            return false;
        }
        // The slot is live: zero its bytes, then mark it free.
        let zeros = zeroed_bytes(self.component_size);
        self.fill_record(index, &zeros);
        proof {
            assert(zeros@ =~= Seq::new(old(self).spec_component_size() as nat, |k: int| 0u8));
            lemma_rank_bounds(*self, index + 1, self.spec_capacity());
            lemma_rank_nonneg(*self, index as int);
        }
        let ghost cm = *self;
        utils::bitmap_set(&mut self.bitmap, index);
        self.active_count = self.active_count - 1;
        proof {
            let c1 = *self;
            lemma_records_identical(cm, c1);
            assert forall|j: int|
                0 <= j < cm.spec_bitmap().len() * 64 && j != index implies (c1.slot_free(j)
                <==> cm.slot_free(j)) by {}
            lemma_rank_delta(cm, c1, index as int, cm.spec_capacity());
            assert forall|j: int|
                c1.spec_count() <= j < c1.spec_capacity() implies c1.slot_free(j) by {
                if j != index {
                    assert(cm.slot_free(j));
                }
            }
            assert forall|j: int|
                c1.spec_capacity() <= j < c1.spec_bitmap().len() * 64 implies !c1.slot_free(
                j,
            ) by {
                assert(!cm.slot_free(j));
            }
        }
        true
    }

    /// Writes a record into slot `index`, claiming the slot first when
    /// it was free and pushing the high-water mark past it. Rejects an
    /// out-of-range index.
    pub fn raw_set(&mut self, index: usize, bytes: &Vec<u8>) -> (r: bool)
        requires
            old(self).wf(),
            bytes@.len() == old(self).spec_component_size(),
        ensures
            final(self).wf(),
            final(self).spec_base() == old(self).spec_base(),
            final(self).spec_capacity() == old(self).spec_capacity(),
            final(self).spec_component_size() == old(self).spec_component_size(),
            final(self).spec_stride() == old(self).spec_stride(),
            r == (index < old(self).spec_capacity()),
            !r ==> *final(self) == *old(self),
            r ==> {
                &&& final(self).record_at(index as int) == bytes@
                &&& final(self).occupied(index as int)
                &&& forall|j: int|
                    #![trigger final(self).record_at(j)]
                    #![trigger old(self).record_at(j)]
                    0 <= j < old(self).spec_capacity() && j != index ==> final(self).record_at(j) == old(self).record_at(j)
                &&& forall|j: int|
                    #![trigger final(self).occupied(j)]
                    #![trigger old(self).occupied(j)]
                    0 <= j < old(self).spec_capacity() && j != index ==> (final(self).occupied(j) <==> old(self).occupied(j))
                &&& final(self).spec_active() == old(self).spec_active() + (
                if old(self).occupied(index as int) {
                    0int
                } else {
                    1int
                })
                &&& final(self).spec_count() == if index + 1 > old(self).spec_count() {
                    index + 1
                } else {
                    old(self).spec_count()
                }
            },
    {
        if index >= self.capacity {
            return false;
        }
        proof {
            lemma_slot_word(index as int, self.spec_capacity());
            lemma_words_cover_capacity(self.spec_capacity());
        }
        let was_occupied = !utils::bitmap_test(&self.bitmap, index);
        self.fill_record(index, bytes);
        if !was_occupied {
            proof {
                lemma_rank_of_free_slot(*self, index as int, self.spec_capacity());
            }
            let ghost cm = *self;
            utils::bitmap_clear(&mut self.bitmap, index);
            self.active_count = self.active_count + 1;
            if index + 1 > self.count {
                self.count = index + 1;
            }
            proof {
                let c1 = *self;
                lemma_records_identical(cm, c1);
                assert forall|j: int|
                    0 <= j < cm.spec_bitmap().len() * 64 && j != index implies (c1.slot_free(
                    j,
                ) <==> cm.slot_free(j)) by {}
                lemma_rank_delta(cm, c1, index as int, cm.spec_capacity());
                assert forall|j: int|
                    c1.spec_count() <= j < c1.spec_capacity() implies c1.slot_free(j) by {
                    assert(cm.slot_free(j));
                }
                assert forall|j: int|
                    c1.spec_capacity() <= j < c1.spec_bitmap().len() * 64 implies !c1.slot_free(
                    j,
                ) by {
                    assert(!cm.slot_free(j));
                }
                // The new occupancy count still fits under the high-water mark.
                lemma_rank_free_above(cm, cm.spec_count(), cm.spec_capacity());
                if (index as int) < cm.spec_count() {
                    lemma_rank_of_free_slot(cm, index as int, cm.spec_count());
                } else {
                    lemma_rank_nonneg(cm, cm.spec_count());
                }
            }
        } else {
            proof {
                // A live slot lies below the high-water mark already.
                if index >= self.spec_count() {
                    assert(self.slot_free(index as int));
                }
            }
        }
        true
    }

    /// Reads a copy of the record bytes of slot `index`; nothing comes
    /// back for an out-of-range or free slot.
    pub fn raw_get(&self, index: usize) -> (r: Option<Vec<u8>>)
        requires
            self.wf(),
        ensures
            match r {
                Some(v) => {
                    &&& index < self.spec_capacity()
                    &&& self.occupied(index as int)
                    &&& v@ == self.record_at(index as int)
                    &&& v@.len() == self.spec_component_size()
                },
                None => !(index < self.spec_capacity() && self.occupied(index as int)),
            },
    {
        if !self.is_occupied(index) {
            return None;
        }
        proof {
            lemma_slot_offset_bound(index as int, self.spec_capacity(), self.spec_stride());
        }
        let data_len = self.data.len();
        let off = index * self.stride;
        let len = self.component_size;
        let mut out: Vec<u8> = Vec::new();
        let mut j: usize = 0;
        while j < len
            invariant
                j <= len,
                out@.len() == j,
                off == index as int * self.spec_stride(),
                off + len <= self.spec_data().len(),
                off + len <= usize::MAX,
                len == self.spec_component_size(),
                forall|k: int| 0 <= k < j ==> out@[k] == self.spec_data()[off + k],
            decreases len - j,
        {
            out.push(self.data[off + j]);
            j = j + 1;
        }
        proof {
            assert(out@ =~= self.record_at(index as int));
        }
        Some(out)
    }

    /// Stores a record in the lowest free slot and returns that slot.
    /// Fails exactly when every slot is occupied.
    pub fn raw_add(&mut self, bytes: &Vec<u8>) -> (r: Option<usize>)
        requires
            old(self).wf(),
            bytes@.len() == old(self).spec_component_size(),
        ensures
            final(self).wf(),
            final(self).spec_base() == old(self).spec_base(),
            final(self).spec_capacity() == old(self).spec_capacity(),
            final(self).spec_component_size() == old(self).spec_component_size(),
            final(self).spec_stride() == old(self).spec_stride(),
            r is None <==> old(self).spec_active() == old(self).spec_capacity(),
            r is None ==> *final(self) == *old(self),
            match r {
                Some(i) => {
                    &&& i < old(self).spec_capacity()
                    &&& !old(self).occupied(i as int)
                    &&& forall|j: int| 0 <= j < i ==> old(self).occupied(j)
                    &&& final(self).occupied(i as int)
                    &&& final(self).record_at(i as int) == bytes@
                    &&& forall|j: int|
                        #![trigger final(self).occupied(j)]
                        #![trigger old(self).occupied(j)]
                        0 <= j < old(self).spec_capacity() && j != i ==> (final(self).occupied(
                            j,
                        ) <==> old(self).occupied(j))
                    &&& forall|j: int|
                        #![trigger final(self).record_at(j)]
                        #![trigger old(self).record_at(j)]
                        0 <= j < old(self).spec_capacity() && j != i ==> final(self).record_at(
                            j,
                        ) == old(self).record_at(j)
                    &&& final(self).spec_active() == old(self).spec_active() + 1
                    &&& final(self).spec_count() == if i + 1 > old(self).spec_count() {
                        i + 1
                    } else {
                        old(self).spec_count()
                    }
                },
                None => true,
            },
    {
        let index = match self.allocate_slot() {
            Some(i) => i,
            None => {
                return None;
            },
        };
        let ghost cm = *self;
        self.fill_record(index, bytes);
        proof {
            assert(self.spec_active() == cm.spec_active());
            lemma_rank_delta(cm, *self, -1, cm.spec_capacity());
        }
        Some(index)
    }

    /// Resets the chunk: every slot becomes free; the record bytes are
    /// left as they are, the arena grant stays with the chunk.
    pub fn clear(&mut self)
        requires
            old(self).wf(),
        ensures
            final(self).wf(),
            final(self).spec_base() == old(self).spec_base(),
            final(self).spec_capacity() == old(self).spec_capacity(),
            final(self).spec_component_size() == old(self).spec_component_size(),
            final(self).spec_stride() == old(self).spec_stride(),
            final(self).spec_count() == 0,
            final(self).spec_active() == 0,
            forall|i: int| 0 <= i < old(self).spec_capacity() ==> !final(self).occupied(i),
            forall|i: int|
                #![trigger final(self).record_at(i)]
                #![trigger old(self).record_at(i)]
                final(self).record_at(i) == old(self).record_at(i),
    {
        self.bitmap = make_free_bitmap(self.capacity);
        self.count = 0;
        self.active_count = 0;
        proof {
            lemma_rank_when_all_free(*self, self.spec_capacity());
            lemma_records_identical(*old(self), *self);
        }
    }

    /// Relocates every live record toward the front, eliminating the
    /// interior gaps: after the call the occupied slots are exactly
    /// `[0, active_count)`, each record moved from its old slot to its
    /// rank — the number of occupied slots below it — and the returned
    /// list holds one `(old_slot, new_slot)` pair for every record
    /// whose slot changed, and none for the records that stayed put.
    pub fn compact(&mut self) -> (moves: Vec<(usize, usize)>)
        requires
            old(self).wf(),
        ensures
            final(self).wf(),
            final(self).spec_base() == old(self).spec_base(),
            final(self).spec_capacity() == old(self).spec_capacity(),
            final(self).spec_component_size() == old(self).spec_component_size(),
            final(self).spec_stride() == old(self).spec_stride(),
            final(self).spec_active() == old(self).spec_active(),
            final(self).spec_count() == old(self).spec_active(),
            forall|j: int| 0 <= j < old(self).spec_active() ==> final(self).occupied(j),
            forall|j: int|
                old(self).spec_active() <= j < old(self).spec_capacity() ==> !final(self).occupied(j),
            forall|j: int|
                #![trigger old(self).occupied(j)]
                0 <= j < old(self).spec_capacity() && old(self).occupied(j) ==> final(self).record_at(old(self).rank(j)) == old(self).record_at(j),
            forall|m: int|
                0 <= m < moves@.len() ==> {
                    &&& (moves@[m].0 as int) < old(self).spec_capacity()
                    &&& old(self).occupied(moves@[m].0 as int)
                    &&& (moves@[m].1 as int) == old(self).rank(moves@[m].0 as int)
                    &&& moves@[m].1 != moves@[m].0
                },
            forall|j: int|
                #![trigger old(self).rank(j)]
                0 <= j < old(self).spec_capacity() && old(self).occupied(j) && old(self).rank(j)
                    != j ==> moves@.contains(((j as usize), (old(self).rank(j) as usize))),
    {
        let cap_count = self.count;
        let mut moves: Vec<(usize, usize)> = Vec::new();
        let mut w: usize = 0;
        let mut i: usize = 0;
        // Phase one: slide each live record down to its rank. Targets
        // grow strictly, so no unprocessed record is overwritten.
        while i < cap_count
            invariant
                self.wf(),
                old(self).wf(),
                cap_count == old(self).spec_count(),
                i <= cap_count,
                w == old(self).rank(i as int),
                w <= i,
                self.spec_base() == old(self).spec_base(),
                self.spec_capacity() == old(self).spec_capacity(),
                self.spec_component_size() == old(self).spec_component_size(),
                self.spec_stride() == old(self).spec_stride(),
                self.spec_count() == old(self).spec_count(),
                self.spec_active() == old(self).spec_active(),
                self.spec_bitmap() == old(self).spec_bitmap(),
                forall|j: int|
                    #![trigger old(self).occupied(j)]
                    0 <= j < i && old(self).occupied(j) ==> self.record_at(old(self).rank(j))
                        == old(self).record_at(j),
                forall|j: int|
                    #![trigger self.record_at(j)]
                    i <= j < old(self).spec_capacity() ==> self.record_at(j) == old(self).record_at(j),
                forall|m: int|
                    0 <= m < moves@.len() ==> {
                        &&& (moves@[m].0 as int) < i
                        &&& old(self).occupied(moves@[m].0 as int)
                        &&& (moves@[m].1 as int) == old(self).rank(moves@[m].0 as int)
                        &&& moves@[m].1 != moves@[m].0
                    },
                forall|j: int|
                    #![trigger old(self).rank(j)]
                    0 <= j < i && old(self).occupied(j) && old(self).rank(j) != j
                        ==> moves@.contains(((j as usize), (old(self).rank(j) as usize))),
            decreases cap_count - i,
        {
            proof {
                lemma_slot_word(i as int, self.spec_capacity());
            }
            let slot_occupied = !utils::bitmap_test(&self.bitmap, i);
            if slot_occupied {
                if i != w {
                    let bytes = self.raw_get(i).unwrap();
                    proof {
                        lemma_slot_offset_bound(
                            i as int,
                            self.spec_capacity(),
                            self.spec_stride(),
                        );
                        assert(bytes@.len() == self.spec_component_size());
                    }
                    let ghost cprev = *self;
                    self.fill_record(w, &bytes);
                    proof {
                        assert forall|j: int|
                            0 <= j < i && old(self).occupied(j) implies self.record_at(
                            old(self).rank(j),
                        ) == old(self).record_at(j) by {
                            lemma_rank_strictly_increasing(*old(self), j, i as int);
                        }
                        assert forall|j: int|
                            i + 1 <= j < old(self).spec_capacity() implies self.record_at(j)
                            == old(self).record_at(j) by {
                            assert(cprev.record_at(j) == old(self).record_at(j));
                        }
                    }
                    let ghost moves_before = moves@;
                    moves.push((i, w));
                    proof {
                        assert forall|j: int|
                            0 <= j < i + 1 && old(self).occupied(j) && old(self).rank(j) != j
                                implies moves@.contains(
                            ((j as usize), (old(self).rank(j) as usize)),
                        ) by {
                            if j < i {
                                let e = ((j as usize), (old(self).rank(j) as usize));
                                let m = choose|m: int|
                                    0 <= m < moves_before.len() && moves_before[m] == e;
                                assert(moves@[m] == e);
                            } else {
                                assert(moves@[moves@.len() - 1] == (
                                    (i as usize),
                                    (w as usize),
                                ));
                            }
                        }
                    }
                } else {
                    proof {
                        assert(self.record_at(old(self).rank(i as int)) == old(self).record_at(i as int));
                    }
                }
                w = w + 1;
            }
            i = i + 1;
        }
        proof {
            // Every live record has been processed: the rank at the
            // high-water mark is the rank of the whole chunk.
            lemma_rank_free_above(
                *old(self),
                old(self).spec_count(),
                old(self).spec_capacity(),
            );
            assert forall|j: int|
                0 <= j < old(self).spec_capacity() && old(self).occupied(j) implies self
                .record_at(old(self).rank(j)) == old(self).record_at(j) by {
                if j >= cap_count {
                    assert(old(self).slot_free(j));
                }
            }
        }
        let ghost cmid = *self;
        // Phase two: rebuild the occupancy — the first `w` slots are
        // occupied, everything else free — and drop the high-water
        // mark to `w`.
        self.bitmap = make_free_bitmap(self.capacity);
        let mut k: usize = 0;
        while k < w
            invariant
                k <= w,
                w <= self.spec_capacity(),
                cmid.wf(),
                w == old(self).spec_active(),
                self.spec_base() == cmid.spec_base(),
                self.spec_capacity() == cmid.spec_capacity(),
                self.spec_component_size() == cmid.spec_component_size(),
                self.spec_stride() == cmid.spec_stride(),
                self.spec_data() == cmid.spec_data(),
                self.spec_count() == cmid.spec_count(),
                self.spec_active() == cmid.spec_active(),
                self.spec_bitmap().len() == (self.spec_capacity() + 63) / 64,
                forall|j: int| 0 <= j < k ==> !self.slot_free(j),
                forall|j: int|
                    k <= j < self.spec_bitmap().len() * 64 ==> (self.slot_free(j) <==> j
                        < self.spec_capacity()),
            decreases w - k,
        {
            proof {
                lemma_slot_word(k as int, self.spec_capacity());
                lemma_words_cover_capacity(self.spec_capacity());
            }
            let ghost cb = *self;
            utils::bitmap_clear(&mut self.bitmap, k);
            k = k + 1;
            proof {
                assert forall|j: int| 0 <= j < k implies !self.slot_free(j) by {
                    if j < k - 1 {
                        assert(!cb.slot_free(j));
                    }
                }
                assert forall|j: int|
                    k <= j < self.spec_bitmap().len() * 64 implies (self.slot_free(j) <==> j
                        < self.spec_capacity()) by {
                    assert(cb.slot_free(j) <==> j < self.spec_capacity());
                }
            }
        }
        let ghost cexit = *self;
        self.count = w;
        self.active_count = w;
        proof {
            let c1 = *self;
            assert forall|j: int| #![trigger c1.slot_free(j)] c1.slot_free(j)
                <==> cexit.slot_free(j) by {
                assert(c1.spec_bitmap() == cexit.spec_bitmap());
            }
            lemma_records_identical(cmid, c1);
            lemma_rank_when_all_occupied(c1, w as int);
            lemma_rank_free_above(c1, w as int, c1.spec_capacity());
            lemma_words_cover_capacity(c1.spec_capacity());
        }
        moves
    }

    /// Visits a contiguous sub-range of slots, skipping the free
    /// ones: returns the occupied slot indices of `[from, to)`, in
    /// increasing order and complete. A lane-batched walk of a fully
    /// occupied range is a performance path with this same meaning;
    /// the library keeps the scalar form.
    pub fn occupied_slots_in(&self, from: usize, to: usize) -> (r: Vec<usize>)
        requires
            self.wf(),
            from <= to,
            to <= self.spec_capacity(),
        ensures
            forall|p: int|
                #![trigger r@[p]]
                0 <= p < r@.len() ==> from <= r@[p] < to && self.occupied(r@[p] as int),
            forall|p: int, q: int| 0 <= p < q < r@.len() ==> r@[p] < r@[q],
            forall|t: int|
                #![trigger self.occupied(t)]
                from <= t < to && self.occupied(t) ==> r@.contains(t as usize),
    {
        let mut out: Vec<usize> = Vec::new();
        let mut i = from;
        while i < to
            invariant
                self.wf(),
                from <= i <= to,
                to <= self.spec_capacity(),
                forall|p: int|
                    #![trigger out@[p]]
                    0 <= p < out@.len() ==> from <= out@[p] < i && self.occupied(
                        out@[p] as int,
                    ),
                forall|p: int, q: int| 0 <= p < q < out@.len() ==> out@[p] < out@[q],
                forall|t: int|
                    #![trigger self.occupied(t)]
                    from <= t < i && self.occupied(t) ==> out@.contains(t as usize),
            decreases to - i,
        {
            proof {
                lemma_slot_word(i as int, self.spec_capacity());
            }
            if !utils::bitmap_test(&self.bitmap, i) {
                let ghost prev = out@;
                out.push(i);
                proof {
                    assert forall|t: int|
                        from <= t < i + 1 && self.occupied(t) implies out@.contains(
                        t as usize,
                    ) by {
                        if t < i {
                            let p = choose|p: int|
                                0 <= p < prev.len() && prev[p] == t as usize;
                            assert(out@[p] == t as usize);
                        } else {
                            assert(out@[out@.len() - 1] == i);
                        }
                    }
                }
            } else {
                proof {
                    assert forall|t: int|
                        from <= t < i + 1 && self.occupied(t) implies out@.contains(
                        t as usize,
                    ) by {
                        if t == i {
                            assert(self.slot_free(i as int));
                        }
                    }
                }
            }
            i = i + 1;
        }
        out
    }

    /// Drops the high-water mark to the occupied count. Callable once
    /// every slot at or past `active_count` is free, as after a
    /// compaction.
    pub fn trim_count(&mut self)
        requires
            old(self).wf(),
            forall|j: int|
                old(self).spec_active() <= j < old(self).spec_capacity() ==> !old(
                    self,
                ).occupied(j),
        ensures
            final(self).wf(),
            final(self).spec_count() == old(self).spec_active(),
            final(self).spec_base() == old(self).spec_base(),
            final(self).spec_capacity() == old(self).spec_capacity(),
            final(self).spec_component_size() == old(self).spec_component_size(),
            final(self).spec_stride() == old(self).spec_stride(),
            final(self).spec_active() == old(self).spec_active(),
            forall|j: int|
                #![trigger final(self).occupied(j)]
                #![trigger old(self).occupied(j)]
                final(self).occupied(j) <==> old(self).occupied(j),
            forall|j: int|
                #![trigger final(self).record_at(j)]
                #![trigger old(self).record_at(j)]
                final(self).record_at(j) == old(self).record_at(j),
    {
        proof {
            lemma_rank_nonneg(*self, self.spec_active());
        }
        self.count = self.active_count;
        proof {
            let c1 = *self;
            assert forall|j: int| #![trigger c1.slot_free(j)] c1.slot_free(j)
                <==> old(self).slot_free(j) by {
                assert(c1.spec_bitmap() == old(self).spec_bitmap());
            }
            lemma_rank_delta(*old(self), c1, -1, old(self).spec_capacity());
            lemma_records_identical(*old(self), c1);
            assert forall|j: int|
                c1.spec_count() <= j < c1.spec_capacity() implies c1.slot_free(j) by {
                assert(!old(self).occupied(j));
            }
        }
    }

    /// The highest slot ever used, plus one.
    pub fn count(&self) -> (r: usize)
        ensures
            r == self.spec_count(),
    {
        self.count
    }

    /// The number of slots.
    pub fn capacity(&self) -> (r: usize)
        ensures
            r == self.spec_capacity(),
    {
        self.capacity
    }

    /// The number of occupied slots.
    pub fn active_count(&self) -> (r: usize)
        ensures
            r == self.spec_active(),
    {
        self.active_count
    }

    /// Whether no further slot can be allocated.
    pub fn is_full(&self) -> (r: bool)
        ensures
            r == (self.spec_active() == self.spec_capacity()),
    {
        self.active_count == self.capacity
    }

    /// The arena offset of the chunk's backing range.
    pub fn arena_offset(&self) -> (r: usize)
        ensures
            r == self.spec_base(),
    {
        self.base
    }
}

/// A vector of `n` zero bytes.
fn zeroed_bytes(n: usize) -> (r: Vec<u8>)
    ensures
        r@.len() == n,
        forall|i: int| 0 <= i < n ==> r@[i] == 0u8,
{
    let mut v: Vec<u8> = Vec::new();
    while v.len() < n
        invariant
            v@.len() <= n,
            forall|i: int| 0 <= i < v@.len() ==> v@[i] == 0u8,
        decreases n - v@.len(),
    {
        v.push(0u8);
    }
    v
}

/// A bitmap of `(capacity + 63) / 64` words whose first `capacity`
/// bits are 1 (free) and whose trailing bits are 0.
fn make_free_bitmap(capacity: usize) -> (r: Vec<u64>)
    requires
        capacity + 63 <= usize::MAX,
    ensures
        r@.len() == (capacity + 63) / 64,
        forall|i: int|
            0 <= i < r@.len() * 64 ==> utils::bitmap_bit(r@, i) == (i < capacity),
{
    let words = (capacity + 63) / 64;
    let mut v: Vec<u64> = Vec::new();
    while v.len() < words
        invariant
            v@.len() <= words,
            words == (capacity + 63) / 64,
            capacity + 63 <= usize::MAX,
            forall|i: int|
                0 <= i < v@.len() * 64 ==> utils::bitmap_bit(v@, i) == (i < capacity),
        decreases words - v@.len(),
    {
        let w = v.len();
        let ghost prev = v@;
        let word: u64 = if (w + 1) * 64 <= capacity {
            u64::MAX
        } else if w * 64 >= capacity {
            0u64
        } else {
            let rem: u64 = (capacity - w * 64) as u64;
            proof {
                assert(1u64 << rem >= 1) by (bit_vector)
                    requires
                        0 < rem < 64,
                ;
            }
            (1u64 << rem) - 1
        };
        v.push(word);
        proof {
            assert forall|i: int|
                0 <= i < v@.len() * 64 implies utils::bitmap_bit(v@, i) == (i < capacity) by {
                utils::lemma_bit_position_bounds(v@.len() as int, i);
                if i / 64 < w {
                    assert(utils::bitmap_bit(prev, i) == (i < capacity));
                    assert(v@[i / 64] == prev[i / 64]);
                } else {
                    assert(i / 64 == w) by {
                        lemma_bit_in_word(i, w as int);
                    }
                    let b = (i % 64) as u64;
                    assert(i == 64 * (w as int) + b) by {
                        lemma_fundamental_div_mod(i, 64);
                    }
                    if (w + 1) * 64 <= capacity {
                        assert(utils::bit_of(u64::MAX, b)) by (bit_vector)
                            requires
                                b < 64,
                        ;
                    } else if w * 64 >= capacity {
                        assert(!utils::bit_of(0u64, b)) by (bit_vector)
                            requires
                                b < 64,
                        ;
                    } else {
                        let remg: u64 = (capacity - w * 64) as u64;
                        assert(utils::bit_of(word, b) == (b < remg)) by (bit_vector)
                            requires
                                word == (1u64 << remg) - 1,
                                0 < remg < 64,
                                b < 64,
                        ;
                    }
                }
            }
        }
    }
    proof {
        assert forall|i: int| capacity <= i < v@.len() * 64 implies !utils::bitmap_bit(
            v@,
            i,
        ) by {}
    }
    v
}

/// A bit position with word index `w` satisfies `i / 64 == w` exactly
/// when `64 * w <= i < 64 * (w + 1)`.
proof fn lemma_bit_in_word(i: int, w: int)
    requires
        64 * w <= i < 64 * (w + 1),
    ensures
        i / 64 == w,
        0 <= i % 64 < 64,
{
    lemma_fundamental_div_mod_converse(i, 64, w, i - 64 * w);
}

/// A chunk whose bitmap marks every slot below `n` free has no
/// occupied slot there: its rank is zero.
pub proof fn lemma_rank_when_all_free(c: Chunk, n: int)
    requires
        forall|i: int| 0 <= i < n ==> c.slot_free(i),
    ensures
        c.rank(n) == 0,
    decreases n,
{
    if n > 0 {
        lemma_rank_when_all_free(c, n - 1);
    }
}

/// Two chunks whose occupancy agrees below `n` except possibly at `i`
/// have ranks that differ exactly by the change at `i`.
pub proof fn lemma_rank_delta(c0: Chunk, c1: Chunk, i: int, n: int)
    requires
        forall|j: int| 0 <= j < n && j != i ==> (c0.occupied(j) <==> c1.occupied(j)),
    ensures
        c1.rank(n) == c0.rank(n) + if 0 <= i < n {
            (if c1.occupied(i) {
                1int
            } else {
                0int
            }) - (if c0.occupied(i) {
                1int
            } else {
                0int
            })
        } else {
            0int
        },
    decreases n,
{
    if n > 0 {
        lemma_rank_delta(c0, c1, i, n - 1);
    }
}

/// The rank is monotone and bounded by the interval length.
pub proof fn lemma_rank_bounds(c: Chunk, m: int, n: int)
    requires
        m <= n,
    ensures
        c.rank(m) <= c.rank(n) <= c.rank(m) + (n - m),
    decreases n - m,
{
    if m < n {
        lemma_rank_bounds(c, m, n - 1);
    }
}

/// The rank of the first `n` slots lies between 0 and `n`.
pub proof fn lemma_rank_nonneg(c: Chunk, n: int)
    requires
        0 <= n,
    ensures
        0 <= c.rank(n) <= n,
    decreases n,
{
    if n > 0 {
        lemma_rank_nonneg(c, n - 1);
    }
}

/// A free slot below `n` keeps the rank strictly below `n`; a chunk
/// whose every slot below `n` is occupied has rank exactly `n`.
pub proof fn lemma_rank_of_free_slot(c: Chunk, i: int, n: int)
    requires
        0 <= i < n,
        !c.occupied(i),
    ensures
        c.rank(n) < n,
    decreases n,
{
    if i == n - 1 {
        lemma_rank_nonneg(c, n - 1);
    } else {
        lemma_rank_of_free_slot(c, i, n - 1);
    }
}

/// The bitmap words of a well-formed chunk cover all its slots:
/// `(cap + 63) / 64` words hold at least `cap` and at most `cap + 63`
/// bits.
proof fn lemma_words_cover_capacity(cap: int)
    requires
        0 <= cap,
    ensures
        cap <= ((cap + 63) / 64) * 64 <= cap + 63,
{
    lemma_fundamental_div_mod(cap + 63, 64);
}

/// A slot index below the capacity reads a word inside the bitmap.
proof fn lemma_slot_word(i: int, cap: int)
    requires
        0 <= i < cap,
    ensures
        0 <= i / 64 < (cap + 63) / 64,
{
    lemma_fundamental_div_mod(i, 64);
    lemma_fundamental_div_mod_converse(i + 64, 64, i / 64 + 1, i % 64);
    lemma_div_is_ordered(i + 64, cap + 63, 64);
}

/// The byte window of a slot lies inside the data buffer.
proof fn lemma_slot_offset_bound(i: int, cap: int, stride: int)
    requires
        0 <= i < cap,
        stride >= 1,
    ensures
        0 <= i * stride,
        i * stride + stride <= cap * stride,
        i * stride + stride <= stride * cap,
{
    lemma_mul_inequality(i + 1, cap, stride);
    assert((i + 1) * stride == i * stride + stride) by (nonlinear_arith);
    assert(i * stride >= 0 && cap * stride == stride * cap) by (nonlinear_arith)
        requires
            i >= 0,
            stride >= 1,
    ;
}

/// The byte windows of two different slots do not overlap.
proof fn lemma_window_disjoint(i: int, j: int, stride: int, size: int)
    requires
        i != j,
        0 <= i,
        0 <= j,
        1 <= size <= stride,
    ensures
        i * stride + size <= j * stride || j * stride + size <= i * stride,
{
    if i < j {
        lemma_mul_inequality(i + 1, j, stride);
        assert((i + 1) * stride == i * stride + stride) by (nonlinear_arith);
    } else {
        lemma_mul_inequality(j + 1, i, stride);
        assert((j + 1) * stride == j * stride + stride) by (nonlinear_arith);
    }
}

/// Two chunks of the same shape whose data agrees outside the byte
/// window of slot `i` hold the same records everywhere else.
proof fn lemma_records_preserved(c0: Chunk, c1: Chunk, i: int)
    requires
        c1.spec_stride() == c0.spec_stride(),
        c1.spec_component_size() == c0.spec_component_size(),
        c1.spec_capacity() == c0.spec_capacity(),
        c1.spec_data().len() == c0.spec_data().len(),
        1 <= c0.spec_component_size() <= c0.spec_stride(),
        c0.spec_data().len() == c0.spec_stride() * c0.spec_capacity(),
        0 <= i < c0.spec_capacity(),
        forall|k: int|
            0 <= k < c0.spec_data().len() && !(i * c0.spec_stride() <= k < i * c0.spec_stride()
                + c0.spec_component_size()) ==> c1.spec_data()[k] == c0.spec_data()[k],
    ensures
        forall|j: int|
            #![trigger c1.record_at(j)]
            #![trigger c0.record_at(j)]
            0 <= j < c0.spec_capacity() && j != i ==> c1.record_at(j) == c0.record_at(j),
{
    let stride = c0.spec_stride();
    let size = c0.spec_component_size();
    assert forall|j: int|
        0 <= j < c0.spec_capacity() && j != i implies c1.record_at(j) == c0.record_at(j) by {
        lemma_window_disjoint(i, j, stride, size);
        lemma_slot_offset_bound(j, c0.spec_capacity(), stride);
        let lo = i * stride;
        let hi = i * stride + size;
        assert(j * stride + size <= lo || hi <= j * stride);
        assert forall|k: int|
            0 <= k < size implies c1.record_at(j)[k] == c0.record_at(j)[k] by {
            assert(0 <= j * stride + k < c0.spec_data().len());
            assert(!(lo <= j * stride + k < hi));
            assert(c1.spec_data()[j * stride + k] == c0.spec_data()[j * stride + k]);
        }
        assert(c1.record_at(j) =~= c0.record_at(j));
    }
}

/// Two chunks of the same shape with identical data hold identical
/// records.
proof fn lemma_records_identical(c0: Chunk, c1: Chunk)
    requires
        c1.spec_stride() == c0.spec_stride(),
        c1.spec_component_size() == c0.spec_component_size(),
        c1.spec_data() == c0.spec_data(),
    ensures
        forall|j: int|
            #![trigger c1.record_at(j)]
            #![trigger c0.record_at(j)]
            c1.record_at(j) == c0.record_at(j),
{
}

/// The rank below an occupied slot is strictly smaller than the rank
/// above it.
pub proof fn lemma_rank_strictly_increasing(c: Chunk, j: int, i: int)
    requires
        0 <= j < i,
        c.occupied(j),
    ensures
        c.rank(j) < c.rank(i),
{
    lemma_rank_bounds(c, j + 1, i);
}

/// Slots known free between `m` and `n` add nothing to the rank.
pub proof fn lemma_rank_free_above(c: Chunk, m: int, n: int)
    requires
        0 <= m <= n,
        forall|j: int| m <= j < n ==> c.slot_free(j),
    ensures
        c.rank(n) == c.rank(m),
    decreases n - m,
{
    if m < n {
        lemma_rank_free_above(c, m, n - 1);
    }
}

/// A chunk with every slot below `n` occupied has rank `n` there.
pub proof fn lemma_rank_when_all_occupied(c: Chunk, n: int)
    requires
        0 <= n,
        forall|i: int| 0 <= i < n ==> c.occupied(i),
    ensures
        c.rank(n) == n,
    decreases n,
{
    if n > 0 {
        lemma_rank_when_all_occupied(c, n - 1);
    }
}

} // verus!
