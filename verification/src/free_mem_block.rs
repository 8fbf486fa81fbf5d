//! Best-fit free-block allocator: tracks disjoint, non-adjacent free
//! byte ranges of one address space, merges neighbours on insert and
//! serves best-fit allocation requests.

use vstd::prelude::*;
use crate::utils;

verus! {

/// A half-open free byte range `[start, end)`.
#[derive(Debug, Clone, Copy, PartialEq, Eq, Structural)]
pub struct MemFreeBlock {
    /// First byte of the range.
    pub start: usize,
    /// First byte past the range.
    pub end: usize,
}

impl MemFreeBlock {
    /// A block is well formed when its range is non-empty.
    pub open spec fn valid(self) -> bool {
        self.start < self.end
    }

    /// The length of the range in bytes.
    pub open spec fn spec_size(self) -> int {
        self.end - self.start
    }

    /// Whether byte `a` lies in the range.
    pub open spec fn covers(self, a: int) -> bool {
        self.start <= a < self.end
    }

    /// Creates the block `[start, end)`.
    pub fn new(start: usize, end: usize) -> (r: MemFreeBlock)
        requires
            start < end,
        ensures
            r == (MemFreeBlock { start, end }),
    {
        MemFreeBlock { start, end }
    }

    /// The length of the range in bytes.
    pub fn size(&self) -> (r: usize)
        requires
            self.valid(),
        ensures
            r == self.spec_size(),
    {
        self.end - self.start
    }
}

/// Whether a block sequence is well formed: every block non-empty and
/// any two blocks in order separated by at least one byte.
pub open spec fn seq_wf(s: Seq<MemFreeBlock>) -> bool {
    &&& forall|i: int| 0 <= i < s.len() ==> s[i].valid()
    &&& forall|i: int, j: int| 0 <= i < j < s.len() ==> s[i].end < s[j].start
}

/// Whether byte `a` is covered by some block of the sequence.
pub open spec fn seq_covers(s: Seq<MemFreeBlock>, a: int) -> bool {
    exists|i: int| 0 <= i < s.len() && s[i].covers(a)
}

/// The enumeration order of the free blocks: by size, ties broken by
/// start offset. Two distinct blocks of a well-formed collection
/// always compare strictly, since their starts differ.
pub open spec fn lex_before(a: MemFreeBlock, b: MemFreeBlock) -> bool {
    a.spec_size() < b.spec_size() || (a.spec_size() == b.spec_size() && a.start < b.start)
}

/// The number of blocks among the first `n` that come before `b` in
/// the enumeration order.
pub open spec fn count_before(s: Seq<MemFreeBlock>, b: MemFreeBlock, n: int) -> int
    decreases n,
{
    if n <= 0 {
        0
    } else {
        count_before(s, b, n - 1) + if lex_before(s[n - 1], b) {
            1int
        } else {
            0int
        }
    }
}

/// The enumeration rank of `b`: how many blocks come before it.
pub open spec fn size_rank(s: Seq<MemFreeBlock>, b: MemFreeBlock) -> int {
    count_before(s, b, s.len() as int)
}

/// The collection of free blocks, kept sorted by start offset with a
/// strict gap between consecutive blocks: blocks are pairwise disjoint
/// and never adjacent, since adjacent ranges are merged on insert.
pub struct MemFreeBlockMaster {
    blocks: Vec<MemFreeBlock>,
}

impl MemFreeBlockMaster {
    /// The tracked blocks, in increasing start order.
    pub closed spec fn blocks_seq(self) -> Seq<MemFreeBlock> {
        self.blocks@
    }

    /// The number of tracked blocks.
    pub open spec fn block_count(self) -> nat {
        self.blocks_seq().len()
    }

    /// Structural invariant: every block is non-empty, and any two
    /// blocks in order are separated by at least one byte, which makes
    /// all blocks pairwise disjoint and non-adjacent.
    pub open spec fn wf(self) -> bool {
        seq_wf(self.blocks_seq())
    }

    /// Whether byte `a` is free, that is, covered by some block.
    pub open spec fn covers(self, a: int) -> bool {
        seq_covers(self.blocks_seq(), a)
    }

    /// Whether some block could serve a request of `size` bytes.
    pub open spec fn has_fit(self, size: int) -> bool {
        exists|i: int|
            0 <= i < self.blocks_seq().len() && self.blocks_seq()[i].spec_size() >= size
    }

    /// Whether `c` is a best fit for `size` among the blocks of `s`:
    /// large enough, and no fitting block is smaller.
    pub open spec fn is_best_fit(s: Seq<MemFreeBlock>, c: MemFreeBlock, size: int) -> bool {
        &&& c.spec_size() >= size
        &&& forall|j: int|
            0 <= j < s.len() && s[j].spec_size() >= size ==> c.spec_size() <= s[j].spec_size()
    }

    /// The total number of free bytes over a block sequence.
    pub open spec fn sum_sizes(s: Seq<MemFreeBlock>) -> int
        decreases s.len(),
    {
        if s.len() == 0 {
            0
        } else {
            Self::sum_sizes(s.drop_last()) + s.last().spec_size()
        }
    }

    /// Creates an empty collection.
    pub fn new() -> (r: MemFreeBlockMaster)
        ensures
            r.wf(),
            r.block_count() == 0,
            forall|a: int| !r.covers(a),
    {
        MemFreeBlockMaster { blocks: Vec::new() }
    }

    /// Creates an empty collection with room reserved for about
    /// `capacity` blocks.
    pub fn with_capacity(capacity: usize) -> (r: MemFreeBlockMaster)
        ensures
            r.wf(),
            r.block_count() == 0,
            forall|a: int| !r.covers(a),
    {
        MemFreeBlockMaster { blocks: Vec::with_capacity(capacity) }
    }

    /// Creates a collection holding the single block `[0, arena_size)`:
    /// the whole address space is free.
    pub fn new_init(arena_size: usize) -> (r: MemFreeBlockMaster)
        requires
            arena_size > 0,
        ensures
            r.wf(),
            r.block_count() == 1,
            forall|a: int| r.covers(a) <==> 0 <= a < arena_size,
    {
        let mut master = MemFreeBlockMaster { blocks: Vec::new() };
        master.blocks.push(MemFreeBlock { start: 0, end: arena_size });
        proof {
            assert(master.blocks_seq()[0].covers(0));
        }
        master
    }

    /// Records the free range of `block`, merging it with a block that
    /// ends at its start and one that starts at its end, so that the
    /// collection stays free of adjacent ranges. The range must not
    /// overlap any byte that is already free.
    #[verifier::rlimit(100)]
    #[verifier::spinoff_prover]
    pub fn insert(&mut self, block: MemFreeBlock)
        requires
            old(self).wf(),
            block.valid(),
            forall|a: int| block.covers(a) ==> !old(self).covers(a),
        ensures
            final(self).wf(),
            forall|a: int|
                #![trigger final(self).covers(a)]
                #![trigger old(self).covers(a)]
                #![trigger block.covers(a)]
                final(self).covers(a) <==> (old(self).covers(a) || block.covers(a)),
            final(self).block_count() <= old(self).block_count() + 1,
            final(self).block_count() >= 1,
    {
        let ghost s0 = self.blocks_seq();
        // Position of the first block that starts past the new range.
        let mut pos: usize = 0;
        while pos < self.blocks.len() && self.blocks[pos].start < block.start
            invariant
                pos <= self.blocks_seq().len(),
                forall|i: int| 0 <= i < pos ==> self.blocks_seq()[i].start < block.start,
                *self == *old(self),
            decreases self.blocks_seq().len() - pos,
        {
            pos = pos + 1;
        }
        proof {
            // Blocks at or past `pos` start at or past `block.start`; being
            // disjoint from `block`, they start at or past `block.end`.
            assert forall|i: int| pos <= i < s0.len() implies s0[i].start >= block.end by {
                if s0[i].start < block.end {
                    let a = vstd::math::max(s0[i].start as int, block.start as int);
                    assert(s0[i].covers(a));
                    assert(block.covers(a));
                }
            }
            // Blocks before `pos` start before `block.start`; being disjoint
            // from `block`, they end at or before `block.start`.
            assert forall|i: int| 0 <= i < pos implies s0[i].end <= block.start by {
                if s0[i].end > block.start {
                    let a = vstd::math::max(s0[i].start as int, block.start as int);
                    assert(s0[i].covers(a));
                    assert(block.covers(a));
                }
            }
        }
        let ghost pos0 = pos as int;
        let mut merged: MemFreeBlock = block;
        let ghost mut left: Option<MemFreeBlock> = None;
        let ghost mut right: Option<MemFreeBlock> = None;
        // Merge with the left neighbour when it ends exactly at the range.
        if pos > 0 && self.blocks[pos - 1].end == block.start {
            let removed = self.remove_block_index(pos - 1);
            proof {
                left = Some(removed);
            }
            merged.start = removed.start;
            pos = pos - 1;
        }
        let ghost ml = *self;
        let ghost s_l = self.blocks_seq();
        let ghost pos_l = pos as int;
        // Merge with the right neighbour when it starts exactly at the
        // range's end (after a left merge, `merged.end` is still `block.end`).
        if pos < self.blocks.len() && self.blocks[pos].start == merged.end {
            let removed = self.remove_block_index(pos);
            proof {
                right = Some(removed);
            }
            merged.end = removed.end;
        }
        let ghost mr = *self;
        let ghost s_r = self.blocks_seq();
        self.blocks.insert(pos, merged);
        proof {
            lemma_merge_shape(
                s0,
                s_l,
                s_r,
                self.blocks_seq(),
                pos0,
                pos_l,
                block,
                merged,
                left,
                right,
            );
            assert forall|a: int|
                #![trigger self.covers(a)]
                #![trigger old(self).covers(a)]
                #![trigger block.covers(a)]
                self.covers(a) <==> (old(self).covers(a) || block.covers(a)) by {
                assert(seq_covers(self.blocks_seq(), a) <==> (seq_covers(s0, a) || block.covers(
                    a,
                )));
            }
        }
    }

    /// Finds the smallest block whose size is at least `min_size`,
    /// without removing it.
    pub fn find_best_fit(&self, min_size: usize) -> (r: Option<MemFreeBlock>)
        requires
            self.wf(),
        ensures
            match r {
                Some(b) => {
                    &&& exists|i: int|
                        0 <= i < self.blocks_seq().len() && self.blocks_seq()[i] == b
                    &&& Self::is_best_fit(self.blocks_seq(), b, min_size as int)
                },
                None => !self.has_fit(min_size as int),
            },
    {
        match self.find_best_fit_index(min_size) {
            Some(i) => Some(self.blocks[i]),
            None => None,
        }
    }

    /// Index of a smallest block of size at least `min_size`.
    fn find_best_fit_index(&self, min_size: usize) -> (r: Option<usize>)
        requires
            self.wf(),
        ensures
            match r {
                Some(i) => {
                    &&& i < self.blocks_seq().len()
                    &&& Self::is_best_fit(self.blocks_seq(), self.blocks_seq()[i as int], min_size as int)
                },
                None => !self.has_fit(min_size as int),
            },
    {
        let mut best: Option<usize> = None;
        let mut i: usize = 0;
        while i < self.blocks.len()
            invariant
                self.wf(),
                i <= self.blocks_seq().len(),
                match best {
                    Some(b) => {
                        &&& (b as int) < i
                        &&& self.blocks_seq()[b as int].spec_size() >= min_size
                        &&& forall|j: int|
                            0 <= j < i && self.blocks_seq()[j].spec_size() >= min_size
                                ==> self.blocks_seq()[b as int].spec_size()
                                <= self.blocks_seq()[j].spec_size()
                    },
                    None => forall|j: int|
                        0 <= j < i ==> self.blocks_seq()[j].spec_size() < min_size,
                },
            decreases self.blocks_seq().len() - i,
        {
            let candidate = self.blocks[i];
            let fits = candidate.size() >= min_size;
            let better = match best {
                Some(b) => fits && candidate.size() < self.blocks[b].size(),
                None => fits,
            };
            if better {
                best = Some(i);
            }
            i = i + 1;
        }
        best
    }

    /// Removes the block at position `index`, keeping the order.
    fn remove_block_index(&mut self, index: usize) -> (r: MemFreeBlock)
        requires
            old(self).wf(),
            index < old(self).blocks_seq().len(),
        ensures
            final(self).wf(),
            r == old(self).blocks_seq()[index as int],
            final(self).blocks_seq() == old(self).blocks_seq().remove(index as int),
            forall|a: int|
                #![trigger final(self).covers(a)]
                #![trigger old(self).covers(a)]
                #![trigger r.covers(a)]
                final(self).covers(a) <==> (old(self).covers(a) && !r.covers(a)),
    {
        let ghost s0 = self.blocks_seq();
        let removed = self.blocks[index];
        self.blocks.remove(index);
        proof {
            let s1 = self.blocks_seq();
            assert forall|a: int|
                final(self).covers(a) <==> (old(self).covers(a) && !removed.covers(a)) by {
                if self.covers(a) {
                    let i = choose|i: int| 0 <= i < s1.len() && s1[i].covers(a);
                    let oi = if i < index { i } else { i + 1 };
                    assert(s0[oi].covers(a));
                    if removed.covers(a) {
                        lemma_blocks_disjoint(s0, oi, index as int, a);
                    }
                }
                if old(self).covers(a) && !removed.covers(a) {
                    let i = choose|i: int| 0 <= i < s0.len() && s0[i].covers(a);
                    let ni = if i < index { i } else { i - 1 };
                    assert(s1[ni].covers(a));
                }
            }
        }
        removed
    }

    /// Serves a best-fit request: removes the smallest block of at
    /// least `size` bytes, reinserts any remainder past the first
    /// `size` bytes, and returns the consumed range. Returns `None`,
    /// changing nothing, when the request is for zero bytes or no
    /// block is large enough.
    #[verifier::rlimit(100)]
    #[verifier::spinoff_prover]
    pub fn allocate(&mut self, size: usize) -> (r: Option<MemFreeBlock>)
        requires
            old(self).wf(),
        ensures
            final(self).wf(),
            r is None <==> (size == 0 || !old(self).has_fit(size as int)),
            r is None ==> *final(self) == *old(self),
            match r {
                Some(b) => {
                    &&& b.valid()
                    &&& b.spec_size() == size
                    &&& exists|i: int|
                        0 <= i < old(self).blocks_seq().len() && old(self).blocks_seq()[i].start
                            == b.start && Self::is_best_fit(
                            old(self).blocks_seq(),
                            old(self).blocks_seq()[i],
                            size as int,
                        )
                    &&& forall|a: int| b.covers(a) ==> old(self).covers(a)
                    &&& forall|a: int|
                        #![trigger final(self).covers(a)]
                        #![trigger old(self).covers(a)]
                        #![trigger b.covers(a)]
                        final(self).covers(a) <==> (old(self).covers(a) && !b.covers(a))
                },
                None => true,
            },
    {
        if size == 0 {
            return None;
        }
        let index = match self.find_best_fit_index(size) {
            Some(i) => i,
            None => {
                return None;
            },
        };
        proof {
            assert(old(self).blocks_seq()[index as int].spec_size() >= size);
        }
        let block = self.remove_block_index(index);
        let ghost mid = *self;
        let taken = MemFreeBlock { start: block.start, end: block.start + size };
        proof {
            assert forall|a: int| taken.covers(a) implies old(self).covers(a) by {
                assert(block.covers(a));
                assert(old(self).blocks_seq()[index as int].covers(a));
            }
        }
        if block.end > taken.end {
            let remainder = MemFreeBlock { start: taken.end, end: block.end };
            proof {
                assert forall|a: int| remainder.covers(a) implies !mid.covers(a) by {
                    assert(block.covers(a));
                }
            }
            self.insert(remainder);
            proof {
                assert forall|a: int|
                    #![trigger self.covers(a)]
                    #![trigger old(self).covers(a)]
                    #![trigger taken.covers(a)]
                    self.covers(a) <==> (old(self).covers(a) && !taken.covers(a)) by {
                    if self.covers(a) {
                        if remainder.covers(a) {
                            assert(old(self).blocks_seq()[index as int].covers(a));
                        }
                    }
                    if old(self).covers(a) && !taken.covers(a) {
                        if block.covers(a) {
                            assert(remainder.covers(a));
                        } else {
                            assert(mid.covers(a));
                        }
                    }
                }
            }
            return Some(taken);
        }
        proof {
            assert(block == taken);
            assert forall|a: int|
                #![trigger self.covers(a)]
                #![trigger old(self).covers(a)]
                #![trigger taken.covers(a)]
                self.covers(a) <==> (old(self).covers(a) && !taken.covers(a)) by {
            }
        }
        Some(taken)
    }

    /// Serves an aligned best-fit request: searches for a block large
    /// enough to hold `size` bytes at the next multiple of `align`
    /// inside it (by asking for `size + align - 1` bytes), removes it,
    /// reinserts the leading alignment gap and the trailing remainder,
    /// and returns the aligned range of exactly `size` bytes.
    #[verifier::rlimit(100)]
    #[verifier::spinoff_prover]
    pub fn allocate_aligned(&mut self, size: usize, align: usize) -> (r: Option<MemFreeBlock>)
        requires
            old(self).wf(),
            align >= 1,
            size + align <= usize::MAX,
        ensures
            final(self).wf(),
            r is None <==> (size == 0 || !old(self).has_fit(size + align - 1)),
            r is None ==> *final(self) == *old(self),
            match r {
                Some(b) => {
                    &&& b.valid()
                    &&& b.spec_size() == size
                    &&& b.start as int % align as int == 0
                    &&& forall|a: int| b.covers(a) ==> old(self).covers(a)
                    &&& forall|a: int|
                        #![trigger final(self).covers(a)]
                        #![trigger old(self).covers(a)]
                        #![trigger b.covers(a)]
                        final(self).covers(a) <==> (old(self).covers(a) && !b.covers(a))
                },
                None => true,
            },
    {
        if size == 0 {
            return None;
        }
        let required = size + (align - 1);
        let index = match self.find_best_fit_index(required) {
            Some(i) => i,
            None => {
                return None;
            },
        };
        proof {
            assert(old(self).blocks_seq()[index as int].spec_size() >= required);
        }
        let block = self.remove_block_index(index);
        let ghost mid = *self;
        let aligned_start = utils::align_up(block.start, align);
        proof {
            // The aligned range fits inside the removed block: the round-up
            // adds less than `align`, and the block holds `size + align - 1`.
            assert(aligned_start + size <= block.end);
        }
        let aligned_end = aligned_start + size;
        let taken = MemFreeBlock { start: aligned_start, end: aligned_end };
        let gap = MemFreeBlock { start: block.start, end: aligned_start };
        let tail = MemFreeBlock { start: aligned_end, end: block.end };
        if aligned_start > block.start {
            proof {
                assert forall|a: int| gap.covers(a) implies !mid.covers(a) by {
                    assert(block.covers(a));
                }
            }
            self.insert(gap);
        }
        let ghost mid2 = *self;
        if block.end > aligned_end {
            proof {
                assert forall|a: int| tail.covers(a) implies !mid2.covers(a) by {
                    assert(block.covers(a));
                    if aligned_start > block.start {
                        assert(!gap.covers(a));
                        assert(!mid.covers(a));
                    }
                }
            }
            self.insert(tail);
        }
        proof {
            assert forall|a: int| taken.covers(a) implies old(self).covers(a) by {
                assert(block.covers(a));
                assert(old(self).blocks_seq()[index as int].covers(a));
            }
            assert forall|a: int|
                #![trigger self.covers(a)]
                #![trigger old(self).covers(a)]
                #![trigger taken.covers(a)]
                self.covers(a) <==> (old(self).covers(a) && !taken.covers(a)) by {
                if self.covers(a) {
                    if gap.covers(a) || tail.covers(a) {
                        assert(block.covers(a));
                        assert(old(self).blocks_seq()[index as int].covers(a));
                    } else {
                        assert(mid2.covers(a));
                        assert(mid.covers(a));
                    }
                }
                if old(self).covers(a) && !taken.covers(a) {
                    if block.covers(a) {
                        if a < aligned_start {
                            assert(gap.covers(a));
                            assert(mid2.covers(a));
                        } else {
                            assert(tail.covers(a));
                        }
                    } else {
                        assert(mid.covers(a));
                        assert(!gap.covers(a));
                        assert(mid2.covers(a));
                        assert(!tail.covers(a));
                    }
                }
            }
        }
        Some(taken)
    }

    /// A snapshot of the bookkeeping: how many blocks are tracked,
    /// how many records exist, how many sit recycled, and the free
    /// byte total.
    pub fn get_memory_stats(&self) -> (r: MemoryStats)
        requires
            self.wf(),
        ensures
            r.active_blocks == self.block_count(),
            r.total_blocks == self.block_count(),
            r.free_slots == 0,
            r.total_memory == Self::sum_sizes(self.blocks_seq()),
    {
        MemoryStats {
            active_blocks: self.blocks.len(),
            total_blocks: self.blocks.len(),
            free_slots: 0,
            total_memory: self.total_free_size(),
        }
    }

    /// The number of tracked free blocks.
    pub fn len(&self) -> (r: usize)
        ensures
            r == self.block_count(),
    {
        self.blocks.len()
    }

    /// Whether no free block is tracked.
    pub fn is_empty(&self) -> (r: bool)
        ensures
            r == (self.block_count() == 0),
    {
        self.blocks.len() == 0
    }

    /// The total number of free bytes.
    pub fn total_free_size(&self) -> (r: usize)
        requires
            self.wf(),
        ensures
            r == Self::sum_sizes(self.blocks_seq()),
    {
        proof {
            lemma_sum_sizes_bound(self.blocks_seq());
        }
        let mut total: usize = 0;
        let mut i: usize = 0;
        while i < self.blocks.len()
            invariant
                self.wf(),
                i <= self.blocks_seq().len(),
                total == Self::sum_sizes(self.blocks_seq().take(i as int)),
                i > 0 ==> total <= self.blocks_seq()[i - 1].end,
            decreases self.blocks_seq().len() - i,
        {
            proof {
                lemma_sum_sizes_bound(self.blocks_seq().take(i as int));
                assert(self.blocks_seq().take(i + 1).drop_last() == self.blocks_seq().take(
                    i as int,
                ));
            }
            total = total + (self.blocks[i].end - self.blocks[i].start);
            i = i + 1;
        }
        proof {
            assert(self.blocks_seq().take(i as int) == self.blocks_seq());
        }
        total
    }

    /// The block at position `index` of the enumeration by
    /// non-decreasing size, ties broken by start offset: the returned
    /// block has exactly `index` blocks before it in that order, so
    /// walking the indices visits the blocks smallest first.
    pub fn get_by_index(&self, index: usize) -> (r: Option<MemFreeBlock>)
        requires
            self.wf(),
        ensures
            r is None <==> index >= self.block_count(),
            match r {
                Some(b) => {
                    &&& exists|i: int|
                        0 <= i < self.blocks_seq().len() && self.blocks_seq()[i] == b
                    &&& size_rank(self.blocks_seq(), b) == index
                },
                None => true,
            },
    {
        if index >= self.blocks.len() {
            return None;
        }
        let ghost s = self.blocks_seq();
        // Start from the enumeration-least block.
        let mut cur: MemFreeBlock = self.blocks[0];
        let ghost mut ci: int = 0;
        let mut i: usize = 1;
        while i < self.blocks.len()
            invariant
                self.wf(),
                1 <= i <= self.blocks_seq().len(),
                0 <= ci < self.blocks_seq().len(),
                cur == self.blocks_seq()[ci],
                forall|j: int| 0 <= j < i ==> !lex_before(self.blocks_seq()[j], cur),
            decreases self.blocks_seq().len() - i,
        {
            let c = self.blocks[i];
            if c.end - c.start < cur.end - cur.start || (c.end - c.start == cur.end - cur.start
                && c.start < cur.start) {
                cur = c;
                proof {
                    ci = i as int;
                }
            }
            i = i + 1;
        }
        proof {
            lemma_count_before_none(s, cur, s.len() as int);
        }
        let mut k: usize = 0;
        while k < index
            invariant
                self.wf(),
                s == self.blocks_seq(),
                k <= index < self.blocks_seq().len(),
                0 <= ci < s.len(),
                cur == s[ci],
                size_rank(s, cur) == k,
            decreases index - k,
        {
            // Find the enumeration-least block strictly after `cur`.
            let mut best: Option<MemFreeBlock> = None;
            let ghost mut bi: int = 0;
            let mut j: usize = 0;
            while j < self.blocks.len()
                invariant
                    self.wf(),
                    s == self.blocks_seq(),
                    j <= s.len(),
                    0 <= ci < s.len(),
                    cur == s[ci],
                    match best {
                        Some(b) => {
                            &&& 0 <= bi < s.len()
                            &&& b == s[bi]
                            &&& lex_before(cur, b)
                            &&& forall|p: int|
                                0 <= p < j && lex_before(cur, s[p]) ==> !lex_before(s[p], b)
                        },
                        None => forall|p: int| 0 <= p < j ==> !lex_before(cur, s[p]),
                    },
                decreases s.len() - j,
            {
                let c = self.blocks[j];
                let after_cur = cur.end - cur.start < c.end - c.start || (cur.end - cur.start
                    == c.end - c.start && cur.start < c.start);
                if after_cur {
                    let better = match best {
                        Some(b) => c.end - c.start < b.end - b.start || (c.end - c.start
                            == b.end - b.start && c.start < b.start),
                        None => true,
                    };
                    if better {
                        best = Some(c);
                        proof {
                            bi = j as int;
                        }
                    }
                }
                j = j + 1;
            }
            let next = match best {
                Some(b) => b,
                None => {
                    proof {
                        // Every other block comes before `cur`, so its
                        // rank is the last one — but the rank is still
                        // below `index`, a contradiction.
                        assert forall|p: int|
                            0 <= p < s.len() && p != ci implies lex_before(s[p], cur) by {
                            lemma_blocks_lex_total(s, p, ci);
                        }
                        lemma_count_before_all(s, cur, ci, s.len() as int);
                        assert(false);
                    }
                    return None;
                },
            };
            proof {
                // Exactly the blocks at or before `cur` come before
                // `next`, so the rank steps by one.
                assert forall|p: int|
                    0 <= p < s.len() implies (lex_before(s[p], next) <==> (lex_before(
                    s[p],
                    cur,
                ) || p == ci)) by {
                    if lex_before(s[p], next) && !lex_before(s[p], cur) && p != ci {
                        lemma_blocks_lex_total(s, p, ci);
                    }
                }
                lemma_count_before_step(s, cur, next, ci, s.len() as int);
            }
            cur = next;
            proof {
                ci = bi;
            }
            k = k + 1;
        }
        Some(cur)
    }
}

/// In a well-formed block sequence, no byte is covered by two
/// different blocks.
proof fn lemma_blocks_disjoint(s: Seq<MemFreeBlock>, i: int, j: int, a: int)
    requires
        forall|p: int, q: int| 0 <= p < q < s.len() ==> s[p].end < s[q].start,
        0 <= i < s.len(),
        0 <= j < s.len(),
        i != j,
        s[i].covers(a),
    ensures
        !s[j].covers(a),
{
}

/// A snapshot of the collection's bookkeeping. The verified
/// collection stores its blocks densely, so every stored block is
/// active and no storage slot sits recycled.
#[derive(Debug, Clone, Copy, PartialEq, Eq, Structural)]
pub struct MemoryStats {
    /// The number of tracked free blocks.
    pub active_blocks: usize,
    /// The number of block records held, active ones included.
    pub total_blocks: usize,
    /// The number of recycled block records awaiting reuse.
    pub free_slots: usize,
    /// The total number of free bytes.
    pub total_memory: usize,
}

/// Removing one block of a well-formed sequence uncovers exactly the
/// bytes of that block.
proof fn lemma_seq_covers_remove(s: Seq<MemFreeBlock>, i: int)
    requires
        seq_wf(s),
        0 <= i < s.len(),
    ensures
        forall|a: int|
            #![trigger seq_covers(s.remove(i), a)]
            seq_covers(s.remove(i), a) <==> (seq_covers(s, a) && !s[i].covers(a)),
{
    let s1 = s.remove(i);
    assert forall|a: int|
        #![trigger seq_covers(s1, a)]
        seq_covers(s1, a) <==> (seq_covers(s, a) && !s[i].covers(a)) by {
        if seq_covers(s1, a) {
            let k = choose|k: int| 0 <= k < s1.len() && s1[k].covers(a);
            let k0 = if k < i { k } else { k + 1 };
            assert(s[k0].covers(a));
            if s[i].covers(a) {
                if i < k0 {
                    assert(s[i].end < s[k0].start);
                } else {
                    assert(s[k0].end < s[i].start);
                }
            }
        }
        if seq_covers(s, a) && !s[i].covers(a) {
            let k = choose|k: int| 0 <= k < s.len() && s[k].covers(a);
            let k1 = if k < i { k } else { k - 1 };
            assert(s1[k1].covers(a));
        }
    }
}

/// The shape of a merged insert: given the scan position of the new
/// block, the absorbed neighbours and the intermediate sequences, the
/// final sequence is well formed and covers exactly the old bytes plus
/// the new block's bytes.
#[verifier::rlimit(100)]
#[verifier::spinoff_prover]
proof fn lemma_merge_shape(
    s0: Seq<MemFreeBlock>,
    s_l: Seq<MemFreeBlock>,
    s_r: Seq<MemFreeBlock>,
    s1: Seq<MemFreeBlock>,
    pos0: int,
    pos_l: int,
    block: MemFreeBlock,
    merged: MemFreeBlock,
    left: Option<MemFreeBlock>,
    right: Option<MemFreeBlock>,
)
    requires
        seq_wf(s0),
        block.valid(),
        forall|a: int| block.covers(a) ==> !seq_covers(s0, a),
        0 <= pos0 <= s0.len(),
        forall|i: int| 0 <= i < pos0 ==> s0[i].start < block.start,
        forall|i: int| pos0 <= i < s0.len() ==> s0[i].start >= block.start,
        (left is Some) == (pos0 > 0 && s0[pos0 - 1].end == block.start),
        left is Some ==> left->0 == s0[pos0 - 1],
        pos_l == if left is Some { pos0 - 1 } else { pos0 },
        s_l == if left is Some { s0.remove(pos0 - 1) } else { s0 },
        (right is Some) == (pos_l < s_l.len() && s_l[pos_l].start == block.end),
        right is Some ==> right->0 == s_l[pos_l],
        s_r == if right is Some { s_l.remove(pos_l) } else { s_l },
        merged == (MemFreeBlock {
            start: if left is Some { left->0.start } else { block.start },
            end: if right is Some { right->0.end } else { block.end },
        }),
        s1 == s_r.insert(pos_l, merged),
    ensures
        seq_wf(s1),
        forall|a: int|
            #![trigger seq_covers(s1, a)]
            seq_covers(s1, a) <==> (seq_covers(s0, a) || block.covers(a)),
        s1.len() <= s0.len() + 1,
        s1.len() >= 1,
{
    // Blocks left of the scan position end at or before the new range;
    // blocks at or right of it start at or past its end.
    assert forall|i: int| 0 <= i < pos0 implies s0[i].end <= block.start by {
        if s0[i].end > block.start {
            let a = vstd::math::max(s0[i].start as int, block.start as int);
            assert(s0[i].covers(a));
            assert(block.covers(a));
            assert(seq_covers(s0, a));
        }
    }
    assert forall|i: int| pos0 <= i < s0.len() implies s0[i].start >= block.end by {
        if s0[i].start < block.end {
            assert(s0[i].covers(s0[i].start as int));
            assert(block.covers(s0[i].start as int));
            assert(seq_covers(s0, s0[i].start as int));
        }
    }
    // The merged range is exactly the union of the absorbed neighbours
    // and the new block.
    assert forall|a: int|
        merged.covers(a) <==> ((left is Some && left->0.covers(a)) || block.covers(a) || (
        right is Some && right->0.covers(a))) by {
        if right is Some {
            if left is Some {
                assert(s_l[pos_l] == s0[pos0]);
            }
            assert(right->0.start == block.end);
            assert(right->0.valid());
        }
        if left is Some {
            assert(left->0.end == block.start);
            assert(left->0.valid());
        }
    }
    // A strict gap remains on both sides of the merged range.
    assert forall|i: int| 0 <= i < pos_l implies s_r[i].end < merged.start by {
        assert(s_r[i] == s0[i]);
        if left is Some {
            assert(s0[i].end < s0[pos0 - 1].start);
        } else {
            if i == pos0 - 1 {
                assert(s0[i].end != block.start);
            } else {
                assert(s0[i].end < s0[pos0 - 1].start);
                assert(s0[pos0 - 1].start < s0[pos0 - 1].end);
            }
        }
    }
    let shift: int = if left is Some { 1int } else { 0int };
    assert forall|i: int| pos_l <= i < s_r.len() implies s_r[i].start > merged.end by {
        if right is Some {
            assert(s_r[i] == s_l[i + 1]);
            assert(s_l[i + 1] == s0[i + 1 + shift]);
            assert(s_l[pos_l] == s0[pos_l + shift]);
            assert(s0[pos_l + shift].end < s0[i + 1 + shift].start);
        } else {
            assert(s_r[i] == s0[i + shift]);
            assert(s0[i + shift].start >= block.end);
            if i == pos_l {
                assert(s_l[i].start != block.end);
            } else {
                assert(s0[pos_l + shift].end < s0[i + shift].start);
                assert(s0[pos_l + shift].start >= block.end);
                assert(s0[pos_l + shift].start < s0[pos_l + shift].end);
            }
        }
    }
    // Well-formedness of the final sequence.
    assert(merged.valid());
    assert forall|p: int, q: int| 0 <= p < q < s1.len() implies s1[p].end < s1[q].start by {
        if p == pos_l {
            assert(s1[q] == s_r[q - 1]);
        } else if q == pos_l {
            assert(s1[p] == s_r[p]);
        } else {
            let p0 = if p < pos_l { p } else { p - 1 };
            let q0 = if q < pos_l { q } else { q - 1 };
            assert(s1[p] == s_r[p0] && s1[q] == s_r[q0]);
            if p0 < pos_l && q0 >= pos_l {
                assert(s_r[p0].end < merged.start);
                assert(s_r[q0].start > merged.end);
                assert(merged.start < merged.end);
            }
        }
    }
    assert forall|i: int| 0 <= i < s1.len() implies s1[i].valid() by {
        if i != pos_l {
            let i0 = if i < pos_l { i } else { i - 1 };
            assert(s1[i] == s_r[i0]);
            assert(s_r[i0] == if i0 < pos_l { s0[i0] } else { s0[i0 + shift + (
                if right is Some { 1int } else { 0int }) ] });
        }
    }
    // Coverage of the intermediate sequences.
    if left is Some {
        lemma_seq_covers_remove(s0, pos0 - 1);
    }
    if right is Some {
        assert(seq_wf(s_l)) by {
            assert forall|p: int, q: int| 0 <= p < q < s_l.len() implies s_l[p].end
                < s_l[q].start by {
                assert(s_l[p] == s0[if p < pos0 - 1 { p } else { p + shift }]);
                assert(s_l[q] == s0[if q < pos0 - 1 { q } else { q + shift }]);
            }
            assert forall|i: int| 0 <= i < s_l.len() implies s_l[i].valid() by {
                assert(s_l[i] == s0[if i < pos0 - 1 { i } else { i + shift }]);
            }
        }
        lemma_seq_covers_remove(s_l, pos_l);
    }
    // Coverage of the final sequence.
    assert forall|a: int|
        #![trigger seq_covers(s1, a)]
        seq_covers(s1, a) <==> (seq_covers(s0, a) || block.covers(a)) by {
        lemma_covers_insert(s_r, pos_l, merged, a);
        if seq_covers(s1, a) {
            if merged.covers(a) {
                if left is Some && left->0.covers(a) {
                    assert(s0[pos0 - 1].covers(a));
                    assert(seq_covers(s0, a));
                } else if right is Some && right->0.covers(a) {
                    assert(s_l[pos_l].covers(a));
                    assert(seq_covers(s_l, a));
                    assert(seq_covers(s0, a));
                }
            } else {
                assert(seq_covers(s_r, a));
                assert(seq_covers(s_l, a));
                assert(seq_covers(s0, a));
            }
        }
        if seq_covers(s0, a) || block.covers(a) {
            if block.covers(a) {
                assert(merged.covers(a));
                assert(s1[pos_l].covers(a));
            } else {
                if left is Some && left->0.covers(a) {
                    assert(merged.covers(a));
                    assert(s1[pos_l].covers(a));
                } else if right is Some && right->0.covers(a) {
                    assert(merged.covers(a));
                    assert(s1[pos_l].covers(a));
                } else {
                    assert(seq_covers(s_l, a));
                    assert(seq_covers(s_r, a));
                    let k = choose|k: int| 0 <= k < s_r.len() && s_r[k].covers(a);
                    let k1 = if k < pos_l { k } else { k + 1 };
                    assert(s1[k1].covers(a));
                }
            }
        }
    }
}

/// Inserting a block into a sequence makes exactly its bytes covered
/// in addition to what was covered before.
proof fn lemma_covers_insert(s: Seq<MemFreeBlock>, pos: int, b: MemFreeBlock, a: int)
    requires
        0 <= pos <= s.len(),
    ensures
        (exists|i: int| 0 <= i < s.insert(pos, b).len() && s.insert(pos, b)[i].covers(a)) <==> ((
        exists|i: int| 0 <= i < s.len() && s[i].covers(a)) || b.covers(a)),
{
    let s1 = s.insert(pos, b);
    if exists|i: int| 0 <= i < s1.len() && s1[i].covers(a) {
        let i = choose|i: int| 0 <= i < s1.len() && s1[i].covers(a);
        if i != pos {
            let k = if i < pos { i } else { i - 1 };
            assert(s[k].covers(a));
        }
    }
    if exists|i: int| 0 <= i < s.len() && s[i].covers(a) {
        let i = choose|i: int| 0 <= i < s.len() && s[i].covers(a);
        let k = if i < pos { i } else { i + 1 };
        assert(s1[k].covers(a));
    }
    if b.covers(a) {
        assert(s1[pos].covers(a));
    }
}

/// The free bytes of a well-formed block sequence total at most the
/// end offset of its last block.
pub proof fn lemma_sum_sizes_bound(s: Seq<MemFreeBlock>)
    requires
        forall|i: int| 0 <= i < s.len() ==> s[i].valid(),
        forall|i: int, j: int| 0 <= i < j < s.len() ==> s[i].end < s[j].start,
    ensures
        0 <= MemFreeBlockMaster::sum_sizes(s),
        s.len() > 0 ==> MemFreeBlockMaster::sum_sizes(s) <= s.last().end,
    decreases s.len(),
{
    if s.len() > 0 {
        lemma_sum_sizes_bound(s.drop_last());
    }
}

/// A block that no block comes before has rank zero.
proof fn lemma_count_before_none(s: Seq<MemFreeBlock>, b: MemFreeBlock, n: int)
    requires
        n <= s.len(),
        forall|j: int| 0 <= j < n ==> !lex_before(s[j], b),
    ensures
        count_before(s, b, n) == 0,
    decreases n,
{
    if n > 0 {
        lemma_count_before_none(s, b, n - 1);
    }
}

/// A block that every other block comes before has the last rank.
proof fn lemma_count_before_all(s: Seq<MemFreeBlock>, b: MemFreeBlock, bi: int, n: int)
    requires
        0 <= bi < s.len(),
        s[bi] == b,
        0 <= n <= s.len(),
        forall|j: int| 0 <= j < s.len() && j != bi ==> lex_before(s[j], b),
    ensures
        count_before(s, b, n) == n - if bi < n {
            1int
        } else {
            0int
        },
    decreases n,
{
    if n > 0 {
        lemma_count_before_all(s, b, bi, n - 1);
    }
}

/// When exactly the blocks at or before `prev` come before `next`,
/// the rank of `next` is one past the rank of `prev`.
proof fn lemma_count_before_step(
    s: Seq<MemFreeBlock>,
    prev: MemFreeBlock,
    next: MemFreeBlock,
    pi: int,
    n: int,
)
    requires
        0 <= pi < s.len(),
        s[pi] == prev,
        0 <= n <= s.len(),
        forall|j: int|
            0 <= j < s.len() ==> (lex_before(s[j], next) <==> (lex_before(s[j], prev) || j
                == pi)),
    ensures
        count_before(s, next, n) == count_before(s, prev, n) + if pi < n {
            1int
        } else {
            0int
        },
    decreases n,
{
    if n > 0 {
        lemma_count_before_step(s, prev, next, pi, n - 1);
    }
}

/// Two different positions of a well-formed block sequence hold
/// blocks with different starts, so one of them comes strictly before
/// the other in the enumeration order.
proof fn lemma_blocks_lex_total(s: Seq<MemFreeBlock>, p: int, q: int)
    requires
        seq_wf(s),
        0 <= p < s.len(),
        0 <= q < s.len(),
        p != q,
    ensures
        lex_before(s[p], s[q]) || lex_before(s[q], s[p]),
        s[p] != s[q],
{
    if p < q {
        assert(s[p].end < s[q].start);
    } else {
        assert(s[q].end < s[p].start);
    }
}

/// A block strictly before another in the enumeration order has a
/// strictly smaller rank: every block counted before the first is
/// counted before the second, and the first itself joins the count.
proof fn lemma_rank_strict(s: Seq<MemFreeBlock>, p: int, q: int, n: int)
    requires
        seq_wf(s),
        0 <= p < s.len(),
        0 <= q < s.len(),
        lex_before(s[p], s[q]),
        n <= s.len(),
    ensures
        count_before(s, s[p], n) + if p < n {
            1int
        } else {
            0int
        } <= count_before(s, s[q], n),
    decreases n,
{
    if n > 0 {
        lemma_rank_strict(s, p, q, n - 1);
        if n - 1 == p {
            assert(!lex_before(s[p], s[p]));
        }
    }
}

/// Law: the enumeration is sorted by non-decreasing block size — of
/// two tracked blocks, the one with the smaller rank is never larger.
pub proof fn lemma_enumeration_sorted_by_size(s: Seq<MemFreeBlock>, p: int, q: int)
    requires
        seq_wf(s),
        0 <= p < s.len(),
        0 <= q < s.len(),
        size_rank(s, s[p]) <= size_rank(s, s[q]),
    ensures
        s[p].spec_size() <= s[q].spec_size(),
{
    if s[q].spec_size() < s[p].spec_size() {
        lemma_rank_strict(s, q, p, s.len() as int);
    }
}

} // verus!
