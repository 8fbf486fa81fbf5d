//! The arena: one fixed-capacity backing region, handed out as byte
//! ranges. The common path is monotonic bump allocation; ranges
//! released through `free` go to a best-fit free-block allocator and
//! are reused before the cursor moves again.
//!
//! The arena accounts for the region in offsets: every grant is a
//! range of `[0, capacity)`, aligned as requested, disjoint from all
//! other live grants.

use vstd::prelude::*;
use vstd::arithmetic::div_mod::{lemma_fundamental_div_mod, lemma_mod_multiples_basic};
use crate::constants::{CACHE_LINE_SIZE, DEFAULT_ARENA_SIZE, MIN_ALIGNMENT};
use crate::free_mem_block::{
    lemma_sum_sizes_bound,
    seq_wf,
    MemFreeBlock,
    MemFreeBlockMaster,
};
use crate::utils;

verus! {

/// One backing region of fixed byte capacity. `cursor` is the next
/// never-used offset; `free_blocks` tracks reclaimed ranges below the
/// cursor. A byte is free when it is past the cursor or in a free
/// block; every grant consumes free bytes only.
pub struct Arena {
    capacity: usize,
    cursor: usize,
    free_blocks: MemFreeBlockMaster,
}

impl Arena {
    /// The total byte capacity of the region.
    pub closed spec fn spec_capacity(self) -> int {
        self.capacity as int
    }

    /// The next offset never yet touched by bump allocation.
    pub closed spec fn spec_cursor(self) -> int {
        self.cursor as int
    }

    /// The reclaimed ranges below the cursor.
    pub closed spec fn free_set(self) -> MemFreeBlockMaster {
        self.free_blocks
    }

    /// Structural invariant: the cursor stays within the region and
    /// every reclaimed range lies wholly below the cursor.
    pub open spec fn wf(self) -> bool {
        &&& self.free_set().wf()
        &&& self.spec_cursor() <= self.spec_capacity()
        &&& forall|a: int| self.free_set().covers(a) ==> 0 <= a < self.spec_cursor()
    }

    /// Whether byte `a` of the region is free: either never bump
    /// allocated, or reclaimed by `free`.
    pub open spec fn is_free(self, a: int) -> bool {
        self.free_set().covers(a) || self.spec_cursor() <= a < self.spec_capacity()
    }

    /// Whether a request of `size` bytes at alignment `align` is sure
    /// to succeed: a reclaimed block large enough for the padded
    /// request, or enough room past the aligned cursor.
    pub open spec fn can_fit(self, size: int, align: int) -> bool {
        let eff = vstd::math::max(align, MIN_ALIGNMENT as int);
        ||| self.free_set().has_fit(size + eff - 1)
        ||| utils::spec_align_up(self.spec_cursor(), eff) + size <= self.spec_capacity()
    }

    /// Creates an arena of at least `bytes` capacity, rounded up to
    /// the cache line size; the whole region starts out free.
    pub fn with_capacity(bytes: usize) -> (r: Arena)
        requires
            bytes + CACHE_LINE_SIZE <= usize::MAX,
        ensures
            r.wf(),
            r.spec_capacity() == utils::spec_align_up(bytes as int, CACHE_LINE_SIZE as int),
            r.spec_cursor() == 0,
            forall|a: int| r.is_free(a) <==> 0 <= a < r.spec_capacity(),
    {
        let capacity = utils::align_up(bytes, CACHE_LINE_SIZE);
        Arena { capacity, cursor: 0, free_blocks: MemFreeBlockMaster::new() }
    }

    /// Creates an arena of the default capacity.
    pub fn new() -> (r: Arena)
        ensures
            r.wf(),
            r.spec_capacity() == DEFAULT_ARENA_SIZE as int,
            r.spec_cursor() == 0,
            forall|a: int| r.is_free(a) <==> 0 <= a < r.spec_capacity(),
    {
        Arena::with_capacity(DEFAULT_ARENA_SIZE)
    }

    /// The total byte capacity of the region.
    pub fn capacity(&self) -> (r: usize)
        ensures
            r == self.spec_capacity(),
    {
        self.capacity
    }

    /// The next offset never yet touched by bump allocation.
    pub fn cursor(&self) -> (r: usize)
        ensures
            r == self.spec_cursor(),
    {
        self.cursor
    }

    /// Grants `size` bytes aligned to `align` (with the minimum
    /// alignment floor applied), trying reclaimed ranges first and
    /// bump allocation second. The returned range lies inside
    /// `[0, capacity)`, starts at a multiple of `align`, was free, and
    /// is free no longer. Fails exactly when the request is for zero
    /// bytes or nothing fits.
    pub fn allocate(&mut self, size: usize, align: usize) -> (r: Option<MemFreeBlock>)
        requires
            old(self).wf(),
            utils::is_pow2(align as nat),
            size + align + MIN_ALIGNMENT <= usize::MAX,
        ensures
            final(self).wf(),
            final(self).spec_capacity() == old(self).spec_capacity(),
            r is None <==> (size == 0 || !old(self).can_fit(size as int, align as int)),
            r is None ==> *final(self) == *old(self),
            match r {
                Some(b) => {
                    &&& b.valid()
                    &&& b.spec_size() == size
                    &&& 0 <= b.start
                    &&& b.end <= old(self).spec_capacity()
                    &&& b.start as int % align as int == 0
                    &&& forall|a: int| b.covers(a) ==> old(self).is_free(a)
                    &&& forall|a: int|
                        #![trigger final(self).is_free(a)]
                        #![trigger old(self).is_free(a)]
                        final(self).is_free(a) <==> (old(self).is_free(a) && !b.covers(a))
                },
                None => true,
            },
    {
        let eff: usize = if align < MIN_ALIGNMENT {
            MIN_ALIGNMENT
        } else {
            align
        };
        proof {
            assert(utils::is_pow2(MIN_ALIGNMENT as nat)) by {
                reveal_with_fuel(utils::is_pow2, 5);
            }
            lemma_pow2_le_divides(align as nat, eff as nat);
        }
        if size == 0 {
            return None;
        }
        match self.free_blocks.allocate_aligned(size, eff) {
            Some(b) => {
                proof {
                    lemma_multiple_mod_divisor(b.start as int, align as int, eff as int);
                    assert(b.end <= old(self).spec_capacity()) by {
                        assert(b.covers(b.end - 1));
                        assert(old(self).free_set().covers(b.end - 1));
                    }
                    assert forall|a: int| self.free_set().covers(a) implies 0 <= a < self
                        .spec_cursor() by {
                        assert(old(self).free_set().covers(a));
                    }
                    assert forall|a: int| b.covers(a) implies old(self).is_free(a) by {
                        assert(old(self).free_set().covers(a));
                    }
                    assert forall|a: int|
                        #![trigger self.is_free(a)]
                        #![trigger old(self).is_free(a)]
                        self.is_free(a) <==> (old(self).is_free(a) && !b.covers(a)) by {
                        if b.covers(a) {
                            assert(old(self).free_set().covers(a));
                            assert(!self.free_set().covers(a));
                        }
                        if old(self).free_set().covers(a) && !b.covers(a) {
                            assert(self.free_set().covers(a));
                        }
                        if self.free_set().covers(a) {
                            assert(old(self).free_set().covers(a));
                        }
                    }
                }
                Some(b)
            },
            None => {
                // Bump path: place the grant at the aligned cursor, and
                // record any alignment gap as a reclaimed range.
                let rem: usize = self.cursor % eff;
                let pad: usize = if rem == 0 {
                    0
                } else {
                    eff - rem
                };
                proof {
                    lemma_fundamental_div_mod(self.cursor as int, eff as int);
                    let q = self.cursor as int / eff as int;
                    if rem == 0 {
                        lemma_mod_multiples_basic(q, eff as int);
                        assert(self.cursor as int == q * eff as int) by (nonlinear_arith)
                            requires
                                self.cursor as int == eff as int * q + rem as int,
                                rem == 0,
                        ;
                    } else {
                        assert((self.cursor + pad) as int == (q + 1) * eff as int)
                            by (nonlinear_arith)
                            requires
                                self.cursor as int == eff as int * q + rem as int,
                                pad == eff - rem,
                                eff >= 1,
                                rem < eff,
                        ;
                        lemma_mod_multiples_basic(q + 1, eff as int);
                    }
                    assert((self.cursor + pad) as int == utils::spec_align_up(
                        self.cursor as int,
                        eff as int,
                    ));
                }
                if pad <= self.capacity - self.cursor && size <= self.capacity - self.cursor
                    - pad {
                    let aligned: usize = self.cursor + pad;
                    let b = MemFreeBlock { start: aligned, end: aligned + size };
                    let gap = MemFreeBlock { start: self.cursor, end: aligned };
                    let ghost m0 = *self;
                    if pad > 0 {
                        proof {
                            assert forall|a: int| gap.covers(a) implies !self
                                .free_blocks
                                .covers(a) by {
                                if self.free_set().covers(a) {
                                    assert(0 <= a < self.spec_cursor());
                                }
                            }
                        }
                        self.free_blocks.insert(gap);
                    }
                    let ghost mg = *self;
                    self.cursor = aligned + size;
                    proof {
                        lemma_multiple_mod_divisor(aligned as int, align as int, eff as int);
                        // After the optional gap insert, the reclaimed set
                        // covers the old reclaimed bytes plus the gap.
                        assert forall|a: int|
                            mg.free_set().covers(a) <==> (m0.free_set().covers(a) || gap.covers(
                            a,
                        )) by {
                            if pad == 0 {
                                assert(!gap.covers(a));
                            }
                        }
                        assert forall|a: int| self.free_set().covers(a) implies 0 <= a < self
                            .spec_cursor() by {
                            assert(mg.free_set().covers(a));
                        }
                        assert forall|a: int|
                            #![trigger self.is_free(a)]
                            #![trigger old(self).is_free(a)]
                            self.is_free(a) <==> (old(self).is_free(a) && !b.covers(a)) by {
                            assert(mg.free_set().covers(a) <==> (m0.free_set().covers(a)
                                || gap.covers(a)));
                        }
                    }
                    Some(b)
                } else {
                    None
                }
            },
        }
    }

    /// Grants `size` bytes aligned to `align` from the reclaimed
    /// ranges only, never moving the cursor.
    pub fn allocate_from_free_blocks(&mut self, size: usize, align: usize) -> (r: Option<
        MemFreeBlock,
    >)
        requires
            old(self).wf(),
            utils::is_pow2(align as nat),
            size + align + MIN_ALIGNMENT <= usize::MAX,
        ensures
            final(self).wf(),
            final(self).spec_capacity() == old(self).spec_capacity(),
            final(self).spec_cursor() == old(self).spec_cursor(),
            r is None <==> (size == 0 || !old(self).free_set().has_fit(
                size + vstd::math::max(align as int, MIN_ALIGNMENT as int) - 1,
            )),
            r is None ==> *final(self) == *old(self),
            match r {
                Some(b) => {
                    &&& b.valid()
                    &&& b.spec_size() == size
                    &&& 0 <= b.start
                    &&& b.end <= old(self).spec_capacity()
                    &&& b.start as int % align as int == 0
                    &&& forall|a: int| b.covers(a) ==> old(self).is_free(a)
                    &&& forall|a: int|
                        #![trigger final(self).is_free(a)]
                        #![trigger old(self).is_free(a)]
                        final(self).is_free(a) <==> (old(self).is_free(a) && !b.covers(a))
                },
                None => true,
            },
    {
        let eff: usize = if align < MIN_ALIGNMENT {
            MIN_ALIGNMENT
        } else {
            align
        };
        proof {
            assert(utils::is_pow2(MIN_ALIGNMENT as nat)) by {
                reveal_with_fuel(utils::is_pow2, 5);
            }
            lemma_pow2_le_divides(align as nat, eff as nat);
        }
        let r = self.free_blocks.allocate_aligned(size, eff);
        proof {
            if r is Some {
                let b = r->0;
                lemma_multiple_mod_divisor(b.start as int, align as int, eff as int);
                assert(b.end <= old(self).spec_capacity()) by {
                    assert(b.covers(b.end - 1));
                    assert(old(self).free_set().covers(b.end - 1));
                }
                assert forall|a: int| self.free_set().covers(a) implies 0 <= a < self
                    .spec_cursor() by {
                    assert(old(self).free_set().covers(a));
                }
                assert forall|a: int| b.covers(a) implies old(self).is_free(a) by {
                    assert(old(self).free_set().covers(a));
                }
                assert forall|a: int|
                    #![trigger self.is_free(a)]
                    #![trigger old(self).is_free(a)]
                    self.is_free(a) <==> (old(self).is_free(a) && !b.covers(a)) by {
                    if b.covers(a) {
                        assert(old(self).free_set().covers(a));
                        assert(!self.free_set().covers(a));
                    }
                    if old(self).free_set().covers(a) && !b.covers(a) {
                        assert(self.free_set().covers(a));
                    }
                    if self.free_set().covers(a) {
                        assert(old(self).free_set().covers(a));
                    }
                }
            }
        }
        r
    }

    /// Releases a granted range. A range ending exactly at the cursor
    /// retreats the cursor; any other range goes to the free-block
    /// allocator for best-fit reuse, merged with its neighbours. The
    /// range must have been allocated: below the cursor and not free.
    pub fn free(&mut self, start: usize, size: usize)
        requires
            old(self).wf(),
            size > 0,
            start + size <= old(self).spec_cursor(),
            forall|a: int| start <= a < start + size ==> !old(self).is_free(a),
        ensures
            final(self).wf(),
            final(self).spec_capacity() == old(self).spec_capacity(),
            forall|a: int|
                #![trigger final(self).is_free(a)]
                #![trigger old(self).is_free(a)]
                final(self).is_free(a) <==> (old(self).is_free(a) || (start <= a < start
                    + size)),
    {
        let released = MemFreeBlock { start, end: start + size };
        if start + size == self.cursor {
            // The released range sits at the tail of the used region:
            // the cursor retreats and truly reclaims it.
            proof {
                assert forall|a: int| self.free_set().covers(a) implies 0 <= a < start by {
                    if start <= a < start + size {
                        assert(!old(self).is_free(a));
                    }
                }
            }
            self.cursor = start;
            proof {
                assert forall|a: int|
                    #![trigger self.is_free(a)]
                    #![trigger old(self).is_free(a)]
                    self.is_free(a) <==> (old(self).is_free(a) || (start <= a < start
                        + size)) by {}
            }
        } else {
            proof {
                assert forall|a: int| released.covers(a) implies !self.free_set().covers(
                    a,
                ) by {
                    assert(!old(self).is_free(a));
                }
            }
            self.free_blocks.insert(released);
            proof {
                assert forall|a: int| self.free_set().covers(a) implies 0 <= a < self
                    .spec_cursor() by {
                    if !old(self).free_set().covers(a) {
                        assert(released.covers(a));
                    }
                }
                assert forall|a: int|
                    #![trigger self.is_free(a)]
                    #![trigger old(self).is_free(a)]
                    self.is_free(a) <==> (old(self).is_free(a) || (start <= a < start
                        + size)) by {
                    assert(self.free_set().covers(a) <==> (old(self).free_set().covers(a)
                        || released.covers(a)));
                }
            }
        }
    }
}

/// Law: the live grants of an arena never exceed its capacity. Any
/// family of pairwise disjoint ranges inside `[0, cap)` — as every set
/// of concurrently live grants is, since each grant consumes bytes
/// that were free and frees them for no one else — totals at most
/// `cap` bytes, here stated for the ranges listed in increasing order.
pub proof fn lemma_live_ranges_within_capacity(s: Seq<MemFreeBlock>, cap: int)
    requires
        seq_wf(s),
        forall|i: int| 0 <= i < s.len() ==> s[i].end <= cap,
        0 <= cap,
    ensures
        MemFreeBlockMaster::sum_sizes(s) <= cap,
{
    lemma_sum_sizes_bound(s);
    if s.len() > 0 {
        assert(s.last().end <= cap);
    }
}

/// A power of two divides every power of two at or above it.
proof fn lemma_pow2_le_divides(d: nat, m: nat)
    requires
        utils::is_pow2(d),
        utils::is_pow2(m),
        d <= m,
    ensures
        m % d == 0,
    decreases m,
{
    if m == d {
        lemma_mod_multiples_basic(1, m as int);
        assert(1 * m as int == m as int) by (nonlinear_arith);
    } else {
        assert(m % 2 == 0 && utils::is_pow2(m / 2));
        assert(d < m);
        assert(d <= m / 2) by {
            lemma_pow2_le(d, m);
        }
        lemma_pow2_le_divides(d, m / 2);
        let q = (m / 2) as int / d as int;
        lemma_fundamental_div_mod((m / 2) as int, d as int);
        assert(m as int == (2 * q) * d as int) by (nonlinear_arith)
            requires
                (m / 2) as int == d as int * q,
                m % 2 == 0,
                m as int == 2 * ((m / 2) as int),
        ;
        lemma_mod_multiples_basic(2 * q, d as int);
    }
}

/// A power of two strictly below another power of two is at most its
/// half.
proof fn lemma_pow2_le(d: nat, m: nat)
    requires
        utils::is_pow2(d),
        utils::is_pow2(m),
        d < m,
    ensures
        d <= m / 2,
    decreases d,
{
    if d == 1 {
        assert(m / 2 >= 1);
    } else {
        assert(utils::is_pow2(d / 2) && d % 2 == 0);
        lemma_pow2_le(d / 2, m / 2);
    }
}

/// A value that is a multiple of `m` is a multiple of every divisor
/// `d` of `m`.
proof fn lemma_multiple_mod_divisor(x: int, d: int, m: int)
    requires
        0 <= x,
        0 < d,
        0 < m,
        x % m == 0,
        m % d == 0,
    ensures
        x % d == 0,
{
    lemma_fundamental_div_mod(x, m);
    lemma_fundamental_div_mod(m, d);
    let qx = x / m;
    let qm = m / d;
    assert(x == (qx * qm) * d) by (nonlinear_arith)
        requires
            x == m * qx + x % m,
            x % m == 0,
            m == d * qm + m % d,
            m % d == 0,
    ;
    lemma_mod_multiples_basic(qx * qm, d);
}

} // verus!
