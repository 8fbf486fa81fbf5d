//! Pure bit and alignment utilities: power-of-two tests, alignment
//! rounding, word-bitmap access and thread work-range partitioning.

use vstd::prelude::*;
use vstd::arithmetic::div_mod::{lemma_fundamental_div_mod, lemma_mod_multiples_basic};
use vstd::arithmetic::mul::{lemma_mul_is_distributive_add_other_way, lemma_mul_inequality};

verus! {

/// A positive number that is a power of two.
pub open spec fn is_pow2(n: nat) -> bool
    decreases n,
{
    if n == 0 {
        false
    } else if n == 1 {
        true
    } else {
        n % 2 == 0 && is_pow2(n / 2)
    }
}

/// The smallest multiple of `align` that is at least `value`.
pub open spec fn spec_align_up(value: int, align: int) -> int {
    if value % align == 0 {
        value
    } else {
        value + align - value % align
    }
}

/// The largest multiple of `align` that is at most `value`.
pub open spec fn spec_align_down(value: int, align: int) -> int {
    value - value % align
}

/// Whether `n` is a power of two (and in particular positive).
pub fn is_power_of_two(n: usize) -> (r: bool)
    ensures
        r == is_pow2(n as nat),
{
    if n == 0 {
        return false;
    }
    let mut v: usize = n;
    while v > 1
        invariant
            v >= 1,
            is_pow2(n as nat) == is_pow2(v as nat),
        decreases v,
    {
        if v % 2 == 1 {
            return false;
        }
        v = v / 2;
    }
    true
}

/// Rounds `value` up to the next multiple of `align`.
pub fn align_up(value: usize, align: usize) -> (r: usize)
    requires
        align >= 1,
        value + align <= usize::MAX,
    ensures
        r == spec_align_up(value as int, align as int),
        r % align == 0,
        value <= r < value + align,
{
    let rem: usize = value % align;
    if rem == 0 {
        value
    } else {
        proof {
            lemma_fundamental_div_mod(value as int, align as int);
            let q = value as int / align as int;
            assert((value + align - rem) as int == (q + 1) * align as int) by (nonlinear_arith)
                requires
                    value as int == align as int * q + rem as int,
                    align >= 1,
                    rem < align,
            ;
            lemma_mod_multiples_basic(q + 1, align as int);
        }
        value + (align - rem)
    }
}

/// Rounds `value` down to the previous multiple of `align`.
pub fn align_down(value: usize, align: usize) -> (r: usize)
    requires
        align >= 1,
    ensures
        r == spec_align_down(value as int, align as int),
        r % align == 0,
        r <= value < r + align,
{
    let rem: usize = value % align;
    proof {
        lemma_fundamental_div_mod(value as int, align as int);
        let q = value as int / align as int;
        assert((value - rem) as int == q * align as int) by (nonlinear_arith)
            requires
                value as int == align as int * q + rem as int,
        ;
        lemma_mod_multiples_basic(q, align as int);
    }
    value - rem
}

/// How many records of `record_size` bytes fit in one SIMD vector of
/// `vector_width` bytes; at least one lane is always reported, so the
/// scalar path remains a valid special case.
pub fn simd_lane_count(record_size: usize, vector_width: usize) -> (r: usize)
    requires
        record_size >= 1,
    ensures
        r as int == if vector_width as int / record_size as int >= 1 {
            vector_width as int / record_size as int
        } else {
            1int
        },
        r >= 1,
{
    let lanes: usize = vector_width / record_size;
    if lanes >= 1 {
        lanes
    } else {
        1
    }
}

/// Whether bit `bit` of `word` is set.
pub open spec fn bit_of(word: u64, bit: u64) -> bool {
    (word >> bit) & 1 == 1
}

/// Whether bit `i` of the bitmap held in `words` is set; bit `i` lives
/// in word `i / 64` at position `i % 64`.
pub open spec fn bitmap_bit(words: Seq<u64>, i: int) -> bool {
    bit_of(words[i / 64], (i % 64) as u64)
}

/// Reads bit `i` of the bitmap.
pub fn bitmap_test(words: &Vec<u64>, i: usize) -> (r: bool)
    requires
        i / 64 < words.len(),
    ensures
        r == bitmap_bit(words@, i as int),
{
    let word: u64 = words[i / 64];
    (word >> ((i % 64) as u64)) & 1 == 1
}

/// Sets bit `i` of the bitmap, leaving every other bit as it was.
pub fn bitmap_set(words: &mut Vec<u64>, i: usize)
    requires
        i / 64 < old(words).len(),
    ensures
        final(words)@.len() == old(words)@.len(),
        bitmap_bit(final(words)@, i as int),
        forall|j: int|
            0 <= j < old(words)@.len() * 64 && j != i ==> bitmap_bit(final(words)@, j)
                == bitmap_bit(old(words)@, j),
{
    let w: usize = i / 64;
    let b: u64 = (i % 64) as u64;
    let word: u64 = words[w];
    let updated: u64 = word | (1u64 << b);
    words[w] = updated;
    proof {
        assert(bit_of(updated, b)) by (bit_vector)
            requires
                updated == word | (1u64 << b),
                b < 64,
        ;
        assert forall|c: u64| c < 64 && c != b implies bit_of(updated, c) == bit_of(word, c) by {
            assert((updated >> c) & 1 == (word >> c) & 1) by (bit_vector)
                requires
                    updated == word | (1u64 << b),
                    b < 64,
                    c < 64,
                    c != b,
            ;
        }
        assert forall|j: int|
            0 <= j < old(words)@.len() * 64 && j != i implies bitmap_bit(final(words)@, j)
            == bitmap_bit(old(words)@, j) by {
            lemma_bit_position_bounds(old(words)@.len() as int, j);
            if j / 64 == w as int {
                assert((j % 64) as u64 != b || j == i) by {
                    lemma_fundamental_div_mod(j, 64);
                    lemma_fundamental_div_mod(i as int, 64);
                }
            }
        }
        lemma_bit_position_bounds(old(words)@.len() as int, i as int);
    }
}

/// Clears bit `i` of the bitmap, leaving every other bit as it was.
pub fn bitmap_clear(words: &mut Vec<u64>, i: usize)
    requires
        i / 64 < old(words).len(),
    ensures
        final(words)@.len() == old(words)@.len(),
        !bitmap_bit(final(words)@, i as int),
        forall|j: int|
            0 <= j < old(words)@.len() * 64 && j != i ==> bitmap_bit(final(words)@, j)
                == bitmap_bit(old(words)@, j),
{
    let w: usize = i / 64;
    let b: u64 = (i % 64) as u64;
    let word: u64 = words[w];
    let updated: u64 = word & !(1u64 << b);
    words[w] = updated;
    proof {
        assert(!bit_of(updated, b)) by (bit_vector)
            requires
                updated == word & !(1u64 << b),
                b < 64,
        ;
        assert forall|c: u64| c < 64 && c != b implies bit_of(updated, c) == bit_of(word, c) by {
            assert((updated >> c) & 1 == (word >> c) & 1) by (bit_vector)
                requires
                    updated == word & !(1u64 << b),
                    b < 64,
                    c < 64,
                    c != b,
            ;
        }
        assert forall|j: int|
            0 <= j < old(words)@.len() * 64 && j != i implies bitmap_bit(final(words)@, j)
            == bitmap_bit(old(words)@, j) by {
            lemma_bit_position_bounds(old(words)@.len() as int, j);
            if j / 64 == w as int {
                assert((j % 64) as u64 != b || j == i) by {
                    lemma_fundamental_div_mod(j, 64);
                    lemma_fundamental_div_mod(i as int, 64);
                }
            }
        }
        lemma_bit_position_bounds(old(words)@.len() as int, i as int);
    }
}

/// A bit position below `words_len * 64` lies in a word below
/// `words_len`, at a bit offset below 64.
pub proof fn lemma_bit_position_bounds(words_len: int, j: int)
    requires
        0 <= j < words_len * 64,
    ensures
        0 <= j / 64 < words_len,
        0 <= j % 64 < 64,
{
    lemma_fundamental_div_mod(j, 64);
    assert(j / 64 < words_len) by (nonlinear_arith)
        requires
            j < words_len * 64,
            0 <= j,
    ;
}

/// Start of the half-open work range of thread `thread_id` when
/// `item_count` items are split over `thread_count` threads: each
/// thread gets `item_count / thread_count` items, and the first
/// `item_count % thread_count` threads one extra.
pub open spec fn thread_range_start(thread_id: int, thread_count: int, item_count: int) -> int {
    thread_id * (item_count / thread_count) + vstd::math::min(
        thread_id,
        item_count % thread_count,
    )
}

/// End of the half-open work range of thread `thread_id`: the start of
/// the next thread's range.
pub open spec fn thread_range_end(thread_id: int, thread_count: int, item_count: int) -> int {
    thread_range_start(thread_id + 1, thread_count, item_count)
}

/// Consecutive range starts differ by the base share plus at most one.
proof fn lemma_thread_range_step(thread_id: int, thread_count: int, item_count: int)
    requires
        thread_count >= 1,
        item_count >= 0,
        0 <= thread_id,
    ensures
        thread_range_start(thread_id + 1, thread_count, item_count) == thread_range_start(
            thread_id,
            thread_count,
            item_count,
        ) + item_count / thread_count + if thread_id < item_count % thread_count {
            1int
        } else {
            0int
        },
{
    let base = item_count / thread_count;
    lemma_mul_is_distributive_add_other_way(base, thread_id, 1);
    assert((thread_id + 1) * base == thread_id * base + base);
}

/// Every range start up to `thread_count` lies at or below `item_count`.
proof fn lemma_thread_range_start_bound(thread_id: int, thread_count: int, item_count: int)
    requires
        thread_count >= 1,
        item_count >= 0,
        0 <= thread_id <= thread_count,
    ensures
        0 <= thread_range_start(thread_id, thread_count, item_count) <= item_count,
        thread_id == thread_count ==> thread_range_start(thread_id, thread_count, item_count)
            == item_count,
        thread_id == 0 ==> thread_range_start(thread_id, thread_count, item_count) == 0,
    decreases thread_count - thread_id,
{
    let base = item_count / thread_count;
    let rem = item_count % thread_count;
    lemma_fundamental_div_mod(item_count, thread_count);
    if thread_id == thread_count {
        assert(thread_count * base == base * thread_count) by (nonlinear_arith);
        assert(rem <= thread_count == thread_count);
        assert(thread_range_start(thread_id, thread_count, item_count) == thread_count * base
            + rem);
    } else {
        lemma_thread_range_start_bound(thread_id + 1, thread_count, item_count);
        lemma_thread_range_step(thread_id, thread_count, item_count);
        assert(thread_id * base >= 0) by (nonlinear_arith)
            requires
                thread_id >= 0,
                base >= 0,
        ;
        if thread_id == 0 {
            assert(0 * base == 0);
        }
    }
}

/// Computes the half-open work range `[start, end)` of one thread:
/// ranges of consecutive threads are adjacent, thread 0 starts at 0,
/// the last thread ends at `item_count`, and all ranges differ in
/// length by at most one item.
pub fn thread_range(thread_id: usize, thread_count: usize, item_count: usize) -> (r: (
    usize,
    usize,
))
    requires
        thread_count >= 1,
        thread_id < thread_count,
    ensures
        r.0 == thread_range_start(thread_id as int, thread_count as int, item_count as int),
        r.1 == thread_range_end(thread_id as int, thread_count as int, item_count as int),
        r.0 <= r.1 <= item_count,
{
    let base: usize = item_count / thread_count;
    let rem: usize = item_count % thread_count;
    proof {
        lemma_thread_range_start_bound(thread_id as int, thread_count as int, item_count as int);
        lemma_thread_range_start_bound(
            thread_id as int + 1,
            thread_count as int,
            item_count as int,
        );
        lemma_thread_range_step(thread_id as int, thread_count as int, item_count as int);
        lemma_mul_inequality(thread_id as int, thread_count as int, base as int);
    }
    let start: usize = thread_id * base + if thread_id < rem {
        thread_id
    } else {
        rem
    };
    let end: usize = start + base + if thread_id < rem {
        1
    } else {
        0
    };
    (start, end)
}

/// Law: for any thread count and item count, the per-thread ranges
/// exactly tile `[0, item_count)` — thread 0 starts at 0, each next
/// range begins where the previous one ends, the last range ends at
/// `item_count` — and any two ranges differ in length by at most one.
pub proof fn lemma_thread_ranges_partition(thread_count: int, item_count: int)
    requires
        thread_count >= 1,
        item_count >= 0,
    ensures
        thread_range_start(0, thread_count, item_count) == 0,
        thread_range_end(thread_count - 1, thread_count, item_count) == item_count,
        forall|t: int|
            0 <= t < thread_count - 1 ==> thread_range_end(t, thread_count, item_count)
                == thread_range_start(t + 1, thread_count, item_count),
        forall|t: int|
            0 <= t < thread_count ==> thread_range_start(t, thread_count, item_count)
                <= thread_range_end(t, thread_count, item_count),
        forall|t: int, u: int|
            0 <= t < thread_count && 0 <= u < thread_count ==> (thread_range_end(
                t,
                thread_count,
                item_count,
            ) - thread_range_start(t, thread_count, item_count)) - (thread_range_end(
                u,
                thread_count,
                item_count,
            ) - thread_range_start(u, thread_count, item_count)) <= 1,
{
    lemma_thread_range_start_bound(0, thread_count, item_count);
    lemma_thread_range_start_bound(thread_count, thread_count, item_count);
    assert forall|t: int| 0 <= t < thread_count implies thread_range_start(
        t,
        thread_count,
        item_count,
    ) <= thread_range_end(t, thread_count, item_count) && thread_range_end(
        t,
        thread_count,
        item_count,
    ) - thread_range_start(t, thread_count, item_count) == item_count / thread_count + if t
        < item_count % thread_count {
        1int
    } else {
        0int
    } by {
        lemma_thread_range_step(t, thread_count, item_count);
    }
}

} // verus!
