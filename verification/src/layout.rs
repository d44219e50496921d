//! Segment addressing arithmetic.
//!
//! Segment `s` holds `2^s` slots. Laid end to end, the segments number their
//! slots `0, 1, 2, ...`: segment `s` starts at linear index `2^s - 1`, which is
//! also the total capacity of the segments before it.

use vstd::arithmetic::logarithm::{lemma_log_is_ordered, lemma_log_nonnegative, lemma_log_s, log};
use vstd::arithmetic::power2::{
    lemma2_to64, lemma_pow2_pos, lemma_pow2_strictly_increases, lemma_pow2_unfold, pow2,
};
use vstd::bits::{lemma_usize_pow2_no_overflow, lemma_usize_shl_is_mul};
use vstd::prelude::*;

verus! {

/// The largest number of segments one array can own.
pub const MAX_SEGMENTS: usize = 32;

/// The largest number of elements one array can hold: `2^32 - 1`, the total
/// capacity of `MAX_SEGMENTS` segments.
pub const MAX_LEN: usize = 0xFFFF_FFFF;

/// Number of slots in segment `s`.
pub open spec fn segment_capacity(s: nat) -> nat {
    pow2(s)
}

/// Linear index of slot 0 of segment `s`; equally, the total capacity of
/// segments `0..s`.
pub open spec fn segment_start(s: nat) -> nat {
    (pow2(s) - 1) as nat
}

/// The segment that holds linear index `index`: `floor(log2(index + 1))`.
pub open spec fn segment_of(index: nat) -> nat {
    log(2, (index + 1) as int) as nat
}

/// The slot of linear index `index` inside its segment.
pub open spec fn slot_of(index: nat) -> nat {
    (index + 1 - pow2(segment_of(index))) as nat
}

/// `ceil(log2(x))` for `x >= 1`, and 0 for `x == 0`.
pub open spec fn ceil_log2(x: nat) -> nat {
    if x <= 1 {
        0
    } else {
        (log(2, x - 1) + 1) as nat
    }
}

/// The least number of segments whose total capacity is at least `n`.
pub open spec fn segments_needed(n: nat) -> nat {
    ceil_log2(n + 1)
}

/// The number of segments once an array that has `allocated` segments has
/// grown to hold `count` elements: segments are added when they are needed and
/// never given up.
pub open spec fn grown_to(allocated: nat, count: nat) -> nat {
    if segments_needed(count) <= allocated {
        allocated
    } else {
        segments_needed(count)
    }
}

/// The integer logarithm is bracketed by the powers of two around `x`.
pub proof fn lemma_log2_bounds(x: nat)
    requires
        x >= 1,
    ensures
        log(2, x as int) >= 0,
        pow2(log(2, x as int) as nat) <= x < pow2((log(2, x as int) + 1) as nat),
    decreases x,
{
    if x < 2 {
        reveal(log);
        lemma2_to64();
    } else {
        let h = (x / 2) as nat;
        lemma_log_s(2, x as int);
        lemma_log2_bounds(h);
        let l = log(2, h as int);
        lemma_pow2_unfold((l + 1) as nat);
        lemma_pow2_unfold((l + 2) as nat);
    }
}

/// Only one exponent brackets `x` between consecutive powers of two.
pub proof fn lemma_log2_unique(x: nat, k: nat)
    requires
        pow2(k) <= x < pow2(k + 1),
    ensures
        log(2, x as int) == k,
{
    lemma_pow2_pos(k);
    lemma_log2_bounds(x);
    let j = log(2, x as int) as nat;
    if j < k {
        if j + 1 < k {
            lemma_pow2_strictly_increases(j + 1, k);
        }
    } else if k < j {
        if k + 1 < j {
            lemma_pow2_strictly_increases(k + 1, j);
        }
    }
}

/// `ceil_log2(x)` is the least exponent whose power of two reaches `x`.
pub proof fn lemma_ceil_log2_bounds(x: nat)
    requires
        x >= 1,
    ensures
        x <= pow2(ceil_log2(x)),
        ceil_log2(x) > 0 ==> pow2((ceil_log2(x) - 1) as nat) < x,
{
    if x <= 1 {
        lemma2_to64();
    } else {
        lemma_log2_bounds((x - 1) as nat);
    }
}

/// The exponent `k` with `2^(k-1) < x <= 2^k` is `ceil_log2(x)`.
pub proof fn lemma_ceil_log2_unique(x: nat, k: nat)
    requires
        x >= 1,
        x <= pow2(k),
        k > 0 ==> pow2((k - 1) as nat) < x,
    ensures
        ceil_log2(x) == k,
{
    if x <= 1 {
        if k > 0 {
            lemma_pow2_pos((k - 1) as nat);
        }
    } else {
        if k == 0 {
            lemma2_to64();
        }
        lemma_log2_unique((x - 1) as nat, (k - 1) as nat);
    }
}

/// An index lies inside its segment: the segment starts at or before it and
/// the next segment starts after it.
pub proof fn lemma_segment_bounds(index: nat)
    ensures
        segment_start(segment_of(index)) <= index < segment_start(segment_of(index) + 1),
        slot_of(index) < segment_capacity(segment_of(index)),
        index == segment_start(segment_of(index)) + slot_of(index),
{
    lemma_log2_bounds(index + 1);
    lemma_pow2_unfold(segment_of(index) + 1);
}

/// Slot `k` of segment `s` is the home of exactly one linear index.
pub proof fn lemma_segment_unique(s: nat, k: nat)
    requires
        k < segment_capacity(s),
    ensures
        segment_of(segment_start(s) + k) == s,
        slot_of(segment_start(s) + k) == k,
{
    lemma_pow2_unfold(s + 1);
    lemma_log2_unique(segment_start(s) + k + 1, s);
}

/// Later indices never live in earlier segments.
pub proof fn lemma_segment_of_monotonic(i: nat, j: nat)
    requires
        i <= j,
    ensures
        segment_of(i) <= segment_of(j),
{
    lemma_log_is_ordered(2, (i + 1) as int, (j + 1) as int);
    lemma_log_nonnegative(2, (i + 1) as int);
}

/// An index below the total capacity of `n` segments lives in one of them,
/// and conversely.
pub proof fn lemma_segment_of_below(index: nat, n: nat)
    ensures
        index < segment_start(n) <==> segment_of(index) < n,
{
    lemma_segment_bounds(index);
    lemma_pow2_pos(n);
    let s = segment_of(index);
    if s < n {
        if s + 1 < n {
            lemma_pow2_strictly_increases(s + 1, n);
        }
        lemma_pow2_pos(s + 1);
    } else if n < s {
        lemma_pow2_strictly_increases(n, s);
    }
}

/// `n` elements need one segment more than the one holding the last element.
pub proof fn lemma_segments_needed(n: nat)
    ensures
        n == 0 ==> segments_needed(n) == 0,
        n > 0 ==> segments_needed(n) == segment_of((n - 1) as nat) + 1,
        forall|s: nat| n <= segment_start(s) <==> segments_needed(n) <= s,
{
    if n > 0 {
        lemma_log_nonnegative(2, n as int);
    }
    assert forall|s: nat| n <= segment_start(s) <==> segments_needed(n) <= s by {
        if n > 0 {
            lemma_segment_of_below((n - 1) as nat, s);
        }
    }
}

/// More elements never need fewer segments.
pub proof fn lemma_segments_needed_monotonic(m: nat, n: nat)
    requires
        m <= n,
    ensures
        segments_needed(m) <= segments_needed(n),
{
    lemma_segments_needed(m);
    lemma_segments_needed(n);
    if m > 0 {
        lemma_segment_of_monotonic((m - 1) as nat, (n - 1) as nat);
    }
}

/// Counting the indices upwards visits the slots of one segment in rising
/// order and then moves on to the next segment.
pub proof fn lemma_addresses_ordered(i: nat, j: nat)
    requires
        i < j,
    ensures
        segment_of(i) < segment_of(j) || {
            &&& segment_of(i) == segment_of(j)
            &&& slot_of(i) < slot_of(j)
        },
{
    lemma_segment_of_monotonic(i, j);
    lemma_segment_bounds(i);
}

/// The segment of an index that fits a `usize` has a number below the width
/// of `usize`.
pub(crate) proof fn lemma_index_fits(index: nat)
    requires
        index < usize::MAX,
    ensures
        segment_of(index) < usize::BITS,
{
    lemma2_to64();
    lemma_segment_of_below(index, usize::BITS as nat);
}

/// Powers of two up to `2^32`, as the exec code meets them.
pub(crate) proof fn lemma_pow2_32()
    ensures
        pow2(32) == 0x1_0000_0000,
        segment_start(32) == MAX_LEN,
{
    lemma2_to64();
}

/// `usize::ilog2` of std: the base 2 logarithm rounded down, so the result is
/// the exponent of the largest power of two that is at most `x`. std panics on
/// zero, which the precondition leaves out.
pub assume_specification[ usize::ilog2 ](x: usize) -> (r: u32)
    requires
        x > 0,
    ensures
        pow2(r as nat) <= x < pow2((r + 1) as nat),
;

/// Computes `2^s` by a shift.
pub fn pow2_usize(s: usize) -> (r: usize)
    requires
        s < usize::BITS,
    ensures
        r == pow2(s as nat),
{
    proof {
        lemma_usize_pow2_no_overflow(s as nat);
        lemma_usize_shl_is_mul(1, s);
    }
    1usize << s
}

/// The base 2 logarithm of `x`, rounded up.
pub fn ilog2_ceil(x: usize) -> (r: usize)
    requires
        x != 0,
    ensures
        r == ceil_log2(x as nat),
        r <= usize::BITS,
        x <= pow2(r as nat),
        r > 0 ==> pow2((r - 1) as nat) < x,
{
    let l2 = x.ilog2();
    proof {
        if l2 >= usize::BITS {
            lemma2_to64();
            if l2 > usize::BITS {
                lemma_pow2_strictly_increases(usize::BITS as nat, l2 as nat);
            }
        }
    }
    let floor = l2 as usize;
    let r = if pow2_usize(floor) == x {
        floor
    } else {
        floor + 1
    };
    proof {
        if r == floor && floor > 0 {
            lemma_pow2_strictly_increases((floor - 1) as nat, floor as nat);
        }
        lemma_ceil_log2_unique(x as nat, r as nat);
    }
    r
}

} // verus!
