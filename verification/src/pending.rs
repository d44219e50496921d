//! Which slots still hold an element once a prefix of the array has been moved
//! out.
//!
//! The elements with linear indices `cursor..count` occupy one run of slots in
//! each segment they touch: the tail of the segment that holds `cursor`, every
//! slot of the segments in between, and the head of the segment that holds
//! `count - 1`.

use crate::layout::{
    lemma_segment_of_below, lemma_segment_of_monotonic, segment_capacity, segment_of,
    segment_start,
};
use vstd::arithmetic::power2::{lemma_pow2_pos, lemma_pow2_unfold};
use vstd::prelude::*;

verus! {

/// Number of segments that hold an element with a linear index in
/// `cursor..count`.
pub open spec fn pending_segments(cursor: nat, count: nat) -> nat {
    if cursor >= count {
        0
    } else {
        (segment_of((count - 1) as nat) - segment_of(cursor) + 1) as nat
    }
}

/// First slot of segment `s` whose linear index is `cursor` or later.
pub open spec fn pending_offset(cursor: nat, s: nat) -> nat {
    if cursor > segment_start(s) {
        (cursor - segment_start(s)) as nat
    } else {
        0
    }
}

/// One past the last slot of segment `s` whose linear index is below `count`.
pub open spec fn pending_end(count: nat, s: nat) -> nat {
    if count <= segment_start(s) {
        0
    } else if count < segment_start(s + 1) {
        (count - segment_start(s)) as nat
    } else {
        segment_capacity(s)
    }
}

/// Whether slot `k` of segment `s` lies in the run of that segment.
pub open spec fn in_pending_run(cursor: nat, count: nat, s: nat, k: nat) -> bool {
    pending_offset(cursor, s) <= k < pending_end(count, s)
}

/// Whether `ranges` lists the slots of the linear indices `cursor..count` as
/// (segment, offset, length): one entry for each segment from the one that
/// holds `cursor` to the one that holds `count - 1`, in rising order, with the
/// run of that segment.
pub open spec fn is_pending_list(
    ranges: Seq<(usize, usize, usize)>,
    cursor: nat,
    count: nat,
) -> bool {
    &&& ranges.len() == pending_segments(cursor, count)
    &&& forall|i: int|
        0 <= i < ranges.len() ==> {
            let s = segment_of(cursor) + i;
            &&& (#[trigger] ranges[i]).0 == s
            &&& ranges[i].1 == pending_offset(cursor, s as nat)
            &&& ranges[i].1 + ranges[i].2 == pending_end(count, s as nat)
        }
}

/// Where `cursor` and the last index below `count` lie with respect to
/// segment `s`.
pub(crate) proof fn lemma_around_segment(cursor: nat, count: nat, s: nat)
    ensures
        cursor < segment_start(s) <==> segment_of(cursor) < s,
        cursor < segment_start(s + 1) <==> segment_of(cursor) <= s,
        count > 0 ==> (count <= segment_start(s) <==> segment_of((count - 1) as nat) < s),
        count > 0 ==> (count <= segment_start(s + 1) <==> segment_of((count - 1) as nat) <= s),
        segment_start(s) + segment_capacity(s) == segment_start(s + 1),
        segment_capacity(s) > 0,
        cursor < count ==> segment_of(cursor) <= segment_of((count - 1) as nat),
{
    lemma_pow2_pos(s);
    lemma_pow2_unfold(s + 1);
    lemma_segment_of_below(cursor, s);
    lemma_segment_of_below(cursor, s + 1);
    if count > 0 {
        lemma_segment_of_below((count - 1) as nat, s);
        lemma_segment_of_below((count - 1) as nat, s + 1);
    }
    if cursor < count {
        lemma_segment_of_monotonic(cursor, (count - 1) as nat);
    }
}

/// A slot has a linear index in `cursor..count` exactly if it lies in the run
/// of its segment.
pub proof fn lemma_pending_covers(cursor: nat, count: nat, s: nat, k: nat)
    requires
        k < segment_capacity(s),
    ensures
        in_pending_run(cursor, count, s, k) <==> cursor <= segment_start(s) + k < count,
{
    lemma_around_segment(cursor, count, s);
}

/// A run stays inside its segment, and it is not empty exactly in the
/// segments from the one that holds `cursor` to the one that holds
/// `count - 1`.
pub proof fn lemma_pending_runs(cursor: nat, count: nat, s: nat)
    ensures
        pending_end(count, s) <= segment_capacity(s),
        pending_offset(cursor, s) < pending_end(count, s) <==> {
            &&& segment_of(cursor) <= s
            &&& s < segment_of(cursor) + pending_segments(cursor, count)
        },
{
    lemma_around_segment(cursor, count, s);
}

} // verus!
