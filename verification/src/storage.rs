//! What the segments of an array hold, slot by slot.
//!
//! A segment is a vector of `2^s` slots, each either empty or holding one
//! element. It gets its full length when it is allocated and never changes it,
//! so an element stays where it was written until it is taken out.

use crate::layout::{
    lemma_segment_bounds, lemma_segment_of_below, lemma_segment_unique, segment_capacity,
    segment_of, segment_start, slot_of, MAX_SEGMENTS,
};
use vstd::prelude::*;

verus! {

/// Segment `s` has `2^s` slots, and there are at most `MAX_SEGMENTS` segments.
pub open spec fn shaped<T>(segments: Seq<Vec<Option<T>>>) -> bool {
    &&& segments.len() <= MAX_SEGMENTS
    &&& forall|s: int|
        0 <= s < segments.len() ==> (#[trigger] segments[s])@.len() == segment_capacity(s as nat)
}

/// The slots that hold an element are exactly those of the linear indices
/// `lo..hi`.
pub open spec fn live_between<T>(segments: Seq<Vec<Option<T>>>, lo: nat, hi: nat) -> bool {
    forall|s: int, k: int|
        0 <= s < segments.len() && 0 <= k < segments[s]@.len() ==> ((#[trigger] segments[s]@[k])
            is Some <==> lo <= segment_start(s as nat) + k < hi)
}

/// The element stored at linear index `index`.
pub open spec fn element_at<T>(segments: Seq<Vec<Option<T>>>, index: nat) -> T {
    segments[segment_of(index) as int]@[slot_of(index) as int].unwrap()
}

/// `after` is `before` with the slot of linear index `index` set to `content`
/// and every other slot left as it was.
pub open spec fn slot_set<T>(
    before: Seq<Vec<Option<T>>>,
    after: Seq<Vec<Option<T>>>,
    index: nat,
    content: Option<T>,
) -> bool {
    &&& after.len() == before.len()
    &&& after[segment_of(index) as int]@ == before[segment_of(index) as int]@.update(
        slot_of(index) as int,
        content,
    )
    &&& forall|s: int|
        0 <= s < before.len() && s != segment_of(index) ==> #[trigger] after[s] == before[s]
}

/// Setting the slot of one index changes the element of that index and of no
/// other.
pub proof fn lemma_slot_set<T>(
    before: Seq<Vec<Option<T>>>,
    after: Seq<Vec<Option<T>>>,
    index: nat,
    content: Option<T>,
)
    requires
        shaped(before),
        index < segment_start(before.len()),
        slot_set(before, after, index, content),
    ensures
        shaped(after),
        after[segment_of(index) as int]@[slot_of(index) as int] == content,
        forall|j: nat|
            j < segment_start(before.len()) && j != index ==> #[trigger] element_at(after, j)
                == element_at(before, j),
{
    lemma_segment_of_below(index, before.len());
    lemma_segment_bounds(index);
    assert forall|j: nat|
        j < segment_start(before.len()) && j != index implies #[trigger] element_at(after, j)
        == element_at(before, j) by {
        lemma_segment_of_below(j, before.len());
        lemma_segment_bounds(j);
    }
}

/// What a change to one slot does to the range of live indices: filling the
/// slot just behind the range extends it by one, emptying the slot at either
/// end shortens it by one, and putting another element into a live slot keeps
/// it.
pub proof fn lemma_live_after_set<T>(
    before: Seq<Vec<Option<T>>>,
    after: Seq<Vec<Option<T>>>,
    index: nat,
    content: Option<T>,
    lo: nat,
    hi: nat,
    new_lo: nat,
    new_hi: nat,
)
    requires
        shaped(before),
        index < segment_start(before.len()),
        live_between(before, lo, hi),
        slot_set(before, after, index, content),
        content is Some <==> new_lo <= index < new_hi,
        new_lo == lo || (new_lo == lo + 1 && index == lo),
        new_hi == hi || (new_hi == hi + 1 && index == hi) || (new_hi + 1 == hi && index == new_hi),
    ensures
        live_between(after, new_lo, new_hi),
{
    lemma_segment_bounds(index);
    assert forall|s: int, k: int| 0 <= s < after.len() && 0 <= k < after[s]@.len() implies ((
    #[trigger] after[s]@[k]) is Some <==> new_lo <= segment_start(s as nat) + k < new_hi) by {
        if segment_start(s as nat) + k == index {
            lemma_segment_unique(s as nat, k as nat);
        }
    }
}

/// Allocates a segment of `len` empty slots.
pub fn alloc_seg<T>(len: usize) -> (segment: Vec<Option<T>>)
    ensures
        segment@.len() == len,
        forall|k: int| 0 <= k < len ==> segment@[k] is None,
{
    let mut segment: Vec<Option<T>> = Vec::with_capacity(len);
    let mut k: usize = 0;
    while k < len
        invariant
            k <= len,
            segment@.len() == k,
            forall|j: int| 0 <= j < k ==> segment@[j] is None,
        decreases len - k,
    {
        segment.push(None);
        k += 1;
    }
    segment
}

} // verus!
