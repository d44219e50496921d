//! The segmented array.

use crate::error::OutOfRange;
use crate::into_iter::SegArrayIntoIter;
use crate::laws::{step_taken, Step};
use crate::layout::{
    grown_to, ilog2_ceil, lemma_ceil_log2_unique, lemma_index_fits, lemma_log2_unique,
    lemma_pow2_32, lemma_segment_bounds, lemma_segment_of_below, lemma_segment_unique,
    lemma_segments_needed, pow2_usize, segment_capacity, segment_of, segment_start,
    segments_needed, slot_of, MAX_LEN, MAX_SEGMENTS,
};
use crate::storage::{
    alloc_seg, element_at, lemma_live_after_set, lemma_slot_set, live_between, shaped,
};
use core::ops::Index;
use vstd::arithmetic::power2::pow2;
use vstd::prelude::*;

verus! {

/// A growable array that keeps its elements in segments of 1, 2, 4, 8, ...
/// slots, up to `MAX_SEGMENTS` segments and `MAX_LEN` elements.
///
/// Growing allocates one more segment and leaves the others alone, so an
/// element is never moved once it has been appended. A slot is either empty or
/// holds one element; `lemma_slot_contents` says which. Segments are kept
/// until the array is dropped: `pop` frees none.
///
/// Dropping the array drops the elements it holds, each once, and frees the
/// segments. If a segment cannot be allocated the process ends, as it does for
/// a `Vec` that cannot grow.
///
/// The array is not synchronised: share it between threads only behind a lock.
#[derive(Debug)]
pub struct SegArray<T> {
    pub(crate) count: usize,
    pub(crate) segments: Vec<Vec<Option<T>>>,
}

impl<T> View for SegArray<T> {
    type V = Seq<T>;

    /// The elements, in the order in which they were appended.
    closed spec fn view(&self) -> Seq<T> {
        Seq::new(self.count as nat, |i: int| element_at(self.segments@, i as nat))
    }
}

impl<T> SegArray<T> {
    /// The representation invariant: every segment has its full size, the
    /// segments can hold `count` elements, and exactly the slots of the linear
    /// indices below `count` hold an element.
    pub closed spec fn wf(&self) -> bool {
        &&& shaped(self.segments@)
        &&& self.count <= segment_start(self.segments@.len())
        &&& live_between(self.segments@, 0, self.count as nat)
    }

    /// Number of segments that have been allocated.
    pub closed spec fn spec_allocated_segments(&self) -> usize {
        self.segments.len()
    }

    /// What slot `slot` of segment `segment` holds: an element, or nothing.
    pub closed spec fn slot(&self, segment: nat, slot: nat) -> Option<T> {
        self.segments@[segment as int]@[slot as int]
    }

    /// The element with linear index `i` sits in slot `slot_of(i)` of segment
    /// `segment_of(i)`, and the slots of the indices from the length on are
    /// empty. So an element keeps its slot for as long as it is in the array.
    pub proof fn lemma_slot_contents(&self, segment: nat, slot: nat)
        requires
            self.wf(),
            segment < self.allocated_segments(),
            slot < segment_capacity(segment),
        ensures
            self.slot(segment, slot) == if segment_start(segment) + slot < self@.len() {
                Some(self@[(segment_start(segment) + slot) as int])
            } else {
                None::<T>
            },
    {
        lemma_segment_unique(segment, slot);
    }

    /// The allocated segments can hold the elements, and neither exceeds its
    /// limit.
    pub proof fn lemma_segments_suffice(&self)
        requires
            self.wf(),
        ensures
            segments_needed(self@.len()) <= self.allocated_segments() <= MAX_SEGMENTS,
            self@.len() <= MAX_LEN,
    {
        lemma_segments_needed(self.count as nat);
        lemma_pow2_32();
    }

    /// Creates an empty array. Nothing is allocated until the first append.
    pub fn new() -> (array: Self)
        ensures
            array.wf(),
            array@ == Seq::<T>::empty(),
            array.allocated_segments() == 0,
    {
        SegArray { count: 0, segments: Vec::new() }
    }

    /// Number of elements in the array.
    pub fn len(&self) -> (n: usize)
        ensures
            n == self@.len(),
    {
        self.count
    }

    /// Whether the array holds no element.
    pub fn is_empty(&self) -> (empty: bool)
        ensures
            empty <==> self@.len() == 0,
    {
        self.count == 0
    }

    /// Number of segments that have been allocated.
    #[verifier::when_used_as_spec(spec_allocated_segments)]
    pub fn allocated_segments(&self) -> (n: usize)
        requires
            self.wf(),
        ensures
            n == self.spec_allocated_segments(),
            n <= MAX_SEGMENTS,
            segments_needed(self@.len()) <= n,
    {
        proof {
            lemma_segments_needed(self.count as nat);
        }
        self.segments.len()
    }

    /// The segment that holds linear index `index`: `floor(log2(index + 1))`.
    pub fn segment_index(index: usize) -> (segment: usize)
        requires
            index < usize::MAX,
        ensures
            segment == segment_of(index as nat),
            pow2(segment as nat) <= index + 1 < pow2((segment + 1) as nat),
            segment < usize::BITS,
    {
        let log = (index + 1).ilog2();
        proof {
            lemma_log2_unique((index + 1) as nat, log as nat);
            lemma_index_fits(index as nat);
        }
        log as usize
    }

    /// The slot of linear index `index` counted from the start of segment
    /// `segment_index`: `index + 1 - 2^segment_index`. The segment must start
    /// at or before `index`. For the segment that holds `index` this is the
    /// slot of `index` in it.
    pub fn segment_slot(index: usize, segment_index: usize) -> (slot: usize)
        requires
            index < usize::MAX,
            segment_index < usize::BITS,
            pow2(segment_index as nat) <= index + 1,
        ensures
            slot == index + 1 - pow2(segment_index as nat),
            segment_index == segment_of(index as nat) ==> slot == slot_of(index as nat) && slot
                < segment_capacity(segment_index as nat),
    {
        proof {
            lemma_segment_bounds(index as nat);
        }
        index + 1 - pow2_usize(segment_index)
    }

    /// The least number of segments that can hold `capacity` elements.
    pub fn segment_count_for_capacity(capacity: usize) -> (segments: usize)
        ensures
            segments == segments_needed(capacity as nat),
            segments <= usize::BITS,
    {
        if capacity == usize::MAX {
            proof {
                vstd::arithmetic::power2::lemma2_to64();
                vstd::arithmetic::power2::lemma2_to64_rest();
                lemma_ceil_log2_unique((capacity + 1) as nat, usize::BITS as nat);
            }
            usize::BITS as usize
        } else {
            ilog2_ceil(capacity + 1)
        }
    }

    /// Allocates the segments that are missing for `new_count` elements, each
    /// with all its slots at once. The elements stay where they are. If the
    /// array has room for `new_count` elements already, nothing happens.
    pub fn grow(&mut self, new_count: usize)
        requires
            old(self).wf(),
            new_count <= MAX_LEN,
        ensures
            final(self).wf(),
            final(self)@ == old(self)@,
            final(self).allocated_segments() == grown_to(
                old(self).allocated_segments() as nat,
                new_count as nat,
            ),
    {
        let new_segment_count = Self::segment_count_for_capacity(new_count);
        let old_segment_count = self.segments.len();
        if new_segment_count <= old_segment_count {
            return;
        }
        proof {
            lemma_pow2_32();
            lemma_segments_needed(new_count as nat);
        }
        let mut i = old_segment_count;
        while i < new_segment_count
            invariant
                old_segment_count == old(self).segments@.len(),
                old_segment_count <= i <= new_segment_count <= MAX_SEGMENTS,
                self.count == old(self).count,
                self.segments@.len() == i,
                shaped(self.segments@),
                self.count <= segment_start(old_segment_count as nat) <= segment_start(i as nat),
                live_between(self.segments@, 0, self.count as nat),
                forall|s: int|
                    0 <= s < old_segment_count ==> self.segments@[s] == old(self).segments@[s],
            decreases new_segment_count - i,
        {
            let segment = alloc_seg(pow2_usize(i));
            proof {
                vstd::arithmetic::power2::lemma_pow2_unfold((i + 1) as nat);
            }
            self.segments.push(segment);
            i += 1;
        }
        proof {
            assert forall|j: nat| j < self.count implies #[trigger] element_at(self.segments@, j)
                == element_at(old(self).segments@, j) by {
                lemma_segment_of_below(j, old_segment_count as nat);
            }
        }
    }

    /// Appends `value` behind the last element: grows the array by a segment
    /// if it is full, then puts `value` into the first empty slot. The array
    /// must hold fewer than `MAX_LEN` elements.
    pub fn append(&mut self, value: T)
        requires
            old(self).wf(),
            old(self)@.len() < MAX_LEN,
        ensures
            final(self).wf(),
            final(self)@ == old(self)@.push(value),
            final(self).allocated_segments() == grown_to(
                old(self).allocated_segments() as nat,
                old(self)@.len() + 1,
            ),
            step_taken(*old(self), *final(self), Step::Append(value)),
    {
        let new_count = self.count + 1;
        self.grow(new_count);
        proof {
            lemma_segments_needed(new_count as nat);
        }
        let ghost before = self.segments@;
        let seg_idx = Self::segment_index(self.count);
        let seg_slot = Self::segment_slot(self.count, seg_idx);
        self.segments[seg_idx][seg_slot] = Some(value);
        proof {
            lemma_slot_set(before, self.segments@, self.count as nat, Some(value));
            lemma_live_after_set(
                before,
                self.segments@,
                self.count as nat,
                Some(value),
                0,
                self.count as nat,
                0,
                new_count as nat,
            );
        }
        self.count = new_count;
        proof {
            assert(self@ =~= old(self)@.push(value));
        }
    }

    /// Removes the last element and returns it, or returns `None` if the array
    /// is empty. The segments stay allocated.
    pub fn pop(&mut self) -> (value: Option<T>)
        requires
            old(self).wf(),
        ensures
            final(self).wf(),
            final(self).allocated_segments() == old(self).allocated_segments(),
            old(self)@.len() == 0 ==> value is None && final(self)@ == old(self)@,
            old(self)@.len() > 0 ==> {
                &&& value == Some(old(self)@.last())
                &&& final(self)@ == old(self)@.drop_last()
            },
            step_taken(*old(self), *final(self), Step::Pop),
    {
        if self.count == 0 {
            return None;
        }
        let idx = self.count - 1;
        proof {
            lemma_segment_of_below(idx as nat, self.segments@.len());
        }
        let ghost before = self.segments@;
        let seg_idx = Self::segment_index(idx);
        let seg_slot = Self::segment_slot(idx, seg_idx);
        let res = self.segments[seg_idx][seg_slot].take();
        proof {
            lemma_slot_set(before, self.segments@, idx as nat, None);
            lemma_live_after_set(
                before,
                self.segments@,
                idx as nat,
                None,
                0,
                self.count as nat,
                0,
                idx as nat,
            );
        }
        self.count = idx;
        proof {
            assert(self@ =~= old(self)@.drop_last());
        }
        res
    }

    /// The element at `index`, or the error if `index` is not below the length.
    pub fn get(&self, index: usize) -> (r: Result<&T, OutOfRange>)
        requires
            self.wf(),
        ensures
            match r {
                Ok(element) => index < self@.len() && *element == self@[index as int],
                Err(e) => index >= self@.len() && e.index == index && e.len == self@.len(),
            },
    {
        if index >= self.count {
            return Err(OutOfRange { index, len: self.count });
        }
        Ok(&self[index])
    }

    /// Puts `value` in the place of the element at `index`, or returns the
    /// error and leaves the array as it is if `index` is not below the length.
    pub fn set(&mut self, index: usize, value: T) -> (r: Result<(), OutOfRange>)
        requires
            old(self).wf(),
        ensures
            final(self).wf(),
            final(self).allocated_segments() == old(self).allocated_segments(),
            match r {
                Ok(_) => {
                    &&& index < old(self)@.len()
                    &&& final(self)@ == old(self)@.update(index as int, value)
                },
                Err(e) => {
                    &&& index >= old(self)@.len()
                    &&& e.index == index
                    &&& e.len == old(self)@.len()
                    &&& final(self)@ == old(self)@
                },
            },
    {
        if index >= self.count {
            return Err(OutOfRange { index, len: self.count });
        }
        proof {
            lemma_segment_of_below(index as nat, self.segments@.len());
        }
        let ghost before = self.segments@;
        let seg_idx = Self::segment_index(index);
        let seg_slot = Self::segment_slot(index, seg_idx);
        self.segments[seg_idx][seg_slot] = Some(value);
        proof {
            lemma_slot_set(before, self.segments@, index as nat, Some(value));
            lemma_live_after_set(
                before,
                self.segments@,
                index as nat,
                Some(value),
                0,
                self.count as nat,
                0,
                self.count as nat,
            );
        }
        Ok(())
    }

    /// The element at `index`, which must be below the length, for writing.
    pub fn index_mut(&mut self, index: usize) -> (element: &mut T)
        requires
            old(self).wf(),
            index < old(self)@.len(),
        ensures
            *element == old(self)@[index as int],
            final(self).wf(),
            final(self).allocated_segments() == old(self).allocated_segments(),
            final(self)@ == old(self)@.update(index as int, *final(element)),
    {
        let seg_idx = Self::segment_index(index);
        let seg_slot = Self::segment_slot(index, seg_idx);
        proof {
            // Where each element lives: what is needed to see that the write
            // through the borrow changes one element of the view and no other.
            assert forall|j: nat| j < self.count implies {
                &&& j == segment_start(#[trigger] segment_of(j)) + slot_of(j)
                &&& segment_of(j) < self.segments@.len()
                &&& slot_of(j) < self.segments@[segment_of(j) as int]@.len()
            } by {
                lemma_segment_bounds(j);
                lemma_segment_of_below(j, self.segments@.len());
            }
        }
        self.segments[seg_idx][seg_slot].as_mut().unwrap()
    }

    /// Turns the array into an iterator that hands out its elements in order.
    /// The iterator takes over the segments.
    pub fn into_iter(self) -> (iter: SegArrayIntoIter<T>)
        requires
            self.wf(),
        ensures
            iter.wf(),
            iter@ == self@,
            iter.cursor() == 0,
            iter.allocated_segments() == self.allocated_segments(),
    {
        SegArrayIntoIter { idx: 0, count: self.count, segments: self.segments }
    }
}

impl<T> Default for SegArray<T> {
    /// The empty array.
    fn default() -> (array: Self)
        ensures
            array.wf(),
            array@ == Seq::<T>::empty(),
            array.allocated_segments() == 0,
    {
        Self::new()
    }
}

impl<T: Clone> Clone for SegArray<T> {
    /// An array of its own segments that holds a clone of each element, in
    /// the same order.
    fn clone(&self) -> (copy: Self)
        ensures
            self.wf() ==> copy.wf(),
            copy.allocated_segments() == self.allocated_segments(),
            copy@.len() == self@.len(),
            self.wf() ==> forall|i: int|
                0 <= i < self@.len() ==> cloned::<T>(#[trigger] self@[i], copy@[i]),
    {
        let copy = SegArray { count: self.count, segments: self.segments.clone() };
        proof {
            if self.wf() {
                assert forall|i: int| 0 <= i < self@.len() implies cloned::<T>(
                    #[trigger] self@[i],
                    copy@[i],
                ) by {
                    lemma_segment_of_below(i as nat, self.segments@.len());
                    lemma_segment_bounds(i as nat);
                }
            }
        }
        copy
    }
}

impl<T> vstd::std_specs::core::IndexSpecImpl<usize> for SegArray<T> {
    /// `array[index]` asks for a well-formed array and an index below its
    /// length.
    open spec fn index_req(&self, index: &usize) -> bool {
        self.wf() && *index < self@.len()
    }
}

impl<T> Index<usize> for SegArray<T> {
    type Output = T;

    /// The element at `index`, which must be below the length.
    fn index(&self, index: usize) -> (element: &T)
        ensures
            *element == self@[index as int],
    {
        proof {
            lemma_segment_of_below(index as nat, self.segments@.len());
        }
        let seg_idx = Self::segment_index(index);
        let seg_slot = Self::segment_slot(index, seg_idx);
        self.segments[seg_idx][seg_slot].as_ref().unwrap()
    }
}

} // verus!
