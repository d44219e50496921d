//! Consuming iteration over a segmented array.

use crate::array::SegArray;
use crate::laws::next_taken;
use crate::layout::{
    lemma_segment_bounds, lemma_segment_of_below, lemma_segment_of_monotonic,
    lemma_segment_unique, pow2_usize, segment_capacity, segment_of, segment_start, slot_of,
};
use crate::pending::{
    in_pending_run, is_pending_list, lemma_around_segment, lemma_pending_covers, pending_end,
    pending_offset, pending_segments,
};
use crate::storage::{element_at, lemma_live_after_set, lemma_slot_set, live_between, shaped};
use vstd::prelude::*;

verus! {

/// The elements of a `SegArray`, handed out one by one in the order in which
/// they were appended.
///
/// The iterator owns the segments of the array it was made from. An element
/// that it has handed out belongs to the caller and has left its slot empty.
/// Dropping the iterator drops the elements that it has not handed out, each
/// once, and frees the segments; `elements_pending_destruction` lists their
/// slots.
pub struct SegArrayIntoIter<T> {
    pub(crate) idx: usize,
    pub(crate) count: usize,
    pub(crate) segments: Vec<Vec<Option<T>>>,
}

impl<T> View for SegArrayIntoIter<T> {
    type V = Seq<T>;

    /// The elements that have not been handed out yet, in order.
    open(crate) spec fn view(&self) -> Seq<T> {
        Seq::new(
            (self.count - self.idx) as nat,
            |i: int| element_at(self.segments@, (self.idx + i) as nat),
        )
    }
}

impl<T> SegArrayIntoIter<T> {
    /// The representation invariant: the segments are those of a well-formed
    /// array of `count` elements, and exactly the slots of the linear indices
    /// from the cursor up to `count` still hold an element.
    pub open(crate) spec fn wf(&self) -> bool {
        &&& shaped(self.segments@)
        &&& self.idx <= self.count <= segment_start(self.segments@.len())
        &&& live_between(self.segments@, self.idx as nat, self.count as nat)
    }

    /// The cursor: how many elements have been handed out.
    pub open(crate) spec fn cursor(&self) -> nat {
        self.idx as nat
    }

    /// Number of segments that the iterator owns.
    pub open(crate) spec fn allocated_segments(&self) -> nat {
        self.segments@.len()
    }

    /// What slot `slot` of segment `segment` holds: an element, or nothing.
    pub open(crate) spec fn slot(&self, segment: nat, slot: nat) -> Option<T> {
        self.segments@[segment as int]@[slot as int]
    }

    /// The slots of the elements that have not been handed out hold them, and
    /// every other slot is empty. Dropping the iterator therefore drops the
    /// remaining elements, each once, and no element that was handed out.
    pub proof fn lemma_slot_contents(&self, segment: nat, slot: nat)
        requires
            self.wf(),
            segment < self.allocated_segments(),
            slot < segment_capacity(segment),
        ensures
            self.slot(segment, slot) == if self.cursor() <= segment_start(segment) + slot
                < self.cursor() + self@.len() {
                Some(self@[segment_start(segment) + slot - self.cursor()])
            } else {
                None::<T>
            },
    {
        lemma_segment_unique(segment, slot);
    }

    /// The slots that hold an element are those of the runs that
    /// `elements_pending_destruction` lists for the cursor and the length of
    /// the array: the list names what the iterator still owns.
    pub proof fn lemma_pending_slots_are_held(&self, segment: nat, slot: nat)
        requires
            self.wf(),
            segment < self.allocated_segments(),
            slot < segment_capacity(segment),
        ensures
            self.slot(segment, slot) is Some <==> in_pending_run(
                self.cursor(),
                self.cursor() + self@.len(),
                segment,
                slot,
            ),
    {
        self.lemma_slot_contents(segment, slot);
        lemma_pending_covers(self.cursor(), self.cursor() + self@.len(), segment, slot);
    }

    /// Moves the element at the cursor out of its slot and advances the
    /// cursor. `segment` and `slot` are the address of the cursor.
    fn take_at(&mut self, segment: usize, slot: usize) -> (item: T)
        requires
            old(self).wf(),
            old(self).idx < old(self).count,
            segment == segment_of(old(self).idx as nat),
            slot == slot_of(old(self).idx as nat),
        ensures
            final(self).wf(),
            item == old(self)@.first(),
            final(self)@ == old(self)@.skip(1),
            final(self).idx == old(self).idx + 1,
            final(self).count == old(self).count,
            final(self).segments@.len() == old(self).segments@.len(),
    {
        proof {
            lemma_segment_of_below(self.idx as nat, self.segments@.len());
            lemma_segment_bounds(self.idx as nat);
        }
        let ghost before = self.segments@;
        let item = self.segments[segment][slot].take();
        proof {
            lemma_slot_set(before, self.segments@, self.idx as nat, None);
            lemma_live_after_set(
                before,
                self.segments@,
                self.idx as nat,
                None,
                self.idx as nat,
                self.count as nat,
                (self.idx + 1) as nat,
                self.count as nat,
            );
        }
        self.idx += 1;
        proof {
            assert(self@ =~= old(self)@.skip(1));
        }
        item.unwrap()
    }

    /// Hands out the next element, or `None` once every element has been
    /// handed out.
    pub fn next(&mut self) -> (item: Option<T>)
        requires
            old(self).wf(),
        ensures
            final(self).wf(),
            final(self).allocated_segments() == old(self).allocated_segments(),
            old(self)@.len() == 0 ==> {
                &&& item is None
                &&& final(self)@ == old(self)@
                &&& final(self).cursor() == old(self).cursor()
            },
            old(self)@.len() > 0 ==> {
                &&& item == Some(old(self)@.first())
                &&& final(self)@ == old(self)@.skip(1)
                &&& final(self).cursor() == old(self).cursor() + 1
            },
            next_taken(*old(self), *final(self), item),
    {
        if self.idx == self.count {
            None
        } else {
            let seg_idx = SegArray::<T>::segment_index(self.idx);
            let seg_slot = SegArray::<T>::segment_slot(self.idx, seg_idx);
            Some(self.take_at(seg_idx, seg_slot))
        }
    }

    /// Number of elements that have not been handed out yet.
    pub fn len(&self) -> (n: usize)
        requires
            self.wf(),
        ensures
            n == self@.len(),
    {
        self.count - self.idx
    }

    /// The slots that still hold an element, as `elements_pending_destruction`
    /// lists them: what is dropped if the iterator is dropped now.
    pub fn pending(&self) -> (ranges: Vec<(usize, usize, usize)>)
        requires
            self.wf(),
        ensures
            is_pending_list(ranges@, self.cursor(), self.cursor() + self@.len()),
    {
        Self::elements_pending_destruction(self.idx, self.count)
    }

    /// Hands out all the remaining elements at once, in order.
    ///
    /// Walks the pending runs segment by segment, which spares the logarithm
    /// that `next` computes for each element.
    pub fn collect(self) -> (items: Vec<T>)
        requires
            self.wf(),
        ensures
            items@ == self@,
    {
        let mut rest = self;
        let count = rest.count;
        let ghost all = rest@;
        let ghost start = rest.idx as nat;
        let ranges = Self::elements_pending_destruction(rest.idx, count);
        let mut items: Vec<T> = Vec::new();
        let mut r: usize = 0;
        proof {
            lemma_segment_bounds(start);
            lemma_around_segment(start, count as nat, 0);
        }
        while r < ranges.len()
            invariant
                rest.wf(),
                rest.count == count,
                r <= ranges@.len(),
                is_pending_list(ranges@, start, count as nat),
                r < ranges@.len() ==> rest.idx == segment_start(ranges@[r as int].0 as nat)
                    + ranges@[r as int].1,
                r == ranges@.len() ==> rest.idx == count,
                items@ + rest@ == all,
            decreases ranges@.len() - r,
        {
            let (segment, offset, len) = ranges[r];
            proof {
                lemma_around_segment(start, count as nat, segment as nat);
            }
            let mut k = offset;
            while k < offset + len
                invariant
                    rest.wf(),
                    rest.count == count,
                    offset <= k <= offset + len == pending_end(count as nat, segment as nat)
                        <= segment_capacity(segment as nat),
                    rest.idx == segment_start(segment as nat) + k,
                    items@ + rest@ == all,
                decreases offset + len - k,
            {
                proof {
                    lemma_segment_unique(segment as nat, k as nat);
                    lemma_pending_covers(
                        rest.idx as nat,
                        count as nat,
                        segment as nat,
                        k as nat,
                    );
                }
                let item = rest.take_at(segment, k);
                items.push(item);
                k += 1;
            }
            r += 1;
        }
        items
    }

    /// Lists the slots that hold the elements with linear indices
    /// `cursor..count`, as (segment, offset, length), one entry for each
    /// segment that holds any, in rising order. These are the elements that
    /// are still to be destroyed when the elements before `cursor` have been
    /// moved out.
    pub fn elements_pending_destruction(cursor: usize, count: usize) -> (ranges: Vec<
        (usize, usize, usize),
    >)
        ensures
            is_pending_list(ranges@, cursor as nat, count as nat),
    {
        let mut ranges: Vec<(usize, usize, usize)> = Vec::new();
        let mut next = cursor;
        proof {
            if cursor < count {
                lemma_segment_of_monotonic(cursor as nat, (count - 1) as nat);
            }
        }
        while next < count
            invariant
                ranges@.len() == 0 ==> next == cursor,
                ranges@.len() > 0 ==> cursor < next <= count,
                ranges@.len() > 0 && next < count ==> next == segment_start(
                    segment_of(cursor as nat) + ranges@.len(),
                ),
                next < count ==> ranges@.len() < pending_segments(cursor as nat, count as nat),
                next >= count ==> ranges@.len() == pending_segments(cursor as nat, count as nat),
                forall|i: int|
                    0 <= i < ranges@.len() ==> {
                        let s = segment_of(cursor as nat) + i;
                        &&& (#[trigger] ranges@[i]).0 == s
                        &&& ranges@[i].1 == pending_offset(cursor as nat, s as nat)
                        &&& ranges@[i].1 + ranges@[i].2 == pending_end(count as nat, s as nat)
                    },
            decreases count - next,
        {
            proof {
                let s = segment_of(cursor as nat) + ranges@.len();
                lemma_around_segment(cursor as nat, count as nat, s);
                lemma_segment_unique(s, 0);
            }
            let segment = SegArray::<T>::segment_index(next);
            let offset = SegArray::<T>::segment_slot(next, segment);
            let room = pow2_usize(segment) - offset;
            let len = if room < count - next {
                room
            } else {
                count - next
            };
            ranges.push((segment, offset, len));
            next += len;
        }
        ranges
    }
}

} // verus!
