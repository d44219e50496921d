//! What holds of an array over a whole history of calls.
//!
//! A history is a sequence of steps together with the states of the array
//! before, between and after them. Neighbouring states are tied by
//! `step_taken`, which `SegArray::append` and `SegArray::pop` ensure of the
//! array before and after each call, and the first state is what
//! `SegArray::new` returns. An iteration is the same for the calls of
//! `SegArrayIntoIter::next`, tied by `next_taken`. The laws are stated of every
//! history and every iteration, and so of every run of those calls.

use crate::array::SegArray;
use crate::into_iter::SegArrayIntoIter;
use crate::layout::{
    grown_to, lemma_segment_bounds, lemma_segments_needed, lemma_segments_needed_monotonic,
    segment_of, segments_needed, slot_of,
};
use vstd::prelude::*;

verus! {

/// One call that changes an array.
pub enum Step<T> {
    /// `append(value)`
    Append(T),
    /// `pop()`
    Pop,
}

/// The elements after one step: an append puts its value behind the last
/// element, a pop removes the last element if there is one.
pub open spec fn apply<T>(items: Seq<T>, step: Step<T>) -> Seq<T> {
    match step {
        Step::Append(value) => items.push(value),
        Step::Pop => if items.len() > 0 {
            items.drop_last()
        } else {
            items
        },
    }
}

/// The number of segments after one step on an array of `len` elements in
/// `allocated` segments: an append grows the array to hold one element more,
/// a pop frees nothing.
pub open spec fn segments_after_step<T>(allocated: nat, len: nat, step: Step<T>) -> nat {
    match step {
        Step::Append(_) => grown_to(allocated, len + 1),
        Step::Pop => allocated,
    }
}

/// Whether `after` is the array that the call `step` makes of `before`.
pub open spec fn step_taken<T>(before: SegArray<T>, after: SegArray<T>, step: Step<T>) -> bool {
    &&& after.wf()
    &&& after@ == apply(before@, step)
    &&& after.allocated_segments() == segments_after_step(
        before.allocated_segments() as nat,
        before@.len(),
        step,
    )
}

/// Whether `states` are the states of an array that starts as
/// `SegArray::new()` and goes through the calls `steps`.
pub open spec fn is_history<T>(states: Seq<SegArray<T>>, steps: Seq<Step<T>>) -> bool {
    &&& states.len() == steps.len() + 1
    &&& states[0].wf()
    &&& states[0]@ == Seq::<T>::empty()
    &&& states[0].allocated_segments() == 0
    &&& forall|i: int|
        0 <= i < steps.len() ==> step_taken(states[i], states[i + 1], #[trigger] steps[i])
}

/// The elements after the steps of `steps`, taken in order on `items`.
pub open spec fn run<T>(items: Seq<T>, steps: Seq<Step<T>>) -> Seq<T>
    decreases steps.len(),
{
    if steps.len() == 0 {
        items
    } else {
        apply(run(items, steps.drop_last()), steps.last())
    }
}

/// The number of segments after the steps of `steps` on an empty array.
pub open spec fn segments_after<T>(steps: Seq<Step<T>>) -> nat
    decreases steps.len(),
{
    if steps.len() == 0 {
        0
    } else {
        segments_after_step(
            segments_after(steps.drop_last()),
            run(Seq::<T>::empty(), steps.drop_last()).len(),
            steps.last(),
        )
    }
}

/// The history that appends the values of `values` in order.
pub open spec fn appends_of<T>(values: Seq<T>) -> Seq<Step<T>> {
    Seq::new(values.len(), |i: int| Step::Append(values[i]))
}

/// Number of appends among `steps`.
pub open spec fn count_appends<T>(steps: Seq<Step<T>>) -> nat
    decreases steps.len(),
{
    if steps.len() == 0 {
        0
    } else {
        count_appends(steps.drop_last()) + if steps.last() is Append {
            1nat
        } else {
            0nat
        }
    }
}

/// Number of pops among `steps`.
pub open spec fn count_pops<T>(steps: Seq<Step<T>>) -> nat
    decreases steps.len(),
{
    if steps.len() == 0 {
        0
    } else {
        count_pops(steps.drop_last()) + if steps.last() is Pop {
            1nat
        } else {
            0nat
        }
    }
}

/// The greatest length that the array has on the way through `steps`,
/// starting empty.
pub open spec fn peak_len<T>(steps: Seq<Step<T>>) -> nat
    decreases steps.len(),
{
    if steps.len() == 0 {
        0
    } else {
        let before = peak_len(steps.drop_last());
        let now = run(Seq::<T>::empty(), steps).len();
        if now > before {
            now
        } else {
            before
        }
    }
}

/// Whether `after` and `item` are what a call of `next` makes of `before`:
/// the call hands out the first remaining element, if there is one.
pub open spec fn next_taken<T>(
    before: SegArrayIntoIter<T>,
    after: SegArrayIntoIter<T>,
    item: Option<T>,
) -> bool {
    &&& after.wf()
    &&& if before@.len() == 0 {
        &&& item is None
        &&& after@ == before@
        &&& after.cursor() == before.cursor()
    } else {
        &&& item == Some(before@.first())
        &&& after@ == before@.skip(1)
        &&& after.cursor() == before.cursor() + 1
    }
}

/// Whether `states` are the states of the iterator that `array.into_iter()`
/// returns, through calls of `next` that return `items`.
pub open spec fn is_iteration<T>(
    array: SegArray<T>,
    states: Seq<SegArrayIntoIter<T>>,
    items: Seq<Option<T>>,
) -> bool {
    &&& states.len() == items.len() + 1
    &&& states[0].wf()
    &&& states[0]@ == array@
    &&& states[0].cursor() == 0
    &&& forall|i: int|
        0 <= i < items.len() ==> next_taken(states[i], states[i + 1], #[trigger] items[i])
}

/// A history without its last step is a history.
proof fn lemma_history_prefix<T>(states: Seq<SegArray<T>>, steps: Seq<Step<T>>)
    requires
        is_history(states, steps),
        steps.len() > 0,
    ensures
        is_history(states.drop_last(), steps.drop_last()),
        step_taken(states[steps.len() - 1], states.last(), steps.last()),
{
    let init = steps.drop_last();
    assert forall|i: int| 0 <= i < init.len() implies step_taken(
        states.drop_last()[i],
        states.drop_last()[i + 1],
        #[trigger] init[i],
    ) by {
        assert(step_taken(states[i], states[i + 1], steps[i]));
    }
    let n = steps.len() - 1;
    assert(step_taken(states[n], states[n + 1], steps[n]));
}

/// The last state of a history is well-formed, holds what the steps make of
/// no elements, and has the segments that the steps allocate.
pub proof fn lemma_history_runs<T>(states: Seq<SegArray<T>>, steps: Seq<Step<T>>)
    requires
        is_history(states, steps),
    ensures
        states.last().wf(),
        states.last()@ == run(Seq::<T>::empty(), steps),
        states.last().allocated_segments() == segments_after(steps),
    decreases steps.len(),
{
    if steps.len() > 0 {
        lemma_history_prefix(states, steps);
        lemma_history_runs(states.drop_last(), steps.drop_last());
    }
}

/// Appending values to an array leaves the elements it had in place and puts
/// the values behind them in order.
proof fn lemma_appends_extend<T>(items: Seq<T>, values: Seq<T>)
    ensures
        run(items, appends_of(values)) == items + values,
    decreases values.len(),
{
    if values.len() > 0 {
        lemma_appends_extend(items, values.drop_last());
        assert(appends_of(values).drop_last() =~= appends_of(values.drop_last()));
    }
}

/// Appending `n` values to a new array and then reading the indices `0..n`
/// gives back the values in order.
pub proof fn lemma_appended_values_read_back<T>(states: Seq<SegArray<T>>, values: Seq<T>)
    requires
        is_history(states, appends_of(values)),
    ensures
        states.last()@ == values,
{
    lemma_history_runs(states, appends_of(values));
    lemma_appends_extend(Seq::<T>::empty(), values);
}

/// After `k` appends and `j` pops on a new array, in any order in which no
/// pop meets an empty array, the length is `k - j`.
pub proof fn lemma_len_after_appends_and_pops<T>(states: Seq<SegArray<T>>, steps: Seq<Step<T>>)
    requires
        is_history(states, steps),
        forall|i: int| 0 <= i < steps.len() && #[trigger] steps[i] is Pop ==> states[i]@.len() > 0,
    ensures
        count_pops(steps) <= count_appends(steps),
        states.last()@.len() == count_appends(steps) - count_pops(steps),
    decreases steps.len(),
{
    if steps.len() > 0 {
        lemma_history_prefix(states, steps);
        let init = steps.drop_last();
        let before = states.drop_last();
        assert forall|i: int|
            0 <= i < init.len() && #[trigger] init[i] is Pop implies before[i]@.len() > 0 by {
            assert(steps[i] is Pop);
        }
        lemma_len_after_appends_and_pops(before, init);
        assert(steps.last() == steps[steps.len() - 1]);
    }
}

/// A pop that finds an element, followed at once by an append, puts the new
/// element into the slot that the pop emptied, and allocates nothing.
pub proof fn lemma_pop_then_append_reuses_slot<T>(
    before: SegArray<T>,
    popped: SegArray<T>,
    appended: SegArray<T>,
    value: T,
)
    requires
        before.wf(),
        before@.len() > 0,
        step_taken(before, popped, Step::Pop),
        step_taken(popped, appended, Step::Append(value)),
    ensures
        appended.allocated_segments() == before.allocated_segments(),
        before.slot(
            segment_of((before@.len() - 1) as nat),
            slot_of((before@.len() - 1) as nat),
        ) == Some(before@.last()),
        popped.slot(
            segment_of((before@.len() - 1) as nat),
            slot_of((before@.len() - 1) as nat),
        ) is None,
        appended.slot(
            segment_of((before@.len() - 1) as nat),
            slot_of((before@.len() - 1) as nat),
        ) == Some(value),
{
    let last = (before@.len() - 1) as nat;
    before.lemma_segments_suffice();
    lemma_segments_needed(before@.len());
    lemma_segment_bounds(last);
    before.lemma_slot_contents(segment_of(last), slot_of(last));
    popped.lemma_slot_contents(segment_of(last), slot_of(last));
    appended.lemma_slot_contents(segment_of(last), slot_of(last));
}

/// The segments of an array are those that its greatest length so far needed:
/// `ceil(log2(peak + 1))` of them.
pub proof fn lemma_segments_follow_peak<T>(states: Seq<SegArray<T>>, steps: Seq<Step<T>>)
    requires
        is_history(states, steps),
    ensures
        states.last().allocated_segments() == segments_needed(peak_len(steps)),
{
    lemma_history_runs(states, steps);
    lemma_segments_after_peak(steps);
}

/// After `n` appends to a new array, `ceil(log2(n + 1))` segments are
/// allocated.
pub proof fn lemma_segments_after_appends<T>(states: Seq<SegArray<T>>, values: Seq<T>)
    requires
        is_history(states, appends_of(values)),
    ensures
        states.last().allocated_segments() == segments_needed(values.len()),
{
    lemma_segments_follow_peak(states, appends_of(values));
    lemma_peak_of_appends(values);
}

/// The steps allocate what the greatest length on the way needs.
proof fn lemma_segments_after_peak<T>(steps: Seq<Step<T>>)
    ensures
        run(Seq::<T>::empty(), steps).len() <= peak_len(steps),
        segments_after(steps) == segments_needed(peak_len(steps)),
    decreases steps.len(),
{
    if steps.len() > 0 {
        let init = steps.drop_last();
        lemma_segments_after_peak(init);
        let len = run(Seq::<T>::empty(), init).len();
        if len + 1 <= peak_len(init) {
            lemma_segments_needed_monotonic(len + 1, peak_len(init));
        } else {
            lemma_segments_needed_monotonic(peak_len(init), len + 1);
        }
    }
}

/// A history of appends is longest at its end.
proof fn lemma_peak_of_appends<T>(values: Seq<T>)
    ensures
        peak_len(appends_of(values)) == values.len(),
    decreases values.len(),
{
    lemma_appends_extend(Seq::<T>::empty(), values);
    if values.len() > 0 {
        lemma_peak_of_appends(values.drop_last());
        assert(appends_of(values).drop_last() =~= appends_of(values.drop_last()));
    }
}

/// Iterating hands out the elements of the array in their order, each once:
/// call `i` of `next` returns element `i`, or `None` if there is no such
/// element, and every call leaves the elements behind the cursor.
pub proof fn lemma_iteration_in_order<T>(
    array: SegArray<T>,
    states: Seq<SegArrayIntoIter<T>>,
    items: Seq<Option<T>>,
)
    requires
        is_iteration(array, states, items),
    ensures
        forall|i: int|
            0 <= i < items.len() ==> #[trigger] items[i] == if i < array@.len() {
                Some(array@[i])
            } else {
                None::<T>
            },
        states.last().wf(),
        states.last().cursor() == if items.len() <= array@.len() {
            items.len()
        } else {
            array@.len()
        },
        states.last()@ == array@.skip(states.last().cursor() as int),
    decreases items.len(),
{
    if items.len() > 0 {
        let n = items.len() - 1;
        let init = items.drop_last();
        assert forall|i: int| 0 <= i < init.len() implies next_taken(
            states.drop_last()[i],
            states.drop_last()[i + 1],
            #[trigger] init[i],
        ) by {
            assert(next_taken(states[i], states[i + 1], items[i]));
        }
        lemma_iteration_in_order(array, states.drop_last(), init);
        assert(next_taken(states[n], states[n + 1], items[n]));
        assert forall|i: int| 0 <= i < items.len() implies #[trigger] items[i] == if i
            < array@.len() {
            Some(array@[i])
        } else {
            None::<T>
        } by {
            if i < n {
                assert(init[i] == items[i]);
            }
        }
    }
}

} // verus!
