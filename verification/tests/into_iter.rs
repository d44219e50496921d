use segarray::{SegArray, SegArrayIntoIter};
use std::cell::Cell;
use std::rc::Rc;

/// Counts how many values were made and how many were dropped.
#[derive(Default)]
struct Tally {
    made: Cell<usize>,
    dropped: Cell<usize>,
}

struct Counted {
    id: usize,
    tally: Rc<Tally>,
}

impl Counted {
    fn new(id: usize, tally: &Rc<Tally>) -> Counted {
        tally.made.set(tally.made.get() + 1);
        Counted {
            id,
            tally: Rc::clone(tally),
        }
    }
}

impl Drop for Counted {
    fn drop(&mut self) {
        self.tally.dropped.set(self.tally.dropped.get() + 1);
    }
}

fn filled(n: usize, tally: &Rc<Tally>) -> SegArray<Counted> {
    let mut arr = SegArray::new();
    for id in 0..n {
        arr.append(Counted::new(id, tally));
    }
    arr
}

/// The runs of the linear indices `cursor..count`, found by walking them.
fn runs_by_walking(cursor: usize, count: usize) -> Vec<(usize, usize, usize)> {
    let mut runs: Vec<(usize, usize, usize)> = Vec::new();
    for index in cursor..count {
        let segment = SegArray::<u8>::segment_index(index);
        let slot = SegArray::<u8>::segment_slot(index, segment);
        match runs.last_mut() {
            Some(run) if run.0 == segment => run.2 += 1,
            _ => runs.push((segment, slot, 1)),
        }
    }
    runs
}

#[test]
fn iteration_yields_in_insertion_order_25() {
    let mut arr: SegArray<i32> = SegArray::new();
    for i in 0..25 {
        arr.append(i);
    }
    let mut iter = arr.into_iter();
    for i in 0..25 {
        assert_eq!(iter.next(), Some(i));
    }
    assert_eq!(iter.next(), None);
    assert_eq!(iter.next(), None);
}

#[test]
fn iteration_yields_in_insertion_order_100() {
    let mut arr: SegArray<u32> = SegArray::new();
    for i in 0..100 {
        arr.append(i * 7);
    }
    let expected: Vec<u32> = (0..100).map(|i| i * 7).collect();
    let mut by_next: Vec<u32> = Vec::new();
    let mut iter = arr.into_iter();
    while let Some(item) = iter.next() {
        by_next.push(item);
    }
    assert_eq!(by_next, expected);

    let mut again: SegArray<u32> = SegArray::new();
    for i in 0..100 {
        again.append(i * 7);
    }
    assert_eq!(again.into_iter().collect(), expected);
}

#[test]
fn collect_after_some_next_gives_the_rest() {
    for n in 0..40usize {
        for k in 0..=n {
            let mut arr: SegArray<usize> = SegArray::new();
            for v in 0..n {
                arr.append(v);
            }
            let mut iter = arr.into_iter();
            for v in 0..k {
                assert_eq!(iter.next(), Some(v));
            }
            let rest: Vec<usize> = iter.collect();
            let expected: Vec<usize> = (k..n).collect();
            assert_eq!(rest, expected);
        }
    }
}

#[test]
fn iteration_after_pops_skips_the_popped() {
    let mut arr: SegArray<i32> = SegArray::new();
    for i in 0..20 {
        arr.append(i);
    }
    for _ in 0..9 {
        arr.pop();
    }
    let items: Vec<i32> = arr.into_iter().collect();
    assert_eq!(items, (0..11).collect::<Vec<i32>>());
}

#[test]
fn pending_lists_hand_computed() {
    let pending = SegArrayIntoIter::<u8>::elements_pending_destruction;
    // Nothing to destroy.
    assert_eq!(pending(0, 0), vec![]);
    assert_eq!(pending(3, 3), vec![]);
    assert_eq!(pending(4, 4), vec![]);
    assert_eq!(pending(5, 3), vec![]);
    // From the start.
    assert_eq!(pending(0, 1), vec![(0, 0, 1)]);
    assert_eq!(pending(0, 3), vec![(0, 0, 1), (1, 0, 2)]);
    assert_eq!(pending(0, 6), vec![(0, 0, 1), (1, 0, 2), (2, 0, 3)]);
    // Cursor in the middle of the last segment.
    assert_eq!(pending(4, 6), vec![(2, 1, 2)]);
    assert_eq!(pending(5, 6), vec![(2, 2, 1)]);
    // Cursor in the middle of an earlier segment.
    assert_eq!(pending(2, 10), vec![(1, 1, 1), (2, 0, 4), (3, 0, 3)]);
    // Cursor on a segment boundary.
    assert_eq!(pending(7, 35), vec![(3, 0, 8), (4, 0, 16), (5, 0, 4)]);
    assert_eq!(pending(3, 7), vec![(2, 0, 4)]);
    // Count on a segment boundary.
    assert_eq!(pending(6, 7), vec![(2, 3, 1)]);
    assert_eq!(pending(6, 8), vec![(2, 3, 1), (3, 0, 1)]);
}

#[test]
fn pending_lists_match_a_walk_over_the_indices() {
    for count in 0..=130usize {
        for cursor in 0..=count + 2 {
            assert_eq!(
                SegArrayIntoIter::<u8>::elements_pending_destruction(cursor, count),
                runs_by_walking(cursor, count),
                "cursor {} count {}",
                cursor,
                count
            );
        }
    }
}

#[test]
fn pending_list_at_the_largest_length() {
    let last = 4294967295usize;
    assert_eq!(
        SegArrayIntoIter::<u8>::elements_pending_destruction(last - 1, last),
        vec![(31, 2147483647, 1)]
    );
    let runs = SegArrayIntoIter::<u8>::elements_pending_destruction(0, last);
    assert_eq!(runs.len(), 32);
    for (s, run) in runs.iter().enumerate() {
        assert_eq!(*run, (s, 0, 1usize << s));
    }
}

#[test]
fn pending_of_an_iterator_follows_its_cursor() {
    let mut arr: SegArray<u32> = SegArray::new();
    for i in 0..10 {
        arr.append(i);
    }
    let mut iter = arr.into_iter();
    assert_eq!(
        iter.pending(),
        vec![(0, 0, 1), (1, 0, 2), (2, 0, 4), (3, 0, 3)]
    );
    assert_eq!(iter.next(), Some(0));
    assert_eq!(iter.pending(), vec![(1, 0, 2), (2, 0, 4), (3, 0, 3)]);
    assert_eq!(iter.next(), Some(1));
    assert_eq!(iter.pending(), vec![(1, 1, 1), (2, 0, 4), (3, 0, 3)]);
    for _ in 2..9 {
        iter.next();
    }
    assert_eq!(iter.pending(), vec![(3, 2, 1)]);
    assert_eq!(iter.next(), Some(9));
    assert_eq!(iter.pending(), vec![]);
    assert_eq!(iter.next(), None);
    assert_eq!(iter.pending(), vec![]);
}

#[test]
fn dropping_the_array_drops_each_element_once() {
    for n in 0..40usize {
        let tally = Rc::new(Tally::default());
        let arr = filled(n, &tally);
        assert_eq!(tally.made.get(), n);
        assert_eq!(tally.dropped.get(), 0);
        drop(arr);
        assert_eq!(tally.dropped.get(), n);
    }
}

#[test]
fn partial_iteration_drops_each_element_once() {
    for n in 0..40usize {
        for k in 0..=n {
            let tally = Rc::new(Tally::default());
            let arr = filled(n, &tally);
            let mut iter = arr.into_iter();
            let mut yielded: Vec<Counted> = Vec::new();
            for id in 0..k {
                let item = iter.next().unwrap();
                assert_eq!(item.id, id);
                yielded.push(item);
            }
            assert_eq!(tally.dropped.get(), 0);
            drop(iter);
            // The iterator dropped what it still held and nothing else.
            assert_eq!(tally.dropped.get(), n - k);
            for item in yielded.iter() {
                assert!(item.id < k);
            }
            drop(yielded);
            assert_eq!(tally.made.get(), n);
            assert_eq!(tally.dropped.get(), n);
        }
    }
}

#[test]
fn yielded_elements_are_dropped_by_their_owner() {
    let tally = Rc::new(Tally::default());
    let arr = filled(10, &tally);
    let mut iter = arr.into_iter();
    for _ in 0..4 {
        // Each yielded element is dropped here, at the end of the statement.
        iter.next();
    }
    assert_eq!(tally.dropped.get(), 4);
    drop(iter);
    assert_eq!(tally.dropped.get(), 10);
    assert_eq!(tally.made.get(), 10);
}

#[test]
fn full_iteration_leaves_nothing_to_drop() {
    let tally = Rc::new(Tally::default());
    let arr = filled(25, &tally);
    let mut iter = arr.into_iter();
    let mut yielded: Vec<Counted> = Vec::new();
    while let Some(item) = iter.next() {
        yielded.push(item);
    }
    assert_eq!(yielded.len(), 25);
    drop(iter);
    assert_eq!(tally.dropped.get(), 0);
    drop(yielded);
    assert_eq!(tally.dropped.get(), 25);
}

#[test]
fn collect_moves_the_elements_out() {
    let tally = Rc::new(Tally::default());
    let arr = filled(12, &tally);
    let items: Vec<Counted> = arr.into_iter().collect();
    assert_eq!(tally.dropped.get(), 0);
    let ids: Vec<usize> = items.iter().map(|item| item.id).collect();
    assert_eq!(ids, (0..12).collect::<Vec<usize>>());
    drop(items);
    assert_eq!(tally.dropped.get(), 12);
    assert_eq!(tally.made.get(), 12);
}

#[test]
fn append_pop_and_iteration_balance_the_tally() {
    let tally = Rc::new(Tally::default());
    let mut arr = filled(20, &tally);
    for _ in 0..7 {
        // The popped element is dropped at once.
        arr.pop();
    }
    assert_eq!(tally.dropped.get(), 7);
    for id in 100..105 {
        arr.append(Counted::new(id, &tally));
    }
    assert_eq!(arr.len(), 18);
    // Overwriting an element drops the one that was there.
    assert!(arr.set(3, Counted::new(200, &tally)).is_ok());
    assert_eq!(tally.dropped.get(), 8);
    // An element that is refused is dropped, the array keeps its own.
    assert!(arr.set(18, Counted::new(201, &tally)).is_err());
    assert_eq!(tally.dropped.get(), 9);
    let mut iter = arr.into_iter();
    for _ in 0..6 {
        iter.next();
    }
    assert_eq!(tally.dropped.get(), 15);
    drop(iter);
    assert_eq!(tally.made.get(), 27);
    assert_eq!(tally.dropped.get(), 27);
}

#[test]
fn strings_survive_append_pop_and_partial_iteration() {
    let mut arr: SegArray<String> = SegArray::new();
    for i in 0..30 {
        arr.append(format!("item {i}"));
    }
    assert_eq!(arr.pop(), Some("item 29".to_string()));
    assert_eq!(arr.pop(), Some("item 28".to_string()));
    arr.append("again".to_string());
    assert_eq!(arr.len(), 29);
    assert_eq!(arr[28], "again");
    let mut iter = arr.into_iter();
    for i in 0..10 {
        assert_eq!(iter.next(), Some(format!("item {i}")));
    }
    let rest: Vec<String> = iter.collect();
    assert_eq!(rest.len(), 19);
    assert_eq!(rest[0], "item 10");
    assert_eq!(rest[17], "item 27");
    assert_eq!(rest[18], "again");
}

#[test]
fn len_of_the_iterator_counts_down() {
    let mut arr: SegArray<u8> = SegArray::new();
    for i in 0..12 {
        arr.append(i);
    }
    let mut iter = arr.into_iter();
    for left in (1..=12usize).rev() {
        assert_eq!(iter.len(), left);
        assert!(iter.next().is_some());
    }
    assert_eq!(iter.len(), 0);
    assert_eq!(iter.next(), None);
    assert_eq!(iter.len(), 0);
}

#[test]
fn cloned_array_is_dropped_on_its_own() {
    let tally = Rc::new(Tally::default());
    let mut arr: SegArray<Rc<Tally>> = SegArray::new();
    for _ in 0..5 {
        arr.append(Rc::clone(&tally));
    }
    assert_eq!(Rc::strong_count(&tally), 6);
    let copy = arr.clone();
    assert_eq!(Rc::strong_count(&tally), 11);
    drop(arr);
    assert_eq!(Rc::strong_count(&tally), 6);
    let mut iter = copy.into_iter();
    iter.next();
    iter.next();
    assert_eq!(Rc::strong_count(&tally), 4);
    drop(iter);
    assert_eq!(Rc::strong_count(&tally), 1);
}
