//! The shared deque and the single-window deque on their own.

use fast_stats::keys::to_key;
use fast_stats::monotonic_queue::MonotonicQueue;
use fast_stats::shared_monotonic_queue::{
    Comparator, LevelView, MaxCmp, MinCmp, SharedMonotonicQueue,
};

fn entries<C: Comparator, const L: usize, const R: usize>(
    q: &SharedMonotonicQueue<C, L, R>,
) -> Vec<(u64, i64)> {
    q.entries.iter().copied().collect()
}

#[test]
fn comparators_order_as_their_names_say() {
    assert!(MinCmp::better(1, 2));
    assert!(MinCmp::better(2, 2));
    assert!(!MinCmp::better(3, 2));
    assert!(MaxCmp::better(3, 2));
    assert!(MaxCmp::better(2, 2));
    assert!(!MaxCmp::better(1, 2));
    assert_eq!(MinCmp::name(), "min");
    assert_eq!(MaxCmp::name(), "max");
}

#[test]
fn new_queue_is_empty_and_remembers_nothing() {
    let q = SharedMonotonicQueue::<MinCmp, 3, 2>::new([2, 4, 8]);
    assert!(q.entries.is_empty());
    assert_eq!(q.debug_best_indexes(), [None, None, None]);
    for (k, view) in q.views.iter().enumerate() {
        assert_eq!(view.id, k);
        assert_eq!(view.window_size, 2u64 << k);
        assert_eq!(view.best_idx, None);
    }
}

#[test]
fn push_evicts_matched_and_beaten_entries_from_the_back() {
    let mut q = SharedMonotonicQueue::<MinCmp, 3, 2>::new([2, 4, 8]);
    let mut mark = None;
    q.push(0, 5, &mut mark);
    assert_eq!(entries(&q), vec![(0, 5)]);
    assert_eq!(mark, None);
    q.push(1, 7, &mut mark);
    q.push(2, 9, &mut mark);
    assert_eq!(entries(&q), vec![(0, 5), (1, 7), (2, 9)]);
    assert_eq!(mark, None);
    // an equal value replaces the older one
    q.push(3, 9, &mut mark);
    assert_eq!(entries(&q), vec![(0, 5), (1, 7), (3, 9)]);
    assert_eq!(mark, Some(2));
    // a better value takes everything it beats
    q.push(4, 6, &mut mark);
    assert_eq!(entries(&q), vec![(0, 5), (4, 6)]);
    assert_eq!(mark, Some(1));
    // the mark only ever falls
    q.push(5, 8, &mut mark);
    q.push(6, 7, &mut mark);
    assert_eq!(entries(&q), vec![(0, 5), (4, 6), (6, 7)]);
    assert_eq!(mark, Some(1));
    q.push(7, 1, &mut mark);
    assert_eq!(entries(&q), vec![(7, 1)]);
    assert_eq!(mark, Some(0));
}

#[test]
fn max_queue_keeps_values_strictly_falling() {
    let mut q = SharedMonotonicQueue::<MaxCmp, 2, 2>::new([2, 4]);
    let mut mark = None;
    for (index, value) in [3i64, 1, 2, 2, 5, 4, 4, 0].into_iter().enumerate() {
        q.push(index as u64, value, &mut mark);
        let held = entries(&q);
        for pair in held.windows(2) {
            assert!(pair[0].0 < pair[1].0);
            assert!(pair[0].1 > pair[1].1);
        }
        assert_eq!(held.last(), Some(&(index as u64, value)));
    }
    assert_eq!(entries(&q), vec![(4, 5), (6, 4), (7, 0)]);
}

#[test]
fn evict_ages_out_the_front() {
    let mut q = SharedMonotonicQueue::<MinCmp, 2, 2>::new([2, 4]);
    let mut mark = None;
    for index in 0..7u64 {
        q.push(index, index as i64 * 10, &mut mark);
    }
    assert_eq!(mark, None);
    // seven values were pushed; the widest window spans four of them
    q.evict(7, mark);
    assert_eq!(entries(&q), vec![(3, 30), (4, 40), (5, 50), (6, 60)]);
    // nothing is older than the window while fewer values than it spans were pushed
    let mut young = SharedMonotonicQueue::<MinCmp, 2, 2>::new([2, 4]);
    young.push(0, 1, &mut mark);
    young.push(1, 2, &mut mark);
    young.evict(2, mark);
    assert_eq!(entries(&young), vec![(0, 1), (1, 2)]);
}

#[test]
fn best_or_refresh_reads_the_first_entry_inside_the_window() {
    let mut q = SharedMonotonicQueue::<MinCmp, 3, 2>::new([2, 4, 8]);
    let mut mark = None;
    for (index, value) in [1i64, 2, 3, 4, 5].into_iter().enumerate() {
        q.push(index as u64, value, &mut mark);
    }
    q.evict(5, mark);
    assert_eq!(q.best_or_refresh(0, 5), Some(4));
    assert_eq!(q.best_or_refresh(1, 5), Some(2));
    assert_eq!(q.best_or_refresh(2, 5), Some(1));
    // the two lower levels remember where they read; the top level never does
    assert_eq!(q.debug_best_indexes(), [Some(3), Some(1), None]);
    // a remembered position is read again
    assert_eq!(q.best_or_refresh(0, 5), Some(4));
    assert_eq!(q.debug_best_indexes(), [Some(3), Some(1), None]);
}

#[test]
fn best_or_refresh_on_an_empty_queue_is_none() {
    let mut q = SharedMonotonicQueue::<MaxCmp, 2, 2>::new([2, 4]);
    assert_eq!(q.best_or_refresh(0, 0), None);
    assert_eq!(q.best_or_refresh(1, 0), None);
    // the search found no entry and remembers the end of the deque
    assert_eq!(q.debug_best_indexes(), [Some(0), None]);
}

#[test]
fn best_or_refresh_past_every_entry_is_none() {
    let mut q = SharedMonotonicQueue::<MinCmp, 2, 2>::new([2, 4]);
    let mut mark = None;
    q.push(0, 7, &mut mark);
    q.push(1, 8, &mut mark);
    // at index 10 a window of two values starts at 8: no entry is that young
    assert_eq!(q.best_or_refresh(0, 10), None);
    assert_eq!(q.debug_best_indexes(), [Some(2), None]);
    // the top level reads the front whatever the index
    assert_eq!(q.best_or_refresh(1, 10), Some(7));
}

#[test]
fn evict_forgets_every_position_once_entries_left_the_back() {
    let mut q = SharedMonotonicQueue::<MinCmp, 3, 2>::new([2, 4, 8]);
    let mut mark = None;
    for (index, value) in [1i64, 2, 3, 4, 5].into_iter().enumerate() {
        q.push(index as u64, value, &mut mark);
    }
    q.evict(5, mark);
    q.best_or_refresh(0, 5);
    q.best_or_refresh(1, 5);
    assert_eq!(q.debug_best_indexes(), [Some(3), Some(1), None]);
    // pushing 3 takes the entries at positions 2, 3 and 4 and lands at 2
    let mut mark = None;
    q.push(5, 3, &mut mark);
    assert_eq!(mark, Some(2));
    q.evict(6, mark);
    assert_eq!(entries(&q), vec![(0, 1), (1, 2), (5, 3)]);
    // position 1 lies below the mark, position 3 names no entry any more:
    // both are forgotten
    assert_eq!(q.debug_best_indexes(), [None, None, None]);
    assert_eq!(q.best_or_refresh(0, 6), Some(3));
    assert_eq!(q.best_or_refresh(1, 6), Some(3));
    assert_eq!(q.debug_best_indexes(), [Some(2), Some(2), None]);
}

#[test]
fn evict_keeps_positions_while_no_entry_left_the_back() {
    let mut q = SharedMonotonicQueue::<MinCmp, 3, 2>::new([2, 4, 8]);
    let mut mark = None;
    for (index, value) in [1i64, 2, 3, 4, 5].into_iter().enumerate() {
        q.push(index as u64, value, &mut mark);
    }
    q.evict(5, mark);
    assert_eq!(q.best_or_refresh(1, 5), Some(2));
    assert_eq!(q.debug_best_indexes(), [None, Some(1), None]);
    let mut mark = None;
    q.push(5, 6, &mut mark);
    assert_eq!(mark, None);
    q.evict(6, mark);
    // the entry at position 1 has logical index 1, and the window of four
    // now starts at 2: the position is forgotten as aged out
    assert_eq!(q.debug_best_indexes(), [None, None, None]);
    assert_eq!(q.best_or_refresh(1, 6), Some(3));
    assert_eq!(q.debug_best_indexes(), [None, Some(2), None]);
    let mut mark = None;
    q.push(6, 7, &mut mark);
    q.evict(7, mark);
    // the window starts at 3 now; the entry at position 2 has logical index 2
    assert_eq!(q.debug_best_indexes(), [None, None, None]);
    // a wider level keeps its position while its entry stays inside the window
    assert_eq!(q.best_or_refresh(1, 7), Some(4));
    q.evict(7, None);
    assert_eq!(q.debug_best_indexes(), [None, Some(3), None]);
    assert_eq!(q.best_or_refresh(1, 7), Some(4));
}

#[test]
fn smallest_of_the_last_two_after_a_batch_that_rewrote_the_tail() {
    let mut q = SharedMonotonicQueue::<MinCmp, 3, 2>::new([2, 4, 8]);
    let mut mark = None;
    for (index, value) in [10i64, 20, 30, 40, 50].into_iter().enumerate() {
        q.push(index as u64, value, &mut mark);
    }
    q.evict(5, mark);
    assert_eq!(q.best_or_refresh(0, 5), Some(40));
    let mut mark = None;
    q.push(5, 15, &mut mark);
    q.push(6, 16, &mut mark);
    q.push(7, 17, &mut mark);
    q.evict(8, mark);
    assert_eq!(entries(&q), vec![(0, 10), (5, 15), (6, 16), (7, 17)]);
    assert_eq!(q.best_or_refresh(0, 8), Some(16));
    assert_eq!(q.best_or_refresh(1, 8), Some(15));
    assert_eq!(q.best_or_refresh(2, 8), Some(10));
}

#[test]
fn largest_of_the_last_two_after_a_batch_that_rewrote_the_tail() {
    let mut q = SharedMonotonicQueue::<MaxCmp, 3, 2>::new([2, 4, 8]);
    let mut mark = None;
    for (index, value) in [50i64, 40, 30, 20, 10].into_iter().enumerate() {
        q.push(index as u64, value, &mut mark);
    }
    q.evict(5, mark);
    assert_eq!(q.best_or_refresh(0, 5), Some(20));
    let mut mark = None;
    q.push(5, 45, &mut mark);
    q.push(6, 44, &mut mark);
    q.push(7, 43, &mut mark);
    q.evict(8, mark);
    assert_eq!(q.best_or_refresh(0, 8), Some(44));
}

#[test]
fn remembered_positions_never_change_an_answer() {
    let values = [7i64, 3, 9, 9, 1, 4, 4, 8, 2, 6, 5, 5, 0, 3, 7, 1];
    let mut q = SharedMonotonicQueue::<MinCmp, 3, 2>::new([2, 4, 8]);
    let mut next = 0u64;
    for batch in values.chunks(3) {
        let mut mark = None;
        for &value in batch {
            q.push(next, value, &mut mark);
            next += 1;
        }
        q.evict(next, mark);
        // the same entries with nothing remembered
        let mut plain = SharedMonotonicQueue::<MinCmp, 3, 2>::new([2, 4, 8]);
        plain.entries = q.entries.clone();
        for level in 0..3 {
            assert_eq!(q.best_or_refresh(level, next), plain.best_or_refresh(level, next));
        }
    }
}

#[test]
fn evict_moves_remembered_positions_with_the_front() {
    let mut q = SharedMonotonicQueue::<MinCmp, 2, 2>::new([2, 4]);
    let mut mark = None;
    for index in 0..4u64 {
        q.push(index, index as i64, &mut mark);
    }
    q.evict(4, mark);
    assert_eq!(q.best_or_refresh(0, 4), Some(2));
    assert_eq!(q.debug_best_indexes(), [Some(2), None]);
    // one more value: the front entry ages out, the remembered entry moves to
    // position 1, and there it is older than the level's window
    let mut mark = None;
    q.push(4, 4, &mut mark);
    q.evict(5, mark);
    assert_eq!(entries(&q), vec![(1, 1), (2, 2), (3, 3), (4, 4)]);
    assert_eq!(q.debug_best_indexes(), [None, None]);
    assert_eq!(q.best_or_refresh(0, 5), Some(3));
    assert_eq!(q.debug_best_indexes(), [Some(2), None]);
    // the next value ages the front out again; the remembered entry moves to
    // position 1 and is older than the level's window once more
    let mut mark = None;
    q.push(5, 5, &mut mark);
    q.evict(6, mark);
    assert_eq!(q.debug_best_indexes(), [None, None]);
}

#[test]
fn evict_forgets_a_position_whose_entry_left_from_the_front() {
    let mut q = SharedMonotonicQueue::<MinCmp, 2, 2>::new([2, 4]);
    let mut mark = None;
    q.push(0, 0, &mut mark);
    q.evict(1, mark);
    assert_eq!(q.best_or_refresh(0, 1), Some(0));
    assert_eq!(q.debug_best_indexes(), [Some(0), None]);
    let mut mark = None;
    for index in 1..6u64 {
        q.push(index, index as i64, &mut mark);
    }
    q.evict(6, mark);
    assert_eq!(entries(&q), vec![(2, 2), (3, 3), (4, 4), (5, 5)]);
    assert_eq!(q.debug_best_indexes(), [None, None]);
}

#[test]
fn views_are_plain_values() {
    let view = LevelView { id: 1, window_size: 4, best_idx: Some(3) };
    let copy = view;
    assert_eq!(copy.id, view.id);
    assert_eq!(copy.window_size, 4);
    assert_eq!(copy.best_idx, Some(3));
}

#[test]
fn single_window_queue_keeps_the_best_at_the_front() {
    let mut q = MonotonicQueue::<MinCmp>::new();
    assert_eq!(q.best(), None);
    for (index, value) in [4i64, 2, 6, 6, 3, 8].into_iter().enumerate() {
        q.push(index as u64, value);
    }
    // held: (1, 2), (4, 3), (5, 8)
    assert_eq!(q.best(), Some(2));
    q.evict_older_than(1);
    assert_eq!(q.best(), Some(2));
    q.evict_older_than(2);
    assert_eq!(q.best(), Some(3));
    q.evict_older_than(5);
    assert_eq!(q.best(), Some(8));
    q.evict_older_than(6);
    assert_eq!(q.best(), None);
}

#[test]
fn single_window_queue_follows_a_sliding_maximum() {
    let values = [3i64, 1, 4, 1, 5, 9, 2, 6, 5, 3, 5, 8, 9, 7, 9];
    let span = 4usize;
    let mut q = MonotonicQueue::<MaxCmp>::new();
    for (index, &value) in values.iter().enumerate() {
        q.push(index as u64, value);
        let start = (index + 1).saturating_sub(span);
        q.evict_older_than(start as u64);
        assert_eq!(q.best(), values[start..=index].iter().max().copied());
    }
}

#[test]
fn keys_of_zero_of_either_sign_replace_each_other() {
    for (first, second) in [(-0.0f64, 0.0f64), (0.0, -0.0)] {
        let mut q = SharedMonotonicQueue::<MinCmp, 2, 2>::new([2, 4]);
        let mut mark = None;
        q.push(0, to_key(1.0f64.to_bits()), &mut mark);
        q.push(1, to_key(first.to_bits()), &mut mark);
        q.push(2, to_key(second.to_bits()), &mut mark);
        assert_eq!(entries(&q), vec![(2, 0)]);
        assert_eq!(mark, Some(0));
    }
}
