//! The aggregator on plain integer values, held against a naive oracle.

use fast_stats::ladder::fits;
use fast_stats::symbol_aggregator::{EvictionMarks, LevelStats, StatsResult, SymbolAggregator};

/// What a window of the last `span` values of `history` holds.
fn oracle(history: &[i64], span: usize) -> Option<StatsResult> {
    if history.is_empty() {
        return None;
    }
    let count = span.min(history.len());
    let window = &history[history.len() - count..];
    Some(StatsResult {
        min: *window.iter().min().unwrap(),
        max: *window.iter().max().unwrap(),
        last: *window.last().unwrap(),
        count,
    })
}

/// A small deterministic stream of values with many repeats and reversals.
fn stream(n: usize, seed: u64) -> Vec<i64> {
    let mut state = seed;
    let mut values = Vec::with_capacity(n);
    for _ in 0..n {
        state = state.wrapping_mul(6364136223846793005).wrapping_add(1442695040888963407);
        values.push(((state >> 33) % 2001) as i64 - 1000);
    }
    values
}

#[test]
fn new_aggregator_is_empty() {
    assert!(fits(4, 2));
    let mut agg = SymbolAggregator::<4, 2>::new();
    assert_eq!(agg.index(), 0);
    assert_eq!(agg.len(), 0);
    assert_eq!(agg.capacity(), 16);
    assert!(!agg.is_full());
    assert_eq!(agg.get_last(), None);
    for k in 0..=5 {
        assert_eq!(agg.get_stats(k), None);
        assert_eq!(agg.oldest(k), None);
    }
}

#[test]
fn push_advances_the_index_by_one_and_sets_last() {
    let mut agg = SymbolAggregator::<3, 2>::new();
    let mut marks = EvictionMarks::new();
    for (i, value) in [5i64, -3, 5, 9, 0].into_iter().enumerate() {
        let before = agg.index();
        agg.push(value, &mut marks);
        assert_eq!(agg.index(), before + 1);
        assert_eq!(agg.index(), i as u64 + 1);
        assert_eq!(agg.get_last(), Some(value));
    }
    agg.evict(marks);
    assert_eq!(agg.get_last(), Some(0));
}

#[test]
fn counts_are_the_lesser_of_index_and_window() {
    let mut agg = SymbolAggregator::<3, 3>::new();
    let values = stream(40, 1);
    for (i, chunk) in values.chunks(3).enumerate() {
        agg.add_batch(chunk);
        let index = (3 * i + chunk.len()) as usize;
        assert_eq!(agg.index(), index as u64);
        assert_eq!(agg.len(), index.min(27));
        for (k, span) in [(1u32, 3usize), (2, 9), (3, 27)] {
            assert_eq!(agg.get_stats(k).unwrap().count, index.min(span));
        }
    }
    assert!(agg.is_full());
}

#[test]
fn small_ladder_reports_each_window() {
    let mut agg = SymbolAggregator::<4, 2>::new();
    agg.add_batch(&[1, 2, 3, 4, 5]);
    assert_eq!(agg.get_stats(1), Some(StatsResult { min: 4, max: 5, last: 5, count: 2 }));
    assert_eq!(agg.get_stats(2), Some(StatsResult { min: 2, max: 5, last: 5, count: 4 }));
    assert_eq!(agg.get_stats(3), Some(StatsResult { min: 1, max: 5, last: 5, count: 5 }));
    assert_eq!(agg.get_stats(4), Some(StatsResult { min: 1, max: 5, last: 5, count: 5 }));
    assert_eq!(agg.get_stats(0), None);
    assert_eq!(agg.get_stats(5), None);
}

#[test]
fn extremes_match_the_oracle_after_every_batch() {
    // every query here follows a batch on deques that remember nothing
    let values = stream(300, 7);
    for batch in [1usize, 2, 5, 16, 33] {
        let mut history: Vec<i64> = Vec::new();
        for chunk in values.chunks(batch) {
            let mut agg = SymbolAggregator::<4, 2>::new();
            history.extend_from_slice(chunk);
            agg.add_batch(&history);
            for (k, span) in [(1u32, 2usize), (2, 4), (3, 8), (4, 16)] {
                assert_eq!(agg.get_stats(k), oracle(&history, span));
            }
        }
    }
}

#[test]
fn top_window_matches_the_oracle_between_batches() {
    let values = stream(500, 11);
    let mut agg = SymbolAggregator::<3, 3>::new();
    let mut history: Vec<i64> = Vec::new();
    for chunk in values.chunks(4) {
        agg.add_batch(chunk);
        history.extend_from_slice(chunk);
        assert_eq!(agg.get_stats(3), oracle(&history, 27));
    }
}

#[test]
fn min_lies_below_max_and_brackets_the_mean() {
    let values = stream(64, 3);
    let mut agg = SymbolAggregator::<3, 2>::new();
    agg.add_batch(&values);
    for (k, span) in [(1u32, 2usize), (2, 4), (3, 8)] {
        let stats = agg.get_stats(k).unwrap();
        let window = &values[values.len() - span..];
        let sum: i64 = window.iter().sum();
        assert!(stats.min <= stats.max);
        assert!(stats.min * (span as i64) <= sum && sum <= stats.max * (span as i64));
    }
}

#[test]
fn constant_window_reports_the_constant() {
    let mut agg = SymbolAggregator::<3, 2>::new();
    agg.add_batch(&[9, 1, 4]);
    agg.add_batch(&[6; 4]);
    assert_eq!(agg.get_stats(2), Some(StatsResult { min: 6, max: 6, last: 6, count: 4 }));
    assert_eq!(agg.get_stats(1), Some(StatsResult { min: 6, max: 6, last: 6, count: 2 }));
    assert_eq!(agg.get_stats(3), Some(StatsResult { min: 1, max: 9, last: 6, count: 7 }));
}

#[test]
fn empty_batch_changes_nothing() {
    let mut agg = SymbolAggregator::<3, 2>::new();
    agg.add_batch(&[]);
    assert_eq!(agg.index(), 0);
    assert_eq!(agg.get_stats(1), None);
    agg.add_batch(&[3, 1, 2]);
    let before: Vec<_> = (1..=3).map(|k| agg.get_stats(k)).collect();
    agg.add_batch(&[]);
    assert_eq!(agg.index(), 3);
    assert_eq!(agg.len(), 3);
    let after: Vec<_> = (1..=3).map(|k| agg.get_stats(k)).collect();
    assert_eq!(before, after);
}

#[test]
fn split_batches_agree_with_the_whole_batch() {
    let values = stream(200, 5);
    for cut in [0usize, 1, 17, 100, 199, 200] {
        let mut whole = SymbolAggregator::<4, 3>::new();
        whole.add_batch(&values);
        let mut split = SymbolAggregator::<4, 3>::new();
        split.add_batch(&values[..cut]);
        split.add_batch(&values[cut..]);
        assert_eq!(whole.index(), split.index());
        for k in 1..=4 {
            assert_eq!(whole.get_stats(k), split.get_stats(k));
        }
    }
}

#[test]
fn oldest_is_the_value_that_leaves_a_full_window() {
    let mut agg = SymbolAggregator::<3, 2>::new();
    agg.add_batch(&[10, 20, 30]);
    // window 1 spans 2 values and is full: 20 leaves next
    assert_eq!(agg.oldest(1), Some(20));
    // windows 2 and 3 are still filling
    assert_eq!(agg.oldest(2), None);
    assert_eq!(agg.oldest(3), None);
    assert_eq!(agg.oldest(0), None);
    assert_eq!(agg.oldest(4), None);
    agg.add_batch(&[40, 50, 60, 70, 80, 90]);
    assert_eq!(agg.oldest(1), Some(80));
    assert_eq!(agg.oldest(2), Some(60));
    assert_eq!(agg.oldest(3), Some(20));
}

#[test]
fn ring_wraps_round_its_capacity() {
    let mut agg = SymbolAggregator::<2, 2>::new();
    let values = stream(23, 9);
    let mut history: Vec<i64> = Vec::new();
    for &value in &values {
        agg.add_batch(&[value]);
        history.push(value);
        assert_eq!(agg.get_last(), Some(value));
        assert_eq!(agg.len(), history.len().min(4));
        assert_eq!(agg.get_stats(2), oracle(&history, 4));
        if history.len() >= 4 {
            assert_eq!(agg.oldest(2), Some(history[history.len() - 4]));
        }
        if history.len() >= 2 {
            assert_eq!(agg.oldest(1), Some(history[history.len() - 2]));
        }
    }
}

#[test]
fn radix_one_ladder_holds_one_value() {
    assert!(fits(3, 1));
    let mut agg = SymbolAggregator::<3, 1>::new();
    assert_eq!(agg.capacity(), 1);
    agg.add_batch(&[4, 8, 2]);
    for k in 1..=3 {
        assert_eq!(agg.get_stats(k), Some(StatsResult { min: 2, max: 2, last: 2, count: 1 }));
        assert_eq!(agg.oldest(k), Some(2));
    }
}

#[test]
fn queries_interleaved_with_single_pushes_match_the_oracle() {
    let mut agg = SymbolAggregator::<4, 10>::new();
    let values = stream(1_000_000, 42);
    for chunk in values.chunks(10_000) {
        agg.add_batch(chunk);
    }
    let mut history = values;
    let more = stream(400, 43);
    for (round, &value) in more.iter().enumerate() {
        for (k, span) in [(2u32, 100usize), (3, 1000), (4, 10_000)] {
            assert_eq!(agg.get_stats(k), oracle(&history, span), "round {round} window {k}");
        }
        agg.add_batch(&[value]);
        history.push(value);
    }
    for (k, span) in [(2u32, 100usize), (3, 1000), (4, 10_000)] {
        assert_eq!(agg.get_stats(k), oracle(&history, span));
    }
}

#[test]
fn query_after_a_batch_that_rewrote_the_tail_reads_the_true_extremes() {
    let mut agg = SymbolAggregator::<4, 2>::new();
    agg.add_batch(&[10, 20, 30, 40]);
    assert_eq!(agg.get_stats(1), Some(StatsResult { min: 30, max: 40, last: 40, count: 2 }));
    agg.add_batch(&[15, 16]);
    assert_eq!(agg.get_stats(1), Some(StatsResult { min: 15, max: 16, last: 16, count: 2 }));
    assert_eq!(agg.get_stats(2), Some(StatsResult { min: 15, max: 40, last: 16, count: 4 }));
    assert_eq!(agg.get_stats(4), Some(StatsResult { min: 10, max: 40, last: 16, count: 6 }));
}

#[test]
fn queries_interleaved_with_batches_match_the_oracle() {
    let values = stream(4000, 17);
    let sizes = [1usize, 3, 2, 7, 1, 1, 12, 5, 40, 2];
    let mut agg = SymbolAggregator::<4, 3>::new();
    let mut history: Vec<i64> = Vec::new();
    let mut at = 0usize;
    let mut round = 0usize;
    while at < values.len() {
        let size = sizes[round % sizes.len()].min(values.len() - at);
        agg.add_batch(&values[at..at + size]);
        history.extend_from_slice(&values[at..at + size]);
        at += size;
        // query some of the windows, not always the same ones
        for (k, span) in [(1u32, 3usize), (2, 9), (3, 27), (4, 81)] {
            if (round + k as usize) % 3 != 0 {
                assert_eq!(agg.get_stats(k), oracle(&history, span), "round {round} window {k}");
            }
        }
        round += 1;
    }
}

#[test]
fn level_stats_counts_up_to_its_size() {
    let mut level = LevelStats { id: 0, size: 2, count: 0 };
    assert!(!level.is_full());
    assert!(!level.push());
    assert_eq!(level.count, 1);
    assert!(!level.push());
    assert_eq!(level.count, 2);
    assert!(level.is_full());
    assert!(level.push());
    assert_eq!(level.count, 2);
    assert!(level.evict_oldest());
    assert_eq!(level.count, 1);
    assert!(!level.evict_oldest());
    assert_eq!(level.count, 1);
}

#[test]
fn split_batches_agree_after_a_query() {
    let mut whole = SymbolAggregator::<4, 2>::new();
    whole.add_batch(&[10, 20, 30, 40]);
    assert_eq!(whole.get_stats(1).unwrap().min, 30);
    whole.add_batch(&[35, 15, 16]);
    let mut split = SymbolAggregator::<4, 2>::new();
    split.add_batch(&[10, 20, 30, 40]);
    assert_eq!(split.get_stats(1).unwrap().min, 30);
    split.add_batch(&[35]);
    split.add_batch(&[15, 16]);
    assert_eq!(whole.index(), split.index());
    for k in 1..=4 {
        assert_eq!(whole.get_stats(k), split.get_stats(k));
    }
    assert_eq!(whole.get_stats(1), Some(StatsResult { min: 15, max: 16, last: 16, count: 2 }));
}

#[test]
fn constant_window_reports_the_constant_in_any_batching() {
    for sizes in [[8usize, 0, 0], [1, 3, 4], [5, 2, 1], [2, 2, 4]] {
        let mut agg = SymbolAggregator::<4, 2>::new();
        agg.add_batch(&[3, 9]);
        agg.get_stats(1);
        agg.get_stats(2);
        for size in sizes {
            agg.add_batch(&vec![7; size]);
            agg.get_stats(2);
        }
        assert_eq!(agg.get_stats(3), Some(StatsResult { min: 7, max: 7, last: 7, count: 8 }));
    }
}
