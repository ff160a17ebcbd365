//! What a monotone deque must hold to answer window queries, stated over the
//! plain sequence of values that were pushed.
//!
//! An entry is a pair of a logical index and a value. A history is the sequence
//! of all values pushed so far; the value with logical index `j` is `history[j]`.

use crate::shared_monotonic_queue::Comparator;
use vstd::prelude::*;

verus! {

/// Logical indexes strictly increase from front to back.
pub open spec fn indexes_ascend(entries: Seq<(u64, i64)>) -> bool {
    forall|i: int, j: int| 0 <= i < j < entries.len() ==> entries[i].0 < entries[j].0
}

/// No entry is matched or beaten by an entry in front of it: towards the back
/// the values get strictly worse.
pub open spec fn strictly_monotone<C: Comparator>(entries: Seq<(u64, i64)>) -> bool {
    forall|i: int, j: int|
        0 <= i < j < entries.len() ==> !C::better_spec(entries[j].1, entries[i].1)
}

/// The position of the first entry whose logical index is at least `threshold`,
/// or the number of entries if there is none.
pub open spec fn first_at_or_after(entries: Seq<(u64, i64)>, threshold: int) -> int
    decreases entries.len(),
{
    if entries.len() == 0 || entries[0].0 >= threshold {
        0
    } else {
        1 + first_at_or_after(entries.skip(1), threshold)
    }
}

/// `value` occurs in `window` and is at least as good as every value in it.
pub open spec fn is_best<C: Comparator>(value: i64, window: Seq<i64>) -> bool {
    &&& exists|k: int| 0 <= k < window.len() && window[k] == value
    &&& forall|k: int| 0 <= k < window.len() ==> C::better_spec(value, window[k])
}

/// Some entry at or after logical index `p` is at least as good as `history[p]`.
pub open spec fn covered<C: Comparator>(
    entries: Seq<(u64, i64)>,
    history: Seq<i64>,
    p: int,
) -> bool {
    exists|i: int|
        0 <= i < entries.len() && (#[trigger] entries[i]).0 >= p && C::better_spec(
            entries[i].1,
            history[p],
        )
}

/// The deque is the monotone skeleton of `history` from `floor` on: its
/// entries are pushed values at their own logical indexes, ordered and strictly
/// monotone, and every pushed value from `floor` on is matched or beaten by an
/// entry that is not older than it.
pub open spec fn tracks<C: Comparator>(
    entries: Seq<(u64, i64)>,
    history: Seq<i64>,
    floor: int,
) -> bool {
    &&& indexes_ascend(entries)
    &&& strictly_monotone::<C>(entries)
    &&& forall|i: int|
        0 <= i < entries.len() ==> (#[trigger] entries[i]).0 < history.len()
            && history[entries[i].0 as int] == entries[i].1
    &&& forall|p: int|
        0 <= p && floor <= p < history.len() ==> #[trigger] covered::<C>(entries, history, p)
}

/// The last `span` values of `history`, or all of them if there are fewer.
pub open spec fn tail(history: Seq<i64>, span: int) -> Seq<i64> {
    if span >= history.len() {
        history
    } else if span <= 0 {
        Seq::<i64>::empty()
    } else {
        history.subrange(history.len() - span, history.len() as int)
    }
}

/// The number of entries that stay when `value` is pushed: the entries at the
/// back that `value` matches or beats leave, up to the first one that it does
/// not.
pub open spec fn kept_by<C: Comparator>(entries: Seq<(u64, i64)>, value: i64) -> int
    decreases entries.len(),
{
    if entries.len() == 0 || !C::better_spec(value, entries.last().1) {
        entries.len() as int
    } else {
        kept_by::<C>(entries.drop_last(), value)
    }
}

/// The deque after `value` is pushed with logical index `index`.
pub open spec fn pushed<C: Comparator>(
    entries: Seq<(u64, i64)>,
    index: u64,
    value: i64,
) -> Seq<(u64, i64)> {
    entries.take(kept_by::<C>(entries, value)).push((index, value))
}

/// The deque after `values` are pushed in order, the first of them with
/// logical index `first_index`.
pub open spec fn pushed_all<C: Comparator>(
    entries: Seq<(u64, i64)>,
    first_index: int,
    values: Seq<i64>,
) -> Seq<(u64, i64)>
    decreases values.len(),
{
    if values.len() == 0 {
        entries
    } else {
        pushed::<C>(
            pushed_all::<C>(entries, first_index, values.drop_last()),
            (first_index + values.len() - 1) as u64,
            values.last(),
        )
    }
}

/// The deque after the entries older than `floor` have left from the front.
pub open spec fn aged(entries: Seq<(u64, i64)>, floor: int) -> Seq<(u64, i64)> {
    entries.skip(first_at_or_after(entries, floor))
}

/// `kept_by` is a position, every entry from it on is matched or beaten by the
/// value, and the entry just in front of it is not.
pub proof fn lemma_kept_by<C: Comparator>(entries: Seq<(u64, i64)>, value: i64)
    ensures
        0 <= kept_by::<C>(entries, value) <= entries.len(),
        forall|i: int|
            kept_by::<C>(entries, value) <= i < entries.len() ==> C::better_spec(
                value,
                (#[trigger] entries[i]).1,
            ),
        kept_by::<C>(entries, value) > 0 ==> !C::better_spec(
            value,
            entries[kept_by::<C>(entries, value) - 1].1,
        ),
    decreases entries.len(),
{
    if entries.len() == 0 || !C::better_spec(value, entries.last().1) {
    } else {
        let front = entries.drop_last();
        lemma_kept_by::<C>(front, value);
        let k = kept_by::<C>(front, value);
        assert forall|i: int| k <= i < entries.len() implies C::better_spec(
            value,
            (#[trigger] entries[i]).1,
        ) by {
            if i < front.len() {
                assert(front[i] == entries[i]);
            }
        }
        if k > 0 {
            assert(front[k - 1] == entries[k - 1]);
        }
    }
}

/// A position with those three properties is the one that `kept_by` names.
pub proof fn lemma_kept_by_unique<C: Comparator>(
    entries: Seq<(u64, i64)>,
    value: i64,
    position: int,
)
    requires
        0 <= position <= entries.len(),
        forall|i: int|
            position <= i < entries.len() ==> C::better_spec(value, (#[trigger] entries[i]).1),
        position > 0 ==> !C::better_spec(value, entries[position - 1].1),
    ensures
        kept_by::<C>(entries, value) == position,
{
    lemma_kept_by::<C>(entries, value);
    let k = kept_by::<C>(entries, value);
    if k < position {
        assert(C::better_spec(value, entries[position - 1].1));
    } else if position < k {
        assert(C::better_spec(value, entries[k - 1].1));
    }
}

/// Pushing a value with a logical index beyond the newest entry keeps a deque
/// ordered and strictly monotone.
pub proof fn lemma_pushed_in_order<C: Comparator>(
    entries: Seq<(u64, i64)>,
    index: u64,
    value: i64,
)
    requires
        indexes_ascend(entries),
        strictly_monotone::<C>(entries),
        entries.len() > 0 ==> entries.last().0 < index,
    ensures
        indexes_ascend(pushed::<C>(entries, index, value)),
        strictly_monotone::<C>(pushed::<C>(entries, index, value)),
{
    lemma_kept_by::<C>(entries, value);
    let kept = kept_by::<C>(entries, value);
    let after = pushed::<C>(entries, index, value);
    assert forall|i: int, j: int| 0 <= i < j < after.len() implies after[i].0 < after[j].0 by {
        assert(after[i] == entries[i]);
        if j < kept {
            assert(after[j] == entries[j]);
        } else {
            assert(entries[i].0 <= entries.last().0);
        }
    }
    assert forall|i: int, j: int| 0 <= i < j < after.len() implies !C::better_spec(
        after[j].1,
        after[i].1,
    ) by {
        assert(after[i] == entries[i]);
        if j < kept {
            assert(after[j] == entries[j]);
        } else if C::better_spec(value, entries[i].1) {
            if i < kept - 1 {
                C::lemma_total(entries[i].1, entries[kept - 1].1);
                C::lemma_transitive(value, entries[i].1, entries[kept - 1].1);
            }
        }
    }
}

/// Dropping entries from the front keeps a deque ordered and strictly monotone.
pub proof fn lemma_skipped_in_order<C: Comparator>(entries: Seq<(u64, i64)>, dropped: int)
    requires
        indexes_ascend(entries),
        strictly_monotone::<C>(entries),
        0 <= dropped <= entries.len(),
    ensures
        indexes_ascend(entries.skip(dropped)),
        strictly_monotone::<C>(entries.skip(dropped)),
{
    let after = entries.skip(dropped);
    assert forall|i: int, j: int| 0 <= i < j < after.len() implies after[i].0 < after[j].0
        && !C::better_spec(after[j].1, after[i].1) by {
        assert(after[i] == entries[i + dropped]);
        assert(after[j] == entries[j + dropped]);
    }
}

/// `first_at_or_after` is a position, everything in front of it is older than
/// the threshold, and the entry at it is not.
pub proof fn lemma_first_at_or_after(entries: Seq<(u64, i64)>, threshold: int)
    ensures
        0 <= first_at_or_after(entries, threshold) <= entries.len(),
        forall|j: int|
            0 <= j < first_at_or_after(entries, threshold) ==> (#[trigger] entries[j]).0
                < threshold,
        first_at_or_after(entries, threshold) < entries.len() ==> entries[first_at_or_after(
            entries,
            threshold,
        )].0 >= threshold,
    decreases entries.len(),
{
    if entries.len() == 0 || entries[0].0 >= threshold {
    } else {
        let rest = entries.skip(1);
        lemma_first_at_or_after(rest, threshold);
        let f = first_at_or_after(rest, threshold);
        assert forall|j: int| 0 <= j < 1 + f implies (#[trigger] entries[j]).0 < threshold by {
            if j > 0 {
                assert(rest[j - 1] == entries[j]);
            }
        }
        if 1 + f < entries.len() {
            assert(rest[f] == entries[1 + f]);
        }
    }
}

/// A position with everything older in front of it and nothing older at it is
/// the one that `first_at_or_after` names.
pub proof fn lemma_first_at_or_after_unique(
    entries: Seq<(u64, i64)>,
    threshold: int,
    position: int,
)
    requires
        0 <= position <= entries.len(),
        forall|j: int| 0 <= j < position ==> (#[trigger] entries[j]).0 < threshold,
        position < entries.len() ==> entries[position].0 >= threshold,
    ensures
        first_at_or_after(entries, threshold) == position,
{
    lemma_first_at_or_after(entries, threshold);
    let f = first_at_or_after(entries, threshold);
    if f < position {
        assert(entries[f].0 < threshold);
    } else if position < f {
        assert(entries[position].0 < threshold);
    }
}

/// An empty deque tracks an empty history.
pub proof fn lemma_tracks_empty<C: Comparator>(floor: int)
    ensures
        tracks::<C>(Seq::<(u64, i64)>::empty(), Seq::<i64>::empty(), floor),
{
}

/// Raising the floor keeps a deque on track.
pub proof fn lemma_tracks_floor<C: Comparator>(
    entries: Seq<(u64, i64)>,
    history: Seq<i64>,
    floor: int,
    higher: int,
)
    requires
        tracks::<C>(entries, history, floor),
        floor <= higher,
    ensures
        tracks::<C>(entries, history, higher),
{
}

/// Pushing the next value of the history keeps a deque on track: the entries
/// that the value matches or beats leave from the back, and the value joins with
/// the next logical index.
pub proof fn lemma_tracks_push<C: Comparator>(
    entries: Seq<(u64, i64)>,
    history: Seq<i64>,
    floor: int,
    kept: int,
    value: i64,
)
    requires
        tracks::<C>(entries, history, floor),
        history.len() <= u64::MAX,
        0 <= kept <= entries.len(),
        forall|i: int| kept <= i < entries.len() ==> C::better_spec(value, (#[trigger] entries[i]).1),
        kept > 0 ==> !C::better_spec(value, entries[kept - 1].1),
    ensures
        tracks::<C>(
            entries.take(kept).push((history.len() as u64, value)),
            history.push(value),
            floor,
        ),
{
    let next = entries.take(kept).push((history.len() as u64, value));
    let longer = history.push(value);
    assert forall|i: int, j: int| 0 <= i < j < next.len() implies next[i].0 < next[j].0 by {
        assert(next[i] == entries[i]);
        if j < kept {
            assert(next[j] == entries[j]);
        }
    }
    assert forall|i: int, j: int| 0 <= i < j < next.len() implies !C::better_spec(
        next[j].1,
        next[i].1,
    ) by {
        assert(next[i] == entries[i]);
        if j < kept {
            assert(next[j] == entries[j]);
        } else {
            if C::better_spec(value, entries[i].1) {
                if i < kept - 1 {
                    C::lemma_total(entries[i].1, entries[kept - 1].1);
                    C::lemma_transitive(value, entries[i].1, entries[kept - 1].1);
                }
            }
        }
    }
    assert forall|i: int| 0 <= i < next.len() implies (#[trigger] next[i]).0 < longer.len()
        && longer[next[i].0 as int] == next[i].1 by {
        if i < kept {
            assert(next[i] == entries[i]);
        }
    }
    assert forall|p: int| 0 <= p && floor <= p < longer.len() implies #[trigger] covered::<C>(
        next,
        longer,
        p,
    ) by {
        if p < history.len() {
            assert(covered::<C>(entries, history, p));
            let i = choose|i: int|
                0 <= i < entries.len() && (#[trigger] entries[i]).0 >= p && C::better_spec(
                    entries[i].1,
                    history[p],
                );
            if i < kept {
                assert(next[i] == entries[i]);
            } else {
                C::lemma_transitive(value, entries[i].1, history[p]);
                assert(next[kept].0 >= p && C::better_spec(next[kept].1, longer[p]));
            }
        } else {
            C::lemma_total(value, value);
            assert(next[kept].0 >= p && C::better_spec(next[kept].1, longer[p]));
        }
    }
}

/// Dropping entries older than `threshold` from the front keeps a deque on
/// track from the higher of the floor and the threshold.
pub proof fn lemma_tracks_evict<C: Comparator>(
    entries: Seq<(u64, i64)>,
    history: Seq<i64>,
    floor: int,
    dropped: int,
    threshold: int,
)
    requires
        tracks::<C>(entries, history, floor),
        0 <= dropped <= entries.len(),
        forall|i: int| 0 <= i < dropped ==> (#[trigger] entries[i]).0 < threshold,
    ensures
        tracks::<C>(
            entries.skip(dropped),
            history,
            if floor >= threshold {
                floor
            } else {
                threshold
            },
        ),
{
    let rest = entries.skip(dropped);
    let higher = if floor >= threshold {
        floor
    } else {
        threshold
    };
    assert forall|i: int, j: int| 0 <= i < j < rest.len() implies rest[i].0 < rest[j].0 by {
        assert(rest[i] == entries[i + dropped]);
        assert(rest[j] == entries[j + dropped]);
    }
    assert forall|i: int, j: int| 0 <= i < j < rest.len() implies !C::better_spec(
        rest[j].1,
        rest[i].1,
    ) by {
        assert(rest[i] == entries[i + dropped]);
        assert(rest[j] == entries[j + dropped]);
    }
    assert forall|i: int| 0 <= i < rest.len() implies (#[trigger] rest[i]).0 < history.len()
        && history[rest[i].0 as int] == rest[i].1 by {
        assert(rest[i] == entries[i + dropped]);
    }
    assert forall|p: int| 0 <= p && higher <= p < history.len() implies #[trigger] covered::<C>(
        rest,
        history,
        p,
    ) by {
        assert(covered::<C>(entries, history, p));
        let i = choose|i: int|
            0 <= i < entries.len() && (#[trigger] entries[i]).0 >= p && C::better_spec(
                entries[i].1,
                history[p],
            );
        assert(i >= dropped);
        assert(rest[i - dropped] == entries[i]);
    }
}

/// In a deque on track, the first entry at or after a threshold holds the best
/// of all values pushed from that threshold on.
pub proof fn lemma_first_in_window_is_best<C: Comparator>(
    entries: Seq<(u64, i64)>,
    history: Seq<i64>,
    floor: int,
    threshold: int,
)
    requires
        tracks::<C>(entries, history, floor),
        0 <= threshold < history.len(),
        floor <= threshold,
    ensures
        0 <= first_at_or_after(entries, threshold) < entries.len(),
        is_best::<C>(
            entries[first_at_or_after(entries, threshold)].1,
            history.subrange(threshold, history.len() as int),
        ),
{
    lemma_first_at_or_after(entries, threshold);
    let f = first_at_or_after(entries, threshold);
    let window = history.subrange(threshold, history.len() as int);
    let newest = history.len() - 1;
    assert(covered::<C>(entries, history, newest));
    let last_cover = choose|i: int|
        0 <= i < entries.len() && (#[trigger] entries[i]).0 >= newest && C::better_spec(
            entries[i].1,
            history[newest],
        );
    if f >= entries.len() {
        assert(entries[last_cover].0 < threshold);
    }
    let found = entries[f];
    assert(window[found.0 - threshold] == found.1);
    assert forall|k: int| 0 <= k < window.len() implies C::better_spec(found.1, window[k]) by {
        let p = threshold + k;
        assert(covered::<C>(entries, history, p));
        let i = choose|i: int|
            0 <= i < entries.len() && (#[trigger] entries[i]).0 >= p && C::better_spec(
                entries[i].1,
                history[p],
            );
        if i < f {
            assert(entries[i].0 < threshold);
        } else if i > f {
            C::lemma_total(found.1, entries[i].1);
            C::lemma_transitive(found.1, entries[i].1, history[p]);
        }
    }
}

/// A window has at most one best value.
pub proof fn lemma_best_is_unique<C: Comparator>(a: i64, b: i64, window: Seq<i64>)
    requires
        is_best::<C>(a, window),
        is_best::<C>(b, window),
    ensures
        a == b,
{
    C::lemma_antisymmetric(a, b);
}

} // verus!
