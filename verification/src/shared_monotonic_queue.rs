//! A strictly monotone deque shared by every window of a geometric ladder.

use crate::ladder::{ladder_fits, span, window_span};
use crate::queue_model::{marked, settled_cache, window_start, QueueModel};
use crate::window::{
    indexes_ascend, lemma_first_at_or_after_unique, lemma_kept_by_unique,
    lemma_pushed_in_order, lemma_skipped_in_order,
};
use std::collections::VecDeque;
use std::marker::PhantomData;
use vstd::prelude::*;

verus! {

/// Decides when a newly arrived value displaces an older one.
pub trait Comparator {
    /// Whether `new` is at least as good as `existing`.
    spec fn better_spec(new: i64, existing: i64) -> bool;

    /// Any two values are comparable.
    proof fn lemma_total(a: i64, b: i64)
        ensures
            Self::better_spec(a, b) || Self::better_spec(b, a),
    ;

    /// The order is transitive.
    proof fn lemma_transitive(a: i64, b: i64, c: i64)
        requires
            Self::better_spec(a, b),
            Self::better_spec(b, c),
        ensures
            Self::better_spec(a, c),
    ;

    /// Two values that are each as good as the other are the same value.
    proof fn lemma_antisymmetric(a: i64, b: i64)
        requires
            Self::better_spec(a, b),
            Self::better_spec(b, a),
        ensures
            a == b,
    ;

    /// Whether `new` displaces `existing` from the back of the deque.
    fn better(new: i64, existing: i64) -> (b: bool)
        ensures
            b == Self::better_spec(new, existing),
    ;

    /// A short label for the order.
    fn name() -> (s: &'static str);
}

/// Orders values so that the smallest is the best.
pub struct MinCmp;

/// Orders values so that the largest is the best.
pub struct MaxCmp;

impl Comparator for MinCmp {
    open spec fn better_spec(new: i64, existing: i64) -> bool {
        new <= existing
    }

    proof fn lemma_total(a: i64, b: i64) {
    }

    proof fn lemma_transitive(a: i64, b: i64, c: i64) {
    }

    proof fn lemma_antisymmetric(a: i64, b: i64) {
    }

    fn better(new: i64, existing: i64) -> (b: bool) {
        new <= existing
    }

    fn name() -> (s: &'static str)
        ensures
            s@ == "min"@,
    {
        "min"
    }
}

impl Comparator for MaxCmp {
    open spec fn better_spec(new: i64, existing: i64) -> bool {
        new >= existing
    }

    proof fn lemma_total(a: i64, b: i64) {
    }

    proof fn lemma_transitive(a: i64, b: i64, c: i64) {
    }

    proof fn lemma_antisymmetric(a: i64, b: i64) {
    }

    fn better(new: i64, existing: i64) -> (b: bool) {
        new >= existing
    }

    fn name() -> (s: &'static str)
        ensures
            s@ == "max"@,
    {
        "max"
    }
}

/// What one level of the ladder remembers about the shared deque.
#[derive(Clone, Copy)]
pub struct LevelView {
    /// The level's position in the ladder, counted from zero.
    pub id: usize,
    /// How many of the most recent values the level spans.
    pub window_size: u64,
    /// The position in the deque that last held the level's best value, if it
    /// is remembered.
    pub best_idx: Option<usize>,
}

/// A strictly monotone deque of `(logical index, value)` entries that serves
/// every window of a ladder: the front is the best value of the widest window,
/// and each narrower window reads the first entry that is young enough for it.
pub struct SharedMonotonicQueue<C: Comparator, const LEVELS: usize, const RADIX: usize> {
    /// The entries, oldest at the front.
    pub entries: VecDeque<(u64, i64)>,
    /// One view per level; the last one never remembers a position.
    pub views: [LevelView; LEVELS],
    /// Ties the deque to its order.
    pub order: PhantomData<C>,
}

impl<C: Comparator, const LEVELS: usize, const RADIX: usize> View for SharedMonotonicQueue<
    C,
    LEVELS,
    RADIX,
> {
    type V = QueueModel;

    open spec fn view(&self) -> QueueModel {
        QueueModel { entries: self.entries@, views: self.views@ }
    }
}

impl<C: Comparator, const LEVELS: usize, const RADIX: usize> SharedMonotonicQueue<
    C,
    LEVELS,
    RADIX,
> {
    /// The entries are ordered by logical index and strictly monotone in value.
    pub open spec fn wf(&self) -> bool {
        self@.in_order::<C>()
    }

    /// Makes an empty deque whose level `k` spans `window_sizes[k]` values.
    pub fn new(window_sizes: [u64; LEVELS]) -> (q: Self)
        ensures
            q@.entries == Seq::<(u64, i64)>::empty(),
            q@.views.len() == LEVELS,
            forall|k: int|
                0 <= k < LEVELS ==> #[trigger] q@.views[k] == (LevelView {
                    id: k as usize,
                    window_size: window_sizes@[k],
                    best_idx: None,
                }),
            q.wf(),
    {
        let mut views = [LevelView { id: 0, window_size: 0, best_idx: None };LEVELS];
        let mut k: usize = 0;
        while k < LEVELS
            invariant
                k <= LEVELS,
                forall|j: int|
                    0 <= j < k ==> #[trigger] views@[j] == (LevelView {
                        id: j as usize,
                        window_size: window_sizes@[j],
                        best_idx: None,
                    }),
            decreases LEVELS - k,
        {
            views[k] = LevelView { id: k, window_size: window_sizes[k], best_idx: None };
            k = k + 1;
        }
        Self { entries: VecDeque::new(), views, order: PhantomData }
    }

    /// Pushes a value with its logical index. Every entry at the back that the
    /// value matches or beats leaves first, so an equal value replaces the older
    /// one. If any entry left, `min_evicted_idx` is lowered to the position that
    /// the new entry takes.
    pub fn push(&mut self, index: u64, value: i64, min_evicted_idx: &mut Option<usize>)
        ensures
            final(self)@ == old(self)@.pushed::<C>(index, value),
            *final(min_evicted_idx) == marked::<C>(
                old(self)@.entries,
                value,
                *old(min_evicted_idx),
            ),
            old(self).wf() && (old(self)@.entries.len() > 0 ==> old(self)@.entries.last().0
                < index) ==> final(self).wf(),
    {
        let mut evicted = false;
        while self.entries.len() > 0
            invariant
                self.views == old(self).views,
                self.entries@.len() <= old(self).entries@.len(),
                self.entries@ == old(self).entries@.take(self.entries@.len() as int),
                forall|i: int|
                    self.entries@.len() <= i < old(self).entries@.len() ==> C::better_spec(
                        value,
                        (#[trigger] old(self).entries@[i]).1,
                    ),
                evicted == (self.entries@.len() < old(self).entries@.len()),
            ensures
                self.entries@.len() >= 1 ==> !C::better_spec(
                    value,
                    old(self).entries@[self.entries@.len() - 1].1,
                ),
            decreases self.entries@.len(),
        {
            let back = self.entries[self.entries.len() - 1];
            if C::better(value, back.1) {
                self.entries.pop_back();
                evicted = true;
            } else {
                break ;
            }
        }
        if evicted {
            let new_idx = self.entries.len();
            match *min_evicted_idx {
                Some(m) => {
                    if new_idx < m {
                        *min_evicted_idx = Some(new_idx);
                    }
                },
                None => {
                    *min_evicted_idx = Some(new_idx);
                },
            }
        }
        proof {
            lemma_kept_by_unique::<C>(old(self).entries@, value, self.entries@.len() as int);
        }
        self.entries.push_back((index, value));
        proof {
            if old(self).wf() && (old(self)@.entries.len() > 0 ==> old(self)@.entries.last().0
                < index) {
                lemma_pushed_in_order::<C>(old(self)@.entries, index, value);
            }
        }
    }

    /// Settles the deque after a run of pushes that ends just before
    /// `current_index`.
    ///
    /// First, if the pushes took entries from the back, every level but the top
    /// forgets the position it remembers: a position below `min_evicted_idx` as
    /// well as one from `min_evicted_idx` on, which names another entry now.
    /// Then the entries that are older than the widest window leave from the
    /// front. Last, every level but the top moves its remembered position
    /// forward by the number of entries that left, and forgets it if its entry
    /// left or has aged out of the level's window.
    pub fn evict(&mut self, current_index: u64, min_evicted_idx: Option<usize>)
        requires
            ladder_fits(LEVELS, RADIX),
        ensures
            final(self)@ == old(self)@.settled(
                current_index,
                window_span(RADIX, LEVELS as nat) as u64,
                min_evicted_idx,
            ),
            final(self)@.entries.len() > 0 ==> final(self)@.entries[0].0 >= window_start(
                current_index,
                window_span(RADIX, LEVELS as nat) as u64,
            ),
            old(self).wf() ==> final(self).wf(),
    {
        if min_evicted_idx.is_some() {
            let mut k: usize = 0;
            while k < LEVELS - 1
                invariant
                    ladder_fits(LEVELS, RADIX),
                    k <= LEVELS - 1,
                    self.entries == old(self).entries,
                    forall|j: int| k <= j < LEVELS ==> self.views@[j] == old(self).views@[j],
                    forall|j: int|
                        0 <= j < k ==> #[trigger] self.views@[j] == (LevelView {
                            id: old(self).views@[j].id,
                            window_size: old(self).views@[j].window_size,
                            best_idx: None,
                        }),
                decreases LEVELS - 1 - k,
            {
                let view = self.views[k];
                if view.best_idx.is_some() {
                    self.views[k] = LevelView {
                        id: view.id,
                        window_size: view.window_size,
                        best_idx: None,
                    };
                }
                k = k + 1;
            }
        }
        let ghost marked = self.views;
        let max_window = span(LEVELS, RADIX, LEVELS) as u64;
        let oldest_allowed = current_index.saturating_sub(max_window);
        assert(oldest_allowed == window_start(current_index, max_window));
        let mut front_evicted: usize = 0;
        assert(old(self).entries@.len() == self.entries.len());
        while self.entries.len() > 0
            invariant
                self.views == marked,
                old(self).entries@.len() <= usize::MAX,
                front_evicted + self.entries@.len() == old(self).entries@.len(),
                self.entries@ == old(self).entries@.skip(front_evicted as int),
                forall|i: int|
                    0 <= i < front_evicted ==> (#[trigger] old(self).entries@[i]).0
                        < oldest_allowed,
            ensures
                self.entries@.len() > 0 ==> self.entries@[0].0 >= oldest_allowed,
            decreases self.entries@.len(),
        {
            let front = self.entries[0];
            if front.0 < oldest_allowed {
                self.entries.pop_front();
                front_evicted = front_evicted + 1;
                assert(self.entries@ == old(self).entries@.skip(front_evicted as int));
            } else {
                break ;
            }
        }
        let mut k: usize = 0;
        while k < LEVELS - 1
            invariant
                ladder_fits(LEVELS, RADIX),
                k <= LEVELS - 1,
                front_evicted + self.entries@.len() == old(self).entries@.len(),
                self.entries@ == old(self).entries@.skip(front_evicted as int),
                forall|j: int| k <= j < LEVELS ==> self.views@[j] == marked@[j],
                forall|j: int|
                    0 <= j < k ==> #[trigger] self.views@[j] == (LevelView {
                        id: marked@[j].id,
                        window_size: marked@[j].window_size,
                        best_idx: settled_cache(
                            marked@[j].best_idx,
                            None,
                            front_evicted as int,
                            self.entries@,
                            window_start(current_index, marked@[j].window_size),
                        ),
                    }),
            decreases LEVELS - 1 - k,
        {
            let view = self.views[k];
            let min_index = current_index.saturating_sub(view.window_size);
            if let Some(i) = view.best_idx {
                let mut moved: Option<usize> = None;
                if i >= front_evicted {
                    let at = i - front_evicted;
                    moved = Some(at);
                    if at < self.entries.len() {
                        let entry = self.entries[at];
                        if entry.0 < min_index {
                            moved = None;
                        }
                    }
                }
                self.views[k] = LevelView {
                    id: view.id,
                    window_size: view.window_size,
                    best_idx: moved,
                };
            }
            k = k + 1;
        }
        proof {
            let before = old(self).entries@;
            let after = self.entries@;
            lemma_first_at_or_after_unique(before, oldest_allowed as int, front_evicted as int);
            let settled = old(self)@.settled(current_index, max_window, min_evicted_idx);
            assert(self@.views =~= settled.views);
            assert(self@.entries =~= settled.entries);
            if old(self).wf() {
                lemma_skipped_in_order::<C>(before, front_evicted as int);
            }
        }
    }

    /// Returns the best value of the level's window, which ends just before
    /// `current_index`.
    ///
    /// The top level reads the front of the deque. Any other level reads the
    /// position it remembers if the entry there is still inside its window;
    /// otherwise it searches for the first entry inside its window, remembers
    /// that position, and reads it. The result is `None` when there is no entry
    /// at the position read.
    pub fn best_or_refresh(&mut self, level: usize, current_index: u64) -> (best: Option<i64>)
        requires
            level < LEVELS,
            indexes_ascend(old(self)@.entries),
        ensures
            best == old(self)@.probe(level as int, current_index),
            final(self)@ == old(self)@.probed(level as int, current_index),
    {
        if level == LEVELS - 1 {
            if self.entries.len() > 0 {
                let front = self.entries[0];
                return Some(front.1);
            }
            return None;
        }
        let view = self.views[level];
        let min_index = current_index.saturating_sub(view.window_size);
        assert(min_index == window_start(current_index, view.window_size));
        if let Some(i) = view.best_idx {
            if i < self.entries.len() {
                let entry = self.entries[i];
                if entry.0 >= min_index {
                    assert(self@.views =~= old(self)@.probed(level as int, current_index).views);
                    return Some(entry.1);
                }
            }
        }
        let mut low: usize = 0;
        let mut high: usize = self.entries.len();
        while low < high
            invariant
                self.entries == old(self).entries,
                indexes_ascend(self.entries@),
                0 <= low <= high <= self.entries@.len(),
                forall|j: int| 0 <= j < low ==> (#[trigger] self.entries@[j]).0 < min_index,
                forall|j: int|
                    high <= j < self.entries@.len() ==> (#[trigger] self.entries@[j]).0
                        >= min_index,
            decreases high - low,
        {
            let middle = low + (high - low) / 2;
            let entry = self.entries[middle];
            if entry.0 < min_index {
                assert forall|j: int| 0 <= j < middle + 1 implies (#[trigger] self.entries@[j]).0
                    < min_index by {
                    if j < middle {
                        assert(self.entries@[j].0 < self.entries@[middle as int].0);
                    }
                }
                low = middle + 1;
            } else {
                assert forall|j: int| middle <= j < self.entries@.len() implies (
                #[trigger] self.entries@[j]).0 >= min_index by {
                    if j > middle {
                        assert(self.entries@[middle as int].0 < self.entries@[j].0);
                    }
                }
                high = middle;
            }
        }
        proof {
            lemma_first_at_or_after_unique(self.entries@, min_index as int, low as int);
        }
        self.views[level] = LevelView {
            id: view.id,
            window_size: view.window_size,
            best_idx: Some(low),
        };
        assert(self@.views =~= old(self)@.probed(level as int, current_index).views);
        if low < self.entries.len() {
            let entry = self.entries[low];
            Some(entry.1)
        } else {
            None
        }
    }

    /// The position that each level remembers.
    pub fn debug_best_indexes(&self) -> (indexes: [Option<usize>; LEVELS])
        ensures
            forall|k: int| 0 <= k < LEVELS ==> #[trigger] indexes@[k] == self.views@[k].best_idx,
    {
        let mut indexes: [Option<usize>; LEVELS] = [None;LEVELS];
        let mut k: usize = 0;
        while k < LEVELS
            invariant
                k <= LEVELS,
                forall|j: int| 0 <= j < k ==> #[trigger] indexes@[j] == self.views@[j].best_idx,
            decreases LEVELS - k,
        {
            indexes[k] = self.views[k].best_idx;
            k = k + 1;
        }
        indexes
    }
}

} // verus!
