//! The mathematical content of a shared deque, and what pushing, settling and
//! querying do to it.

use crate::shared_monotonic_queue::{Comparator, LevelView};
use crate::window::{
    first_at_or_after, indexes_ascend, is_best, kept_by, lemma_first_at_or_after,
    lemma_first_at_or_after_unique, lemma_first_in_window_is_best, lemma_kept_by,
    lemma_tracks_evict, lemma_tracks_push, pushed, pushed_all, strictly_monotone, tail, tracks,
};
use vstd::prelude::*;

verus! {

/// The oldest logical index inside a window of `window_size` values that ends
/// just before `current_index`.
pub open spec fn window_start(current_index: u64, window_size: u64) -> int {
    if current_index >= window_size {
        current_index - window_size
    } else {
        0
    }
}

/// The lower of a pending mark and a new position.
pub open spec fn lowered_mark(mark: Option<usize>, position: usize) -> Option<usize> {
    match mark {
        Some(m) => if position < m {
            Some(position)
        } else {
            Some(m)
        },
        None => Some(position),
    }
}

/// What a remembered position becomes when the deque settles. It is forgotten
/// if pushes took entries from the back since the deque last settled: a
/// position from the mark on names another entry now, and one below the mark
/// is searched for afresh. It is forgotten as well if its entry left from the
/// front, or if its entry has aged out of the level's window. Otherwise it
/// moves forward by the number of entries that left.
pub open spec fn settled_cache(
    best_idx: Option<usize>,
    mark: Option<usize>,
    dropped: int,
    remaining: Seq<(u64, i64)>,
    start: int,
) -> Option<usize> {
    match best_idx {
        None => None,
        Some(i) => if mark is Some {
            None
        } else if i < dropped {
            None
        } else if i - dropped < remaining.len() && remaining[i - dropped].0 < start {
            None
        } else {
            Some((i - dropped) as usize)
        },
    }
}

/// The mark after `value` is pushed onto `entries`: lowered to the position
/// that the new entry takes if any entry left, and unchanged otherwise.
pub open spec fn marked<C: Comparator>(
    entries: Seq<(u64, i64)>,
    value: i64,
    mark: Option<usize>,
) -> Option<usize> {
    if kept_by::<C>(entries, value) < entries.len() {
        lowered_mark(mark, kept_by::<C>(entries, value) as usize)
    } else {
        mark
    }
}

/// The mark after `values` are pushed in order onto `entries`, the first of
/// them with logical index `first_index`.
pub open spec fn marked_all<C: Comparator>(
    entries: Seq<(u64, i64)>,
    first_index: int,
    values: Seq<i64>,
    mark: Option<usize>,
) -> Option<usize>
    decreases values.len(),
{
    if values.len() == 0 {
        mark
    } else {
        marked::<C>(
            pushed_all::<C>(entries, first_index, values.drop_last()),
            values.last(),
            marked_all::<C>(entries, first_index, values.drop_last(), mark),
        )
    }
}

/// The mathematical content of a shared deque: its entries, oldest first, and
/// one view per level.
pub struct QueueModel {
    pub entries: Seq<(u64, i64)>,
    pub views: Seq<LevelView>,
}

impl QueueModel {
    /// The entries are ordered by logical index and strictly monotone in value.
    pub open spec fn in_order<C: Comparator>(self) -> bool {
        &&& indexes_ascend(self.entries)
        &&& strictly_monotone::<C>(self.entries)
    }

    /// The deque after `value` is pushed with logical index `index`.
    pub open spec fn pushed<C: Comparator>(self, index: u64, value: i64) -> QueueModel {
        QueueModel { entries: pushed::<C>(self.entries, index, value), views: self.views }
    }

    /// The deque after it settles at `current_index`, where the widest window
    /// spans `top_window` values and `mark` is the lowest position that pushes
    /// rewrote since it last settled.
    pub open spec fn settled(
        self,
        current_index: u64,
        top_window: u64,
        mark: Option<usize>,
    ) -> QueueModel {
        let dropped = first_at_or_after(self.entries, window_start(current_index, top_window));
        let remaining = self.entries.skip(dropped);
        QueueModel {
            entries: remaining,
            views: Seq::new(
                self.views.len(),
                |k: int|
                    if k == self.views.len() - 1 {
                        self.views[k]
                    } else {
                        LevelView {
                            id: self.views[k].id,
                            window_size: self.views[k].window_size,
                            best_idx: settled_cache(
                                self.views[k].best_idx,
                                mark,
                                dropped,
                                remaining,
                                window_start(current_index, self.views[k].window_size),
                            ),
                        }
                    },
            ),
        }
    }

    /// Whether the level remembers a position whose entry is still inside the
    /// level's window.
    pub open spec fn cache_hit(self, level: int, current_index: u64) -> bool {
        match self.views[level].best_idx {
            Some(i) => i < self.entries.len() && self.entries[i as int].0 >= window_start(
                current_index,
                self.views[level].window_size,
            ),
            None => false,
        }
    }

    /// The position that a query of the level reads: the front for the top
    /// level, the remembered position where its entry is still inside the
    /// window, and otherwise the first entry that is inside the window.
    pub open spec fn probe_position(self, level: int, current_index: u64) -> int {
        if level == self.views.len() - 1 {
            0
        } else if self.cache_hit(level, current_index) {
            self.views[level].best_idx->0 as int
        } else {
            first_at_or_after(
                self.entries,
                window_start(current_index, self.views[level].window_size),
            )
        }
    }

    /// The value that a query of the level returns.
    pub open spec fn probe(self, level: int, current_index: u64) -> Option<i64> {
        let position = self.probe_position(level, current_index);
        if position < self.entries.len() {
            Some(self.entries[position].1)
        } else {
            None
        }
    }

    /// The deque after a query of the level: the level remembers the position
    /// that was read, unless it is the top level, which remembers nothing.
    pub open spec fn probed(self, level: int, current_index: u64) -> QueueModel {
        if level == self.views.len() - 1 {
            self
        } else {
            QueueModel {
                entries: self.entries,
                views: self.views.update(
                    level,
                    LevelView {
                        id: self.views[level].id,
                        window_size: self.views[level].window_size,
                        best_idx: Some(self.probe_position(level, current_index) as usize),
                    },
                ),
            }
        }
    }

    /// A query of the level reads the first entry inside the level's window.
    pub open spec fn exact(self, level: int, current_index: u64) -> bool {
        self.probe_position(level, current_index) == first_at_or_after(
            self.entries,
            window_start(current_index, self.views[level].window_size),
        )
    }

    /// The level remembers nothing, or it remembers the position of an entry
    /// with nothing but entries older than the level's window in front of it.
    pub open spec fn anchored(self, level: int, current_index: u64) -> bool {
        match self.views[level].best_idx {
            None => true,
            Some(i) => i < self.entries.len() && forall|j: int|
                0 <= j < i ==> (#[trigger] self.entries[j]).0 < window_start(
                    current_index,
                    self.views[level].window_size,
                ),
        }
    }

    /// The level remembers nothing, or it remembers the position of the first
    /// entry inside its window.
    pub open spec fn names_first(self, level: int, current_index: u64) -> bool {
        self.anchored(level, current_index) && (self.views[level].best_idx is Some
            ==> self.cache_hit(level, current_index))
    }

    /// The same deque with nothing remembered.
    pub open spec fn forgetful(self) -> QueueModel {
        QueueModel {
            entries: self.entries,
            views: Seq::new(
                self.views.len(),
                |k: int|
                    LevelView {
                        id: self.views[k].id,
                        window_size: self.views[k].window_size,
                        best_idx: None,
                    },
            ),
        }
    }

    /// The deque after a whole batch: `values` are pushed in order, the first
    /// of them with logical index `first_index`, and then the deque settles.
    pub open spec fn batched<C: Comparator>(
        self,
        first_index: int,
        values: Seq<i64>,
        top_window: u64,
    ) -> QueueModel {
        (QueueModel {
            entries: pushed_all::<C>(self.entries, first_index, values),
            views: self.views,
        }).settled(
            (first_index + values.len()) as u64,
            top_window,
            marked_all::<C>(self.entries, first_index, values, None),
        )
    }

    /// Pushing the next value of the history keeps the deque on its track.
    pub proof fn lemma_pushed_tracks<C: Comparator>(
        self,
        history: Seq<i64>,
        floor: int,
        value: i64,
    )
        requires
            tracks::<C>(self.entries, history, floor),
            history.len() <= u64::MAX,
        ensures
            tracks::<C>(
                self.pushed::<C>(history.len() as u64, value).entries,
                history.push(value),
                floor,
            ),
    {
        lemma_kept_by::<C>(self.entries, value);
        lemma_tracks_push::<C>(
            self.entries,
            history,
            floor,
            kept_by::<C>(self.entries, value),
            value,
        );
    }

    /// Settling keeps the deque on its track, from the start of the widest
    /// window on, and leaves no entry in front of that start.
    pub proof fn lemma_settled_tracks<C: Comparator>(
        self,
        history: Seq<i64>,
        floor: int,
        current_index: u64,
        top_window: u64,
        mark: Option<usize>,
    )
        requires
            tracks::<C>(self.entries, history, floor),
        ensures
            tracks::<C>(
                self.settled(current_index, top_window, mark).entries,
                history,
                if floor >= window_start(current_index, top_window) {
                    floor
                } else {
                    window_start(current_index, top_window)
                },
            ),
            self.settled(current_index, top_window, mark).entries.len() > 0 ==> self.settled(
                current_index,
                top_window,
                mark,
            ).entries[0].0 >= window_start(current_index, top_window),
    {
        let start = window_start(current_index, top_window);
        lemma_first_at_or_after(self.entries, start);
        lemma_tracks_evict::<C>(
            self.entries,
            history,
            floor,
            first_at_or_after(self.entries, start),
            start,
        );
    }

    /// Where a query reads the first entry inside the level's window, it returns
    /// the best of the values pushed in that window.
    pub proof fn lemma_exact_probe_is_best<C: Comparator>(
        self,
        level: int,
        history: Seq<i64>,
        floor: int,
    )
        requires
            0 <= level < self.views.len(),
            tracks::<C>(self.entries, history, floor),
            1 <= history.len() <= u64::MAX,
            self.views[level].window_size >= 1,
            floor <= window_start(history.len() as u64, self.views[level].window_size),
            self.exact(level, history.len() as u64),
        ensures
            self.probe(level, history.len() as u64) is Some,
            is_best::<C>(
                self.probe(level, history.len() as u64)->0,
                tail(history, self.views[level].window_size as int),
            ),
    {
        let start = window_start(history.len() as u64, self.views[level].window_size);
        lemma_first_in_window_is_best::<C>(self.entries, history, floor, start);
        assert(tail(history, self.views[level].window_size as int) =~= history.subrange(
            start,
            history.len() as int,
        ));
    }

    /// The top level reads the first entry inside its window whenever no entry
    /// in front of that window is left.
    pub proof fn lemma_top_is_exact(self, current_index: u64)
        requires
            self.views.len() >= 1,
            self.entries.len() > 0 ==> self.entries[0].0 >= window_start(
                current_index,
                self.views[self.views.len() - 1].window_size,
            ),
        ensures
            self.exact(self.views.len() - 1, current_index),
    {
        lemma_first_at_or_after_unique(
            self.entries,
            window_start(current_index, self.views[self.views.len() - 1].window_size),
            0,
        );
    }

    /// An anchored level reads the first entry inside its window.
    pub proof fn lemma_anchored_is_exact(self, level: int, current_index: u64)
        requires
            0 <= level < self.views.len() - 1,
            self.anchored(level, current_index),
        ensures
            self.exact(level, current_index),
    {
        if self.cache_hit(level, current_index) {
            lemma_first_at_or_after_unique(
                self.entries,
                window_start(current_index, self.views[level].window_size),
                self.views[level].best_idx->0 as int,
            );
        }
    }

    /// What an anchored level remembers never changes an answer: a query
    /// returns what it returns on the same deque with nothing remembered.
    pub proof fn lemma_cache_is_transparent(self, level: int, current_index: u64)
        requires
            0 <= level < self.views.len(),
            level < self.views.len() - 1 ==> self.anchored(level, current_index),
        ensures
            self.probe(level, current_index) == self.forgetful().probe(level, current_index),
    {
        if level < self.views.len() - 1 {
            self.lemma_anchored_is_exact(level, current_index);
        }
    }

    /// A query that finds an entry leaves a level that named the first entry
    /// inside its window, or nothing, naming that first entry; the other levels
    /// are left as they were.
    pub proof fn lemma_probed_names_first(self, level: int, current_index: u64)
        requires
            0 <= level < self.views.len(),
            self.entries.len() <= usize::MAX,
            self.probe(level, current_index) is Some,
            level < self.views.len() - 1 ==> self.anchored(level, current_index),
        ensures
            level < self.views.len() - 1 ==> self.probed(level, current_index).names_first(
                level,
                current_index,
            ),
            forall|other: int, at: u64|
                0 <= other < self.views.len() && (other != level || level == self.views.len() - 1)
                    ==> self.probed(level, current_index).names_first(other, at)
                    == self.names_first(other, at),
    {
        let start = window_start(current_index, self.views[level].window_size);
        lemma_first_at_or_after(self.entries, start);
        if level < self.views.len() - 1 {
            self.lemma_anchored_is_exact(level, current_index);
            let after = self.probed(level, current_index);
            let found = first_at_or_after(self.entries, start);
            assert(self.probe_position(level, current_index) == found);
            assert(after.views[level].best_idx == Some(found as usize));
            assert(after.views[level].window_size == self.views[level].window_size);
            assert(after.entries == self.entries);
            assert(after.cache_hit(level, current_index));
            assert(after.anchored(level, current_index));
        }
    }

    /// A push that takes no entry from the back leaves an anchored level
    /// anchored, at the same index and at any later one.
    pub proof fn lemma_pushed_anchored<C: Comparator>(
        self,
        level: int,
        index: u64,
        value: i64,
        current_index: u64,
        later: u64,
    )
        requires
            0 <= level < self.views.len(),
            self.anchored(level, current_index),
            current_index <= later,
            kept_by::<C>(self.entries, value) == self.entries.len(),
        ensures
            self.pushed::<C>(index, value).anchored(level, later),
    {
        let after = self.pushed::<C>(index, value);
        assert(self.entries.take(self.entries.len() as int) =~= self.entries);
        if self.views[level].best_idx is Some {
            let i = self.views[level].best_idx->0 as int;
            assert forall|j: int| 0 <= j < i implies (#[trigger] after.entries[j]).0
                < window_start(later, self.views[level].window_size) by {
                assert(after.entries[j] == self.entries[j]);
            }
        }
    }

    /// Settling leaves every level below the top naming the first entry inside
    /// its window, or nothing, if pushes took entries from the back or if the
    /// level was anchored.
    pub proof fn lemma_settled_names_first(
        self,
        level: int,
        current_index: u64,
        top_window: u64,
        mark: Option<usize>,
    )
        requires
            0 <= level < self.views.len() - 1,
            mark is Some || self.anchored(level, current_index),
        ensures
            self.settled(current_index, top_window, mark).names_first(level, current_index),
    {
        let after = self.settled(current_index, top_window, mark);
        let dropped = first_at_or_after(self.entries, window_start(current_index, top_window));
        lemma_first_at_or_after(self.entries, window_start(current_index, top_window));
        if after.views[level].best_idx is Some {
            let moved = after.views[level].best_idx->0 as int;
            assert(moved == self.views[level].best_idx->0 - dropped);
            assert forall|j: int| 0 <= j < moved implies (#[trigger] after.entries[j]).0
                < window_start(current_index, self.views[level].window_size) by {
                assert(after.entries[j] == self.entries[j + dropped]);
            }
        }
    }

    /// Pushes that take no entry from the back leave an anchored level
    /// anchored.
    pub proof fn lemma_pushed_all_anchored<C: Comparator>(
        self,
        level: int,
        first_index: u64,
        values: Seq<i64>,
    )
        requires
            0 <= level < self.views.len(),
            first_index + values.len() <= u64::MAX,
            self.anchored(level, first_index),
            marked_all::<C>(self.entries, first_index as int, values, None) is None,
        ensures
            (QueueModel {
                entries: pushed_all::<C>(self.entries, first_index as int, values),
                views: self.views,
            }).anchored(level, (first_index + values.len()) as u64),
        decreases values.len(),
    {
        if values.len() > 0 {
            let earlier = values.drop_last();
            let grown = QueueModel {
                entries: pushed_all::<C>(self.entries, first_index as int, earlier),
                views: self.views,
            };
            lemma_kept_by::<C>(grown.entries, values.last());
            self.lemma_pushed_all_anchored::<C>(level, first_index, earlier);
            grown.lemma_pushed_anchored::<C>(
                level,
                (first_index + values.len() - 1) as u64,
                values.last(),
                (first_index + earlier.len()) as u64,
                (first_index + values.len()) as u64,
            );
        }
    }

    /// After a whole batch, every level below the top that was anchored names
    /// the first entry inside its window, or nothing.
    pub proof fn lemma_batched_names_first<C: Comparator>(
        self,
        level: int,
        first_index: u64,
        values: Seq<i64>,
        top_window: u64,
    )
        requires
            0 <= level < self.views.len() - 1,
            first_index + values.len() <= u64::MAX,
            self.anchored(level, first_index),
        ensures
            self.batched::<C>(first_index as int, values, top_window).names_first(
                level,
                (first_index + values.len()) as u64,
            ),
    {
        let mark = marked_all::<C>(self.entries, first_index as int, values, None);
        let grown = QueueModel {
            entries: pushed_all::<C>(self.entries, first_index as int, values),
            views: self.views,
        };
        if mark is None {
            self.lemma_pushed_all_anchored::<C>(level, first_index, values);
        }
        grown.lemma_settled_names_first(
            level,
            (first_index + values.len()) as u64,
            top_window,
            mark,
        );
    }
}

} // verus!
