//! The per-symbol aggregator: a ring of the most recent values, the occupancy
//! of every window of the ladder, and the two shared deques that hold the
//! smallest and the largest value of every window.
//!
//! Values are 64-bit keys that the caller orders as it orders its samples. The
//! aggregator never does arithmetic on a value: it stores it, compares it, and
//! hands it back.
//!
//! Between batches the aggregator is well formed (`wf`): every query then
//! reports the true extremes of its window. `add_batch` takes a whole batch in.
//! A caller that decides value by value what to take in runs the batch itself:
//! it starts with fresh `EvictionMarks`, calls `push` for each value it takes
//! in, and ends with `evict`. Between those calls the weaker `inv` holds, and
//! `oldest` and the getters can be called, but `get_stats` cannot.

use crate::ladder::{ladder_fits, lemma_spans_bounded, span, window_span};
use crate::moments::{lemma_constant_window, lemma_mean_between, total, total_of_squares};
use crate::ring::{
    lemma_slot_back, lemma_slot_bound, lemma_slot_small, lemma_slot_step, lemma_slots_distinct,
    slot,
};
use crate::queue_model::{marked, marked_all, window_start, QueueModel};
use crate::shared_monotonic_queue::{MaxCmp, MinCmp, SharedMonotonicQueue};
use crate::window::{
    is_best, lemma_best_is_unique, lemma_kept_by, lemma_tracks_empty, lemma_tracks_floor,
    pushed_all, tail, tracks,
};
use vstd::prelude::*;

verus! {

/// The occupancy of one window of the ladder.
#[derive(Clone, Copy)]
pub struct LevelStats {
    /// The level's position in the ladder, counted from zero.
    pub id: usize,
    /// How many of the most recent values the level spans.
    pub size: usize,
    /// How many values the level holds now.
    pub count: usize,
}

impl LevelStats {
    /// Whether the level holds as many values as it spans.
    pub fn is_full(&self) -> (full: bool)
        ensures
            full == (self.count == self.size),
    {
        self.count == self.size
    }

    /// Makes room for one more value: a full level lets its oldest value go.
    /// Returns whether a value left.
    pub fn evict_oldest(&mut self) -> (evicted: bool)
        ensures
            evicted == (old(self).count == old(self).size),
            final(self).id == old(self).id,
            final(self).size == old(self).size,
            final(self).count == if evicted && old(self).count > 0 {
                old(self).count - 1
            } else {
                old(self).count as int
            },
    {
        if !self.is_full() {
            return false;
        }
        self.count = self.count.saturating_sub(1);
        true
    }

    /// Takes one more value, after letting the oldest one go if the level was
    /// full. Returns whether a value left.
    pub fn push(&mut self) -> (evicted: bool)
        requires
            old(self).count <= old(self).size,
            old(self).size >= 1,
        ensures
            evicted == (old(self).count == old(self).size),
            final(self).id == old(self).id,
            final(self).size == old(self).size,
            final(self).count == if evicted {
                old(self).count
            } else {
                (old(self).count + 1) as usize
            },
    {
        let evicted = self.evict_oldest();
        self.count = self.count + 1;
        evicted
    }
}

/// What one window holds: its smallest, largest and newest value, and how many
/// values it holds.
#[derive(Clone, Copy, Debug, PartialEq, Eq)]
pub struct StatsResult {
    pub min: i64,
    pub max: i64,
    pub last: i64,
    pub count: usize,
}

/// The lowest deque positions that the pushes of one batch rewrote, for the
/// deque of smallest values and for the deque of largest values.
#[derive(Clone, Copy, Debug)]
pub struct EvictionMarks {
    pub min: Option<usize>,
    pub max: Option<usize>,
}

impl EvictionMarks {
    /// The marks before the first push of a batch.
    pub fn new() -> (marks: Self)
        ensures
            marks.min is None,
            marks.max is None,
    {
        EvictionMarks { min: None, max: None }
    }
}

/// An aggregator over a ladder of `LEVELS` windows, where window `k`, counted
/// from one, spans the `RADIX^k` most recent values.
pub struct SymbolAggregator<const LEVELS: usize, const RADIX: usize> {
    /// The ring of the most recent values.
    buffer: Vec<i64>,
    /// The length of the ring, which is the span of the widest window.
    capacity: usize,
    /// The ring position of the newest value; `capacity` before the first one.
    tip: usize,
    /// How many ring positions hold a value.
    len: usize,
    /// How many values were taken in since construction.
    index: u64,
    /// The occupancy of each window.
    levels: [LevelStats; LEVELS],
    /// The deque of smallest values.
    minq: SharedMonotonicQueue<MinCmp, LEVELS, RADIX>,
    /// The deque of largest values.
    maxq: SharedMonotonicQueue<MaxCmp, LEVELS, RADIX>,
    /// Every value taken in since construction, oldest first.
    history: Ghost<Seq<i64>>,
}

impl<const LEVELS: usize, const RADIX: usize> View for SymbolAggregator<LEVELS, RADIX> {
    type V = Seq<i64>;

    /// Every value taken in since construction, oldest first. The logical index
    /// of a value is its position in this sequence.
    closed spec fn view(&self) -> Seq<i64> {
        self.history@
    }
}

impl<const LEVELS: usize, const RADIX: usize> SymbolAggregator<LEVELS, RADIX> {
    /// The span of the widest window, which is also the length of the ring.
    pub open spec fn top_window() -> int {
        window_span(RADIX, LEVELS as nat)
    }

    /// The span of window `k`, counted from one.
    pub open spec fn window(k: int) -> int {
        window_span(RADIX, k as nat)
    }

    /// The content of the deque of smallest values.
    pub closed spec fn min_queue(&self) -> QueueModel {
        self.minq@
    }

    /// The content of the deque of largest values.
    pub closed spec fn max_queue(&self) -> QueueModel {
        self.maxq@
    }

    /// How many values window `k`, counted from one, is recorded to hold.
    pub closed spec fn count(&self, k: int) -> int {
        self.levels@[k - 1].count as int
    }

    /// The ring holds the newest values of the history at the positions of
    /// their logical indexes, every window records the occupancy that the
    /// history gives it, and both deques are on the track of the history. This
    /// holds at every moment, also between the pushes of a batch.
    pub closed spec fn inv(&self) -> bool {
        &&& ladder_fits(LEVELS, RADIX)
        &&& self.capacity == Self::top_window()
        &&& self.buffer@.len() == self.capacity
        &&& self.index == self.history@.len()
        &&& self.len == if self.index <= self.capacity {
            self.index as int
        } else {
            self.capacity as int
        }
        &&& self.tip == if self.index == 0 {
            self.capacity as int
        } else {
            slot(self.index - 1, self.capacity as int)
        }
        &&& forall|j: int|
            self.index - self.len <= j < self.index ==> self.buffer@[slot(j, self.capacity as int)]
                == #[trigger] self.history@[j]
        &&& forall|k: int|
            0 <= k < LEVELS ==> {
                &&& (#[trigger] self.levels@[k]).id == k
                &&& self.levels@[k].size == Self::window(k + 1)
                &&& self.levels@[k].count == if self.index <= self.levels@[k].size {
                    self.index as int
                } else {
                    self.levels@[k].size as int
                }
            }
        &&& forall|k: int|
            0 <= k < LEVELS ==> (#[trigger] self.minq@.views[k]).window_size == Self::window(k + 1)
        &&& forall|k: int|
            0 <= k < LEVELS ==> (#[trigger] self.maxq@.views[k]).window_size == Self::window(k + 1)
        &&& tracks::<MinCmp>(
            self.minq@.entries,
            self.history@,
            window_start(self.index, self.capacity as u64),
        )
        &&& tracks::<MaxCmp>(
            self.maxq@.entries,
            self.history@,
            window_start(self.index, self.capacity as u64),
        )
    }

    /// Neither deque holds an entry that is older than the widest window.
    pub open spec fn settled(&self) -> bool {
        &&& self.min_queue().entries.len() > 0 ==> self.min_queue().entries[0].0 >= self@.len()
            - Self::top_window()
        &&& self.max_queue().entries.len() > 0 ==> self.max_queue().entries[0].0 >= self@.len()
            - Self::top_window()
    }

    /// Neither deque remembers a position for window `k`, counted from one.
    pub open spec fn forgotten(&self, k: int) -> bool {
        &&& self.min_queue().views[k - 1].best_idx is None
        &&& self.max_queue().views[k - 1].best_idx is None
    }

    /// For window `k`, counted from one and below the widest, each deque
    /// remembers nothing or the position of the first entry inside the window.
    pub open spec fn names_first(&self, k: int) -> bool {
        &&& self.min_queue().names_first(k - 1, self@.len() as u64)
        &&& self.max_queue().names_first(k - 1, self@.len() as u64)
    }

    /// The state between batches: the aggregator is settled, and whatever a
    /// deque remembers for a window is the first entry inside that window. A
    /// batch can start from it with fresh marks.
    pub open spec fn wf(&self) -> bool {
        &&& self.inv()
        &&& self.settled()
        &&& forall|k: int| 1 <= k < LEVELS ==> #[trigger] self.names_first(k)
        &&& self.marked_by(EvictionMarks { min: None, max: None })
    }

    /// The state between the pushes of a batch with the marks so far: a deque
    /// from whose back no push of the batch took an entry is anchored for
    /// every window below the widest.
    pub open spec fn marked_by(&self, marks: EvictionMarks) -> bool {
        &&& marks.min is None ==> forall|k: int|
            1 <= k < LEVELS ==> #[trigger] self.min_queue().anchored(k - 1, self@.len() as u64)
        &&& marks.max is None ==> forall|k: int|
            1 <= k < LEVELS ==> #[trigger] self.max_queue().anchored(k - 1, self@.len() as u64)
    }

    /// Windows that name the first entry inside them are anchored.
    proof fn lemma_named_is_marked(&self)
        requires
            forall|k: int| 1 <= k < LEVELS ==> #[trigger] self.names_first(k),
        ensures
            self.marked_by(EvictionMarks { min: None, max: None }),
    {
        assert forall|k: int| 1 <= k < LEVELS implies #[trigger] self.min_queue().anchored(
            k - 1,
            self@.len() as u64,
        ) by {
            assert(self.names_first(k));
        }
        assert forall|k: int| 1 <= k < LEVELS implies #[trigger] self.max_queue().anchored(
            k - 1,
            self@.len() as u64,
        ) by {
            assert(self.names_first(k));
        }
    }

    /// Makes an aggregator that has taken in nothing.
    pub fn new() -> (agg: Self)
        requires
            ladder_fits(LEVELS, RADIX),
        ensures
            agg.wf(),
            agg@ == Seq::<i64>::empty(),
            agg.settled(),
            forall|k: int| 1 <= k <= LEVELS ==> #[trigger] agg.forgotten(k),
    {
        let capacity = span(LEVELS, RADIX, LEVELS);
        let mut sizes: [u64; LEVELS] = [0;LEVELS];
        let mut levels = [LevelStats { id: 0, size: 0, count: 0 };LEVELS];
        let mut k: usize = 0;
        while k < LEVELS
            invariant
                ladder_fits(LEVELS, RADIX),
                k <= LEVELS,
                forall|j: int| 0 <= j < k ==> #[trigger] sizes@[j] == Self::window(j + 1),
                forall|j: int|
                    0 <= j < k ==> #[trigger] levels@[j] == (LevelStats {
                        id: j as usize,
                        size: Self::window(j + 1) as usize,
                        count: 0,
                    }),
            decreases LEVELS - k,
        {
            proof {
                lemma_spans_bounded(LEVELS, RADIX, (k + 1) as nat);
            }
            let size = span(LEVELS, RADIX, k + 1);
            sizes[k] = size as u64;
            levels[k] = LevelStats { id: k, size, count: 0 };
            k = k + 1;
        }
        let minq = SharedMonotonicQueue::<MinCmp, LEVELS, RADIX>::new(sizes);
        let maxq = SharedMonotonicQueue::<MaxCmp, LEVELS, RADIX>::new(sizes);
        let agg = Self {
            buffer: vec![0i64; capacity],
            capacity,
            tip: capacity,
            len: 0,
            index: 0,
            levels,
            minq,
            maxq,
            history: Ghost(Seq::<i64>::empty()),
        };
        proof {
            lemma_tracks_empty::<MinCmp>(0);
            lemma_tracks_empty::<MaxCmp>(0);
            assert forall|j: int| 0 <= j < LEVELS implies 1 <= #[trigger] Self::window(j + 1)
                <= usize::MAX by {
                lemma_spans_bounded(LEVELS, RADIX, (j + 1) as nat);
            }
            agg.lemma_named_is_marked();
        }
        agg
    }

    /// How many values were taken in since construction.
    pub fn index(&self) -> (n: u64)
        requires
            self.inv(),
        ensures
            n == self@.len(),
    {
        self.index
    }

    /// The span of the widest window.
    pub fn capacity(&self) -> (c: usize)
        requires
            self.inv(),
        ensures
            c == Self::top_window(),
    {
        self.capacity
    }

    /// How many of the most recent values the ring holds.
    pub fn len(&self) -> (n: usize)
        requires
            self.inv(),
        ensures
            n == tail(self@, Self::top_window()).len(),
    {
        self.len
    }

    /// Whether the ring holds as many values as the widest window spans.
    pub fn is_full(&self) -> (full: bool)
        requires
            self.inv(),
        ensures
            full == (self@.len() >= Self::top_window()),
    {
        self.len == self.capacity
    }

    /// The newest value, if any value was taken in.
    pub fn get_last(&self) -> (last: Option<i64>)
        requires
            self.inv(),
        ensures
            last == if self@.len() > 0 {
                Some(self@.last())
            } else {
                None
            },
    {
        proof {
            lemma_spans_bounded(LEVELS, RADIX, LEVELS as nat);
        }
        if self.len > 0 {
            return Some(self.buffer[self.tip]);
        }
        None
    }

    /// The value that leaves window `k`, counted from one, when the next value
    /// is taken in: the oldest value of the window if the window is full, and
    /// none if it is still filling or if there is no such window.
    pub fn oldest(&self, k: u32) -> (leaving: Option<i64>)
        requires
            self.inv(),
        ensures
            leaving == if 1 <= k <= LEVELS && self@.len() >= Self::window(k as int) {
                Some(self@[self@.len() - Self::window(k as int)])
            } else {
                None
            },
    {
        let k = k as usize;
        if k < 1 || k > LEVELS {
            return None;
        }
        let level = self.levels[k - 1];
        if !level.is_full() {
            return None;
        }
        proof {
            lemma_spans_bounded(LEVELS, RADIX, k as nat);
            lemma_slot_bound(self.index - 1, self.capacity as int);
            lemma_slot_back(self.index - 1, self.capacity as int, level.size - 1);
        }
        let back = level.size - 1;
        let position = if self.tip >= back {
            self.tip - back
        } else {
            self.capacity - (back - self.tip)
        };
        Some(self.buffer[position])
    }

    /// Takes in one value: every full window lets its oldest value go, the ring
    /// and every window take the value, and both deques take it with the next
    /// logical index. The deques are not settled: `marks` collects what `evict`
    /// needs for that.
    pub fn push(&mut self, value: i64, marks: &mut EvictionMarks)
        requires
            old(self).inv(),
            old(self).marked_by(*old(marks)),
            old(self)@.len() < u64::MAX,
        ensures
            final(self).inv(),
            final(self).marked_by(*final(marks)),
            final(self)@ == old(self)@.push(value),
            final(self)@.len() == old(self)@.len() + 1,
            final(self)@.last() == value,
            final(self).min_queue() == old(self).min_queue().pushed::<MinCmp>(
                old(self)@.len() as u64,
                value,
            ),
            final(self).max_queue() == old(self).max_queue().pushed::<MaxCmp>(
                old(self)@.len() as u64,
                value,
            ),
            final(marks).min == marked::<MinCmp>(
                old(self).min_queue().entries,
                value,
                old(marks).min,
            ),
            final(marks).max == marked::<MaxCmp>(
                old(self).max_queue().entries,
                value,
                old(marks).max,
            ),
    {
        proof {
            lemma_spans_bounded(LEVELS, RADIX, LEVELS as nat);
        }
        let mut k: usize = 0;
        while k < LEVELS
            invariant
                old(self).inv(),
                k <= LEVELS,
                self.buffer == old(self).buffer,
                self.capacity == old(self).capacity,
                self.tip == old(self).tip,
                self.len == old(self).len,
                self.index == old(self).index,
                self.minq == old(self).minq,
                self.maxq == old(self).maxq,
                self.history == old(self).history,
                forall|j: int| k <= j < LEVELS ==> self.levels@[j] == old(self).levels@[j],
                forall|j: int|
                    0 <= j < k ==> {
                        &&& (#[trigger] self.levels@[j]).id == j
                        &&& self.levels@[j].size == Self::window(j + 1)
                        &&& self.levels@[j].count == if self.index + 1 <= self.levels@[j].size {
                            self.index + 1
                        } else {
                            self.levels@[j].size as int
                        }
                    },
            decreases LEVELS - k,
        {
            proof {
                lemma_spans_bounded(LEVELS, RADIX, (k + 1) as nat);
            }
            let mut level = self.levels[k];
            level.push();
            self.levels[k] = level;
            k = k + 1;
        }
        if self.len < self.capacity {
            self.len = self.len + 1;
        }
        self.tip = if self.tip >= self.capacity - 1 {
            0
        } else {
            self.tip + 1
        };
        proof {
            let n = self.index as int;
            let c = self.capacity as int;
            if n > 0 {
                lemma_slot_bound(n - 1, c);
                lemma_slot_step(n - 1, c);
                assert(old(self).tip == slot(n - 1, c));
            } else {
                lemma_slot_small(0, c);
                assert(old(self).tip == c);
            }
            assert(self.tip == slot(n, c));
        }
        self.buffer.set(self.tip, value);
        let mut min_mark = marks.min;
        let mut max_mark = marks.max;
        self.minq.push(self.index, value, &mut min_mark);
        self.maxq.push(self.index, value, &mut max_mark);
        marks.min = min_mark;
        marks.max = max_mark;
        proof {
            let before = old(self).history@;
            let after = before.push(value);
            let n = old(self).index as int;
            let c = self.capacity as int;
            old(self).minq@.lemma_pushed_tracks::<MinCmp>(
                before,
                window_start(old(self).index, self.capacity as u64),
                value,
            );
            old(self).maxq@.lemma_pushed_tracks::<MaxCmp>(
                before,
                window_start(old(self).index, self.capacity as u64),
                value,
            );
            lemma_tracks_floor::<MinCmp>(
                self.minq@.entries,
                after,
                window_start(old(self).index, self.capacity as u64),
                window_start((n + 1) as u64, self.capacity as u64),
            );
            lemma_tracks_floor::<MaxCmp>(
                self.maxq@.entries,
                after,
                window_start(old(self).index, self.capacity as u64),
                window_start((n + 1) as u64, self.capacity as u64),
            );
            assert forall|j: int| n + 1 - self.len <= j < n + 1 implies self.buffer@[slot(j, c)]
                == #[trigger] after[j] by {
                if j < n {
                    lemma_slots_distinct(j, n, c);
                    lemma_slot_bound(j, c);
                    assert(n - old(self).len <= j);
                    assert(old(self).buffer@[slot(j, c)] == before[j]);
                    assert(self.buffer@[slot(j, c)] == old(self).buffer@[slot(j, c)]);
                    assert(before[j] == after[j]);
                } else {
                    assert(after[j] == value);
                }
            }
        }
        self.index = self.index + 1;
        self.history = Ghost(self.history@.push(value));
        proof {
            let n = old(self).index;
            lemma_kept_by::<MinCmp>(old(self).minq@.entries, value);
            lemma_kept_by::<MaxCmp>(old(self).maxq@.entries, value);
            if marks.min is None {
                assert forall|k: int| 1 <= k < LEVELS implies #[trigger] self.min_queue().anchored(
                    k - 1,
                    self@.len() as u64,
                ) by {
                    assert(old(self).min_queue().anchored(k - 1, old(self)@.len() as u64));
                    old(self).minq@.lemma_pushed_anchored::<MinCmp>(
                        k - 1,
                        n,
                        value,
                        n,
                        (n + 1) as u64,
                    );
                }
            }
            if marks.max is None {
                assert forall|k: int| 1 <= k < LEVELS implies #[trigger] self.max_queue().anchored(
                    k - 1,
                    self@.len() as u64,
                ) by {
                    assert(old(self).max_queue().anchored(k - 1, old(self)@.len() as u64));
                    old(self).maxq@.lemma_pushed_anchored::<MaxCmp>(
                        k - 1,
                        n,
                        value,
                        n,
                        (n + 1) as u64,
                    );
                }
            }
        }
    }

    /// Settles both deques after the pushes of one batch: entries older than
    /// the widest window leave, and the levels forget or move the positions
    /// they remember as `marks` and the departures require.
    pub fn evict(&mut self, marks: EvictionMarks)
        requires
            old(self).inv(),
            old(self).marked_by(marks),
        ensures
            final(self).wf(),
            final(self)@ == old(self)@,
            final(self).min_queue() == old(self).min_queue().settled(
                old(self)@.len() as u64,
                Self::top_window() as u64,
                marks.min,
            ),
            final(self).max_queue() == old(self).max_queue().settled(
                old(self)@.len() as u64,
                Self::top_window() as u64,
                marks.max,
            ),
            final(self).settled(),
    {
        proof {
            lemma_spans_bounded(LEVELS, RADIX, LEVELS as nat);
            let floor = window_start(self.index, self.capacity as u64);
            self.minq@.lemma_settled_tracks::<MinCmp>(
                self.history@,
                floor,
                self.index,
                self.capacity as u64,
                marks.min,
            );
            self.maxq@.lemma_settled_tracks::<MaxCmp>(
                self.history@,
                floor,
                self.index,
                self.capacity as u64,
                marks.max,
            );
        }
        self.minq.evict(self.index, marks.min);
        self.maxq.evict(self.index, marks.max);
        proof {
            assert forall|k: int| 1 <= k < LEVELS implies #[trigger] self.names_first(k) by {
                if marks.min is None {
                    assert(old(self).min_queue().anchored(k - 1, old(self)@.len() as u64));
                }
                if marks.max is None {
                    assert(old(self).max_queue().anchored(k - 1, old(self)@.len() as u64));
                }
                old(self).minq@.lemma_settled_names_first(
                    k - 1,
                    self.index,
                    self.capacity as u64,
                    marks.min,
                );
                old(self).maxq@.lemma_settled_names_first(
                    k - 1,
                    self.index,
                    self.capacity as u64,
                    marks.max,
                );
            }
            self.lemma_named_is_marked();
        }
    }

    /// What a query of window `k`, counted from one, returns: nothing if no
    /// value was taken in or if there is no such window, and otherwise what the
    /// two deques report for the window, the newest value, and the number of
    /// values that the window holds.
    pub open spec fn stats(&self, k: int) -> Option<StatsResult> {
        if self@.len() == 0 || k < 1 || k > LEVELS {
            None
        } else {
            match (
                self.min_queue().probe(k - 1, self@.len() as u64),
                self.max_queue().probe(k - 1, self@.len() as u64),
            ) {
                (Some(min), Some(max)) => Some(
                    StatsResult {
                        min,
                        max,
                        last: self@.last(),
                        count: tail(self@, Self::window(k)).len() as usize,
                    },
                ),
                _ => None,
            }
        }
    }

    /// Takes in `values` in order and then settles both deques.
    pub fn add_batch(&mut self, values: &[i64])
        requires
            old(self).wf(),
            old(self)@.len() + values@.len() <= u64::MAX,
        ensures
            final(self).wf(),
            final(self)@ == old(self)@ + values@,
            final(self).min_queue() == old(self).min_queue().batched::<MinCmp>(
                old(self)@.len() as int,
                values@,
                Self::top_window() as u64,
            ),
            final(self).max_queue() == old(self).max_queue().batched::<MaxCmp>(
                old(self)@.len() as int,
                values@,
                Self::top_window() as u64,
            ),
            final(self)@.len() == old(self)@.len() + values@.len(),
            values@.len() > 0 ==> final(self)@.last() == values@.last(),
            values@.len() == 0 ==> final(self)@ == old(self)@,
            forall|k: int|
                1 <= k <= LEVELS && old(self).forgotten(k) ==> #[trigger] final(self).forgotten(k),
            forall|k: int|
                1 <= k <= LEVELS ==> #[trigger] final(self).count(k) == tail(
                    final(self)@,
                    Self::window(k),
                ).len(),
    {
        let mut marks = EvictionMarks::new();
        let ghost first = self@.len() as int;
        let ghost min_start = self.minq@;
        let ghost max_start = self.maxq@;
        let mut i: usize = 0;
        assert(values@.take(0) =~= Seq::<i64>::empty());
        assert(self@ + values@.take(0) =~= self@);
        while i < values.len()
            invariant
                self.inv(),
                self.marked_by(marks),
                i <= values@.len(),
                first == old(self)@.len(),
                first + values@.len() <= u64::MAX,
                min_start == old(self).min_queue(),
                max_start == old(self).max_queue(),
                self@ == old(self)@ + values@.take(i as int),
                self.minq@.views == min_start.views,
                self.maxq@.views == max_start.views,
                self.minq@.entries == pushed_all::<MinCmp>(
                    min_start.entries,
                    first,
                    values@.take(i as int),
                ),
                self.maxq@.entries == pushed_all::<MaxCmp>(
                    max_start.entries,
                    first,
                    values@.take(i as int),
                ),
                marks.min == marked_all::<MinCmp>(
                    min_start.entries,
                    first,
                    values@.take(i as int),
                    None,
                ),
                marks.max == marked_all::<MaxCmp>(
                    max_start.entries,
                    first,
                    values@.take(i as int),
                    None,
                ),
            decreases values@.len() - i,
        {
            let value = values[i];
            proof {
                let next = values@.take(i + 1);
                assert(next.drop_last() =~= values@.take(i as int));
                assert(next.last() == value);
                assert(old(self)@ + next =~= (old(self)@ + values@.take(i as int)).push(value));
            }
            self.push(value, &mut marks);
            i = i + 1;
        }
        assert(values@.take(i as int) =~= values@);
        self.evict(marks);
        proof {
            self.lemma_counts();
            assert(old(self)@ + values@ =~= self@);
        }
    }

    /// Every window is recorded to hold as many values as the history gives it:
    /// all of them while the window is filling, and its span from then on.
    pub proof fn lemma_counts(&self)
        requires
            self.inv(),
        ensures
            forall|k: int|
                1 <= k <= LEVELS ==> #[trigger] self.count(k) == tail(self@, Self::window(k)).len(),
            forall|k: int|
                1 <= k <= LEVELS ==> #[trigger] self.count(k) == if self@.len() <= Self::window(k) {
                    self@.len() as int
                } else {
                    Self::window(k)
                },
    {
        assert forall|k: int| 1 <= k <= LEVELS implies #[trigger] self.count(k) == tail(
            self@,
            Self::window(k),
        ).len() && self.count(k) == if self@.len() <= Self::window(k) {
            self@.len() as int
        } else {
            Self::window(k)
        } by {
            lemma_spans_bounded(LEVELS, RADIX, k as nat);
            assert(self.levels@[k - 1].size == Self::window(k));
        }
    }

    /// Reports on window `k`, counted from one: the smallest, the largest and the
    /// newest of the values it holds and how many they are, or nothing if no
    /// value was taken in or if there is no such window.
    pub fn get_stats(&mut self, k: u32) -> (result: Option<StatsResult>)
        requires
            old(self).wf(),
        ensures
            final(self).wf(),
            final(self)@ == old(self)@,
            result == old(self).stats(k as int),
            result is Some <==> old(self)@.len() > 0 && 1 <= k <= LEVELS,
            result is Some ==> {
                &&& is_best::<MinCmp>(result->0.min, tail(old(self)@, Self::window(k as int)))
                &&& is_best::<MaxCmp>(result->0.max, tail(old(self)@, Self::window(k as int)))
                &&& result->0.last == old(self)@.last()
                &&& result->0.count == tail(old(self)@, Self::window(k as int)).len()
            },
            result is Some ==> final(self).min_queue() == old(self).min_queue().probed(
                k - 1,
                old(self)@.len() as u64,
            ) && final(self).max_queue() == old(self).max_queue().probed(
                k - 1,
                old(self)@.len() as u64,
            ),
            result is None ==> final(self).min_queue() == old(self).min_queue()
                && final(self).max_queue() == old(self).max_queue(),
            forall|j: int|
                1 <= j <= LEVELS && j != k && old(self).forgotten(j) ==> final(self).forgotten(j),
    {
        let last = match self.get_last() {
            Some(value) => value,
            None => {
                return None;
            },
        };
        let level = k as usize;
        if level < 1 || level > LEVELS {
            return None;
        }
        let level = level - 1;
        let count = self.levels[level].count;
        proof {
            let n = self.index;
            assert(self.minq@.entries.len() == self.minq.entries.len());
            assert(self.maxq@.entries.len() == self.maxq.entries.len());
            self.lemma_stats_are_extremes(k as int);
            self.lemma_counts();
            if level < LEVELS - 1 {
                assert(self.names_first(k as int));
            }
            self.minq@.lemma_probed_names_first(level as int, n);
            self.maxq@.lemma_probed_names_first(level as int, n);
        }
        let min = match self.minq.best_or_refresh(level, self.index) {
            Some(value) => value,
            None => {
                return None;
            },
        };
        let max = match self.maxq.best_or_refresh(level, self.index) {
            Some(value) => value,
            None => {
                return None;
            },
        };
        proof {
            assert forall|j: int| 1 <= j < LEVELS implies #[trigger] self.names_first(j) by {
                assert(old(self).names_first(j));
            }
            self.lemma_named_is_marked();
        }
        Some(StatsResult { min, max, last, count })
    }

    /// Both deques are ordered by logical index and strictly monotone in value,
    /// every entry of theirs is a value of the history at its own logical index,
    /// every value of the widest window is matched or beaten by an entry that is
    /// not older than it, and the view of window `k` spans `RADIX^k` values.
    pub proof fn lemma_deque_invariants(&self)
        requires
            self.inv(),
        ensures
            self.min_queue().in_order::<MinCmp>(),
            self.max_queue().in_order::<MaxCmp>(),
            tracks::<MinCmp>(
                self.min_queue().entries,
                self@,
                window_start(self@.len() as u64, Self::top_window() as u64),
            ),
            tracks::<MaxCmp>(
                self.max_queue().entries,
                self@,
                window_start(self@.len() as u64, Self::top_window() as u64),
            ),
            self.min_queue().views.len() == LEVELS,
            self.max_queue().views.len() == LEVELS,
            forall|k: int|
                1 <= k <= LEVELS ==> (#[trigger] self.min_queue().views[k - 1]).window_size
                    == Self::window(k),
            forall|k: int|
                1 <= k <= LEVELS ==> (#[trigger] self.max_queue().views[k - 1]).window_size
                    == Self::window(k),
    {
    }

    /// Between batches a query of any window reads, in both deques, the first
    /// entry inside the window.
    pub proof fn lemma_queries_read_first(&self, k: int)
        requires
            self.wf(),
            1 <= k <= LEVELS,
        ensures
            self.min_queue().exact(k - 1, self@.len() as u64),
            self.max_queue().exact(k - 1, self@.len() as u64),
    {
        if k == LEVELS {
            lemma_spans_bounded(LEVELS, RADIX, LEVELS as nat);
            assert(self.minq@.views[LEVELS - 1].window_size == Self::top_window());
            assert(self.maxq@.views[LEVELS - 1].window_size == Self::top_window());
            self.minq@.lemma_top_is_exact(self@.len() as u64);
            self.maxq@.lemma_top_is_exact(self@.len() as u64);
        } else {
            assert(self.names_first(k));
            self.minq@.lemma_anchored_is_exact(k - 1, self@.len() as u64);
            self.maxq@.lemma_anchored_is_exact(k - 1, self@.len() as u64);
        }
    }

    /// What the deques remember never changes an answer: a query reports what
    /// it would report if both deques remembered nothing.
    pub proof fn lemma_cache_is_transparent(&self, k: int)
        requires
            self.wf(),
            1 <= k <= LEVELS,
        ensures
            self.min_queue().probe(k - 1, self@.len() as u64) == self.min_queue().forgetful().probe(
                k - 1,
                self@.len() as u64,
            ),
            self.max_queue().probe(k - 1, self@.len() as u64) == self.max_queue().forgetful().probe(
                k - 1,
                self@.len() as u64,
            ),
    {
        if k < LEVELS {
            assert(self.names_first(k));
        }
        self.minq@.lemma_cache_is_transparent(k - 1, self@.len() as u64);
        self.maxq@.lemma_cache_is_transparent(k - 1, self@.len() as u64);
    }

    /// A query reports the smallest and the largest of the values that the
    /// window holds, its newest value, and the number of values it holds.
    pub proof fn lemma_stats_are_extremes(&self, k: int)
        requires
            self.wf(),
            self@.len() > 0,
            1 <= k <= LEVELS,
        ensures
            self.stats(k) is Some,
            is_best::<MinCmp>(self.stats(k)->0.min, tail(self@, Self::window(k))),
            is_best::<MaxCmp>(self.stats(k)->0.max, tail(self@, Self::window(k))),
            self.stats(k)->0.last == self@.last(),
            self.stats(k)->0.count == tail(self@, Self::window(k)).len(),
    {
        let n = self.index;
        let floor = window_start(n, self.capacity as u64);
        lemma_spans_bounded(LEVELS, RADIX, k as nat);
        lemma_spans_bounded(LEVELS, RADIX, LEVELS as nat);
        assert(self.minq@.views[k - 1].window_size == Self::window(k));
        assert(self.maxq@.views[k - 1].window_size == Self::window(k));
        self.lemma_queries_read_first(k);
        self.minq@.lemma_exact_probe_is_best::<MinCmp>(k - 1, self.history@, floor);
        self.maxq@.lemma_exact_probe_is_best::<MaxCmp>(k - 1, self.history@, floor);
    }

    /// The smallest value that a query reports lies at or below the largest, the
    /// newest value lies between them, and so does the mean of the window: its
    /// exact sum lies between the count times the smallest and the count times
    /// the largest.
    pub proof fn lemma_stats_bracket(&self, k: int)
        requires
            self.wf(),
            self@.len() > 0,
            1 <= k <= LEVELS,
        ensures
            self.stats(k) is Some,
            self.stats(k)->0.min <= self.stats(k)->0.last <= self.stats(k)->0.max,
            self.stats(k)->0.min * self.stats(k)->0.count <= total(tail(self@, Self::window(k)))
                <= self.stats(k)->0.max * self.stats(k)->0.count,
    {
        self.lemma_stats_are_extremes(k);
        lemma_spans_bounded(LEVELS, RADIX, k as nat);
        let window = tail(self@, Self::window(k));
        lemma_mean_between(self.stats(k)->0.min, self.stats(k)->0.max, window);
        assert(window[window.len() - 1] == self@.last());
    }

    /// Once window `k` is full of one value, however the values were batched, a
    /// query reports that value as the smallest, the largest and the newest,
    /// and the exact variance of the window is zero: the count times the sum of
    /// squares equals the square of the sum.
    pub proof fn lemma_constant_stats(&self, k: int, value: i64)
        requires
            self.wf(),
            1 <= k <= LEVELS,
            self@.len() >= Self::window(k),
            forall|i: int| self@.len() - Self::window(k) <= i < self@.len() ==> self@[i] == value,
        ensures
            self.stats(k) == Some(
                StatsResult {
                    min: value,
                    max: value,
                    last: value,
                    count: Self::window(k) as usize,
                },
            ),
            total(tail(self@, Self::window(k))) == Self::window(k) * value,
            Self::window(k) * total_of_squares(tail(self@, Self::window(k))) == total(
                tail(self@, Self::window(k)),
            ) * total(tail(self@, Self::window(k))),
    {
        lemma_spans_bounded(LEVELS, RADIX, k as nat);
        self.lemma_stats_are_extremes(k);
        let window = tail(self@, Self::window(k));
        assert forall|i: int| 0 <= i < window.len() implies #[trigger] window[i] == value by {
            assert(window[i] == self@[self@.len() - Self::window(k) + i]);
        }
        lemma_constant_window(value, self.stats(k)->0.min, self.stats(k)->0.max, window);
    }

    /// Two aggregators that took in the same values, one of them in a single
    /// batch and the other in two batches that split it, report the same on
    /// every window.
    pub proof fn lemma_split_batch(
        whole: &Self,
        split: &Self,
        earlier: Seq<i64>,
        first: Seq<i64>,
        second: Seq<i64>,
        k: int,
    )
        requires
            whole.wf(),
            split.wf(),
            whole@ == earlier + (first + second),
            split@ == (earlier + first) + second,
        ensures
            whole.stats(k) == split.stats(k),
    {
        assert(earlier + (first + second) =~= (earlier + first) + second);
        if whole@.len() > 0 && 1 <= k <= LEVELS {
            whole.lemma_stats_are_extremes(k);
            split.lemma_stats_are_extremes(k);
            let window = tail(whole@, Self::window(k));
            lemma_best_is_unique::<MinCmp>(whole.stats(k)->0.min, split.stats(k)->0.min, window);
            lemma_best_is_unique::<MaxCmp>(whole.stats(k)->0.max, split.stats(k)->0.max, window);
        }
    }
}

} // verus!
