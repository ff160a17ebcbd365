//! A strictly monotone deque for a single sliding window.

use crate::shared_monotonic_queue::Comparator;
use crate::window::{
    aged, indexes_ascend, is_best, lemma_first_at_or_after_unique,
    lemma_first_in_window_is_best, lemma_kept_by_unique, lemma_pushed_in_order,
    lemma_skipped_in_order, pushed, strictly_monotone, tracks,
};
use std::collections::VecDeque;
use std::marker::PhantomData;
use vstd::prelude::*;

verus! {

/// A deque of `(logical index, value)` entries whose front holds the best value
/// among the entries that have not aged out.
pub struct MonotonicQueue<C: Comparator> {
    deque: VecDeque<(u64, i64)>,
    order: PhantomData<C>,
}

impl<C: Comparator> View for MonotonicQueue<C> {
    type V = Seq<(u64, i64)>;

    /// The entries, oldest at the front.
    closed spec fn view(&self) -> Seq<(u64, i64)> {
        self.deque@
    }
}

impl<C: Comparator> MonotonicQueue<C> {
    /// The entries are ordered by logical index and strictly monotone in value.
    pub open spec fn wf(&self) -> bool {
        &&& indexes_ascend(self@)
        &&& strictly_monotone::<C>(self@)
    }

    /// Makes an empty deque.
    pub fn new() -> (q: Self)
        ensures
            q@ == Seq::<(u64, i64)>::empty(),
            q.wf(),
    {
        Self { deque: VecDeque::new(), order: PhantomData }
    }

    /// Pushes a value with its logical index, after every entry at the back
    /// that the value matches or beats has left.
    pub fn push(&mut self, index: u64, value: i64)
        ensures
            final(self)@ == pushed::<C>(old(self)@, index, value),
            old(self).wf() && (old(self)@.len() > 0 ==> old(self)@.last().0 < index)
                ==> final(self).wf(),
    {
        while self.deque.len() > 0
            invariant
                self.deque@.len() <= old(self).deque@.len(),
                self.deque@ == old(self).deque@.take(self.deque@.len() as int),
                forall|i: int|
                    self.deque@.len() <= i < old(self).deque@.len() ==> C::better_spec(
                        value,
                        (#[trigger] old(self).deque@[i]).1,
                    ),
            ensures
                self.deque@.len() >= 1 ==> !C::better_spec(
                    value,
                    old(self).deque@[self.deque@.len() - 1].1,
                ),
            decreases self.deque@.len(),
        {
            let back = self.deque[self.deque.len() - 1];
            if C::better(value, back.1) {
                self.deque.pop_back();
            } else {
                break ;
            }
        }
        proof {
            lemma_kept_by_unique::<C>(old(self).deque@, value, self.deque@.len() as int);
        }
        self.deque.push_back((index, value));
        proof {
            if old(self).wf() && (old(self)@.len() > 0 ==> old(self)@.last().0 < index) {
                lemma_pushed_in_order::<C>(old(self)@, index, value);
            }
        }
    }

    /// Drops from the front every entry whose logical index is below
    /// `min_index`, up to the first entry that is not.
    pub fn evict_older_than(&mut self, min_index: u64)
        ensures
            final(self)@ == aged(old(self)@, min_index as int),
            final(self)@.len() > 0 ==> final(self)@[0].0 >= min_index,
            old(self).wf() ==> final(self).wf(),
    {
        let ghost mut dropped: int = 0;
        while self.deque.len() > 0
            invariant
                0 <= dropped,
                dropped + self.deque@.len() == old(self).deque@.len(),
                self.deque@ == old(self).deque@.skip(dropped),
                forall|i: int| 0 <= i < dropped ==> (#[trigger] old(self).deque@[i]).0 < min_index,
            ensures
                self.deque@.len() > 0 ==> self.deque@[0].0 >= min_index,
            decreases self.deque@.len(),
        {
            let front = self.deque[0];
            if front.0 < min_index {
                self.deque.pop_front();
                proof {
                    dropped = dropped + 1;
                }
                assert(self.deque@ == old(self).deque@.skip(dropped));
            } else {
                break ;
            }
        }
        proof {
            let before = old(self).deque@;
            let after = self.deque@;
            lemma_first_at_or_after_unique(before, min_index as int, dropped);
            if old(self).wf() {
                lemma_skipped_in_order::<C>(before, dropped);
            }
        }
    }

    /// The value at the front, if there is one.
    pub fn best(&self) -> (value: Option<i64>)
        ensures
            value == if self@.len() > 0 {
                Some(self@[0].1)
            } else {
                None
            },
    {
        if self.deque.len() > 0 {
            let front = self.deque[0];
            Some(front.1)
        } else {
            None
        }
    }

    /// A deque on the track of a history, once everything older than a
    /// threshold has left it, has at its front the best of the values pushed
    /// from that threshold on.
    pub proof fn lemma_front_is_best(
        entries: Seq<(u64, i64)>,
        history: Seq<i64>,
        floor: int,
        threshold: int,
    )
        requires
            tracks::<C>(entries, history, floor),
            0 <= threshold < history.len(),
            floor <= threshold,
        ensures
            aged(entries, threshold).len() > 0,
            is_best::<C>(
                aged(entries, threshold)[0].1,
                history.subrange(threshold, history.len() as int),
            ),
    {
        lemma_first_in_window_is_best::<C>(entries, history, floor, threshold);
    }
}

} // verus!
