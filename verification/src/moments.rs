//! What holds of the exact sum and the exact sum of squares of a window,
//! taken over the integers, next to its smallest and largest value.

use crate::shared_monotonic_queue::{Comparator, MaxCmp, MinCmp};
use crate::window::is_best;
use vstd::prelude::*;

verus! {

/// The sum of the values of a window.
pub open spec fn total(window: Seq<i64>) -> int
    decreases window.len(),
{
    if window.len() == 0 {
        0
    } else {
        total(window.drop_last()) + window.last()
    }
}

/// The sum of the squares of the values of a window.
pub open spec fn total_of_squares(window: Seq<i64>) -> int
    decreases window.len(),
{
    if window.len() == 0 {
        0
    } else {
        total_of_squares(window.drop_last()) + window.last() * window.last()
    }
}

/// The sum of a window lies between its length times a lower bound of its
/// values and its length times an upper bound of them.
pub proof fn lemma_total_between(window: Seq<i64>, low: int, high: int)
    requires
        forall|k: int| 0 <= k < window.len() ==> low <= #[trigger] window[k] <= high,
    ensures
        low * window.len() <= total(window) <= high * window.len(),
    decreases window.len(),
{
    if window.len() > 0 {
        let front = window.drop_last();
        assert forall|k: int| 0 <= k < front.len() implies low <= #[trigger] front[k] <= high by {
            assert(front[k] == window[k]);
        }
        lemma_total_between(front, low, high);
        let n = front.len() as int;
        assert(low * (n + 1) == low * n + low) by (nonlinear_arith);
        assert(high * (n + 1) == high * n + high) by (nonlinear_arith);
        assert(low <= window[window.len() - 1] <= high);
    }
}

/// The smallest and the largest value of a window bracket every value of the
/// window, and so they bracket its mean: the sum lies between the length times
/// the smallest and the length times the largest.
pub proof fn lemma_mean_between(smallest: i64, largest: i64, window: Seq<i64>)
    requires
        is_best::<MinCmp>(smallest, window),
        is_best::<MaxCmp>(largest, window),
    ensures
        smallest <= largest,
        forall|k: int| 0 <= k < window.len() ==> smallest <= #[trigger] window[k] <= largest,
        smallest * window.len() <= total(window) <= largest * window.len(),
{
    assert forall|k: int| 0 <= k < window.len() implies smallest <= #[trigger] window[k]
        <= largest by {
        assert(MinCmp::better_spec(smallest, window[k]));
        assert(MaxCmp::better_spec(largest, window[k]));
    }
    lemma_total_between(window, smallest as int, largest as int);
    let k = choose|k: int| 0 <= k < window.len() && window[k] == smallest;
    assert(smallest <= window[k] <= largest);
}

/// The sums of a window that holds one value throughout.
pub proof fn lemma_constant_totals(value: i64, window: Seq<i64>)
    requires
        forall|k: int| 0 <= k < window.len() ==> #[trigger] window[k] == value,
    ensures
        total(window) == window.len() * value,
        total_of_squares(window) == window.len() * (value * value),
    decreases window.len(),
{
    if window.len() > 0 {
        let front = window.drop_last();
        assert forall|k: int| 0 <= k < front.len() implies #[trigger] front[k] == value by {
            assert(front[k] == window[k]);
        }
        lemma_constant_totals(value, front);
        let n = front.len() as int;
        let v = value as int;
        assert(window[window.len() - 1] == value);
        assert((n + 1) * v == n * v + v) by (nonlinear_arith);
        assert((n + 1) * (v * v) == n * (v * v) + v * v) by (nonlinear_arith);
    }
}

/// A window that holds one value throughout has that value as its smallest,
/// its largest and its newest value and as its mean, and its variance is zero:
/// the length times the sum of squares equals the square of the sum.
pub proof fn lemma_constant_window(value: i64, smallest: i64, largest: i64, window: Seq<i64>)
    requires
        window.len() >= 1,
        forall|k: int| 0 <= k < window.len() ==> #[trigger] window[k] == value,
        is_best::<MinCmp>(smallest, window),
        is_best::<MaxCmp>(largest, window),
    ensures
        smallest == value,
        largest == value,
        window.last() == value,
        total(window) == window.len() * value,
        window.len() * total_of_squares(window) == total(window) * total(window),
{
    lemma_constant_totals(value, window);
    let n = window.len() as int;
    let v = value as int;
    assert(n * (n * (v * v)) == (n * v) * (n * v)) by (nonlinear_arith);
}

} // verus!
