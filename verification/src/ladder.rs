//! The geometric ladder of window sizes: level `k` spans `radix^k` values.

use vstd::arithmetic::power::{lemma_pow_increases, lemma_pow_positive, pow};
use vstd::prelude::*;

verus! {

/// The number of values that the window `exponent` steps up the ladder spans.
pub open spec fn window_span(radix: usize, exponent: nat) -> int {
    pow(radix as int, exponent)
}

/// Whether a ladder of `levels` windows over `radix` can be held on this
/// machine: there is at least one level, the radix is at least one, and the
/// widest window fits in a `usize`.
pub open spec fn ladder_fits(levels: usize, radix: usize) -> bool {
    &&& levels >= 1
    &&& radix >= 1
    &&& window_span(radix, levels as nat) <= usize::MAX
}

/// Every window of a ladder that fits is at least one value wide and no wider
/// than the top window.
pub proof fn lemma_spans_bounded(levels: usize, radix: usize, exponent: nat)
    requires
        ladder_fits(levels, radix),
        exponent <= levels,
    ensures
        1 <= window_span(radix, exponent) <= window_span(radix, levels as nat) <= usize::MAX,
{
    lemma_pow_positive(radix as int, exponent);
    lemma_pow_increases(radix as nat, exponent, levels as nat);
}

/// Each window is `radix` times as wide as the one below it.
pub proof fn lemma_span_step(radix: usize, exponent: nat)
    ensures
        window_span(radix, exponent + 1) == window_span(radix, exponent) * radix,
        window_span(radix, 0) == 1,
{
    reveal(pow);
    assert(pow(radix as int, exponent + 1) == radix * pow(radix as int, exponent));
    assert(radix * pow(radix as int, exponent) == pow(radix as int, exponent) * radix)
        by (nonlinear_arith);
}

/// Windows widen, or stay as wide, as the exponent grows.
pub proof fn lemma_spans_widen(radix: usize, lower: nat, upper: nat)
    requires
        radix >= 1,
        lower <= upper,
    ensures
        window_span(radix, lower) <= window_span(radix, upper),
{
    lemma_pow_increases(radix as nat, lower, upper);
}

/// Computes `radix^exponent` for a window of a ladder that fits.
pub fn span(levels: usize, radix: usize, exponent: usize) -> (size: usize)
    requires
        ladder_fits(levels, radix),
        exponent <= levels,
    ensures
        size == window_span(radix, exponent as nat),
{
    let mut size: usize = 1;
    let mut done: usize = 0;
    proof {
        lemma_span_step(radix, 0);
    }
    while done < exponent
        invariant
            ladder_fits(levels, radix),
            done <= exponent <= levels,
            size == window_span(radix, done as nat),
        decreases exponent - done,
    {
        proof {
            lemma_span_step(radix, done as nat);
            lemma_spans_bounded(levels, radix, (done + 1) as nat);
        }
        size = size * radix;
        done = done + 1;
    }
    size
}

/// Decides whether a ladder of `levels` windows over `radix` fits.
pub fn fits(levels: usize, radix: usize) -> (ok: bool)
    ensures
        ok == ladder_fits(levels, radix),
{
    if levels < 1 || radix < 1 {
        return false;
    }
    let mut size: usize = 1;
    let mut done: usize = 0;
    proof {
        lemma_span_step(radix, 0);
    }
    while done < levels
        invariant
            radix >= 1,
            done <= levels,
            size == window_span(radix, done as nat),
        decreases levels - done,
    {
        proof {
            lemma_span_step(radix, done as nat);
        }
        match size.checked_mul(radix) {
            Some(next) => {
                size = next;
            },
            None => {
                proof {
                    lemma_spans_widen(radix, (done + 1) as nat, levels as nat);
                }
                return false;
            },
        }
        done = done + 1;
    }
    true
}

} // verus!
