//! Where a logical index lands in a ring of fixed capacity.

use vstd::arithmetic::div_mod::{
    lemma_fundamental_div_mod, lemma_fundamental_div_mod_converse, lemma_mod_pos_bound,
};
use vstd::prelude::*;

verus! {

/// The ring position that holds the value with logical index `logical`.
pub open spec fn slot(logical: int, capacity: int) -> int {
    logical % capacity
}

/// A slot is a position of the ring.
pub proof fn lemma_slot_bound(logical: int, capacity: int)
    requires
        0 <= logical,
        1 <= capacity,
    ensures
        0 <= slot(logical, capacity) < capacity,
{
    lemma_mod_pos_bound(logical, capacity);
}

/// A logical index below the capacity lands on the position of its own number.
pub proof fn lemma_slot_small(logical: int, capacity: int)
    requires
        0 <= logical < capacity,
    ensures
        slot(logical, capacity) == logical,
{
    assert(logical == 0 * capacity + logical);
    lemma_fundamental_div_mod_converse(logical, capacity, 0, logical);
}

/// The next logical index lands one position further on, or wraps to zero.
pub proof fn lemma_slot_step(logical: int, capacity: int)
    requires
        0 <= logical,
        1 <= capacity,
    ensures
        slot(logical + 1, capacity) == if slot(logical, capacity) + 1 == capacity {
            0
        } else {
            slot(logical, capacity) + 1
        },
{
    lemma_mod_pos_bound(logical, capacity);
    lemma_fundamental_div_mod(logical, capacity);
    let q = logical / capacity;
    let r = logical % capacity;
    if r + 1 == capacity {
        assert(logical + 1 == (q + 1) * capacity + 0) by (nonlinear_arith)
            requires
                logical == capacity * q + r,
                r + 1 == capacity,
        ;
        lemma_fundamental_div_mod_converse(logical + 1, capacity, q + 1, 0);
    } else {
        assert(logical + 1 == q * capacity + (r + 1)) by (nonlinear_arith)
            requires
                logical == capacity * q + r,
        ;
        lemma_fundamental_div_mod_converse(logical + 1, capacity, q, r + 1);
    }
}

/// A logical index `back` steps earlier lands `back` positions earlier, wrapping
/// round the ring where that would pass position zero.
pub proof fn lemma_slot_back(logical: int, capacity: int, back: int)
    requires
        1 <= capacity,
        0 <= back < capacity,
        back <= logical,
    ensures
        slot(logical - back, capacity) == if slot(logical, capacity) >= back {
            slot(logical, capacity) - back
        } else {
            slot(logical, capacity) + capacity - back
        },
{
    lemma_mod_pos_bound(logical, capacity);
    lemma_fundamental_div_mod(logical, capacity);
    let q = logical / capacity;
    let r = logical % capacity;
    if r >= back {
        assert(logical - back == q * capacity + (r - back)) by (nonlinear_arith)
            requires
                logical == capacity * q + r,
        ;
        lemma_fundamental_div_mod_converse(logical - back, capacity, q, r - back);
    } else {
        assert(logical - back == (q - 1) * capacity + (r + capacity - back)) by (nonlinear_arith)
            requires
                logical == capacity * q + r,
        ;
        lemma_fundamental_div_mod_converse(logical - back, capacity, q - 1, r + capacity - back);
    }
}

/// Two logical indexes less than a capacity apart land on different positions.
pub proof fn lemma_slots_distinct(earlier: int, later: int, capacity: int)
    requires
        1 <= capacity,
        0 <= earlier < later < earlier + capacity,
    ensures
        slot(earlier, capacity) != slot(later, capacity),
{
    lemma_fundamental_div_mod(earlier, capacity);
    lemma_fundamental_div_mod(later, capacity);
    let q1 = earlier / capacity;
    let q2 = later / capacity;
    if earlier % capacity == later % capacity {
        assert(later - earlier == capacity * (q2 - q1)) by (nonlinear_arith)
            requires
                earlier == capacity * q1 + earlier % capacity,
                later == capacity * q2 + later % capacity,
                earlier % capacity == later % capacity,
        ;
        assert(false) by (nonlinear_arith)
            requires
                later - earlier == capacity * (q2 - q1),
                0 < later - earlier < capacity,
                1 <= capacity,
        ;
    }
}

} // verus!
