//! Sign-and-magnitude bit patterns as ordered keys, and back.
//!
//! A caller whose samples are binary numbers in sign-and-magnitude form, with
//! the sign in the top bit of 64 and the magnitude in the other 63, turns each
//! bit pattern into a key here. The key is the number that the pattern spells
//! when its magnitude is read as an integer, so keys order exactly as the
//! samples do. Zero and negative zero are one number and have one key; every
//! other bit pattern has a key of its own and is had back from it.

use vstd::prelude::*;

verus! {

/// The top bit of 64: the sign.
pub const SIGN: u64 = 0x8000_0000_0000_0000;

/// Whether the sign of a bit pattern is set.
pub open spec fn is_negative(bits: u64) -> bool {
    bits >= SIGN
}

/// The magnitude of a bit pattern: the pattern without its sign.
pub open spec fn magnitude(bits: u64) -> int {
    if bits >= SIGN {
        bits - SIGN
    } else {
        bits as int
    }
}

/// The key of a bit pattern: its magnitude, negated where the sign is set.
pub open spec fn key_of(bits: u64) -> i64 {
    if is_negative(bits) {
        (-magnitude(bits)) as i64
    } else {
        magnitude(bits) as i64
    }
}

/// The bit pattern of a key: the key itself where it is not negative, and the
/// sign with the negated key as the magnitude where it is. The least integer
/// of all is no key, since no magnitude is that large; it is read as the key
/// above it.
pub open spec fn bits_of(key: i64) -> u64 {
    if key >= 0 {
        key as u64
    } else if key == i64::MIN {
        u64::MAX
    } else {
        (SIGN + (-key)) as u64
    }
}

/// Computes the key of a bit pattern.
pub fn to_key(bits: u64) -> (key: i64)
    ensures
        key == key_of(bits),
        key > i64::MIN,
        bits != SIGN ==> bits_of(key) == bits,
        bits == SIGN ==> key == 0,
{
    if bits >= SIGN {
        0 - ((bits - SIGN) as i64)
    } else {
        bits as i64
    }
}

/// Computes the bit pattern of a key.
pub fn from_key(key: i64) -> (bits: u64)
    ensures
        bits == bits_of(key),
        bits != SIGN,
        key > i64::MIN ==> key_of(bits) == key,
{
    if key >= 0 {
        key as u64
    } else if key == i64::MIN {
        u64::MAX
    } else {
        SIGN + ((0 - key) as u64)
    }
}

/// Every bit pattern but negative zero is had back from its key, and every
/// key is had back from its bit pattern.
pub proof fn lemma_keys_round_trip(bits: u64, key: i64)
    ensures
        bits != SIGN ==> bits_of(key_of(bits)) == bits,
        bits_of(key_of(SIGN)) == 0,
        key > i64::MIN ==> key_of(bits_of(key)) == key,
{
}

/// Keys order as the sign-and-magnitude numbers do: among patterns whose sign
/// is clear by magnitude, among patterns whose sign is set against magnitude,
/// and a pattern whose sign is set lies below one whose sign is clear unless
/// both are zero. Two patterns have one key only if they are the same pattern
/// or both are zero.
pub proof fn lemma_keys_keep_order(a: u64, b: u64)
    ensures
        !is_negative(a) && !is_negative(b) ==> (key_of(a) <= key_of(b) <==> magnitude(a)
            <= magnitude(b)),
        is_negative(a) && is_negative(b) ==> (key_of(a) <= key_of(b) <==> magnitude(a)
            >= magnitude(b)),
        is_negative(a) && !is_negative(b) ==> key_of(a) <= key_of(b) && (key_of(a) == key_of(b)
            <==> magnitude(a) == 0 && magnitude(b) == 0),
        key_of(a) == key_of(b) <==> a == b || (magnitude(a) == 0 && magnitude(b) == 0),
{
}

} // verus!
