//! Bitwise rotation of 32-bit words, together with the small facts the round
//! function and the key schedule need: every masked amount is a legal rotation
//! amount, left and right rotation by the same amount cancel, and xor by the
//! same word twice cancels.

use vstd::prelude::*;

use crate::params::{Word, MASK};

verus! {

/// Left rotation of `x` by `n` positions, for `n < 32`.
pub open spec fn rotl(x: Word, n: Word) -> Word
    recommends
        n < 32,
{
    if n == 0 {
        x
    } else {
        (x << n) | (x >> ((32 - n) as Word))
    }
}

/// Right rotation of `x` by `n` positions, for `n < 32`.
pub open spec fn rotr(x: Word, n: Word) -> Word
    recommends
        n < 32,
{
    if n == 0 {
        x
    } else {
        (x >> n) | (x << ((32 - n) as Word))
    }
}

pub fn rotate_left_word(x: Word, n: Word) -> (r: Word)
    requires
        n < 32,
    ensures
        r == rotl(x, n),
{
    if n == 0 {
        x
    } else {
        (x << n) | (x >> (32 - n))
    }
}

pub fn rotate_right_word(x: Word, n: Word) -> (r: Word)
    requires
        n < 32,
    ensures
        r == rotr(x, n),
{
    if n == 0 {
        x
    } else {
        (x >> n) | (x << (32 - n))
    }
}

/// A word masked by `MASK` is a legal rotation amount.
pub proof fn lemma_rotation_amount(x: Word)
    ensures
        x & MASK < 32,
{
    assert(x & 31 < 32) by (bit_vector);
}

/// Rotating left and then right by the same amount gives the word back, and
/// conversely.
pub proof fn lemma_rotate_inverse(x: Word, n: Word)
    requires
        n < 32,
    ensures
        rotr(rotl(x, n), n) == x,
        rotl(rotr(x, n), n) == x,
{
    if n != 0 {
        assert(((((x << n) | (x >> ((32 - n) as Word))) >> n) | (((x << n) | (x >> ((
        32 - n) as Word))) << ((32 - n) as Word))) == x) by (bit_vector)
            requires
                0 < n < 32,
        ;
        assert(((((x >> n) | (x << ((32 - n) as Word))) << n) | (((x >> n) | (x << ((
        32 - n) as Word))) >> ((32 - n) as Word))) == x) by (bit_vector)
            requires
                0 < n < 32,
        ;
    }
}

/// Applying xor by the same word twice gives the word back.
pub proof fn lemma_xor_cancel(x: Word, y: Word)
    ensures
        (x ^ y) ^ y == x,
{
    assert((x ^ y) ^ y == x) by (bit_vector);
}

/// Wrapping addition and wrapping subtraction of the same word cancel.
pub proof fn lemma_wrapping_cancel(x: Word, k: Word)
    ensures
        x.wrapping_add(k).wrapping_sub(k) == x,
        x.wrapping_sub(k).wrapping_add(k) == x,
{
}

} // verus!
