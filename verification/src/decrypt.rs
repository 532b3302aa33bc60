//! The block transform, decrypt direction: the exact inverse of the encrypt
//! direction, undoing the rounds from the highest down to the first and then
//! the whitening. Both rotation amounts are taken from the already-updated
//! companion word at each step; that ordering is what makes the two
//! directions exact inverses.

use vstd::prelude::*;

use crate::params::{Word, BLOCK_SIZE, MASK};
use crate::rotate::{lemma_rotation_amount, rotate_right_word, rotr};

verus! {

/// The block state after undoing rounds `r` down to `1`, starting from the
/// ciphertext words `a` and `b`.
pub open spec fn dec_rounds(s: Seq<Word>, a: Word, b: Word, r: nat) -> (Word, Word)
    recommends
        s.len() >= 2 * r + 2,
    decreases r,
{
    if r == 0 {
        (a, b)
    } else {
        let b1 = rotr(b.wrapping_sub(s[2 * r as int + 1]), a & MASK) ^ a;
        let a1 = rotr(a.wrapping_sub(s[2 * r as int]), b1 & MASK) ^ b1;
        dec_rounds(s, a1, b1, (r - 1) as nat)
    }
}

/// The plaintext block that the table `s` and round count `r` assign to the
/// ciphertext block: undo the `r` rounds, then the whitening.
pub open spec fn decrypt_spec(s: Seq<Word>, block: (Word, Word), r: nat) -> (Word, Word)
    recommends
        s.len() >= 2 * r + 2,
{
    let inner = dec_rounds(s, block.0, block.1, r);
    (inner.0.wrapping_sub(s[0]), inner.1.wrapping_sub(s[1]))
}

/// Decrypts one block of two words with the given round-key table.
pub fn decrypt_block(
    rounds: usize,
    expanded_keys: &[Word],
    ciphertext: &[Word; BLOCK_SIZE],
    plaintext: &mut [Word; BLOCK_SIZE],
)
    requires
        expanded_keys@.len() >= 2 * (rounds + 1),
    ensures
        ({
            let r = decrypt_spec(expanded_keys@, (ciphertext[0], ciphertext[1]), rounds as nat);
            final(plaintext)[0] == r.0 && final(plaintext)[1] == r.1
        }),
{
    let table_len = expanded_keys.len();
    let mut word_a = ciphertext[0];
    let mut word_b = ciphertext[1];

    let mut i: usize = rounds;
    while i >= 1
        invariant
            i <= rounds,
            table_len == expanded_keys@.len(),
            expanded_keys@.len() >= 2 * (rounds + 1),
            dec_rounds(expanded_keys@, word_a, word_b, i as nat) == dec_rounds(
                expanded_keys@,
                ciphertext[0],
                ciphertext[1],
                rounds as nat,
            ),
        decreases i,
    {
        proof {
            lemma_rotation_amount(word_a);
        }
        word_b = rotate_right_word(word_b.wrapping_sub(expanded_keys[2 * i + 1]), word_a & MASK)
            ^ word_a;
        proof {
            lemma_rotation_amount(word_b);
        }
        word_a = rotate_right_word(word_a.wrapping_sub(expanded_keys[2 * i]), word_b & MASK)
            ^ word_b;
        i = i - 1;
    }

    plaintext[1] = word_b.wrapping_sub(expanded_keys[1]);
    plaintext[0] = word_a.wrapping_sub(expanded_keys[0]);
}

} // verus!
