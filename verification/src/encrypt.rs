//! The block transform, encrypt direction: two wrapping additions of the first
//! two round keys, then `rounds` rounds of xor, data-dependent rotation and
//! round-key addition.

use vstd::prelude::*;

use crate::params::{Word, BLOCK_SIZE, MASK};
use crate::rotate::{lemma_rotation_amount, rotate_left_word, rotl};

verus! {

/// The block state after the first `r` encrypting rounds, starting from the
/// whitened words `a` and `b`.
pub open spec fn enc_rounds(s: Seq<Word>, a: Word, b: Word, r: nat) -> (Word, Word)
    recommends
        s.len() >= 2 * r + 2,
    decreases r,
{
    if r == 0 {
        (a, b)
    } else {
        let prev = enc_rounds(s, a, b, (r - 1) as nat);
        let a2 = rotl(prev.0 ^ prev.1, prev.1 & MASK).wrapping_add(s[2 * r as int]);
        let b2 = rotl(prev.1 ^ a2, a2 & MASK).wrapping_add(s[2 * r as int + 1]);
        (a2, b2)
    }
}

/// The ciphertext block that the table `s` and round count `r` assign to the
/// plaintext block: whitening by the first two round keys, then `r` rounds.
pub open spec fn encrypt_spec(s: Seq<Word>, block: (Word, Word), r: nat) -> (Word, Word)
    recommends
        s.len() >= 2 * r + 2,
{
    enc_rounds(s, block.0.wrapping_add(s[0]), block.1.wrapping_add(s[1]), r)
}

/// Encrypts one block of two words with the given round-key table.
pub fn encrypt_block(
    rounds: usize,
    expanded_keys: &[Word],
    plaintext: &[Word; BLOCK_SIZE],
    ciphertext: &mut [Word; BLOCK_SIZE],
)
    requires
        expanded_keys@.len() >= 2 * (rounds + 1),
    ensures
        ({
            let r = encrypt_spec(expanded_keys@, (plaintext[0], plaintext[1]), rounds as nat);
            final(ciphertext)[0] == r.0 && final(ciphertext)[1] == r.1
        }),
{
    let table_len = expanded_keys.len();
    let mut word_a = plaintext[0].wrapping_add(expanded_keys[0]);
    let mut word_b = plaintext[1].wrapping_add(expanded_keys[1]);

    let mut i: usize = 1;
    while i <= rounds
        invariant
            1 <= i <= rounds + 1,
            table_len == expanded_keys@.len(),
            expanded_keys@.len() >= 2 * (rounds + 1),
            (word_a, word_b) == enc_rounds(
                expanded_keys@,
                plaintext[0].wrapping_add(expanded_keys@[0]),
                plaintext[1].wrapping_add(expanded_keys@[1]),
                (i - 1) as nat,
            ),
        decreases rounds + 1 - i,
    {
        proof {
            lemma_rotation_amount(word_b);
        }
        word_a = rotate_left_word(word_a ^ word_b, word_b & MASK).wrapping_add(
            expanded_keys[2 * i],
        );
        proof {
            lemma_rotation_amount(word_a);
        }
        word_b = rotate_left_word(word_b ^ word_a, word_a & MASK).wrapping_add(
            expanded_keys[2 * i + 1],
        );
        i = i + 1;
    }

    ciphertext[0] = word_a;
    ciphertext[1] = word_b;
}

} // verus!
