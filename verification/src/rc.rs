//! The cipher instance: owns one round-key table, built once from the key
//! material at construction, and exposes the single-block transforms and the
//! naive ECB driver. ECB encrypts each two-word block independently — no
//! chaining, no IV — which leaks repeated-plaintext patterns; it exists only
//! to exercise the block primitive over multi-block input and is not a secure
//! mode.

use vstd::prelude::*;

use crate::decrypt::{decrypt_block, decrypt_spec};
use crate::encrypt::{encrypt_block, encrypt_spec};
use crate::errors::Rc5Error;
use crate::expanded_keys::{
    expanded_keys_spec, generate_expanded_keys_array, lemma_expanded_keys_len,
};
use crate::params::{Word, BLOCK_SIZE, ROUNDS, S_SIZE};
use crate::transform::{
    bytes_of_words, from_bytes_to_words, from_words_to_bytes, lemma_bytes_of_words_concat,
    words_of_bytes,
};

verus! {

/// The words a byte buffer is split into for ECB, an odd trailing word padded
/// with a zero word so that whole two-word blocks remain.
pub open spec fn padded_words(bytes: Seq<u8>) -> Seq<Word> {
    let w = words_of_bytes(bytes);
    if w.len() % 2 == 1 {
        w.push(0)
    } else {
        w
    }
}

/// The word sequence ECB encryption produces from the even-length word
/// sequence `w`: each adjacent pair encrypted independently.
pub open spec fn ecb_encrypt_words(s: Seq<Word>, w: Seq<Word>, r: nat) -> Seq<Word> {
    Seq::new(
        w.len(),
        |k: int|
            if k % 2 == 0 {
                encrypt_spec(s, (w[k], w[k + 1]), r).0
            } else {
                encrypt_spec(s, (w[k - 1], w[k]), r).1
            },
    )
}

/// The word sequence ECB decryption produces from the even-length word
/// sequence `w`: each adjacent pair decrypted independently.
pub open spec fn ecb_decrypt_words(s: Seq<Word>, w: Seq<Word>, r: nat) -> Seq<Word> {
    Seq::new(
        w.len(),
        |k: int|
            if k % 2 == 0 {
                decrypt_spec(s, (w[k], w[k + 1]), r).0
            } else {
                decrypt_spec(s, (w[k - 1], w[k]), r).1
            },
    )
}

/// The ciphertext bytes ECB encryption assigns to a plaintext buffer under
/// table `s` with `r` rounds.
pub open spec fn ecb_encrypt_spec(s: Seq<Word>, bytes: Seq<u8>, r: nat) -> Seq<u8> {
    bytes_of_words(ecb_encrypt_words(s, padded_words(bytes), r))
}

/// The plaintext bytes ECB decryption assigns to a ciphertext buffer under
/// table `s` with `r` rounds.
pub open spec fn ecb_decrypt_spec(s: Seq<Word>, bytes: Seq<u8>, r: nat) -> Seq<u8> {
    bytes_of_words(ecb_decrypt_words(s, padded_words(bytes), r))
}

/// An RC5 cipher instance for 32-bit words and the fixed round count: one
/// round-key table, immutable after construction, and no other state.
#[derive(Debug, Clone)]
pub struct RC5 {
    expanded_keys: Vec<Word>,
}

impl RC5 {
    /// The round-key table this instance carries.
    pub closed spec fn table(self) -> Seq<Word> {
        self.expanded_keys@
    }

    /// The table holds exactly `S_SIZE` entries; established at construction
    /// and preserved by every method.
    pub open spec fn wf(self) -> bool {
        self.table().len() == S_SIZE
    }

    /// The table is the one the key schedule derives from `key`.
    pub open spec fn is_for_key(self, key: Seq<u8>) -> bool {
        self.table() == expanded_keys_spec(key, S_SIZE as nat)
    }

    /// Builds an instance from raw key material of at most 255 bytes; a
    /// zero-length key is legal and degrades to a fixed, key-independent
    /// permutation rather than an error.
    pub fn new(key: &[u8]) -> (result: Result<RC5, Rc5Error>)
        ensures
            match result {
                Ok(c) => key@.len() <= 255 && c.wf() && c.is_for_key(key@),
                Err(e) => key@.len() > 255 && e == Rc5Error::KeyTooLong,
            },
    {
        if key.len() > 255 {
            return Err(Rc5Error::KeyTooLong);
        }
        match generate_expanded_keys_array(key, S_SIZE) {
            Ok(keys) => {
                proof {
                    lemma_expanded_keys_len(key@, S_SIZE as nat);
                }
                Ok(RC5 { expanded_keys: keys })
            },
            Err(e) => {
                proof {
                    assert(false);
                }
                Err(e)
            },
        }
    }

    /// Encrypts one two-word block with the stored table.
    pub fn encrypt_block(
        &self,
        plaintext: &[Word; BLOCK_SIZE],
        ciphertext: &mut [Word; BLOCK_SIZE],
    )
        requires
            self.wf(),
        ensures
            ({
                let r = encrypt_spec(self.table(), (plaintext[0], plaintext[1]), ROUNDS as nat);
                final(ciphertext)[0] == r.0 && final(ciphertext)[1] == r.1
            }),
    {
        encrypt_block(ROUNDS, self.expanded_keys.as_slice(), plaintext, ciphertext)
    }

    /// Decrypts one two-word block with the stored table.
    pub fn decrypt_block(
        &self,
        ciphertext: &[Word; BLOCK_SIZE],
        plaintext: &mut [Word; BLOCK_SIZE],
    )
        requires
            self.wf(),
        ensures
            ({
                let r = decrypt_spec(self.table(), (ciphertext[0], ciphertext[1]), ROUNDS as nat);
                final(plaintext)[0] == r.0 && final(plaintext)[1] == r.1
            }),
    {
        decrypt_block(ROUNDS, self.expanded_keys.as_slice(), ciphertext, plaintext)
    }

    /// ECB encryption of an arbitrary-length buffer: splits the plaintext
    /// into word pairs, zero-padding an odd trailing word, and encrypts each
    /// pair independently. Empty input yields empty output. Not a secure
    /// chaining mode.
    pub fn encrypt_with_ecb(&self, plaintext: &[u8]) -> (ciphertext: Vec<u8>)
        requires
            self.wf(),
        ensures
            ciphertext@ == ecb_encrypt_spec(self.table(), plaintext@, ROUNDS as nat),
    {
        let ghost w = padded_words(plaintext@);
        let ghost out = ecb_encrypt_words(self.table(), w, ROUNDS as nat);
        let byte_len = plaintext.len();
        let words = from_bytes_to_words(plaintext);
        let mut ciphertext: Vec<u8> = Vec::new();
        let mut idx: usize = 0;
        while idx < words.len()
            invariant
                self.wf(),
                idx % 2 == 0,
                idx <= w.len(),
                byte_len == plaintext@.len(),
                4 * words@.len() <= byte_len + 3,
                words@ == words_of_bytes(plaintext@),
                w == padded_words(plaintext@),
                out == ecb_encrypt_words(self.table(), w, ROUNDS as nat),
                ciphertext@ == bytes_of_words(out.take(idx as int)),
            decreases words@.len() + 2 - idx,
        {
            let word_a = words[idx];
            let word_b = if idx + 1 < words.len() {
                words[idx + 1]
            } else {
                0
            };
            let input_block: [Word; BLOCK_SIZE] = [word_a, word_b];
            let mut output_block: [Word; BLOCK_SIZE] = [0, 0];
            self.encrypt_block(&input_block, &mut output_block);
            let mut block_bytes = from_words_to_bytes(&output_block);
            proof {
                assert(w[idx as int] == word_a && w[idx + 1] == word_b);
                assert(out[idx as int] == encrypt_spec(
                    self.table(),
                    (word_a, word_b),
                    ROUNDS as nat,
                ).0);
                assert(out[idx + 1] == encrypt_spec(
                    self.table(),
                    (word_a, word_b),
                    ROUNDS as nat,
                ).1);
                assert(output_block@ =~= seq![out[idx as int], out[idx + 1]]);
                lemma_bytes_of_words_concat(out.take(idx as int), output_block@);
                assert(out.take(idx as int) + output_block@ =~= out.take(idx + 2));
            }
            ciphertext.append(&mut block_bytes);
            assert(ciphertext@ == bytes_of_words(out.take(idx + 2)));
            idx = idx + 2;
        }
        proof {
            assert(idx == w.len());
            assert(out.take(idx as int) =~= out);
        }
        ciphertext
    }

    /// ECB decryption of an arbitrary-length buffer: the symmetric inverse of
    /// `encrypt_with_ecb`, decrypting each word pair independently.
    pub fn decrypt_with_ecb(&self, ciphertext: &[u8]) -> (plaintext: Vec<u8>)
        requires
            self.wf(),
        ensures
            plaintext@ == ecb_decrypt_spec(self.table(), ciphertext@, ROUNDS as nat),
    {
        let ghost w = padded_words(ciphertext@);
        let ghost out = ecb_decrypt_words(self.table(), w, ROUNDS as nat);
        let byte_len = ciphertext.len();
        let words = from_bytes_to_words(ciphertext);
        let mut plaintext: Vec<u8> = Vec::new();
        let mut idx: usize = 0;
        while idx < words.len()
            invariant
                self.wf(),
                idx % 2 == 0,
                idx <= w.len(),
                byte_len == ciphertext@.len(),
                4 * words@.len() <= byte_len + 3,
                words@ == words_of_bytes(ciphertext@),
                w == padded_words(ciphertext@),
                out == ecb_decrypt_words(self.table(), w, ROUNDS as nat),
                plaintext@ == bytes_of_words(out.take(idx as int)),
            decreases words@.len() + 2 - idx,
        {
            let word_a = words[idx];
            let word_b = if idx + 1 < words.len() {
                words[idx + 1]
            } else {
                0
            };
            let input_block: [Word; BLOCK_SIZE] = [word_a, word_b];
            let mut output_block: [Word; BLOCK_SIZE] = [0, 0];
            self.decrypt_block(&input_block, &mut output_block);
            let mut block_bytes = from_words_to_bytes(&output_block);
            proof {
                assert(w[idx as int] == word_a && w[idx + 1] == word_b);
                assert(out[idx as int] == decrypt_spec(
                    self.table(),
                    (word_a, word_b),
                    ROUNDS as nat,
                ).0);
                assert(out[idx + 1] == decrypt_spec(
                    self.table(),
                    (word_a, word_b),
                    ROUNDS as nat,
                ).1);
                assert(output_block@ =~= seq![out[idx as int], out[idx + 1]]);
                lemma_bytes_of_words_concat(out.take(idx as int), output_block@);
                assert(out.take(idx as int) + output_block@ =~= out.take(idx + 2));
            }
            plaintext.append(&mut block_bytes);
            assert(plaintext@ == bytes_of_words(out.take(idx + 2)));
            idx = idx + 2;
        }
        proof {
            assert(idx == w.len());
            assert(out.take(idx as int) =~= out);
        }
        plaintext
    }
}

} // verus!
