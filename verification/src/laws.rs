//! The laws the cipher obeys, each stated over the same spec functions the
//! executable functions' contracts use: the two block transforms are exact
//! inverses, the whole pipeline is deterministic in the key material, and ECB
//! encryption of a repeated aligned block repeats the same ciphertext block —
//! the documented pattern leak of the mode.

use vstd::prelude::*;

use crate::decrypt::{dec_rounds, decrypt_spec};
use crate::encrypt::{enc_rounds, encrypt_spec};
use crate::params::{Word, MASK, ROUNDS};
use crate::rc::{
    ecb_decrypt_spec, ecb_decrypt_words, ecb_encrypt_spec, ecb_encrypt_words, padded_words, RC5,
};
use crate::rotate::{
    lemma_rotate_inverse, lemma_rotation_amount, lemma_wrapping_cancel, lemma_xor_cancel, rotl,
    rotr,
};
use crate::transform::{
    bytes_of_words, lemma_bytes_of_words_concat, lemma_bytes_words_round_trip,
    lemma_words_bytes_round_trip, lemma_words_of_bytes_concat_aligned, words_of_bytes,
};

verus! {

/// Undoing `r` rounds after applying `r` rounds gives the whitened block back.
proof fn lemma_dec_enc_rounds(s: Seq<Word>, a: Word, b: Word, r: nat)
    requires
        s.len() >= 2 * r + 2,
    ensures
        dec_rounds(s, enc_rounds(s, a, b, r).0, enc_rounds(s, a, b, r).1, r) == (a, b),
    decreases r,
{
    if r > 0 {
        lemma_dec_enc_rounds(s, a, b, (r - 1) as nat);
        let prev = enc_rounds(s, a, b, (r - 1) as nat);
        let a1 = prev.0;
        let b1 = prev.1;
        let a2 = rotl(a1 ^ b1, b1 & MASK).wrapping_add(s[2 * r as int]);
        let b2 = rotl(b1 ^ a2, a2 & MASK).wrapping_add(s[2 * r as int + 1]);
        lemma_rotation_amount(a2);
        lemma_rotation_amount(b1);
        lemma_wrapping_cancel(rotl(b1 ^ a2, a2 & MASK), s[2 * r as int + 1]);
        lemma_rotate_inverse(b1 ^ a2, a2 & MASK);
        lemma_xor_cancel(b1, a2);
        assert(rotr(b2.wrapping_sub(s[2 * r as int + 1]), a2 & MASK) ^ a2 == b1);
        lemma_wrapping_cancel(rotl(a1 ^ b1, b1 & MASK), s[2 * r as int]);
        lemma_rotate_inverse(a1 ^ b1, b1 & MASK);
        lemma_xor_cancel(a1, b1);
        assert(rotr(a2.wrapping_sub(s[2 * r as int]), b1 & MASK) ^ b1 == a1);
    }
}

/// Applying `r` rounds after undoing `r` rounds gives the ciphertext back.
proof fn lemma_enc_dec_rounds(s: Seq<Word>, a: Word, b: Word, r: nat)
    requires
        s.len() >= 2 * r + 2,
    ensures
        enc_rounds(s, dec_rounds(s, a, b, r).0, dec_rounds(s, a, b, r).1, r) == (a, b),
    decreases r,
{
    if r > 0 {
        let b1 = rotr(b.wrapping_sub(s[2 * r as int + 1]), a & MASK) ^ a;
        let a1 = rotr(a.wrapping_sub(s[2 * r as int]), b1 & MASK) ^ b1;
        lemma_enc_dec_rounds(s, a1, b1, (r - 1) as nat);
        assert(dec_rounds(s, a, b, r) == dec_rounds(s, a1, b1, (r - 1) as nat));
        lemma_rotation_amount(b1);
        lemma_xor_cancel(rotr(a.wrapping_sub(s[2 * r as int]), b1 & MASK), b1);
        lemma_rotate_inverse(a.wrapping_sub(s[2 * r as int]), b1 & MASK);
        lemma_wrapping_cancel(a.wrapping_sub(s[2 * r as int]), s[2 * r as int]);
        assert(rotl(a1 ^ b1, b1 & MASK).wrapping_add(s[2 * r as int]) == a);
        lemma_rotation_amount(a);
        lemma_xor_cancel(rotr(b.wrapping_sub(s[2 * r as int + 1]), a & MASK), a);
        lemma_rotate_inverse(b.wrapping_sub(s[2 * r as int + 1]), a & MASK);
        lemma_wrapping_cancel(b.wrapping_sub(s[2 * r as int + 1]), s[2 * r as int + 1]);
        assert(rotl(b1 ^ a, a & MASK).wrapping_add(s[2 * r as int + 1]) == b);
    }
}

/// Inverse law, decrypt after encrypt: for every round-key table of the
/// matching size and every two-word block, decrypting the encryption of the
/// block gives the block back.
pub proof fn lemma_decrypt_encrypt_inverse(s: Seq<Word>, block: (Word, Word), r: nat)
    requires
        s.len() >= 2 * r + 2,
    ensures
        decrypt_spec(s, encrypt_spec(s, block, r), r) == block,
{
    lemma_dec_enc_rounds(s, block.0.wrapping_add(s[0]), block.1.wrapping_add(s[1]), r);
    lemma_wrapping_cancel(block.0, s[0]);
    lemma_wrapping_cancel(block.1, s[1]);
}

/// Inverse law, encrypt after decrypt: for every round-key table of the
/// matching size and every two-word block, encrypting the decryption of the
/// block gives the block back.
pub proof fn lemma_encrypt_decrypt_inverse(s: Seq<Word>, block: (Word, Word), r: nat)
    requires
        s.len() >= 2 * r + 2,
    ensures
        encrypt_spec(s, decrypt_spec(s, block, r), r) == block,
{
    lemma_enc_dec_rounds(s, block.0, block.1, r);
    let inner = dec_rounds(s, block.0, block.1, r);
    lemma_wrapping_cancel(inner.0, s[0]);
    lemma_wrapping_cancel(inner.1, s[1]);
}

/// Determinism: two instances built from identical key material carry
/// identical round-key tables, and identical plaintext blocks encrypt to
/// identical ciphertext blocks under them.
pub proof fn lemma_determinism(c1: RC5, c2: RC5, key: Seq<u8>, block: (Word, Word))
    requires
        c1.is_for_key(key),
        c2.is_for_key(key),
    ensures
        c1.table() == c2.table(),
        encrypt_spec(c1.table(), block, ROUNDS as nat) == encrypt_spec(
            c2.table(),
            block,
            ROUNDS as nat,
        ),
{
}

/// An empty buffer encrypts and decrypts to an empty buffer under every table
/// and round count: ECB walks whole blocks and an empty buffer holds none.
pub proof fn lemma_ecb_empty(s: Seq<Word>, r: nat)
    ensures
        ecb_encrypt_spec(s, Seq::<u8>::empty(), r) == Seq::<u8>::empty(),
        ecb_decrypt_spec(s, Seq::<u8>::empty(), r) == Seq::<u8>::empty(),
{
    assert(words_of_bytes(Seq::<u8>::empty()).len() == 0);
    assert(padded_words(Seq::<u8>::empty()) =~= Seq::<Word>::empty());
    assert(ecb_encrypt_words(s, Seq::<Word>::empty(), r) =~= Seq::<Word>::empty());
    assert(ecb_decrypt_words(s, Seq::<Word>::empty(), r) =~= Seq::<Word>::empty());
    assert(bytes_of_words(Seq::<Word>::empty()) =~= Seq::<u8>::empty());
}

/// Pairwise decryption undoes pairwise encryption on an even-length word
/// sequence.
proof fn lemma_ecb_words_inverse(s: Seq<Word>, w: Seq<Word>, r: nat)
    requires
        s.len() >= 2 * r + 2,
        w.len() % 2 == 0,
    ensures
        ecb_decrypt_words(s, ecb_encrypt_words(s, w, r), r) == w,
{
    let out = ecb_encrypt_words(s, w, r);
    let back = ecb_decrypt_words(s, out, r);
    assert forall|k: int| 0 <= k < back.len() implies back[k] == w[k] by {
        let p = if k % 2 == 0 {
            k
        } else {
            k - 1
        };
        assert(out[p] == encrypt_spec(s, (w[p], w[p + 1]), r).0);
        assert(out[p + 1] == encrypt_spec(s, (w[p], w[p + 1]), r).1);
        lemma_decrypt_encrypt_inverse(s, (w[p], w[p + 1]), r);
    }
    assert(back =~= w);
}

/// ECB round trip: for a plaintext whose length is a whole number of
/// two-word blocks, decrypting the ECB encryption gives the plaintext back.
/// (A non-aligned plaintext comes back zero-padded instead; that is the
/// transform's documented behaviour, not a failure of the block inverse.)
pub proof fn lemma_ecb_round_trip(s: Seq<Word>, bytes: Seq<u8>, r: nat)
    requires
        s.len() >= 2 * r + 2,
        bytes.len() % 8 == 0,
    ensures
        ecb_decrypt_spec(s, ecb_encrypt_spec(s, bytes, r), r) == bytes,
{
    let w = words_of_bytes(bytes);
    assert(w.len() == bytes.len() / 4);
    assert(w.len() % 2 == 0) by (nonlinear_arith)
        requires
            w.len() == bytes.len() / 4 && bytes.len() % 8 == 0 && bytes.len() >= 0,
    ;
    assert(padded_words(bytes) == w);
    let out = ecb_encrypt_words(s, w, r);
    let ct = bytes_of_words(out);
    lemma_bytes_words_round_trip(out);
    assert(padded_words(ct) == out);
    lemma_ecb_words_inverse(s, w, r);
    lemma_words_bytes_round_trip(bytes);
}

/// A byte buffer repeated `n` times.
pub open spec fn repeat_bytes(b: Seq<u8>, n: nat) -> Seq<u8>
    decreases n,
{
    if n == 0 {
        Seq::empty()
    } else {
        b + repeat_bytes(b, (n - 1) as nat)
    }
}

proof fn lemma_repeat_bytes_len(b: Seq<u8>, n: nat)
    ensures
        repeat_bytes(b, n).len() == n * b.len(),
    decreases n,
{
    let blen = b.len() as int;
    let m = n as int;
    if n == 0 {
        assert(m * blen == 0) by (nonlinear_arith)
            requires
                m == 0,
        ;
    } else {
        lemma_repeat_bytes_len(b, (n - 1) as nat);
        assert(repeat_bytes(b, n).len() == blen + (m - 1) * blen);
        assert(blen + (m - 1) * blen == m * blen) by (nonlinear_arith);
    }
}

/// ECB transforms an even-length prefix of word pairs and the rest
/// independently of one another.
proof fn lemma_ecb_words_concat(s: Seq<Word>, u: Seq<Word>, v: Seq<Word>, r: nat)
    requires
        u.len() % 2 == 0,
        v.len() % 2 == 0,
    ensures
        ecb_encrypt_words(s, u + v, r) == ecb_encrypt_words(s, u, r) + ecb_encrypt_words(s, v, r),
{
    let lhs = ecb_encrypt_words(s, u + v, r);
    let rhs = ecb_encrypt_words(s, u, r) + ecb_encrypt_words(s, v, r);
    assert forall|k: int| 0 <= k < lhs.len() implies lhs[k] == rhs[k] by {
        if k < u.len() {
            if k % 2 == 0 {
                assert((u + v)[k] == u[k] && (u + v)[k + 1] == u[k + 1]);
            } else {
                assert((u + v)[k] == u[k] && (u + v)[k - 1] == u[k - 1]);
            }
        } else {
            let k2 = k - u.len();
            assert(k2 % 2 == k % 2);
            if k % 2 == 0 {
                assert((u + v)[k] == v[k2] && (u + v)[k + 1] == v[k2 + 1]);
            } else {
                assert((u + v)[k] == v[k2] && (u + v)[k - 1] == v[k2 - 1]);
            }
        }
    }
    assert(lhs =~= rhs);
}

/// ECB block independence: a plaintext that is the same eight-byte block
/// repeated `n` times encrypts, under any table and round count, to the
/// eight-byte ciphertext of that one block repeated `n` times. Two distinct
/// concatenations of the same block therefore share the same eight-byte
/// period — the documented weakness of the mode.
pub proof fn lemma_ecb_block_independence(s: Seq<Word>, block: Seq<u8>, n: nat, r: nat)
    requires
        block.len() == 8,
    ensures
        ecb_encrypt_spec(s, repeat_bytes(block, n), r) == repeat_bytes(
            ecb_encrypt_spec(s, block, r),
            n,
        ),
    decreases n,
{
    lemma_repeat_bytes_len(block, n);
    if n == 0 {
        assert(words_of_bytes(repeat_bytes(block, 0)).len() == 0);
        assert(padded_words(repeat_bytes(block, 0)) =~= Seq::<Word>::empty());
        assert(ecb_encrypt_words(s, Seq::<Word>::empty(), r) =~= Seq::<Word>::empty());
        assert(bytes_of_words(Seq::<Word>::empty()) =~= Seq::<u8>::empty());
    } else {
        lemma_ecb_block_independence(s, block, (n - 1) as nat, r);
        let rest = repeat_bytes(block, (n - 1) as nat);
        lemma_repeat_bytes_len(block, (n - 1) as nat);
        assert(rest.len() == 8 * (n - 1)) by (nonlinear_arith)
            requires
                rest.len() == (n - 1) as nat * 8 && n >= 1,
        ;
        lemma_words_of_bytes_concat_aligned(block, rest);
        let wb = words_of_bytes(block);
        let wrest = words_of_bytes(rest);
        assert(wb.len() == 2);
        assert(wrest.len() == (8 * (n - 1) + 3) / 4);
        assert(wrest.len() == 2 * (n - 1)) by (nonlinear_arith)
            requires
                wrest.len() == (8 * (n - 1) + 3) / 4 && n >= 1,
        ;
        assert(padded_words(block) == wb);
        assert(padded_words(rest) == wrest);
        assert(padded_words(repeat_bytes(block, n)) == wb + wrest);
        lemma_ecb_words_concat(s, wb, wrest, r);
        lemma_bytes_of_words_concat(ecb_encrypt_words(s, wb, r), ecb_encrypt_words(s, wrest, r));
        assert(ecb_encrypt_spec(s, repeat_bytes(block, n), r) == ecb_encrypt_spec(s, block, r)
            + ecb_encrypt_spec(s, rest, r));
    }
}

} // verus!
