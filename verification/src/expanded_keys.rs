//! The key schedule: seeds the round-key table from the two magic constants,
//! then mixes the key words into it with three interleaved passes. The triple
//! pass count and the data-dependent rotation amount are part of the published
//! algorithm and must not change; an empty key is legal and leaves the table a
//! fixed, key-independent permutation of the seed values.

use vstd::prelude::*;

use crate::errors::Rc5Error;
use crate::params::{Word, MASK, P, Q};
use crate::rotate::{lemma_rotation_amount, rotate_left_word, rotl};
use crate::transform::{from_bytes_to_words, words_of_bytes};

verus! {

/// The seeded table of `n` entries: the first entry is `P`, and each further
/// entry adds `Q` to its predecessor, wrapping.
pub open spec fn seed_keys(n: nat) -> Seq<Word>
    decreases n,
{
    if n == 0 {
        Seq::empty()
    } else if n == 1 {
        seq![P]
    } else {
        let prev = seed_keys((n - 1) as nat);
        prev.push(prev.last().wrapping_add(Q))
    }
}

/// The mixing state after `n` iterations of the interleaved update, starting
/// from table `s`, key words `key`, running words `a` and `b`, and cursors
/// `i` (into the table) and `j` (into the key). Each iteration updates one
/// table entry; with a non-empty key it also updates one key word.
pub open spec fn mix_iter(
    s: Seq<Word>,
    key: Seq<Word>,
    a: Word,
    b: Word,
    i: int,
    j: int,
    n: nat,
) -> (Seq<Word>, Seq<Word>, Word, Word)
    recommends
        s.len() >= 2,
        0 <= i < s.len(),
        key.len() > 0 ==> 0 <= j < key.len(),
    decreases n,
{
    if n == 0 {
        (s, key, a, b)
    } else {
        let a1 = rotl(s[i].wrapping_add(a).wrapping_add(b), 3);
        let s1 = s.update(i, a1);
        let i1 = (i + 1) % (s.len() as int);
        if key.len() > 0 {
            let b1 = rotl(key[j].wrapping_add(a1).wrapping_add(b), a1.wrapping_add(b) & MASK);
            let key1 = key.update(j, b1);
            let j1 = (j + 1) % (key.len() as int);
            mix_iter(s1, key1, a1, b1, i1, j1, (n - 1) as nat)
        } else {
            mix_iter(s1, key, a1, b, i1, j, (n - 1) as nat)
        }
    }
}

/// Number of mixing iterations: three times the larger of the table size and
/// the key word count.
pub open spec fn mix_count(s_len: nat, key_len: nat) -> nat {
    3 * (if s_len > key_len {
        s_len
    } else {
        key_len
    })
}

/// The table after the full mix of `key` into `s`, both cursors and both
/// running words starting at zero.
pub open spec fn mixed_keys(s: Seq<Word>, key: Seq<Word>) -> Seq<Word> {
    mix_iter(s, key, 0, 0, 0, 0, mix_count(s.len(), key.len())).0
}

/// The round-key table that a raw key expands to: seed a table of `s_size`
/// entries, then mix the key's words into it.
pub open spec fn expanded_keys_spec(key_bytes: Seq<u8>, s_size: nat) -> Seq<Word> {
    mixed_keys(seed_keys(s_size), words_of_bytes(key_bytes))
}

/// The seeded table has as many entries as asked for.
pub proof fn lemma_seed_keys_len(n: nat)
    ensures
        seed_keys(n).len() == n,
    decreases n,
{
    if n > 1 {
        lemma_seed_keys_len((n - 1) as nat);
    }
}

/// Mixing changes entries of the table and of the key words in place: the
/// lengths of both stay what they were.
pub proof fn lemma_mix_iter_len(
    s: Seq<Word>,
    key: Seq<Word>,
    a: Word,
    b: Word,
    i: int,
    j: int,
    n: nat,
)
    requires
        s.len() >= 2,
        0 <= i < s.len(),
        key.len() > 0 ==> 0 <= j < key.len(),
    ensures
        mix_iter(s, key, a, b, i, j, n).0.len() == s.len(),
        mix_iter(s, key, a, b, i, j, n).1.len() == key.len(),
    decreases n,
{
    if n > 0 {
        let a1 = rotl(s[i].wrapping_add(a).wrapping_add(b), 3);
        let s1 = s.update(i, a1);
        let i1 = (i + 1) % (s.len() as int);
        if key.len() > 0 {
            let b1 = rotl(key[j].wrapping_add(a1).wrapping_add(b), a1.wrapping_add(b) & MASK);
            let key1 = key.update(j, b1);
            let j1 = (j + 1) % (key.len() as int);
            lemma_mix_iter_len(s1, key1, a1, b1, i1, j1, (n - 1) as nat);
        } else {
            lemma_mix_iter_len(s1, key, a1, b, i1, j, (n - 1) as nat);
        }
    }
}

/// The expanded table has exactly `s_size` entries.
pub proof fn lemma_expanded_keys_len(key_bytes: Seq<u8>, s_size: nat)
    requires
        s_size >= 2,
    ensures
        expanded_keys_spec(key_bytes, s_size).len() == s_size,
{
    lemma_seed_keys_len(s_size);
    let s = seed_keys(s_size);
    let key = words_of_bytes(key_bytes);
    lemma_mix_iter_len(s, key, 0, 0, 0, 0, mix_count(s.len(), key.len()));
}

/// Builds the seeded table of `s_size` entries.
fn init_expanded_keys_array(s_size: usize) -> (keys: Vec<Word>)
    ensures
        keys@ == seed_keys(s_size as nat),
{
    let mut keys: Vec<Word> = Vec::new();
    if s_size == 0 {
        assert(keys@ =~= seed_keys(0));
        return keys;
    }
    keys.push(P);
    assert(keys@ =~= seed_keys(1));
    let mut i: usize = 1;
    while i < s_size
        invariant
            1 <= i <= s_size,
            keys@ == seed_keys(i as nat),
            keys@.len() == i,
        decreases s_size - i,
    {
        proof {
            lemma_seed_keys_len(i as nat);
        }
        let next = keys[i - 1].wrapping_add(Q);
        keys.push(next);
        proof {
            lemma_seed_keys_len((i + 1) as nat);
            assert(keys@ =~= seed_keys((i + 1) as nat));
        }
        i = i + 1;
    }
    keys
}

/// Mixes the key words into the seeded table in place. Fails, leaving the
/// table untouched, if the table has fewer than the two-entry minimum.
fn mix_expanded_keys_array(s: &mut Vec<Word>, key: Vec<Word>) -> (result: Result<(), Rc5Error>)
    requires
        old(s)@.len() <= usize::MAX / 3,
        key@.len() <= usize::MAX / 3,
    ensures
        match result {
            Ok(()) => old(s)@.len() >= 2 && final(s)@ == mixed_keys(old(s)@, key@),
            Err(e) => old(s)@.len() < 2 && e == Rc5Error::TableTooSmall && final(s)@ == old(s)@,
        },
{
    let mut key = key;
    let key_size = key.len();
    let keys_extended_size = s.len();
    if keys_extended_size < 2 {
        return Err(Rc5Error::TableTooSmall);
    }

    let ghost s0 = s@;
    let ghost key0 = key@;

    let total: usize = 3 * (if keys_extended_size > key_size {
        keys_extended_size
    } else {
        key_size
    });

    let mut i: usize = 0;
    let mut j: usize = 0;
    let mut word_a: Word = 0;
    let mut word_b: Word = 0;
    let mut t: usize = 0;

    while t < total
        invariant
            t <= total,
            total == mix_count(s0.len(), key0.len()),
            s@.len() == s0.len() == keys_extended_size,
            key@.len() == key0.len() == key_size,
            keys_extended_size >= 2,
            i < keys_extended_size,
            key_size > 0 ==> j < key_size,
            key_size == 0 ==> j == 0,
            mix_iter(s@, key@, word_a, word_b, i as int, j as int, (total - t) as nat) == mix_iter(
                s0,
                key0,
                0,
                0,
                0,
                0,
                total as nat,
            ),
        decreases total - t,
    {
        word_a = rotate_left_word(s[i].wrapping_add(word_a).wrapping_add(word_b), 3);
        s[i] = word_a;
        if key_size > 0 {
            proof {
                lemma_rotation_amount(word_a.wrapping_add(word_b));
            }
            word_b = rotate_left_word(
                key[j].wrapping_add(word_a).wrapping_add(word_b),
                word_a.wrapping_add(word_b) & MASK,
            );
            key[j] = word_b;
            j = (j + 1) % key_size;
        }
        i = (i + 1) % keys_extended_size;
        t = t + 1;
    }
    assert(s@ == mixed_keys(s0, key0));
    Ok(())
}

/// Expands a raw key into the round-key table of `s_size` entries: converts
/// the key to words, seeds the table, and mixes. Fails only when the table
/// size is below the two-entry minimum; any key, the empty key included, is
/// accepted.
pub fn generate_expanded_keys_array(key: &[u8], s_size: usize) -> (result: Result<
    Vec<Word>,
    Rc5Error,
>)
    requires
        s_size <= usize::MAX / 3,
    ensures
        match result {
            Ok(keys) => s_size >= 2 && keys@ == expanded_keys_spec(key@, s_size as nat),
            Err(e) => s_size < 2 && e == Rc5Error::TableTooSmall,
        },
{
    let byte_len = key.len();
    let key_with_words = from_bytes_to_words(key);
    proof {
        assert(4 * key_with_words@.len() <= byte_len + 3);
    }
    let mut keys = init_expanded_keys_array(s_size);
    proof {
        lemma_seed_keys_len(s_size as nat);
    }
    match mix_expanded_keys_array(&mut keys, key_with_words) {
        Ok(()) => Ok(keys),
        Err(e) => Err(e),
    }
}

} // verus!
