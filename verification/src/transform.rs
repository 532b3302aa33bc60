//! The byte/word transform: chunks a byte buffer into 32-bit words and back.
//! A full chunk is assembled little-endian (first byte of the chunk is the
//! least significant byte of the word); a short trailing chunk keeps its bytes
//! in the high positions of the word and the missing low-order byte positions
//! are zero. Words are emitted back as bytes little-endian, four per word.

use vstd::prelude::*;

use crate::params::Word;

verus! {

/// The word whose little-endian bytes are `b0, b1, b2, b3` (`b0` least
/// significant).
pub open spec fn le_word(b0: u8, b1: u8, b2: u8, b3: u8) -> Word {
    (b0 as u32) | ((b1 as u32) << 8) | ((b2 as u32) << 16) | ((b3 as u32) << 24)
}

/// The word produced from chunk `j` of `bytes` (chunks of four): a short
/// trailing chunk occupies the high byte positions, the low ones are zero.
pub open spec fn word_at(bytes: Seq<u8>, j: int) -> Word
    recommends
        0 <= j,
        4 * j < bytes.len(),
{
    let rem = bytes.len() - 4 * j;
    if rem >= 4 {
        le_word(bytes[4 * j], bytes[4 * j + 1], bytes[4 * j + 2], bytes[4 * j + 3])
    } else if rem == 3 {
        le_word(0, bytes[4 * j], bytes[4 * j + 1], bytes[4 * j + 2])
    } else if rem == 2 {
        le_word(0, 0, bytes[4 * j], bytes[4 * j + 1])
    } else {
        le_word(0, 0, 0, bytes[4 * j])
    }
}

/// The sequence of words a byte buffer maps to: one word per chunk of four
/// bytes, a short trailing chunk included.
pub open spec fn words_of_bytes(bytes: Seq<u8>) -> Seq<Word> {
    Seq::new(((bytes.len() + 3) / 4) as nat, |j: int| word_at(bytes, j))
}

/// The four bytes of a word, little-endian (least significant byte first).
pub open spec fn bytes_of_word(w: Word) -> Seq<u8> {
    seq![
        (w & 0xff) as u8,
        ((w >> 8) & 0xff) as u8,
        ((w >> 16) & 0xff) as u8,
        ((w >> 24) & 0xff) as u8,
    ]
}

/// The byte sequence a word sequence maps to: four bytes per word,
/// little-endian within each word.
pub open spec fn bytes_of_words(words: Seq<Word>) -> Seq<u8> {
    Seq::new(words.len() * 4, |i: int| bytes_of_word(words[i / 4])[i % 4])
}

/// A short chunk's word drops the or with its zero low bytes.
proof fn lemma_partial_word(b0: u8, b1: u8, b2: u8)
    ensures
        le_word(0, b0, b1, b2) == ((b0 as u32) << 8) | ((b1 as u32) << 16) | ((b2 as u32) << 24),
        le_word(0, 0, b0, b1) == ((b0 as u32) << 16) | ((b1 as u32) << 24),
        le_word(0, 0, 0, b0) == (b0 as u32) << 24,
{
    assert(le_word(0, b0, b1, b2) == ((b0 as u32) << 8) | ((b1 as u32) << 16) | ((b2 as u32)
    << 24)) by (bit_vector);
    assert(le_word(0, 0, b0, b1) == ((b0 as u32) << 16) | ((b1 as u32) << 24)) by (bit_vector);
    assert(le_word(0, 0, 0, b0) == (b0 as u32) << 24) by (bit_vector);
}

/// A word masked to its low byte fits in a `u8`.
proof fn lemma_low_byte_bound(x: Word)
    ensures
        x & 0xff < 256,
{
    assert(x & 0xff < 256) by (bit_vector);
}

/// Emitting the bytes of one more word appends that word's four bytes.
pub proof fn lemma_bytes_of_words_push(words: Seq<Word>, w: Word)
    ensures
        bytes_of_words(words.push(w)) == bytes_of_words(words) + bytes_of_word(w),
{
    let lhs = bytes_of_words(words.push(w));
    let rhs = bytes_of_words(words) + bytes_of_word(w);
    assert forall|i: int| 0 <= i < lhs.len() implies lhs[i] == rhs[i] by {
        assert(4 * (i / 4) + (i % 4) == i);
        if i < words.len() * 4 {
            assert(i / 4 < words.len());
            assert(words.push(w)[i / 4] == words[i / 4]);
        } else {
            assert(i / 4 == words.len());
            assert(words.push(w)[i / 4] == w);
        }
    }
    assert(lhs =~= rhs);
}

/// Chunking a concatenation whose first part ends on a word boundary chunks
/// each part on its own.
pub proof fn lemma_words_of_bytes_concat_aligned(x: Seq<u8>, y: Seq<u8>)
    requires
        x.len() % 4 == 0,
    ensures
        words_of_bytes(x + y) == words_of_bytes(x) + words_of_bytes(y),
{
    let m = x.len() / 4;
    let lhs = words_of_bytes(x + y);
    let rhs = words_of_bytes(x) + words_of_bytes(y);
    assert(x.len() == 4 * m);
    assert((x.len() + y.len() + 3) / 4 == m + (y.len() + 3) / 4) by (nonlinear_arith)
        requires
            x.len() == 4 * m,
            0 <= y.len(),
    ;
    assert(lhs.len() == rhs.len());
    assert forall|j: int| 0 <= j < lhs.len() implies lhs[j] == rhs[j] by {
        if j < m {
            assert((x + y).len() - 4 * j >= 4);
            assert((x + y)[4 * j] == x[4 * j]);
            assert((x + y)[4 * j + 1] == x[4 * j + 1]);
            assert((x + y)[4 * j + 2] == x[4 * j + 2]);
            assert((x + y)[4 * j + 3] == x[4 * j + 3]);
        } else {
            let k = j - m;
            assert((x + y).len() - 4 * j == y.len() - 4 * k);
            if 4 * k < y.len() {
                assert((x + y)[4 * j] == y[4 * k]);
                if y.len() - 4 * k >= 2 {
                    assert((x + y)[4 * j + 1] == y[4 * k + 1]);
                }
                if y.len() - 4 * k >= 3 {
                    assert((x + y)[4 * j + 2] == y[4 * k + 2]);
                }
                if y.len() - 4 * k >= 4 {
                    assert((x + y)[4 * j + 3] == y[4 * k + 3]);
                }
            }
        }
    }
    assert(lhs =~= rhs);
}

/// Emitting the bytes of a concatenation of word sequences concatenates the
/// bytes of each.
pub proof fn lemma_bytes_of_words_concat(x: Seq<Word>, y: Seq<Word>)
    ensures
        bytes_of_words(x + y) == bytes_of_words(x) + bytes_of_words(y),
{
    let lhs = bytes_of_words(x + y);
    let rhs = bytes_of_words(x) + bytes_of_words(y);
    assert(lhs.len() == rhs.len()) by {
        assert((x + y).len() == x.len() + y.len());
    }
    assert forall|i: int| 0 <= i < lhs.len() implies lhs[i] == rhs[i] by {
        assert(4 * (i / 4) + (i % 4) == i);
        if i < x.len() * 4 {
            assert(i / 4 < x.len());
            assert((x + y)[i / 4] == x[i / 4]);
        } else {
            let k = i - x.len() * 4;
            assert(k / 4 == i / 4 - x.len() && k % 4 == i % 4);
            assert((x + y)[i / 4] == y[i / 4 - x.len()]);
        }
    }
    assert(lhs =~= rhs);
}

/// The four little-endian bytes of an assembled word are the bytes it was
/// assembled from.
proof fn lemma_bytes_of_le_word(b0: u8, b1: u8, b2: u8, b3: u8)
    ensures
        bytes_of_word(le_word(b0, b1, b2, b3)) == seq![b0, b1, b2, b3],
{
    assert((le_word(b0, b1, b2, b3) & 0xff) as u8 == b0) by (bit_vector);
    assert(((le_word(b0, b1, b2, b3) >> 8) & 0xff) as u8 == b1) by (bit_vector);
    assert(((le_word(b0, b1, b2, b3) >> 16) & 0xff) as u8 == b2) by (bit_vector);
    assert(((le_word(b0, b1, b2, b3) >> 24) & 0xff) as u8 == b3) by (bit_vector);
    assert(bytes_of_word(le_word(b0, b1, b2, b3)) =~= seq![b0, b1, b2, b3]);
}

/// Round trip: emitting the words a buffer chunks into gives the buffer back,
/// exactly when the buffer's length is a multiple of the word size (otherwise
/// the result is the buffer zero-padded to the next word boundary).
pub proof fn lemma_words_bytes_round_trip(bytes: Seq<u8>)
    requires
        bytes.len() % 4 == 0,
    ensures
        bytes_of_words(words_of_bytes(bytes)) == bytes,
{
    let w = words_of_bytes(bytes);
    let lhs = bytes_of_words(w);
    assert(w.len() == bytes.len() / 4);
    assert forall|i: int| 0 <= i < lhs.len() implies lhs[i] == bytes[i] by {
        let j = i / 4;
        assert(4 * j + (i % 4) == i);
        assert(bytes.len() - 4 * j >= 4);
        lemma_bytes_of_le_word(bytes[4 * j], bytes[4 * j + 1], bytes[4 * j + 2], bytes[4 * j + 3]);
        assert(w[j] == le_word(bytes[4 * j], bytes[4 * j + 1], bytes[4 * j + 2], bytes[4 * j + 3]));
        assert(lhs[i] == bytes_of_word(w[j])[i % 4]);
    }
    assert(lhs =~= bytes);
}

/// Reassembling a word from its own four little-endian bytes gives the word.
proof fn lemma_le_word_of_bytes(w: Word)
    ensures
        le_word(
            (w & 0xff) as u8,
            ((w >> 8) & 0xff) as u8,
            ((w >> 16) & 0xff) as u8,
            ((w >> 24) & 0xff) as u8,
        ) == w,
{
    assert(le_word(
        (w & 0xff) as u8,
        ((w >> 8) & 0xff) as u8,
        ((w >> 16) & 0xff) as u8,
        ((w >> 24) & 0xff) as u8,
    ) == w) by (bit_vector);
}

/// Round trip in the other direction: chunking the bytes a word sequence
/// emits gives the word sequence back, with no alignment condition — the
/// emitted buffer always ends on a word boundary.
pub proof fn lemma_bytes_words_round_trip(words: Seq<Word>)
    ensures
        words_of_bytes(bytes_of_words(words)) == words,
{
    let bytes = bytes_of_words(words);
    let lhs = words_of_bytes(bytes);
    assert(bytes.len() == 4 * words.len());
    assert(lhs.len() == words.len());
    assert forall|j: int| 0 <= j < lhs.len() implies lhs[j] == words[j] by {
        assert(bytes.len() - 4 * j >= 4);
        assert((4 * j) / 4 == j && (4 * j + 1) / 4 == j && (4 * j + 2) / 4 == j && (4 * j + 3) / 4
            == j);
        assert((4 * j) % 4 == 0 && (4 * j + 1) % 4 == 1 && (4 * j + 2) % 4 == 2 && (4 * j + 3) % 4
            == 3);
        let w = words[j];
        assert(bytes[4 * j] == (w & 0xff) as u8);
        assert(bytes[4 * j + 1] == ((w >> 8) & 0xff) as u8);
        assert(bytes[4 * j + 2] == ((w >> 16) & 0xff) as u8);
        assert(bytes[4 * j + 3] == ((w >> 24) & 0xff) as u8);
        lemma_le_word_of_bytes(w);
    }
    assert(lhs =~= words);
}

/// Transforms a byte buffer into words, one per chunk of four bytes; a short
/// trailing chunk is zero-padded in its low byte positions.
pub fn from_bytes_to_words(bytes: &[u8]) -> (words: Vec<Word>)
    ensures
        words@ == words_of_bytes(bytes@),
{
    let n = bytes.len();
    let word_count = n / 4 + (if n % 4 != 0 {
        1
    } else {
        0
    });
    let mut words: Vec<Word> = Vec::new();
    let mut j: usize = 0;
    while j < word_count
        invariant
            word_count == words_of_bytes(bytes@).len(),
            n == bytes@.len(),
            j <= word_count,
            words@ == words_of_bytes(bytes@).take(j as int),
        decreases word_count - j,
    {
        let i = 4 * j;
        let rem = n - i;
        let w: Word = if rem >= 4 {
            (bytes[i] as u32) | ((bytes[i + 1] as u32) << 8) | ((bytes[i + 2] as u32) << 16) | ((
            bytes[i + 3] as u32) << 24)
        } else if rem == 3 {
            ((bytes[i] as u32) << 8) | ((bytes[i + 1] as u32) << 16) | ((bytes[i + 2] as u32) << 24)
        } else if rem == 2 {
            ((bytes[i] as u32) << 16) | ((bytes[i + 1] as u32) << 24)
        } else {
            (bytes[i] as u32) << 24
        };
        proof {
            if rem == 3 {
                lemma_partial_word(bytes@[i as int], bytes@[i as int + 1], bytes@[i as int + 2]);
            } else if rem == 2 {
                lemma_partial_word(bytes@[i as int], bytes@[i as int + 1], 0);
            } else if rem == 1 {
                lemma_partial_word(bytes@[i as int], 0, 0);
            }
        }
        assert(w == word_at(bytes@, j as int));
        words.push(w);
        assert(words@ =~= words_of_bytes(bytes@).take(j + 1));
        j = j + 1;
    }
    assert(words@ =~= words_of_bytes(bytes@));
    words
}

/// Transforms words into bytes, four per word, little-endian within each word.
pub fn from_words_to_bytes(words: &[Word]) -> (bytes: Vec<u8>)
    ensures
        bytes@ == bytes_of_words(words@),
{
    let mut bytes: Vec<u8> = Vec::new();
    let mut k: usize = 0;
    while k < words.len()
        invariant
            k <= words@.len(),
            bytes@ == bytes_of_words(words@.take(k as int)),
        decreases words@.len() - k,
    {
        let w = words[k];
        proof {
            lemma_low_byte_bound(w);
            lemma_low_byte_bound(w >> 8);
            lemma_low_byte_bound(w >> 16);
            lemma_low_byte_bound(w >> 24);
            lemma_bytes_of_words_push(words@.take(k as int), w);
            assert(words@.take(k as int).push(w) =~= words@.take(k + 1));
        }
        bytes.push((w & 0xff) as u8);
        bytes.push(((w >> 8) & 0xff) as u8);
        bytes.push(((w >> 16) & 0xff) as u8);
        bytes.push(((w >> 24) & 0xff) as u8);
        k = k + 1;
    }
    assert(bytes@ =~= bytes_of_words(words@));
    bytes
}

} // verus!
