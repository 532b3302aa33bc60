//! Fixed parameters of the cipher: the word width, the round count, the two
//! magic seed constants of the key schedule, and the sizes derived from them.

use vstd::prelude::*;

verus! {

/// The cipher's fundamental arithmetic unit; all word arithmetic is modulo 2^32.
pub type Word = u32;

/// Number of mixing rounds applied by the block transform.
pub const ROUNDS: usize = 12;

/// First magic constant of the key schedule, fixed for 32-bit words.
pub const P: Word = 0xB7E1_5163;

/// Second magic constant of the key schedule, fixed for 32-bit words.
pub const Q: Word = 0x9E37_79B9;

/// Number of bytes in one `Word`.
pub const WORD_SIZE_BYTES: usize = 4;

/// Number of words in each block; fixed by the cipher family, not configurable.
pub const BLOCK_SIZE: usize = 2;

/// Mask that reduces a word to a rotation amount in `[0, 32)`; equals the word
/// width minus one, which is what makes the mask valid (32 is a power of two).
pub const MASK: Word = 31;

/// Number of entries of the round-key table: two per round, plus two.
pub const S_SIZE: usize = 2 * (ROUNDS + 1);

} // verus!
