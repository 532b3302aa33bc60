//! An RC5-style parameterized block cipher: a key schedule that expands an
//! arbitrary-length secret key into a fixed-size round-key table, a pair of
//! two-word block transforms (encrypt/decrypt) that are exact inverses, and a
//! deliberately naive ECB driver that applies the block transform across
//! arbitrary-length byte buffers.

pub mod decrypt;
pub mod encrypt;
pub mod errors;
pub mod expanded_keys;
pub mod laws;
pub mod params;
pub mod rc;
pub mod rotate;
pub mod transform;

pub use errors::Rc5Error;
pub use params::{Word, BLOCK_SIZE, MASK, P, Q, ROUNDS, S_SIZE, WORD_SIZE_BYTES};
pub use rc::RC5;
