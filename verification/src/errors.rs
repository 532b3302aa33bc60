//! Configuration errors. Both are rejected at construction time, before any
//! cryptographic operation runs; block operations themselves never fail.

use vstd::prelude::*;

verus! {

/// A configuration error: a key longer than the 255-byte limit, or a round-key
/// table size below the two-entry minimum.
#[derive(Clone, Copy, Debug, PartialEq, Eq, Structural)]
pub enum Rc5Error {
    KeyTooLong,
    TableTooSmall,
}

impl Rc5Error {
    /// A human-readable description of the error.
    pub fn message(&self) -> (m: String)
        ensures
            *self == Rc5Error::KeyTooLong ==> m@ == "The max size of key is 255"@,
            *self == Rc5Error::TableTooSmall ==> m@
                == "the size of extended key table should be at least 2"@,
    {
        match self {
            Rc5Error::KeyTooLong => "The max size of key is 255".to_string(),
            Rc5Error::TableTooSmall => "the size of extended key table should be at least 2"
                .to_string(),
        }
    }
}

} // verus!
