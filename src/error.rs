//! The error type shared by every fallible operation of the library.

use vstd::prelude::*;

verus! {

/// Error type for all operations of the library.
#[derive(Debug)]
pub enum Error {
    /// The key provided was not usable, or a key derivation could not be completed.
    KeyError(String),
    /// A cryptographic primitive or the random-number generator failed.
    CryptoError(String),
    /// A comparison could not be completed.
    ComparisonError(String),
    /// The bytes provided as a ciphertext are not a valid ciphertext.
    ParseError(String),
    /// An argument lies outside the range that it must lie in.
    RangeError(String),
    /// Arithmetic overflow (or underflow) in a size computation.
    OverflowError(String),
    /// An internal invariant was violated.
    InternalError(String),
}

impl Error {
    /// The message that the error carries.
    pub open spec fn message_of(&self) -> Seq<char> {
        match self {
            Error::KeyError(s) => s@,
            Error::CryptoError(s) => s@,
            Error::ComparisonError(s) => s@,
            Error::ParseError(s) => s@,
            Error::RangeError(s) => s@,
            Error::OverflowError(s) => s@,
            Error::InternalError(s) => s@,
        }
    }

    /// A human-readable description of the error: the message of its variant.
    pub fn message(&self) -> (r: String)
        ensures
            r@ == self.message_of(),
    {
        match self {
            Error::KeyError(s) => s.clone(),
            Error::CryptoError(s) => s.clone(),
            Error::ComparisonError(s) => s.clone(),
            Error::ParseError(s) => s.clone(),
            Error::RangeError(s) => s.clone(),
            Error::OverflowError(s) => s.clone(),
            Error::InternalError(s) => s.clone(),
        }
    }
}

} // verus!
