//! What can go wrong in the store.

use vstd::prelude::*;

verus! {

#[derive(Clone, Copy, PartialEq, Eq, Structural, Debug)]
pub enum Error {
    /// A hexadecimal prefix in a filter is not valid hexadecimal.
    Hex,
    /// An integer field inside a key or a value has the wrong size.
    InvalidLength,
    /// A compact index record, a word list or a payload could not be
    /// encoded or decoded.
    Serialization,
    /// The store cannot take the write: the space of internal identifiers
    /// is used up.
    Substrate,
}

impl Error {
    /// A line of text for the error.
    pub fn message(&self) -> (r: &'static str)
        ensures
            r@ == match *self {
                Error::Hex => "invalid hex"@,
                Error::InvalidLength => "invalid length"@,
                Error::Serialization => "serialization failed"@,
                Error::Substrate => "store is full"@,
            },
    {
        match self {
            Error::Hex => "invalid hex",
            Error::InvalidLength => "invalid length",
            Error::Serialization => "serialization failed",
            Error::Substrate => "store is full",
        }
    }
}

} // verus!
