//! The error that the ciphers return for a key that they do not accept.

use vstd::prelude::*;

verus! {

/// What is said of a Caesar key that is refused.
pub const INVALID_CAESAR_KEY: &'static str = "<key> must be a positive integer between 1 and 25";

/// What is said of a columnar transposition key that is refused.
pub const INVALID_COLUMNAR_TRANSPOSITION_KEY: &'static str =
    "<key> must be a string of integers of range 1 to n, where n is the length of the key \
     itself, in an arbitrary order";

/// What is said of a mono-alphabetic key that is refused.
pub const INVALID_MONO_ALPHABETIC_KEY: &'static str = "<key> must contain all 26 unique alphabets";

/// What is said of a rail fence key that is refused.
pub const INVALID_RAIL_FENCE_KEY: &'static str =
    "<key> must be a positive integer and bigger than 1";

/// What is said of a Vernam key that is refused.
pub const INVALID_VERNAM_KEY: &'static str = "<key> must have the same length as the input";

/// Why a key was turned down: one variant for each cipher.
#[derive(Debug, Clone, Copy, PartialEq, Eq, Structural)]
pub enum ErrorKind {
    /// The shift is not between 1 and 25.
    InvalidCaesarKey,
    /// The key is not a string of the digits 1 to n, each once, n being its length.
    InvalidColumnarTranspositionKey,
    /// The key does not hold all 26 letters.
    InvalidMonoAlphabeticKey,
    /// The number of rails is 1 or less.
    InvalidRailFenceKey,
    /// The key does not hold as many letters as the text.
    InvalidVernamKey,
}

/// The error that every cipher returns for a key it does not accept. Its view is its
/// kind.
#[derive(Debug)]
pub struct Error {
    kind: ErrorKind,
}

impl View for Error {
    type V = ErrorKind;

    closed spec fn view(&self) -> ErrorKind {
        self.kind
    }
}

/// The text that describes an error of the given kind.
pub open spec fn message_of(kind: ErrorKind) -> Seq<char> {
    match kind {
        ErrorKind::InvalidCaesarKey => INVALID_CAESAR_KEY@,
        ErrorKind::InvalidColumnarTranspositionKey => INVALID_COLUMNAR_TRANSPOSITION_KEY@,
        ErrorKind::InvalidMonoAlphabeticKey => INVALID_MONO_ALPHABETIC_KEY@,
        ErrorKind::InvalidRailFenceKey => INVALID_RAIL_FENCE_KEY@,
        ErrorKind::InvalidVernamKey => INVALID_VERNAM_KEY@,
    }
}

impl Error {
    /// An error of the given kind.
    pub fn new(kind: ErrorKind) -> (e: Self)
        ensures
            e@ == kind,
    {
        Error { kind }
    }

    /// The kind of this error.
    pub fn kind(&self) -> (k: &ErrorKind)
        ensures
            *k == self@,
    {
        &self.kind
    }

    /// The text that describes this error.
    pub fn message(&self) -> (m: &'static str)
        ensures
            m@ == message_of(self@),
    {
        match self.kind {
            ErrorKind::InvalidCaesarKey => INVALID_CAESAR_KEY,
            ErrorKind::InvalidColumnarTranspositionKey => INVALID_COLUMNAR_TRANSPOSITION_KEY,
            ErrorKind::InvalidMonoAlphabeticKey => INVALID_MONO_ALPHABETIC_KEY,
            ErrorKind::InvalidRailFenceKey => INVALID_RAIL_FENCE_KEY,
            ErrorKind::InvalidVernamKey => INVALID_VERNAM_KEY,
        }
    }
}

} // verus!
