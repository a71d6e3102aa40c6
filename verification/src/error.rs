//! The error type shared by every fallible operation of the crate.

use vstd::prelude::*;

verus! {

/// Why an operation failed.  Every failure is a local data-validation
/// failure: nothing in this crate retries or performs I/O.
#[derive(Clone, Copy, Debug, PartialEq, Eq, Structural)]
pub enum Error {
    /// The system clock reported a time before the Unix epoch.
    ClockError,
    /// A base64url string held a character outside the unpadded URL-safe
    /// alphabet, or had a length no unpadded encoding produces, or carried
    /// non-zero trailing bits.
    Base64DecodeError,
    /// Decoded bytes were not valid UTF-8 text.
    TextEncodingError,
    /// Text was not a valid canonical JSON encoding of the target structure.
    JsonFormatError,
}

impl Error {
    /// A short human-readable description of the failure.
    pub fn message(&self) -> (r: &'static str)
        ensures
            r@.len() > 0,
    {
        proof {
            reveal_strlit("system time precedes the Unix epoch");
            reveal_strlit("malformed base64url input");
            reveal_strlit("decoded bytes are not valid UTF-8");
            reveal_strlit("text is not a valid encoding of the target structure");
        }
        match self {
            Error::ClockError => "system time precedes the Unix epoch",
            Error::Base64DecodeError => "malformed base64url input",
            Error::TextEncodingError => "decoded bytes are not valid UTF-8",
            Error::JsonFormatError => "text is not a valid encoding of the target structure",
        }
    }
}

} // verus!
