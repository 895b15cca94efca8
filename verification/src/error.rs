//! The ways in which an operation on a generator can fail.

use vstd::prelude::*;

verus! {

/// A failure that a generator reports to its caller.
#[derive(Clone, Copy, Debug, PartialEq, Eq)]
pub enum TokenError {
    /// The interval is zero, so no interval index exists.
    InvalidInterval,
    /// The clock reads a time before the generator's start time.
    ClockSkew,
    /// The text is not base64.
    DecodeError,
    /// The decoded bytes are not the state of a generator.
    FormatError,
}

impl TokenError {
    /// The text of the message for each failure.
    pub open spec fn spec_message(&self) -> Seq<char> {
        match self {
            TokenError::InvalidInterval => "Interval must be greater than zero"@,
            TokenError::ClockSkew => "Time went backwards"@,
            TokenError::DecodeError => "Base64 decoding error"@,
            TokenError::FormatError => "Deserialization error"@,
        }
    }

    /// A message for the person who sees the failure.
    pub fn message(&self) -> (text: String)
        ensures
            text@ == self.spec_message(),
    {
        match self {
            TokenError::InvalidInterval => String::from_str("Interval must be greater than zero"),
            TokenError::ClockSkew => String::from_str("Time went backwards"),
            TokenError::DecodeError => String::from_str("Base64 decoding error"),
            TokenError::FormatError => String::from_str("Deserialization error"),
        }
    }
}

} // verus!
