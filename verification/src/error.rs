//! The fatal conditions of the input operations.

use vstd::prelude::*;

verus! {

/// A misuse of the input by its caller. None of these is a parse failure:
/// a match that does not succeed reports `false`, not an error.
#[derive(Clone, Copy, Debug, PartialEq, Eq, Structural)]
pub enum InputError {
    /// An offset or range reaches past the end of the buffer.
    OutOfBounds,
    /// An end of a requested range falls inside an encoded character.
    NotCharBoundary,
    /// The two limits of a character range do not have the same encoded width.
    RangeWidthMismatch,
}

impl InputError {
    /// The words that `message` returns.
    pub open spec fn message_text(self) -> Seq<char> {
        match self {
            InputError::OutOfBounds => "position out of bounds"@,
            InputError::NotCharBoundary => "position inside a character"@,
            InputError::RangeWidthMismatch => "ranges should have same-sized UTF-8 limits"@,
        }
    }

    /// A short description for whoever reports the failure.
    pub fn message(&self) -> (m: &'static str)
        ensures
            m@ == self.message_text(),
    {
        match self {
            InputError::OutOfBounds => "position out of bounds",
            InputError::NotCharBoundary => "position inside a character",
            InputError::RangeWidthMismatch => "ranges should have same-sized UTF-8 limits",
        }
    }
}

} // verus!
