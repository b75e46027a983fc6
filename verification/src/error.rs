//! The errors that a conversion can end with.

use vstd::prelude::*;

verus! {

/// Possible errors returned by the API.
#[derive(Debug, Copy, Clone, Eq, PartialEq, Structural, Ord, PartialOrd, Hash)]
pub enum Error {
    /// Not enough space left in the output buffer.
    BufferOverflow,
    /// Input contained a character which cannot be represented in UCS-2.
    MultiByte,
}

impl Error {
    /// The text that describes this error.
    pub open spec fn spec_message(self) -> Seq<char> {
        match self {
            Error::BufferOverflow => "output buffer is too small"@,
            Error::MultiByte => "input contains a character which cannot be represented in UCS-2"@,
        }
    }

    /// Describes the error in words.
    pub fn message(&self) -> (text: &'static str)
        ensures
            text@ == self.spec_message(),
    {
        match self {
            Error::BufferOverflow => "output buffer is too small",
            Error::MultiByte => "input contains a character which cannot be represented in UCS-2",
        }
    }
}

} // verus!
