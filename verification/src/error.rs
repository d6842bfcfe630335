//! The error kinds that the file operations report.

use vstd::prelude::*;

verus! {

/// Everything that can go wrong while reading, combining or comparing
/// phase-space data.
#[derive(Clone, Copy, Debug, PartialEq, Eq, Structural)]
pub enum EGSError {
    /// The first five bytes of the data name no known mode.
    BadMode,
    /// The byte length of the data disagrees with the record count that its
    /// header declares.
    BadLength,
    /// The inputs of a combine carry different record layouts.
    ModeMismatch,
    /// The headers of two compared files differ.
    HeaderMismatch,
    /// A pair of compared records differs.
    RecordMismatch,
}

pub type EGSResult<T> = Result<T, EGSError>;

impl EGSError {
    /// A short description of the failure.
    pub fn message(&self) -> (r: &'static str)
        ensures
            r@ == self.message_spec(),
    {
        match self {
            EGSError::BadMode => "First 5 bytes of file are invalid, must be MODE0 or MODE2",
            EGSError::BadLength => "Number of total particles does not match byte length of file",
            EGSError::ModeMismatch => "Input file MODE0/MODE2 do not match",
            EGSError::HeaderMismatch => "Headers are different",
            EGSError::RecordMismatch => "Records are different",
        }
    }

    /// The text that `message` returns for each kind.
    pub open spec fn message_spec(&self) -> Seq<char> {
        match self {
            EGSError::BadMode => "First 5 bytes of file are invalid, must be MODE0 or MODE2"@,
            EGSError::BadLength => "Number of total particles does not match byte length of file"@,
            EGSError::ModeMismatch => "Input file MODE0/MODE2 do not match"@,
            EGSError::HeaderMismatch => "Headers are different"@,
            EGSError::RecordMismatch => "Records are different"@,
        }
    }
}

} // verus!
