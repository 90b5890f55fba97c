//! The ways in which decoding a file can fail.

use vstd::prelude::*;

verus! {

/// Why a decode was given up. Decoding is all-or-nothing: a function that
/// returns one of these returns no partial result.
#[derive(Clone, Copy, Debug, PartialEq, Eq, Structural)]
pub enum BdfError {
    /// The byte source could not be opened or read.
    IoError,
    /// A cursor was asked for more bytes than it has left.
    OutOfRange,
    /// Bytes that should hold text are not valid UTF-8.
    EncodingError,
    /// Text that should hold a decimal integer does not.
    MalformedField,
    /// The fixed 256-byte section could not be decoded.
    MalformedHeader,
    /// The length of the channel section disagrees with the channel count.
    SizeMismatch,
    /// The body holds fewer bytes than the declared record count needs.
    TruncatedBody,
    /// Two channels carry the same label.
    DuplicateChannelLabel,
    /// A byte range does not have the width that its decoder needs.
    InvalidLength,
}

impl BdfError {
    /// A short description of the failure.
    pub fn message(&self) -> (text: &'static str)
        ensures
            text@ == self.spec_message(),
    {
        match self {
            BdfError::IoError => "byte source could not be opened or read",
            BdfError::OutOfRange => "read past the end of the buffer",
            BdfError::EncodingError => "bytes are not valid text",
            BdfError::MalformedField => "text is not a decimal integer",
            BdfError::MalformedHeader => "fixed header section failed to decode",
            BdfError::SizeMismatch => "channel section length disagrees with channel count",
            BdfError::TruncatedBody => "body ends before the declared records do",
            BdfError::DuplicateChannelLabel => "two channels share a label",
            BdfError::InvalidLength => "byte range has the wrong width",
        }
    }

    /// The text that [`BdfError::message`] returns.
    pub open spec fn spec_message(&self) -> Seq<char> {
        match self {
            BdfError::IoError => "byte source could not be opened or read"@,
            BdfError::OutOfRange => "read past the end of the buffer"@,
            BdfError::EncodingError => "bytes are not valid text"@,
            BdfError::MalformedField => "text is not a decimal integer"@,
            BdfError::MalformedHeader => "fixed header section failed to decode"@,
            BdfError::SizeMismatch => "channel section length disagrees with channel count"@,
            BdfError::TruncatedBody => "body ends before the declared records do"@,
            BdfError::DuplicateChannelLabel => "two channels share a label"@,
            BdfError::InvalidLength => "byte range has the wrong width"@,
        }
    }
}

} // verus!
