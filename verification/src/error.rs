//! Protocol errors reported to the operator.
//!
//! Every recoverable failure of the engine is one of these variants; each
//! maps to the single-line human-readable message that the command loop
//! echoes after `ERROR `.

use vstd::prelude::*;

verus! {

/// A protocol error: the reason one command line was rejected.
#[derive(Debug, Clone, Copy, PartialEq, Eq, Structural)]
pub enum Error {
    /// The line buffer filled up before a newline arrived.
    CommandTooLarge,
    /// A field had fewer than five colon-separated subfields.
    FieldTruncated,
    /// A field had more than five colon-separated subfields.
    FieldTooLong,
    /// The strip subfield did not parse as an integer, or named a strip the
    /// device does not have.
    StripIndexInvalid,
    /// The LED subfield did not parse as an integer.
    LedIndexInvalid,
    /// The red subfield did not parse as an integer in 0..=255.
    RedInvalid,
    /// The green subfield did not parse as an integer in 0..=255.
    GreenInvalid,
    /// The blue subfield did not parse as an integer in 0..=255.
    BlueInvalid,
    /// The LED subfield parsed, but the index is past the strip's capacity.
    LedIndexOutOfBounds,
}

impl Error {
    /// The message for this error, as a mathematical sequence of characters.
    pub open spec fn spec_message(self) -> Seq<char> {
        match self {
            Error::CommandTooLarge => "Command is too large"@,
            Error::FieldTruncated => "Field is truncated"@,
            Error::FieldTooLong => "Field is too long"@,
            Error::StripIndexInvalid => "Strip index is invalid"@,
            Error::LedIndexInvalid => "LED index is invalid"@,
            Error::RedInvalid => "RGB value (red) is invalid"@,
            Error::GreenInvalid => "RGB value (green) is invalid"@,
            Error::BlueInvalid => "RGB value (blue) is invalid"@,
            Error::LedIndexOutOfBounds => "LED index is out of bounds"@,
        }
    }

    /// The single-line human-readable message for this error.
    pub fn message(&self) -> (r: &'static str)
        ensures
            r@ == self.spec_message(),
    {
        match self {
            Error::CommandTooLarge => "Command is too large",
            Error::FieldTruncated => "Field is truncated",
            Error::FieldTooLong => "Field is too long",
            Error::StripIndexInvalid => "Strip index is invalid",
            Error::LedIndexInvalid => "LED index is invalid",
            Error::RedInvalid => "RGB value (red) is invalid",
            Error::GreenInvalid => "RGB value (green) is invalid",
            Error::BlueInvalid => "RGB value (blue) is invalid",
            Error::LedIndexOutOfBounds => "LED index is out of bounds",
        }
    }
}

} // verus!
