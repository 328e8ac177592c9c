use vstd::prelude::*;

verus! {

/// Why a decode operation gave up.
#[derive(Clone, Copy, Debug, PartialEq, Eq, Structural)]
pub enum DecodeError {
    /// The stream ended before a required field was fully read.
    Truncated,
    /// The bytes of a length-prefixed string are not valid UTF-8.
    MalformedText,
    /// The decoded runs do not fill the declared `width * height` pixels exactly.
    InsufficientPixelData,
    /// A crop rectangle reaches past the bounds of the atlas.
    OutOfBounds,
    /// A variable-length integer encodes a value that does not fit in `usize`.
    Overflow,
}

impl DecodeError {
    /// A short human-readable description of the error.
    pub fn message(&self) -> (text: &'static str)
        ensures
            text@ == Self::message_of(*self),
    {
        match self {
            DecodeError::Truncated => "unexpected end of stream",
            DecodeError::MalformedText => "string is not valid UTF-8",
            DecodeError::InsufficientPixelData => "image does not contain enough pixels",
            DecodeError::OutOfBounds => "sprite rectangle exceeds the atlas bounds",
            DecodeError::Overflow => "variable-length integer does not fit in usize",
        }
    }

    /// The text that [`DecodeError::message`] returns for each error.
    pub open spec fn message_of(e: DecodeError) -> Seq<char> {
        match e {
            DecodeError::Truncated => "unexpected end of stream"@,
            DecodeError::MalformedText => "string is not valid UTF-8"@,
            DecodeError::InsufficientPixelData => "image does not contain enough pixels"@,
            DecodeError::OutOfBounds => "sprite rectangle exceeds the atlas bounds"@,
            DecodeError::Overflow => "variable-length integer does not fit in usize"@,
        }
    }
}

} // verus!
