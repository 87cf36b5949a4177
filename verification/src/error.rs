//! The failure kinds of the library.

use vstd::prelude::*;

verus! {

/// Why an operation failed: the four header-validation failures raised when
/// reading a container header, and the malformed-payload failure raised by
/// the LZ77 decoder on a back-reference that reaches before the start of the
/// output or has a zero distance.
#[derive(Clone, Copy, Debug, PartialEq, Eq, Structural)]
pub enum CodecError {
    /// The buffer is shorter than a container header.
    InvalidFormat,
    /// The first five bytes are not the magic constant.
    InvalidMagic,
    /// The version byte is not the single supported version.
    UnsupportedVersion,
    /// The algorithm byte names no known algorithm.
    InvalidAlgorithmId,
    /// An LZ77 match token reaches back past the start of the output.
    MalformedPayload,
}

impl CodecError {
    /// The text of each failure's human-readable description.
    pub open spec fn message_spec(&self) -> Seq<char> {
        match self {
            CodecError::InvalidFormat => "Invalid compressed file format"@,
            CodecError::InvalidMagic => "Invalid magic number"@,
            CodecError::UnsupportedVersion => "Unsupported version"@,
            CodecError::InvalidAlgorithmId => "Invalid algorithm identifier"@,
            CodecError::MalformedPayload => "Malformed payload"@,
        }
    }

    /// A human-readable description of the failure.
    pub fn message(&self) -> (r: &'static str)
        ensures
            r@ == self.message_spec(),
    {
        match self {
            CodecError::InvalidFormat => "Invalid compressed file format",
            CodecError::InvalidMagic => "Invalid magic number",
            CodecError::UnsupportedVersion => "Unsupported version",
            CodecError::InvalidAlgorithmId => "Invalid algorithm identifier",
            CodecError::MalformedPayload => "Malformed payload",
        }
    }
}

} // verus!
