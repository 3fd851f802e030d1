//! The ways in which decoding a log can fail.

use vstd::prelude::*;

verus! {

/// Why a log, or one parameter of it, could not be decoded.
#[derive(Clone, Copy, Debug, PartialEq, Eq, Structural)]
pub enum DecodeError {
    /// The log has no topics at all.
    NoTopics,
    /// The first topic is not the hash of the signature that was supplied.
    SignatureMismatch,
    /// A type descriptor is not one that the decoder knows.
    UnsupportedType,
    /// A topic or the data is not `0x` followed by an even number of hex digits.
    MalformedHexData,
    /// The bytes end before the word or payload that the type requires.
    TruncatedWord,
    /// An offset points past the end of the bytes.
    OffsetOutOfBounds,
    /// The parallel sequences of a signature do not agree with each other.
    MalformedSignature,
}

impl DecodeError {
    /// The text that reports this error in a decoded log.
    pub open spec fn message_spec(self) -> Seq<char> {
        match self {
            DecodeError::NoTopics => "no topics found"@,
            DecodeError::SignatureMismatch => "signature mismatch"@,
            DecodeError::UnsupportedType => "unsupported type"@,
            DecodeError::MalformedHexData => "malformed hex data"@,
            DecodeError::TruncatedWord => "truncated word"@,
            DecodeError::OffsetOutOfBounds => "offset out of bounds"@,
            DecodeError::MalformedSignature => "malformed signature"@,
        }
    }

    /// The text that reports this error in a decoded log.
    pub fn message(&self) -> (out: String)
        ensures
            out@ == self.message_spec(),
    {
        match self {
            DecodeError::NoTopics => "no topics found".to_owned(),
            DecodeError::SignatureMismatch => "signature mismatch".to_owned(),
            DecodeError::UnsupportedType => "unsupported type".to_owned(),
            DecodeError::MalformedHexData => "malformed hex data".to_owned(),
            DecodeError::TruncatedWord => "truncated word".to_owned(),
            DecodeError::OffsetOutOfBounds => "offset out of bounds".to_owned(),
            DecodeError::MalformedSignature => "malformed signature".to_owned(),
        }
    }
}

} // verus!
