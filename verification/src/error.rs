//! Error kinds reported by the library.

use vstd::prelude::*;

verus! {

/// Why a byte buffer could not be read as a peer or as a message.
#[derive(Debug, Clone, Copy, PartialEq, Eq, Structural)]
pub enum DecodeError {
    /// The type flag of a message frame carries a reserved pattern. No frame
    /// is refused for it: only the high bit of the flag is read.
    InvalidType,
    /// A length announced in a message frame runs past the end of the buffer.
    Truncated,
    /// A peer embedded in a message frame could not be decoded.
    InvalidPeer,
    /// An address is not valid UTF-8.
    InvalidAddress,
    /// The separator of a peer is not followed by exactly two bytes of age.
    InvalidAge,
    /// A peer holds no separator byte.
    MissingSeparator,
}

impl DecodeError {
    /// A short description of the error.
    pub fn message(&self) -> (text: &'static str)
        ensures
            text@ == match *self {
                DecodeError::InvalidType => "invalid message type"@,
                DecodeError::Truncated => "truncated message"@,
                DecodeError::InvalidPeer => "invalid peer"@,
                DecodeError::InvalidAddress => "invalid address"@,
                DecodeError::InvalidAge => "invalid age"@,
                DecodeError::MissingSeparator => "peer separator not found"@,
            },
    {
        match self {
            DecodeError::InvalidType => "invalid message type",
            DecodeError::Truncated => "truncated message",
            DecodeError::InvalidPeer => "invalid peer",
            DecodeError::InvalidAddress => "invalid address",
            DecodeError::InvalidAge => "invalid age",
            DecodeError::MissingSeparator => "peer separator not found",
        }
    }
}

} // verus!
