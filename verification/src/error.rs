//! The failures that decoding can report.

use vstd::prelude::*;
use vstd::string::StringExecFns;

verus! {

/// Why a buffer could not be decoded.
#[derive(Debug, Clone, Copy, PartialEq, Eq, Structural)]
pub enum PacketError {
    /// Too few bytes for a frame, or the declared size overruns the buffer.
    InvalidPacket,
    /// The stored checksum is not the checksum of the payload.
    InvalidChecksum,
    /// The version tag is not one this protocol knows.
    UnknownProtocolVersion,
    /// The reassembled payloads are not valid UTF-8 text.
    CorruptedMessage,
}

impl PacketError {
    /// The text shown to a reader for this error.
    pub open spec fn spec_message(self) -> Seq<char> {
        match self {
            PacketError::InvalidPacket => "Invalid packet"@,
            PacketError::InvalidChecksum => "Checksum invalid"@,
            PacketError::UnknownProtocolVersion => "Unknown protocol version"@,
            PacketError::CorruptedMessage => "Data is corrupted"@,
        }
    }

    /// A human-readable description of the error.
    pub fn message(&self) -> (text: String)
        ensures
            text@ == self.spec_message(),
    {
        match self {
            PacketError::InvalidPacket => String::from_str("Invalid packet"),
            PacketError::InvalidChecksum => String::from_str("Checksum invalid"),
            PacketError::UnknownProtocolVersion => String::from_str("Unknown protocol version"),
            PacketError::CorruptedMessage => String::from_str("Data is corrupted"),
        }
    }
}

} // verus!
