//! A versioned binary framing protocol.
//!
//! A message is cut into frames of at most 255 payload bytes. Each frame
//! carries a version tag, its payload length, the payload and an additive
//! checksum, so that a buffer of consecutive frames can be decoded without any
//! outer envelope.

pub mod checksum;
pub mod error;
pub mod packet;
pub mod packetable;
pub mod serializer;

pub use error::PacketError;
pub use packet::Packet;
pub use packetable::Packetable;
pub use serializer::PacketSerializer;
