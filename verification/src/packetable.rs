//! Turning a whole message into a buffer of frames and back.

use crate::error::PacketError;
use crate::packet::{decode_frame, frame_bytes, lemma_frame_round_trip, Packet};
use crate::serializer::{chunks, lemma_chunks_bounded, lemma_chunks_flatten, PacketSerializer};
use vstd::prelude::*;
use vstd::utf8::{decode_utf8, encode_utf8, valid_utf8};

verus! {

/// The wire forms of the frames that carry `payloads`, one after the other.
pub open spec fn frames_bytes(payloads: Seq<Seq<u8>>) -> Seq<u8>
    decreases payloads.len(),
{
    if payloads.len() == 0 {
        Seq::empty()
    } else {
        frame_bytes(payloads.first()) + frames_bytes(payloads.drop_first())
    }
}

/// The buffer that carries `content` in frames of at most `size` payload
/// bytes.
pub open spec fn encode_message(content: Seq<u8>, size: u8) -> Seq<u8>
    recommends
        size > 0,
{
    frames_bytes(chunks(content, size))
}

/// The payloads of all frames of `data`, joined in order, or the error of the
/// first frame that cannot be read.
pub open spec fn decode_message(data: Seq<u8>) -> Result<Seq<u8>, PacketError>
    decreases data.len(),
{
    if data.len() == 0 {
        Ok(Seq::empty())
    } else {
        match decode_frame(data) {
            Err(error) => Err(error),
            Ok((payload, rest)) => match decode_message(rest) {
                Err(error) => Err(error),
                Ok(tail) => Ok(payload + tail),
            },
        }
    }
}

/// The buffer that carries `text` as UTF-8 in frames of at most `size`
/// payload bytes.
pub open spec fn text_to_packet_data(text: Seq<char>, size: u8) -> Seq<u8>
    recommends
        size > 0,
{
    encode_message(encode_utf8(text), size)
}

/// The text that the frames of `data` carry: the error of the first frame that
/// cannot be read, and `CorruptedMessage` where all frames can be read and
/// their payloads together are not UTF-8.
pub open spec fn text_from_packet_data(data: Seq<u8>) -> Result<Seq<char>, PacketError> {
    match decode_message(data) {
        Err(error) => Err(error),
        Ok(bytes) => if valid_utf8(bytes) {
            Ok(decode_utf8(bytes))
        } else {
            Err(PacketError::CorruptedMessage)
        },
    }
}

/// A value that can be sent as frames and rebuilt from them.
pub trait Packetable: Sized {
    /// The bytes that stand for the value on the wire.
    spec fn encoding(&self) -> Seq<u8>;

    /// Whether `bytes` stand for a value of this type.
    spec fn is_encoding(bytes: Seq<u8>) -> bool;

    /// A sequence of frames over the value's bytes with the given bound.
    fn to_packets(&self, packet_size: u8) -> (out: PacketSerializer<'_>)
        ensures
            out.chunk_size() == packet_size,
            out.remaining() == self.encoding(),
    ;

    /// All frames of the value, serialized one after the other.
    fn to_packet_data(&self, packet_size: u8) -> (out: Vec<u8>)
        requires
            self.encoding().len() > 0 ==> packet_size > 0,
        ensures
            out@ == encode_message(self.encoding(), packet_size),
    ;

    /// Reads frame after frame off `packet_data` and rebuilds the value from
    /// their payloads.
    fn from_packet_data(packet_data: &[u8]) -> (out: Result<Self, PacketError>)
        ensures
            match out {
                Ok(value) => {
                    &&& decode_message(packet_data@) == Ok::<Seq<u8>, PacketError>(
                        value.encoding(),
                    )
                    &&& Self::is_encoding(value.encoding())
                },
                Err(error) => match decode_message(packet_data@) {
                    Ok(bytes) => error == PacketError::CorruptedMessage && !Self::is_encoding(
                        bytes,
                    ),
                    Err(cause) => error == cause,
                },
            },
    ;
}

/// Calls `String::from_utf8`, which gives a string exactly when the bytes are
/// valid UTF-8; that string is then made of those very bytes.
#[verifier::external_body]
fn string_from_utf8(bytes: Vec<u8>) -> (out: Option<String>)
    ensures
        out is Some <==> valid_utf8(bytes@),
        out is Some ==> encode_utf8(out.unwrap()@) == bytes@,
{
    String::from_utf8(bytes).ok()
}

/// Reads frame after frame off `packet_data` and joins their payloads.
pub fn join_payloads(packet_data: &[u8]) -> (out: Result<Vec<u8>, PacketError>)
    ensures
        match out {
            Ok(bytes) => decode_message(packet_data@) == Ok::<Seq<u8>, PacketError>(bytes@),
            Err(error) => decode_message(packet_data@) == Err::<Seq<u8>, PacketError>(error),
        },
{
    let mut remaining_data: &[u8] = packet_data;
    let mut message: Vec<u8> = Vec::new();
    while remaining_data.len() > 0
        invariant
            decode_message(packet_data@) == match decode_message(remaining_data@) {
                Ok(tail) => Ok::<Seq<u8>, PacketError>(message@ + tail),
                Err(error) => Err(error),
            },
        decreases remaining_data@.len(),
    {
        let ghost before = message@;
        match Packet::deserialize(remaining_data) {
            Err(error) => {
                return Err(error);
            },
            Ok((packet, remainder)) => {
                message.extend_from_slice(packet.payload());
                proof {
                    match decode_message(remainder@) {
                        Ok(tail) => {
                            assert(before + (packet@ + tail) =~= message@ + tail);
                        },
                        Err(_) => {},
                    }
                }
                remaining_data = remainder;
            },
        }
    }
    assert(message@ + Seq::<u8>::empty() =~= message@);
    Ok(message)
}

impl Packetable for String {
    open spec fn encoding(&self) -> Seq<u8> {
        encode_utf8(self@)
    }

    open spec fn is_encoding(bytes: Seq<u8>) -> bool {
        valid_utf8(bytes)
    }

    fn to_packets(&self, packet_size: u8) -> (out: PacketSerializer<'_>) {
        PacketSerializer::new(self.as_str().as_bytes(), packet_size)
    }

    fn to_packet_data(&self, packet_size: u8) -> (out: Vec<u8>)
        ensures
            out@ == text_to_packet_data(self@, packet_size),
    {
        let mut serialized_data: Vec<u8> = Vec::new();
        let mut packet_serializer = self.to_packets(packet_size);
        loop
            invariant
                packet_serializer.can_advance(),
                packet_serializer.chunk_size() == packet_size,
                serialized_data@ + encode_message(packet_serializer.remaining(), packet_size)
                    == encode_message(self.encoding(), packet_size),
            decreases packet_serializer.remaining().len(),
        {
            let ghost before = serialized_data@;
            let ghost pending = packet_serializer.remaining();
            match packet_serializer.next() {
                None => {
                    assert(before + Seq::<u8>::empty() =~= before);
                    return serialized_data;
                },
                Some(packet) => {
                    let bytes = packet.serialize();
                    serialized_data.extend_from_slice(bytes.as_slice());
                    proof {
                        let rest = chunks(packet_serializer.remaining(), packet_size);
                        assert(chunks(pending, packet_size) == seq![packet@] + rest);
                        assert((seq![packet@] + rest).drop_first() =~= rest);
                        assert(before + (frame_bytes(packet@) + frames_bytes(rest))
                            =~= serialized_data@ + frames_bytes(rest));
                    }
                },
            }
        }
    }

    fn from_packet_data(packet_data: &[u8]) -> (out: Result<Self, PacketError>)
        ensures
            match out {
                Ok(text) => text_from_packet_data(packet_data@) == Ok::<Seq<char>, PacketError>(
                    text@,
                ),
                Err(error) => text_from_packet_data(packet_data@) == Err::<
                    Seq<char>,
                    PacketError,
                >(error),
            },
    {
        let message = match join_payloads(packet_data) {
            Ok(message) => message,
            Err(error) => {
                proof {
                    lemma_decode_message_errors(packet_data@);
                }
                return Err(error);
            },
        };
        match string_from_utf8(message) {
            Some(text) => {
                proof {
                    vstd::utf8::encode_utf8_decode_utf8(text@);
                }
                Ok(text)
            },
            None => Err(PacketError::CorruptedMessage),
        }
    }
}

/// Reading frames never reports `CorruptedMessage`: that error tells of the
/// joined payloads, not of a frame.
pub proof fn lemma_decode_message_errors(data: Seq<u8>)
    ensures
        decode_message(data) != Err::<Seq<u8>, PacketError>(PacketError::CorruptedMessage),
    decreases data.len(),
{
    if data.len() > 0 {
        match decode_frame(data) {
            Err(_) => {},
            Ok((_, rest)) => {
                lemma_decode_message_errors(rest);
            },
        }
    }
}

/// Frames written one after the other read back as their payloads joined in
/// order.
pub proof fn lemma_frames_round_trip(payloads: Seq<Seq<u8>>)
    requires
        forall|i: int| 0 <= i < payloads.len() ==> (#[trigger] payloads[i]).len() <= u8::MAX,
    ensures
        decode_message(frames_bytes(payloads)) == Ok::<Seq<u8>, PacketError>(payloads.flatten()),
    decreases payloads.len(),
{
    if payloads.len() == 0 {
        assert(payloads.flatten() =~= Seq::<u8>::empty());
    } else {
        let head = payloads.first();
        let tail = payloads.drop_first();
        assert forall|i: int| 0 <= i < tail.len() implies (#[trigger] tail[i]).len()
            <= u8::MAX by {
            assert(tail[i] == payloads[i + 1]);
        }
        lemma_frames_round_trip(tail);
        lemma_frame_round_trip(head, frames_bytes(tail));
        assert(payloads.flatten() =~= head + tail.flatten());
    }
}

/// Splitting content into frames and joining the frames again gives the
/// content back, for every bound from 1 to 255.
pub proof fn lemma_message_round_trip(content: Seq<u8>, size: u8)
    requires
        content.len() > 0 ==> size > 0,
    ensures
        decode_message(encode_message(content, size)) == Ok::<Seq<u8>, PacketError>(content),
{
    if size > 0 {
        lemma_chunks_bounded(content, size);
        lemma_chunks_flatten(content, size);
        lemma_frames_round_trip(chunks(content, size));
    } else {
        assert(content =~= Seq::<u8>::empty());
    }
}

/// Splitting a text into frames and joining the frames again gives the text
/// back, for every bound from 1 to 255.
pub proof fn lemma_text_round_trip(text: Seq<char>, size: u8)
    requires
        text.len() > 0 ==> size > 0,
    ensures
        text_from_packet_data(text_to_packet_data(text, size)) == Ok::<Seq<char>, PacketError>(
            text,
        ),
{
    broadcast use vstd::utf8::encode_utf8_valid_utf8, vstd::utf8::encode_utf8_decode_utf8;

    if text.len() == 0 {
        assert(encode_utf8(text) =~= Seq::<u8>::empty());
    }
    lemma_message_round_trip(encode_utf8(text), size);
}

} // verus!
