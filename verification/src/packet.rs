//! A single frame: how it is built, laid out on the wire and read back.

use crate::checksum::{
    be_bytes, byte_sum, checksum, checksum_value, lemma_byte_sum_update, lemma_checksum_separates,
};
use crate::error::PacketError;
use vstd::prelude::*;

verus! {

/// The only version tag this protocol writes and accepts.
pub const PROTOCOL_VERSION: u8 = 1;

/// The bytes of a frame besides its payload: version, size and checksum.
pub const FRAME_OVERHEAD: usize = 6;

/// How many bytes of `source` a frame bounded by `size` takes.
pub open spec fn chunk_len(source: Seq<u8>, size: u8) -> int {
    if size as int <= source.len() {
        size as int
    } else {
        source.len() as int
    }
}

/// The wire form of a frame that carries `payload`: version, size, payload,
/// then the checksum, most significant byte first.
pub open spec fn frame_bytes(payload: Seq<u8>) -> Seq<u8>
    recommends
        payload.len() <= u8::MAX,
{
    seq![PROTOCOL_VERSION, payload.len() as u8] + payload + checksum(payload)
}

/// What reading one frame off the front of `bytes` gives: the payload and the
/// bytes that follow the frame, or the reason why there is no frame.
pub open spec fn decode_frame(bytes: Seq<u8>) -> Result<(Seq<u8>, Seq<u8>), PacketError> {
    if bytes.len() < FRAME_OVERHEAD {
        Err(PacketError::InvalidPacket)
    } else if bytes[0] != PROTOCOL_VERSION {
        Err(PacketError::UnknownProtocolVersion)
    } else if bytes[1] as int > bytes.len() - FRAME_OVERHEAD {
        Err(PacketError::InvalidPacket)
    } else {
        let size = bytes[1] as int;
        let payload = bytes.subrange(2, 2 + size);
        if bytes.subrange(2 + size, FRAME_OVERHEAD + size) != checksum(payload) {
            Err(PacketError::InvalidChecksum)
        } else {
            Ok((payload, bytes.skip(FRAME_OVERHEAD + size)))
        }
    }
}

/// One frame of the protocol. Its payload borrows from the buffer that the
/// frame was cut or decoded from.
#[derive(Debug, PartialEq)]
pub struct Packet<'a> {
    version: u8,
    size: u8,
    payload: &'a [u8],
    checksum: [u8; 4],
}

impl<'a> View for Packet<'a> {
    type V = Seq<u8>;

    /// A frame is modelled by its payload; the other fields follow from it.
    closed spec fn view(&self) -> Seq<u8> {
        self.payload@
    }
}

impl<'a> Packet<'a> {
    #[verifier::type_invariant]
    spec fn well_formed(self) -> bool {
        &&& self.version == PROTOCOL_VERSION
        &&& self.size as int == self.payload@.len()
        &&& self.checksum@ == checksum(self.payload@)
    }

    /// Cuts a frame of at most `size` payload bytes off the front of `source`
    /// and returns it with the bytes that were not taken.
    pub fn from_source(source: &'a [u8], size: u8) -> (out: (Self, &'a [u8]))
        requires
            size > 0,
        ensures
            out.0@ == source@.take(chunk_len(source@, size)),
            out.1@ == source@.skip(chunk_len(source@, size)),
            out.0@ + out.1@ == source@,
            size as int >= source@.len() ==> out.0@ == source@ && out.1@.len() == 0,
    {
        let source_length = source.len();
        let wanted = size as usize;
        let taken: usize = if source_length > wanted {
            wanted
        } else {
            source_length
        };
        let (payload, remainder) = source.split_at(taken);
        let checksum = Self::find_checksum(payload);
        proof {
            assert(payload@ =~= source@.take(taken as int));
            assert(remainder@ =~= source@.skip(taken as int));
            assert(payload@ + remainder@ =~= source@);
            if size as int >= source@.len() {
                assert(payload@ =~= source@);
            }
        }
        (Packet { version: PROTOCOL_VERSION, size: taken as u8, payload, checksum }, remainder)
    }

    /// The bytes that the frame carries.
    pub fn payload(&self) -> (bytes: &[u8])
        ensures
            bytes@ == self@,
            bytes@.len() <= u8::MAX,
    {
        proof {
            use_type_invariant(self);
        }
        self.payload
    }

    /// The frame as it goes on the wire.
    pub fn serialize(&self) -> (bytes: Vec<u8>)
        ensures
            bytes@ == frame_bytes(self@),
            bytes@.len() == FRAME_OVERHEAD + self@.len(),
    {
        proof {
            use_type_invariant(self);
        }
        let mut bytes: Vec<u8> = Vec::new();
        bytes.push(self.version);
        bytes.push(self.size);
        bytes.extend_from_slice(self.payload);
        bytes.extend_from_slice(self.checksum.as_slice());
        assert(bytes@ =~= frame_bytes(self@));
        bytes
    }

    /// Reads one frame off the front of `bytes` and returns it with the bytes
    /// that follow it.
    pub fn deserialize(bytes: &'a [u8]) -> (out: Result<(Packet<'a>, &'a [u8]), PacketError>)
        ensures
            match out {
                Ok((packet, remainder)) => decode_frame(bytes@) == Ok::<
                    (Seq<u8>, Seq<u8>),
                    PacketError,
                >((packet@, remainder@)),
                Err(error) => decode_frame(bytes@) == Err::<(Seq<u8>, Seq<u8>), PacketError>(
                    error,
                ),
            },
    {
        let byte_count = bytes.len();
        if byte_count < FRAME_OVERHEAD {
            return Err(PacketError::InvalidPacket);
        }
        if bytes[0] != PROTOCOL_VERSION {
            return Err(PacketError::UnknownProtocolVersion);
        }
        let declared = bytes[1];
        let size = declared as usize;
        if size > byte_count - FRAME_OVERHEAD {
            return Err(PacketError::InvalidPacket);
        }
        let payload = &bytes[2..size + 2];
        let stored = &bytes[size + 2..size + FRAME_OVERHEAD];
        let checksum = Self::find_checksum(payload);
        if checksum[0] != stored[0] || checksum[1] != stored[1] || checksum[2] != stored[2]
            || checksum[3] != stored[3] {
            return Err(PacketError::InvalidChecksum);
        }
        let remainder = &bytes[size + FRAME_OVERHEAD..byte_count];
        proof {
            assert(stored@ =~= checksum@);
            assert(remainder@ =~= bytes@.skip(FRAME_OVERHEAD + size));
        }
        Ok((Packet { version: PROTOCOL_VERSION, size: declared, payload, checksum }, remainder))
    }

    /// Computes the checksum field for `payload`: the wrapping 32-bit sum of
    /// its bytes, most significant byte first.
    pub fn find_checksum(payload: &[u8]) -> (out: [u8; 4])
        ensures
            out@ == checksum(payload@),
    {
        let mut sum: u32 = 0;
        let mut i: usize = 0;
        while i < payload.len()
            invariant
                i <= payload@.len(),
                sum == checksum_value(payload@.take(i as int)),
            decreases payload@.len() - i,
        {
            proof {
                let next = payload@.take(i + 1);
                assert(next.drop_last() =~= payload@.take(i as int));
                let before = byte_sum(payload@.take(i as int));
                let byte = payload@[i as int] as nat;
                assert((before % 0x1_0000_0000 + byte) % 0x1_0000_0000 == (before + byte)
                    % 0x1_0000_0000) by (nonlinear_arith);
            }
            sum = sum.wrapping_add(payload[i] as u32);
            i = i + 1;
        }
        assert(payload@.take(i as int) =~= payload@);
        let out = [
            (sum / 0x100_0000) as u8,
            (sum / 0x1_0000 % 0x100) as u8,
            (sum / 0x100 % 0x100) as u8,
            (sum % 0x100) as u8,
        ];
        assert(out@ =~= be_bytes(sum));
        out
    }
}

/// A frame on the wire reads back as its payload, and whatever follows the
/// frame is handed back untouched.
pub proof fn lemma_frame_round_trip(payload: Seq<u8>, rest: Seq<u8>)
    requires
        payload.len() <= u8::MAX,
    ensures
        decode_frame(frame_bytes(payload) + rest) == Ok::<(Seq<u8>, Seq<u8>), PacketError>(
            (payload, rest),
        ),
{
    let bytes = frame_bytes(payload) + rest;
    let size = payload.len() as int;
    assert(bytes.subrange(2, 2 + size) =~= payload);
    assert(bytes.subrange(2 + size, FRAME_OVERHEAD + size) =~= checksum(payload));
    assert(bytes.skip(FRAME_OVERHEAD + size) =~= rest);
}

/// The frame that is cut off a buffer survives the wire: its serialized form
/// is accepted, and reads back as the payload that was cut.
pub proof fn lemma_cut_frame_round_trip(source: Seq<u8>, size: u8)
    requires
        size > 0,
    ensures
        decode_frame(frame_bytes(source.take(chunk_len(source, size)))) == Ok::<
            (Seq<u8>, Seq<u8>),
            PacketError,
        >((source.take(chunk_len(source, size)), Seq::empty())),
{
    let payload = source.take(chunk_len(source, size));
    lemma_frame_round_trip(payload, Seq::empty());
    assert(frame_bytes(payload) + Seq::<u8>::empty() =~= frame_bytes(payload));
}

/// Changing any one payload byte of a frame on the wire is noticed: the frame
/// is then refused for its checksum.
pub proof fn lemma_tampered_payload(payload: Seq<u8>, index: int, byte: u8, rest: Seq<u8>)
    requires
        payload.len() <= u8::MAX,
        0 <= index < payload.len(),
        byte != payload[index],
    ensures
        decode_frame(frame_bytes(payload).update(2 + index, byte) + rest) == Err::<
            (Seq<u8>, Seq<u8>),
            PacketError,
        >(PacketError::InvalidChecksum),
{
    let bytes = frame_bytes(payload).update(2 + index, byte) + rest;
    let size = payload.len() as int;
    let changed = payload.update(index, byte);
    assert(bytes.subrange(2, 2 + size) =~= changed);
    assert(bytes.subrange(2 + size, FRAME_OVERHEAD + size) =~= checksum(payload));
    lemma_byte_sum_update(payload, index, byte);
    lemma_checksum_separates(changed, payload);
}

/// A buffer long enough for a frame whose first byte is not the protocol
/// version is refused for that, whatever its other bytes say.
pub proof fn lemma_version_checked_first(bytes: Seq<u8>)
    requires
        bytes.len() >= FRAME_OVERHEAD,
        bytes[0] != PROTOCOL_VERSION,
    ensures
        decode_frame(bytes) == Err::<(Seq<u8>, Seq<u8>), PacketError>(
            PacketError::UnknownProtocolVersion,
        ),
{
}

/// Overwriting the version byte of a frame on the wire with another value gives
/// `UnknownProtocolVersion`, though size and checksum are still those of the
/// payload.
pub proof fn lemma_corrupted_version(payload: Seq<u8>, version: u8, rest: Seq<u8>)
    requires
        payload.len() <= u8::MAX,
        version != PROTOCOL_VERSION,
    ensures
        decode_frame(frame_bytes(payload).update(0, version) + rest) == Err::<
            (Seq<u8>, Seq<u8>),
            PacketError,
        >(PacketError::UnknownProtocolVersion),
{
    lemma_version_checked_first(frame_bytes(payload).update(0, version) + rest);
}

/// The four bytes that are read as the checksum when the size byte of the
/// frame around `payload` is lowered to `declared`.
pub open spec fn checksum_after_understated_size(payload: Seq<u8>, declared: u8) -> Seq<u8>
    recommends
        declared < payload.len() <= u8::MAX,
{
    (payload + checksum(payload)).subrange(declared as int, declared + 4)
}

/// A frame whose size byte was lowered is still long enough to be read: it is
/// never refused as `InvalidPacket`. What decides is the checksum alone, read
/// four bytes too early, against the shortened payload.
pub proof fn lemma_understated_size_parses(payload: Seq<u8>, declared: u8, rest: Seq<u8>)
    requires
        declared < payload.len() <= u8::MAX,
    ensures
        decode_frame(frame_bytes(payload).update(1, declared) + rest) == if checksum(
            payload.take(declared as int),
        ) == checksum_after_understated_size(payload, declared) {
            Ok::<(Seq<u8>, Seq<u8>), PacketError>(
                (
                    payload.take(declared as int),
                    (payload + checksum(payload) + rest).skip(declared + 4),
                ),
            )
        } else {
            Err::<(Seq<u8>, Seq<u8>), PacketError>(PacketError::InvalidChecksum)
        },
        decode_frame(frame_bytes(payload).update(1, declared) + rest) != Err::<
            (Seq<u8>, Seq<u8>),
            PacketError,
        >(PacketError::InvalidPacket),
{
    let bytes = frame_bytes(payload).update(1, declared) + rest;
    let size = declared as int;
    assert(bytes.subrange(2, 2 + size) =~= payload.take(size));
    assert(bytes.subrange(2 + size, FRAME_OVERHEAD + size) =~= checksum_after_understated_size(
        payload,
        declared,
    ));
    assert(bytes.skip(FRAME_OVERHEAD + size) =~= (payload + checksum(payload) + rest).skip(
        declared + 4,
    ));
}

/// A frame whose size byte was lowered is refused for its checksum, unless the
/// four bytes that then stand in the checksum's place happen to be the
/// checksum of the shortened payload.
pub proof fn lemma_understated_size_fails_checksum(payload: Seq<u8>, declared: u8, rest: Seq<u8>)
    requires
        declared < payload.len() <= u8::MAX,
        checksum(payload.take(declared as int)) != checksum_after_understated_size(
            payload,
            declared,
        ),
    ensures
        decode_frame(frame_bytes(payload).update(1, declared) + rest) == Err::<
            (Seq<u8>, Seq<u8>),
            PacketError,
        >(PacketError::InvalidChecksum),
{
    lemma_understated_size_parses(payload, declared, rest);
}

} // verus!
