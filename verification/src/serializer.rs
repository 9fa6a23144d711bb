//! Cutting a buffer into successive frames.

use crate::packet::{chunk_len, Packet};
use vstd::prelude::*;

verus! {

/// The payloads of the frames that `bytes` is cut into when no frame may carry
/// more than `size` bytes: every payload but the last is `size` bytes long.
pub open spec fn chunks(bytes: Seq<u8>, size: u8) -> Seq<Seq<u8>>
    recommends
        size > 0,
    decreases bytes.len(),
{
    if bytes.len() == 0 || size == 0 {
        Seq::empty()
    } else {
        let taken = chunk_len(bytes, size);
        seq![bytes.take(taken)] + chunks(bytes.skip(taken), size)
    }
}

/// The payloads that a cut produces are never empty and never longer than the
/// bound, and there are no more of them than there are bytes.
pub proof fn lemma_chunks_bounded(bytes: Seq<u8>, size: u8)
    requires
        size > 0,
    ensures
        chunks(bytes, size).len() <= bytes.len(),
        bytes.len() > 0 ==> chunks(bytes, size).len() > 0,
        forall|i: int|
            0 <= i < chunks(bytes, size).len() ==> 0 < (#[trigger] chunks(bytes, size)[i]).len()
                <= size,
    decreases bytes.len(),
{
    if bytes.len() > 0 {
        let taken = chunk_len(bytes, size);
        lemma_chunks_bounded(bytes.skip(taken), size);
    }
}

/// The payloads that a cut produces are consecutive pieces of the buffer, in
/// order: joined together they are the buffer again.
pub proof fn lemma_chunks_flatten(bytes: Seq<u8>, size: u8)
    requires
        size > 0,
    ensures
        chunks(bytes, size).flatten() == bytes,
    decreases bytes.len(),
{
    if bytes.len() == 0 {
        assert(chunks(bytes, size).flatten() =~= bytes);
    } else {
        let taken = chunk_len(bytes, size);
        let head = bytes.take(taken);
        let tail = chunks(bytes.skip(taken), size);
        lemma_chunks_flatten(bytes.skip(taken), size);
        assert((seq![head] + tail).drop_first() =~= tail);
        assert((seq![head] + tail).flatten() =~= head + tail.flatten());
        assert(head + bytes.skip(taken) =~= bytes);
    }
}

/// A forward-only cursor over a buffer that hands out one frame per step.
#[derive(Debug)]
pub struct PacketSerializer<'a> {
    packet_size: u8,
    remaining_bytes: &'a [u8],
}

impl<'a> PacketSerializer<'a> {
    /// The most payload bytes that a frame of this sequence carries.
    pub closed spec fn chunk_size(&self) -> u8 {
        self.packet_size
    }

    /// The bytes that no frame has taken yet.
    pub closed spec fn remaining(&self) -> Seq<u8> {
        self.remaining_bytes@
    }

    /// Whether the next step can be taken: only a buffer that is not empty
    /// needs a bound, and that bound must not be zero.
    pub open spec fn can_advance(&self) -> bool {
        self.remaining().len() > 0 ==> self.chunk_size() > 0
    }

    /// A sequence of frames over `source`, none with more than `packet_size`
    /// payload bytes.
    pub fn new(source: &'a [u8], packet_size: u8) -> (out: Self)
        ensures
            out.chunk_size() == packet_size,
            out.remaining() == source@,
    {
        PacketSerializer { packet_size, remaining_bytes: source }
    }

    /// Hands out the next frame, or nothing once the buffer is used up.
    pub fn next(&mut self) -> (out: Option<Packet<'a>>)
        requires
            old(self).can_advance(),
        ensures
            final(self).chunk_size() == old(self).chunk_size(),
            final(self).can_advance(),
            match out {
                None => {
                    &&& old(self).remaining().len() == 0
                    &&& final(self).remaining() == old(self).remaining()
                },
                Some(packet) => {
                    let taken = chunk_len(old(self).remaining(), old(self).chunk_size());
                    &&& old(self).remaining().len() > 0
                    &&& packet@ == old(self).remaining().take(taken)
                    &&& final(self).remaining() == old(self).remaining().skip(taken)
                },
            },
    {
        if self.remaining_bytes.len() == 0 {
            return None;
        }
        let (packet, remainder) = Packet::from_source(self.remaining_bytes, self.packet_size);
        self.remaining_bytes = remainder;
        Some(packet)
    }

    /// Takes every step that is left and returns the frames in order.
    pub fn collect(self) -> (out: Vec<Packet<'a>>)
        requires
            self.can_advance(),
        ensures
            out@.len() == chunks(self.remaining(), self.chunk_size()).len(),
            forall|i: int|
                0 <= i < out@.len() ==> (#[trigger] out@[i])@ == chunks(
                    self.remaining(),
                    self.chunk_size(),
                )[i],
    {
        let ghost all = chunks(self.remaining(), self.chunk_size());
        let mut cursor = self;
        let mut packets: Vec<Packet<'a>> = Vec::new();
        loop
            invariant
                cursor.can_advance(),
                cursor.chunk_size() == self.chunk_size(),
                all == chunks(self.remaining(), self.chunk_size()),
                packets@.len() + chunks(cursor.remaining(), cursor.chunk_size()).len()
                    == all.len(),
                forall|i: int| 0 <= i < packets@.len() ==> (#[trigger] packets@[i])@ == all[i],
                forall|i: int|
                    0 <= i < chunks(cursor.remaining(), cursor.chunk_size()).len() ==> all[packets@.len()
                        + i] == #[trigger] chunks(cursor.remaining(), cursor.chunk_size())[i],
            decreases cursor.remaining().len(),
        {
            let ghost before = chunks(cursor.remaining(), cursor.chunk_size());
            let ghost done = packets@.len();
            match cursor.next() {
                None => {
                    return packets;
                },
                Some(packet) => {
                    proof {
                        let after = chunks(cursor.remaining(), cursor.chunk_size());
                        assert(before == seq![packet@] + after);
                        assert(before[0] == packet@);
                        assert forall|i: int| 0 <= i < after.len() implies all[done + 1 + i]
                            == #[trigger] after[i] by {
                            assert(before[i + 1] == after[i]);
                        }
                    }
                    packets.push(packet);
                },
            }
        }
    }
}

} // verus!
