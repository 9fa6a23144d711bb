//! The additive checksum that guards a frame's payload.

use vstd::prelude::*;

verus! {

/// The sum of the numeric values of all bytes of `bytes`, unbounded.
pub open spec fn byte_sum(bytes: Seq<u8>) -> nat
    decreases bytes.len(),
{
    if bytes.len() == 0 {
        0
    } else {
        byte_sum(bytes.drop_last()) + bytes.last() as nat
    }
}

/// The checksum as a number: the byte sum reduced modulo 2^32, which is what
/// unsigned 32-bit addition with wraparound computes.
pub open spec fn checksum_value(bytes: Seq<u8>) -> u32 {
    (byte_sum(bytes) % 0x1_0000_0000) as u32
}

/// The four bytes of `value`, most significant first.
pub open spec fn be_bytes(value: u32) -> Seq<u8> {
    seq![
        (value / 0x100_0000) as u8,
        (value / 0x1_0000 % 0x100) as u8,
        (value / 0x100 % 0x100) as u8,
        (value % 0x100) as u8,
    ]
}

/// The checksum field of a frame whose payload is `bytes`.
pub open spec fn checksum(bytes: Seq<u8>) -> Seq<u8> {
    be_bytes(checksum_value(bytes))
}

/// A byte sum is at most 255 times the number of bytes.
pub proof fn lemma_byte_sum_bound(bytes: Seq<u8>)
    ensures
        byte_sum(bytes) <= 255 * bytes.len(),
    decreases bytes.len(),
{
    if bytes.len() > 0 {
        lemma_byte_sum_bound(bytes.drop_last());
    }
}

/// Replacing one byte moves the byte sum by the difference of the two bytes.
pub proof fn lemma_byte_sum_update(bytes: Seq<u8>, index: int, byte: u8)
    requires
        0 <= index < bytes.len(),
    ensures
        byte_sum(bytes.update(index, byte)) == byte_sum(bytes) - bytes[index] + byte,
    decreases bytes.len(),
{
    let changed = bytes.update(index, byte);
    if index == bytes.len() - 1 {
        assert(changed.drop_last() =~= bytes.drop_last());
    } else {
        assert(changed.drop_last() =~= bytes.drop_last().update(index, byte));
        lemma_byte_sum_update(bytes.drop_last(), index, byte);
    }
}

/// Different numbers have different big-endian bytes.
pub proof fn lemma_be_bytes_injective(a: u32, b: u32)
    requires
        be_bytes(a) == be_bytes(b),
    ensures
        a == b,
{
    assert(be_bytes(a)[0] == be_bytes(b)[0]);
    assert(be_bytes(a)[1] == be_bytes(b)[1]);
    assert(be_bytes(a)[2] == be_bytes(b)[2]);
    assert(be_bytes(a)[3] == be_bytes(b)[3]);
}

/// The checksum field tells apart any two payloads of at most 255 bytes whose
/// byte sums differ.
pub proof fn lemma_checksum_separates(first: Seq<u8>, second: Seq<u8>)
    requires
        first.len() <= u8::MAX,
        second.len() <= u8::MAX,
        byte_sum(first) != byte_sum(second),
    ensures
        checksum(first) != checksum(second),
{
    lemma_byte_sum_bound(first);
    lemma_byte_sum_bound(second);
    if checksum(first) == checksum(second) {
        lemma_be_bytes_injective(checksum_value(first), checksum_value(second));
    }
}

} // verus!
