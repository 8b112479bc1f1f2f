//! The record kept for one live heap allocation, and the 32-bit size codec.

use vstd::prelude::*;

verus! {

/// Identifier of an interned call stack.
pub type CallstackId = u32;

/// One mebibyte, the unit of a compressed size.
pub const MIB: usize = 0x10_0000;

/// The bit that marks a stored size as a count of mebibytes.
pub const HIGH_32BIT: u32 = 0x8000_0000;

/// The stored form of a byte count: the count itself below 2^31, else the
/// count in mebibytes, rounded to nearest, kept in the low 31 bits under the
/// marker bit.
pub open spec fn encode_size(size: nat) -> u32 {
    if size < 0x8000_0000 {
        size as u32
    } else {
        ((((size + 0x8_0000) / 0x10_0000) % 0x8000_0000) + 0x8000_0000) as u32
    }
}

/// The byte count that a stored size stands for.
pub open spec fn decode_size(stored: u32) -> nat {
    if stored >= 0x8000_0000 {
        ((stored - 0x8000_0000) * 0x10_0000) as nat
    } else {
        stored as nat
    }
}

/// The byte count that is accounted for an allocation of `size` bytes.
pub open spec fn tracked_size(size: nat) -> nat {
    decode_size(encode_size(size))
}

/// A live allocation made by `malloc()` or `calloc()`.
#[derive(Clone, Copy, Debug, PartialEq, Eq, Structural)]
pub struct Allocation {
    pub callstack_id: CallstackId,
    /// With the high bit set, a count of mebibytes in the low 31 bits;
    /// otherwise a count of bytes.
    pub compressed_size: u32,
}

impl Allocation {
    pub fn new(callstack_id: CallstackId, size: usize) -> (alloc: Allocation)
        ensures
            alloc.callstack_id == callstack_id,
            alloc.compressed_size == encode_size(size as nat),
            alloc.bytes() == tracked_size(size as nat),
    {
        let compressed_size: u32 = if size >= 0x8000_0000 {
            let whole: usize = size / MIB;
            let rest: usize = size % MIB;
            let rounded: usize = if rest >= MIB / 2 {
                whole + 1
            } else {
                whole
            };
            assert(rounded == (size + 0x8_0000) / 0x10_0000);
            let low: usize = rounded % 0x8000_0000;
            (low as u32) + HIGH_32BIT
        } else {
            size as u32
        };
        Allocation { callstack_id, compressed_size }
    }

    /// The byte count that this record stands for.
    pub open spec fn bytes(&self) -> nat {
        decode_size(self.compressed_size)
    }

    /// Whether the bytes that are counted for an allocation of `size` bytes
    /// are at most `room`.
    pub fn fits(size: usize, room: usize) -> (within: bool)
        ensures
            within == (tracked_size(size as nat) <= room),
    {
        if size < 0x8000_0000 {
            size <= room
        } else {
            let whole: usize = size / MIB;
            let rounded: usize = if size % MIB >= MIB / 2 {
                whole + 1
            } else {
                whole
            };
            assert(rounded == (size + 0x8_0000) / 0x10_0000);
            let stored: usize = rounded % 0x8000_0000;
            assert(tracked_size(size as nat) == stored * 0x10_0000);
            stored <= room / MIB
        }
    }

    pub fn size(&self) -> (bytes: usize)
        requires
            self.bytes() <= usize::MAX,
        ensures
            bytes == self.bytes(),
    {
        if self.compressed_size >= HIGH_32BIT {
            ((self.compressed_size - HIGH_32BIT) as usize) * MIB
        } else {
            self.compressed_size as usize
        }
    }
}

/// Sizes below 2^31 bytes are stored exactly.
pub proof fn law_small_size_round_trip(size: nat)
    requires
        size < 0x8000_0000,
    ensures
        tracked_size(size) == size,
{
}

/// Sizes from 2^31 to 2^50 bytes come back within half a mebibyte.
pub proof fn law_large_size_round_trip(size: nat)
    requires
        0x8000_0000 <= size <= 0x4_0000_0000_0000,
    ensures
        tracked_size(size) - size <= 0x8_0000,
        size - tracked_size(size) <= 0x8_0000,
{
}

} // verus!
