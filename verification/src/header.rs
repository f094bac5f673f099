//! The fixed 4-byte header that opens every transport-stream packet.

use vstd::prelude::*;

verus! {

/// The sync byte that opens every well-formed TS packet.
pub const SYNC_BYTE: u8 = 0x47;

/// The fixed size of a TS packet in bytes.
pub const PACKET_SIZE: usize = 188;

/// Whether the payload-unit-start indicator (bit 6 of the second header
/// byte, i.e. bit 22 of the 32-bit big-endian header) is set.
pub open spec fn spec_is_start(b1: u8) -> bool {
    (b1 as int / 64) % 2 == 1
}

/// The 13-bit packet identifier: the low 5 bits of the second header byte
/// followed by the whole third byte.
pub open spec fn spec_pid(b1: u8, b2: u8) -> u16 {
    ((b1 as int % 32) * 256 + b2 as int) as u16
}

/// The decoded fields of a TS packet header. The remaining 184 payload
/// bytes of a packet are never inspected.
#[derive(Clone, Copy, Debug, PartialEq, Eq, Structural)]
pub struct MpegtsHeader {
    pub is_start: bool,
    pub pid: u16,
}

impl MpegtsHeader {
    /// Decodes the four header bytes at the front of `buf`. The caller is
    /// responsible for having located a sync byte first: a buffer that does
    /// not open with `0x47` is a contract violation, not a condition this
    /// function recovers from.
    pub fn new(buf: &[u8]) -> (r: MpegtsHeader)
        requires
            buf@.len() >= 4,
            buf@[0] == SYNC_BYTE,
        ensures
            r.is_start == spec_is_start(buf@[1]),
            r.pid == spec_pid(buf@[1], buf@[2]),
            r.pid <= 8191,
    {
        let b1 = buf[1];
        let b2 = buf[2];
        let is_start = (b1 / 64) % 2 == 1;
        let pid = ((b1 % 32) as u16) * 256 + (b2 as u16);
        MpegtsHeader { is_start, pid }
    }
}

} // verus!
