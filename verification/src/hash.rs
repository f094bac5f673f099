//! The order-sensitive 64-bit digest folded over every packet identifier of
//! a segment (an FNV-1a-style multiply-and-xor mix, one byte at a time).

use vstd::prelude::*;

verus! {

/// The digest's starting value: the hash of an empty run of packets.
pub const HASH_INIT: u64 = 0xcbf29ce484222325;

/// The multiplier mixed in after each byte.
pub const HASH_PRIME: u64 = 0x100000001b3;

/// One step of the digest: xor a byte in, then multiply modulo 2^64.
pub open spec fn spec_hash_byte(h: u64, b: u8) -> u64 {
    ((((h ^ (b as u64)) as int) * (HASH_PRIME as int)) % 0x10000000000000000) as u64
}

/// Folding a 13-bit packet identifier into the digest: its low byte first,
/// then its high byte.
pub open spec fn spec_hash_pid(h: u64, pid: u16) -> u64 {
    spec_hash_byte(spec_hash_byte(h, (pid as int % 256) as u8), (pid as int / 256) as u8)
}

/// One byte-step of the digest.
pub fn hash_byte(h: u64, b: u8) -> (r: u64)
    ensures
        r == spec_hash_byte(h, b),
{
    let x: u64 = h ^ (b as u64);
    assert((x as int) * (HASH_PRIME as int) < u128::MAX as int) by (nonlinear_arith)
        requires
            x <= u64::MAX,
    ;
    let wide: u128 = (x as u128) * (HASH_PRIME as u128);
    (wide % 0x10000000000000000u128) as u64
}

/// Folds one packet identifier into the digest.
pub fn hash_pid(h: u64, pid: u16) -> (r: u64)
    ensures
        r == spec_hash_pid(h, pid),
{
    let low: u8 = (pid % 256) as u8;
    let high: u8 = (pid / 256) as u8;
    hash_byte(hash_byte(h, low), high)
}

} // verus!
