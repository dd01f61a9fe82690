//! Little-endian integer encoding, done by the `byteorder` crate.

use byteorder::{ByteOrder, LittleEndian};
use vstd::prelude::*;

verus! {

/// The two bytes of `n` in little-endian order.
pub open spec fn le_u16_bytes(n: u16) -> Seq<u8> {
    seq![(n % 256) as u8, (n / 256) as u8]
}

/// The value of two bytes read in little-endian order.
pub open spec fn le_u16_value(lo: u8, hi: u8) -> int {
    lo + 256 * hi
}

/// The eight bytes of `n` in little-endian order.
pub open spec fn le_u64_bytes(n: u64) -> Seq<u8> {
    seq![
        (n % 0x100) as u8,
        ((n / 0x100) % 0x100) as u8,
        ((n / 0x1_0000) % 0x100) as u8,
        ((n / 0x100_0000) % 0x100) as u8,
        ((n / 0x1_0000_0000) % 0x100) as u8,
        ((n / 0x100_0000_0000) % 0x100) as u8,
        ((n / 0x1_0000_0000_0000) % 0x100) as u8,
        ((n / 0x100_0000_0000_0000) % 0x100) as u8,
    ]
}

/// Calls `<LittleEndian as ByteOrder>::read_u16` on two bytes. Claimed: the
/// result is `bytes[0] + 256 * bytes[1]` (byteorder's little-endian impl is
/// `u16::from_le_bytes` of those two bytes).
#[verifier::external_body]
pub(crate) fn read_le_u16(bytes: [u8; 2]) -> (r: u16)
    ensures
        r as int == le_u16_value(bytes@[0], bytes@[1]),
{
    LittleEndian::read_u16(&bytes)
}

/// Calls `<LittleEndian as ByteOrder>::write_u16` on a two-byte array.
/// Claimed: the array holds the low byte of `n`, then the high byte.
#[verifier::external_body]
pub(crate) fn write_le_u16(n: u16) -> (r: [u8; 2])
    ensures
        r@ == le_u16_bytes(n),
{
    let mut b = [0u8; 2];
    LittleEndian::write_u16(&mut b, n);
    b
}

/// Calls `<LittleEndian as ByteOrder>::write_u64` on an eight-byte array.
/// Claimed: the array holds the bytes of `n`, least significant first.
#[verifier::external_body]
pub(crate) fn write_le_u64(n: u64) -> (r: [u8; 8])
    ensures
        r@ == le_u64_bytes(n),
{
    let mut b = [0u8; 8];
    LittleEndian::write_u64(&mut b, n);
    b
}

} // verus!
