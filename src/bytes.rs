//! Little-endian integers read out of byte buffers.
use byteorder::{ByteOrder, LittleEndian};
use vstd::prelude::*;

verus! {

/// The little-endian 16-bit value of two bytes.
pub open spec fn le16(b0: u8, b1: u8) -> nat {
    (b0 + 256 * b1) as nat
}

/// The little-endian 32-bit value of four bytes.
pub open spec fn le32(b0: u8, b1: u8, b2: u8, b3: u8) -> nat {
    (b0 + 256 * b1 + 65536 * b2 + 16777216 * b3) as nat
}

/// Relies on byteorder's `LittleEndian::read_u16`, which reads the first two
/// bytes of the slice it is given, low byte first.
#[verifier::external_body]
pub(crate) fn le_u16_at(b: &[u8], i: usize) -> (r: u16)
    requires
        i + 2 <= b@.len(),
    ensures
        r == le16(b@[i as int], b@[i + 1]),
{
    LittleEndian::read_u16(&b[i..])
}

/// Relies on byteorder's `LittleEndian::read_u32`, which reads the first four
/// bytes of the slice it is given, low byte first.
#[verifier::external_body]
pub(crate) fn le_u32_at(b: &[u8], i: usize) -> (r: u32)
    requires
        i + 4 <= b@.len(),
    ensures
        r == le32(b@[i as int], b@[i + 1], b@[i + 2], b@[i + 3]),
{
    LittleEndian::read_u32(&b[i..])
}

} // verus!
