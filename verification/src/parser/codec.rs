//! Fixed-width integers and text read out of byte buffers.

use vstd::prelude::*;
use vstd::utf8::*;
use byteorder::ByteOrder;

verus! {

/// The integer that two bytes encode, least significant byte first.
pub open spec fn le_u16_value(b: Seq<u8>) -> int {
    b[0] + 256 * b[1]
}

/// The integer that four bytes encode, least significant byte first.
pub open spec fn le_u32_value(b: Seq<u8>) -> int {
    b[0] + 256 * b[1] + 65536 * b[2] + 16777216 * b[3]
}

/// The integer that four bytes encode, most significant byte first.
pub open spec fn be_u32_value(b: Seq<u8>) -> int {
    16777216 * b[0] + 65536 * b[1] + 256 * b[2] + b[3]
}

/// `byteorder::LittleEndian::read_u16`: the first two bytes of `buf` as a
/// little-endian integer (`u16::from_le_bytes` of `buf[..2]`); it panics on
/// a shorter buffer.
#[verifier::external_body]
pub(crate) fn read_u16_le(buf: &[u8]) -> (v: u16)
    requires
        buf@.len() >= 2,
    ensures
        v == le_u16_value(buf@),
{
    byteorder::LittleEndian::read_u16(buf)
}

/// `byteorder::LittleEndian::read_u32`: the first four bytes of `buf` as a
/// little-endian integer (`u32::from_le_bytes` of `buf[..4]`); it panics on
/// a shorter buffer.
#[verifier::external_body]
pub(crate) fn read_u32_le(buf: &[u8]) -> (v: u32)
    requires
        buf@.len() >= 4,
    ensures
        v == le_u32_value(buf@),
{
    byteorder::LittleEndian::read_u32(buf)
}

/// `byteorder::BigEndian::read_u32`: the first four bytes of `buf` as a
/// big-endian integer (`u32::from_be_bytes` of `buf[..4]`); it panics on a
/// shorter buffer.
#[verifier::external_body]
pub(crate) fn read_u32_be(buf: &[u8]) -> (v: u32)
    requires
        buf@.len() >= 4,
    ensures
        v == be_u32_value(buf@),
{
    byteorder::BigEndian::read_u32(buf)
}

/// `String::from_utf8`: as its documentation says, the bytes become a
/// `String` exactly when they are valid UTF-8, and then the string holds the
/// characters they encode; the error is reported here as `None`.
#[verifier::external_body]
pub(crate) fn string_from_utf8(bytes: Vec<u8>) -> (r: Option<String>)
    ensures
        r is Some <==> valid_utf8(bytes@),
        r matches Some(s) ==> s@ == decode_utf8(bytes@),
{
    String::from_utf8(bytes).ok()
}

} // verus!
