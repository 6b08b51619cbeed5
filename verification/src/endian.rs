//! Integers as they lie in a stream: two or four bytes, either end first.

use byteorder::{BigEndian, ByteOrder, LittleEndian};
use vstd::prelude::*;

verus! {

/// The number that the first two bytes of `s` spell, low byte first.
pub open spec fn le_u16(s: Seq<u8>) -> int
    recommends
        s.len() >= 2,
{
    s[0] as int + 0x100 * (s[1] as int)
}

/// The number that the first two bytes of `s` spell, high byte first.
pub open spec fn be_u16(s: Seq<u8>) -> int
    recommends
        s.len() >= 2,
{
    0x100 * (s[0] as int) + s[1] as int
}

/// The number that the first four bytes of `s` spell, low byte first.
pub open spec fn le_u32(s: Seq<u8>) -> int
    recommends
        s.len() >= 4,
{
    s[0] as int + 0x100 * (s[1] as int) + 0x1_0000 * (s[2] as int) + 0x100_0000 * (s[3] as int)
}

/// The number that the first four bytes of `s` spell, high byte first.
pub open spec fn be_u32(s: Seq<u8>) -> int
    recommends
        s.len() >= 4,
{
    0x100_0000 * (s[0] as int) + 0x1_0000 * (s[1] as int) + 0x100 * (s[2] as int) + s[3] as int
}

/// The first two bytes of `s`, low byte first, read as a number in two's
/// complement.
pub open spec fn le_i16(s: Seq<u8>) -> int
    recommends
        s.len() >= 2,
{
    if le_u16(s) < 0x8000 {
        le_u16(s)
    } else {
        le_u16(s) - 0x1_0000
    }
}

/// The first four bytes of `s`, low byte first, read as a number in two's
/// complement.
pub open spec fn le_i32(s: Seq<u8>) -> int
    recommends
        s.len() >= 4,
{
    if le_u32(s) < 0x8000_0000 {
        le_u32(s)
    } else {
        le_u32(s) - 0x1_0000_0000
    }
}

/// `byteorder::LittleEndian::read_u16`: taken on trust that it combines the
/// first two bytes of `buf`, the first being the low one. It panics on a
/// shorter buffer, which `requires` leaves out.
#[verifier::external_body]
pub(crate) fn read_u16_le(buf: &[u8]) -> (value: u16)
    requires
        buf@.len() >= 2,
    ensures
        value as int == le_u16(buf@),
{
    LittleEndian::read_u16(buf)
}

/// `byteorder::BigEndian::read_u16`: taken on trust that it combines the
/// first two bytes of `buf`, the first being the high one. It panics on a
/// shorter buffer, which `requires` leaves out.
#[verifier::external_body]
pub(crate) fn read_u16_be(buf: &[u8]) -> (value: u16)
    requires
        buf@.len() >= 2,
    ensures
        value as int == be_u16(buf@),
{
    BigEndian::read_u16(buf)
}

/// `byteorder::LittleEndian::read_u32`: taken on trust that it combines the
/// first four bytes of `buf`, the first being the lowest. It panics on a
/// shorter buffer, which `requires` leaves out.
#[verifier::external_body]
pub(crate) fn read_u32_le(buf: &[u8]) -> (value: u32)
    requires
        buf@.len() >= 4,
    ensures
        value as int == le_u32(buf@),
{
    LittleEndian::read_u32(buf)
}

/// `byteorder::BigEndian::read_u32`: taken on trust that it combines the
/// first four bytes of `buf`, the first being the highest. It panics on a
/// shorter buffer, which `requires` leaves out.
#[verifier::external_body]
pub(crate) fn read_u32_be(buf: &[u8]) -> (value: u32)
    requires
        buf@.len() >= 4,
    ensures
        value as int == be_u32(buf@),
{
    BigEndian::read_u32(buf)
}

/// `byteorder::LittleEndian::read_i16`: taken on trust that it reads the
/// first two bytes of `buf` as `read_u16` does and reinterprets the sixteen
/// bits as a signed number. It panics on a shorter buffer, which `requires`
/// leaves out.
#[verifier::external_body]
pub(crate) fn read_i16_le(buf: &[u8]) -> (value: i16)
    requires
        buf@.len() >= 2,
    ensures
        value as int == le_i16(buf@),
{
    LittleEndian::read_i16(buf)
}

/// `byteorder::LittleEndian::read_i32`: taken on trust that it reads the
/// first four bytes of `buf` as `read_u32` does and reinterprets the
/// thirty-two bits as a signed number. It panics on a shorter buffer, which
/// `requires` leaves out.
#[verifier::external_body]
pub(crate) fn read_i32_le(buf: &[u8]) -> (value: i32)
    requires
        buf@.len() >= 4,
    ensures
        value as int == le_i32(buf@),
{
    LittleEndian::read_i32(buf)
}

} // verus!
