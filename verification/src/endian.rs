//! Little-endian integers as they stand in the container.
//!
//! The byte order itself is left to the `byteorder` crate; this module says
//! in arithmetic what its little-endian routines return and proves that
//! reading undoes writing.

use byteorder::ByteOrder;
use byteorder::LittleEndian;
use vstd::prelude::*;

verus! {

/// The value of two little-endian bytes.
pub open spec fn u16_from_le(b: Seq<u8>) -> u16
    recommends
        b.len() == 2,
{
    (b[0] + b[1] * 0x100) as u16
}

/// The value of four little-endian bytes.
pub open spec fn u32_from_le(b: Seq<u8>) -> u32
    recommends
        b.len() == 4,
{
    (b[0] + b[1] * 0x100 + b[2] * 0x1_0000 + b[3] * 0x100_0000) as u32
}

/// The value of eight little-endian bytes.
pub open spec fn u64_from_le(b: Seq<u8>) -> u64
    recommends
        b.len() == 8,
{
    (b[0] + b[1] * 0x100 + b[2] * 0x1_0000 + b[3] * 0x100_0000 + b[4] * 0x1_0000_0000 + b[5]
        * 0x100_0000_0000 + b[6] * 0x1_0000_0000_0000 + b[7] * 0x100_0000_0000_0000) as u64
}

/// The two little-endian bytes of a value.
pub open spec fn u16_to_le(v: u16) -> Seq<u8> {
    seq![(v % 0x100) as u8, (v / 0x100) as u8]
}

/// The four little-endian bytes of a value.
pub open spec fn u32_to_le(v: u32) -> Seq<u8> {
    seq![
        (v % 0x100) as u8,
        (v / 0x100 % 0x100) as u8,
        (v / 0x1_0000 % 0x100) as u8,
        (v / 0x100_0000) as u8,
    ]
}

/// The eight little-endian bytes of a value.
pub open spec fn u64_to_le(v: u64) -> Seq<u8> {
    seq![
        (v % 0x100) as u8,
        (v / 0x100 % 0x100) as u8,
        (v / 0x1_0000 % 0x100) as u8,
        (v / 0x100_0000 % 0x100) as u8,
        (v / 0x1_0000_0000 % 0x100) as u8,
        (v / 0x100_0000_0000 % 0x100) as u8,
        (v / 0x1_0000_0000_0000 % 0x100) as u8,
        (v / 0x100_0000_0000_0000) as u8,
    ]
}

/// Reading the bytes of a 16-bit value gives the value back.
pub proof fn lemma_u16_le_round_trip(v: u16)
    ensures
        u16_to_le(v).len() == 2,
        u16_from_le(u16_to_le(v)) == v,
{
}

/// Reading the bytes of a 32-bit value gives the value back.
pub proof fn lemma_u32_le_round_trip(v: u32)
    ensures
        u32_to_le(v).len() == 4,
        u32_from_le(u32_to_le(v)) == v,
{
    assert(v == (v % 0x100) + (v / 0x100 % 0x100) * 0x100 + (v / 0x1_0000 % 0x100) * 0x1_0000 + (v
        / 0x100_0000) * 0x100_0000) by (bit_vector);
}

/// Reading the bytes of a 64-bit value gives the value back.
pub proof fn lemma_u64_le_round_trip(v: u64)
    ensures
        u64_to_le(v).len() == 8,
        u64_from_le(u64_to_le(v)) == v,
{
    assert(v == (v % 0x100) + (v / 0x100 % 0x100) * 0x100 + (v / 0x1_0000 % 0x100) * 0x1_0000 + (v
        / 0x100_0000 % 0x100) * 0x100_0000 + (v / 0x1_0000_0000 % 0x100) * 0x1_0000_0000 + (v
        / 0x100_0000_0000 % 0x100) * 0x100_0000_0000 + (v / 0x1_0000_0000_0000 % 0x100)
        * 0x1_0000_0000_0000 + (v / 0x100_0000_0000_0000) * 0x100_0000_0000_0000) by (bit_vector);
}

/// `byteorder::LittleEndian::read_u16`: the little-endian value of the first
/// two bytes of the buffer. The crate panics on a shorter buffer.
#[verifier::external_body]
pub(crate) fn read_u16(buf: &[u8]) -> (v: u16)
    requires
        buf@.len() >= 2,
    ensures
        v == u16_from_le(buf@.subrange(0, 2)),
{
    LittleEndian::read_u16(buf)
}

/// `byteorder::LittleEndian::read_u32`: the little-endian value of the first
/// four bytes of the buffer. The crate panics on a shorter buffer.
#[verifier::external_body]
pub(crate) fn read_u32(buf: &[u8]) -> (v: u32)
    requires
        buf@.len() >= 4,
    ensures
        v == u32_from_le(buf@.subrange(0, 4)),
{
    LittleEndian::read_u32(buf)
}

/// `byteorder::LittleEndian::read_u64`: the little-endian value of the first
/// eight bytes of the buffer. The crate panics on a shorter buffer.
#[verifier::external_body]
pub(crate) fn read_u64(buf: &[u8]) -> (v: u64)
    requires
        buf@.len() >= 8,
    ensures
        v == u64_from_le(buf@.subrange(0, 8)),
{
    LittleEndian::read_u64(buf)
}

/// `byteorder::LittleEndian::write_u16` into a fresh two-byte block: the
/// block then holds the value's bytes, lowest first.
#[verifier::external_body]
pub(crate) fn write_u16(n: u16) -> (block: [u8; 2])
    ensures
        block@ == u16_to_le(n),
{
    let mut block = [0u8; 2];
    LittleEndian::write_u16(&mut block, n);
    block
}

/// `byteorder::LittleEndian::write_u32` into a fresh four-byte block: the
/// block then holds the value's bytes, lowest first.
#[verifier::external_body]
pub(crate) fn write_u32(n: u32) -> (block: [u8; 4])
    ensures
        block@ == u32_to_le(n),
{
    let mut block = [0u8; 4];
    LittleEndian::write_u32(&mut block, n);
    block
}

/// `byteorder::LittleEndian::write_u64` into a fresh eight-byte block: the
/// block then holds the value's bytes, lowest first.
#[verifier::external_body]
pub(crate) fn write_u64(n: u64) -> (block: [u8; 8])
    ensures
        block@ == u64_to_le(n),
{
    let mut block = [0u8; 8];
    LittleEndian::write_u64(&mut block, n);
    block
}

} // verus!
