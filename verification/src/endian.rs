//! Fixed-width integers on the wire, in either byte order.
//!
//! The arithmetic meaning of a run of bytes is defined here; the reading itself
//! is done by the `byteorder` crate.

use crate::encoding::ByteOrder;
use vstd::prelude::*;

verus! {

/// The number that the first two bytes of `s` spell, least significant first.
pub open spec fn le_u16(s: Seq<u8>) -> u16 {
    (s[0] as int + 0x100 * (s[1] as int)) as u16
}

/// The number that the first four bytes of `s` spell, least significant first.
pub open spec fn le_u32(s: Seq<u8>) -> u32 {
    (s[0] as int + 0x100 * (s[1] as int) + 0x1_0000 * (s[2] as int) + 0x100_0000 * (s[3] as int)) as u32
}

/// The number that the first eight bytes of `s` spell, least significant first.
pub open spec fn le_u64(s: Seq<u8>) -> u64 {
    (s[0] as int + 0x100 * (s[1] as int) + 0x1_0000 * (s[2] as int) + 0x100_0000 * (s[3] as int)
        + 0x1_0000_0000 * (s[4] as int) + 0x100_0000_0000 * (s[5] as int) + 0x1_0000_0000_0000 * (
    s[6] as int) + 0x100_0000_0000_0000 * (s[7] as int)) as u64
}

/// The number that the first two bytes of `s` spell, most significant first.
pub open spec fn be_u16(s: Seq<u8>) -> u16 {
    (s[1] as int + 0x100 * (s[0] as int)) as u16
}

/// The number that the first four bytes of `s` spell, most significant first.
pub open spec fn be_u32(s: Seq<u8>) -> u32 {
    (s[3] as int + 0x100 * (s[2] as int) + 0x1_0000 * (s[1] as int) + 0x100_0000 * (s[0] as int)) as u32
}

/// The number that the first eight bytes of `s` spell, most significant first.
pub open spec fn be_u64(s: Seq<u8>) -> u64 {
    (s[7] as int + 0x100 * (s[6] as int) + 0x1_0000 * (s[5] as int) + 0x100_0000 * (s[4] as int)
        + 0x1_0000_0000 * (s[3] as int) + 0x100_0000_0000 * (s[2] as int) + 0x1_0000_0000_0000 * (
    s[1] as int) + 0x100_0000_0000_0000 * (s[0] as int)) as u64
}

/// The unsigned 16-bit number at the start of `s`, in the given byte order.
pub open spec fn u16_at(order: ByteOrder, s: Seq<u8>) -> u16 {
    match order {
        ByteOrder::LittleEndian => le_u16(s),
        ByteOrder::BigEndian => be_u16(s),
    }
}

/// The unsigned 32-bit number at the start of `s`, in the given byte order.
pub open spec fn u32_at(order: ByteOrder, s: Seq<u8>) -> u32 {
    match order {
        ByteOrder::LittleEndian => le_u32(s),
        ByteOrder::BigEndian => be_u32(s),
    }
}

/// The unsigned 64-bit number at the start of `s`, in the given byte order.
pub open spec fn u64_at(order: ByteOrder, s: Seq<u8>) -> u64 {
    match order {
        ByteOrder::LittleEndian => le_u64(s),
        ByteOrder::BigEndian => be_u64(s),
    }
}

/// The two's complement reading of a 16-bit pattern.
pub open spec fn signed16(u: u16) -> i16 {
    if u < 0x8000 {
        u as i16
    } else {
        (u - 0x1_0000) as i16
    }
}

/// The two's complement reading of a 32-bit pattern.
pub open spec fn signed32(u: u32) -> i32 {
    if u < 0x8000_0000 {
        u as i32
    } else {
        (u - 0x1_0000_0000) as i32
    }
}

/// The two's complement reading of a 64-bit pattern.
pub open spec fn signed64(u: u64) -> i64 {
    if u < 0x8000_0000_0000_0000 {
        u as i64
    } else {
        (u - 0x1_0000_0000_0000_0000) as i64
    }
}

/// `byteorder::LittleEndian::read_u16`: the first two bytes of `buf`, least
/// significant first. It panics on fewer than two bytes.
#[verifier::external_body]
fn read_u16_le(buf: &[u8]) -> (r: u16)
    requires
        buf@.len() >= 2,
    ensures
        r == le_u16(buf@),
{
    <byteorder::LittleEndian as byteorder::ByteOrder>::read_u16(buf)
}

/// `byteorder::BigEndian::read_u16`: the first two bytes of `buf`, most
/// significant first. It panics on fewer than two bytes.
#[verifier::external_body]
fn read_u16_be(buf: &[u8]) -> (r: u16)
    requires
        buf@.len() >= 2,
    ensures
        r == be_u16(buf@),
{
    <byteorder::BigEndian as byteorder::ByteOrder>::read_u16(buf)
}

/// `byteorder::LittleEndian::read_u32`: the first four bytes of `buf`, least
/// significant first. It panics on fewer than four bytes.
#[verifier::external_body]
fn read_u32_le(buf: &[u8]) -> (r: u32)
    requires
        buf@.len() >= 4,
    ensures
        r == le_u32(buf@),
{
    <byteorder::LittleEndian as byteorder::ByteOrder>::read_u32(buf)
}

/// `byteorder::BigEndian::read_u32`: the first four bytes of `buf`, most
/// significant first. It panics on fewer than four bytes.
#[verifier::external_body]
fn read_u32_be(buf: &[u8]) -> (r: u32)
    requires
        buf@.len() >= 4,
    ensures
        r == be_u32(buf@),
{
    <byteorder::BigEndian as byteorder::ByteOrder>::read_u32(buf)
}

/// `byteorder::LittleEndian::read_u64`: the first eight bytes of `buf`, least
/// significant first. It panics on fewer than eight bytes.
#[verifier::external_body]
fn read_u64_le(buf: &[u8]) -> (r: u64)
    requires
        buf@.len() >= 8,
    ensures
        r == le_u64(buf@),
{
    <byteorder::LittleEndian as byteorder::ByteOrder>::read_u64(buf)
}

/// `byteorder::BigEndian::read_u64`: the first eight bytes of `buf`, most
/// significant first. It panics on fewer than eight bytes.
#[verifier::external_body]
fn read_u64_be(buf: &[u8]) -> (r: u64)
    requires
        buf@.len() >= 8,
    ensures
        r == be_u64(buf@),
{
    <byteorder::BigEndian as byteorder::ByteOrder>::read_u64(buf)
}

/// `byteorder::LittleEndian::read_i16`: `read_u16` read as two's complement.
#[verifier::external_body]
fn read_i16_le(buf: &[u8]) -> (r: i16)
    requires
        buf@.len() >= 2,
    ensures
        r == signed16(le_u16(buf@)),
{
    <byteorder::LittleEndian as byteorder::ByteOrder>::read_i16(buf)
}

/// `byteorder::BigEndian::read_i16`: `read_u16` read as two's complement.
#[verifier::external_body]
fn read_i16_be(buf: &[u8]) -> (r: i16)
    requires
        buf@.len() >= 2,
    ensures
        r == signed16(be_u16(buf@)),
{
    <byteorder::BigEndian as byteorder::ByteOrder>::read_i16(buf)
}

/// `byteorder::LittleEndian::read_i32`: `read_u32` read as two's complement.
#[verifier::external_body]
fn read_i32_le(buf: &[u8]) -> (r: i32)
    requires
        buf@.len() >= 4,
    ensures
        r == signed32(le_u32(buf@)),
{
    <byteorder::LittleEndian as byteorder::ByteOrder>::read_i32(buf)
}

/// `byteorder::BigEndian::read_i32`: `read_u32` read as two's complement.
#[verifier::external_body]
fn read_i32_be(buf: &[u8]) -> (r: i32)
    requires
        buf@.len() >= 4,
    ensures
        r == signed32(be_u32(buf@)),
{
    <byteorder::BigEndian as byteorder::ByteOrder>::read_i32(buf)
}

/// `byteorder::LittleEndian::read_i64`: `read_u64` read as two's complement.
#[verifier::external_body]
fn read_i64_le(buf: &[u8]) -> (r: i64)
    requires
        buf@.len() >= 8,
    ensures
        r == signed64(le_u64(buf@)),
{
    <byteorder::LittleEndian as byteorder::ByteOrder>::read_i64(buf)
}

/// `byteorder::BigEndian::read_i64`: `read_u64` read as two's complement.
#[verifier::external_body]
fn read_i64_be(buf: &[u8]) -> (r: i64)
    requires
        buf@.len() >= 8,
    ensures
        r == signed64(be_u64(buf@)),
{
    <byteorder::BigEndian as byteorder::ByteOrder>::read_i64(buf)
}

/// Reads an unsigned 16-bit integer from the start of `buf`.
pub fn read_u16(order: ByteOrder, buf: &[u8]) -> (r: u16)
    requires
        buf@.len() >= 2,
    ensures
        r == u16_at(order, buf@),
{
    match order {
        ByteOrder::LittleEndian => read_u16_le(buf),
        ByteOrder::BigEndian => read_u16_be(buf),
    }
}

/// Reads an unsigned 32-bit integer from the start of `buf`.
pub fn read_u32(order: ByteOrder, buf: &[u8]) -> (r: u32)
    requires
        buf@.len() >= 4,
    ensures
        r == u32_at(order, buf@),
{
    match order {
        ByteOrder::LittleEndian => read_u32_le(buf),
        ByteOrder::BigEndian => read_u32_be(buf),
    }
}

/// Reads an unsigned 64-bit integer from the start of `buf`.
pub fn read_u64(order: ByteOrder, buf: &[u8]) -> (r: u64)
    requires
        buf@.len() >= 8,
    ensures
        r == u64_at(order, buf@),
{
    match order {
        ByteOrder::LittleEndian => read_u64_le(buf),
        ByteOrder::BigEndian => read_u64_be(buf),
    }
}

/// Reads a signed 16-bit integer from the start of `buf`.
pub fn read_i16(order: ByteOrder, buf: &[u8]) -> (r: i16)
    requires
        buf@.len() >= 2,
    ensures
        r == signed16(u16_at(order, buf@)),
{
    match order {
        ByteOrder::LittleEndian => read_i16_le(buf),
        ByteOrder::BigEndian => read_i16_be(buf),
    }
}

/// Reads a signed 32-bit integer from the start of `buf`.
pub fn read_i32(order: ByteOrder, buf: &[u8]) -> (r: i32)
    requires
        buf@.len() >= 4,
    ensures
        r == signed32(u32_at(order, buf@)),
{
    match order {
        ByteOrder::LittleEndian => read_i32_le(buf),
        ByteOrder::BigEndian => read_i32_be(buf),
    }
}

/// Reads a signed 64-bit integer from the start of `buf`.
pub fn read_i64(order: ByteOrder, buf: &[u8]) -> (r: i64)
    requires
        buf@.len() >= 8,
    ensures
        r == signed64(u64_at(order, buf@)),
{
    match order {
        ByteOrder::LittleEndian => read_i64_le(buf),
        ByteOrder::BigEndian => read_i64_be(buf),
    }
}

/// The same bytes read backwards in the other byte order spell the same
/// number.
pub proof fn lemma_scalar_byte_order_symmetry(order: ByteOrder, s: Seq<u8>)
    ensures
        s.len() >= 2 ==> u16_at(order.swapped(), s.take(2).reverse()) == u16_at(order, s),
        s.len() >= 4 ==> u32_at(order.swapped(), s.take(4).reverse()) == u32_at(order, s),
        s.len() >= 8 ==> u64_at(order.swapped(), s.take(8).reverse()) == u64_at(order, s),
{
}

/// The two bytes that spell `v`, least significant first.
pub open spec fn le_bytes_u16(v: u16) -> Seq<u8> {
    seq![(v % 0x100) as u8, (v / 0x100) as u8]
}

/// The four bytes that spell `v`, least significant first.
pub open spec fn le_bytes_u32(v: u32) -> Seq<u8> {
    seq![
        (v % 0x100) as u8,
        (v / 0x100 % 0x100) as u8,
        (v / 0x1_0000 % 0x100) as u8,
        (v / 0x100_0000) as u8,
    ]
}

/// The eight bytes that spell `v`, least significant first.
pub open spec fn le_bytes_u64(v: u64) -> Seq<u8> {
    seq![
        (v % 0x100) as u8,
        (v / 0x100 % 0x100) as u8,
        (v / 0x1_0000 % 0x100) as u8,
        (v / 0x100_0000 % 0x100) as u8,
        (v / 0x1_0000_0000 % 0x100) as u8,
        (v / 0x100_0000_0000 % 0x100) as u8,
        (v / 0x1_0000_0000_0000 % 0x100) as u8,
        (v / 0x100_0000_0000_0000) as u8,
    ]
}

/// The two bytes that spell `v` in the given byte order.
pub open spec fn bytes_of_u16(order: ByteOrder, v: u16) -> Seq<u8> {
    match order {
        ByteOrder::LittleEndian => le_bytes_u16(v),
        ByteOrder::BigEndian => le_bytes_u16(v).reverse(),
    }
}

/// The four bytes that spell `v` in the given byte order.
pub open spec fn bytes_of_u32(order: ByteOrder, v: u32) -> Seq<u8> {
    match order {
        ByteOrder::LittleEndian => le_bytes_u32(v),
        ByteOrder::BigEndian => le_bytes_u32(v).reverse(),
    }
}

/// The eight bytes that spell `v` in the given byte order.
pub open spec fn bytes_of_u64(order: ByteOrder, v: u64) -> Seq<u8> {
    match order {
        ByteOrder::LittleEndian => le_bytes_u64(v),
        ByteOrder::BigEndian => le_bytes_u64(v).reverse(),
    }
}

/// The 16-bit pattern of a signed number in two's complement.
pub open spec fn unsigned16(v: i16) -> u16 {
    if v >= 0 {
        v as u16
    } else {
        (v + 0x1_0000) as u16
    }
}

/// The 32-bit pattern of a signed number in two's complement.
pub open spec fn unsigned32(v: i32) -> u32 {
    if v >= 0 {
        v as u32
    } else {
        (v + 0x1_0000_0000) as u32
    }
}

/// The 64-bit pattern of a signed number in two's complement.
pub open spec fn unsigned64(v: i64) -> u64 {
    if v >= 0 {
        v as u64
    } else {
        (v + 0x1_0000_0000_0000_0000) as u64
    }
}

/// Reading the two bytes that spell a number gives the number back.
pub proof fn lemma_u16_round_trip(order: ByteOrder, v: u16)
    ensures
        bytes_of_u16(order, v).len() == 2,
        u16_at(order, bytes_of_u16(order, v)) == v,
{
    assert((v % 0x100) + 0x100 * (v / 0x100) == v) by (bit_vector);
}

/// Reading the four bytes that spell a number gives the number back.
pub proof fn lemma_u32_round_trip(order: ByteOrder, v: u32)
    ensures
        bytes_of_u32(order, v).len() == 4,
        u32_at(order, bytes_of_u32(order, v)) == v,
{
    assert((v % 0x100) + 0x100 * (v / 0x100 % 0x100) + 0x1_0000 * (v / 0x1_0000 % 0x100)
        + 0x100_0000 * (v / 0x100_0000) == v) by (bit_vector);
}

/// Reading the eight bytes that spell a number gives the number back.
pub proof fn lemma_u64_round_trip(order: ByteOrder, v: u64)
    ensures
        bytes_of_u64(order, v).len() == 8,
        u64_at(order, bytes_of_u64(order, v)) == v,
{
    assert((v % 0x100) + 0x100 * (v / 0x100 % 0x100) + 0x1_0000 * (v / 0x1_0000 % 0x100)
        + 0x100_0000 * (v / 0x100_0000 % 0x100) + 0x1_0000_0000 * (v / 0x1_0000_0000 % 0x100)
        + 0x100_0000_0000 * (v / 0x100_0000_0000 % 0x100) + 0x1_0000_0000_0000 * (v
        / 0x1_0000_0000_0000 % 0x100) + 0x100_0000_0000_0000 * (v / 0x100_0000_0000_0000) == v)
        by (bit_vector);
}

/// A signed number survives the way through its bit pattern, and so does a
/// bit pattern the way through the signed number.
pub proof fn lemma_signed_round_trip(a: i16, b: i32, c: i64, x: u16, y: u32, z: u64)
    ensures
        signed16(unsigned16(a)) == a,
        signed32(unsigned32(b)) == b,
        signed64(unsigned64(c)) == c,
        unsigned16(signed16(x)) == x,
        unsigned32(signed32(y)) == y,
        unsigned64(signed64(z)) == z,
{
}

/// The bytes that spell a number in one byte order are, read backwards,
/// those that spell it in the other.
pub proof fn lemma_bytes_swapped(order: ByteOrder, a: u16, b: u32, c: u64)
    ensures
        bytes_of_u16(order.swapped(), a) == bytes_of_u16(order, a).reverse(),
        bytes_of_u32(order.swapped(), b) == bytes_of_u32(order, b).reverse(),
        bytes_of_u64(order.swapped(), c) == bytes_of_u64(order, c).reverse(),
{
    assert(le_bytes_u16(a).reverse().reverse() =~= le_bytes_u16(a));
    assert(le_bytes_u32(b).reverse().reverse() =~= le_bytes_u32(b));
    assert(le_bytes_u64(c).reverse().reverse() =~= le_bytes_u64(c));
}

} // verus!
