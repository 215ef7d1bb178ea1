//! Fixed-width integers as byte sequences, in both byte orders.

use byteorder::{ByteOrder, LittleEndian, WriteBytesExt};
use vstd::prelude::*;

verus! {

/// The 16-bit number whose little-endian bytes are the first two of `s`.
#[verifier::opaque]
pub open spec fn le_u16(s: Seq<u8>) -> u16 {
    (s[0] as int + 256 * (s[1] as int)) as u16
}

/// The 32-bit number whose little-endian bytes are the first four of `s`.
#[verifier::opaque]
pub open spec fn le_u32(s: Seq<u8>) -> u32 {
    (s[0] as int + 256 * (s[1] as int) + 65536 * (s[2] as int) + 16777216 * (s[3] as int)) as u32
}

/// The 64-bit number whose little-endian bytes are the first eight of `s`.
#[verifier::opaque]
pub open spec fn le_u64(s: Seq<u8>) -> u64 {
    (le_u32(s) as int + 4294967296 * (le_u32(s.subrange(4, 8)) as int)) as u64
}

/// The two bytes of `v`, least significant first.
#[verifier::opaque]
pub open spec fn u16_le(v: u16) -> Seq<u8> {
    seq![(v % 256) as u8, (v / 256) as u8]
}

/// The four bytes of `v`, least significant first.
#[verifier::opaque]
pub open spec fn u32_le(v: u32) -> Seq<u8> {
    seq![
        (v % 256) as u8,
        ((v / 256) % 256) as u8,
        ((v / 65536) % 256) as u8,
        (v / 16777216) as u8,
    ]
}

/// The eight bytes of `v`, least significant first.
#[verifier::opaque]
pub open spec fn u64_le(v: u64) -> Seq<u8> {
    u32_le((v % 4294967296) as u32) + u32_le((v / 4294967296) as u32)
}

/// Decoding the little-endian bytes of a number gives the number back.
#[verifier::rlimit(50)]
pub proof fn lemma_le_round_trip_u16(v: u16)
    ensures
        u16_le(v).len() == 2,
        le_u16(u16_le(v)) == v,
{
    reveal(le_u16);
    reveal(u16_le);
}

/// Decoding the four little-endian bytes of a number gives the number back.
#[verifier::rlimit(50)]
#[verifier::spinoff_prover]
pub proof fn lemma_le_round_trip_u32(v: u32)
    ensures
        u32_le(v).len() == 4,
        le_u32(u32_le(v)) == v,
{
    reveal(le_u32);
    reveal(u32_le);
}

/// Decoding the eight little-endian bytes of a number gives the number back.
#[verifier::rlimit(50)]
#[verifier::spinoff_prover]
pub proof fn lemma_le_round_trip_u64(v: u64)
    ensures
        u64_le(v).len() == 8,
        le_u64(u64_le(v)) == v,
{
    reveal(le_u32);
    reveal(le_u64);
    reveal(u32_le);
    reveal(u64_le);
    let lo = (v % 4294967296) as u32;
    let hi = (v / 4294967296) as u32;
    lemma_le_round_trip_u32(lo);
    lemma_le_round_trip_u32(hi);
    assert(u64_le(v).subrange(4, 8) =~= u32_le(hi));
    assert(le_u32(u64_le(v)) == le_u32(u32_le(lo)));
}

/// The 16-bit number whose big-endian bytes are the first two of `s`.
#[verifier::opaque]
pub open spec fn be_u16(s: Seq<u8>) -> u16 {
    (256 * (s[0] as int) + s[1] as int) as u16
}

/// The 32-bit number whose big-endian bytes are the first four of `s`.
#[verifier::opaque]
pub open spec fn be_u32(s: Seq<u8>) -> u32 {
    (16777216 * (s[0] as int) + 65536 * (s[1] as int) + 256 * (s[2] as int) + s[3] as int) as u32
}

/// The 64-bit number whose big-endian bytes are the first eight of `s`.
#[verifier::opaque]
pub open spec fn be_u64(s: Seq<u8>) -> u64 {
    (4294967296 * (be_u32(s) as int) + be_u32(s.subrange(4, 8)) as int) as u64
}

/// The two bytes of `v`, most significant first.
#[verifier::opaque]
pub open spec fn u16_be(v: u16) -> Seq<u8> {
    seq![(v / 256) as u8, (v % 256) as u8]
}

/// The four bytes of `v`, most significant first.
#[verifier::opaque]
pub open spec fn u32_be(v: u32) -> Seq<u8> {
    seq![
        (v / 16777216) as u8,
        ((v / 65536) % 256) as u8,
        ((v / 256) % 256) as u8,
        (v % 256) as u8,
    ]
}

/// The eight bytes of `v`, most significant first.
#[verifier::opaque]
pub open spec fn u64_be(v: u64) -> Seq<u8> {
    u32_be((v / 4294967296) as u32) + u32_be((v % 4294967296) as u32)
}

/// Decoding the big-endian bytes of a number gives the number back.
#[verifier::rlimit(50)]
pub proof fn lemma_be_round_trip_u16(v: u16)
    ensures
        u16_be(v).len() == 2,
        be_u16(u16_be(v)) == v,
{
    reveal(be_u16);
    reveal(u16_be);
}

/// Decoding the four big-endian bytes of a number gives the number back.
#[verifier::rlimit(50)]
#[verifier::spinoff_prover]
pub proof fn lemma_be_round_trip_u32(v: u32)
    ensures
        u32_be(v).len() == 4,
        be_u32(u32_be(v)) == v,
{
    reveal(be_u32);
    reveal(u32_be);
}

/// Decoding the eight big-endian bytes of a number gives the number back.
#[verifier::rlimit(50)]
#[verifier::spinoff_prover]
pub proof fn lemma_be_round_trip_u64(v: u64)
    ensures
        u64_be(v).len() == 8,
        be_u64(u64_be(v)) == v,
{
    reveal(be_u32);
    reveal(be_u64);
    reveal(u32_be);
    reveal(u64_be);
    let lo = (v % 4294967296) as u32;
    let hi = (v / 4294967296) as u32;
    lemma_be_round_trip_u32(lo);
    lemma_be_round_trip_u32(hi);
    assert(u64_be(v).subrange(4, 8) =~= u32_be(lo));
    assert(be_u32(u64_be(v)) == be_u32(u32_be(hi)));
}

/// The number that `bytes` denotes in the byte order given.
pub open spec fn ordered_u16(s: Seq<u8>, little_endian: bool) -> u16 {
    if little_endian {
        le_u16(s)
    } else {
        be_u16(s)
    }
}

/// The 32-bit number that `s` denotes in the byte order given.
pub open spec fn ordered_u32(s: Seq<u8>, little_endian: bool) -> u32 {
    if little_endian {
        le_u32(s)
    } else {
        be_u32(s)
    }
}

/// The 64-bit number that `s` denotes in the byte order given.
pub open spec fn ordered_u64(s: Seq<u8>, little_endian: bool) -> u64 {
    if little_endian {
        le_u64(s)
    } else {
        be_u64(s)
    }
}

/// The bytes of `v` in the byte order given.
pub open spec fn u16_ordered(v: u16, little_endian: bool) -> Seq<u8> {
    if little_endian {
        u16_le(v)
    } else {
        u16_be(v)
    }
}

/// The four bytes of `v` in the byte order given.
pub open spec fn u32_ordered(v: u32, little_endian: bool) -> Seq<u8> {
    if little_endian {
        u32_le(v)
    } else {
        u32_be(v)
    }
}

/// The eight bytes of `v` in the byte order given.
pub open spec fn u64_ordered(v: u64, little_endian: bool) -> Seq<u8> {
    if little_endian {
        u64_le(v)
    } else {
        u64_be(v)
    }
}

/// The encodings have the width of their type.
pub broadcast proof fn lemma_width_u16_le(v: u16)
    ensures
        #[trigger] u16_le(v).len() == 2,
{
    reveal(u16_le);
}

/// A 16-bit number takes two bytes, most significant first.
pub broadcast proof fn lemma_width_u16_be(v: u16)
    ensures
        #[trigger] u16_be(v).len() == 2,
{
    reveal(u16_be);
}

/// A 32-bit number takes four bytes, least significant first.
pub broadcast proof fn lemma_width_u32_le(v: u32)
    ensures
        #[trigger] u32_le(v).len() == 4,
{
    reveal(u32_le);
}

/// A 32-bit number takes four bytes, most significant first.
pub broadcast proof fn lemma_width_u32_be(v: u32)
    ensures
        #[trigger] u32_be(v).len() == 4,
{
    reveal(u32_be);
}

/// A 64-bit number takes eight bytes, least significant first.
pub broadcast proof fn lemma_width_u64_le(v: u64)
    ensures
        #[trigger] u64_le(v).len() == 8,
{
    reveal(u32_le);
    reveal(u64_le);
}

/// A 64-bit number takes eight bytes, most significant first.
pub broadcast proof fn lemma_width_u64_be(v: u64)
    ensures
        #[trigger] u64_be(v).len() == 8,
{
    reveal(u32_be);
    reveal(u64_be);
}

pub broadcast group group_widths {
    lemma_width_u16_le,
    lemma_width_u16_be,
    lemma_width_u32_le,
    lemma_width_u32_be,
    lemma_width_u64_le,
    lemma_width_u64_be,
}

/// Decoding the bytes of a number in the order they were written in gives
/// the number back.
#[verifier::rlimit(50)]
pub proof fn lemma_ordered_round_trip(a: u16, b: u32, c: u64, little_endian: bool)
    ensures
        u16_ordered(a, little_endian).len() == 2,
        u32_ordered(b, little_endian).len() == 4,
        u64_ordered(c, little_endian).len() == 8,
        ordered_u16(u16_ordered(a, little_endian), little_endian) == a,
        ordered_u32(u32_ordered(b, little_endian), little_endian) == b,
        ordered_u64(u64_ordered(c, little_endian), little_endian) == c,
{
    lemma_le_round_trip_u16(a);
    lemma_le_round_trip_u32(b);
    lemma_le_round_trip_u64(c);
    lemma_be_round_trip_u16(a);
    lemma_be_round_trip_u32(b);
    lemma_be_round_trip_u64(c);
}

/// The signed number with the same 8 bits as `v`.
pub open spec fn signed8(v: u8) -> i8 {
    if v < 0x80 {
        v as i8
    } else {
        (v - 0x100) as i8
    }
}

/// The signed number with the same 16 bits as `v`.
pub open spec fn signed16(v: u16) -> i16 {
    if v < 0x8000 {
        v as i16
    } else {
        (v - 0x1_0000) as i16
    }
}

/// The signed number with the same 32 bits as `v`.
pub open spec fn signed32(v: u32) -> i32 {
    if v < 0x8000_0000 {
        v as i32
    } else {
        (v - 0x1_0000_0000) as i32
    }
}

/// The signed number with the same 64 bits as `v`.
pub open spec fn signed64(v: u64) -> i64 {
    if v < 0x8000_0000_0000_0000 {
        v as i64
    } else {
        (v - 0x1_0000_0000_0000_0000) as i64
    }
}

/// The unsigned number with the same 8 bits as `v`.
pub open spec fn unsigned8(v: i8) -> u8 {
    if v >= 0 {
        v as u8
    } else {
        (v + 0x100) as u8
    }
}

/// The unsigned number with the same 16 bits as `v`.
pub open spec fn unsigned16(v: i16) -> u16 {
    if v >= 0 {
        v as u16
    } else {
        (v + 0x1_0000) as u16
    }
}

/// The unsigned number with the same 32 bits as `v`.
pub open spec fn unsigned32(v: i32) -> u32 {
    if v >= 0 {
        v as u32
    } else {
        (v + 0x1_0000_0000) as u32
    }
}

/// The unsigned number with the same 64 bits as `v`.
pub open spec fn unsigned64(v: i64) -> u64 {
    if v >= 0 {
        v as u64
    } else {
        (v + 0x1_0000_0000_0000_0000) as u64
    }
}

/// The number that the first two bytes of `bytes` denote.
#[verifier::rlimit(50)]
pub fn decode_u16(bytes: &[u8], little_endian: bool) -> (r: u16)
    requires
        bytes@.len() >= 2,
    ensures
        r == ordered_u16(bytes@, little_endian),
{
    proof {
        reveal(le_u16);
        reveal(be_u16);
    }
    let a = bytes[0] as u16;
    let b = bytes[1] as u16;
    if little_endian {
        a + 256 * b
    } else {
        256 * a + b
    }
}

/// The number that the first four bytes of `bytes` denote.
#[verifier::rlimit(50)]
pub fn decode_u32(bytes: &[u8], little_endian: bool) -> (r: u32)
    requires
        bytes@.len() >= 4,
    ensures
        r == ordered_u32(bytes@, little_endian),
{
    proof {
        reveal(le_u32);
        reveal(be_u32);
    }
    let a = bytes[0] as u32;
    let b = bytes[1] as u32;
    let c = bytes[2] as u32;
    let d = bytes[3] as u32;
    if little_endian {
        a + 256 * b + 65536 * c + 16777216 * d
    } else {
        16777216 * a + 65536 * b + 256 * c + d
    }
}

/// The number that the first eight bytes of `bytes` denote.
#[verifier::rlimit(50)]
pub fn decode_u64(bytes: &[u8], little_endian: bool) -> (r: u64)
    requires
        bytes@.len() >= 8,
    ensures
        r == ordered_u64(bytes@, little_endian),
{
    proof {
        reveal(le_u32);
        reveal(le_u64);
        reveal(be_u32);
        reveal(be_u64);
    }
    let first = decode_u32(bytes, little_endian) as u64;
    let second = decode_u32(vstd::slice::slice_subrange(bytes, 4, 8), little_endian) as u64;
    if little_endian {
        first + 4294967296 * second
    } else {
        4294967296 * first + second
    }
}

/// Appends the two bytes of `v` in the byte order given.
#[verifier::rlimit(50)]
pub fn encode_u16(buf: &mut Vec<u8>, v: u16, little_endian: bool)
    ensures
        final(buf)@ == old(buf)@ + u16_ordered(v, little_endian),
{
    proof {
        reveal(u16_le);
        reveal(u16_be);
    }
    let low = (v % 256) as u8;
    let high = (v / 256) as u8;
    if little_endian {
        buf.push(low);
        buf.push(high);
    } else {
        buf.push(high);
        buf.push(low);
    }
    assert(buf@ =~= old(buf)@ + u16_ordered(v, little_endian));
}

/// Appends the four bytes of `v` in the byte order given.
#[verifier::rlimit(50)]
pub fn encode_u32(buf: &mut Vec<u8>, v: u32, little_endian: bool)
    ensures
        final(buf)@ == old(buf)@ + u32_ordered(v, little_endian),
{
    proof {
        reveal(u32_le);
        reveal(u32_be);
    }
    let b0 = (v % 256) as u8;
    let b1 = ((v / 256) % 256) as u8;
    let b2 = ((v / 65536) % 256) as u8;
    let b3 = (v / 16777216) as u8;
    if little_endian {
        buf.push(b0);
        buf.push(b1);
        buf.push(b2);
        buf.push(b3);
    } else {
        buf.push(b3);
        buf.push(b2);
        buf.push(b1);
        buf.push(b0);
    }
    assert(buf@ =~= old(buf)@ + u32_ordered(v, little_endian));
}

/// Appends the eight bytes of `v` in the byte order given.
#[verifier::rlimit(50)]
pub fn encode_u64(buf: &mut Vec<u8>, v: u64, little_endian: bool)
    ensures
        final(buf)@ == old(buf)@ + u64_ordered(v, little_endian),
{
    proof {
        reveal(u32_le);
        reveal(u64_le);
        reveal(u32_be);
        reveal(u64_be);
    }
    let low = (v % 4294967296) as u32;
    let high = (v / 4294967296) as u32;
    if little_endian {
        encode_u32(buf, low, true);
        encode_u32(buf, high, true);
    } else {
        encode_u32(buf, high, false);
        encode_u32(buf, low, false);
    }
    assert(buf@ =~= old(buf)@ + u64_ordered(v, little_endian));
}

/// `byteorder::LittleEndian::read_u16`: the number held, least significant
/// byte first, in the first two bytes of the slice. The outside function
/// panics on a shorter slice.
#[verifier::external_body]
pub(crate) fn read_u16_le(bytes: &[u8]) -> (r: u16)
    requires
        bytes@.len() >= 2,
    ensures
        r == le_u16(bytes@),
{
    LittleEndian::read_u16(bytes)
}

/// `byteorder::LittleEndian::read_u32`: the number held, least significant
/// byte first, in the first four bytes of the slice. The outside function
/// panics on a shorter slice.
#[verifier::external_body]
pub(crate) fn read_u32_le(bytes: &[u8]) -> (r: u32)
    requires
        bytes@.len() >= 4,
    ensures
        r == le_u32(bytes@),
{
    LittleEndian::read_u32(bytes)
}

/// `byteorder::LittleEndian::read_u64`: the number held, least significant
/// byte first, in the first eight bytes of the slice. The outside function
/// panics on a shorter slice.
#[verifier::external_body]
pub(crate) fn read_u64_le(bytes: &[u8]) -> (r: u64)
    requires
        bytes@.len() >= 8,
    ensures
        r == le_u64(bytes@),
{
    LittleEndian::read_u64(bytes)
}

/// `byteorder::WriteBytesExt::write_u16` on a `Vec<u8>` with
/// `LittleEndian`: appends the two bytes of `v`, least significant first.
/// Writing to a vector does not fail.
#[verifier::external_body]
pub(crate) fn put_u16_le(buf: &mut Vec<u8>, v: u16)
    ensures
        final(buf)@ == old(buf)@ + u16_le(v),
{
    let _ = buf.write_u16::<LittleEndian>(v);
}

/// `byteorder::WriteBytesExt::write_u32` on a `Vec<u8>` with
/// `LittleEndian`: appends the four bytes of `v`, least significant first.
/// Writing to a vector does not fail.
#[verifier::external_body]
pub(crate) fn put_u32_le(buf: &mut Vec<u8>, v: u32)
    ensures
        final(buf)@ == old(buf)@ + u32_le(v),
{
    let _ = buf.write_u32::<LittleEndian>(v);
}

/// `byteorder::WriteBytesExt::write_u64` on a `Vec<u8>` with
/// `LittleEndian`: appends the eight bytes of `v`, least significant first.
/// Writing to a vector does not fail.
#[verifier::external_body]
pub(crate) fn put_u64_le(buf: &mut Vec<u8>, v: u64)
    ensures
        final(buf)@ == old(buf)@ + u64_le(v),
{
    let _ = buf.write_u64::<LittleEndian>(v);
}

} // verus!
