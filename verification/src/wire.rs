//! Big-endian encodings of the fixed-width integers of the wire format.

use vstd::prelude::*;

verus! {

/// The two bytes of `v` in network byte order.
#[verifier::opaque]
pub open spec fn be16(v: u16) -> Seq<u8> {
    seq![(v / 0x100) as u8, (v % 0x100) as u8]
}

/// The four bytes of `v` in network byte order.
#[verifier::opaque]
pub open spec fn be32(v: u32) -> Seq<u8> {
    seq![
        (v / 0x100_0000) as u8,
        (v / 0x1_0000 % 0x100) as u8,
        (v / 0x100 % 0x100) as u8,
        (v % 0x100) as u8,
    ]
}

/// The eight bytes of `v` in network byte order: its high half, then its low half.
#[verifier::opaque]
pub open spec fn be64(v: u64) -> Seq<u8> {
    be32((v / 0x1_0000_0000) as u32) + be32((v % 0x1_0000_0000) as u32)
}

/// The unsigned 16-bit integer whose big-endian bytes start `s`.
#[verifier::opaque]
pub open spec fn from_be16(s: Seq<u8>) -> u16
    recommends
        s.len() >= 2,
{
    (s[0] as int * 0x100 + s[1] as int) as u16
}

/// The unsigned 32-bit integer whose big-endian bytes start `s`.
#[verifier::opaque]
pub open spec fn from_be32(s: Seq<u8>) -> u32
    recommends
        s.len() >= 4,
{
    (s[0] as int * 0x100_0000 + s[1] as int * 0x1_0000 + s[2] as int * 0x100 + s[3] as int) as u32
}

/// The unsigned 64-bit integer whose big-endian bytes start `s`: the first
/// four bytes are its high half, the next four its low half.
#[verifier::opaque]
pub open spec fn from_be64(s: Seq<u8>) -> u64
    recommends
        s.len() >= 8,
{
    (from_be32(s) as int * 0x1_0000_0000 + from_be32(s.skip(4)) as int) as u64
}

/// Decoding the big-endian bytes of a 16-bit integer gives it back, whatever follows them.
pub proof fn lemma_be16_round_trip(v: u16, tail: Seq<u8>)
    ensures
        be16(v).len() == 2,
        from_be16(be16(v) + tail) == v,
{
    reveal(be16);
    reveal(from_be16);
}

/// Decoding the big-endian bytes of a 32-bit integer gives it back, whatever follows them.
pub proof fn lemma_be32_round_trip(v: u32, tail: Seq<u8>)
    ensures
        be32(v).len() == 4,
        from_be32(be32(v) + tail) == v,
{
    reveal(be32);
    reveal(from_be32);
}

/// Decoding the big-endian bytes of a 64-bit integer gives it back, whatever follows them.
pub proof fn lemma_be64_round_trip(v: u64, tail: Seq<u8>)
    ensures
        be64(v).len() == 8,
        from_be64(be64(v) + tail) == v,
{
    reveal(be64);
    reveal(from_be64);
    let hi = (v / 0x1_0000_0000) as u32;
    let lo = (v % 0x1_0000_0000) as u32;
    let s = be64(v) + tail;
    lemma_be32_round_trip(hi, be32(lo) + tail);
    lemma_be32_round_trip(lo, tail);
    assert(s =~= be32(hi) + (be32(lo) + tail));
    assert(s.skip(4) =~= be32(lo) + tail);
}

/// An encoded integer takes up as many bytes as its width says.
pub proof fn lemma_be_len(a: u16, b: u32, c: u64)
    ensures
        be16(a).len() == 2,
        be32(b).len() == 4,
        be64(c).len() == 8,
{
    reveal(be16);
    reveal(be32);
    reveal(be64);
}

/// The bit pattern of a signed 16-bit integer in two's complement.
pub open spec fn bits16(v: i16) -> u16 {
    if v >= 0 {
        v as u16
    } else {
        (v + 0x1_0000) as u16
    }
}

/// The bit pattern of a signed 32-bit integer in two's complement.
pub open spec fn bits32(v: i32) -> u32 {
    if v >= 0 {
        v as u32
    } else {
        (v + 0x1_0000_0000) as u32
    }
}

/// The bit pattern of a signed 64-bit integer in two's complement.
pub open spec fn bits64(v: i64) -> u64 {
    if v >= 0 {
        v as u64
    } else {
        (v + 0x1_0000_0000_0000_0000) as u64
    }
}

/// The signed 16-bit integer with the given two's complement bit pattern.
pub open spec fn signed16(v: u16) -> i16 {
    if v < 0x8000 {
        v as i16
    } else {
        (v - 0x1_0000) as i16
    }
}

/// The signed 32-bit integer with the given two's complement bit pattern.
pub open spec fn signed32(v: u32) -> i32 {
    if v < 0x8000_0000 {
        v as i32
    } else {
        (v - 0x1_0000_0000) as i32
    }
}

/// The signed 64-bit integer with the given two's complement bit pattern.
pub open spec fn signed64(v: u64) -> i64 {
    if v < 0x8000_0000_0000_0000 {
        v as i64
    } else {
        (v - 0x1_0000_0000_0000_0000) as i64
    }
}

/// A signed integer and its bit pattern determine each other.
pub proof fn lemma_signed_bits(a: i16, b: i32, c: i64)
    ensures
        signed16(bits16(a)) == a,
        signed32(bits32(b)) == b,
        signed64(bits64(c)) == c,
{
}

/// The bit pattern of `v`, computed without a wrapping cast.
pub fn i16_bits(v: i16) -> (r: u16)
    ensures
        r == bits16(v),
{
    if v >= 0 {
        v as u16
    } else {
        (v - i16::MIN) as u16 + 0x8000
    }
}

/// The bit pattern of `v`, computed without a wrapping cast.
pub fn i32_bits(v: i32) -> (r: u32)
    ensures
        r == bits32(v),
{
    if v >= 0 {
        v as u32
    } else {
        (v - i32::MIN) as u32 + 0x8000_0000
    }
}

/// The bit pattern of `v`, computed without a wrapping cast.
pub fn i64_bits(v: i64) -> (r: u64)
    ensures
        r == bits64(v),
{
    if v >= 0 {
        v as u64
    } else {
        (v - i64::MIN) as u64 + 0x8000_0000_0000_0000
    }
}

} // verus!
