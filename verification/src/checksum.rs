//! The IEEE CRC-32 that protects each record of a fetch response.

use vstd::prelude::*;

verus! {

/// The IEEE CRC-32 (polynomial 0xEDB88320, reflected) of a byte sequence.
pub uninterp spec fn crc32_ieee(bytes: Seq<u8>) -> u32;

/// `crc::crc32::checksum_ieee`: the checksum is a function of the bytes alone.
#[verifier::external_body]
pub(crate) fn checksum_ieee(bytes: &[u8]) -> (sum: u32)
    ensures
        sum == crc32_ieee(bytes@),
{
    crc::crc32::checksum_ieee(bytes)
}

} // verus!
