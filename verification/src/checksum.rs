//! CRC-32 of MEGA file names.

use vstd::prelude::*;

verus! {

/// The CRC-32 (IEEE) checksum of `data`, as computed by `crc32fast`.
pub uninterp spec fn crc32(data: Seq<u8>) -> u32;

/// Computes the CRC-32 of the bytes with `crc32fast::hash`.
///
/// Claimed: the result is `crc32` of the bytes; it depends on nothing else.
#[verifier::external_body]
pub(crate) fn crc32_hash(data: &[u8]) -> (r: u32)
    ensures
        r == crc32(data@),
{
    crc32fast::hash(data)
}

} // verus!
