//! The checksum that guards every record the grid puts on disk.

use vstd::prelude::*;

verus! {

/// The CRC-32 (IEEE) checksum of `b`, as `crc32fast` computes it.
pub uninterp spec fn crc32(b: Seq<u8>) -> u32;

/// `crc32fast::hash`: the CRC-32 (IEEE) checksum of a byte string. Claimed of it: the result
/// depends on the bytes alone.
#[verifier::external_body]
pub(crate) fn crc32_of(b: &[u8]) -> (c: u32)
    ensures
        c == crc32(b@),
{
    crc32fast::hash(b)
}

} // verus!
