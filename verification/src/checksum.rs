//! The checksum of frames and journal records.
use vstd::prelude::*;

verus! {

/// The CRC-32 (IEEE) of some bytes.
pub uninterp spec fn crc32(bytes: Seq<u8>) -> u32;

/// `crc32fast::hash`: the CRC-32 of some bytes, which depends on nothing else.
#[verifier::external_body]
pub(crate) fn checksum(bytes: &[u8]) -> (r: u32)
    ensures
        r == crc32(bytes@),
{
    crc32fast::hash(bytes)
}

} // verus!
