//! The CRC-32/JAMCRC checksum, computed by the `crc` crate.
use vstd::prelude::*;

verus! {

/// The CRC-32/JAMCRC checksum of `bytes`: reflected polynomial `0x04C11DB7`,
/// initial register `0xFFFFFFFF`, reflected input and output, no final XOR.
pub uninterp spec fn jamcrc_of(bytes: Seq<u8>) -> u32;

/// Relies on `crc::Crc::<u32>::checksum`, set up with the catalogue's
/// `CRC_32_JAMCRC` parameters: a table-driven CRC over the bytes, whose result
/// depends on the bytes alone.
#[verifier::external_body]
pub(crate) fn jamcrc(bytes: &[u8]) -> (r: u32)
    ensures
        r == jamcrc_of(bytes@),
{
    crc::Crc::<u32>::new(&crc::CRC_32_JAMCRC).checksum(bytes)
}

} // verus!
