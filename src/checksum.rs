//! Checksums and digests of byte strings, computed by outside crates.
use vstd::prelude::*;

verus! {

/// The CRC-32/CKSUM checksum of a byte string.
pub uninterp spec fn crc32_cksum(data: Seq<u8>) -> u32;

/// The MD5 digest of a byte string.
pub uninterp spec fn md5_digest(data: Seq<u8>) -> Seq<u8>;

/// Relies on `crc::Crc::<u32>::checksum` with the `CRC_32_CKSUM` parameters:
/// the checksum of the bytes given.
#[verifier::external_body]
pub(crate) fn crc32_of(data: &[u8]) -> (r: u32)
    ensures
        r == crc32_cksum(data@),
{
    crc::Crc::<u32>::new(&crc::CRC_32_CKSUM).checksum(data)
}

/// Relies on `md5::Md5` through `digest::Digest::digest`: the digest of the
/// bytes given, which is 16 bytes long (`OutputSize = U16`).
#[verifier::external_body]
pub(crate) fn md5_of(data: &[u8]) -> (r: Vec<u8>)
    ensures
        r@ == md5_digest(data@),
        r@.len() == 16,
{
    <md5::Md5 as md5::Digest>::digest(data).to_vec()
}

} // verus!
