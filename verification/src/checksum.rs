//! Checksum algorithm catalogue.
//!
//! The configured checksum algorithm produces a 64-bit digest over a byte
//! buffer.  State blocks and metaclusters store the full 64 bits; data
//! clusters store the low 15 bits of the digest.

use vstd::prelude::*;

verus! {

/// The digest that `seahash::hash` computes over a byte sequence.
pub uninterp spec fn seahash_of(data: Seq<u8>) -> u64;

/// Relies on `seahash::hash`: a deterministic 64-bit digest that depends on
/// the bytes of the buffer alone.
#[verifier::external_body]
fn seahash_bytes(data: &[u8]) -> (r: u64)
    ensures
        r == seahash_of(data@),
{
    seahash::hash(data)
}

/// A checksum algorithm configuration option.
#[derive(Clone, Copy, PartialEq, Eq, Structural, Debug)]
pub enum ChecksumAlgorithm {
    /// SeaHash, a portable 64-bit hash function.
    SeaHash,
}

/// The digest the configured algorithm assigns to `data`.
pub open spec fn checksum_of(algorithm: ChecksumAlgorithm, data: Seq<u8>) -> u64 {
    match algorithm {
        ChecksumAlgorithm::SeaHash => seahash_of(data),
    }
}

/// The 15-bit truncation stored in a data-cluster header: the low 15 bits of
/// the full digest.
pub open spec fn spec_low15(x: u64) -> u16 {
    (x & 0x7fff) as u16
}

impl ChecksumAlgorithm {
    /// Compute the 64-bit digest of `data` under the configured algorithm.
    pub fn hash(self, data: &[u8]) -> (r: u64)
        ensures
            r == checksum_of(self, data@),
    {
        match self {
            ChecksumAlgorithm::SeaHash => seahash_bytes(data),
        }
    }
}

/// The low 15 bits of a digest, as stored in a data-cluster header.
pub fn low15(x: u64) -> (r: u16)
    ensures
        r == spec_low15(x),
        r < 0x8000,
{
    proof {
        assert((x & 0x7fff) < 0x8000) by (bit_vector);
    }
    (x & 0x7fff) as u16
}

} // verus!
