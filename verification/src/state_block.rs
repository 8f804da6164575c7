//! The state block: one sector holding the persistent configuration, the
//! freelist-head pointer and the superpage pointer, protected by a prefix
//! checksum.
//!
//! Layout of the sector:
//! bytes `0..8` checksum over bytes `8..SECTOR`; bytes `8..10` the
//! compression-algorithm tag; bytes `16..24` the freelist-head pointer;
//! bytes `24..32` the superpage pointer; the rest zero.  All integers are
//! little-endian, and a null pointer is stored as zero.

use crate::checksum::{checksum_of, ChecksumAlgorithm};
use crate::cluster::{opt_wf, ptr_word, Pointer};
use crate::codec::{push_u16_le, push_u64_le, push_zeros, read_u16_at, read_u64_at, spec_u16_at, spec_u64_at, zeros};
use crate::disk::SECTOR;
use vstd::bytes::{spec_u16_to_le_bytes, spec_u64_to_le_bytes};
use vstd::prelude::*;

verus! {

/// A state block parsing error.
#[derive(Clone, Copy, PartialEq, Eq, Structural, Debug)]
pub enum Error {
    /// The compression-algorithm tag lies in the reserved extension space
    /// (top bit set).
    UnknownCompressionAlgorithm,
    /// The compression-algorithm tag is not a known option.
    InvalidCompressionAlgorithm,
    /// The stored and the computed checksum disagree.
    ChecksumMismatch {
        /// The checksum stored in the sector.
        expected: u64,
        /// The checksum computed over the sector's body.
        found: u64,
    },
}

/// A compression algorithm configuration option.
#[derive(Clone, Copy, PartialEq, Eq, Structural, Debug)]
pub enum CompressionAlgorithm {
    /// Identity: compression disabled, pages are stored byte for byte.
    Identity,
    /// LZ4 block compression (no frame).
    Lz4,
}

/// The on-disk tag of a compression algorithm.
pub open spec fn spec_tag(algorithm: CompressionAlgorithm) -> u16 {
    match algorithm {
        CompressionAlgorithm::Identity => 0,
        CompressionAlgorithm::Lz4 => 1,
    }
}

/// Which algorithm (or which error) a stored tag decodes to.  Tags with the
/// top bit set are reserved for implementation-private extensions and are
/// rejected as unknown; any other unrecognised tag is invalid.
pub open spec fn spec_parse_tag(tag: u16) -> Result<CompressionAlgorithm, Error> {
    if tag == 0 {
        Ok(CompressionAlgorithm::Identity)
    } else if tag == 1 {
        Ok(CompressionAlgorithm::Lz4)
    } else if tag >= 0x8000 {
        Err(Error::UnknownCompressionAlgorithm)
    } else {
        Err(Error::InvalidCompressionAlgorithm)
    }
}

impl CompressionAlgorithm {
    /// The on-disk tag of the algorithm.
    pub fn tag(self) -> (r: u16)
        ensures
            r == spec_tag(self),
    {
        match self {
            CompressionAlgorithm::Identity => 0,
            CompressionAlgorithm::Lz4 => 1,
        }
    }

    /// Decode a stored tag.
    pub fn try_from(tag: u16) -> (r: Result<CompressionAlgorithm, Error>)
        ensures
            r == spec_parse_tag(tag),
    {
        if tag == 0 {
            Ok(CompressionAlgorithm::Identity)
        } else if tag == 1 {
            Ok(CompressionAlgorithm::Lz4)
        } else if tag >= 0x8000 {
            Err(Error::UnknownCompressionAlgorithm)
        } else {
            Err(Error::InvalidCompressionAlgorithm)
        }
    }
}

/// The state block of the file system.
#[derive(Clone, Copy, Debug)]
pub struct StateBlock {
    /// The chosen compression algorithm.
    pub compression_algorithm: CompressionAlgorithm,
    /// A pointer to the head metacluster of the freelist, or null.
    pub freelist_head: Option<Pointer>,
    /// A pointer to the superpage, or null.
    pub superpage: Option<Pointer>,
}

impl StateBlock {
    /// A state block is well formed when the pointers it holds are.
    pub open spec fn wf(self) -> bool {
        opt_wf(self.freelist_head) && opt_wf(self.superpage)
    }
}

impl PartialEq for StateBlock {
    fn eq(&self, other: &StateBlock) -> bool {
        let head_eq = match (self.freelist_head, other.freelist_head) {
            (None, None) => true,
            (Some(a), Some(b)) => a == b,
            _ => false,
        };
        let superpage_eq = match (self.superpage, other.superpage) {
            (None, None) => true,
            (Some(a), Some(b)) => a == b,
            _ => false,
        };
        self.compression_algorithm == other.compression_algorithm && head_eq && superpage_eq
    }
}

impl Eq for StateBlock {

}

impl vstd::std_specs::cmp::PartialEqSpecImpl for StateBlock {
    open spec fn obeys_eq_spec() -> bool {
        true
    }

    open spec fn eq_spec(&self, other: &StateBlock) -> bool {
        self.compression_algorithm == other.compression_algorithm
            && self.freelist_head == other.freelist_head && self.superpage == other.superpage
    }
}

impl Default for StateBlock {
    /// A fresh state block: no compression, null freelist head, null
    /// superpage.
    fn default() -> (r: StateBlock)
        ensures
            r.compression_algorithm == CompressionAlgorithm::Identity,
            r.freelist_head is None,
            r.superpage is None,
            r.wf(),
    {
        StateBlock {
            compression_algorithm: CompressionAlgorithm::Identity,
            freelist_head: None,
            superpage: None,
        }
    }
}

/// The body of an encoded state block: bytes `8..SECTOR` of the sector.
pub open spec fn spec_encode_body(block: StateBlock) -> Seq<u8> {
    spec_u16_to_le_bytes(spec_tag(block.compression_algorithm)) + zeros(6) + spec_u64_to_le_bytes(
        ptr_word(block.freelist_head),
    ) + spec_u64_to_le_bytes(ptr_word(block.superpage)) + zeros((SECTOR - 32) as nat)
}

/// The full encoded state block: the checksum of the body, then the body.
pub open spec fn spec_encode(block: StateBlock, algorithm: ChecksumAlgorithm) -> Seq<u8> {
    spec_u64_to_le_bytes(checksum_of(algorithm, spec_encode_body(block))) + spec_encode_body(block)
}

/// What decoding a sector yields: a checksum failure, a tag failure, or the
/// state block stored in it.
pub open spec fn spec_decode(buf: Seq<u8>, algorithm: ChecksumAlgorithm) -> Result<
    StateBlock,
    Error,
> {
    let expected = spec_u64_at(buf, 0);
    let found = checksum_of(algorithm, buf.subrange(8, SECTOR as int));
    if expected != found {
        Err(Error::ChecksumMismatch { expected, found })
    } else {
        match spec_parse_tag(spec_u16_at(buf, 8)) {
            Err(e) => Err(e),
            Ok(algo) => Ok(
                StateBlock {
                    compression_algorithm: algo,
                    freelist_head: Pointer::spec_new(spec_u64_at(buf, 16)),
                    superpage: Pointer::spec_new(spec_u64_at(buf, 24)),
                },
            ),
        }
    }
}

impl StateBlock {
    /// Encode the state block into a sector-sized buffer: the body is laid
    /// out at its fixed offsets and the checksum of the body is written at
    /// the front.
    pub fn encode(&self, algorithm: ChecksumAlgorithm) -> (r: Vec<u8>)
        ensures
            r@ == spec_encode(*self, algorithm),
            r@.len() == SECTOR,
    {
        let mut body: Vec<u8> = Vec::new();
        push_u16_le(&mut body, self.compression_algorithm.tag());
        push_zeros(&mut body, 6);
        push_u64_le(
            &mut body,
            match self.freelist_head {
                Some(p) => p.get(),
                None => 0,
            },
        );
        push_u64_le(
            &mut body,
            match self.superpage {
                Some(p) => p.get(),
                None => 0,
            },
        );
        push_zeros(&mut body, SECTOR - 32);
        proof {
            assert(body@ == spec_encode_body(*self));
        }
        let checksum = algorithm.hash(body.as_slice());
        let mut sector: Vec<u8> = Vec::new();
        push_u64_le(&mut sector, checksum);
        let mut tail = body;
        sector.append(&mut tail);
        proof {
            assert(sector@ == spec_encode(*self, algorithm));
        }
        sector
    }

    /// Parse a sector-sized buffer: verify the prefix checksum, decode the
    /// compression tag, and read the freelist-head and superpage pointers.
    pub fn decode(buf: &[u8], algorithm: ChecksumAlgorithm) -> (r: Result<StateBlock, Error>)
        requires
            buf@.len() == SECTOR,
        ensures
            r == spec_decode(buf@, algorithm),
            r matches Ok(block) ==> block.wf(),
    {
        let expected = read_u64_at(buf, 0);
        let body = vstd::slice::slice_subrange(buf, 8, SECTOR);
        let found = algorithm.hash(body);
        if expected != found {
            return Err(Error::ChecksumMismatch { expected, found });
        }
        let algo = match CompressionAlgorithm::try_from(read_u16_at(buf, 8)) {
            Ok(algo) => algo,
            Err(e) => {
                return Err(e);
            },
        };
        let block = StateBlock {
            compression_algorithm: algo,
            freelist_head: Pointer::new(read_u64_at(buf, 16)),
            superpage: Pointer::new(read_u64_at(buf, 24)),
        };
        Ok(block)
    }
}

/// Round trip: decoding an encoded well-formed state block yields the block
/// itself, whatever checksum algorithm is configured.
pub proof fn lemma_state_block_round_trip(block: StateBlock, algorithm: ChecksumAlgorithm)
    requires
        block.wf(),
    ensures
        spec_decode(spec_encode(block, algorithm), algorithm) == Ok::<StateBlock, Error>(block),
{
    vstd::bytes::lemma_auto_spec_u64_to_from_le_bytes();
    vstd::bytes::lemma_auto_spec_u16_to_from_le_bytes();
    let body = spec_encode_body(block);
    let s = spec_encode(block, algorithm);
    assert(body.len() == SECTOR - 8);
    assert(s.subrange(0, 8) == spec_u64_to_le_bytes(checksum_of(algorithm, body)));
    assert(s.subrange(8, SECTOR as int) == body);
    assert(spec_u64_at(s, 0) == checksum_of(algorithm, body));
    assert(body.subrange(0, 2) == spec_u16_to_le_bytes(spec_tag(block.compression_algorithm)));
    assert(s.subrange(8, 10) == body.subrange(0, 2));
    assert(spec_u16_at(s, 8) == spec_tag(block.compression_algorithm));
    assert(spec_parse_tag(spec_tag(block.compression_algorithm)) == Ok::<
        CompressionAlgorithm,
        Error,
    >(block.compression_algorithm));
    assert(s.subrange(16, 24) == body.subrange(8, 16));
    assert(body.subrange(8, 16) == spec_u64_to_le_bytes(ptr_word(block.freelist_head)));
    assert(s.subrange(24, 32) == body.subrange(16, 24));
    assert(body.subrange(16, 24) == spec_u64_to_le_bytes(ptr_word(block.superpage)));
    crate::cluster::lemma_ptr_word_new(block.freelist_head);
    crate::cluster::lemma_ptr_word_new(block.superpage);
}

/// Corruption detection: a sector whose stored checksum is unchanged but
/// whose body hashes differently from a decodable sector is rejected with a
/// checksum mismatch.  Detection is conditional on the checksums of the two
/// bodies differing, as any fixed-width checksum admits collisions.
pub proof fn lemma_state_block_corruption(
    good: Seq<u8>,
    bad: Seq<u8>,
    algorithm: ChecksumAlgorithm,
)
    requires
        good.len() == SECTOR,
        bad.len() == SECTOR,
        spec_decode(good, algorithm) is Ok,
        bad.subrange(0, 8) == good.subrange(0, 8),
        checksum_of(algorithm, bad.subrange(8, SECTOR as int)) != checksum_of(
            algorithm,
            good.subrange(8, SECTOR as int),
        ),
    ensures
        spec_decode(bad, algorithm) matches Err(e)
            && e matches Error::ChecksumMismatch { expected, found }
            && expected == spec_u64_at(bad, 0)
            && found == checksum_of(algorithm, bad.subrange(8, SECTOR as int)),
{
    assert(bad.subrange(0, 8) == good.subrange(0, 8));
    assert(spec_u64_at(bad, 0) == spec_u64_at(good, 0));
}

} // verus!
