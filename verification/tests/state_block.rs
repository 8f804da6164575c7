//! State-block codec tests.

use tfs_pages::checksum::ChecksumAlgorithm;
use tfs_pages::cluster::Pointer;
use tfs_pages::state_block::{CompressionAlgorithm, Error, StateBlock};

fn ca() -> ChecksumAlgorithm {
    ChecksumAlgorithm::SeaHash
}

fn fix_checksum(sector: &mut Vec<u8>) {
    let h = seahash::hash(&sector[8..]);
    sector[0..8].copy_from_slice(&h.to_le_bytes());
}

#[test]
fn inverse_identity() {
    let mut block = StateBlock::default();
    assert_eq!(StateBlock::decode(&block.encode(ca()), ca()).unwrap(), block);

    block.compression_algorithm = CompressionAlgorithm::Identity;
    assert_eq!(StateBlock::decode(&block.encode(ca()), ca()).unwrap(), block);

    block.freelist_head = Pointer::new(2000);
    assert_eq!(StateBlock::decode(&block.encode(ca()), ca()).unwrap(), block);

    block.superpage = Pointer::new(200);
    assert_eq!(StateBlock::decode(&block.encode(ca()), ca()).unwrap(), block);
}

#[test]
fn manual_mutation() {
    let mut block = StateBlock::default();
    let mut sector = block.encode(ca());

    block.compression_algorithm = CompressionAlgorithm::Identity;
    sector[9] = 0;
    fix_checksum(&mut sector);
    assert_eq!(sector, block.encode(ca()));

    block.freelist_head = Pointer::new(52);
    sector[16] = 52;
    fix_checksum(&mut sector);
    assert_eq!(sector, block.encode(ca()));

    block.superpage = Pointer::new(29);
    sector[24] = 29;
    fix_checksum(&mut sector);
    assert_eq!(sector, block.encode(ca()));
}

#[test]
fn mismatching_checksum() {
    let mut sector = StateBlock::default().encode(ca());
    sector[2] = 20;
    assert!(matches!(
        StateBlock::decode(&sector, ca()),
        Err(Error::ChecksumMismatch { .. })
    ));
}

#[test]
fn unknown_invalid_options() {
    let mut sector = StateBlock::default().encode(ca());

    sector = StateBlock::default().encode(ca());

    sector[8] = 0xFF;
    fix_checksum(&mut sector);
    assert!(matches!(
        StateBlock::decode(&sector, ca()),
        Err(Error::InvalidCompressionAlgorithm)
    ));
    sector[9] = 0xFF;
    fix_checksum(&mut sector);
    assert!(matches!(
        StateBlock::decode(&sector, ca()),
        Err(Error::UnknownCompressionAlgorithm)
    ));
}

#[test]
fn concrete_round_trip() {
    let block = StateBlock {
        compression_algorithm: CompressionAlgorithm::Identity,
        freelist_head: Pointer::new(1),
        superpage: Pointer::new(2),
    };
    assert_eq!(StateBlock::decode(&block.encode(ca()), ca()).unwrap(), block);
}

#[test]
fn checksum_prefix_is_seahash_of_body() {
    let block = StateBlock {
        compression_algorithm: CompressionAlgorithm::Lz4,
        freelist_head: Pointer::new(77),
        superpage: None,
    };
    let sector = block.encode(ca());
    assert_eq!(sector.len(), 512);
    let h = seahash::hash(&sector[8..]);
    assert_eq!(&sector[0..8], &h.to_le_bytes());
    assert_eq!(sector[8], 1);
    assert_eq!(sector[16], 77);
}

#[test]
fn tag_parsing() {
    assert_eq!(
        CompressionAlgorithm::try_from(0).unwrap(),
        CompressionAlgorithm::Identity
    );
    assert_eq!(
        CompressionAlgorithm::try_from(1).unwrap(),
        CompressionAlgorithm::Lz4
    );
    assert!(matches!(
        CompressionAlgorithm::try_from(2),
        Err(Error::InvalidCompressionAlgorithm)
    ));
    assert!(matches!(
        CompressionAlgorithm::try_from(1 << 15),
        Err(Error::UnknownCompressionAlgorithm)
    ));
    assert!(matches!(
        CompressionAlgorithm::try_from(0xFFFF),
        Err(Error::UnknownCompressionAlgorithm)
    ));
}
