//! Page manager tests: freelist protocol, packing, transactions.

use tfs_pages::checksum::ChecksumAlgorithm;
use tfs_pages::cluster::Pointer;
use tfs_pages::disk::Disk;
use tfs_pages::pages::{decode_metacluster, encode_metacluster, Error, Manager, PagePointer};
use tfs_pages::state_block::{CompressionAlgorithm, StateBlock};

fn ca() -> ChecksumAlgorithm {
    ChecksumAlgorithm::SeaHash
}

fn ptr(x: u64) -> Pointer {
    Pointer::new(x).unwrap()
}

/// A device of `n` sectors holding a state block at sector zero and, when
/// `head` is non-null, a metacluster with the given chain and entries.
fn image(
    n: usize,
    compression: CompressionAlgorithm,
    head: u64,
    chain: Option<Pointer>,
    entries: Vec<Pointer>,
) -> Disk {
    let mut disk = Disk::new(n);
    let block = StateBlock {
        compression_algorithm: compression,
        freelist_head: Pointer::new(head),
        superpage: None,
    };
    disk.queue(0, block.encode(ca())).unwrap();
    if head != 0 {
        disk.queue(head, encode_metacluster(ca(), chain, &entries)).unwrap();
    }
    disk.commit();
    disk
}

fn manager(
    n: usize,
    compression: CompressionAlgorithm,
    head: u64,
    chain: Option<Pointer>,
    entries: Vec<Pointer>,
) -> Manager {
    Manager::open(image(n, compression, head, chain, entries), ca(), false).unwrap()
}

#[test]
fn pop_is_lifo() {
    let mut m = manager(
        16,
        CompressionAlgorithm::Identity,
        10,
        None,
        vec![ptr(3), ptr(4), ptr(5)],
    );
    let before = m.pending_writes();
    assert_eq!(m.queue_freelist_pop().unwrap(), ptr(5));
    assert_eq!(m.freelist_len(), 2);
    assert_eq!(m.pending_writes(), before + 1);
    assert_eq!(m.queue_freelist_pop().unwrap(), ptr(4));
    assert_eq!(m.queue_freelist_pop().unwrap(), ptr(3));
    assert!(matches!(m.queue_freelist_pop(), Err(Error::OutOfClusters)));
}

#[test]
fn push_then_pop_balances() {
    let mut m = manager(16, CompressionAlgorithm::Identity, 10, None, vec![]);
    m.queue_freelist_push(ptr(5));
    m.queue_freelist_push(ptr(6));
    m.queue_freelist_push(ptr(7));
    assert_eq!(m.freelist_len(), 3);
    assert_eq!(m.queue_freelist_pop().unwrap(), ptr(7));
    assert_eq!(m.queue_freelist_pop().unwrap(), ptr(6));
    assert_eq!(m.queue_freelist_pop().unwrap(), ptr(5));
    assert_eq!(m.freelist_len(), 0);
}

#[test]
fn chain_rotation_pop() {
    let mut disk = Disk::new(16);
    let block = StateBlock {
        compression_algorithm: CompressionAlgorithm::Identity,
        freelist_head: Pointer::new(10),
        superpage: None,
    };
    disk.queue(0, block.encode(ca())).unwrap();
    // The head holds only a chain link to cluster 9, which holds [7].
    disk.queue(10, encode_metacluster(ca(), Pointer::new(9), &vec![])).unwrap();
    disk.queue(9, encode_metacluster(ca(), None, &vec![ptr(7)])).unwrap();
    disk.commit();
    let mut m = Manager::open(disk, ca(), false).unwrap();
    let before = m.pending_writes();
    // The exhausted head cluster itself is handed out, and the chained
    // metacluster becomes the new head.
    assert_eq!(m.queue_freelist_pop().unwrap(), ptr(10));
    assert_eq!(m.freelist_head(), Pointer::new(9));
    assert_eq!(m.pending_writes(), before + 1);
    assert_eq!(m.queue_freelist_pop().unwrap(), ptr(7));
}

#[test]
fn chain_rotation_push() {
    let mut m = manager(90, CompressionAlgorithm::Identity, 10, None, vec![]);
    // Push one pointer more than a metacluster holds: the last push starts
    // a second metacluster whose head links to the previous head.
    for x in 11..75 {
        m.queue_freelist_push(ptr(x));
    }
    assert_eq!(m.freelist_head(), Pointer::new(73));
    assert_eq!(m.chain_link(), Pointer::new(10));
    assert_eq!(m.freelist_len(), 1);
    m.commit();
    let sector = m.read_sector(73).unwrap();
    let (chain, entries) = decode_metacluster(&sector, ca()).unwrap();
    assert_eq!(chain, Pointer::new(10));
    assert_eq!(entries, vec![ptr(74)]);
}

#[test]
fn packing_identity() {
    let mut m = manager(
        16,
        CompressionAlgorithm::Identity,
        10,
        None,
        vec![ptr(3), ptr(4), ptr(5)],
    );
    // Two half pages share one cluster; a full page no longer fits and
    // triggers exactly one freelist pop.
    let a = m.queue_alloc(&[0xAA; 251]).unwrap();
    assert_eq!(a.cluster, ptr(5));
    assert_eq!(m.freelist_len(), 2);
    let mid = m.pending_writes();
    let b = m.queue_alloc(&[0xBB; 251]).unwrap();
    assert_eq!(b.cluster, a.cluster);
    assert_eq!(m.freelist_len(), 2);
    // A fitting allocation queues exactly one cluster write.
    assert_eq!(m.pending_writes(), mid + 1);
    let c = m.queue_alloc(&[0xCC; 504]).unwrap();
    // A non-fitting allocation queues the pop's head flush and one write
    // of the fresh cluster.
    assert_eq!(m.pending_writes(), mid + 3);
    assert_ne!(c.cluster, a.cluster);
    assert_eq!(c.cluster, ptr(4));
    assert_eq!(m.freelist_len(), 1);
    m.commit();
    assert_eq!(m.read(a).unwrap(), vec![0xAA; 251]);
    assert_eq!(m.read(b).unwrap(), vec![0xBB; 251]);
    assert_eq!(m.read(c).unwrap(), vec![0xCC; 504]);
}

#[test]
fn packing_lz4() {
    let mut m = manager(
        16,
        CompressionAlgorithm::Lz4,
        10,
        None,
        vec![ptr(3), ptr(4), ptr(5)],
    );
    // 800 raw bytes exceed a sector, but compress far below one: both
    // pages share a cluster, and only one pop happened.
    let a = m.queue_alloc(&[7u8; 400]).unwrap();
    let b = m.queue_alloc(&[7u8; 400]).unwrap();
    assert_eq!(a.cluster, b.cluster);
    assert_eq!(m.freelist_len(), 2);
    assert_eq!(m.read(a).unwrap(), vec![7u8; 400]);
    assert_eq!(m.read(b).unwrap(), vec![7u8; 400]);
}

#[test]
fn revert_discards_and_replays() {
    let mut m = manager(
        16,
        CompressionAlgorithm::Identity,
        10,
        None,
        vec![ptr(3), ptr(4), ptr(5)],
    );
    m.commit();
    let a1 = m.queue_alloc(&[1, 2, 3]).unwrap();
    let _b = m.queue_alloc(&[4, 5]).unwrap();
    m.revert();
    // No write of the discarded allocations is visible on the device.
    assert_eq!(m.pending_writes(), 0);
    let sector = m.read_sector(5).unwrap();
    assert!(sector.iter().all(|&x| x == 0));
    // The next identical allocation produces the same page pointer.
    let a2 = m.queue_alloc(&[1, 2, 3]).unwrap();
    assert_eq!(a1, a2);
}

#[test]
fn commit_makes_reads_durable() {
    let mut m = manager(
        16,
        CompressionAlgorithm::Identity,
        10,
        None,
        vec![ptr(3), ptr(4), ptr(5)],
    );
    let a = m.queue_alloc(&[9u8; 100]).unwrap();
    let before = m.read(a).unwrap();
    m.commit();
    assert_eq!(m.pending_writes(), 0);
    assert_eq!(m.read(a).unwrap(), before);
    assert_eq!(m.read(a).unwrap(), vec![9u8; 100]);
}

#[test]
fn free_returns_cluster_when_empty() {
    let mut m = manager(
        16,
        CompressionAlgorithm::Identity,
        10,
        None,
        vec![ptr(3), ptr(4), ptr(5)],
    );
    let a = m.queue_alloc(&[1u8; 100]).unwrap();
    let b = m.queue_alloc(&[2u8; 100]).unwrap();
    assert_eq!(a.cluster, b.cluster);
    assert_eq!(m.freelist_len(), 2);
    m.queue_free(a);
    // Cluster 5 still holds a live page.
    assert_eq!(m.freelist_len(), 2);
    m.queue_free(b);
    // The cluster is free again and packing starts afresh.
    assert_eq!(m.freelist_len(), 3);
    assert_eq!(m.last_cluster(), None);
}

#[test]
fn security_zeroes_freed_clusters() {
    let mut disk = image(16, CompressionAlgorithm::Identity, 10, None, vec![]);
    disk.queue(11, vec![0xAB; 512]).unwrap();
    disk.commit();
    let mut m = Manager::open(disk, ca(), true).unwrap();
    let before = m.pending_writes();
    m.queue_freelist_push(ptr(11));
    // A zeroing write for the cluster, then the head flush.
    assert_eq!(m.pending_writes(), before + 2);
    m.commit();
    let sector = m.read_sector(11).unwrap();
    assert!(sector.iter().all(|&x| x == 0));
}

#[test]
fn read_checksum_mismatch() {
    let mut disk = image(16, CompressionAlgorithm::Identity, 10, None, vec![]);
    let body = [0u8; 510];
    let checksum = (seahash::hash(&body) & 0x7fff) as u16;
    // Store a wrong truncated checksum with the compression flag clear.
    let word = (checksum ^ 1) << 1;
    let mut sector = word.to_le_bytes().to_vec();
    sector.extend_from_slice(&body);
    disk.queue(5, sector).unwrap();
    disk.commit();
    let m = Manager::open(disk, ca(), false).unwrap();
    let page = PagePointer { cluster: ptr(5), offset: 0, len: 10 };
    assert!(matches!(
        m.read(page),
        Err(Error::ChecksumMismatch { .. })
    ));
}

#[test]
fn read_invalid_compression() {
    let mut disk = image(16, CompressionAlgorithm::Lz4, 10, None, vec![]);
    let body = [0xFF; 510];
    let checksum = (seahash::hash(&body) & 0x7fff) as u16;
    // A correct checksum with the compression flag set, over bytes that
    // are no LZ4 stream.
    let word = (checksum << 1) | 1;
    let mut sector = word.to_le_bytes().to_vec();
    sector.extend_from_slice(&body);
    disk.queue(5, sector).unwrap();
    disk.commit();
    let m = Manager::open(disk, ca(), false).unwrap();
    let page = PagePointer { cluster: ptr(5), offset: 0, len: 10 };
    assert!(matches!(m.read(page), Err(Error::InvalidCompression { .. })));
}

#[test]
fn read_beyond_device_is_a_disk_error() {
    let m = manager(16, CompressionAlgorithm::Identity, 10, None, vec![]);
    let page = PagePointer { cluster: ptr(99), offset: 0, len: 1 };
    assert!(matches!(m.read(page), Err(Error::Disk { .. })));
}

#[test]
fn open_rejects_corrupt_state_block() {
    let disk = Disk::new(4);
    assert!(matches!(
        Manager::open(disk, ca(), false),
        Err(Error::StateBlock { .. })
    ));
}

#[test]
fn pop_rejects_corrupt_chained_metacluster() {
    let mut disk = Disk::new(16);
    let block = StateBlock {
        compression_algorithm: CompressionAlgorithm::Identity,
        freelist_head: Pointer::new(10),
        superpage: None,
    };
    disk.queue(0, block.encode(ca())).unwrap();
    // The head links to cluster 9, which was never written: its checksum
    // cannot verify.
    disk.queue(10, encode_metacluster(ca(), Pointer::new(9), &vec![])).unwrap();
    disk.commit();
    let mut m = Manager::open(disk, ca(), false).unwrap();
    assert!(matches!(
        m.queue_freelist_pop(),
        Err(Error::ChecksumMismatch { .. })
    ));
}

#[test]
fn pop_rejects_duplicated_freelist_pointers() {
    let mut disk = Disk::new(16);
    let block = StateBlock {
        compression_algorithm: CompressionAlgorithm::Identity,
        freelist_head: Pointer::new(10),
        superpage: None,
    };
    disk.queue(0, block.encode(ca())).unwrap();
    disk.queue(10, encode_metacluster(ca(), Pointer::new(9), &vec![])).unwrap();
    // A metacluster offering the same cluster twice would break allocation
    // uniqueness; the manager refuses to install it.
    disk.queue(9, encode_metacluster(ca(), None, &vec![ptr(7), ptr(7)])).unwrap();
    disk.commit();
    let mut m = Manager::open(disk, ca(), false).unwrap();
    assert!(matches!(m.queue_freelist_pop(), Err(Error::Disk { .. })));
}

#[test]
fn codec_round_trip() {
    let data: Vec<u8> = (0..200).map(|x| (x % 7) as u8).collect();
    let m = manager(16, CompressionAlgorithm::Lz4, 10, None, vec![]);
    let packed = m.compress(&data);
    assert_ne!(packed, data);
    assert_eq!(m.decompress(&packed).unwrap(), data);
    let m2 = manager(16, CompressionAlgorithm::Identity, 10, None, vec![]);
    assert_eq!(m2.compress(&data), data);
    assert_eq!(m2.decompress(&data).unwrap(), data);
}

#[test]
fn alloc_without_clusters_fails() {
    let mut m = manager(16, CompressionAlgorithm::Identity, 10, None, vec![]);
    assert!(matches!(
        m.queue_alloc(&[1, 2, 3]),
        Err(Error::OutOfClusters)
    ));
}
