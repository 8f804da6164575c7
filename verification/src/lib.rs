//! Page manager of a single-node file system.
//!
//! The crate sits above a sector-addressable block device and below every
//! higher-level structure.  It allocates and frees fixed-size logical pages
//! on top of disk clusters, packs several pages into one cluster through
//! online compression probing, keeps a persistent freelist of free clusters,
//! and exposes a transactional pipeline whose queued writes are committed or
//! reverted atomically.

pub mod checksum;
pub mod cluster;
pub mod codec;
pub mod disk;
pub mod pages;
pub mod state_block;
