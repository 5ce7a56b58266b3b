//! A small inode-based filesystem on a raw block device, verified with Verus.
//!
//! The crate is layered, leaves first: the block device interface and an
//! in-memory device, a bounded write-back block cache, the allocation
//! bitmaps, the on-disk inode with its block-pointer chain, directory
//! records, the transaction protocol, the filesystem itself, and the node
//! handle through which files and the root directory are used.

pub mod layout;
pub mod block_dev;
pub mod block_cache;
pub mod bitmap;
pub mod disk_inode;
pub mod journal;
pub mod dirent;
pub mod efs;
pub mod path;
pub mod vfs;
pub mod laws;
