//! Easy file system: bitmaps, block cache, on-disk layout.

pub mod config;
pub mod bitmap;
pub mod block_dev;
pub mod block_cache;
pub mod layout;
pub mod inode_growth;
pub mod efs;
pub mod vfs;
