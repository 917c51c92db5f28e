//! The file system as the kernel sees it.
pub mod dir;
pub mod inode;
