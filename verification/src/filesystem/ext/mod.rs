//! Ext file systems.

pub mod blocks;
pub mod directory;
pub mod file_system;
pub mod inode;
pub mod places;
pub mod superblock;

pub use file_system::{ExtFileEntry, ExtFileSystem};
