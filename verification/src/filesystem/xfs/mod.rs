//! XFS file system.

pub mod directory;
pub mod file_system;
pub mod inode;
pub mod inode_table;
pub mod superblock;

pub use file_system::{XfsFileEntry, XfsFileSystem};
