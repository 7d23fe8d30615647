//! HFS, HFS+ and HFSX file systems.

pub mod btree;
pub mod catalog;
pub mod file_system;
pub mod fork;

pub use file_system::{HfsFileEntry, HfsFileSystem};
pub use fork::HfsFormat;
