//! FAT file systems.

pub mod allocation_table;
pub mod boot_record;
pub mod directory;
pub mod file_system;

pub use boot_record::FatFormat;
pub use file_system::{FatFileEntry, FatFileSystem};
