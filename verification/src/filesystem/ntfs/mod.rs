//! NTFS file system.

pub mod attribute;
pub mod boot_record;
pub mod data_run;
pub mod file_system;
pub mod fixup;
pub mod index;
pub mod stored_index;

pub use file_system::{NtfsFileEntry, NtfsFileSystem};
