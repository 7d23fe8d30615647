//! File systems.

pub mod ext;
pub mod extents;
pub mod fat;
pub mod hfs;
pub mod names;
pub mod ntfs;
pub mod path;
pub mod visited;
pub mod xfs;

pub use ext::{ExtFileEntry, ExtFileSystem};
pub use fat::{FatFileEntry, FatFileSystem, FatFormat};
pub use hfs::{HfsFileEntry, HfsFileSystem, HfsFormat};
pub use ntfs::{NtfsFileEntry, NtfsFileSystem};
pub use xfs::{XfsFileEntry, XfsFileSystem};
