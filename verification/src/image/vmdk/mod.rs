//! VMware Virtual Disk (VMDK) images.

pub mod cowd;
pub mod descriptor;
pub mod file;
pub mod grain;
pub mod sparse;

pub use descriptor::VmdkDiskType;
pub use file::{VmdkCompressionMethod, VmdkFile};
