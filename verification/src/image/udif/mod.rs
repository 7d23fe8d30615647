//! Universal Disk Image Format (UDIF) files (.dmg).

pub mod block_table;
pub mod file;

pub use file::{UdifCompressionMethod, UdifFile};
