//! Storage media image formats.

pub mod block_map;
pub mod block_table;
pub mod ewf;
pub mod extent_list;
pub mod packed;
pub mod pdi;
pub mod qcow;
pub mod sector_bitmap;
pub mod sparsebundle;
pub mod sparseimage;
pub mod splitraw;
pub mod udif;
pub mod vhd;
pub mod vhdx;
pub mod vmdk;

pub use block_map::{
    is_layered_medium, is_medium, lemma_block_index, lemma_media_content_same, BlockMap,
};
pub use ewf::{EwfImage, EwfMediaType};
pub use pdi::{PdiImage, PdiImageLayer};
pub use qcow::{QcowCompressionMethod, QcowEncryptionMethod, QcowFile};
pub use sparsebundle::SparseBundleImage;
pub use sparseimage::SparseImageFile;
pub use splitraw::SplitRawImage;
pub use udif::{UdifCompressionMethod, UdifFile};
pub use vhd::{VhdDiskType, VhdFile};
pub use vhdx::VhdxFile;
pub use vmdk::{VmdkCompressionMethod, VmdkDiskType, VmdkFile};
