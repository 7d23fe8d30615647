//! Parallels Disk Image (PDI) images.

pub mod descriptor;
pub mod image;
pub mod layers;
pub mod sparse;

pub use image::{PdiImage, PdiImageLayer};
