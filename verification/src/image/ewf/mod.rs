//! Expert Witness Compression Format (EWF) images.

pub mod builder;
pub mod file;
pub mod naming;
pub mod section;
pub mod table;

pub use file::EwfImage;
pub use table::EwfMediaType;
