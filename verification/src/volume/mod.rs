//! Volume systems.

pub mod apm;
pub mod attempts;
pub mod gpt;
pub mod mbr;

pub use apm::{ApmPartition, ApmVolumeSystem};
pub use gpt::{GptPartition, GptVolumeSystem};
pub use mbr::{MbrPartition, MbrVolumeSystem};
