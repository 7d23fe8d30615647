//! Verified readers for disk images, volume systems and file systems.
//!
//! Every reader works on an immutable positioned-read [`DataSource`], whose contents are
//! modelled by a [`Content`]. The contracts say what each reader returns for a given content.

pub mod bytes;
pub mod bzip2_blocks;
pub mod checks;
pub mod checksum;
pub mod compression;
pub mod encoding;
pub mod error;
pub mod filesystem;
pub mod format_identifier;
pub mod image;
pub mod lzfse_blocks;
pub mod powers;
pub mod recognized;
pub mod resolver;
pub mod scan;
pub mod scanner;
pub mod signature_scan;
pub mod source;
pub mod text;
pub mod uuid;
pub mod volume;

pub use error::DriverError;
pub use resolver::{SharedSourceResolver, SourceResolver, SourceResolverReference};
pub use source::{
    Content, DataSource, DataSourceCapabilities, DataSourceCursor, DataSourceReadConcurrency,
    DataSourceReadStats, DataSourceReadStatsSnapshot, DataSourceReference, DataSourceSeekCost,
    ExtentMapDataSource, ExtentMapEntry, ExtentMapTarget, MemoryDataSource, ObservedDataSource,
    ProbeCachedDataSource, SegmentedDataSource, SegmentedSourceSegment, SharedDataSource,
    SliceDataSource,
};
pub use volume::{MbrPartition, MbrVolumeSystem};
