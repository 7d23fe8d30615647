//! Immutable positioned-read data sources.

pub mod capabilities;
pub mod cursor;
pub mod data_source;
pub mod extent_map;
pub mod memory;
pub mod observed;
pub mod probe_cache;
pub mod segmented;
pub mod slice;

pub use capabilities::{
    DataSourceCapabilities, DataSourceReadConcurrency, DataSourceSeekCost,
};
pub use cursor::{DataSourceCursor, SeekFrom};
pub use data_source::{Content, DataSource, DataSourceReference, SharedDataSource};
pub use extent_map::{ExtentMapDataSource, ExtentMapEntry, ExtentMapTarget};
pub use memory::MemoryDataSource;
pub use observed::{
    DataSourceReadStats, DataSourceReadStatsSnapshot, DataSourceReadStatsState, ObservedDataSource,
};
pub use probe_cache::ProbeCachedDataSource;
pub use segmented::{SegmentedDataSource, SegmentedSourceSegment};
pub use slice::SliceDataSource;
