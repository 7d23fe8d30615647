//! Resolving related data sources.

pub mod path;
pub mod source_resolver;

pub use path::{sanitize_relative_path, PathComponent};
pub use source_resolver::{SharedSourceResolver, SourceResolver, SourceResolverReference};
