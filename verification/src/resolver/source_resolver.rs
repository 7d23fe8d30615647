//! Resolvers of sibling or related data sources.

use std::sync::Arc;

use vstd::prelude::*;

use crate::error::DriverError;
use crate::source::data_source::{DataSource, DataSourceReference};

verus! {

/// Resolver for sibling or related data sources.
///
/// What a resolver gives access to is taken not to change while the resolver is in use: two
/// requests with one path that both succeed are answered with the same source. Nothing is said of a
/// resolver of files that others write to.
pub trait SourceResolver: Send + Sync {
    /// The data source with a relative path, if there is one, or why the path cannot be resolved.
    open spec fn entry(&self, relative_path: Seq<char>) -> Result<
        Option<DataSourceReference>,
        DriverError,
    > {
        arbitrary()
    }

    /// Whether every request that can be resolved succeeds.
    open spec fn reliable(&self) -> bool {
        false
    }

    /// Opens a source by logical relative path.
    fn open_source(&self, relative_path: &str) -> (result: Result<
        Option<DataSourceReference>,
        DriverError,
    >)
        ensures
            match result {
                Ok(source) => self.entry(relative_path@) == Ok::<
                    Option<DataSourceReference>,
                    DriverError,
                >(source),
                Err(error) => self.reliable() ==> self.entry(relative_path@) == Err::<
                    Option<DataSourceReference>,
                    DriverError,
                >(error),
            },
    ;
}

/// Whether the resolver and the sources that it resolves do not fail.
pub open spec fn never_fails(resolver: SourceResolverReference) -> bool {
    &&& resolver.reliable()
    &&& forall|path: Seq<char>|
        match #[trigger] resolver.entry(path) {
            Ok(Some(source)) => source.reliable(),
            _ => true,
        }
}

/// Owner of a source resolver of any type.
pub struct SharedSourceResolver {
    /// The source resolver.
    pub inner: Box<dyn SourceResolver>,
}

/// Shared source resolver reference.
pub type SourceResolverReference = Arc<SharedSourceResolver>;

impl SourceResolver for SharedSourceResolver {
    open spec fn entry(&self, relative_path: Seq<char>) -> Result<
        Option<DataSourceReference>,
        DriverError,
    > {
        self.inner.entry(relative_path)
    }

    open spec fn reliable(&self) -> bool {
        self.inner.reliable()
    }

    fn open_source(&self, relative_path: &str) -> (result: Result<
        Option<DataSourceReference>,
        DriverError,
    >) {
        self.inner.open_source(relative_path)
    }
}

} // verus!
