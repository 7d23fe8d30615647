use vstd::prelude::*;

verus! {

/// Describes how a data source behaves under parallel reads.
#[derive(Clone, Copy, Debug, PartialEq, Eq, Structural)]
pub enum DataSourceReadConcurrency {
    /// The implementation cannot describe its current behavior yet.
    Unknown,

    /// Reads are serialized by the implementation.
    Serialized,

    /// Reads can proceed independently at different offsets.
    Concurrent,
}

/// Describes the cost of issuing positioned reads.
#[derive(Clone, Copy, Debug, PartialEq, Eq, Structural)]
pub enum DataSourceSeekCost {
    /// The implementation cannot describe the current behavior yet.
    Unknown,

    /// Positioned reads are cheap relative to the surrounding workload.
    Cheap,

    /// Positioned reads are more expensive and should influence scheduling.
    Expensive,
}

/// Describes the current backend characteristics of a data source.
#[derive(Clone, Copy, Debug, PartialEq, Eq)]
pub struct DataSourceCapabilities {
    /// Whether this implementation can serve concurrent reads efficiently.
    pub read_concurrency: DataSourceReadConcurrency,

    /// The current positioned-read cost profile.
    pub seek_cost: DataSourceSeekCost,

    /// The preferred logical chunk size for higher-level callers.
    pub preferred_chunk_size: Option<usize>,
}

/// The capabilities of which nothing is known.
pub open spec fn unknown_capabilities() -> DataSourceCapabilities {
    DataSourceCapabilities {
        read_concurrency: DataSourceReadConcurrency::Unknown,
        seek_cost: DataSourceSeekCost::Unknown,
        preferred_chunk_size: None,
    }
}

/// The capabilities of a source with concurrent reads at cheap cost.
pub open spec fn concurrent_cheap_capabilities() -> DataSourceCapabilities {
    DataSourceCapabilities {
        read_concurrency: DataSourceReadConcurrency::Concurrent,
        seek_cost: DataSourceSeekCost::Cheap,
        preferred_chunk_size: None,
    }
}

impl DataSourceCapabilities {
    /// Creates a new set of capabilities.
    pub fn new(
        read_concurrency: DataSourceReadConcurrency,
        seek_cost: DataSourceSeekCost,
    ) -> (capabilities: Self)
        ensures
            capabilities == (DataSourceCapabilities {
                read_concurrency,
                seek_cost,
                preferred_chunk_size: None,
            }),
    {
        Self { read_concurrency, seek_cost, preferred_chunk_size: None }
    }

    /// Creates a new set of capabilities for a serialized data source.
    pub fn serialized(seek_cost: DataSourceSeekCost) -> (capabilities: Self)
        ensures
            capabilities == (DataSourceCapabilities {
                read_concurrency: DataSourceReadConcurrency::Serialized,
                seek_cost,
                preferred_chunk_size: None,
            }),
    {
        Self::new(DataSourceReadConcurrency::Serialized, seek_cost)
    }

    /// Creates a new set of capabilities for a concurrent data source.
    pub fn concurrent(seek_cost: DataSourceSeekCost) -> (capabilities: Self)
        ensures
            capabilities == (DataSourceCapabilities {
                read_concurrency: DataSourceReadConcurrency::Concurrent,
                seek_cost,
                preferred_chunk_size: None,
            }),
    {
        Self::new(DataSourceReadConcurrency::Concurrent, seek_cost)
    }

    /// Sets the preferred logical chunk size.
    pub fn with_preferred_chunk_size(self, preferred_chunk_size: usize) -> (capabilities: Self)
        ensures
            capabilities == (DataSourceCapabilities {
                read_concurrency: self.read_concurrency,
                seek_cost: self.seek_cost,
                preferred_chunk_size: Some(preferred_chunk_size),
            }),
    {
        Self {
            read_concurrency: self.read_concurrency,
            seek_cost: self.seek_cost,
            preferred_chunk_size: Some(preferred_chunk_size),
        }
    }
}

impl Default for DataSourceCapabilities {
    fn default() -> (capabilities: Self)
        ensures
            capabilities == unknown_capabilities(),
    {
        Self::new(DataSourceReadConcurrency::Unknown, DataSourceSeekCost::Unknown)
    }
}

/// The concurrency of reads that go to both of two sources.
pub open spec fn join_concurrency(
    a: DataSourceReadConcurrency,
    b: DataSourceReadConcurrency,
) -> DataSourceReadConcurrency {
    if a is Serialized || b is Serialized {
        DataSourceReadConcurrency::Serialized
    } else if a is Unknown || b is Unknown {
        DataSourceReadConcurrency::Unknown
    } else {
        DataSourceReadConcurrency::Concurrent
    }
}

/// The seek cost of reads that go to both of two sources.
pub open spec fn join_seek_cost(a: DataSourceSeekCost, b: DataSourceSeekCost) -> DataSourceSeekCost {
    if a is Expensive || b is Expensive {
        DataSourceSeekCost::Expensive
    } else if a is Unknown || b is Unknown {
        DataSourceSeekCost::Unknown
    } else {
        DataSourceSeekCost::Cheap
    }
}

/// The chunk size preferred by two sources together, where they agree.
pub open spec fn join_chunk_size(a: Option<usize>, b: Option<usize>) -> Option<usize> {
    match (a, b) {
        (Some(x), Some(y)) => if x == y {
            Some(x)
        } else {
            None
        },
        (None, _) => b,
        (_, None) => a,
    }
}

/// The capabilities of reads that go to both of two sources.
pub open spec fn join_capabilities(
    a: DataSourceCapabilities,
    b: DataSourceCapabilities,
) -> DataSourceCapabilities {
    DataSourceCapabilities {
        read_concurrency: join_concurrency(a.read_concurrency, b.read_concurrency),
        seek_cost: join_seek_cost(a.seek_cost, b.seek_cost),
        preferred_chunk_size: join_chunk_size(a.preferred_chunk_size, b.preferred_chunk_size),
    }
}

/// The capabilities of reads that go to all of the listed sources, joined from the left.
pub open spec fn combined_capabilities(list: Seq<DataSourceCapabilities>) -> DataSourceCapabilities
    decreases list.len(),
{
    if list.len() == 0 {
        unknown_capabilities()
    } else if list.len() == 1 {
        list[0]
    } else {
        join_capabilities(combined_capabilities(list.drop_last()), list.last())
    }
}

/// Joining the capabilities of a source with themselves changes nothing.
pub proof fn lemma_join_capabilities_idempotent(a: DataSourceCapabilities)
    ensures
        join_capabilities(a, a) == a,
{
}

/// The order in which two sources are joined does not matter.
pub proof fn lemma_join_capabilities_commutative(
    a: DataSourceCapabilities,
    b: DataSourceCapabilities,
)
    ensures
        join_capabilities(a, b) == join_capabilities(b, a),
{
}

/// Sources that all have the same capabilities have them together.
pub proof fn lemma_combined_capabilities_uniform(
    list: Seq<DataSourceCapabilities>,
    a: DataSourceCapabilities,
)
    requires
        list.len() > 0,
        forall|i: int| 0 <= i < list.len() ==> list[i] == a,
    ensures
        combined_capabilities(list) == a,
    decreases list.len(),
{
    if list.len() > 1 {
        lemma_combined_capabilities_uniform(list.drop_last(), a);
        lemma_join_capabilities_idempotent(a);
    }
}

/// Combines the capabilities of data sources that are read together.
pub fn combine_data_source_capabilities(list: &[DataSourceCapabilities]) -> (combined:
    DataSourceCapabilities)
    ensures
        combined == combined_capabilities(list@),
{
    if list.len() == 0 {
        return DataSourceCapabilities::default();
    }
    let mut capabilities = list[0];
    let mut index: usize = 1;
    assert(list@.take(1).len() == 1 && list@.take(1)[0] == list@[0]);

    while index < list.len()
        invariant
            1 <= index <= list@.len(),
            capabilities == combined_capabilities(list@.take(index as int)),
        decreases list@.len() - index,
    {
        let next = list[index];
        proof {
            let taken = list@.take(index + 1);
            assert(taken.drop_last() =~= list@.take(index as int));
            assert(taken.last() == next);
        }
        capabilities = DataSourceCapabilities {
            read_concurrency: match (capabilities.read_concurrency, next.read_concurrency) {
                (DataSourceReadConcurrency::Serialized, _)
                | (_, DataSourceReadConcurrency::Serialized) => DataSourceReadConcurrency::Serialized,
                (DataSourceReadConcurrency::Unknown, _)
                | (_, DataSourceReadConcurrency::Unknown) => DataSourceReadConcurrency::Unknown,
                (DataSourceReadConcurrency::Concurrent, DataSourceReadConcurrency::Concurrent) =>
                    DataSourceReadConcurrency::Concurrent,
            },
            seek_cost: match (capabilities.seek_cost, next.seek_cost) {
                (DataSourceSeekCost::Expensive, _)
                | (_, DataSourceSeekCost::Expensive) => DataSourceSeekCost::Expensive,
                (DataSourceSeekCost::Unknown, _)
                | (_, DataSourceSeekCost::Unknown) => DataSourceSeekCost::Unknown,
                (DataSourceSeekCost::Cheap, DataSourceSeekCost::Cheap) => DataSourceSeekCost::Cheap,
            },
            preferred_chunk_size: match (
                capabilities.preferred_chunk_size,
                next.preferred_chunk_size,
            ) {
                (Some(chunk_size), Some(next_chunk_size)) => if chunk_size == next_chunk_size {
                    Some(chunk_size)
                } else {
                    None
                },
                (None, chunk_size) => chunk_size,
                (chunk_size, None) => chunk_size,
            },
        };
        index += 1;
    }
    assert(list@.take(list@.len() as int) =~= list@);
    capabilities
}

} // verus!
