//! FAT allocation table.

use vstd::prelude::*;

use super::boot_record::{FatFormat, FatGeometry};
use crate::bytes::{holds_le, lemma_holds_le, read_u16_le, read_u32_le, u16_le, u32_le};
use crate::error::DriverError;
use crate::filesystem::visited::{
    are_distinct, is_cycle, lemma_distinct_push, nodes_left, VisitedNodes,
};
use crate::source::data_source::{read_bytes, Content, DataSource, DataSourceReference};

verus! {

/// The number from which on a value of the allocation table is no cluster.
pub open spec fn cluster_limit(format: FatFormat) -> u32 {
    match format {
        FatFormat::Fat12 => 0xff0,
        FatFormat::Fat16 => 0xfff0,
        FatFormat::Fat32 => 0xfff_fff0,
    }
}

/// Whether a value of the allocation table is a cluster.
pub open spec fn is_cluster(format: FatFormat, number: u32) -> bool {
    2 <= number < cluster_limit(format)
}

/// The offset of the entry for a cluster in the allocation table. Two entries of FAT-12 share three
/// bytes.
pub open spec fn table_entry_offset(format: FatFormat, number: u32) -> int {
    match format {
        FatFormat::Fat12 => 3 * (number / 2),
        FatFormat::Fat16 => 2 * number,
        FatFormat::Fat32 => 4 * number,
    }
}

/// The size of what is read for an entry of the allocation table.
pub open spec fn table_entry_size(format: FatFormat) -> nat {
    match format {
        FatFormat::Fat12 => 3,
        FatFormat::Fat16 => 2,
        FatFormat::Fat32 => 4,
    }
}

/// The value of the entry for a cluster.
pub open spec fn table_entry_in(format: FatFormat, data: Seq<u8>, number: u32) -> u32 {
    match format {
        FatFormat::Fat12 => if number % 2 == 0 {
            (u16_le(data, 0) % 0x1000) as u32
        } else {
            (u16_le(data, 1) / 0x10) as u32
        },
        FatFormat::Fat16 => u16_le(data, 0) as u32,
        FatFormat::Fat32 => u32_le(data, 0),
    }
}

/// What follows a cluster according to the allocation table.
pub open spec fn next_cluster(content: Content, geometry: FatGeometry, number: u32) -> Result<
    u32,
    DriverError,
> {
    if number >= geometry.number_of_clusters {
        Err(DriverError::OutOfBounds)
    } else {
        match content.exact(
            geometry.allocation_table_offset + table_entry_offset(geometry.format, number),
            table_entry_size(geometry.format),
        ) {
            Err(error) => Err(error),
            Ok(data) => Ok(table_entry_in(geometry.format, data, number)),
        }
    }
}

/// The chain of clusters from a cluster on, after those before it. No cluster may follow twice.
pub open spec fn chain_from(
    content: Content,
    geometry: FatGeometry,
    number: u32,
    chain: Seq<u64>,
) -> Result<Seq<u64>, DriverError>
    decreases nodes_left(chain),
{
    if !is_cluster(geometry.format, number) {
        Ok(chain)
    } else if is_cycle(chain, number as u64) {
        Err(DriverError::Cycle)
    } else {
        match next_cluster(content, geometry, number) {
            Err(error) => Err(error),
            Ok(next) => chain_from(content, geometry, next, chain.push(number as u64)),
        }
    }
}

/// Whether the allocation table holds a value for a cluster. Entries have 12, 16 or 32 bits: those
/// of 12 bits are stored one behind the other, the lowest bits first.
pub open spec fn holds_next(
    content: Content,
    geometry: FatGeometry,
    number: int,
    value: int,
    neighbour: int,
) -> bool {
    let start = geometry.allocation_table_offset as int;
    match geometry.format {
        FatFormat::Fat12 => {
            &&& 0 <= value < 0x1000
            &&& 0 <= neighbour < 0x1000
            &&& content.holds_le(
                start + 3 * (number / 2),
                3,
                if number % 2 == 0 {
                    value + 0x1000 * neighbour
                } else {
                    neighbour + 0x1000 * value
                },
            )
        },
        FatFormat::Fat16 => content.holds_le(start + 2 * number, 2, value),
        FatFormat::Fat32 => content.holds_le(start + 4 * number, 4, value),
    }
}

/// What the allocation table holds for a cluster is read back.
pub proof fn lemma_next_stored(
    content: Content,
    geometry: FatGeometry,
    number: u32,
    value: int,
    neighbour: int,
)
    requires
        number < geometry.number_of_clusters,
        holds_next(content, geometry, number as int, value, neighbour),
    ensures
        next_cluster(content, geometry, number) == Ok::<u32, DriverError>(value as u32),
        0 <= value < 0x1_0000_0000,
{
    let start = geometry.allocation_table_offset as int;
    match geometry.format {
        FatFormat::Fat12 => {
            let data = content.window(start + 3 * (number / 2), 3);
            let both = if number % 2 == 0 {
                value + 0x1000 * neighbour
            } else {
                neighbour + 0x1000 * value
            };
            reveal_with_fuel(holds_le, 4);
            assert(data[0] == both % 256);
            assert(data[1] == both / 256 % 256);
            assert(data[2] == both / 256 / 256);
        },
        FatFormat::Fat16 => {
            lemma_holds_le(content.window(start + 2 * number, 2), 0, 2, value);
        },
        FatFormat::Fat32 => {
            lemma_holds_le(content.window(start + 4 * number, 4), 0, 4, value);
        },
    }
}

/// Whether clusters are linked: the entry of each one holds the number of the next one, and that of
/// the last one a value that is no cluster.
pub open spec fn are_linked(content: Content, geometry: FatGeometry, clusters: Seq<u64>) -> bool {
    forall|i: int|
        0 <= i < clusters.len() ==> {
            &&& is_cluster(geometry.format, (#[trigger] clusters[i]) as u32)
            &&& clusters[i] < geometry.number_of_clusters
            &&& exists|value: int, neighbour: int|
                #[trigger] holds_next(content, geometry, clusters[i] as int, value, neighbour)
                    && if i + 1 < clusters.len() {
                    value == clusters[i + 1]
                } else {
                    !is_cluster(geometry.format, value as u32)
                }
        }
}

/// Clusters that are linked are followed in order, from the first to the last.
pub proof fn lemma_chain_stored(content: Content, geometry: FatGeometry, clusters: Seq<u64>)
    requires
        clusters.len() > 0,
        are_distinct(clusters),
        are_linked(content, geometry, clusters),
        clusters.len() <= u64::MAX,
    ensures
        chain_from(content, geometry, clusters[0] as u32, Seq::empty()) == Ok::<
            Seq<u64>,
            DriverError,
        >(clusters),
{
    assert(clusters.take(0) =~= Seq::<u64>::empty());
    lemma_chain_stored_from(content, geometry, clusters, 0);
}

proof fn lemma_chain_stored_from(
    content: Content,
    geometry: FatGeometry,
    clusters: Seq<u64>,
    index: int,
)
    requires
        0 <= index < clusters.len(),
        are_distinct(clusters),
        are_linked(content, geometry, clusters),
        clusters.len() <= u64::MAX,
    ensures
        chain_from(content, geometry, clusters[index] as u32, clusters.take(index)) == Ok::<
            Seq<u64>,
            DriverError,
        >(clusters),
    decreases clusters.len() - index,
{
    let number = clusters[index];
    assert(is_cluster(geometry.format, number as u32));
    assert(!clusters.take(index).contains(number)) by {
        if clusters.take(index).contains(number) {
            let i = choose|i: int| 0 <= i < index && clusters.take(index)[i] == number;
            assert(clusters[i] == number);
        }
    }
    let (value, neighbour) = choose|value: int, neighbour: int|
        #[trigger] holds_next(content, geometry, clusters[index] as int, value, neighbour)
            && if index + 1 < clusters.len() {
            value == clusters[index + 1]
        } else {
            !is_cluster(geometry.format, value as u32)
        };
    lemma_next_stored(content, geometry, number as u32, value, neighbour);
    assert(clusters.take(index).push(number) =~= clusters.take(index + 1));
    if index + 1 < clusters.len() {
        lemma_chain_stored_from(content, geometry, clusters, index + 1);
    } else {
        assert(clusters.take(index + 1) =~= clusters);
        assert(chain_from(content, geometry, value as u32, clusters) == Ok::<
            Seq<u64>,
            DriverError,
        >(clusters));
    }
}

/// Determines whether a value of the allocation table is a cluster.
pub fn check_cluster(format: FatFormat, number: u32) -> (valid: bool)
    ensures
        valid == is_cluster(format, number),
{
    let limit: u32 = match format {
        FatFormat::Fat12 => 0xff0,
        FatFormat::Fat16 => 0xfff0,
        FatFormat::Fat32 => 0xfff_fff0,
    };
    number >= 2 && number < limit
}

/// Reads what follows a cluster.
pub fn read_next_cluster(source: &DataSourceReference, geometry: &FatGeometry, number: u32) -> (result:
    Result<u32, DriverError>)
    requires
        geometry.is_usable(),
    ensures
        match result {
            Ok(next) => next_cluster(source.content(), *geometry, number) == Ok::<u32, DriverError>(
                next,
            ),
            Err(error) => source.reliable() ==> next_cluster(source.content(), *geometry, number)
                == Err::<u32, DriverError>(error),
        },
{
    if number >= geometry.number_of_clusters {
        return Err(DriverError::OutOfBounds);
    }
    let (entry_offset, entry_size): (u64, usize) = match geometry.format {
        FatFormat::Fat12 => (3 * (number / 2) as u64, 3),
        FatFormat::Fat16 => (2 * number as u64, 2),
        FatFormat::Fat32 => (4 * number as u64, 4),
    };
    let data: Vec<u8> = read_bytes(
        source,
        geometry.allocation_table_offset + entry_offset,
        entry_size,
    )?;
    Ok(
        match geometry.format {
            FatFormat::Fat12 => if number % 2 == 0 {
                (read_u16_le(data.as_slice(), 0) % 0x1000) as u32
            } else {
                (read_u16_le(data.as_slice(), 1) / 0x10) as u32
            },
            FatFormat::Fat16 => read_u16_le(data.as_slice(), 0) as u32,
            FatFormat::Fat32 => read_u32_le(data.as_slice(), 0),
        },
    )
}

/// Reads the chain of clusters from a cluster on.
pub fn read_cluster_chain(source: &DataSourceReference, geometry: &FatGeometry, first: u32) -> (result:
    Result<Vec<u64>, DriverError>)
    requires
        geometry.is_usable(),
    ensures
        match result {
            Ok(chain) => {
                &&& chain_from(source.content(), *geometry, first, Seq::empty()) == Ok::<
                    Seq<u64>,
                    DriverError,
                >(chain@)
                &&& forall|i: int|
                    0 <= i < chain@.len() ==> 2 <= (#[trigger] chain@[i]) <= u32::MAX
            },
            Err(error) => source.reliable() ==> chain_from(
                source.content(),
                *geometry,
                first,
                Seq::empty(),
            ) == Err::<Seq<u64>, DriverError>(error),
        },
{
    let ghost content = source.content();
    let ghost whole = chain_from(content, *geometry, first, Seq::empty());
    let mut chain: Vec<u64> = Vec::new();
    let mut visited = VisitedNodes::new();
    let mut number: u32 = first;
    assert(chain@ =~= Seq::<u64>::empty());
    while check_cluster(geometry.format, number)
        invariant
            content == source.content(),
            geometry.is_usable(),
            whole == chain_from(content, *geometry, first, Seq::empty()),
            whole == chain_from(content, *geometry, number, chain@),
            visited@ == chain@,
            forall|i: int| 0 <= i < chain@.len() ==> 2 <= (#[trigger] chain@[i]) <= u32::MAX,
        decreases nodes_left(chain@),
    {
        if visited.contains(number as u64) {
            return Err(DriverError::Cycle);
        }
        let next: u32 = read_next_cluster(source, geometry, number)?;
        chain.push(number as u64);
        visited = visited.add(number as u64);
        number = next;
    }
    Ok(chain)
}

/// No cluster occurs twice in a chain.
pub proof fn lemma_chain_distinct(
    content: Content,
    geometry: FatGeometry,
    number: u32,
    chain: Seq<u64>,
)
    requires
        are_distinct(chain),
    ensures
        chain_from(content, geometry, number, chain) matches Ok(all) ==> are_distinct(all),
    decreases nodes_left(chain),
{
    if is_cluster(geometry.format, number) && !is_cycle(chain, number as u64) {
        lemma_distinct_push(chain, number as u64);
        if let Ok(next) = next_cluster(content, geometry, number) {
            lemma_chain_distinct(content, geometry, next, chain.push(number as u64));
        }
    }
}

} // verus!
