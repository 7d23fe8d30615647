//! Media that consist of blocks of one size, each of which a table locates.

use vstd::prelude::*;

use super::block_map::{absent_location, has_readable_offsets, lemma_block_index, BlockMap};
use crate::checks::{first_failure, lemma_first_failure_at};
use crate::error::DriverError;
use crate::source::data_source::DataSourceReference;
use crate::source::extent_map::MediaLocation;

verus! {

/// Where the blocks of a medium are stored.
pub trait BlockTable {
    /// The offset of a block in the data source, or nothing where the data source does not hold
    /// the block.
    spec fn block(&self, index: int) -> Result<Option<u64>, DriverError>;

    /// Whether the table can be read without failure.
    spec fn reliable(&self) -> bool;

    /// Determines the offset of a block.
    fn locate(&self, index: u64) -> (result: Result<Option<u64>, DriverError>)
        ensures
            match result {
                Ok(offset) => self.block(index as int) == Ok::<Option<u64>, DriverError>(offset),
                Err(error) => self.reliable() ==> self.block(index as int) == Err::<
                    Option<u64>,
                    DriverError,
                >(error),
            },
    ;
}

/// The number of blocks that cover a medium.
pub open spec fn number_of_blocks(media_size: int, block_size: int) -> nat {
    ((media_size + block_size - 1) / block_size) as nat
}

/// Why a block cannot be located.
pub open spec fn block_failure(block: spec_fn(int) -> Result<Option<u64>, DriverError>) -> spec_fn(
    int,
) -> Option<DriverError> {
    |index: int|
        match block(index) {
            Ok(_) => None,
            Err(error) => Some(error),
        }
}

/// Where the byte at an offset of the medium is stored: in the block that covers it.
pub open spec fn block_location(
    source: DataSourceReference,
    parent: Option<DataSourceReference>,
    block_size: int,
    block: spec_fn(int) -> Result<Option<u64>, DriverError>,
) -> spec_fn(int) -> MediaLocation {
    |k: int|
        match block(k / block_size) {
            Ok(Some(offset)) => MediaLocation::Data { source, offset: offset + k % block_size },
            _ => absent_location(parent, k),
        }
}

/// The number of blocks before an offset that a block starts at.
pub proof fn lemma_number_of_blocks(media_size: int, block_size: int, index: int)
    requires
        0 < block_size,
        0 <= index,
        index * block_size < media_size,
    ensures
        index < number_of_blocks(media_size, block_size),
        index * block_size + block_size >= media_size <==> index + 1 == number_of_blocks(
            media_size,
            block_size,
        ),
        (index + 1) * block_size == index * block_size + block_size,
{
    let count = (media_size + block_size - 1) / block_size;
    assert(index < count && (index * block_size + block_size >= media_size <==> index + 1 == count)
        && (index + 1) * block_size == index * block_size + block_size) by (nonlinear_arith)
        requires
            count == (media_size + block_size - 1) / block_size,
            0 < block_size,
            index * block_size < media_size,
    ;
}

/// A block belongs to a medium exactly if it starts before the end of the medium.
pub proof fn lemma_block_count(media_size: int, block_size: int, index: int)
    requires
        0 < block_size,
        0 <= index,
        0 <= media_size,
    ensures
        index * block_size < media_size <==> index < number_of_blocks(media_size, block_size),
{
    let count = (media_size + block_size - 1) / block_size;
    assert(0 <= count && (index * block_size < media_size <==> index < count))
        by (nonlinear_arith)
        requires
            count == (media_size + block_size - 1) / block_size,
            0 < block_size,
            0 <= index,
            0 <= media_size,
    ;
}

/// A medium can be read as a whole if each of its blocks ends at an offset that can be read.
pub proof fn lemma_blocks_readable(
    source: DataSourceReference,
    parent: Option<DataSourceReference>,
    block_size: int,
    block: spec_fn(int) -> Result<Option<u64>, DriverError>,
    media_size: u64,
)
    requires
        0 < block_size,
        forall|i: int|
            match #[trigger] block(i) {
                Ok(Some(offset)) => offset + block_size <= u64::MAX,
                _ => true,
            },
    ensures
        has_readable_offsets(
            media_size as nat,
            block_location(source, parent, block_size, block),
        ),
{
    let location = block_location(source, parent, block_size, block);
    assert forall|k: int| 0 <= k < media_size && #[trigger] location(k) is Data implies location(
        k,
    )->offset < u64::MAX by {
        assert(0 <= k % block_size < block_size) by (nonlinear_arith)
            requires
                0 < block_size,
        ;
        let index = k / block_size;
        if let Ok(Some(offset)) = block(index) {
            assert(offset + block_size <= u64::MAX);
        }
    }
}

/// Every byte of a block that is stored lies as far behind the start of the stored block as it lies
/// behind the start of the block, and a byte of any other block is that of the parent, or zero.
pub proof fn lemma_block_byte(
    source: DataSourceReference,
    parent: Option<DataSourceReference>,
    block_size: int,
    block: spec_fn(int) -> Result<Option<u64>, DriverError>,
    index: int,
    relative_offset: int,
)
    requires
        0 <= relative_offset < block_size,
        0 <= index,
    ensures
        ({
            let k = index * block_size + relative_offset;
            block_location(source, parent, block_size, block)(k) == (match block(index) {
                Ok(Some(offset)) => MediaLocation::Data {
                    source,
                    offset: offset + relative_offset,
                },
                _ => match parent {
                    Some(parent) => MediaLocation::Data { source: parent, offset: k },
                    None => MediaLocation::Zero,
                },
            })
        }),
{
    lemma_block_index(index * block_size + relative_offset, index, block_size);
}

/// Locates the blocks that cover a medium.
pub fn build_block_map<T: BlockTable>(
    table: &T,
    source: &DataSourceReference,
    parent: &Option<DataSourceReference>,
    block_size: u64,
    media_size: u64,
    block: Ghost<spec_fn(int) -> Result<Option<u64>, DriverError>>,
) -> (result: Result<BlockMap, DriverError>)
    requires
        0 < block_size,
        forall|i: int| #[trigger] table.block(i) == block@(i),
    ensures
        match result {
            Ok(map) => {
                &&& first_failure(
                    number_of_blocks(media_size as int, block_size as int),
                    block_failure(block@),
                ) is None
                &&& map.source() == *source
                &&& map.parent() == *parent
                &&& map.size() == media_size
                &&& map.is_tiled()
                &&& forall|k: int|
                    0 <= k < media_size ==> #[trigger] map.location(k) == block_location(
                        *source,
                        *parent,
                        block_size as int,
                        block@,
                    )(k)
            },
            Err(error) => table.reliable() ==> first_failure(
                number_of_blocks(media_size as int, block_size as int),
                block_failure(block@),
            ) == Some(error),
        },
{
    let ghost location = block_location(*source, *parent, block_size as int, block@);
    let ghost failure = block_failure(block@);
    let ghost count = number_of_blocks(media_size as int, block_size as int);
    proof {
        assert((block_size - 1) / block_size as int == 0) by (nonlinear_arith)
            requires
                0 < block_size,
        ;
    }
    let mut map = BlockMap::with_parent(source, parent);
    let mut index: u64 = 0;
    let mut logical_offset: u64 = 0;

    while logical_offset < media_size
        invariant
            0 < block_size,
            forall|i: int| #[trigger] table.block(i) == block@(i),
            location == block_location(*source, *parent, block_size as int, block@),
            failure == block_failure(block@),
            count == number_of_blocks(media_size as int, block_size as int),
            logical_offset <= media_size,
            logical_offset < media_size ==> logical_offset == index * block_size,
            index <= logical_offset,
            logical_offset == media_size ==> index == count,
            first_failure(index as nat, failure) is None,
            map.source() == *source,
            map.parent() == *parent,
            map.size() == logical_offset,
            forall|k: int| 0 <= k < logical_offset ==> #[trigger] map.location(k) == location(k),
        decreases media_size - logical_offset,
    {
        proof {
            lemma_number_of_blocks(media_size as int, block_size as int, index as int);
        }
        let result = table.locate(index);
        proof {
            if result is Err && table.reliable() {
                lemma_first_failure_at(count, failure, index as nat);
            }
        }
        let offset = result?;
        let remaining_size: u64 = media_size - logical_offset;
        let logical_size: u64 = if block_size < remaining_size {
            block_size
        } else {
            remaining_size
        };
        let ghost before = map;
        match offset {
            Some(offset) => {
                map = map.append_data(offset, logical_size);
            },
            None => {
                map = map.append_absent(logical_size);
            },
        }
        proof {
            assert forall|k: int| 0 <= k < logical_offset + logical_size implies #[trigger]
                map.location(k) == location(k) by {
                if k < logical_offset {
                    assert(map.location(k) == before.location(k));
                } else {
                    lemma_block_index(k, index as int, block_size as int);
                }
            }
        }
        logical_offset = logical_offset + logical_size;
        index = index + 1;
    }
    Ok(map.finish())
}

} // verus!
