//! PDI sparse image files.

use vstd::prelude::*;

use crate::bytes::{
    holds_le, lemma_holds_le, read_u32_le, read_u64_be, read_u64_le, u32_le, u64_be, u64_le,
};
use crate::checks::{first_failure, lemma_first_failure_at};
use crate::error::DriverError;
use crate::image::block_map::{absent_location, lemma_block_index};
use crate::image::block_table::{lemma_block_count, lemma_number_of_blocks, number_of_blocks};
use crate::image::extent_list::ExtentList;
use crate::source::data_source::{read_bytes, Content, DataSource, DataSourceReference};
use crate::source::extent_map::MediaLocation;

verus! {

/// PDI sparse file header.
pub struct PdiSparseFileHeader {
    pub sectors_per_block: u32,
    pub number_of_blocks: u32,
    pub number_of_sectors: u64,
    pub data_start_sector: u32,
}

/// Whether a file header has one of the signatures "WithoutFreeSpace" and "WithouFreSpacExt".
pub open spec fn has_signature(data: Seq<u8>) -> bool {
    ||| u64_be(data, 0) == 0x5769_7468_6f75_7446 && u64_be(data, 8) == 0x7265_6553_7061_6365
    ||| u64_be(data, 0) == 0x5769_7468_6f75_4672 && u64_be(data, 8) == 0x6553_7061_6345_7874
}

/// The file header of a sparse file.
pub open spec fn header_of(content: Content) -> Result<PdiSparseFileHeader, DriverError> {
    match content.exact(0, 64) {
        Err(error) => Err(error),
        Ok(data) => if has_signature(data) {
            Ok(
                PdiSparseFileHeader {
                    sectors_per_block: u32_le(data, 28),
                    number_of_blocks: u32_le(data, 32),
                    number_of_sectors: u64_le(data, 36),
                    data_start_sector: u32_le(data, 48),
                },
            )
        } else {
            Err(DriverError::Unsupported)
        },
    }
}

/// The size of a block.
pub open spec fn block_size(header: PdiSparseFileHeader) -> int {
    header.sectors_per_block * 512
}

/// Why a sparse file cannot store an extent of the given size.
pub open spec fn header_failure(header: PdiSparseFileHeader, extent_size: u64) -> Option<
    DriverError,
> {
    if header.number_of_sectors * 512 > u64::MAX {
        Some(DriverError::Overflow)
    } else if header.number_of_sectors * 512 != extent_size {
        Some(DriverError::Unsupported)
    } else if header.data_start_sector == 0 {
        Some(DriverError::Invalid)
    } else if header.number_of_blocks * block_size(header) < extent_size {
        Some(DriverError::OutOfBounds)
    } else {
        None
    }
}

/// The file offset of a block, if the block is stored. The last block ends with the extent.
pub open spec fn block_offset(
    content: Content,
    header: PdiSparseFileHeader,
    extent_size: u64,
    index: int,
) -> Result<Option<u64>, DriverError> {
    let size = if index * block_size(header) + block_size(header) < extent_size {
        block_size(header)
    } else {
        extent_size - index * block_size(header)
    };
    match content.exact(64 + index * 4, 4) {
        Err(error) => Err(error),
        Ok(data) => if u32_le(data, 0) == 0 {
            Ok(None)
        } else if u32_le(data, 0) * 512 + size > content.size {
            Err(DriverError::OutOfBounds)
        } else {
            Ok(Some((u32_le(data, 0) * 512) as u64))
        },
    }
}

/// Why a block cannot be located.
pub open spec fn block_failure(
    content: Content,
    header: PdiSparseFileHeader,
    extent_size: u64,
) -> spec_fn(int) -> Option<DriverError> {
    |index: int|
        match block_offset(content, header, extent_size, index) {
            Ok(_) => None,
            Err(error) => Some(error),
        }
}

/// Why the blocks of an extent cannot be used: one cannot be located, or the offset of the block
/// after the extent cannot be expressed.
pub open spec fn blocks_failure(
    content: Content,
    header: PdiSparseFileHeader,
    extent_size: u64,
) -> Option<DriverError> {
    let count = number_of_blocks(extent_size as int, block_size(header));
    match first_failure(count, block_failure(content, header, extent_size)) {
        Some(error) => Some(error),
        None => if count < header.number_of_blocks && count * block_size(header) > u64::MAX {
            Some(DriverError::Overflow)
        } else {
            None
        },
    }
}

/// Why a sparse file cannot be used for an extent that has the given size and ends at the given
/// offset of the medium.
pub open spec fn sparse_failure(content: Content, extent_size: u64, end: int) -> Option<
    DriverError,
> {
    match header_of(content) {
        Err(error) => Some(error),
        Ok(header) => match header_failure(header, extent_size) {
            Some(error) => Some(error),
            None => if end > u64::MAX {
                Some(DriverError::Overflow)
            } else {
                blocks_failure(content, header, extent_size)
            },
        },
    }
}

/// Where a sparse file stores the byte of the medium at an offset, for an extent that starts at
/// `start`: in the block that covers it, or else in the parent.
pub open spec fn sparse_location(
    source: DataSourceReference,
    parent: Option<DataSourceReference>,
    extent_size: u64,
    start: int,
    offset: int,
) -> MediaLocation {
    let header = header_of(source.content())->Ok_0;
    match block_offset(
        source.content(),
        header,
        extent_size,
        (offset - start) / block_size(header),
    ) {
        Ok(Some(block)) => MediaLocation::Data {
            source,
            offset: block + (offset - start) % block_size(header),
        },
        _ => absent_location(parent, offset),
    }
}

/// Whether a file header is stored: behind one of the signatures "WithoutFreeSpace" and
/// "WithouFreSpacExt", in little-endian order, its values.
pub open spec fn holds_header(
    content: Content,
    is_extended: bool,
    header: PdiSparseFileHeader,
) -> bool {
    let data = content.window(0, 64);
    &&& content.has(0, 64)
    &&& data[0] == 0x57 && data[1] == 0x69 && data[2] == 0x74 && data[3] == 0x68
    &&& data[4] == 0x6f && data[5] == 0x75
    &&& if is_extended {
        &&& data[6] == 0x46 && data[7] == 0x72 && data[8] == 0x65 && data[9] == 0x53
        &&& data[10] == 0x70 && data[11] == 0x61 && data[12] == 0x63 && data[13] == 0x45
        &&& data[14] == 0x78 && data[15] == 0x74
    } else {
        &&& data[6] == 0x74 && data[7] == 0x46 && data[8] == 0x72 && data[9] == 0x65
        &&& data[10] == 0x65 && data[11] == 0x53 && data[12] == 0x70 && data[13] == 0x61
        &&& data[14] == 0x63 && data[15] == 0x65
    }
    &&& holds_le(data, 28, 4, header.sectors_per_block as int)
    &&& holds_le(data, 32, 4, header.number_of_blocks as int)
    &&& holds_le(data, 36, 8, header.number_of_sectors as int)
    &&& holds_le(data, 48, 4, header.data_start_sector as int)
}

/// The values of a file header that is stored are read back.
pub proof fn lemma_header_stored(
    content: Content,
    is_extended: bool,
    header: PdiSparseFileHeader,
)
    requires
        holds_header(content, is_extended, header),
    ensures
        header_of(content) == Ok::<PdiSparseFileHeader, DriverError>(header),
{
    broadcast use lemma_holds_le;

    let data = content.window(0, 64);
    if is_extended {
        assert(u64_be(data, 0) == 0x5769_7468_6f75_4672);
        assert(u64_be(data, 8) == 0x6553_7061_6345_7874);
    } else {
        assert(u64_be(data, 0) == 0x5769_7468_6f75_7446);
        assert(u64_be(data, 8) == 0x7265_6553_7061_6365);
    }
}

/// Every byte of a block lies as far behind the sector that the block table behind the header gives as
/// it lies behind the start of the block. A block without a sector is that of the parent, or zero.
pub proof fn lemma_block_byte(
    source: DataSourceReference,
    parent: Option<DataSourceReference>,
    header: PdiSparseFileHeader,
    extent_size: u64,
    start: int,
    index: int,
    sector: int,
    relative_offset: int,
)
    requires
        header_of(source.content()) == Ok::<PdiSparseFileHeader, DriverError>(header),
        source.content().holds_le(64 + 4 * index, 4, sector),
        0 <= index,
        sector * 512 + header.sectors_per_block * 512 <= source.content().size,
        0 <= relative_offset < header.sectors_per_block * 512,
    ensures
        ({
            let offset = start + index * (header.sectors_per_block * 512) + relative_offset;
            sparse_location(source, parent, extent_size, start, offset) == (if sector != 0 {
                MediaLocation::Data { source, offset: sector * 512 + relative_offset }
            } else {
                match parent {
                    Some(parent) => MediaLocation::Data { source: parent, offset },
                    None => MediaLocation::Zero,
                }
            })
        }),
{
    broadcast use lemma_holds_le;

    lemma_block_index(index * block_size(header) + relative_offset, index, block_size(header));
    assert(64 + index * 4 == 64 + 4 * index);
}

fn read_header(source: &DataSourceReference) -> (result: Result<PdiSparseFileHeader, DriverError>)
    ensures
        match result {
            Ok(header) => header_of(source.content()) == Ok::<PdiSparseFileHeader, DriverError>(
                header,
            ),
            Err(error) => source.reliable() ==> header_of(source.content()) == Err::<
                PdiSparseFileHeader,
                DriverError,
            >(error),
        },
{
    let data: Vec<u8> = read_bytes(source, 0, 64)?;
    let data = data.as_slice();
    let high: u64 = read_u64_be(data, 0);
    let low: u64 = read_u64_be(data, 8);
    if !(high == 0x5769_7468_6f75_7446 && low == 0x7265_6553_7061_6365) && !(high
        == 0x5769_7468_6f75_4672 && low == 0x6553_7061_6345_7874) {
        return Err(DriverError::Unsupported);
    }
    Ok(
        PdiSparseFileHeader {
            sectors_per_block: read_u32_le(data, 28),
            number_of_blocks: read_u32_le(data, 32),
            number_of_sectors: read_u64_le(data, 36),
            data_start_sector: read_u32_le(data, 48),
        },
    )
}

fn check_header(header: &PdiSparseFileHeader, extent_size: u64) -> (result: Result<(), DriverError>)
    ensures
        match result {
            Ok(()) => header_failure(*header, extent_size) is None,
            Err(error) => header_failure(*header, extent_size) == Some(error),
        },
{
    let size: u64 = header.number_of_sectors.checked_mul(512).ok_or(DriverError::Overflow)?;
    if size != extent_size {
        return Err(DriverError::Unsupported);
    }
    if header.data_start_sector == 0 {
        return Err(DriverError::Invalid);
    }
    let block: u128 = header.sectors_per_block as u128 * 512;
    proof {
        assert(0 <= header.number_of_blocks * block <= 0xffff_ffff * 0x200_0000_0000)
            by (nonlinear_arith)
            requires
                0 <= header.number_of_blocks <= 0xffff_ffff,
                0 <= block <= 0x200_0000_0000,
        ;
    }
    if header.number_of_blocks as u128 * block < extent_size as u128 {
        return Err(DriverError::OutOfBounds);
    }
    Ok(())
}

/// Whether a list of extents is `before` with the bytes of an extent added that a sparse file
/// stores.
pub open spec fn stores_sparse(
    list: ExtentList,
    before: ExtentList,
    source: DataSourceReference,
    parent: Option<DataSourceReference>,
    extent_size: u64,
) -> bool {
    &&& list.extends(before, extent_size as int)
    &&& forall|k: int|
        before.size() <= k < list.size() ==> #[trigger] list.location(k) == sparse_location(
            source,
            parent,
            extent_size,
            before.size() as int,
            k,
        )
}

/// Which source the last block comes from.
#[derive(Clone, Copy, PartialEq, Eq, Structural)]
enum LastBlock {
    Start,
    Stored,
    Absent,
}

/// Appends an extent that a sparse file stores.
pub fn append_sparse(
    list: ExtentList,
    source: &DataSourceReference,
    parent: &Option<DataSourceReference>,
    extent_size: u64,
) -> (result: Result<ExtentList, DriverError>)
    requires
        0 < extent_size,
    ensures
        match result {
            Ok(next) => {
                &&& sparse_failure(
                    source.content(),
                    extent_size,
                    list.size() + extent_size,
                ) is None
                &&& stores_sparse(next, list, *source, *parent, extent_size)
            },
            Err(error) => source.reliable() ==> sparse_failure(
                source.content(),
                extent_size,
                list.size() + extent_size,
            ) == Some(error),
        },
{
    let source_size: u64 = source.size()?;
    let header = read_header(source)?;
    check_header(&header, extent_size)?;
    let start: u64 = list.end();
    if start > u64::MAX - extent_size {
        return Err(DriverError::Overflow);
    }
    let size: u64 = header.sectors_per_block as u64 * 512;
    let blocks: u64 = header.number_of_blocks as u64;
    let ghost content = source.content();
    let ghost count = number_of_blocks(extent_size as int, size as int);
    let ghost failure = block_failure(content, header, extent_size);
    proof {
        assert(size > 0) by (nonlinear_arith)
            requires
                header.number_of_blocks * size >= extent_size,
                0 < extent_size,
                0 <= size,
        ;
        assert((size - 1) / size as int == 0) by (nonlinear_arith)
            requires
                0 < size,
        ;
    }
    let mut current = list;
    let mut last = LastBlock::Start;
    let mut index: u64 = 0;
    let mut offset: u64 = 0;
    while offset < extent_size
        invariant
            source_size == source.content().size,
            content == source.content(),
            header_of(content) == Ok::<PdiSparseFileHeader, DriverError>(header),
            header_failure(header, extent_size) is None,
            size == block_size(header),
            0 < size <= 0x200_0000_0000,
            blocks == header.number_of_blocks,
            extent_size <= blocks * size,
            start == list.size(),
            start + extent_size <= u64::MAX,
            count == number_of_blocks(extent_size as int, size as int),
            failure == block_failure(content, header, extent_size),
            offset <= extent_size,
            offset < extent_size ==> offset == index * size,
            offset == extent_size ==> index == count,
            first_failure(index as nat, failure) is None,
            current.extends(list, offset as int),
            forall|k: int|
                start <= k < current.size() ==> #[trigger] current.location(k) == sparse_location(
                    *source,
                    *parent,
                    extent_size,
                    start as int,
                    k,
                ),
            offset > 0 ==> match last {
                LastBlock::Start => false,
                LastBlock::Stored => current.last_source() == Some(*source),
                LastBlock::Absent => current.last_source() == *parent,
            },
            offset == 0 ==> last is Start,
        decreases extent_size - offset,
    {
        proof {
            lemma_number_of_blocks(extent_size as int, size as int, index as int);
            if failure(index as int) is Some {
                lemma_first_failure_at(count, failure, index as nat);
            }
            assert(index < blocks) by (nonlinear_arith)
                requires
                    index * size < extent_size,
                    extent_size <= blocks * size,
            ;
        }
        let remaining_size: u64 = extent_size - offset;
        let logical_size: u64 = if size < remaining_size {
            size
        } else {
            remaining_size
        };
        let entry: Vec<u8> = read_bytes(source, 64 + index * 4, 4)?;
        let sector: u32 = read_u32_le(entry.as_slice(), 0);
        let ghost before = current;
        if sector == 0 {
            let continues: bool = last == LastBlock::Absent;
            match parent {
                Some(parent) => {
                    current =
                    current.append_data(parent, start + offset, logical_size, continues);
                },
                None => {
                    current = current.append_zero(logical_size, continues);
                },
            }
            last = LastBlock::Absent;
        } else {
            let block_offset: u64 = sector as u64 * 512;
            if block_offset + logical_size > source_size {
                return Err(DriverError::OutOfBounds);
            }
            current =
            current.append_data(source, block_offset, logical_size, last == LastBlock::Stored);
            last = LastBlock::Stored;
        }
        proof {
            assert forall|k: int| start <= k < current.size() implies #[trigger] current.location(k)
                == sparse_location(*source, *parent, extent_size, start as int, k) by {
                if k < before.size() {
                    assert(current.location(k) == before.location(k));
                } else {
                    lemma_block_index(k - start, index as int, size as int);
                }
            }
            assert forall|k: int| 0 <= k < start implies #[trigger] current.location(k)
                == list.location(k) by {
                assert(current.location(k) == before.location(k));
            }
        }
        offset = offset + logical_size;
        index = index + 1;
    }
    if index < blocks {
        proof {
            lemma_block_count(extent_size as int, size as int, index as int);
        }
        if index.checked_mul(size).is_none() {
            return Err(DriverError::Overflow);
        }
    }
    Ok(current)
}

} // verus!
