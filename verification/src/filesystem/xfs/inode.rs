//! XFS inodes.

use vstd::prelude::*;

use super::inode_table::{absolute_block, get_absolute_block, get_inode_offset, inode_offset};
use super::superblock::XfsGeometry;
use crate::bytes::{
    holds_be, lemma_holds_be, read_u16_be, read_u32_be, read_u64_be, u16_be, u32_be, u64_be,
};
use crate::error::DriverError;
use crate::filesystem::extents::{extent_entries, extent_places, file_size, FileExtent};
use crate::source::data_source::{read_bytes, Content, DataSource, DataSourceReference};

verus! {

/// What an inode says.
pub struct XfsInodeInfo {
    pub file_mode: u16,
    pub data_fork_format: u8,
    pub data_size: u64,
    pub number_of_extents: u32,
    pub data_fork: Seq<u8>,
}

impl XfsInodeInfo {
    /// Whether the inode is that of a directory.
    pub open spec fn is_directory(self) -> bool {
        self.file_mode / 0x1000 == 4
    }

    /// Whether the inode is that of a regular file.
    pub open spec fn is_regular_file(self) -> bool {
        self.file_mode / 0x1000 == 8
    }

    /// Whether the inode is that of a symbolic link.
    pub open spec fn is_symbolic_link(self) -> bool {
        self.file_mode / 0x1000 == 0xa
    }

    /// The data that is stored in the inode itself, if it is.
    pub open spec fn inline_data(self) -> Option<Seq<u8>> {
        if self.data_fork_format == 1 {
            Some(self.data_fork.take(self.data_size as int))
        } else {
            None
        }
    }
}

/// The type of a file is in the upper four bits of its mode: 4 is a directory, 8 a regular file and 10 a
/// symbolic link, whatever the permissions in the lower ones.
pub proof fn lemma_file_types(inode: XfsInodeInfo, kind: int, permissions: int)
    requires
        inode.file_mode == 4096 * kind + permissions,
        0 <= permissions < 4096,
    ensures
        inode.is_directory() <==> kind == 4,
        inode.is_regular_file() <==> kind == 8,
        inode.is_symbolic_link() <==> kind == 10,
{
}

/// A range of blocks of a file.
#[derive(Clone, Copy, Debug, PartialEq, Eq, Structural)]
pub struct XfsBlockRange {
    pub logical_block_number: u64,
    pub physical_block_number: u64,
    pub number_of_blocks: u64,
    pub is_sparse: bool,
}

/// The size of the fixed part of an inode.
pub open spec fn core_size(data: Seq<u8>) -> int {
    if data[4] == 3 {
        176
    } else {
        100
    }
}

/// The size of the data fork of an inode, which the attribute fork may follow.
pub open spec fn data_fork_size(data: Seq<u8>) -> int {
    if data[82] > 0 {
        8 * data[82]
    } else {
        data.len() - core_size(data)
    }
}

/// What the inode in data says. An inode has the signature "IN".
pub open spec fn inode_in(data: Seq<u8>) -> Result<XfsInodeInfo, DriverError> {
    if data.len() < 100 || u16_be(data, 0) != 0x494e || data[4] < 1 || data[4] > 3 || data.len()
        < core_size(data) {
        Err(DriverError::Unsupported)
    } else if core_size(data) + data_fork_size(data) > data.len() {
        Err(DriverError::OutOfBounds)
    } else if data[5] == 1 && u64_be(data, 56) > data_fork_size(data) {
        Err(DriverError::OutOfBounds)
    } else {
        Ok(
            XfsInodeInfo {
                file_mode: u16_be(data, 2),
                data_fork_format: data[5],
                data_size: u64_be(data, 56),
                number_of_extents: u32_be(data, 76),
                data_fork: data.subrange(
                    core_size(data),
                    core_size(data) + data_fork_size(data),
                ),
            },
        )
    }
}

/// What the inode with a number says.
pub open spec fn inode_of(content: Content, geometry: XfsGeometry, inode_number: u64) -> Result<
    XfsInodeInfo,
    DriverError,
> {
    match inode_offset(content, geometry, inode_number) {
        Err(error) => Err(error),
        Ok(offset) => match content.exact(offset as int, geometry.inode_size as nat) {
            Err(error) => Err(error),
            Ok(data) => inode_in(data),
        },
    }
}

/// The block range of a record: from its highest bit on a flag for a range without data, the
/// logical block, the physical block and the number of blocks.
pub open spec fn range_in(data: Seq<u8>, offset: int) -> XfsBlockRange {
    let upper = u64_be(data, offset);
    let lower = u64_be(data, offset + 8);
    XfsBlockRange {
        logical_block_number: (upper / 0x200) % 0x40_0000_0000_0000,
        physical_block_number: (lower / 0x20_0000) | (upper % 0x200),
        number_of_blocks: lower % 0x20_0000,
        is_sparse: upper >= 0x8000_0000_0000_0000,
    }
}

/// A record gives back the values that were encoded in it. The physical block has to fit in the
/// lower one of the two numbers of the record.
#[verifier::spinoff_prover]
pub proof fn lemma_encoded_range(data: Seq<u8>, offset: int, range: XfsBlockRange)
    requires
        range.logical_block_number < 0x40_0000_0000_0000,
        range.physical_block_number < 0x800_0000_0000,
        range.number_of_blocks < 0x20_0000,
        u64_be(data, offset) == 0x200 * range.logical_block_number + (if range.is_sparse {
            0x8000_0000_0000_0000int
        } else {
            0
        }),
        u64_be(data, offset + 8) == 0x20_0000 * range.physical_block_number
            + range.number_of_blocks,
    ensures
        range_in(data, offset) == range,
{
    let upper = u64_be(data, offset) as int;
    let lower = u64_be(data, offset + 8) as int;
    let logical = range.logical_block_number as int;
    let physical = range.physical_block_number;
    let flag = if range.is_sparse {
        1int
    } else {
        0
    };
    vstd::arithmetic::div_mod::lemma_fundamental_div_mod_converse(
        upper,
        0x200,
        logical + 0x40_0000_0000_0000 * flag,
        0,
    );
    vstd::arithmetic::div_mod::lemma_fundamental_div_mod_converse(
        logical + 0x40_0000_0000_0000 * flag,
        0x40_0000_0000_0000,
        flag,
        logical,
    );
    vstd::arithmetic::div_mod::lemma_fundamental_div_mod_converse(
        lower,
        0x20_0000,
        physical as int,
        range.number_of_blocks as int,
    );
    assert(physical | 0 == physical) by (bit_vector);
}

/// The block ranges of the records from `index` on, after those of the records before it.
pub open spec fn ranges_from(
    data: Seq<u8>,
    count: u32,
    index: int,
    ranges: Seq<XfsBlockRange>,
) -> Result<Seq<XfsBlockRange>, DriverError>
    decreases count - index,
{
    if index >= count {
        Ok(ranges)
    } else if 16 * index + 16 > data.len() {
        Err(DriverError::OutOfBounds)
    } else {
        ranges_from(data, count, index + 1, ranges.push(range_in(data, 16 * index)))
    }
}

/// The block ranges of an inode. Those in a B-tree are not supported.
pub open spec fn block_ranges(inode: XfsInodeInfo) -> Result<Seq<XfsBlockRange>, DriverError> {
    if inode.data_fork_format == 1 {
        Ok(Seq::empty())
    } else if inode.data_fork_format == 2 {
        ranges_from(inode.data_fork, inode.number_of_extents, 0, Seq::empty())
    } else {
        Err(DriverError::Unsupported)
    }
}

/// Sorted ranges after another one was put behind those that do not start after it.
pub open spec fn insert_range(ranges: Seq<XfsBlockRange>, range: XfsBlockRange) -> Seq<
    XfsBlockRange,
>
    decreases ranges.len(),
{
    if ranges.len() == 0 || ranges.last().logical_block_number <= range.logical_block_number {
        ranges.push(range)
    } else {
        insert_range(ranges.drop_last(), range).push(ranges.last())
    }
}

/// Ranges in the order of their logical blocks.
pub open spec fn sorted_ranges(ranges: Seq<XfsBlockRange>) -> Seq<XfsBlockRange>
    decreases ranges.len(),
{
    if ranges.len() == 0 {
        ranges
    } else {
        insert_range(sorted_ranges(ranges.drop_last()), ranges.last())
    }
}

/// Whether ranges are in the order of their logical blocks.
pub open spec fn is_sorted(ranges: Seq<XfsBlockRange>) -> bool {
    forall|i: int, j: int|
        0 <= i < j < ranges.len() ==> (#[trigger] ranges[i]).logical_block_number <= (
        #[trigger] ranges[j]).logical_block_number
}

/// Sorting puts ranges in the order of their logical blocks and keeps each of them.
pub proof fn lemma_sorted_ranges(ranges: Seq<XfsBlockRange>)
    ensures
        is_sorted(sorted_ranges(ranges)),
        sorted_ranges(ranges).to_multiset() == ranges.to_multiset(),
    decreases ranges.len(),
{
    broadcast use vstd::seq_lib::group_to_multiset_ensures;

    if ranges.len() > 0 {
        lemma_sorted_ranges(ranges.drop_last());
        lemma_insert_range(sorted_ranges(ranges.drop_last()), ranges.last());
        assert(ranges =~= ranges.drop_last().push(ranges.last()));
    }
}

proof fn lemma_insert_range(ranges: Seq<XfsBlockRange>, range: XfsBlockRange)
    requires
        is_sorted(ranges),
    ensures
        is_sorted(insert_range(ranges, range)),
        insert_range(ranges, range).to_multiset() == ranges.to_multiset().insert(range),
        insert_range(ranges, range).len() == ranges.len() + 1,
        forall|i: int|
            0 <= i < insert_range(ranges, range).len() ==> (
            #[trigger] insert_range(ranges, range)[i]).logical_block_number
                <= range.logical_block_number || (ranges.len() > 0
                && insert_range(ranges, range)[i].logical_block_number
                <= ranges.last().logical_block_number),
    decreases ranges.len(),
{
    broadcast use vstd::seq_lib::group_to_multiset_ensures;

    if ranges.len() == 0 || ranges.last().logical_block_number <= range.logical_block_number {
        let more = ranges.push(range);
        assert forall|i: int, j: int| 0 <= i < j < more.len() implies (
        #[trigger] more[i]).logical_block_number <= (#[trigger] more[j]).logical_block_number by {
            if j == ranges.len() {
                if i < ranges.len() - 1 {
                    assert(ranges[i].logical_block_number
                        <= ranges[ranges.len() - 1].logical_block_number);
                }
            }
        }
        assert forall|i: int| 0 <= i < more.len() implies (
        #[trigger] more[i]).logical_block_number <= range.logical_block_number by {
            if i < ranges.len() - 1 {
                assert(ranges[i].logical_block_number
                    <= ranges[ranges.len() - 1].logical_block_number);
            }
        }
    } else {
        let front = ranges.drop_last();
        lemma_insert_range(front, range);
        let part = insert_range(front, range);
        let more = part.push(ranges.last());
        assert forall|i: int| 0 <= i < part.len() implies (
        #[trigger] part[i]).logical_block_number <= ranges.last().logical_block_number by {
            if front.len() > 0 {
                assert(ranges[front.len() - 1].logical_block_number <= ranges[ranges.len()
                    - 1].logical_block_number);
            }
        }
        assert(ranges =~= front.push(ranges.last()));
        assert(more.to_multiset() =~= ranges.to_multiset().insert(range));
    }
}

/// The range without data between two blocks.
pub open spec fn gap_range(start: u64, end: u64) -> XfsBlockRange {
    XfsBlockRange {
        logical_block_number: start,
        physical_block_number: 0,
        number_of_blocks: (end - start) as u64,
        is_sparse: true,
    }
}

/// The ranges from `index` on with a range without data in each gap, after those that end at a
/// block. Ranges must not overlap.
pub open spec fn filled_from(
    ranges: Seq<XfsBlockRange>,
    total: u64,
    index: int,
    end: u64,
    filled: Seq<XfsBlockRange>,
) -> Result<Seq<XfsBlockRange>, DriverError>
    decreases ranges.len() - index,
{
    if index >= ranges.len() {
        if end < total {
            Ok(filled.push(gap_range(end, total)))
        } else {
            Ok(filled)
        }
    } else if ranges[index].number_of_blocks == 0 {
        filled_from(ranges, total, index + 1, end, filled)
    } else if ranges[index].logical_block_number < end {
        Err(DriverError::Overlap)
    } else {
        let start = ranges[index].logical_block_number;
        let next = start + ranges[index].number_of_blocks;
        if next > u64::MAX {
            Err(DriverError::Overflow)
        } else {
            filled_from(
                ranges,
                total,
                index + 1,
                next as u64,
                (if start > end {
                    filled.push(gap_range(end, start))
                } else {
                    filled
                }).push(ranges[index]),
            )
        }
    }
}

/// The number of blocks of data.
pub open spec fn data_blocks(data_size: u64, block_size: u32) -> u64 {
    ((data_size as int + block_size as int - 1) / block_size as int) as u64
}

/// The extent of a range of blocks. It ends with the data.
pub open spec fn range_extent(geometry: XfsGeometry, data_size: u64, range: XfsBlockRange) -> Result<
    FileExtent,
    DriverError,
> {
    let start = range.logical_block_number * geometry.block_size;
    let length = range.number_of_blocks * geometry.block_size;
    let rest = if start < data_size {
        data_size - start
    } else {
        0
    };
    let size = (if length < rest {
        length
    } else {
        rest
    }) as u64;
    if start > u64::MAX {
        Err(DriverError::Overflow)
    } else if range.is_sparse {
        Ok(FileExtent { logical_offset: start as u64, size, offset: None })
    } else {
        match absolute_block(geometry, range.physical_block_number) {
            Err(error) => Err(error),
            Ok(block) => if block * geometry.block_size > u64::MAX {
                Err(DriverError::Overflow)
            } else {
                Ok(
                    FileExtent {
                        logical_offset: start as u64,
                        size,
                        offset: Some((block * geometry.block_size) as u64),
                    },
                )
            },
        }
    }
}

/// The extents of the ranges from `index` on, after those of the ranges before it.
pub open spec fn extents_from(
    geometry: XfsGeometry,
    data_size: u64,
    ranges: Seq<XfsBlockRange>,
    index: int,
    extents: Seq<FileExtent>,
) -> Result<Seq<FileExtent>, DriverError>
    decreases ranges.len() - index,
{
    if index >= ranges.len() {
        Ok(extents)
    } else {
        match range_extent(geometry, data_size, ranges[index]) {
            Err(error) => Err(error),
            Ok(extent) => extents_from(
                geometry,
                data_size,
                ranges,
                index + 1,
                extents.push(extent),
            ),
        }
    }
}

/// The extents of the data of an inode.
pub open spec fn data_extents(geometry: XfsGeometry, inode: XfsInodeInfo) -> Result<
    Seq<FileExtent>,
    DriverError,
> {
    match block_ranges(inode) {
        Err(error) => Err(error),
        Ok(ranges) => match filled_from(
            sorted_ranges(ranges),
            data_blocks(inode.data_size, geometry.block_size),
            0,
            0,
            Seq::empty(),
        ) {
            Err(error) => Err(error),
            Ok(filled) => extents_from(geometry, inode.data_size, filled, 0, Seq::empty()),
        },
    }
}

/// Whether an inode is stored: in big-endian order, behind the characters "IN". Its fixed part has 176
/// bytes in version 3 and 100 in the versions before, and the data fork follows. It goes up to the
/// attribute fork, as many times 8 bytes behind the fixed part as the byte at offset 82 says, or up to
/// the end where that is zero.
pub open spec fn holds_inode(data: Seq<u8>, version: int, inode: XfsInodeInfo) -> bool {
    let fork_offset = if version == 3 {
        176int
    } else {
        100
    };
    &&& 100 <= data.len()
    &&& 1 <= version <= 3
    &&& data[0] == 0x49 && data[1] == 0x4e
    &&& holds_be(data, 2, 2, inode.file_mode as int)
    &&& data[4] == version
    &&& data[5] == inode.data_fork_format
    &&& holds_be(data, 56, 8, inode.data_size as int)
    &&& holds_be(data, 76, 4, inode.number_of_extents as int)
    &&& fork_offset + inode.data_fork.len() <= data.len()
    &&& inode.data_fork == data.subrange(fork_offset, fork_offset + inode.data_fork.len())
    &&& if data[82] == 0 {
        fork_offset + inode.data_fork.len() == data.len()
    } else {
        inode.data_fork.len() == 8 * data[82]
    }
}

/// The values of an inode that is stored are read back.
pub proof fn lemma_inode_stored(data: Seq<u8>, version: int, inode: XfsInodeInfo)
    requires
        holds_inode(data, version, inode),
        inode.data_fork_format == 1 ==> inode.data_size <= inode.data_fork.len(),
    ensures
        inode_in(data) == Ok::<XfsInodeInfo, DriverError>(inode),
{
    lemma_holds_be(data, 2, 2, inode.file_mode as int);
    lemma_holds_be(data, 56, 8, inode.data_size as int);
    lemma_holds_be(data, 76, 4, inode.number_of_extents as int);
    assert(u16_be(data, 0) == 0x494e);
}

/// Whether the block ranges of a file are stored, one after another, each in 16 bytes: from the highest
/// bit on, one bit for a range without data, 54 for the logical block, 52 for the physical one and 21
/// for the number of blocks.
pub open spec fn holds_ranges(data: Seq<u8>, ranges: Seq<XfsBlockRange>) -> bool {
    &&& 16 * ranges.len() <= data.len()
    &&& forall|i: int|
        0 <= i < ranges.len() ==> {
            let range = #[trigger] ranges[i];
            &&& range.logical_block_number < 0x40_0000_0000_0000
            &&& range.physical_block_number < 0x800_0000_0000
            &&& range.number_of_blocks < 0x20_0000
            &&& holds_be(
                data,
                16 * i,
                8,
                0x200 * range.logical_block_number + (if range.is_sparse {
                    0x8000_0000_0000_0000int
                } else {
                    0
                }),
            )
            &&& holds_be(
                data,
                16 * i + 8,
                8,
                0x20_0000 * range.physical_block_number + range.number_of_blocks,
            )
        }
}

/// The block ranges that are stored in the data fork of an inode are read back.
pub proof fn lemma_ranges_stored(inode: XfsInodeInfo, ranges: Seq<XfsBlockRange>)
    requires
        inode.data_fork_format == 2,
        inode.number_of_extents == ranges.len(),
        holds_ranges(inode.data_fork, ranges),
    ensures
        block_ranges(inode) == Ok::<Seq<XfsBlockRange>, DriverError>(ranges),
{
    assert(ranges.take(0) =~= Seq::empty());
    lemma_ranges_stored_from(inode.data_fork, ranges, 0);
}

proof fn lemma_ranges_stored_from(data: Seq<u8>, ranges: Seq<XfsBlockRange>, index: int)
    requires
        holds_ranges(data, ranges),
        0 <= index <= ranges.len() <= u32::MAX,
    ensures
        ranges_from(data, ranges.len() as u32, index, ranges.take(index)) == Ok::<
            Seq<XfsBlockRange>,
            DriverError,
        >(ranges),
    decreases ranges.len() - index,
{
    if index < ranges.len() {
        let range = ranges[index];
        lemma_holds_be(
            data,
            16 * index,
            8,
            0x200 * range.logical_block_number + (if range.is_sparse {
                0x8000_0000_0000_0000int
            } else {
                0
            }),
        );
        lemma_holds_be(
            data,
            16 * index + 8,
            8,
            0x20_0000 * range.physical_block_number + range.number_of_blocks,
        );
        lemma_encoded_range(data, 16 * index, range);
        assert(ranges.take(index).push(range) =~= ranges.take(index + 1));
        lemma_ranges_stored_from(data, ranges, index + 1);
    } else {
        assert(ranges.take(index) =~= ranges);
    }
}

/// Whether a range covers a block.
pub open spec fn range_covers(range: XfsBlockRange, block: int) -> bool {
    range.logical_block_number <= block < range.logical_block_number + range.number_of_blocks
}

/// The blocks of a file that a range covers follow each other from its physical block on. Those that no
/// range covers, and those of a range without data, are not stored.
pub proof fn lemma_extents_place(
    geometry: XfsGeometry,
    inode: XfsInodeInfo,
    ranges: Seq<XfsBlockRange>,
    offset: int,
) -> (index: int)
    requires
        geometry.is_usable(),
        block_ranges(inode) == Ok::<Seq<XfsBlockRange>, DriverError>(ranges),
        data_extents(geometry, inode) is Ok,
        0 <= offset < inode.data_size,
    ensures
        0 <= index < data_extents(geometry, inode)->Ok_0.len(),
        forall|i: int|
            0 <= i < ranges.len() && range_covers(
                #[trigger] ranges[i],
                offset / geometry.block_size as int,
            ) && !ranges[i].is_sparse ==> {
                let block = absolute_block(geometry, ranges[i].physical_block_number);
                &&& block is Ok
                &&& extent_places(
                    data_extents(geometry, inode)->Ok_0[index],
                    offset,
                    Some(
                        block->Ok_0 * geometry.block_size + (offset
                            - ranges[i].logical_block_number * geometry.block_size),
                    ),
                )
            },
        (forall|i: int|
            0 <= i < ranges.len() && range_covers(
                #[trigger] ranges[i],
                offset / geometry.block_size as int,
            ) ==> ranges[i].is_sparse) ==> extent_places(
            data_extents(geometry, inode)->Ok_0[index],
            offset,
            None,
        ),
{
    broadcast use vstd::seq_lib::group_to_multiset_ensures;

    let size = geometry.block_size as int;
    let block = offset / size;
    let sorted = sorted_ranges(ranges);
    let total = data_blocks(inode.data_size, geometry.block_size);
    let filled = filled_from(sorted, total, 0, 0, Seq::empty())->Ok_0;
    lemma_sorted_ranges(ranges);
    lemma_data_blocks(inode.data_size, geometry.block_size);
    assert(block < total) by (nonlinear_arith)
        requires
            0 < size,
            0 <= offset < inode.data_size,
            block == offset / size,
            total == inode.data_size as int / size + (if inode.data_size as int % size == 0 {
                0int
            } else {
                1int
            }),
    ;
    assert(0 <= block) by (nonlinear_arith)
        requires
            0 < size,
            0 <= offset,
            block == offset / size,
    ;
    let index = lemma_filled_covers(sorted, total, 0, 0, Seq::empty(), block);
    let range = filled[index];
    lemma_extents_of_ranges(geometry, inode.data_size, filled, 0, Seq::empty());
    lemma_range_extent_places(geometry, inode.data_size, range, offset);
    assert forall|i: int|
        0 <= i < ranges.len() && range_covers(#[trigger] ranges[i], block) implies range
        == ranges[i] by {
        assert(ranges.to_multiset().contains(ranges[i]));
        assert(sorted.to_multiset().contains(ranges[i]));
        let j = choose|j: int| 0 <= j < sorted.len() && sorted[j] == ranges[i];
        assert(range_covers(sorted[j], block));
    }
    if exists|j: int| 0 <= j < sorted.len() && range_covers(#[trigger] sorted[j], block) {
        let j = choose|j: int| 0 <= j < sorted.len() && range_covers(#[trigger] sorted[j], block);
        assert(sorted.to_multiset().contains(sorted[j]));
        assert(ranges.to_multiset().contains(sorted[j]));
        let i = choose|i: int| 0 <= i < ranges.len() && ranges[i] == sorted[j];
        assert(range_covers(ranges[i], block));
    }
    index
}

/// The byte of a file in a range is as far behind the start of the physical block of the range as it is
/// behind the start of its logical block. It is zero in a range without data.
proof fn lemma_range_extent_places(
    geometry: XfsGeometry,
    data_size: u64,
    range: XfsBlockRange,
    offset: int,
)
    requires
        0 < geometry.block_size,
        0 <= offset < data_size,
        range_covers(range, offset / geometry.block_size as int),
        range_extent(geometry, data_size, range) is Ok,
    ensures
        range.is_sparse ==> extent_places(
            range_extent(geometry, data_size, range)->Ok_0,
            offset,
            None,
        ),
        !range.is_sparse ==> absolute_block(geometry, range.physical_block_number) is Ok,
        !range.is_sparse ==> extent_places(
            range_extent(geometry, data_size, range)->Ok_0,
            offset,
            Some(
                absolute_block(geometry, range.physical_block_number)->Ok_0 * geometry.block_size
                    + (offset - range.logical_block_number * geometry.block_size),
            ),
        ),
{
    let size = geometry.block_size as int;
    let block = offset / size;
    let first = range.logical_block_number as int;
    let count = range.number_of_blocks as int;
    assert(first * size <= offset < first * size + count * size) by (nonlinear_arith)
        requires
            0 < size,
            0 <= offset,
            block == offset / size,
            first <= block < first + count,
    ;
    assert(0 <= count * size) by (nonlinear_arith)
        requires
            0 <= count,
            0 < size,
    ;
}

/// The extents of ranges are in the order of the ranges.
proof fn lemma_extents_of_ranges(
    geometry: XfsGeometry,
    data_size: u64,
    ranges: Seq<XfsBlockRange>,
    index: int,
    extents: Seq<FileExtent>,
)
    requires
        0 <= index <= ranges.len(),
        extents_from(geometry, data_size, ranges, index, extents) is Ok,
    ensures
        ({
            let all = extents_from(geometry, data_size, ranges, index, extents)->Ok_0;
            &&& all.len() == extents.len() + ranges.len() - index
            &&& forall|i: int| 0 <= i < extents.len() ==> all[i] == extents[i]
            &&& forall|i: int|
                index <= i < ranges.len() ==> range_extent(
                    geometry,
                    data_size,
                    #[trigger] ranges[i],
                ) == Ok::<FileExtent, DriverError>(all[extents.len() + i - index])
        }),
    decreases ranges.len() - index,
{
    if index < ranges.len() {
        let extent = range_extent(geometry, data_size, ranges[index])->Ok_0;
        let more = extents.push(extent);
        lemma_extents_of_ranges(geometry, data_size, ranges, index + 1, more);
        let all = extents_from(geometry, data_size, ranges, index + 1, more)->Ok_0;
        assert forall|i: int| 0 <= i < extents.len() implies all[i] == extents[i] by {
            assert(all[i] == more[i]);
        }
        assert(all[extents.len() as int] == more[extents.len() as int]);
    }
}

/// Each block up to the last one is covered: by its range, or by one without data where it has none.
proof fn lemma_filled_covers(
    ranges: Seq<XfsBlockRange>,
    total: u64,
    index: int,
    end: u64,
    filled: Seq<XfsBlockRange>,
    block: int,
) -> (at: int)
    requires
        0 <= index <= ranges.len(),
        filled_from(ranges, total, index, end, filled) is Ok,
        end <= block < total,
    ensures
        ({
            let all = filled_from(ranges, total, index, end, filled)->Ok_0;
            &&& filled.len() <= at < all.len()
            &&& range_covers(all[at], block)
            &&& forall|i: int|
                index <= i < ranges.len() && range_covers(#[trigger] ranges[i], block) ==> all[at]
                    == ranges[i]
            &&& (exists|i: int|
                index <= i < ranges.len() && range_covers(#[trigger] ranges[i], block))
                || all[at].is_sparse
        }),
    decreases ranges.len() - index,
{
    if index >= ranges.len() {
        filled.len() as int
    } else if ranges[index].number_of_blocks == 0 {
        let at = lemma_filled_covers(ranges, total, index + 1, end, filled, block);
        at
    } else {
        let start = ranges[index].logical_block_number;
        let next = (start + ranges[index].number_of_blocks) as u64;
        let more = (if start > end {
            filled.push(gap_range(end, start))
        } else {
            filled
        }).push(ranges[index]);
        lemma_filled_after(ranges, total, index + 1, next, more);
        let all = filled_from(ranges, total, index + 1, next, more)->Ok_0;
        if block < start {
            let at = filled.len() as int;
            assert(all[at] == more[at]);
            at
        } else if block < next {
            let at = more.len() - 1;
            assert(all[at] == more[at]);
            assert(range_covers(ranges[index], block));
            at
        } else {
            let at = lemma_filled_covers(ranges, total, index + 1, next, more, block);
            at
        }
    }
}

/// The ranges that were there stay in front, and those that follow start behind them.
proof fn lemma_filled_after(
    ranges: Seq<XfsBlockRange>,
    total: u64,
    index: int,
    end: u64,
    filled: Seq<XfsBlockRange>,
)
    requires
        0 <= index <= ranges.len(),
        filled_from(ranges, total, index, end, filled) is Ok,
    ensures
        ({
            let all = filled_from(ranges, total, index, end, filled)->Ok_0;
            &&& filled.len() <= all.len()
            &&& forall|i: int| 0 <= i < filled.len() ==> all[i] == filled[i]
            &&& forall|i: int|
                index <= i < ranges.len() && ranges[i].number_of_blocks > 0 ==> end <= (
                #[trigger] ranges[i]).logical_block_number
        }),
    decreases ranges.len() - index,
{
    if index < ranges.len() {
        if ranges[index].number_of_blocks == 0 {
            lemma_filled_after(ranges, total, index + 1, end, filled);
        } else {
            let start = ranges[index].logical_block_number;
            let next = (start + ranges[index].number_of_blocks) as u64;
            let more = (if start > end {
                filled.push(gap_range(end, start))
            } else {
                filled
            }).push(ranges[index]);
            lemma_filled_after(ranges, total, index + 1, next, more);
            let all = filled_from(ranges, total, index + 1, next, more)->Ok_0;
            assert forall|i: int| 0 <= i < filled.len() implies all[i] == filled[i] by {
                assert(all[i] == more[i]);
            }
        }
    }
}

/// XFS inode.
pub struct XfsInode {
    pub file_mode: u16,
    pub data_fork_format: u8,
    pub data_size: u64,
    pub number_of_extents: u32,
    pub data_fork: Vec<u8>,
}

impl XfsInode {
    /// What the inode says.
    pub open spec fn view(&self) -> XfsInodeInfo {
        XfsInodeInfo {
            file_mode: self.file_mode,
            data_fork_format: self.data_fork_format,
            data_size: self.data_size,
            number_of_extents: self.number_of_extents,
            data_fork: self.data_fork@,
        }
    }

    /// Whether inline data lies in the data fork.
    pub open spec fn is_sound(&self) -> bool {
        self.data_fork_format == 1 ==> self.data_size <= self.data_fork@.len()
    }

    fn read_data(data: &[u8]) -> (result: Result<Self, DriverError>)
        ensures
            match result {
                Ok(inode) => {
                    &&& inode_in(data@) == Ok::<XfsInodeInfo, DriverError>(inode@)
                    &&& inode.is_sound()
                },
                Err(error) => inode_in(data@) == Err::<XfsInodeInfo, DriverError>(error),
            },
    {
        let length: usize = data.len();
        if length < 100 || read_u16_be(data, 0) != 0x494e || data[4] < 1 || data[4] > 3 {
            return Err(DriverError::Unsupported);
        }
        let core_size: usize = if data[4] == 3 {
            176
        } else {
            100
        };
        if length < core_size {
            return Err(DriverError::Unsupported);
        }
        let mut fork_size: usize = length - core_size;
        if data[82] > 0 {
            let attribute_offset: usize = 8 * (data[82] as usize);
            if attribute_offset > fork_size {
                return Err(DriverError::OutOfBounds);
            }
            fork_size = attribute_offset;
        }
        let data_size: u64 = read_u64_be(data, 56);
        if data[5] == 1 && data_size > fork_size as u64 {
            return Err(DriverError::OutOfBounds);
        }
        let fork: &[u8] = vstd::slice::slice_subrange(data, core_size, core_size + fork_size);
        Ok(
            XfsInode {
                file_mode: read_u16_be(data, 2),
                data_fork_format: data[5],
                data_size,
                number_of_extents: read_u32_be(data, 76),
                data_fork: vstd::slice::slice_to_vec(fork),
            },
        )
    }

    /// Reads the inode with a number.
    pub(crate) fn read(
        source: &DataSourceReference,
        geometry: &XfsGeometry,
        inode_number: u64,
    ) -> (result: Result<Self, DriverError>)
        requires
            geometry.is_usable(),
        ensures
            match result {
                Ok(inode) => {
                    &&& inode_of(source.content(), *geometry, inode_number) == Ok::<
                        XfsInodeInfo,
                        DriverError,
                    >(inode@)
                    &&& inode.is_sound()
                },
                Err(error) => source.reliable() ==> inode_of(
                    source.content(),
                    *geometry,
                    inode_number,
                ) == Err::<XfsInodeInfo, DriverError>(error),
            },
    {
        let offset: u64 = get_inode_offset(source, geometry, inode_number)?;
        let data: Vec<u8> = read_bytes(source, offset, geometry.inode_size as usize)?;
        Self::read_data(data.as_slice())
    }

    /// Reads the block ranges of the inode.
    pub(crate) fn read_block_ranges(&self) -> (result: Result<Vec<XfsBlockRange>, DriverError>)
        ensures
            match result {
                Ok(ranges) => {
                    &&& block_ranges(self@) == Ok::<Seq<XfsBlockRange>, DriverError>(ranges@)
                    &&& forall|i: int|
                        0 <= i < ranges@.len() ==> (#[trigger] ranges@[i]).number_of_blocks
                            <= 0x20_0000
                },
                Err(error) => block_ranges(self@) == Err::<Seq<XfsBlockRange>, DriverError>(error),
            },
    {
        let mut ranges: Vec<XfsBlockRange> = Vec::new();
        assert(ranges@ =~= Seq::<XfsBlockRange>::empty());
        if self.data_fork_format == 1 {
            return Ok(ranges);
        }
        if self.data_fork_format != 2 {
            return Err(DriverError::Unsupported);
        }
        let data: &[u8] = self.data_fork.as_slice();
        let length: usize = data.len();
        let count: u32 = self.number_of_extents;
        let mut index: u32 = 0;
        while index < count
            invariant
                index <= count,
                count == self.number_of_extents,
                data@ == self.data_fork@,
                length == data@.len(),
                block_ranges(self@) == ranges_from(data@, count, index as int, ranges@),
                forall|i: int|
                    0 <= i < ranges@.len() ==> (#[trigger] ranges@[i]).number_of_blocks
                        <= 0x20_0000,
            decreases count - index,
        {
            if 16 * (index as u64) + 16 > length as u64 {
                return Err(DriverError::OutOfBounds);
            }
            let offset: usize = 16 * (index as usize);
            let upper: u64 = read_u64_be(data, offset);
            let lower: u64 = read_u64_be(data, offset + 8);
            ranges.push(
                XfsBlockRange {
                    logical_block_number: (upper / 0x200) % 0x40_0000_0000_0000,
                    physical_block_number: (lower / 0x20_0000) | (upper % 0x200),
                    number_of_blocks: lower % 0x20_0000,
                    is_sparse: upper >= 0x8000_0000_0000_0000,
                },
            );
            index += 1;
        }
        Ok(ranges)
    }

    /// Determines the extents of the data of the inode.
    pub(crate) fn read_extents(&self, geometry: &XfsGeometry) -> (result: Result<
        Vec<FileExtent>,
        DriverError,
    >)
        requires
            geometry.is_usable(),
        ensures
            match result {
                Ok(extents) => data_extents(*geometry, self@) == Ok::<Seq<FileExtent>, DriverError>(
                    extents@,
                ),
                Err(error) => data_extents(*geometry, self@) == Err::<Seq<FileExtent>, DriverError>(
                    error,
                ),
            },
    {
        let ranges: Vec<XfsBlockRange> = self.read_block_ranges()?;
        let sorted: Vec<XfsBlockRange> = sort_ranges(&ranges);
        proof {
            lemma_data_blocks(self.data_size, geometry.block_size);
        }
        let block_size: u64 = geometry.block_size as u64;
        let total: u64 = self.data_size / block_size + if self.data_size % block_size == 0 {
            0u64
        } else {
            1u64
        };
        let filled: Vec<XfsBlockRange> = fill_ranges(&sorted, total)?;
        let ghost whole = extents_from(*geometry, self.data_size, filled@, 0, Seq::empty());
        let mut extents: Vec<FileExtent> = Vec::new();
        let mut index: usize = 0;
        assert(extents@ =~= Seq::<FileExtent>::empty());
        while index < filled.len()
            invariant
                index <= filled@.len(),
                geometry.is_usable(),
                whole == extents_from(*geometry, self.data_size, filled@, 0, Seq::empty()),
                whole == extents_from(
                    *geometry,
                    self.data_size,
                    filled@,
                    index as int,
                    extents@,
                ),
                data_extents(*geometry, self@) == whole,
            decreases filled@.len() - index,
        {
            let extent: FileExtent = make_extent(geometry, self.data_size, &filled[index])?;
            extents.push(extent);
            index += 1;
        }
        Ok(extents)
    }
}

/// The number of blocks is the quotient, rounded up.
proof fn lemma_data_blocks(data_size: u64, block_size: u32)
    requires
        512 <= block_size <= 65536,
    ensures
        data_blocks(data_size, block_size) == data_size as int / block_size as int + (if data_size
            as int % block_size as int == 0 {
            0int
        } else {
            1int
        }),
        data_size as int / block_size as int + 1 <= u64::MAX,
{
    let d = data_size as int;
    let b = block_size as int;
    assert(d / b + 1 <= u64::MAX) by (nonlinear_arith)
        requires
            0 <= d <= u64::MAX,
            512 <= b,
    ;
    assert((d + b - 1) / b == d / b + (if d % b == 0 {
        0int
    } else {
        1int
    })) by (nonlinear_arith)
        requires
            0 <= d,
            512 <= b,
    ;
}

fn sort_ranges(ranges: &Vec<XfsBlockRange>) -> (sorted: Vec<XfsBlockRange>)
    ensures
        sorted@ == sorted_ranges(ranges@),
{
    let mut sorted: Vec<XfsBlockRange> = Vec::new();
    let mut index: usize = 0;
    assert(ranges@.take(0) =~= Seq::<XfsBlockRange>::empty());
    while index < ranges.len()
        invariant
            index <= ranges@.len(),
            sorted@ == sorted_ranges(ranges@.take(index as int)),
        decreases ranges@.len() - index,
    {
        let range: XfsBlockRange = ranges[index];
        let ghost before = sorted@;
        let mut at: usize = sorted.len();
        assert(before.take(at as int) =~= before);
        assert(insert_range(before, range) =~= insert_range(before.take(at as int), range)
            + before.skip(at as int));
        while at > 0 && sorted[at - 1].logical_block_number > range.logical_block_number
            invariant
                sorted@ == before,
                at <= before.len(),
                insert_range(before, range) == insert_range(before.take(at as int), range)
                    + before.skip(at as int),
            decreases at,
        {
            let ghost taken = before.take(at as int);
            assert(taken.drop_last() =~= before.take(at - 1));
            assert(taken.last() == before[at - 1]);
            assert(insert_range(taken.drop_last(), range).push(taken.last()) + before.skip(
                at as int,
            ) =~= insert_range(before.take(at - 1), range) + before.skip(at - 1));
            at -= 1;
        }
        proof {
            let taken = before.take(at as int);
            assert(insert_range(taken, range) == taken.push(range));
            assert(before.insert(at as int, range) =~= taken.push(range) + before.skip(at as int));
            assert(ranges@.take(index + 1).drop_last() =~= ranges@.take(index as int));
        }
        sorted.insert(at, range);
        index += 1;
    }
    assert(ranges@.take(index as int) =~= ranges@);
    sorted
}

fn fill_ranges(ranges: &Vec<XfsBlockRange>, total: u64) -> (result: Result<
    Vec<XfsBlockRange>,
    DriverError,
>)
    ensures
        match result {
            Ok(filled) => filled_from(ranges@, total, 0, 0, Seq::empty()) == Ok::<
                Seq<XfsBlockRange>,
                DriverError,
            >(filled@),
            Err(error) => filled_from(ranges@, total, 0, 0, Seq::empty()) == Err::<
                Seq<XfsBlockRange>,
                DriverError,
            >(error),
        },
{
    let ghost whole = filled_from(ranges@, total, 0, 0, Seq::empty());
    let mut filled: Vec<XfsBlockRange> = Vec::new();
    let mut end: u64 = 0;
    let mut index: usize = 0;
    assert(filled@ =~= Seq::<XfsBlockRange>::empty());
    while index < ranges.len()
        invariant
            index <= ranges@.len(),
            whole == filled_from(ranges@, total, 0, 0, Seq::empty()),
            whole == filled_from(ranges@, total, index as int, end, filled@),
        decreases ranges@.len() - index,
    {
        let range: XfsBlockRange = ranges[index];
        if range.number_of_blocks != 0 {
            if range.logical_block_number < end {
                return Err(DriverError::Overlap);
            }
            let next: u64 = range.logical_block_number.checked_add(range.number_of_blocks).ok_or(
                DriverError::Overflow,
            )?;
            if range.logical_block_number > end {
                filled.push(
                    XfsBlockRange {
                        logical_block_number: end,
                        physical_block_number: 0,
                        number_of_blocks: range.logical_block_number - end,
                        is_sparse: true,
                    },
                );
            }
            filled.push(range);
            end = next;
        }
        index += 1;
    }
    if end < total {
        filled.push(
            XfsBlockRange {
                logical_block_number: end,
                physical_block_number: 0,
                number_of_blocks: total - end,
                is_sparse: true,
            },
        );
    }
    Ok(filled)
}

fn make_extent(geometry: &XfsGeometry, data_size: u64, range: &XfsBlockRange) -> (result: Result<
    FileExtent,
    DriverError,
>)
    requires
        geometry.is_usable(),
    ensures
        result == range_extent(*geometry, data_size, *range),
{
    let block_size: u64 = geometry.block_size as u64;
    let start: u64 = range.logical_block_number.checked_mul(block_size).ok_or(
        DriverError::Overflow,
    )?;
    let rest: u64 = if start < data_size {
        data_size - start
    } else {
        0
    };
    let size: u64 = match range.number_of_blocks.checked_mul(block_size) {
        Some(length) => if length < rest {
            length
        } else {
            rest
        },
        None => rest,
    };
    if range.is_sparse {
        return Ok(FileExtent { logical_offset: start, size, offset: None });
    }
    let block: u64 = get_absolute_block(geometry, range.physical_block_number)?;
    let offset: u64 = block.checked_mul(block_size).ok_or(DriverError::Overflow)?;
    Ok(FileExtent { logical_offset: start, size, offset: Some(offset) })
}

/// The extents of a file end with its data.
pub proof fn lemma_extents_size(
    source: DataSourceReference,
    geometry: XfsGeometry,
    inode: XfsInodeInfo,
)
    requires
        geometry.is_usable(),
        data_extents(geometry, inode) is Ok,
        file_size(source, data_extents(geometry, inode)->Ok_0) is Ok,
    ensures
        file_size(source, data_extents(geometry, inode)->Ok_0) == Ok::<u64, DriverError>(
            inode.data_size,
        ),
{
    let sorted = sorted_ranges(block_ranges(inode)->Ok_0);
    let total = data_blocks(inode.data_size, geometry.block_size);
    let filled = filled_from(sorted, total, 0, 0, Seq::empty())->Ok_0;
    let extents = data_extents(geometry, inode)->Ok_0;
    let d = inode.data_size as int;
    let b = geometry.block_size as int;
    lemma_data_blocks(inode.data_size, geometry.block_size);
    lemma_filled_end(sorted, total, 0, 0, Seq::empty());
    lemma_extents_last(geometry, inode.data_size, filled, 0, Seq::empty());
    assert(extent_entries(source, extents).len() == extents.len());
    assert(d <= total * b) by (nonlinear_arith)
        requires
            0 <= d,
            512 <= b,
            total == d / b + (if d % b == 0 {
                0int
            } else {
                1int
            }),
    ;
    if filled.len() == 0 {
        assert(total * b == 0) by (nonlinear_arith)
            requires
                total == 0,
        ;
    } else {
        let last = filled.last();
        let end = last.logical_block_number + last.number_of_blocks;
        assert(total * b <= end * b) by (nonlinear_arith)
            requires
                total <= end,
                0 < b,
        ;
        assert(end * b == last.logical_block_number * b + last.number_of_blocks * b)
            by (nonlinear_arith)
            requires
                end == last.logical_block_number + last.number_of_blocks,
        ;
        assert(extent_entries(source, extents).last().size == extents.last().size);
        assert(extent_entries(source, extents).last().logical_offset
            == extents.last().logical_offset);
    }
}

/// Filled ranges reach the number of blocks.
proof fn lemma_filled_end(
    ranges: Seq<XfsBlockRange>,
    total: u64,
    index: int,
    end: u64,
    filled: Seq<XfsBlockRange>,
)
    requires
        0 <= index,
        filled.len() == 0 ==> end == 0,
        filled.len() > 0 ==> filled.last().logical_block_number + filled.last().number_of_blocks
            == end,
    ensures
        filled_from(ranges, total, index, end, filled) matches Ok(all) ==> {
            &&& all.len() == 0 ==> total == 0
            &&& all.len() > 0 ==> all.last().logical_block_number + all.last().number_of_blocks
                >= total
        },
    decreases ranges.len() - index,
{
    if index < ranges.len() {
        if ranges[index].number_of_blocks == 0 {
            lemma_filled_end(ranges, total, index + 1, end, filled);
        } else if ranges[index].logical_block_number >= end {
            let start = ranges[index].logical_block_number;
            let next = start + ranges[index].number_of_blocks;
            if next <= u64::MAX {
                lemma_filled_end(
                    ranges,
                    total,
                    index + 1,
                    next as u64,
                    (if start > end {
                        filled.push(gap_range(end, start))
                    } else {
                        filled
                    }).push(ranges[index]),
                );
            }
        }
    }
}

/// The last extent is that of the last range.
proof fn lemma_extents_last(
    geometry: XfsGeometry,
    data_size: u64,
    ranges: Seq<XfsBlockRange>,
    index: int,
    extents: Seq<FileExtent>,
)
    requires
        0 <= index <= ranges.len(),
        index == 0 ==> extents.len() == 0,
        index > 0 ==> extents.len() > 0 && range_extent(
            geometry,
            data_size,
            ranges[index - 1],
        ) == Ok::<FileExtent, DriverError>(extents.last()),
    ensures
        extents_from(geometry, data_size, ranges, index, extents) matches Ok(all) ==> {
            &&& ranges.len() == 0 ==> all.len() == 0
            &&& ranges.len() > 0 ==> all.len() > 0 && range_extent(
                geometry,
                data_size,
                ranges.last(),
            ) == Ok::<FileExtent, DriverError>(all.last())
        },
    decreases ranges.len() - index,
{
    if index < ranges.len() {
        if let Ok(extent) = range_extent(geometry, data_size, ranges[index]) {
            lemma_extents_last(geometry, data_size, ranges, index + 1, extents.push(extent));
        }
    }
}

} // verus!
