//! Volume header and forks of an HFS file system.

use vstd::prelude::*;

use crate::bytes::{
    holds_be, lemma_holds_be, read_u16_be, read_u32_be, read_u64_be, u16_be, u32_be, u64_be,
};
use crate::error::DriverError;
use crate::filesystem::extents::{
    extent_entries, extent_places, file_size, is_opened, open_error, open_file_extents, FileData,
    FileExtent,
};
use crate::source::data_source::{read_bytes, Content, DataSource, DataSourceReference};
use crate::source::memory::MemoryDataSource;

verus! {

/// HFS format.
#[derive(Clone, Copy, Debug, PartialEq, Eq, Hash, Structural)]
pub enum HfsFormat {
    Hfs,
    HfsPlus,
    HfsX,
}

/// A number of blocks that follow each other.
#[derive(Clone, Copy, Debug, PartialEq, Eq, Structural)]
pub struct HfsExtent {
    pub block_number: u32,
    pub number_of_blocks: u32,
}

/// What a fork descriptor says.
pub struct HfsForkInfo {
    pub size: u64,
    pub number_of_blocks: u32,
    pub extents: Seq<HfsExtent>,
}

/// How blocks are addressed.
#[derive(Clone, Copy, Debug, PartialEq, Eq, Structural)]
pub struct HfsGeometry {
    pub format: HfsFormat,
    pub block_size: u32,
    pub data_area_block_number: u16,
}

/// The extents of the 16-bit numbers from `index` on, after those before them. There are at most
/// three, and one of zeros ends them.
pub open spec fn small_extents_from(
    data: Seq<u8>,
    offset: int,
    index: int,
    extents: Seq<HfsExtent>,
) -> Result<Seq<HfsExtent>, DriverError>
    decreases 3 - index,
{
    let at = offset + 4 * index;
    if index >= 3 {
        Ok(extents)
    } else if at + 4 > data.len() {
        Err(DriverError::OutOfBounds)
    } else if u32_be(data, at) == 0 {
        Ok(extents)
    } else {
        small_extents_from(
            data,
            offset,
            index + 1,
            extents.push(
                HfsExtent {
                    block_number: u16_be(data, at) as u32,
                    number_of_blocks: u16_be(data, at + 2) as u32,
                },
            ),
        )
    }
}

/// The extents of the 32-bit numbers from `index` on, after those before them. There are at most
/// eight, and one of zeros ends them.
pub open spec fn large_extents_from(
    data: Seq<u8>,
    offset: int,
    index: int,
    extents: Seq<HfsExtent>,
) -> Seq<HfsExtent>
    decreases 8 - index,
{
    let at = offset + 8 * index;
    if index >= 8 || u64_be(data, at) == 0 {
        extents
    } else {
        large_extents_from(
            data,
            offset,
            index + 1,
            extents.push(
                HfsExtent {
                    block_number: u32_be(data, at),
                    number_of_blocks: u32_be(data, at + 4),
                },
            ),
        )
    }
}

/// The fork descriptor at an offset.
pub open spec fn fork_at(data: Seq<u8>, offset: int) -> HfsForkInfo {
    HfsForkInfo {
        size: u64_be(data, offset),
        number_of_blocks: u32_be(data, offset + 12),
        extents: large_extents_from(data, offset + 16, 0, Seq::empty()),
    }
}

/// The number of blocks that a size takes.
pub open spec fn blocks_of(size: u32, block_size: u32) -> u32 {
    ((size + block_size - 1) / block_size as int) as u32
}

/// What a volume header says: how blocks are addressed, and the fork of the catalog. It has the
/// signature "BD", "H+" or "HX".
pub open spec fn header_in(data: Seq<u8>) -> Result<(HfsGeometry, HfsForkInfo), DriverError> {
    if u16_be(data, 0) == 0x4244 {
        let block_size = u32_be(data, 20);
        if block_size == 0 {
            Err(DriverError::Invalid)
        } else {
            match small_extents_from(data, 150, 0, Seq::empty()) {
                Err(error) => Err(error),
                Ok(extents) => Ok(
                    (
                        HfsGeometry {
                            format: HfsFormat::Hfs,
                            block_size,
                            data_area_block_number: u16_be(data, 28),
                        },
                        HfsForkInfo {
                            size: u32_be(data, 146) as u64,
                            number_of_blocks: blocks_of(u32_be(data, 146), block_size),
                            extents,
                        },
                    ),
                ),
            }
        }
    } else if u16_be(data, 0) == 0x482b || u16_be(data, 0) == 0x4858 {
        Ok(
            (
                HfsGeometry {
                    format: if u16_be(data, 0) == 0x482b {
                        HfsFormat::HfsPlus
                    } else {
                        HfsFormat::HfsX
                    },
                    block_size: u32_be(data, 40),
                    data_area_block_number: 0,
                },
                fork_at(data, 272),
            ),
        )
    } else {
        Err(DriverError::Unsupported)
    }
}

/// What the volume header of a source says.
pub open spec fn header_of(content: Content) -> Result<(HfsGeometry, HfsForkInfo), DriverError> {
    match content.exact(1024, 512) {
        Err(error) => Err(error),
        Ok(data) => header_in(data),
    }
}

/// The number of blocks in extents.
pub open spec fn extent_blocks(extents: Seq<HfsExtent>) -> int
    decreases extents.len(),
{
    if extents.len() == 0 {
        0
    } else {
        extent_blocks(extents.drop_last()) + extents.last().number_of_blocks
    }
}

/// The extents of a fork from `index` on, after those that end at an offset.
pub open spec fn fork_extents_from(
    geometry: HfsGeometry,
    fork: HfsForkInfo,
    index: int,
    end: u64,
    extents: Seq<FileExtent>,
) -> Result<Seq<FileExtent>, DriverError>
    decreases fork.extents.len() - index,
{
    let remaining = fork.size - end;
    let length = fork.extents[index].number_of_blocks * geometry.block_size;
    let size = if length < remaining {
        length
    } else {
        remaining
    };
    let block = fork.extents[index].block_number + (if geometry.format == HfsFormat::Hfs {
        geometry.data_area_block_number as int
    } else {
        0
    });
    if remaining <= 0 {
        Ok(extents)
    } else if index >= fork.extents.len() {
        Err(DriverError::OutOfBounds)
    } else if block * geometry.block_size > u64::MAX {
        Err(DriverError::Overflow)
    } else {
        fork_extents_from(
            geometry,
            fork,
            index + 1,
            (end + size) as u64,
            extents.push(
                FileExtent {
                    logical_offset: end,
                    size: size as u64,
                    offset: Some((block * geometry.block_size) as u64),
                },
            ),
        )
    }
}

/// Where the data of a fork is. Extents outside of the fork descriptor are not supported.
pub open spec fn fork_data(geometry: HfsGeometry, fork: HfsForkInfo) -> Result<
    FileData,
    DriverError,
> {
    if fork.size == 0 {
        Ok(FileData::Inline(Seq::empty()))
    } else if extent_blocks(fork.extents) < fork.number_of_blocks {
        Err(DriverError::Unsupported)
    } else {
        match fork_extents_from(geometry, fork, 0, 0, Seq::empty()) {
            Err(error) => Err(error),
            Ok(extents) => Ok(FileData::Stored(extents)),
        }
    }
}

/// Whether extents are stored from an offset on, in big-endian order, the block and the number of blocks
/// of each in `size` bytes: up to `capacity` of them, and zeros behind them if there are fewer.
pub open spec fn holds_extents(
    data: Seq<u8>,
    offset: int,
    size: nat,
    capacity: int,
    extents: Seq<HfsExtent>,
) -> bool {
    &&& extents.len() <= capacity
    &&& forall|i: int|
        0 <= i < extents.len() ==> {
            let extent = #[trigger] extents[i];
            &&& holds_be(data, offset + 2 * size * i, size, extent.block_number as int)
            &&& holds_be(data, offset + 2 * size * i + size, size, extent.number_of_blocks as int)
            &&& extent.block_number != 0 || extent.number_of_blocks != 0
        }
    &&& extents.len() < capacity ==> {
        &&& holds_be(data, offset + 2 * size * extents.len(), size, 0)
        &&& holds_be(data, offset + 2 * size * extents.len() + size, size, 0)
    }
}

/// The extents that are stored in 16-bit numbers are read back.
pub proof fn lemma_small_extents_stored(data: Seq<u8>, offset: int, extents: Seq<HfsExtent>)
    requires
        holds_extents(data, offset, 2, 3, extents),
        0 <= offset,
        offset + 12 <= data.len(),
    ensures
        small_extents_from(data, offset, 0, Seq::empty()) == Ok::<Seq<HfsExtent>, DriverError>(
            extents,
        ),
{
    assert(extents.take(0) =~= Seq::empty());
    lemma_small_extents_stored_from(data, offset, extents, 0);
}

proof fn lemma_small_extents_stored_from(
    data: Seq<u8>,
    offset: int,
    extents: Seq<HfsExtent>,
    index: int,
)
    requires
        holds_extents(data, offset, 2, 3, extents),
        0 <= offset,
        offset + 12 <= data.len(),
        0 <= index <= extents.len(),
    ensures
        small_extents_from(data, offset, index, extents.take(index)) == Ok::<
            Seq<HfsExtent>,
            DriverError,
        >(extents),
    decreases extents.len() - index,
{
    let at = offset + 4 * index;
    assert(offset + 2 * 2 * index == at);
    if index < extents.len() {
        let extent = extents[index];
        lemma_holds_be(data, at, 2, extent.block_number as int);
        lemma_holds_be(data, at + 2, 2, extent.number_of_blocks as int);
        assert(u32_be(data, at) == 0x1_0000 * u16_be(data, at) + u16_be(data, at + 2));
        assert(extents.take(index).push(extent) =~= extents.take(index + 1));
        lemma_small_extents_stored_from(data, offset, extents, index + 1);
    } else {
        assert(extents.take(index) =~= extents);
        if index < 3 {
            lemma_holds_be(data, at, 2, 0);
            lemma_holds_be(data, at + 2, 2, 0);
            assert(u32_be(data, at) == 0x1_0000 * u16_be(data, at) + u16_be(data, at + 2));
        }
    }
}

/// The extents that are stored in 32-bit numbers are read back.
pub proof fn lemma_large_extents_stored(data: Seq<u8>, offset: int, extents: Seq<HfsExtent>)
    requires
        holds_extents(data, offset, 4, 8, extents),
    ensures
        large_extents_from(data, offset, 0, Seq::empty()) == extents,
{
    assert(extents.take(0) =~= Seq::empty());
    lemma_large_extents_stored_from(data, offset, extents, 0);
}

proof fn lemma_large_extents_stored_from(
    data: Seq<u8>,
    offset: int,
    extents: Seq<HfsExtent>,
    index: int,
)
    requires
        holds_extents(data, offset, 4, 8, extents),
        0 <= index <= extents.len(),
    ensures
        large_extents_from(data, offset, index, extents.take(index)) == extents,
    decreases extents.len() - index,
{
    let at = offset + 8 * index;
    assert(offset + 2 * 4 * index == at);
    if index < extents.len() {
        let extent = extents[index];
        lemma_holds_be(data, at, 4, extent.block_number as int);
        lemma_holds_be(data, at + 4, 4, extent.number_of_blocks as int);
        assert(u64_be(data, at) == 0x1_0000_0000 * u32_be(data, at) + u32_be(data, at + 4));
        assert(extents.take(index).push(extent) =~= extents.take(index + 1));
        lemma_large_extents_stored_from(data, offset, extents, index + 1);
    } else {
        assert(extents.take(index) =~= extents);
        if index < 8 {
            lemma_holds_be(data, at, 4, 0);
            lemma_holds_be(data, at + 4, 4, 0);
            assert(u64_be(data, at) == 0x1_0000_0000 * u32_be(data, at) + u32_be(data, at + 4));
        }
    }
}

/// Whether a fork descriptor is stored at an offset, in big-endian order: its size, its number of blocks
/// and eight extents.
pub open spec fn holds_fork(data: Seq<u8>, offset: int, fork: HfsForkInfo) -> bool {
    &&& holds_be(data, offset, 8, fork.size as int)
    &&& holds_be(data, offset + 12, 4, fork.number_of_blocks as int)
    &&& holds_extents(data, offset + 16, 4, 8, fork.extents)
}

/// A fork descriptor that is stored is read back.
pub proof fn lemma_fork_stored(data: Seq<u8>, offset: int, fork: HfsForkInfo)
    requires
        holds_fork(data, offset, fork),
    ensures
        fork_at(data, offset) == fork,
{
    lemma_holds_be(data, offset, 8, fork.size as int);
    lemma_holds_be(data, offset + 12, 4, fork.number_of_blocks as int);
    lemma_large_extents_stored(data, offset + 16, fork.extents);
}

/// The volume header of HFS+ and HFSX, which starts with "H+" and "HX", is stored behind the first two
/// sectors: the size of a block, and the fork of the catalog.
pub proof fn lemma_large_header_stored(
    content: Content,
    format: HfsFormat,
    block_size: u32,
    fork: HfsForkInfo,
)
    requires
        content.has(1024, 512),
        ({
            let data = content.window(1024, 512);
            &&& data[0] == 0x48
            &&& format != HfsFormat::Hfs
            &&& format == HfsFormat::HfsPlus ==> data[1] == 0x2b
            &&& format == HfsFormat::HfsX ==> data[1] == 0x58
            &&& holds_be(data, 40, 4, block_size as int)
            &&& holds_fork(data, 272, fork)
        }),
    ensures
        header_of(content) == Ok::<(HfsGeometry, HfsForkInfo), DriverError>(
            (HfsGeometry { format, block_size, data_area_block_number: 0 }, fork),
        ),
{
    let data = content.window(1024, 512);
    lemma_holds_be(data, 40, 4, block_size as int);
    lemma_fork_stored(data, 272, fork);
}

/// The master directory block of HFS, which starts with "BD", is stored behind the first two sectors:
/// the size of a block, the first block of the data area, and the size and the extents of the catalog.
pub proof fn lemma_small_header_stored(
    content: Content,
    block_size: u32,
    data_area_block_number: u16,
    size: u32,
    number_of_blocks: u32,
    extents: Seq<HfsExtent>,
)
    requires
        content.has(1024, 512),
        ({
            let data = content.window(1024, 512);
            &&& data[0] == 0x42 && data[1] == 0x44
            &&& holds_be(data, 20, 4, block_size as int)
            &&& holds_be(data, 28, 2, data_area_block_number as int)
            &&& holds_be(data, 146, 4, size as int)
            &&& holds_extents(data, 150, 2, 3, extents)
        }),
        0 < block_size,
        number_of_blocks * block_size - block_size < size <= number_of_blocks * block_size,
    ensures
        header_of(content) == Ok::<(HfsGeometry, HfsForkInfo), DriverError>(
            (
                HfsGeometry { format: HfsFormat::Hfs, block_size, data_area_block_number },
                HfsForkInfo { size: size as u64, number_of_blocks, extents },
            ),
        ),
{
    broadcast use lemma_holds_be;

    let data = content.window(1024, 512);
    lemma_small_extents_stored(data, 150, extents);
    lemma_blocks_of(size, block_size, number_of_blocks);
}

/// The number of blocks that a size takes is the smallest one that has room for it.
pub proof fn lemma_blocks_of(size: u32, block_size: u32, number_of_blocks: u32)
    requires
        0 < block_size,
        number_of_blocks * block_size - block_size < size <= number_of_blocks * block_size,
    ensures
        blocks_of(size, block_size) == number_of_blocks,
{
    let rest = size + block_size - 1 - number_of_blocks * block_size;
    vstd::arithmetic::div_mod::lemma_fundamental_div_mod_converse(
        size + block_size - 1,
        block_size as int,
        number_of_blocks as int,
        rest,
    );
}

/// Every byte of a fork lies in the extent that covers it, as far behind its first block as it lies
/// behind the blocks of the extents before it. The blocks of HFS are counted from the first one of the
/// data area.
pub proof fn lemma_fork_place(
    geometry: HfsGeometry,
    fork: HfsForkInfo,
    index: int,
    relative_offset: int,
)
    requires
        fork.size > 0,
        fork_data(geometry, fork) is Ok,
        0 <= index < fork.extents.len(),
        0 <= relative_offset < fork.extents[index].number_of_blocks * geometry.block_size,
        extent_blocks(fork.extents.take(index)) * geometry.block_size + relative_offset < fork.size,
    ensures
        ({
            let extents = fork_data(geometry, fork)->Ok_0->Stored_0;
            &&& fork_data(geometry, fork)->Ok_0 is Stored
            &&& index < extents.len()
            &&& extent_places(
                extents[index],
                extent_blocks(fork.extents.take(index)) * geometry.block_size + relative_offset,
                Some(
                    (fork.extents[index].block_number + (if geometry.format == HfsFormat::Hfs {
                        geometry.data_area_block_number as int
                    } else {
                        0
                    })) * geometry.block_size + relative_offset,
                ),
            )
        }),
{
    assert(fork.extents.take(0) =~= Seq::empty());
    lemma_fork_place_from(geometry, fork, index, relative_offset, 0, 0, Seq::empty());
}

proof fn lemma_extent_blocks_grow(extents: Seq<HfsExtent>, first: int, second: int)
    requires
        0 <= first <= second <= extents.len(),
    ensures
        0 <= extent_blocks(extents.take(first)) <= extent_blocks(extents.take(second)),
    decreases second,
{
    if second > 0 {
        assert(extents.take(second).drop_last() =~= extents.take(second - 1));
        if first < second {
            lemma_extent_blocks_grow(extents, first, second - 1);
        } else {
            lemma_extent_blocks_grow(extents, first - 1, second - 1);
        }
    }
}

proof fn lemma_fork_place_from(
    geometry: HfsGeometry,
    fork: HfsForkInfo,
    index: int,
    relative_offset: int,
    at: int,
    end: u64,
    extents: Seq<FileExtent>,
)
    requires
        fork_extents_from(geometry, fork, at, end, extents) is Ok,
        0 <= at <= fork.extents.len(),
        extents.len() == at,
        0 <= index < fork.extents.len(),
        0 <= relative_offset < fork.extents[index].number_of_blocks * geometry.block_size,
        extent_blocks(fork.extents.take(index)) * geometry.block_size + relative_offset < fork.size,
        at <= index ==> end == extent_blocks(fork.extents.take(at)) * geometry.block_size,
        at > index ==> extent_places(
            extents[index],
            extent_blocks(fork.extents.take(index)) * geometry.block_size + relative_offset,
            Some(
                (fork.extents[index].block_number + (if geometry.format == HfsFormat::Hfs {
                    geometry.data_area_block_number as int
                } else {
                    0
                })) * geometry.block_size + relative_offset,
            ),
        ),
    ensures
        ({
            let all = fork_extents_from(geometry, fork, at, end, extents)->Ok_0;
            &&& index < all.len()
            &&& extent_places(
                all[index],
                extent_blocks(fork.extents.take(index)) * geometry.block_size + relative_offset,
                Some(
                    (fork.extents[index].block_number + (if geometry.format == HfsFormat::Hfs {
                        geometry.data_area_block_number as int
                    } else {
                        0
                    })) * geometry.block_size + relative_offset,
                ),
            )
        }),
    decreases fork.extents.len() - at,
{
    let bs = geometry.block_size as int;
    let remaining = fork.size - end;
    let before = extent_blocks(fork.extents.take(index));
    if at <= index {
        lemma_extent_blocks_grow(fork.extents, at, index);
        assert(extent_blocks(fork.extents.take(at)) * bs <= before * bs) by (nonlinear_arith)
            requires
                extent_blocks(fork.extents.take(at)) <= before,
                0 <= bs,
        ;
        assert(remaining > 0);
    }
    if remaining > 0 && at < fork.extents.len() {
        let count = fork.extents[at].number_of_blocks as int;
        let length = count * bs;
        let size = if length < remaining {
            length
        } else {
            remaining
        };
        let block = fork.extents[at].block_number + (if geometry.format == HfsFormat::Hfs {
            geometry.data_area_block_number as int
        } else {
            0
        });
        assert(0 <= length) by (nonlinear_arith)
            requires
                length == count * bs,
                0 <= count,
                0 <= bs,
        ;
        let more = extents.push(
            FileExtent {
                logical_offset: end,
                size: size as u64,
                offset: Some((block * bs) as u64),
            },
        );
        assert(fork.extents.take(at + 1).drop_last() =~= fork.extents.take(at));
        let sum = extent_blocks(fork.extents.take(at));
        assert(extent_blocks(fork.extents.take(at + 1)) == sum + count);
        assert((sum + count) * bs == sum * bs + count * bs) by (nonlinear_arith);
        if at < index {
            lemma_extent_blocks_grow(fork.extents, at + 1, index);
            assert((sum + count) * bs <= before * bs) by (nonlinear_arith)
                requires
                    sum + count <= before,
                    0 <= bs,
            ;
            assert(size == length);
        } else if at == index {
            assert(0 <= block * bs) by (nonlinear_arith)
                requires
                    0 <= block,
                    0 <= bs,
            ;
            assert(more[index].logical_offset == before * bs);
        } else {
            assert(more[index] == extents[index]);
        }
        lemma_fork_place_from(
            geometry,
            fork,
            index,
            relative_offset,
            at + 1,
            (end + size) as u64,
            more,
        );
    }
}

/// Fork descriptor.
pub struct HfsFork {
    pub size: u64,
    pub number_of_blocks: u32,
    pub extents: Vec<HfsExtent>,
}

impl HfsFork {
    /// What the fork descriptor says.
    pub open spec fn view(&self) -> HfsForkInfo {
        HfsForkInfo {
            size: self.size,
            number_of_blocks: self.number_of_blocks,
            extents: self.extents@,
        }
    }

    /// Whether the fork descriptor has no more extents than there is space for.
    pub open spec fn is_sound(&self) -> bool {
        self.extents@.len() <= 8
    }

    /// Reads the fork descriptor at an offset.
    pub fn read_at(data: &[u8], offset: usize) -> (fork: Self)
        requires
            offset + 80 <= data@.len(),
        ensures
            fork@ == fork_at(data@, offset as int),
            fork.is_sound(),
    {
        let length: usize = data.len();
        assert(offset + 80 <= length);
        let ghost whole = fork_at(data@, offset as int).extents;
        let mut extents: Vec<HfsExtent> = Vec::new();
        let mut index: usize = 0;
        assert(extents@ =~= Seq::<HfsExtent>::empty());
        while index < 8 && read_u64_be(data, offset + 16 + 8 * index) != 0
            invariant
                index <= 8,
                index == extents@.len(),
                offset + 80 <= length,
                length == data@.len(),
                whole == large_extents_from(data@, offset + 16, index as int, extents@),
            decreases 8 - index,
        {
            let at: usize = offset + 16 + 8 * index;
            extents.push(
                HfsExtent {
                    block_number: read_u32_be(data, at),
                    number_of_blocks: read_u32_be(data, at + 4),
                },
            );
            index += 1;
        }
        HfsFork {
            size: read_u64_be(data, offset),
            number_of_blocks: read_u32_be(data, offset + 12),
            extents,
        }
    }

    fn count_blocks(&self) -> (count: u64)
        requires
            self.is_sound(),
        ensures
            count == extent_blocks(self.extents@),
    {
        let mut count: u64 = 0;
        let mut index: usize = 0;
        assert(self.extents@.take(0) =~= Seq::<HfsExtent>::empty());
        while index < self.extents.len()
            invariant
                index <= self.extents@.len() <= 8,
                count == extent_blocks(self.extents@.take(index as int)),
                count <= index * 0xffff_ffff,
            decreases self.extents@.len() - index,
        {
            let ghost taken = self.extents@.take(index + 1);
            assert(taken.drop_last() =~= self.extents@.take(index as int));
            count = count + self.extents[index].number_of_blocks as u64;
            index += 1;
        }
        assert(self.extents@.take(index as int) =~= self.extents@);
        count
    }

    /// Determines the extents of a fork that is not empty.
    fn read_extents(&self, geometry: HfsGeometry) -> (result: Result<Vec<FileExtent>, DriverError>)
        requires
            self.is_sound(),
            self.size > 0,
        ensures
            match result {
                Ok(extents) => fork_data(geometry, self@) == Ok::<FileData, DriverError>(
                    FileData::Stored(extents@),
                ),
                Err(error) => fork_data(geometry, self@) == Err::<FileData, DriverError>(error),
            },
    {
        if self.count_blocks() < self.number_of_blocks as u64 {
            return Err(DriverError::Unsupported);
        }
        let ghost whole = fork_extents_from(geometry, self@, 0, 0, Seq::empty());
        let block_size: u64 = geometry.block_size as u64;
        let mut extents: Vec<FileExtent> = Vec::new();
        let mut end: u64 = 0;
        let mut index: usize = 0;
        assert(extents@ =~= Seq::<FileExtent>::empty());
        while end < self.size
            invariant
                index <= self.extents@.len(),
                end <= self.size,
                block_size == geometry.block_size,
                whole == fork_extents_from(geometry, self@, 0, 0, Seq::empty()),
                whole == fork_extents_from(geometry, self@, index as int, end, extents@),
                self.size > 0,
                extent_blocks(self.extents@) >= self.number_of_blocks,
            decreases self.extents@.len() - index,
        {
            if index >= self.extents.len() {
                return Err(DriverError::OutOfBounds);
            }
            let extent: HfsExtent = self.extents[index];
            let remaining: u64 = self.size - end;
            proof {
                assert(0 <= extent.number_of_blocks * block_size <= u64::MAX) by (nonlinear_arith)
                    requires
                        0 <= extent.number_of_blocks <= 0xffff_ffff,
                        0 <= block_size <= 0xffff_ffff,
                ;
            }
            let length: u64 = extent.number_of_blocks as u64 * block_size;
            let size: u64 = if length < remaining {
                length
            } else {
                remaining
            };
            let block: u64 = match geometry.format {
                HfsFormat::Hfs => extent.block_number as u64
                    + geometry.data_area_block_number as u64,
                HfsFormat::HfsPlus => extent.block_number as u64,
                HfsFormat::HfsX => extent.block_number as u64,
            };
            let offset: u64 = block.checked_mul(block_size).ok_or(DriverError::Overflow)?;
            extents.push(FileExtent { logical_offset: end, size, offset: Some(offset) });
            end = end + size;
            index += 1;
        }
        Ok(extents)
    }

    /// Opens the fork.
    pub fn open(&self, source: &DataSourceReference, geometry: HfsGeometry) -> (result: Result<
        DataSourceReference,
        DriverError,
    >)
        requires
            self.is_sound(),
        ensures
            match result {
                Ok(logical) => {
                    &&& fork_data(geometry, self@) is Ok
                    &&& is_opened(logical, *source, fork_data(geometry, self@)->Ok_0)
                },
                Err(error) => open_error(*source, fork_data(geometry, self@)) == Some(error),
            },
    {
        if self.size == 0 {
            let data: Vec<u8> = Vec::new();
            assert(data@ =~= Seq::<u8>::empty());
            return Ok(MemoryDataSource::new(data).into_reference());
        }
        let extents: Vec<FileExtent> = self.read_extents(geometry)?;
        open_file_extents(source, &extents)
    }
}

/// Reads the extents of 16-bit numbers at an offset.
pub fn read_small_extents(data: &[u8], offset: usize) -> (result: Result<
    Vec<HfsExtent>,
    DriverError,
>)
    requires
        offset <= 0x2_0000,
    ensures
        match result {
            Ok(extents) => {
                &&& small_extents_from(data@, offset as int, 0, Seq::empty()) == Ok::<
                    Seq<HfsExtent>,
                    DriverError,
                >(extents@)
                &&& extents@.len() <= 3
            },
            Err(error) => small_extents_from(data@, offset as int, 0, Seq::empty()) == Err::<
                Seq<HfsExtent>,
                DriverError,
            >(error),
        },
{
    let ghost whole = small_extents_from(data@, offset as int, 0, Seq::empty());
    let mut extents: Vec<HfsExtent> = Vec::new();
    let mut index: usize = 0;
    assert(extents@ =~= Seq::<HfsExtent>::empty());
    while index < 3
        invariant
            index <= 3,
            index == extents@.len(),
            offset <= 0x2_0000,
            whole == small_extents_from(data@, offset as int, 0, Seq::empty()),
            whole == small_extents_from(data@, offset as int, index as int, extents@),
        decreases 3 - index,
    {
        let at: usize = offset + 4 * index;
        if at + 4 > data.len() {
            return Err(DriverError::OutOfBounds);
        }
        if read_u32_be(data, at) == 0 {
            return Ok(extents);
        }
        extents.push(
            HfsExtent {
                block_number: read_u16_be(data, at) as u32,
                number_of_blocks: read_u16_be(data, at + 2) as u32,
            },
        );
        index += 1;
    }
    Ok(extents)
}

/// Reads the volume header of a source.
pub fn read_header(source: &DataSourceReference) -> (result: Result<
    (HfsGeometry, HfsFork),
    DriverError,
>)
    ensures
        match result {
            Ok((geometry, fork)) => {
                &&& header_of(source.content()) == Ok::<(HfsGeometry, HfsForkInfo), DriverError>(
                    (geometry, fork@),
                )
                &&& fork.is_sound()
            },
            Err(error) => source.reliable() ==> header_of(source.content()) == Err::<
                (HfsGeometry, HfsForkInfo),
                DriverError,
            >(error),
        },
{
    let data: Vec<u8> = read_bytes(source, 1024, 512)?;
    let data: &[u8] = data.as_slice();
    let signature: u16 = read_u16_be(data, 0);
    if signature == 0x4244 {
        let block_size: u32 = read_u32_be(data, 20);
        if block_size == 0 {
            return Err(DriverError::Invalid);
        }
        let extents: Vec<HfsExtent> = read_small_extents(data, 150)?;
        let size: u32 = read_u32_be(data, 146);
        let geometry = HfsGeometry {
            format: HfsFormat::Hfs,
            block_size,
            data_area_block_number: read_u16_be(data, 28),
        };
        let fork = HfsFork {
            size: size as u64,
            number_of_blocks: count_blocks_of(size, block_size),
            extents,
        };
        return Ok((geometry, fork));
    }
    if signature != 0x482b && signature != 0x4858 {
        return Err(DriverError::Unsupported);
    }
    let geometry = HfsGeometry {
        format: if signature == 0x482b {
            HfsFormat::HfsPlus
        } else {
            HfsFormat::HfsX
        },
        block_size: read_u32_be(data, 40),
        data_area_block_number: 0,
    };
    Ok((geometry, HfsFork::read_at(data, 272)))
}

/// Calculates the number of blocks that a size takes.
pub fn count_blocks_of(size: u32, block_size: u32) -> (count: u32)
    requires
        0 < block_size,
    ensures
        count == blocks_of(size, block_size),
{
    let sum: u64 = size as u64 + block_size as u64 - 1;
    proof {
        let s = size as int;
        let b = block_size as int;
        assert(0 <= (s + b - 1) / b <= u32::MAX) by (nonlinear_arith)
            requires
                0 <= s <= u32::MAX,
                0 < b,
        ;
    }
    (sum / block_size as u64) as u32
}

/// An open fork is as large as its descriptor says.
pub proof fn lemma_fork_size(
    source: DataSourceReference,
    geometry: HfsGeometry,
    fork: HfsForkInfo,
    logical: DataSourceReference,
)
    requires
        fork_data(geometry, fork) is Ok,
        is_opened(logical, source, fork_data(geometry, fork)->Ok_0),
    ensures
        logical.content().size == fork.size,
{
    if fork.size > 0 {
        lemma_extents_size(source, geometry, fork, 0, 0, Seq::empty());
    }
}

proof fn lemma_extents_size(
    source: DataSourceReference,
    geometry: HfsGeometry,
    fork: HfsForkInfo,
    index: int,
    end: u64,
    extents: Seq<FileExtent>,
)
    requires
        0 <= index,
        end <= fork.size,
        extents.len() == 0 ==> end == 0,
        extents.len() > 0 ==> extents.last().logical_offset + extents.last().size == end,
        fork_extents_from(geometry, fork, index, end, extents) is Ok,
        file_size(source, fork_extents_from(geometry, fork, index, end, extents)->Ok_0) is Ok,
    ensures
        file_size(source, fork_extents_from(geometry, fork, index, end, extents)->Ok_0) == Ok::<
            u64,
            DriverError,
        >(fork.size),
    decreases fork.extents.len() - index,
{
    let remaining = fork.size - end;
    if remaining > 0 {
        let length = fork.extents[index].number_of_blocks * geometry.block_size;
        let size = if length < remaining {
            length
        } else {
            remaining
        };
        let block = fork.extents[index].block_number + (if geometry.format == HfsFormat::Hfs {
            geometry.data_area_block_number as int
        } else {
            0
        });
        assert(0 <= length) by (nonlinear_arith)
            requires
                length == fork.extents[index].number_of_blocks * geometry.block_size,
                0 <= fork.extents[index].number_of_blocks,
                0 <= geometry.block_size,
        ;
        lemma_extents_size(
            source,
            geometry,
            fork,
            index + 1,
            (end + size) as u64,
            extents.push(
                FileExtent {
                    logical_offset: end,
                    size: size as u64,
                    offset: Some((block * geometry.block_size) as u64),
                },
            ),
        );
    } else {
        assert(extent_entries(source, extents).len() == extents.len());
    }
}

} // verus!
