//! VMDK copy-on-write disks (COWD) in sparse files.

use vstd::arithmetic::power2::pow2;
use vstd::prelude::*;

use super::grain::{is_power_of_two, lemma_power_of_two, test_power_of_two};
use crate::bytes::{holds_le, lemma_holds_le, read_u32_be, read_u32_le, u32_be, u32_le};
use crate::checks::first_failure;
use crate::error::DriverError;
use crate::image::block_map::BlockMap;
use crate::image::block_table::{
    block_failure, block_location, build_block_map, number_of_blocks, BlockTable,
};
use crate::source::data_source::{read_bytes, Content, DataSource, DataSourceReference};

verus! {

/// COWD sparse file header.
pub struct VmdkSparseCowdFileHeader {
    pub maximum_data_number_of_sectors: u32,
    pub sectors_per_grain: u32,
    pub grain_directory_start_sector: u32,
    pub number_of_grain_directory_entries: u32,
}

/// Whether a file header is one that can be read: it has the signature "COWD", is of format
/// version 1, has a power of two of at least 8 sectors per grain and a grain directory.
pub open spec fn is_supported_header(data: Seq<u8>) -> bool {
    &&& u32_be(data, 0) == 0x434f_5744
    &&& u32_le(data, 4) == 1
    &&& u32_le(data, 16) >= 8
    &&& is_power_of_two(u32_le(data, 16) as nat)
    &&& u32_le(data, 20) != 0
    &&& u32_le(data, 24) != 0
}

/// The file header of a disk.
pub open spec fn header_of(content: Content) -> Result<VmdkSparseCowdFileHeader, DriverError> {
    match content.exact(0, 2048) {
        Err(error) => Err(error),
        Ok(data) => if is_supported_header(data) {
            Ok(
                VmdkSparseCowdFileHeader {
                    maximum_data_number_of_sectors: u32_le(data, 12),
                    sectors_per_grain: u32_le(data, 16),
                    grain_directory_start_sector: u32_le(data, 20),
                    number_of_grain_directory_entries: u32_le(data, 24),
                },
            )
        } else {
            Err(DriverError::Unsupported)
        },
    }
}

/// The size of a grain.
pub open spec fn grain_size(header: VmdkSparseCowdFileHeader) -> int {
    header.sectors_per_grain * 512
}

/// The size of the medium.
pub open spec fn media_size(header: VmdkSparseCowdFileHeader) -> int {
    header.maximum_data_number_of_sectors * 512
}

/// The 32-bit value at an offset.
pub open spec fn value_at(content: Content, offset: int) -> Result<u32, DriverError> {
    match content.exact(offset, 4) {
        Err(error) => Err(error),
        Ok(data) => Ok(u32_le(data, 0)),
    }
}

/// The file offset of a grain, if the grain is stored. The grain directory has an entry for each
/// grain table of 524288 entries.
pub open spec fn grain_offset(
    content: Content,
    header: VmdkSparseCowdFileHeader,
    index: int,
) -> Result<Option<u64>, DriverError> {
    let directory_index = index / 0x8_0000;
    let end = if index * grain_size(header) + grain_size(header) < media_size(header) {
        grain_size(header)
    } else {
        media_size(header) - index * grain_size(header)
    };
    if directory_index >= header.number_of_grain_directory_entries {
        Err(DriverError::OutOfBounds)
    } else {
        match value_at(content, header.grain_directory_start_sector * 512 + directory_index * 4) {
            Err(error) => Err(error),
            Ok(directory_entry) => if directory_entry == 0 {
                Ok(None)
            } else {
                match value_at(content, directory_entry * 512 + index % 0x8_0000 * 4) {
                    Err(error) => Err(error),
                    Ok(sector) => if sector == 0 {
                        Ok(None)
                    } else if sector * 512 + end > content.size {
                        Err(DriverError::OutOfBounds)
                    } else {
                        Ok(Some((sector * 512) as u64))
                    },
                }
            },
        }
    }
}

/// Whether a file header is stored: behind the characters "COWD", in little-endian order, version 1
/// and its values.
pub open spec fn holds_header(content: Content, header: VmdkSparseCowdFileHeader) -> bool {
    let data = content.window(0, 2048);
    &&& content.has(0, 2048)
    &&& data[0] == 0x43 && data[1] == 0x4f && data[2] == 0x57 && data[3] == 0x44
    &&& holds_le(data, 4, 4, 1)
    &&& holds_le(data, 12, 4, header.maximum_data_number_of_sectors as int)
    &&& holds_le(data, 16, 4, header.sectors_per_grain as int)
    &&& holds_le(data, 20, 4, header.grain_directory_start_sector as int)
    &&& holds_le(data, 24, 4, header.number_of_grain_directory_entries as int)
}

/// The values of a file header that is stored are read back, where they are supported.
pub proof fn lemma_header_stored(
    content: Content,
    header: VmdkSparseCowdFileHeader,
    grain_bits: nat,
)
    requires
        holds_header(content, header),
        8 <= header.sectors_per_grain,
        header.sectors_per_grain == pow2(grain_bits),
        header.grain_directory_start_sector != 0,
        header.number_of_grain_directory_entries != 0,
    ensures
        header_of(content) == Ok::<VmdkSparseCowdFileHeader, DriverError>(header),
{
    broadcast use lemma_holds_le;

    let data = content.window(0, 2048);
    assert(u32_be(data, 0) == 0x434f_5744);
    lemma_power_of_two(grain_bits);
}

/// A grain lies at the sector that its grain table gives, which is the one that the grain directory
/// gives, in little-endian order. Each table speaks of 524288 grains. A grain without a sector is not
/// stored, nor is one of a table without a sector.
pub proof fn lemma_grain_located(
    content: Content,
    header: VmdkSparseCowdFileHeader,
    directory: int,
    table: int,
    index: int,
    sector: int,
)
    requires
        content.holds_le(header.grain_directory_start_sector * 512 + 4 * directory, 4, table),
        table != 0 ==> content.holds_le(table * 512 + 4 * index, 4, sector),
        0 <= directory < header.number_of_grain_directory_entries,
        0 <= index < 0x8_0000,
        table != 0 && sector != 0 ==> sector * 512 + header.sectors_per_grain * 512 <= content.size,
    ensures
        grain_offset(content, header, directory * 0x8_0000 + index) == Ok::<
            Option<u64>,
            DriverError,
        >(
            if table == 0 || sector == 0 {
                None
            } else {
                Some((sector * 512) as u64)
            },
        ),
{
    broadcast use lemma_holds_le;

    let number = directory * 0x8_0000 + index;
    assert(number / 0x8_0000 == directory && number % 0x8_0000 == index);
    assert(value_at(content, header.grain_directory_start_sector * 512 + directory * 4) == Ok::<
        u32,
        DriverError,
    >(table as u32));
    if table != 0 {
        assert(value_at(content, table * 512 + index * 4) == Ok::<u32, DriverError>(
            sector as u32,
        ));
    }
}

/// The file offsets of the grains.
pub open spec fn grain_offsets(content: Content, header: VmdkSparseCowdFileHeader) -> spec_fn(
    int,
) -> Result<Option<u64>, DriverError> {
    |index: int| grain_offset(content, header, index)
}

/// Why the grains of a disk cannot be used, if they cannot.
pub open spec fn grains_failure(content: Content, header: VmdkSparseCowdFileHeader) -> Option<
    DriverError,
> {
    first_failure(
        number_of_blocks(media_size(header), grain_size(header)),
        block_failure(grain_offsets(content, header)),
    )
}

/// Reads the 32-bit value at an offset.
pub fn read_value_at(source: &DataSourceReference, offset: u64) -> (result: Result<
    u32,
    DriverError,
>)
    ensures
        match result {
            Ok(value) => value_at(source.content(), offset as int) == Ok::<u32, DriverError>(value),
            Err(error) => source.reliable() ==> value_at(source.content(), offset as int) == Err::<
                u32,
                DriverError,
            >(error),
        },
{
    let data: Vec<u8> = read_bytes(source, offset, 4)?;
    Ok(read_u32_le(data.as_slice(), 0))
}

/// Reads the file header.
pub fn read_header(source: &DataSourceReference) -> (result: Result<
    VmdkSparseCowdFileHeader,
    DriverError,
>)
    ensures
        match result {
            Ok(header) => {
                &&& header_of(source.content()) == Ok::<VmdkSparseCowdFileHeader, DriverError>(
                    header,
                )
                &&& header.sectors_per_grain >= 8
            },
            Err(error) => source.reliable() ==> header_of(source.content()) == Err::<
                VmdkSparseCowdFileHeader,
                DriverError,
            >(error),
        },
{
    let data: Vec<u8> = read_bytes(source, 0, 2048)?;
    let data = data.as_slice();
    let sectors_per_grain: u32 = read_u32_le(data, 16);
    let grain_directory_start_sector: u32 = read_u32_le(data, 20);
    let number_of_grain_directory_entries: u32 = read_u32_le(data, 24);

    if read_u32_be(data, 0) != 0x434f_5744 || read_u32_le(data, 4) != 1 {
        return Err(DriverError::Unsupported);
    }
    if sectors_per_grain < 8 || !test_power_of_two(sectors_per_grain as u64) {
        return Err(DriverError::Unsupported);
    }
    if grain_directory_start_sector == 0 || number_of_grain_directory_entries == 0 {
        return Err(DriverError::Unsupported);
    }
    Ok(
        VmdkSparseCowdFileHeader {
            maximum_data_number_of_sectors: read_u32_le(data, 12),
            sectors_per_grain,
            grain_directory_start_sector,
            number_of_grain_directory_entries,
        },
    )
}

/// The grain tables of a disk.
struct CowdGrainTable<'a> {
    source: &'a DataSourceReference,
    source_size: u64,
    header: &'a VmdkSparseCowdFileHeader,
}

impl<'a> CowdGrainTable<'a> {
    #[verifier::type_invariant]
    spec fn well_formed(self) -> bool {
        &&& self.source_size == self.source.content().size
        &&& self.header.sectors_per_grain >= 8
    }
}

impl<'a> BlockTable for CowdGrainTable<'a> {
    closed spec fn block(&self, index: int) -> Result<Option<u64>, DriverError> {
        grain_offset(self.source.content(), *self.header, index)
    }

    closed spec fn reliable(&self) -> bool {
        self.source.reliable()
    }

    fn locate(&self, index: u64) -> (result: Result<Option<u64>, DriverError>) {
        proof {
            use_type_invariant(self);
        }
        let directory_index: u64 = index / 0x8_0000;
        if directory_index >= self.header.number_of_grain_directory_entries as u64 {
            return Err(DriverError::OutOfBounds);
        }
        let directory_entry: u32 = read_value_at(
            self.source,
            self.header.grain_directory_start_sector as u64 * 512 + directory_index * 4,
        )?;
        if directory_entry == 0 {
            return Ok(None);
        }
        let sector: u32 = read_value_at(
            self.source,
            directory_entry as u64 * 512 + index % 0x8_0000 * 4,
        )?;
        if sector == 0 {
            return Ok(None);
        }
        let grain: i128 = self.header.sectors_per_grain as i128 * 512;
        let media: i128 = self.header.maximum_data_number_of_sectors as i128 * 512;
        proof {
            assert(0 <= index * grain <= 0xffff_ffff_ffff_ffff * 0x200_0000_0000) by (nonlinear_arith)
                requires
                    0 <= index <= 0xffff_ffff_ffff_ffff,
                    0 <= grain <= 0x200_0000_0000,
            ;
        }
        let start: i128 = index as i128 * grain;
        let end: i128 = if start + grain < media {
            grain
        } else {
            media - start
        };
        if sector as i128 * 512 + end > self.source_size as i128 {
            return Err(DriverError::OutOfBounds);
        }
        Ok(Some(sector as u64 * 512))
    }
}

/// Locates the grains that cover the medium.
pub fn build_grains(
    source: &DataSourceReference,
    source_size: u64,
    header: &VmdkSparseCowdFileHeader,
) -> (result: Result<BlockMap, DriverError>)
    requires
        source_size == source.content().size,
        header.sectors_per_grain >= 8,
    ensures
        match result {
            Ok(map) => {
                &&& grains_failure(source.content(), *header) is None
                &&& map.source() == *source
                &&& map.parent() is None
                &&& map.size() == media_size(*header)
                &&& map.is_tiled()
                &&& forall|k: int|
                    0 <= k < map.size() ==> #[trigger] map.location(k) == block_location(
                        *source,
                        None,
                        grain_size(*header),
                        grain_offsets(source.content(), *header),
                    )(k)
            },
            Err(error) => source.reliable() ==> grains_failure(source.content(), *header) == Some(
                error,
            ),
        },
{
    let table = CowdGrainTable { source, source_size, header };
    build_block_map(
        &table,
        source,
        &None,
        header.sectors_per_grain as u64 * 512,
        header.maximum_data_number_of_sectors as u64 * 512,
        Ghost(grain_offsets(source.content(), *header)),
    )
}

} // verus!
