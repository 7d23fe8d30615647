//! VMDK disks in sparse files.

use vstd::arithmetic::power2::{lemma2_to64, lemma_pow2_strictly_increases, pow2};
use vstd::prelude::*;

use super::cowd::{read_value_at, value_at};
use super::grain::{is_power_of_two, lemma_power_of_two, test_power_of_two};
use crate::bytes::{
    holds_le, lemma_holds_le, read_u32_be, read_u32_le, read_u64_le, u32_be, u32_le, u64_le,
};
use crate::checks::{first_failure, lemma_first_failure_at};
use crate::error::DriverError;
use crate::image::block_map::{lemma_block_index, BlockMap};
use crate::image::block_table::{block_location, lemma_block_count, number_of_blocks};
use crate::source::data_source::{read_bytes, Content, DataSource, DataSourceReference};

verus! {

/// Sparse file header.
pub struct VmdkSparseFileHeader {
    pub flags: u32,
    pub maximum_data_number_of_sectors: u64,
    pub sectors_per_grain: u64,
    pub descriptor_start_sector: u64,
    pub descriptor_size: u64,
    pub number_of_grain_table_entries: u32,
    pub secondary_grain_directory_start_sector: u64,
    pub primary_grain_directory_start_sector: u64,
}

/// Whether a file header is one that can be read: it has the signature "KDMV" and the characters
/// by which a damaged transfer shows, is of format version 1, has a power of two of at least 8
/// sectors per grain, and sets no flag but the lowest three, that of compressed grains and that of
/// data markers.
pub open spec fn is_supported_header(data: Seq<u8>) -> bool {
    &&& u32_be(data, 0) == 0x4b44_4d56
    &&& u32_be(data, 73) == 0x0a20_0d0a
    &&& u32_le(data, 4) == 1
    &&& u64_le(data, 20) >= 8
    &&& is_power_of_two(u64_le(data, 20) as nat)
    &&& u32_le(data, 8) % 0x1_0000 < 8
    &&& u32_le(data, 8) / 0x1_0000 < 4
}

/// The file header of a disk.
pub open spec fn header_of(content: Content) -> Result<VmdkSparseFileHeader, DriverError> {
    match content.exact(0, 512) {
        Err(error) => Err(error),
        Ok(data) => if is_supported_header(data) {
            Ok(
                VmdkSparseFileHeader {
                    flags: u32_le(data, 8),
                    maximum_data_number_of_sectors: u64_le(data, 12),
                    sectors_per_grain: u64_le(data, 20),
                    descriptor_start_sector: u64_le(data, 28),
                    descriptor_size: u64_le(data, 36),
                    number_of_grain_table_entries: u32_le(data, 44),
                    secondary_grain_directory_start_sector: u64_le(data, 48),
                    primary_grain_directory_start_sector: u64_le(data, 56),
                },
            )
        } else {
            Err(DriverError::Unsupported)
        },
    }
}

/// Whether the grains are compressed.
pub open spec fn has_compressed_grains(header: VmdkSparseFileHeader) -> bool {
    header.flags / 0x1_0000 % 2 == 1
}

/// The sector at which the grain directory in use starts.
pub open spec fn grain_directory_sector(header: VmdkSparseFileHeader) -> u64 {
    if header.flags / 2 % 2 == 1 {
        header.secondary_grain_directory_start_sector
    } else {
        header.primary_grain_directory_start_sector
    }
}

/// The size of a grain.
pub open spec fn grain_size(header: VmdkSparseFileHeader) -> int {
    header.sectors_per_grain * 512
}

/// The number of grains of which a grain table speaks.
pub open spec fn table_length(header: VmdkSparseFileHeader) -> int {
    header.number_of_grain_table_entries as int
}

/// The number of entries of the grain directory.
pub open spec fn number_of_directories(header: VmdkSparseFileHeader) -> nat {
    number_of_blocks(
        header.maximum_data_number_of_sectors as int,
        table_length(header) * header.sectors_per_grain,
    )
}

/// Why the grain tables of a disk cannot be used, if they cannot.
pub open spec fn layout_failure(header: VmdkSparseFileHeader) -> Option<DriverError> {
    if has_compressed_grains(header) {
        Some(DriverError::Unsupported)
    } else if header.number_of_grain_table_entries == 0 {
        Some(DriverError::Invalid)
    } else if grain_size(header) > u64::MAX || table_length(header) * header.sectors_per_grain
        > u64::MAX {
        Some(DriverError::Overflow)
    } else if grain_directory_sector(header) == 0 {
        Some(DriverError::Invalid)
    } else if grain_directory_sector(header) * 512 > u64::MAX {
        Some(DriverError::Overflow)
    } else {
        None
    }
}

/// An entry of the grain directory.
pub open spec fn directory_entry(
    content: Content,
    header: VmdkSparseFileHeader,
    index: int,
) -> Result<u32, DriverError> {
    if grain_directory_sector(header) * 512 + index * 4 > u64::MAX {
        Err(DriverError::Overflow)
    } else {
        value_at(content, grain_directory_sector(header) * 512 + index * 4)
    }
}

/// The file offset of a grain in a grain table, if the grain is stored. The last grain ends with
/// the medium.
pub open spec fn table_grain(
    content: Content,
    header: VmdkSparseFileHeader,
    media_size: u64,
    table: u32,
    index: int,
) -> Result<Option<u64>, DriverError> {
    let size = if index * grain_size(header) + grain_size(header) < media_size {
        grain_size(header)
    } else {
        media_size - index * grain_size(header)
    };
    match value_at(content, table * 512 + index % table_length(header) * 4) {
        Err(error) => Err(error),
        Ok(sector) => if sector == 0 {
            Ok(None)
        } else if sector * 512 + size > u64::MAX {
            Err(DriverError::Overflow)
        } else if sector * 512 + size > content.size {
            Err(DriverError::OutOfBounds)
        } else {
            Ok(Some((sector * 512) as u64))
        },
    }
}

/// The file offset of a grain, if the grain is stored. The grain directory has an entry for each
/// grain table.
pub open spec fn grain_offset(
    content: Content,
    header: VmdkSparseFileHeader,
    media_size: u64,
    index: int,
) -> Result<Option<u64>, DriverError> {
    match directory_entry(content, header, index / table_length(header)) {
        Err(error) => Err(error),
        Ok(table) => if table == 0 {
            Ok(None)
        } else {
            table_grain(content, header, media_size, table, index)
        },
    }
}

/// Whether a file header is stored: behind the characters "KDMV", in little-endian order, version 1
/// and its values, and the characters of a line feed, a space, a carriage return and a line feed.
pub open spec fn holds_header(content: Content, header: VmdkSparseFileHeader) -> bool {
    let data = content.window(0, 512);
    &&& content.has(0, 512)
    &&& data[0] == 0x4b && data[1] == 0x44 && data[2] == 0x4d && data[3] == 0x56
    &&& data[73] == 0x0a && data[74] == 0x20 && data[75] == 0x0d && data[76] == 0x0a
    &&& holds_le(data, 4, 4, 1)
    &&& holds_le(data, 8, 4, header.flags as int)
    &&& holds_le(data, 12, 8, header.maximum_data_number_of_sectors as int)
    &&& holds_le(data, 20, 8, header.sectors_per_grain as int)
    &&& holds_le(data, 28, 8, header.descriptor_start_sector as int)
    &&& holds_le(data, 36, 8, header.descriptor_size as int)
    &&& holds_le(data, 44, 4, header.number_of_grain_table_entries as int)
    &&& holds_le(data, 48, 8, header.secondary_grain_directory_start_sector as int)
    &&& holds_le(data, 56, 8, header.primary_grain_directory_start_sector as int)
}

/// The values of a file header that is stored are read back, where they are supported: a grain has a
/// power of two of at least 8 sectors, and of the flags only the lowest three and the seventeenth and
/// eighteenth may be set.
pub proof fn lemma_header_stored(
    content: Content,
    header: VmdkSparseFileHeader,
    grain_bits: nat,
    low_flags: int,
    high_flags: int,
)
    requires
        holds_header(content, header),
        3 <= grain_bits,
        header.sectors_per_grain == pow2(grain_bits),
        header.flags == high_flags * 0x1_0000 + low_flags,
        0 <= low_flags < 8,
        0 <= high_flags < 4,
    ensures
        header_of(content) == Ok::<VmdkSparseFileHeader, DriverError>(header),
        has_compressed_grains(header) <==> high_flags == 1 || high_flags == 3,
        grain_directory_sector(header) == (if low_flags == 2 || low_flags == 3 || low_flags == 6
            || low_flags == 7 {
            header.secondary_grain_directory_start_sector
        } else {
            header.primary_grain_directory_start_sector
        }),
{
    broadcast use lemma_holds_le;

    let data = content.window(0, 512);
    assert(u32_be(data, 0) == 0x4b44_4d56);
    assert(u32_be(data, 73) == 0x0a20_0d0a);
    lemma_power_of_two(grain_bits);
    lemma_powers_ordered(3, grain_bits);
    lemma2_to64();
    assert(header.flags % 0x1_0000 == low_flags);
    assert(header.flags / 0x1_0000 == high_flags);
}

proof fn lemma_powers_ordered(a: nat, b: nat)
    requires
        a <= b,
    ensures
        pow2(a) <= pow2(b),
{
    if a < b {
        lemma_pow2_strictly_increases(a, b);
    }
}

/// Whether the grain directory and a grain table are stored, in little-endian order: the sector of the
/// table in the directory, and that of the grain in the table.
pub open spec fn holds_grain(
    content: Content,
    header: VmdkSparseFileHeader,
    directory: int,
    table: int,
    index: int,
    sector: int,
) -> bool {
    &&& content.holds_le(grain_directory_sector(header) * 512 + 4 * directory, 4, table)
    &&& content.holds_le(table * 512 + 4 * index, 4, sector)
}

/// A grain lies at the sector that its grain table gives, which is the one that the grain directory
/// gives. Each table speaks of as many grains as the header says. A grain without a sector is not
/// stored.
pub proof fn lemma_grain_located(
    content: Content,
    header: VmdkSparseFileHeader,
    media_size: u64,
    directory: int,
    table: int,
    index: int,
    sector: int,
)
    requires
        holds_grain(content, header, directory, table, index, sector),
        0 <= directory,
        0 <= index < header.number_of_grain_table_entries,
        0 < table,
        grain_directory_sector(header) * 512 + 4 * directory <= u64::MAX,
        sector * 512 + header.sectors_per_grain * 512 <= u64::MAX,
        sector * 512 + header.sectors_per_grain * 512 <= content.size,
    ensures
        grain_offset(
            content,
            header,
            media_size,
            directory * header.number_of_grain_table_entries + index,
        ) == Ok::<Option<u64>, DriverError>(
            if sector == 0 {
                None
            } else {
                Some((sector * 512) as u64)
            },
        ),
{
    broadcast use lemma_holds_le;

    let length = header.number_of_grain_table_entries as int;
    let number = directory * length + index;
    vstd::arithmetic::div_mod::lemma_fundamental_div_mod_converse(number, length, directory, index);
    assert(grain_directory_sector(header) * 512 + directory * 4 == grain_directory_sector(header)
        * 512 + 4 * directory);
    assert(value_at(content, grain_directory_sector(header) * 512 + directory * 4) == Ok::<
        u32,
        DriverError,
    >(table as u32));
    assert(value_at(content, table * 512 + index * 4) == Ok::<u32, DriverError>(sector as u32));
}

/// The grains of a table without a sector in the grain directory are not stored.
pub proof fn lemma_table_not_stored(
    content: Content,
    header: VmdkSparseFileHeader,
    media_size: u64,
    directory: int,
    index: int,
)
    requires
        content.holds_le(grain_directory_sector(header) * 512 + 4 * directory, 4, 0),
        0 <= directory,
        0 <= index < header.number_of_grain_table_entries,
        grain_directory_sector(header) * 512 + 4 * directory <= u64::MAX,
    ensures
        grain_offset(
            content,
            header,
            media_size,
            directory * header.number_of_grain_table_entries + index,
        ) == Ok::<Option<u64>, DriverError>(None),
{
    broadcast use lemma_holds_le;

    let length = header.number_of_grain_table_entries as int;
    let number = directory * length + index;
    vstd::arithmetic::div_mod::lemma_fundamental_div_mod_converse(number, length, directory, index);
    assert(grain_directory_sector(header) * 512 + directory * 4 == grain_directory_sector(header)
        * 512 + 4 * directory);
}

/// The file offsets of the grains.
pub open spec fn grain_offsets(
    content: Content,
    header: VmdkSparseFileHeader,
    media_size: u64,
) -> spec_fn(int) -> Result<Option<u64>, DriverError> {
    |index: int| grain_offset(content, header, media_size, index)
}

/// Why the grain with an index in a grain table cannot be located.
pub open spec fn table_failure(
    content: Content,
    header: VmdkSparseFileHeader,
    media_size: u64,
    table: u32,
    directory: int,
) -> spec_fn(int) -> Option<DriverError> {
    |index: int|
        match table_grain(
            content,
            header,
            media_size,
            table,
            directory * table_length(header) + index,
        ) {
            Ok(_) => None,
            Err(error) => Some(error),
        }
}

/// The number of grains of a grain table that belong to the medium.
pub open spec fn table_grains(header: VmdkSparseFileHeader, media_size: u64, directory: int) -> nat {
    let remaining = number_of_blocks(media_size as int, grain_size(header)) - directory
        * table_length(header);
    if remaining < 0 {
        0
    } else if remaining < table_length(header) {
        remaining as nat
    } else {
        table_length(header) as nat
    }
}

/// Why a directory entry and its grains cannot be used: an entry or a grain cannot be located, or
/// the offset of the first grain after the medium cannot be expressed.
pub open spec fn directory_failure(
    content: Content,
    header: VmdkSparseFileHeader,
    media_size: u64,
) -> spec_fn(int) -> Option<DriverError> {
    |directory: int|
        match directory_entry(content, header, directory) {
            Err(error) => Some(error),
            Ok(table) => if table == 0 {
                if table_length(header) * grain_size(header) > u64::MAX {
                    Some(DriverError::Overflow)
                } else {
                    None
                }
            } else {
                let grains = table_grains(header, media_size, directory);
                match first_failure(
                    grains,
                    table_failure(content, header, media_size, table, directory),
                ) {
                    Some(error) => Some(error),
                    None => if grains < table_length(header) && (directory * table_length(header)
                        + grains) * grain_size(header) > u64::MAX {
                        Some(DriverError::Overflow)
                    } else {
                        None
                    },
                }
            },
        }
}

/// Why the grains of a disk cannot be used, if they cannot.
pub open spec fn grains_failure(
    content: Content,
    header: VmdkSparseFileHeader,
    media_size: u64,
) -> Option<DriverError> {
    match layout_failure(header) {
        Some(error) => Some(error),
        None => first_failure(
            number_of_directories(header),
            directory_failure(content, header, media_size),
        ),
    }
}

/// Reads the file header.
pub fn read_header(source: &DataSourceReference) -> (result: Result<
    VmdkSparseFileHeader,
    DriverError,
>)
    ensures
        match result {
            Ok(header) => {
                &&& header_of(source.content()) == Ok::<VmdkSparseFileHeader, DriverError>(header)
                &&& header.sectors_per_grain >= 8
            },
            Err(error) => source.reliable() ==> header_of(source.content()) == Err::<
                VmdkSparseFileHeader,
                DriverError,
            >(error),
        },
{
    let data: Vec<u8> = read_bytes(source, 0, 512)?;
    let data = data.as_slice();
    let flags: u32 = read_u32_le(data, 8);
    let sectors_per_grain: u64 = read_u64_le(data, 20);

    if read_u32_be(data, 0) != 0x4b44_4d56 || read_u32_be(data, 73) != 0x0a20_0d0a {
        return Err(DriverError::Unsupported);
    }
    if read_u32_le(data, 4) != 1 {
        return Err(DriverError::Unsupported);
    }
    if sectors_per_grain < 8 || !test_power_of_two(sectors_per_grain) {
        return Err(DriverError::Unsupported);
    }
    if flags % 0x1_0000 >= 8 || flags / 0x1_0000 >= 4 {
        return Err(DriverError::Unsupported);
    }
    Ok(
        VmdkSparseFileHeader {
            flags,
            maximum_data_number_of_sectors: read_u64_le(data, 12),
            sectors_per_grain,
            descriptor_start_sector: read_u64_le(data, 28),
            descriptor_size: read_u64_le(data, 36),
            number_of_grain_table_entries: read_u32_le(data, 44),
            secondary_grain_directory_start_sector: read_u64_le(data, 48),
            primary_grain_directory_start_sector: read_u64_le(data, 56),
        },
    )
}

/// The values by which the grains are located.
struct GrainLayout {
    grain_size: u64,
    table_length: u64,
    directory_offset: u64,
    number_of_directories: u64,
}

fn read_layout(header: &VmdkSparseFileHeader) -> (result: Result<GrainLayout, DriverError>)
    requires
        header.sectors_per_grain >= 8,
    ensures
        match result {
            Ok(layout) => {
                &&& layout_failure(*header) is None
                &&& layout.grain_size == grain_size(*header)
                &&& layout.table_length == table_length(*header)
                &&& layout.directory_offset == grain_directory_sector(*header) * 512
                &&& layout.number_of_directories == number_of_directories(*header)
            },
            Err(error) => layout_failure(*header) == Some(error),
        },
{
    if header.flags / 0x1_0000 % 2 == 1 {
        return Err(DriverError::Unsupported);
    }
    if header.number_of_grain_table_entries == 0 {
        return Err(DriverError::Invalid);
    }
    let table_length: u64 = header.number_of_grain_table_entries as u64;
    let grain_size: u64 = header.sectors_per_grain.checked_mul(512).ok_or(DriverError::Overflow)?;
    let table_sectors: u64 = table_length.checked_mul(header.sectors_per_grain).ok_or(
        DriverError::Overflow,
    )?;
    let directory_sector: u64 = if header.flags / 2 % 2 == 1 {
        header.secondary_grain_directory_start_sector
    } else {
        header.primary_grain_directory_start_sector
    };
    if directory_sector == 0 {
        return Err(DriverError::Invalid);
    }
    let directory_offset: u64 = directory_sector.checked_mul(512).ok_or(DriverError::Overflow)?;
    let sectors: u64 = header.maximum_data_number_of_sectors;
    proof {
        assert(table_sectors >= 8) by (nonlinear_arith)
            requires
                table_sectors == table_length * header.sectors_per_grain,
                table_length >= 1,
                header.sectors_per_grain >= 8,
        ;
        assert(sectors / table_sectors <= sectors / 8) by (nonlinear_arith)
            requires
                table_sectors >= 8,
        ;
    }
    let number_of_directories: u64 = if sectors % table_sectors == 0 {
        sectors / table_sectors
    } else {
        sectors / table_sectors + 1
    };
    proof {
        let a = sectors as int;
        let b = table_sectors as int;
        assert((a + b - 1) / b == (if a % b == 0 {
            a / b
        } else {
            a / b + 1
        })) by (nonlinear_arith)
            requires
                a >= 0,
                b >= 1,
        ;
    }
    Ok(GrainLayout { grain_size, table_length, directory_offset, number_of_directories })
}

/// Reads the file offset of a grain from a grain table.
fn read_table_grain(
    source: &DataSourceReference,
    source_size: u64,
    header: &VmdkSparseFileHeader,
    media_size: u64,
    table: u32,
    index: Ghost<int>,
    table_index: u64,
    size: u64,
) -> (result: Result<Option<u64>, DriverError>)
    requires
        source_size == source.content().size,
        table_index == index@ % table_length(*header),
        table_index < 0x1_0000_0000,
        size == (if index@ * grain_size(*header) + grain_size(*header) < media_size {
            grain_size(*header)
        } else {
            media_size - index@ * grain_size(*header)
        }),
    ensures
        match result {
            Ok(offset) => table_grain(source.content(), *header, media_size, table, index@) == Ok::<
                Option<u64>,
                DriverError,
            >(offset),
            Err(error) => source.reliable() ==> table_grain(
                source.content(),
                *header,
                media_size,
                table,
                index@,
            ) == Err::<Option<u64>, DriverError>(error),
        },
{
    let sector: u32 = read_value_at(source, table as u64 * 512 + table_index * 4)?;
    if sector == 0 {
        return Ok(None);
    }
    let offset: u64 = sector as u64 * 512;
    let end: u64 = offset.checked_add(size).ok_or(DriverError::Overflow)?;
    if end > source_size {
        return Err(DriverError::OutOfBounds);
    }
    Ok(Some(offset))
}

/// Where an offset lies in the medium, or the end of the medium.
spec fn clamped(offset: int, media_size: u64) -> int {
    if offset < media_size {
        offset
    } else {
        media_size as int
    }
}

/// Appends the grains of a grain table that belong to the medium.
fn append_table(
    map: BlockMap,
    source_size: u64,
    header: &VmdkSparseFileHeader,
    layout: &GrainLayout,
    media_size: u64,
    directory: u64,
    table: u32,
    start: u64,
) -> (result: Result<BlockMap, DriverError>)
    requires
        source_size == map.source().content().size,
        header.sectors_per_grain >= 8,
        layout_failure(*header) is None,
        layout.grain_size == grain_size(*header),
        layout.table_length == table_length(*header),
        start == directory * table_length(*header) * grain_size(*header),
        map.parent() is None,
        map.size() == clamped(start as int, media_size),
        table != 0,
        directory_entry(map.source().content(), *header, directory as int) == Ok::<
            u32,
            DriverError,
        >(table),
    ensures
        match result {
            Ok(next) => {
                &&& directory_failure(map.source().content(), *header, media_size)(
                    directory as int,
                ) is None
                &&& next.extends(map, next.size() - map.size())
                &&& next.size() == clamped(
                    (directory + 1) * table_length(*header) * grain_size(*header),
                    media_size,
                )
                &&& forall|k: int|
                    map.size() <= k < next.size() ==> #[trigger] next.location(k)
                        == block_location(
                        map.source(),
                        None,
                        grain_size(*header),
                        grain_offsets(map.source().content(), *header, media_size),
                    )(k)
            },
            Err(error) => map.source().reliable() ==> directory_failure(
                map.source().content(),
                *header,
                media_size,
            )(directory as int) == Some(error),
        },
{
    let ghost source = map.source();
    let ghost content = map.source().content();
    let ghost failure = table_failure(content, *header, media_size, table, directory as int);
    let ghost grains = table_grains(*header, media_size, directory as int);
    let ghost count = number_of_blocks(media_size as int, grain_size(*header));
    let ghost base = directory * table_length(*header);
    let ghost location = block_location(
        source,
        None,
        grain_size(*header),
        grain_offsets(content, *header, media_size),
    );
    let own_source = map.clone_source();
    let grain: u64 = layout.grain_size;
    let length: u64 = layout.table_length;
    let mut current = map;
    let mut index: u64 = 0;
    let mut offset: u64 = start;
    proof {
        lemma_block_count(media_size as int, grain as int, base);
        assert(base * grain == start) by (nonlinear_arith)
            requires
                start == directory * length * grain,
                base == directory * length,
        ;
        assert(0 <= base) by (nonlinear_arith)
            requires
                base == directory * length,
        ;
    }
    while index < length && offset < media_size
        invariant
            own_source == source,
            source == map.source(),
            content == source.content(),
            source_size == content.size,
            header.sectors_per_grain >= 8,
            grain == grain_size(*header),
            4096 <= grain,
            length == table_length(*header),
            0 < length < 0x1_0000_0000,
            base == directory * length,
            0 <= base,
            failure == table_failure(content, *header, media_size, table, directory as int),
            grains == table_grains(*header, media_size, directory as int),
            count == number_of_blocks(media_size as int, grain as int),
            location == block_location(
                source,
                None,
                grain as int,
                grain_offsets(content, *header, media_size),
            ),
            table != 0,
            directory_entry(content, *header, directory as int) == Ok::<u32, DriverError>(table),
            index <= grains,
            index <= length,
            index < length ==> offset == (base + index) * grain,
            first_failure(index as nat, failure) is None,
            current.source() == source,
            current.parent() is None,
            current.extends(map, current.size() - map.size()),
            map.size() <= current.size(),
            current.size() == clamped((base + index) * grain, media_size),
            forall|k: int|
                map.size() <= k < current.size() ==> #[trigger] current.location(k) == location(k),
        decreases length - index,
    {
        let remaining_size: u64 = media_size - offset;
        let size: u64 = if grain < remaining_size {
            grain
        } else {
            remaining_size
        };
        let ghost number = base + index;
        proof {
            lemma_block_count(media_size as int, grain as int, number);
            lemma_block_index(number, directory as int, length as int);
            assert((number + 1) * grain == number * grain + grain)
                by (nonlinear_arith);
            assert(index < grains);
        }
        let result = read_table_grain(
            &own_source,
            source_size,
            header,
            media_size,
            table,
            Ghost(number),
            index,
            size,
        );
        proof {
            if result is Err && source.reliable() {
                lemma_first_failure_at(grains, failure, index as nat);
            }
        }
        let grain_data = result?;
        let ghost before = current;
        match grain_data {
            Some(grain_data) => {
                current = current.append_data(grain_data, size);
            },
            None => {
                current = current.append_zero(size);
            },
        }
        proof {
            assert forall|k: int| map.size() <= k < current.size() implies #[trigger] current.location(k)
                == location(k) by {
                if k < before.size() {
                    assert(current.location(k) == before.location(k));
                } else {
                    lemma_block_index(k, number, grain as int);
                }
            }
            assert forall|k: int| 0 <= k < map.size() implies #[trigger] current.location(k)
                == map.location(k) by {
                assert(current.location(k) == before.location(k));
            }
        }
        index = index + 1;
        if index < length {
            match offset.checked_add(grain) {
                Some(next_offset) => {
                    offset = next_offset;
                },
                None => {
                    proof {
                        lemma_block_count(media_size as int, grain as int, number + 1);
                    }
                    return Err(DriverError::Overflow);
                },
            }
        }
    }
    proof {
        lemma_block_count(media_size as int, grain as int, base + index);
        assert((directory + 1) * length == base + length) by (nonlinear_arith)
            requires
                base == directory * length,
        ;
        assert((base + length) * grain >= (base + index) * grain)
            by (nonlinear_arith)
            requires
                index <= length,
                0 <= base,
        ;
        assert((directory + 1) * length * grain == (base + length) * grain);
    }
    Ok(current)
}

proof fn lemma_directory_start(
    header: VmdkSparseFileHeader,
    directories: nat,
    directory: int,
    media_size: u64,
)
    requires
        header.sectors_per_grain >= 8,
        table_length(header) >= 1,
        directories == number_of_directories(header),
        0 <= directory <= directories,
        header.maximum_data_number_of_sectors * 512 <= u64::MAX,
        media_size <= header.maximum_data_number_of_sectors * 512,
    ensures
        directory < directories ==> 0 <= directory * table_length(header) * grain_size(header)
            <= u64::MAX,
        directory == directories ==> directory * table_length(header) * grain_size(header)
            >= media_size,
        (directory + 1) * table_length(header) * grain_size(header) == directory * table_length(
            header,
        ) * grain_size(header) + table_length(header) * grain_size(header),
        0 <= directory * table_length(header),
{
    let sectors = header.maximum_data_number_of_sectors as int;
    let length = table_length(header);
    let grain = header.sectors_per_grain as int;
    let table = length * grain;
    assert(table >= 8) by (nonlinear_arith)
        requires
            table == length * grain,
            length >= 1,
            grain >= 8,
    ;
    lemma_block_count(sectors, table, directory);
    assert(directory * length * (grain * 512) == directory * table * 512) by (nonlinear_arith)
        requires
            table == length * grain,
    ;
    assert(0 <= directory * table) by (nonlinear_arith)
        requires
            0 <= directory,
            0 <= table,
    ;
    assert((directory + 1) * length * (grain * 512) == directory * length * (grain * 512) + length
        * (grain * 512)) by (nonlinear_arith);
    assert(0 <= directory * length) by (nonlinear_arith)
        requires
            0 <= directory,
            1 <= length,
    ;
}

/// Appends the zeros that a directory entry without a grain table stands for.
fn append_absent_table(
    map: BlockMap,
    header: &VmdkSparseFileHeader,
    layout: &GrainLayout,
    media_size: u64,
    directory: Ghost<int>,
    start: u64,
) -> (result: Result<BlockMap, DriverError>)
    requires
        header.sectors_per_grain >= 8,
        layout_failure(*header) is None,
        layout.grain_size == grain_size(*header),
        layout.table_length == table_length(*header),
        0 <= directory@ * table_length(*header),
        start == directory@ * table_length(*header) * grain_size(*header),
        (directory@ + 1) * table_length(*header) * grain_size(*header) == start + table_length(
            *header,
        ) * grain_size(*header),
        map.parent() is None,
        map.size() == clamped(start as int, media_size),
        directory_entry(map.source().content(), *header, directory@) == Ok::<u32, DriverError>(0),
    ensures
        match result {
            Ok(next) => {
                &&& directory_failure(map.source().content(), *header, media_size)(
                    directory@,
                ) is None
                &&& next.extends(map, next.size() - map.size())
                &&& next.size() == clamped(
                    (directory@ + 1) * table_length(*header) * grain_size(*header),
                    media_size,
                )
                &&& forall|k: int|
                    map.size() <= k < next.size() ==> #[trigger] next.location(k)
                        == block_location(
                        map.source(),
                        None,
                        grain_size(*header),
                        grain_offsets(map.source().content(), *header, media_size),
                    )(k)
            },
            Err(error) => directory_failure(map.source().content(), *header, media_size)(
                directory@,
            ) == Some(error),
        },
{
    let table_size: u64 = layout.table_length.checked_mul(layout.grain_size).ok_or(
        DriverError::Overflow,
    )?;
    if start >= media_size {
        return Ok(map);
    }
    let remaining_size: u64 = media_size - start;
    let size: u64 = if table_size < remaining_size {
        table_size
    } else {
        remaining_size
    };
    let next = map.append_zero(size);
    proof {
        let length = table_length(*header);
        let grain = grain_size(*header);
        assert forall|k: int| map.size() <= k < next.size() implies #[trigger] next.location(k)
            == block_location(
            map.source(),
            None,
            grain_size(*header),
            grain_offsets(map.source().content(), *header, media_size),
        )(k) by {
            let index = k / grain;
            assert(index / length == directory@) by (nonlinear_arith)
                requires
                    index == k / grain,
                    directory@ * length * grain <= k < directory@ * length * grain + length * grain,
                    length >= 1,
                    grain >= 1,
                    0 <= directory@ * length,
            ;
        }
    }
    Ok(next)
}

/// Locates the grains that cover the medium.
pub fn build_grains(
    source: &DataSourceReference,
    source_size: u64,
    header: &VmdkSparseFileHeader,
    media_size: u64,
) -> (result: Result<BlockMap, DriverError>)
    requires
        source_size == source.content().size,
        header.sectors_per_grain >= 8,
        header.maximum_data_number_of_sectors * 512 <= u64::MAX,
        media_size <= header.maximum_data_number_of_sectors * 512,
    ensures
        match result {
            Ok(map) => {
                &&& grains_failure(source.content(), *header, media_size) is None
                &&& map.source() == *source
                &&& map.parent() is None
                &&& map.size() == media_size
                &&& map.is_tiled()
                &&& forall|k: int|
                    0 <= k < map.size() ==> #[trigger] map.location(k) == block_location(
                        *source,
                        None,
                        grain_size(*header),
                        grain_offsets(source.content(), *header, media_size),
                    )(k)
            },
            Err(error) => source.reliable() ==> grains_failure(
                source.content(),
                *header,
                media_size,
            ) == Some(error),
        },
{
    let layout = read_layout(header)?;
    let directories: u64 = layout.number_of_directories;
    let ghost content = source.content();
    let ghost failure = directory_failure(content, *header, media_size);
    let ghost location = block_location(
        *source,
        None,
        grain_size(*header),
        grain_offsets(content, *header, media_size),
    );
    let mut map = BlockMap::new(source);
    let mut directory: u64 = 0;
    while directory < directories
        invariant
            content == source.content(),
            source_size == content.size,
            header.sectors_per_grain >= 8,
            header.maximum_data_number_of_sectors * 512 <= u64::MAX,
            media_size <= header.maximum_data_number_of_sectors * 512,
            layout_failure(*header) is None,
            layout.grain_size == grain_size(*header),
            layout.table_length == table_length(*header),
            layout.directory_offset == grain_directory_sector(*header) * 512,
            directories == number_of_directories(*header),
            failure == directory_failure(content, *header, media_size),
            location == block_location(
                *source,
                None,
                grain_size(*header),
                grain_offsets(content, *header, media_size),
            ),
            directory <= directories,
            first_failure(directory as nat, failure) is None,
            map.source() == *source,
            map.parent() is None,
            map.size() == clamped(
                directory * table_length(*header) * grain_size(*header),
                media_size,
            ),
            forall|k: int| 0 <= k < map.size() ==> #[trigger] map.location(k) == location(k),
        decreases directories - directory,
    {
        proof {
            lemma_directory_start(*header, directories as nat, directory as int, media_size);
            if failure(directory as int) is Some {
                lemma_first_failure_at(directories as nat, failure, directory as nat);
            }
            let length = layout.table_length as int;
            let grain = layout.grain_size as int;
            assert(directory * length <= directory * length * grain && directory <= directory
                * length) by (nonlinear_arith)
                requires
                    0 <= directory * length,
                    1 <= grain,
                    1 <= length,
            ;
            assert(directory * 4 <= u64::MAX) by (nonlinear_arith)
                requires
                    directory * length * grain <= u64::MAX,
                    directory <= directory * length,
                    0 <= directory * length,
                    4096 <= grain,
            ;
        }
        let start: u64 = directory * layout.table_length * layout.grain_size;
        let entry_offset: u64 = layout.directory_offset.checked_add(directory * 4).ok_or(
            DriverError::Overflow,
        )?;
        let table: u32 = read_value_at(source, entry_offset)?;
        let ghost before = map;
        if table == 0 {
            map = append_absent_table(
                map,
                header,
                &layout,
                media_size,
                Ghost(directory as int),
                start,
            )?;
        } else {
            map = append_table(
                map,
                source_size,
                header,
                &layout,
                media_size,
                directory,
                table,
                start,
            )?;
        }
        proof {
            assert forall|k: int| 0 <= k < map.size() implies #[trigger] map.location(k)
                == location(k) by {
                if k < before.size() {
                    assert(map.location(k) == before.location(k));
                }
            }
        }
        directory = directory + 1;
    }
    proof {
        lemma_directory_start(*header, directories as nat, directory as int, media_size);
    }
    Ok(map.finish())
}

} // verus!
