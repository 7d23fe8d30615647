//! Virtual Hard Disk version 2 (VHDX) images.

use vstd::prelude::*;

use super::block_map::{is_layered_medium, lemma_block_index, BlockMap};
use super::block_table::{lemma_number_of_blocks, number_of_blocks};
use super::sector_bitmap::{append_sectors, bit_of, sector_location};
use super::vhd::{text_view, VhdDiskType};
use crate::bytes::{
    holds_le, lemma_holds_le, read_u16_le, read_u32_be, read_u32_le, read_u64_be, read_u64_le,
    u16_le, u32_be, u32_le, u64_be, u64_le,
};
use crate::checks::{first_failure, lemma_first_failure_at};
use crate::checksum::{reversed_crc32, reversed_crc32_of};
use crate::error::DriverError;
use crate::source::data_source::{read_bytes, Content, DataSource, DataSourceReference};
use crate::source::extent_map::MediaLocation;
use crate::text::{
    decode_utf16, encode_utf16, holds_units_le, lemma_units_le, lemma_utf16_text, read_units_le,
    units_le, utf16_text,
};
use crate::uuid::{holds_uuid_le, lemma_uuid_stored, text_uuid, uuid_le, Uuid};

verus! {

/// VHDX image header.
#[derive(Clone, Copy)]
pub struct VhdxImageHeader {
    pub sequence_number: u64,
    pub data_write_identifier: Uuid,
    pub format_version: u16,
}

/// VHDX region table entry.
#[derive(Clone, Copy)]
pub struct VhdxRegionTableEntry {
    pub data_offset: u64,
    pub data_size: u32,
}

/// The regions of an image that are of use.
#[derive(Clone, Copy)]
pub struct VhdxRegions {
    pub metadata: Option<VhdxRegionTableEntry>,
    pub block_allocation_table: Option<VhdxRegionTableEntry>,
}

/// VHDX metadata table entry.
#[derive(Clone, Copy)]
pub struct VhdxMetadataTableEntry {
    pub item_offset: u32,
    pub item_size: u32,
}

/// What the metadata of an image says of its disk.
#[derive(Clone, Copy)]
pub struct VhdxDiskValues {
    pub disk_type: VhdDiskType,
    pub block_size: u32,
    pub bytes_per_sector: u16,
    pub media_size: u64,
}

/// What the metadata of an image says of its parent.
pub struct VhdxParentValues {
    pub identifier: Option<Uuid>,
    pub name: Option<Seq<char>>,
}

/// What is known of an opened image.
pub struct VhdxImage {
    pub format_version: u16,
    pub identifier: Uuid,
    pub disk: VhdxDiskValues,
    pub parent: VhdxParentValues,
}

/// Where a block is stored.
pub enum VhdxBlock {
    /// Nowhere: the block is zero.
    Absent,
    /// At an offset.
    Stored { offset: u64 },
    /// At an offset as far as a sector bitmap says so, else in the parent.
    Sectors { offset: u64, bitmap_offset: u64 },
}

/// The identifier of the region of the block allocation table.
pub open spec fn bat_region_identifier() -> Uuid {
    Uuid {
        part1: 0x2dc27766,
        part2: 0xf623,
        part3: 0x4200,
        part4: 0x9d64,
        part5: 0x115e9bfd4a08,
    }
}

/// The identifier of the metadata region.
pub open spec fn metadata_region_identifier() -> Uuid {
    Uuid {
        part1: 0x8b7ca206,
        part2: 0x4790,
        part3: 0x4b9a,
        part4: 0xb8fe,
        part5: 0x575f050f886e,
    }
}

/// The identifier of the file parameters.
pub open spec fn file_parameters_identifier() -> Uuid {
    Uuid {
        part1: 0xcaa16737,
        part2: 0xfa36,
        part3: 0x4d43,
        part4: 0xb3b6,
        part5: 0x33f0aa44e76b,
    }
}

/// The identifier of the virtual disk size.
pub open spec fn virtual_disk_size_identifier() -> Uuid {
    Uuid {
        part1: 0x2fa54224,
        part2: 0xcd1b,
        part3: 0x4876,
        part4: 0xb211,
        part5: 0x5dbed83bf4b8,
    }
}

/// The identifier of the logical sector size.
pub open spec fn logical_sector_size_identifier() -> Uuid {
    Uuid {
        part1: 0x8141bf1d,
        part2: 0xa96f,
        part3: 0x4709,
        part4: 0xba47,
        part5: 0xf233a8faab5f,
    }
}

/// The identifier of the physical sector size.
pub open spec fn physical_sector_size_identifier() -> Uuid {
    Uuid {
        part1: 0xcda348c7,
        part2: 0x445d,
        part3: 0x4471,
        part4: 0x9cc9,
        part5: 0xe9885251c556,
    }
}

/// The identifier of the virtual disk identifier.
pub open spec fn virtual_disk_identifier_identifier() -> Uuid {
    Uuid {
        part1: 0xbeca12ab,
        part2: 0xb2e6,
        part3: 0x4523,
        part4: 0x93ef,
        part5: 0xc309e000c746,
    }
}

/// The identifier of the parent locator.
pub open spec fn parent_locator_identifier() -> Uuid {
    Uuid {
        part1: 0xa8d35f2d,
        part2: 0xb30b,
        part3: 0x454d,
        part4: 0xabf7,
        part5: 0xd3d84834ab0c,
    }
}

/// The data over which a checksum is calculated: that with the checksum itself, its second 32
/// bits, set to zero.
pub open spec fn without_checksum(data: Seq<u8>) -> Seq<u8> {
    Seq::new(
        data.len(),
        |i: int|
            if 4 <= i < 8 {
                0u8
            } else {
                data[i]
            },
    )
}

/// Whether the checksum of a structure is right. A checksum of zero is not checked.
pub open spec fn has_valid_checksum(data: Seq<u8>) -> bool {
    u32_le(data, 4) == 0 || u32_le(data, 4) == reversed_crc32_of(
        0x82f63b78,
        0,
        without_checksum(data),
    )
}

/// The image header at an offset, which has the signature "head".
pub open spec fn image_header_at(content: Content, offset: int) -> Result<
    VhdxImageHeader,
    DriverError,
> {
    match content.exact(offset, 4096) {
        Err(error) => Err(error),
        Ok(data) => if u32_be(data, 0) != 0x6865_6164 {
            Err(DriverError::Unsupported)
        } else if !has_valid_checksum(data) {
            Err(DriverError::ChecksumMismatch)
        } else {
            Ok(
                VhdxImageHeader {
                    sequence_number: u64_le(data, 8),
                    data_write_identifier: uuid_le(data, 32),
                    format_version: u16_le(data, 66),
                },
            )
        },
    }
}

/// The active image header: that of the two with the higher sequence number, or the only one that
/// can be read.
pub open spec fn active_image_header(content: Content) -> Result<VhdxImageHeader, DriverError> {
    match (image_header_at(content, 0x1_0000), image_header_at(content, 0x2_0000)) {
        (Ok(primary), Ok(secondary)) => if primary.sequence_number > secondary.sequence_number {
            Ok(primary)
        } else {
            Ok(secondary)
        },
        (Ok(primary), Err(_)) => Ok(primary),
        (Err(_), Ok(secondary)) => Ok(secondary),
        (Err(error), Err(_)) => Err(error),
    }
}

/// The last of `count` entries of 32 bytes after `start` that has an identifier.
pub open spec fn last_entry(data: Seq<u8>, start: int, count: int, identifier: Uuid) -> Option<int>
    decreases count,
{
    if count <= 0 {
        None
    } else if uuid_le(data, start + 32 * (count - 1)) == identifier {
        Some(start + 32 * (count - 1))
    } else {
        last_entry(data, start, count - 1, identifier)
    }
}

/// The region with an identifier.
pub open spec fn region_in(data: Seq<u8>, count: int, identifier: Uuid) -> Option<
    VhdxRegionTableEntry,
> {
    match last_entry(data, 16, count, identifier) {
        Some(offset) => Some(
            VhdxRegionTableEntry {
                data_offset: u64_le(data, offset + 16),
                data_size: u32_le(data, offset + 24),
            },
        ),
        None => None,
    }
}

/// The region table at an offset, which has the signature "regi" and at most 2047 entries.
pub open spec fn region_table_at(content: Content, offset: int) -> Result<
    VhdxRegions,
    DriverError,
> {
    match content.exact(offset, 0x1_0000) {
        Err(error) => Err(error),
        Ok(data) => if u32_be(data, 0) != 0x7265_6769 {
            Err(DriverError::Unsupported)
        } else if u32_le(data, 8) > 2047 {
            Err(DriverError::Invalid)
        } else if !has_valid_checksum(data) {
            Err(DriverError::ChecksumMismatch)
        } else {
            Ok(
                VhdxRegions {
                    metadata: region_in(data, u32_le(data, 8) as int, metadata_region_identifier()),
                    block_allocation_table: region_in(
                        data,
                        u32_le(data, 8) as int,
                        bat_region_identifier(),
                    ),
                },
            )
        },
    }
}

/// The region table: the first of the two that can be read.
pub open spec fn region_table(content: Content) -> Result<VhdxRegions, DriverError> {
    match region_table_at(content, 0x3_0000) {
        Ok(regions) => Ok(regions),
        Err(_) => region_table_at(content, 0x4_0000),
    }
}

/// The metadata item with an identifier.
pub open spec fn metadata_item(table: Seq<u8>, identifier: Uuid) -> Option<VhdxMetadataTableEntry> {
    match last_entry(table, 32, u16_le(table, 10) as int, identifier) {
        Some(offset) => Some(
            VhdxMetadataTableEntry {
                item_offset: u32_le(table, offset + 16),
                item_size: u32_le(table, offset + 20),
            },
        ),
        None => None,
    }
}

/// Whether the items of a metadata table lie in the table and their values after it.
pub open spec fn has_valid_items(table: Seq<u8>) -> bool {
    &&& u16_le(table, 10) <= 2047
    &&& forall|i: int|
        0 <= i < u16_le(table, 10) ==> #[trigger] u32_le(table, 32 + 32 * i + 16) >= 0x1_0000
}

/// The metadata table of a region of at least its size, which has the signature "metadata".
pub open spec fn metadata_table(content: Content, region: VhdxRegionTableEntry) -> Result<
    Seq<u8>,
    DriverError,
> {
    if region.data_size < 0x1_0000 {
        Err(DriverError::Unsupported)
    } else {
        match content.exact(region.data_offset as int, 0x1_0000) {
            Err(error) => Err(error),
            Ok(data) => if u64_be(data, 0) != 0x6d65_7461_6461_7461 {
                Err(DriverError::Unsupported)
            } else if !has_valid_items(data) {
                Err(DriverError::Invalid)
            } else {
                Ok(data)
            },
        }
    }
}

/// The value of a metadata item that has to be there and of the given size.
pub open spec fn item_value(
    content: Content,
    region: VhdxRegionTableEntry,
    item: Option<VhdxMetadataTableEntry>,
    size: u32,
) -> Result<Seq<u8>, DriverError> {
    match item {
        None => Err(DriverError::Missing),
        Some(item) => if item.item_size != size {
            Err(DriverError::Unsupported)
        } else if region.data_offset + item.item_offset > u64::MAX {
            Err(DriverError::Overflow)
        } else {
            content.exact(region.data_offset + item.item_offset, size as nat)
        },
    }
}

/// The block size and the disk type in the file parameters.
pub open spec fn disk_layout(value: Seq<u8>) -> Result<(u32, VhdDiskType), DriverError> {
    let flags = u32_le(value, 4) % 4;
    if u32_le(value, 0) < 0x10_0000 || u32_le(value, 0) > 0x1000_0000 {
        Err(DriverError::Invalid)
    } else if flags == 0 {
        Ok((u32_le(value, 0), VhdDiskType::Fixed))
    } else if flags == 1 {
        Ok((u32_le(value, 0), VhdDiskType::Dynamic))
    } else if flags == 2 {
        Ok((u32_le(value, 0), VhdDiskType::Differential))
    } else {
        Err(DriverError::Unsupported)
    }
}

/// The sector size in a metadata item.
pub open spec fn sector_size(value: Result<Seq<u8>, DriverError>) -> Result<u32, DriverError> {
    match value {
        Err(error) => Err(error),
        Ok(value) => if u32_le(value, 0) == 512 || u32_le(value, 0) == 4096 {
            Ok(u32_le(value, 0))
        } else {
            Err(DriverError::Invalid)
        },
    }
}

/// Why the items that are only checked cannot be used: the physical sector size, which need not be
/// there, and the virtual disk identifier.
pub open spec fn unused_items_failure(
    content: Content,
    region: VhdxRegionTableEntry,
    table: Seq<u8>,
) -> Option<DriverError> {
    let physical = metadata_item(table, physical_sector_size_identifier());
    let identifier = metadata_item(table, virtual_disk_identifier_identifier());
    if physical is Some && sector_size(item_value(content, region, physical, 4)) is Err {
        Some(sector_size(item_value(content, region, physical, 4))->Err_0)
    } else if identifier is None {
        Some(DriverError::Missing)
    } else if identifier->0.item_size != 16 {
        Some(DriverError::Unsupported)
    } else {
        None
    }
}

/// What a metadata table says of the disk.
pub open spec fn disk_values(
    content: Content,
    region: VhdxRegionTableEntry,
    table: Seq<u8>,
) -> Result<VhdxDiskValues, DriverError> {
    match item_value(content, region, metadata_item(table, file_parameters_identifier()), 8) {
        Err(error) => Err(error),
        Ok(parameters) => match disk_layout(parameters) {
            Err(error) => Err(error),
            Ok((block_size, disk_type)) => match item_value(
                content,
                region,
                metadata_item(table, virtual_disk_size_identifier()),
                8,
            ) {
                Err(error) => Err(error),
                Ok(media_size) => match sector_size(
                    item_value(
                        content,
                        region,
                        metadata_item(table, logical_sector_size_identifier()),
                        4,
                    ),
                ) {
                    Err(error) => Err(error),
                    Ok(bytes_per_sector) => match unused_items_failure(content, region, table) {
                        Some(error) => Err(error),
                        None => Ok(
                            VhdxDiskValues {
                                disk_type,
                                block_size,
                                bytes_per_sector: bytes_per_sector as u16,
                                media_size: u64_le(media_size, 0),
                            },
                        ),
                    },
                },
            },
        },
    }
}

/// The size of the medium and that of a logical sector are those of the items with their identifiers, and
/// the values of an item lie behind the start of the metadata region at its offset.
pub proof fn lemma_disk_values_stored(
    content: Content,
    region: VhdxRegionTableEntry,
    table: Seq<u8>,
    parameters: VhdxMetadataTableEntry,
    size: VhdxMetadataTableEntry,
    sector: VhdxMetadataTableEntry,
    disk: VhdxDiskValues,
)
    requires
        metadata_item(
            table,
            (Uuid {
                part1: 0xcaa16737,
                part2: 0xfa36,
                part3: 0x4d43,
                part4: 0xb3b6,
                part5: 0x33f0aa44e76b,
            }),
        ) == Some(parameters),
        metadata_item(
            table,
            (Uuid {
                part1: 0x2fa54224,
                part2: 0xcd1b,
                part3: 0x4876,
                part4: 0xb211,
                part5: 0x5dbed83bf4b8,
            }),
        ) == Some(size),
        metadata_item(
            table,
            (Uuid {
                part1: 0x8141bf1d,
                part2: 0xa96f,
                part3: 0x4709,
                part4: 0xba47,
                part5: 0xf233a8faab5f,
            }),
        ) == Some(sector),
        parameters.item_size == 8,
        size.item_size == 8,
        sector.item_size == 4,
        content.has(region.data_offset + parameters.item_offset, 8),
        region.data_offset + parameters.item_offset <= u64::MAX,
        region.data_offset + size.item_offset <= u64::MAX,
        region.data_offset + sector.item_offset <= u64::MAX,
        disk_layout(content.window(region.data_offset + parameters.item_offset, 8)) == Ok::<
            (u32, VhdDiskType),
            DriverError,
        >((disk.block_size, disk.disk_type)),
        content.holds_le(region.data_offset + size.item_offset, 8, disk.media_size as int),
        content.holds_le(region.data_offset + sector.item_offset, 4, disk.bytes_per_sector as int),
        disk.bytes_per_sector == 512 || disk.bytes_per_sector == 4096,
        unused_items_failure(content, region, table) is None,
    ensures
        disk_values(content, region, table) == Ok::<VhdxDiskValues, DriverError>(disk),
{
    let at = region.data_offset + size.item_offset;
    let sector_at = region.data_offset + sector.item_offset;
    lemma_holds_le(content.window(at, 8), 0, 8, disk.media_size as int);
    lemma_holds_le(content.window(sector_at, 4), 0, 4, disk.bytes_per_sector as int);
}

/// Whether a text is stored in a part of a parent locator, in UTF-16 in little-endian order.
pub open spec fn holds_locator_text(data: Seq<u8>, offset: int, size: int, text: Seq<char>) -> bool {
    let units = encode_utf16(text);
    &&& 20 <= offset < data.len()
    &&& size == 2 * units.len()
    &&& offset + size <= data.len()
    &&& holds_units_le(data, offset, units)
}

/// The key and the value of an entry of a parent locator are the texts at the offsets and of the sizes in
/// the entry, which has 12 bytes and stands behind the 20 bytes of the header and the entries before it.
pub proof fn lemma_locator_entry_stored(
    data: Seq<u8>,
    index: int,
    key: Seq<char>,
    key_offset: int,
    key_size: int,
    value: Seq<char>,
    value_offset: int,
    value_size: int,
)
    requires
        holds_le(data, 20 + 12 * index, 4, key_offset),
        holds_le(data, 24 + 12 * index, 4, value_offset),
        holds_le(data, 28 + 12 * index, 2, key_size),
        holds_le(data, 30 + 12 * index, 2, value_size),
        holds_locator_text(data, key_offset, key_size, key),
        holds_locator_text(data, value_offset, value_size, value),
    ensures
        locator_key(data, index) == Ok::<Seq<char>, DriverError>(key),
        locator_value(data, index) == Ok::<Seq<char>, DriverError>(value),
{
    broadcast use lemma_holds_le;

    lemma_units_le(data, key_offset, key_offset + key_size, encode_utf16(key));
    lemma_units_le(data, value_offset, value_offset + value_size, encode_utf16(value));
    lemma_utf16_text(key);
    lemma_utf16_text(value);
}

/// The text in a part of a parent locator.
pub open spec fn locator_text(data: Seq<u8>, offset: int, size: int) -> Result<
    Seq<char>,
    DriverError,
> {
    if offset < 20 || offset >= data.len() || offset + size > data.len() || size % 2 != 0 {
        Err(DriverError::Invalid)
    } else {
        match utf16_text(units_le(data.subrange(offset, offset + size))) {
            Some(text) => Ok(text),
            None => Err(DriverError::Encoding),
        }
    }
}

/// The key of a parent locator entry.
pub open spec fn locator_key(data: Seq<u8>, index: int) -> Result<Seq<char>, DriverError> {
    let offset = 20 + 12 * index;
    locator_text(data, u32_le(data, offset) as int, u16_le(data, offset + 8) as int)
}

/// The value of a parent locator entry.
pub open spec fn locator_value(data: Seq<u8>, index: int) -> Result<Seq<char>, DriverError> {
    let offset = 20 + 12 * index;
    locator_text(data, u32_le(data, offset + 4) as int, u16_le(data, offset + 10) as int)
}

/// Why a parent locator entry cannot be read.
pub open spec fn locator_failure(data: Seq<u8>) -> spec_fn(int) -> Option<DriverError> {
    |index: int|
        if 20 + 12 * index + 12 > data.len() {
            Some(DriverError::Invalid)
        } else {
            match (locator_key(data, index), locator_value(data, index)) {
                (Err(error), _) => Some(error),
                (Ok(_), Err(error)) => Some(error),
                (Ok(_), Ok(_)) => None,
            }
        }
}

/// The value of the last of `count` parent locator entries that has a key.
pub open spec fn locator_lookup(data: Seq<u8>, count: int, key: Seq<char>) -> Option<Seq<char>>
    decreases count,
{
    if count <= 0 {
        None
    } else if locator_key(data, count - 1) == Ok::<Seq<char>, DriverError>(key) {
        Some(locator_value(data, count - 1)->Ok_0)
    } else {
        locator_lookup(data, count - 1, key)
    }
}

/// What a parent locator says of the parent.
pub open spec fn parent_locator(data: Seq<u8>) -> Result<VhdxParentValues, DriverError> {
    let count = u16_le(data, 18) as int;
    if u64_be(data, 0) != 0xb7ef_4ab0_9ed1_814a || u64_be(data, 8) != 0xb789_25b8_e944_5913 {
        Err(DriverError::Unsupported)
    } else {
        match first_failure(count as nat, locator_failure(data)) {
            Some(error) => Err(error),
            None => {
                let name = match locator_lookup(data, count, "absolute_win32_path"@) {
                    Some(path) => Some(path),
                    None => match locator_lookup(data, count, "volume_path"@) {
                        Some(path) => Some(path),
                        None => locator_lookup(data, count, "relative_path"@),
                    },
                };
                match locator_lookup(data, count, "parent_linkage"@) {
                    None => Ok(VhdxParentValues { identifier: None, name }),
                    Some(linkage) => match text_uuid(linkage) {
                        Err(error) => Err(error),
                        Ok(identifier) => Ok(
                            VhdxParentValues { identifier: Some(identifier), name },
                        ),
                    },
                }
            },
        }
    }
}

/// What a metadata table says of the parent: what the parent locator does, if there is one.
pub open spec fn parent_values(
    content: Content,
    region: VhdxRegionTableEntry,
    table: Seq<u8>,
) -> Result<VhdxParentValues, DriverError> {
    match metadata_item(table, parent_locator_identifier()) {
        None => Ok(VhdxParentValues { identifier: None, name: None }),
        Some(item) => if region.data_offset + item.item_offset > u64::MAX {
            Err(DriverError::Overflow)
        } else if item.item_size < 20 || item.item_size > 0x1_0000 {
            Err(DriverError::Unsupported)
        } else {
            match content.exact(region.data_offset + item.item_offset, item.item_size as nat) {
                Err(error) => Err(error),
                Ok(data) => parent_locator(data),
            }
        },
    }
}

/// The number of blocks for which there is one sector bitmap block.
pub open spec fn entries_per_chunk(disk: VhdxDiskValues) -> int {
    0x80_0000 * disk.bytes_per_sector / disk.block_size as int
}

/// The size of the part of a sector bitmap block that speaks of one block.
pub open spec fn bitmap_size(disk: VhdxDiskValues) -> int {
    0x10_0000int / entries_per_chunk(disk)
}

/// The number of bytes of a block of which its sector bitmap speaks.
pub open spec fn bitmap_coverage(disk: VhdxDiskValues) -> int {
    bitmap_size(disk) * 8 * disk.bytes_per_sector
}

/// The entry of the block allocation table at an index.
pub open spec fn bat_entry(content: Content, region: VhdxRegionTableEntry, index: int) -> Result<
    u64,
    DriverError,
> {
    if index >= region.data_size / 8 {
        Err(DriverError::OutOfBounds)
    } else if region.data_offset + index * 8 > u64::MAX {
        Err(DriverError::Overflow)
    } else {
        match content.exact(region.data_offset + index * 8, 8) {
            Err(error) => Err(error),
            Ok(data) => Ok(u64_le(data, 0)),
        }
    }
}

/// The state of a block: the lower 3 bits of its entry.
pub open spec fn block_state(entry: u64) -> u64 {
    entry % 8
}

/// The offset of a block: its entry without the lower 20 bits.
pub open spec fn block_offset(entry: u64) -> u64 {
    (entry - entry % 0x10_0000) as u64
}

/// The index of the entry of a block. A disk that is not fixed has an entry for a sector bitmap
/// block after those of the blocks of each chunk.
pub open spec fn bat_index(disk: VhdxDiskValues, index: int) -> int {
    if disk.disk_type is Fixed {
        index
    } else {
        index / entries_per_chunk(disk) * (entries_per_chunk(disk) + 1) + index
            % entries_per_chunk(disk)
    }
}

/// Where a block of a differential disk is stored that is not stored as a whole.
pub open spec fn sectors_of(
    content: Content,
    disk: VhdxDiskValues,
    region: VhdxRegionTableEntry,
    entry: u64,
    index: int,
) -> Result<VhdxBlock, DriverError> {
    let chunk = index / entries_per_chunk(disk);
    match bat_entry(content, region, (1 + chunk) * (entries_per_chunk(disk) + 1) - 1) {
        Err(error) => Err(error),
        Ok(bitmap_entry) => {
            let bitmap_offset = block_offset(bitmap_entry) + index % entries_per_chunk(disk)
                * bitmap_size(disk);
            if block_state(bitmap_entry) < 6 {
                Err(DriverError::Invalid)
            } else if !content.has(bitmap_offset, bitmap_size(disk)) {
                Err(DriverError::Truncated)
            } else if block_offset(entry) + bitmap_coverage(disk) > u64::MAX {
                Err(DriverError::Overflow)
            } else {
                Ok(
                    VhdxBlock::Sectors {
                        offset: block_offset(entry),
                        bitmap_offset: bitmap_offset as u64,
                    },
                )
            }
        },
    }
}

/// Where a block is stored.
pub open spec fn block_at(
    content: Content,
    disk: VhdxDiskValues,
    region: VhdxRegionTableEntry,
    index: int,
) -> Result<VhdxBlock, DriverError> {
    match bat_entry(content, region, bat_index(disk, index)) {
        Err(error) => Err(error),
        Ok(entry) => if disk.disk_type is Differential && block_state(entry) != 6 {
            sectors_of(content, disk, region, entry, index)
        } else if block_state(entry) < 6 {
            Ok(VhdxBlock::Absent)
        } else {
            Ok(VhdxBlock::Stored { offset: block_offset(entry) })
        },
    }
}

/// Whether an image header is stored at an offset: behind the characters "head", in little-endian order,
/// its values. Its checksum is zero, or that of the header with zeros in the place of the checksum.
pub open spec fn holds_image_header(
    content: Content,
    offset: int,
    header: VhdxImageHeader,
    checksum: int,
) -> bool {
    let data = content.window(offset, 4096);
    &&& content.has(offset, 4096)
    &&& data[0] == 0x68 && data[1] == 0x65 && data[2] == 0x61 && data[3] == 0x64
    &&& holds_le(data, 4, 4, checksum)
    &&& checksum == 0 || checksum == reversed_crc32_of(
        0x82f63b78,
        0,
        data.take(4) + seq![0u8, 0u8, 0u8, 0u8] + data.skip(8),
    )
    &&& holds_le(data, 8, 8, header.sequence_number as int)
    &&& holds_uuid_le(data, 32, header.data_write_identifier)
    &&& holds_le(data, 66, 2, header.format_version as int)
}

/// The values of an image header that is stored are read back.
pub proof fn lemma_image_header_stored(
    content: Content,
    offset: int,
    header: VhdxImageHeader,
    checksum: int,
)
    requires
        holds_image_header(content, offset, header, checksum),
    ensures
        image_header_at(content, offset) == Ok::<VhdxImageHeader, DriverError>(header),
{
    broadcast use lemma_holds_le;

    let data = content.window(offset, 4096);
    lemma_uuid_stored(data, 32, header.data_write_identifier);
    assert(u32_be(data, 0) == 0x6865_6164);
    assert(without_checksum(data) =~= data.take(4) + seq![0u8, 0u8, 0u8, 0u8] + data.skip(8));
}

/// Of two image headers that are stored, behind 64 and behind 128 KiB, the one with the higher sequence
/// number counts, whichever of the two it is.
pub proof fn lemma_active_header(
    content: Content,
    primary: VhdxImageHeader,
    secondary: VhdxImageHeader,
    primary_checksum: int,
    secondary_checksum: int,
)
    requires
        holds_image_header(content, 65536, primary, primary_checksum),
        holds_image_header(content, 131072, secondary, secondary_checksum),
    ensures
        primary.sequence_number > secondary.sequence_number ==> active_image_header(content)
            == Ok::<VhdxImageHeader, DriverError>(primary),
        primary.sequence_number < secondary.sequence_number ==> active_image_header(content)
            == Ok::<VhdxImageHeader, DriverError>(secondary),
{
    lemma_image_header_stored(content, 65536, primary, primary_checksum);
    lemma_image_header_stored(content, 131072, secondary, secondary_checksum);
}

/// An entry with an identifier that none behind it has is the one that is found.
pub proof fn lemma_last_entry(
    data: Seq<u8>,
    start: int,
    identifiers: Seq<Uuid>,
    index: int,
)
    requires
        0 <= index < identifiers.len(),
        forall|i: int|
            0 <= i < identifiers.len() ==> holds_uuid_le(
                data,
                start + 32 * i,
                #[trigger] identifiers[i],
            ),
        forall|i: int|
            index < i < identifiers.len() ==> #[trigger] identifiers[i] != identifiers[index],
    ensures
        last_entry(data, start, identifiers.len() as int, identifiers[index]) == Some(
            start + 32 * index,
        ),
    decreases identifiers.len(),
{
    let last = identifiers.len() - 1;
    assert(holds_uuid_le(data, start + 32 * last, identifiers[last]));
    lemma_uuid_stored(data, start + 32 * last, identifiers[last]);
    if index < last {
        assert(identifiers[last] != identifiers[index]);
        let front = identifiers.drop_last();
        assert forall|i: int| 0 <= i < front.len() implies holds_uuid_le(
            data,
            start + 32 * i,
            #[trigger] front[i],
        ) by {
            assert(holds_uuid_le(data, start + 32 * i, identifiers[i]));
        }
        assert forall|i: int| index < i < front.len() implies #[trigger] front[i]
            != front[index] by {
            assert(identifiers[i] != identifiers[index]);
        }
        lemma_last_entry(data, start, front, index);
    }
}

/// Whether a region table is stored at an offset: behind the characters "regi", in little-endian order,
/// the number of its entries and, from offset 16 on, 32 bytes for each of them with its identifier, its
/// offset and its size.
pub open spec fn holds_region_table(
    content: Content,
    offset: int,
    checksum: int,
    identifiers: Seq<Uuid>,
    regions: Seq<VhdxRegionTableEntry>,
) -> bool {
    let data = content.window(offset, 65536);
    &&& content.has(offset, 65536)
    &&& data[0] == 0x72 && data[1] == 0x65 && data[2] == 0x67 && data[3] == 0x69
    &&& holds_le(data, 4, 4, checksum)
    &&& checksum == 0 || checksum == reversed_crc32_of(
        0x82f63b78,
        0,
        data.take(4) + seq![0u8, 0u8, 0u8, 0u8] + data.skip(8),
    )
    &&& holds_le(data, 8, 4, identifiers.len() as int)
    &&& identifiers.len() == regions.len() <= 2047
    &&& forall|i: int|
        0 <= i < identifiers.len() ==> holds_uuid_le(data, 16 + 32 * i, #[trigger] identifiers[i])
    &&& forall|i: int|
        0 <= i < regions.len() ==> holds_le(
            data,
            32 + 32 * i,
            8,
            (#[trigger] regions[i]).data_offset as int,
        ) && holds_le(data, 40 + 32 * i, 4, regions[i].data_size as int)
}

/// The metadata region and that of the block allocation table are found by their identifiers.
pub proof fn lemma_regions_stored(
    content: Content,
    offset: int,
    checksum: int,
    identifiers: Seq<Uuid>,
    regions: Seq<VhdxRegionTableEntry>,
    metadata: int,
    table: int,
)
    requires
        holds_region_table(content, offset, checksum, identifiers, regions),
        identifiers.no_duplicates(),
        0 <= metadata < identifiers.len(),
        0 <= table < identifiers.len(),
        identifiers[metadata] == (Uuid {
            part1: 0x8b7ca206,
            part2: 0x4790,
            part3: 0x4b9a,
            part4: 0xb8fe,
            part5: 0x575f050f886e,
        }),
        identifiers[table] == (Uuid {
            part1: 0x2dc27766,
            part2: 0xf623,
            part3: 0x4200,
            part4: 0x9d64,
            part5: 0x115e9bfd4a08,
        }),
    ensures
        region_table_at(content, offset) == Ok::<VhdxRegions, DriverError>(
            VhdxRegions {
                metadata: Some(regions[metadata]),
                block_allocation_table: Some(regions[table]),
            },
        ),
{
    broadcast use lemma_holds_le;

    let data = content.window(offset, 65536);
    assert(u32_be(data, 0) == 0x7265_6769);
    assert(without_checksum(data) =~= data.take(4) + seq![0u8, 0u8, 0u8, 0u8] + data.skip(8));
    lemma_last_entry(data, 16, identifiers, metadata);
    lemma_last_entry(data, 16, identifiers, table);
    assert(holds_le(data, 32 + 32 * metadata, 8, regions[metadata].data_offset as int));
    assert(holds_le(data, 32 + 32 * table, 8, regions[table].data_offset as int));
}

/// A metadata item is found by its identifier, which no item behind it has: in the table, from offset
/// 32 on, are 32 bytes for each item, with its identifier, its offset and its size.
pub proof fn lemma_metadata_item_stored(
    table: Seq<u8>,
    identifiers: Seq<Uuid>,
    index: int,
    item: VhdxMetadataTableEntry,
)
    requires
        holds_le(table, 10, 2, identifiers.len() as int),
        0 <= index < identifiers.len(),
        forall|i: int|
            0 <= i < identifiers.len() ==> holds_uuid_le(
                table,
                32 + 32 * i,
                #[trigger] identifiers[i],
            ),
        forall|i: int|
            index < i < identifiers.len() ==> #[trigger] identifiers[i] != identifiers[index],
        holds_le(table, 48 + 32 * index, 4, item.item_offset as int),
        holds_le(table, 52 + 32 * index, 4, item.item_size as int),
    ensures
        metadata_item(table, identifiers[index]) == Some(item),
{
    broadcast use lemma_holds_le;

    lemma_last_entry(table, 32, identifiers, index);
}

/// The file parameters are the size of a block and, in their second value, whether the blocks are left
/// allocated in its lowest bit and whether there is a parent in the next one.
pub proof fn lemma_disk_layout_stored(
    value: Seq<u8>,
    block_size: u32,
    parameter_flags: int,
    has_parent: bool,
    is_fixed_bit: bool,
)
    requires
        holds_le(value, 0, 4, block_size as int),
        holds_le(
            value,
            4,
            4,
            4 * parameter_flags + (if has_parent {
                2int
            } else {
                0
            }) + (if is_fixed_bit {
                1int
            } else {
                0
            }),
        ),
        0x10_0000 <= block_size <= 0x1000_0000,
        !(has_parent && is_fixed_bit),
    ensures
        disk_layout(value) == Ok::<(u32, VhdDiskType), DriverError>(
            (
                block_size,
                if has_parent {
                    VhdDiskType::Differential
                } else if is_fixed_bit {
                    VhdDiskType::Dynamic
                } else {
                    VhdDiskType::Fixed
                },
            ),
        ),
{
    broadcast use lemma_holds_le;

}

/// Whether the block allocation table has an entry, in little-endian order: the state of a block in its
/// lowest bits, and its offset in whole MiB.
pub open spec fn holds_bat_entry(
    content: Content,
    region: VhdxRegionTableEntry,
    index: int,
    mebibytes: int,
    state: int,
) -> bool {
    &&& 0 <= index
    &&& 8 * index + 8 <= region.data_size
    &&& region.data_offset + 8 * index <= u64::MAX
    &&& content.holds_le(region.data_offset + 8 * index, 8, 0x10_0000 * mebibytes + state)
    &&& 0 <= state < 8
    &&& 0 <= mebibytes
}

proof fn lemma_bat_entry_stored(
    content: Content,
    region: VhdxRegionTableEntry,
    index: int,
    mebibytes: int,
    state: int,
)
    requires
        holds_bat_entry(content, region, index, mebibytes, state),
    ensures
        bat_entry(content, region, index) is Ok,
        block_state(bat_entry(content, region, index)->Ok_0) == state,
        block_offset(bat_entry(content, region, index)->Ok_0) == 0x10_0000 * mebibytes,
{
    let at = region.data_offset + 8 * index;
    let value = 0x10_0000 * mebibytes + state;
    let data = content.window(at, 8);
    lemma_holds_le(data, 0, 8, value);
    assert(region.data_offset + index * 8 == at);
    assert(bat_entry(content, region, index) == Ok::<u64, DriverError>(u64_le(data, 0)));
    lemma_entry_parts(u64_le(data, 0), mebibytes, state);
}

proof fn lemma_entry_parts(entry: u64, mebibytes: int, state: int)
    requires
        entry == 0x10_0000 * mebibytes + state,
        0 <= mebibytes,
        0 <= state < 8,
    ensures
        block_state(entry) == state,
        block_offset(entry) == 0x10_0000 * mebibytes,
{
    vstd::arithmetic::div_mod::lemma_fundamental_div_mod_converse(
        entry as int,
        0x10_0000,
        mebibytes,
        state,
    );
    vstd::arithmetic::div_mod::lemma_fundamental_div_mod_converse(
        entry as int,
        8,
        0x2_0000 * mebibytes,
        state,
    );
}

/// The entry of the block with an index in its chunk stands behind those of the chunks before it, each
/// of which has one for a sector bitmap behind those of its blocks. A chunk has as many blocks as a
/// sector bitmap of 1 MiB speaks of.
pub proof fn lemma_block_stored(
    content: Content,
    disk: VhdxDiskValues,
    region: VhdxRegionTableEntry,
    chunk: int,
    blocks_per_chunk: int,
    index: int,
    mebibytes: int,
    state: int,
)
    requires
        disk.disk_type is Dynamic,
        0 < disk.block_size,
        blocks_per_chunk * disk.block_size == 0x10_0000 * 8 * disk.bytes_per_sector,
        0 <= chunk,
        0 <= index < blocks_per_chunk,
        holds_bat_entry(
            content,
            region,
            chunk * (blocks_per_chunk + 1) + index,
            mebibytes,
            state,
        ),
    ensures
        block_at(content, disk, region, chunk * blocks_per_chunk + index) == Ok::<
            VhdxBlock,
            DriverError,
        >(
            if state < 6 {
                VhdxBlock::Absent
            } else {
                VhdxBlock::Stored { offset: (0x10_0000 * mebibytes) as u64 }
            },
        ),
{
    lemma_chunk_entries(disk, blocks_per_chunk, chunk, index);
    lemma_bat_entry_stored(
        content,
        region,
        chunk * (blocks_per_chunk + 1) + index,
        mebibytes,
        state,
    );
}

/// The entries of a fixed disk are those of its blocks.
pub proof fn lemma_fixed_block_stored(
    content: Content,
    disk: VhdxDiskValues,
    region: VhdxRegionTableEntry,
    index: int,
    mebibytes: int,
    state: int,
)
    requires
        disk.disk_type is Fixed,
        holds_bat_entry(content, region, index, mebibytes, state),
    ensures
        block_at(content, disk, region, index) == Ok::<VhdxBlock, DriverError>(
            if state < 6 {
                VhdxBlock::Absent
            } else {
                VhdxBlock::Stored { offset: (0x10_0000 * mebibytes) as u64 }
            },
        ),
{
    lemma_bat_entry_stored(content, region, index, mebibytes, state);
}

proof fn lemma_chunk_entries(
    disk: VhdxDiskValues,
    blocks_per_chunk: int,
    chunk: int,
    index: int,
)
    requires
        0 < disk.block_size,
        blocks_per_chunk * disk.block_size == 0x10_0000 * 8 * disk.bytes_per_sector,
        0 <= chunk,
        0 <= index < blocks_per_chunk,
    ensures
        entries_per_chunk(disk) == blocks_per_chunk,
        (chunk * blocks_per_chunk + index) / blocks_per_chunk == chunk,
        (chunk * blocks_per_chunk + index) % blocks_per_chunk == index,
{
    vstd::arithmetic::div_mod::lemma_fundamental_div_mod_converse(
        0x80_0000 * disk.bytes_per_sector,
        disk.block_size as int,
        blocks_per_chunk,
        0,
    );
    vstd::arithmetic::div_mod::lemma_fundamental_div_mod_converse(
        chunk * blocks_per_chunk + index,
        blocks_per_chunk,
        chunk,
        index,
    );
}

/// A block of a differential disk that is not stored as a whole has its sector bitmap in the block of
/// its chunk, which the last entry of the chunk gives, behind those of the blocks before it in the
/// chunk. A block in state 6 is stored as a whole.
pub proof fn lemma_differential_block_stored(
    content: Content,
    disk: VhdxDiskValues,
    region: VhdxRegionTableEntry,
    chunk: int,
    blocks_per_chunk: int,
    index: int,
    bitmap_size: int,
    mebibytes: int,
    state: int,
    bitmap_mebibytes: int,
    bitmap_state: int,
)
    requires
        disk.disk_type is Differential,
        0 < disk.block_size,
        blocks_per_chunk * disk.block_size == 0x10_0000 * 8 * disk.bytes_per_sector,
        bitmap_size * blocks_per_chunk == 0x10_0000,
        0 <= chunk,
        0 <= index < blocks_per_chunk,
        holds_bat_entry(
            content,
            region,
            chunk * (blocks_per_chunk + 1) + index,
            mebibytes,
            state,
        ),
        state != 6 ==> holds_bat_entry(
            content,
            region,
            chunk * (blocks_per_chunk + 1) + blocks_per_chunk,
            bitmap_mebibytes,
            bitmap_state,
        ),
        state != 6 ==> 6 <= bitmap_state,
        state != 6 ==> content.has(0x10_0000 * bitmap_mebibytes + index * bitmap_size, bitmap_size),
        state != 6 ==> 0x10_0000 * mebibytes + bitmap_size * 8 * disk.bytes_per_sector <= u64::MAX,
        content.size <= u64::MAX,
    ensures
        block_at(content, disk, region, chunk * blocks_per_chunk + index) == Ok::<
            VhdxBlock,
            DriverError,
        >(
            if state == 6 {
                VhdxBlock::Stored { offset: (0x10_0000 * mebibytes) as u64 }
            } else {
                VhdxBlock::Sectors {
                    offset: (0x10_0000 * mebibytes) as u64,
                    bitmap_offset: (0x10_0000 * bitmap_mebibytes + index * bitmap_size) as u64,
                }
            },
        ),
{
    lemma_chunk_entries(disk, blocks_per_chunk, chunk, index);
    lemma_bat_entry_stored(
        content,
        region,
        chunk * (blocks_per_chunk + 1) + index,
        mebibytes,
        state,
    );
    if state != 6 {
        vstd::arithmetic::div_mod::lemma_fundamental_div_mod_converse(
            0x10_0000,
            blocks_per_chunk,
            bitmap_size,
            0,
        );
        assert(self::bitmap_size(disk) == bitmap_size);
        lemma_bat_entry_stored(
            content,
            region,
            chunk * (blocks_per_chunk + 1) + blocks_per_chunk,
            bitmap_mebibytes,
            bitmap_state,
        );
        assert((1 + chunk) * (blocks_per_chunk + 1) - 1 == chunk * (blocks_per_chunk + 1)
            + blocks_per_chunk) by (nonlinear_arith);
    }
}

/// Why a block cannot be located.
pub open spec fn block_failure(
    content: Content,
    disk: VhdxDiskValues,
    region: VhdxRegionTableEntry,
) -> spec_fn(int) -> Option<DriverError> {
    |index: int|
        match block_at(content, disk, region, index) {
            Ok(_) => None,
            Err(error) => Some(error),
        }
}

/// Whether the sector bitmap of a block of a medium of `count` blocks covers the block, as it has
/// to unless the block is the last.
pub open spec fn is_usable_block(
    content: Content,
    disk: VhdxDiskValues,
    region: VhdxRegionTableEntry,
    count: nat,
    index: int,
) -> bool {
    match block_at(content, disk, region, index) {
        Ok(VhdxBlock::Sectors { .. }) => index + 1 < count ==> bitmap_coverage(disk)
            >= disk.block_size,
        _ => true,
    }
}

/// The size of the medium up to which the sector bitmaps speak of it.
pub open spec fn covered_size(
    content: Content,
    disk: VhdxDiskValues,
    region: VhdxRegionTableEntry,
) -> nat {
    let count = number_of_blocks(disk.media_size as int, disk.block_size as int);
    let end = (count - 1) * disk.block_size + bitmap_coverage(disk);
    if count > 0 && block_at(content, disk, region, count - 1)->Ok_0 is Sectors && end
        < disk.media_size {
        end as nat
    } else {
        disk.media_size as nat
    }
}

/// Where a byte of a block that starts at `start` is stored.
pub open spec fn stored_location(
    source: DataSourceReference,
    parent: Option<DataSourceReference>,
    disk: VhdxDiskValues,
    block: VhdxBlock,
    start: int,
    k: int,
) -> MediaLocation {
    match block {
        VhdxBlock::Absent => MediaLocation::Zero,
        VhdxBlock::Stored { offset } => MediaLocation::Data {
            source,
            offset: offset + (k - start),
        },
        VhdxBlock::Sectors { offset, bitmap_offset } => sector_location(
            source,
            parent,
            source.content().window(bitmap_offset as int, bitmap_size(disk) as nat),
            disk.bytes_per_sector as int,
            offset as int,
            start,
            k,
        ),
    }
}

/// Where an image stores the byte of the medium at an offset: in the block that covers it.
pub open spec fn media_location(
    source: DataSourceReference,
    parent: Option<DataSourceReference>,
    disk: VhdxDiskValues,
    region: VhdxRegionTableEntry,
) -> spec_fn(int) -> MediaLocation {
    |k: int|
        stored_location(
            source,
            parent,
            disk,
            block_at(source.content(), disk, region, k / disk.block_size as int)->Ok_0,
            k - k % disk.block_size as int,
            k,
        )
}

/// Every byte of a block that is stored as a whole lies as far behind its offset as it lies behind the
/// start of the block. Where a sector bitmap says which sectors are stored, that holds of these, and
/// every other byte is that of the parent. A block that is not stored is zero.
pub proof fn lemma_block_byte(
    source: DataSourceReference,
    parent: DataSourceReference,
    disk: VhdxDiskValues,
    region: VhdxRegionTableEntry,
    index: int,
    bitmap_size: int,
    relative_offset: int,
)
    requires
        0 <= relative_offset < disk.block_size,
        block_at(source.content(), disk, region, index) is Ok,
        0 < disk.bytes_per_sector,
        bitmap_size == self::bitmap_size(disk),
        relative_offset < bitmap_size * 8 * disk.bytes_per_sector,
    ensures
        ({
            let k = index * disk.block_size + relative_offset;
            let sector = relative_offset / disk.bytes_per_sector as int;
            media_location(source, Some(parent), disk, region)(k) == (match block_at(
                source.content(),
                disk,
                region,
                index,
            )->Ok_0 {
                VhdxBlock::Absent => MediaLocation::Zero,
                VhdxBlock::Stored { offset } => MediaLocation::Data {
                    source,
                    offset: offset + relative_offset,
                },
                VhdxBlock::Sectors { offset, bitmap_offset } => if bit_of(
                    source.content().bytes[bitmap_offset + sector / 8],
                    sector % 8,
                ) {
                    MediaLocation::Data { source, offset: offset + relative_offset }
                } else {
                    MediaLocation::Data { source: parent, offset: k }
                },
            })
        }),
{
    let k = index * disk.block_size + relative_offset;
    lemma_block_index(k, index, disk.block_size as int);
    let size = disk.bytes_per_sector as int;
    let sector = relative_offset / size;
    assert(0 <= sector < bitmap_size * 8) by (nonlinear_arith)
        requires
            0 <= relative_offset < bitmap_size * 8 * size,
            0 < size,
            sector == relative_offset / size,
    ;
    if let Ok(VhdxBlock::Sectors { offset, bitmap_offset }) = block_at(
        source.content(),
        disk,
        region,
        index,
    ) {
        let bitmap = source.content().window(bitmap_offset as int, bitmap_size as nat);
        assert(bitmap[sector / 8] == source.content().bytes[bitmap_offset + sector / 8]);
    }
}

/// Why the blocks of a medium cannot be used, if they cannot.
pub open spec fn blocks_failure(
    content: Content,
    disk: VhdxDiskValues,
    region: VhdxRegionTableEntry,
) -> Option<DriverError> {
    let count = number_of_blocks(disk.media_size as int, disk.block_size as int);
    if disk.media_size > (region.data_size / 8) * disk.block_size {
        Some(DriverError::OutOfBounds)
    } else {
        match first_failure(count, block_failure(content, disk, region)) {
            Some(error) => Some(error),
            None => if forall|i: int|
                0 <= i < count ==> #[trigger] is_usable_block(content, disk, region, count, i) {
                None
            } else {
                Some(DriverError::Invalid)
            },
        }
    }
}

/// Why a parent cannot be used: a differential disk needs the parent that its metadata names.
pub open spec fn parent_failure(
    disk_type: VhdDiskType,
    identifier: Option<Uuid>,
    parent: Option<Uuid>,
) -> Option<DriverError> {
    if disk_type is Differential {
        if parent is None || identifier is None {
            Some(DriverError::Missing)
        } else if parent != identifier {
            Some(DriverError::Invalid)
        } else {
            None
        }
    } else {
        None
    }
}

/// What is known of an image with the given image header and regions that can be opened on top of
/// a file with the identifier `parent`.
pub open spec fn image_with(
    content: Content,
    header: VhdxImageHeader,
    regions: VhdxRegions,
    parent: Option<Uuid>,
) -> Result<VhdxImage, DriverError> {
    match (regions.metadata, regions.block_allocation_table) {
        (Some(metadata), Some(table_region)) => match metadata_table(content, metadata) {
            Err(error) => Err(error),
            Ok(table) => match disk_values(content, metadata, table) {
                Err(error) => Err(error),
                Ok(disk) => match parent_values(content, metadata, table) {
                    Err(error) => Err(error),
                    Ok(parent_values) => match parent_failure(
                        disk.disk_type,
                        parent_values.identifier,
                        parent,
                    ) {
                        Some(error) => Err(error),
                        None => match blocks_failure(content, disk, table_region) {
                            Some(error) => Err(error),
                            None => Ok(
                                VhdxImage {
                                    format_version: header.format_version,
                                    identifier: header.data_write_identifier,
                                    disk,
                                    parent: parent_values,
                                },
                            ),
                        },
                    },
                },
            },
        },
        _ => Err(DriverError::Missing),
    }
}

/// What is known of an image that can be opened on top of a file with the identifier `parent`.
pub open spec fn image_of(content: Content, parent: Option<Uuid>) -> Result<
    VhdxImage,
    DriverError,
> {
    match content.exact(0, 0x1_0000) {
        Err(error) => Err(error),
        Ok(data) => if u64_be(data, 0) != 0x7668_6478_6669_6c65 {
            Err(DriverError::Unsupported)
        } else {
            match active_image_header(content) {
                Err(error) => Err(error),
                Ok(header) => match region_table(content) {
                    Err(error) => Err(error),
                    Ok(regions) => image_with(content, header, regions, parent),
                },
            }
        },
    }
}

/// Whether an image header is one of the two in an image.
pub open spec fn is_image_header(content: Content, header: VhdxImageHeader) -> bool {
    ||| image_header_at(content, 0x1_0000) == Ok::<VhdxImageHeader, DriverError>(header)
    ||| image_header_at(content, 0x2_0000) == Ok::<VhdxImageHeader, DriverError>(header)
}

/// Whether regions are those of one of the two region tables in an image.
pub open spec fn are_regions(content: Content, regions: VhdxRegions) -> bool {
    ||| region_table_at(content, 0x3_0000) == Ok::<VhdxRegions, DriverError>(regions)
    ||| region_table_at(content, 0x4_0000) == Ok::<VhdxRegions, DriverError>(regions)
}

/// Whether `logical` gives access to the medium of an image with the given block allocation table.
pub open spec fn is_image_medium(
    logical: DataSourceReference,
    source: DataSourceReference,
    parent: Option<DataSourceReference>,
    disk: VhdxDiskValues,
    region: VhdxRegionTableEntry,
) -> bool {
    let used_parent = if disk.disk_type is Differential {
        parent
    } else {
        None
    };
    is_layered_medium(
        logical,
        source,
        used_parent,
        covered_size(source.content(), disk, region),
        media_location(source, used_parent, disk, region),
    )
}

/// Sets the checksum of a structure to zero and determines if it was right.
fn check_checksum(data: Vec<u8>) -> (valid: bool)
    requires
        data.len() >= 8,
    ensures
        valid == has_valid_checksum(data@),
{
    let mut data = data;
    let ghost before = data@;
    let stored_checksum: u32 = read_u32_le(data.as_slice(), 4);
    if stored_checksum == 0 {
        return true;
    }
    data.set(4, 0);
    data.set(5, 0);
    data.set(6, 0);
    data.set(7, 0);
    assert(data@ =~= without_checksum(before));
    stored_checksum == reversed_crc32(0x82f63b78, 0, data.as_slice())
}

fn read_image_header(source: &DataSourceReference, offset: u64) -> (result: Result<
    VhdxImageHeader,
    DriverError,
>)
    ensures
        match result {
            Ok(header) => image_header_at(source.content(), offset as int) == Ok::<
                VhdxImageHeader,
                DriverError,
            >(header),
            Err(error) => source.reliable() ==> image_header_at(source.content(), offset as int)
                == Err::<VhdxImageHeader, DriverError>(error),
        },
{
    let data: Vec<u8> = read_bytes(source, offset, 4096)?;
    if read_u32_be(data.as_slice(), 0) != 0x6865_6164 {
        return Err(DriverError::Unsupported);
    }
    let header = VhdxImageHeader {
        sequence_number: read_u64_le(data.as_slice(), 8),
        data_write_identifier: Uuid::from_le_bytes(data.as_slice(), 32),
        format_version: read_u16_le(data.as_slice(), 66),
    };
    if !check_checksum(data) {
        return Err(DriverError::ChecksumMismatch);
    }
    Ok(header)
}

fn read_active_image_header(source: &DataSourceReference) -> (result: Result<
    VhdxImageHeader,
    DriverError,
>)
    ensures
        match result {
            Ok(header) => {
                &&& is_image_header(source.content(), header)
                &&& source.reliable() ==> active_image_header(source.content()) == Ok::<
                    VhdxImageHeader,
                    DriverError,
                >(header)
            },
            Err(error) => source.reliable() ==> active_image_header(source.content()) == Err::<
                VhdxImageHeader,
                DriverError,
            >(error),
        },
{
    let primary = read_image_header(source, 0x1_0000);
    let secondary = read_image_header(source, 0x2_0000);

    match (primary, secondary) {
        (Ok(primary), Ok(secondary)) => if primary.sequence_number > secondary.sequence_number {
            Ok(primary)
        } else {
            Ok(secondary)
        },
        (Ok(primary), Err(_)) => Ok(primary),
        (Err(_), Ok(secondary)) => Ok(secondary),
        (Err(error), Err(_)) => Err(error),
    }
}

/// Finds the last of `count` entries of 32 bytes after `start` that has an identifier.
fn find_entry(data: &[u8], start: usize, count: usize, identifier: Uuid) -> (found: Option<usize>)
    requires
        start + 32 * count <= data.len(),
    ensures
        match found {
            Some(offset) => {
                &&& last_entry(data@, start as int, count as int, identifier) == Some(offset as int)
                &&& offset + 32 <= data.len()
            },
            None => last_entry(data@, start as int, count as int, identifier) is None,
        },
{
    let mut remaining: usize = count;
    while remaining > 0
        invariant
            remaining <= count,
            start + 32 * count <= data.len(),
            last_entry(data@, start as int, count as int, identifier) == last_entry(
                data@,
                start as int,
                remaining as int,
                identifier,
            ),
        decreases remaining,
    {
        let offset: usize = start + 32 * (remaining - 1);
        if Uuid::from_le_bytes(data, offset) == identifier {
            return Some(offset);
        }
        remaining = remaining - 1;
    }
    None
}

fn find_region(data: &[u8], count: usize, identifier: Uuid) -> (region: Option<
    VhdxRegionTableEntry,
>)
    requires
        16 + 32 * count <= data.len(),
    ensures
        region == region_in(data@, count as int, identifier),
{
    match find_entry(data, 16, count, identifier) {
        Some(offset) => Some(
            VhdxRegionTableEntry {
                data_offset: read_u64_le(data, offset + 16),
                data_size: read_u32_le(data, offset + 24),
            },
        ),
        None => None,
    }
}

fn read_region_table_at(source: &DataSourceReference, offset: u64) -> (result: Result<
    VhdxRegions,
    DriverError,
>)
    ensures
        match result {
            Ok(regions) => region_table_at(source.content(), offset as int) == Ok::<
                VhdxRegions,
                DriverError,
            >(regions),
            Err(error) => source.reliable() ==> region_table_at(source.content(), offset as int)
                == Err::<VhdxRegions, DriverError>(error),
        },
{
    let data: Vec<u8> = read_bytes(source, offset, 0x1_0000)?;
    if read_u32_be(data.as_slice(), 0) != 0x7265_6769 {
        return Err(DriverError::Unsupported);
    }
    let number_of_entries: u32 = read_u32_le(data.as_slice(), 8);
    if number_of_entries > 2047 {
        return Err(DriverError::Invalid);
    }
    let count: usize = number_of_entries as usize;
    let regions = VhdxRegions {
        metadata: find_region(
            data.as_slice(),
            count,
            Uuid {
                part1: 0x8b7ca206,
                part2: 0x4790,
                part3: 0x4b9a,
                part4: 0xb8fe,
                part5: 0x575f050f886e,
            },
        ),
        block_allocation_table: find_region(
            data.as_slice(),
            count,
            Uuid {
                part1: 0x2dc27766,
                part2: 0xf623,
                part3: 0x4200,
                part4: 0x9d64,
                part5: 0x115e9bfd4a08,
            },
        ),
    };
    if !check_checksum(data) {
        return Err(DriverError::ChecksumMismatch);
    }
    Ok(regions)
}

fn read_region_table(source: &DataSourceReference) -> (result: Result<VhdxRegions, DriverError>)
    ensures
        match result {
            Ok(regions) => {
                &&& are_regions(source.content(), regions)
                &&& source.reliable() ==> region_table(source.content()) == Ok::<
                    VhdxRegions,
                    DriverError,
                >(regions)
            },
            Err(error) => source.reliable() ==> region_table(source.content()) == Err::<
                VhdxRegions,
                DriverError,
            >(error),
        },
{
    match read_region_table_at(source, 0x3_0000) {
        Ok(regions) => Ok(regions),
        Err(_) => read_region_table_at(source, 0x4_0000),
    }
}

fn read_metadata_table(source: &DataSourceReference, region: &VhdxRegionTableEntry) -> (result:
    Result<Vec<u8>, DriverError>)
    ensures
        match result {
            Ok(table) => {
                &&& metadata_table(source.content(), *region) == Ok::<Seq<u8>, DriverError>(table@)
                &&& table@.len() == 0x1_0000
                &&& u16_le(table@, 10) <= 2047
            },
            Err(error) => source.reliable() ==> metadata_table(source.content(), *region) == Err::<
                Seq<u8>,
                DriverError,
            >(error),
        },
{
    if region.data_size < 0x1_0000 {
        return Err(DriverError::Unsupported);
    }
    let table: Vec<u8> = read_bytes(source, region.data_offset, 0x1_0000)?;
    if read_u64_be(table.as_slice(), 0) != 0x6d65_7461_6461_7461 {
        return Err(DriverError::Unsupported);
    }
    let count: u16 = read_u16_le(table.as_slice(), 10);
    if count > 2047 {
        return Err(DriverError::Invalid);
    }
    let mut index: u16 = 0;
    while index < count
        invariant
            index <= count <= 2047,
            count == u16_le(table@, 10),
            table@.len() == 0x1_0000,
            region.data_size >= 0x1_0000,
            source.content().exact(region.data_offset as int, 0x1_0000) == Ok::<
                Seq<u8>,
                DriverError,
            >(table@),
            u64_be(table@, 0) == 0x6d65_7461_6461_7461,
            forall|i: int|
                0 <= i < index ==> #[trigger] u32_le(table@, 32 + 32 * i + 16) >= 0x1_0000,
        decreases count - index,
    {
        let item_offset: u32 = read_u32_le(table.as_slice(), 32 + 32 * index as usize + 16);
        if item_offset < 0x1_0000 {
            assert(!has_valid_items(table@));
            return Err(DriverError::Invalid);
        }
        index += 1;
    }
    Ok(table)
}

fn find_item(table: &[u8], identifier: Uuid) -> (item: Option<VhdxMetadataTableEntry>)
    requires
        table@.len() == 0x1_0000,
        u16_le(table@, 10) <= 2047,
    ensures
        item == metadata_item(table@, identifier),
{
    let count: usize = read_u16_le(table, 10) as usize;
    match find_entry(table, 32, count, identifier) {
        Some(offset) => Some(
            VhdxMetadataTableEntry {
                item_offset: read_u32_le(table, offset + 16),
                item_size: read_u32_le(table, offset + 20),
            },
        ),
        None => None,
    }
}

fn read_item_value(
    source: &DataSourceReference,
    region: &VhdxRegionTableEntry,
    item: Option<VhdxMetadataTableEntry>,
    size: u32,
) -> (result: Result<Vec<u8>, DriverError>)
    ensures
        match result {
            Ok(value) => {
                &&& item_value(source.content(), *region, item, size) == Ok::<Seq<u8>, DriverError>(
                    value@,
                )
                &&& value@.len() == size
            },
            Err(error) => source.reliable() ==> item_value(source.content(), *region, item, size)
                == Err::<Seq<u8>, DriverError>(error),
        },
{
    let item = item.ok_or(DriverError::Missing)?;
    if item.item_size != size {
        return Err(DriverError::Unsupported);
    }
    let offset: u64 = region.data_offset.checked_add(item.item_offset as u64).ok_or(
        DriverError::Overflow,
    )?;
    read_bytes(source, offset, size as usize)
}

fn read_sector_size(
    source: &DataSourceReference,
    region: &VhdxRegionTableEntry,
    item: Option<VhdxMetadataTableEntry>,
) -> (result: Result<u32, DriverError>)
    ensures
        match result {
            Ok(size) => {
                &&& sector_size(item_value(source.content(), *region, item, 4)) == Ok::<
                    u32,
                    DriverError,
                >(size)
                &&& size == 512 || size == 4096
            },
            Err(error) => source.reliable() ==> sector_size(
                item_value(source.content(), *region, item, 4),
            ) == Err::<u32, DriverError>(error),
        },
{
    let value: Vec<u8> = read_item_value(source, region, item, 4)?;
    let size: u32 = read_u32_le(value.as_slice(), 0);
    if size != 512 && size != 4096 {
        return Err(DriverError::Invalid);
    }
    Ok(size)
}

fn read_disk_layout(value: &[u8]) -> (result: Result<(u32, VhdDiskType), DriverError>)
    requires
        value@.len() == 8,
    ensures
        result == disk_layout(value@),
{
    let block_size: u32 = read_u32_le(value, 0);
    let flags: u32 = read_u32_le(value, 4) % 4;
    if block_size < 0x10_0000 || block_size > 0x1000_0000 {
        Err(DriverError::Invalid)
    } else if flags == 0 {
        Ok((block_size, VhdDiskType::Fixed))
    } else if flags == 1 {
        Ok((block_size, VhdDiskType::Dynamic))
    } else if flags == 2 {
        Ok((block_size, VhdDiskType::Differential))
    } else {
        Err(DriverError::Unsupported)
    }
}

/// Checks the items that are not used otherwise.
fn check_unused_items(
    source: &DataSourceReference,
    region: &VhdxRegionTableEntry,
    table: &[u8],
) -> (result: Result<(), DriverError>)
    requires
        table@.len() == 0x1_0000,
        u16_le(table@, 10) <= 2047,
    ensures
        match result {
            Ok(()) => unused_items_failure(source.content(), *region, table@) is None,
            Err(error) => source.reliable() ==> unused_items_failure(
                source.content(),
                *region,
                table@,
            ) == Some(error),
        },
{
    let physical = find_item(
        table,
        Uuid {
            part1: 0xcda348c7,
            part2: 0x445d,
            part3: 0x4471,
            part4: 0x9cc9,
            part5: 0xe9885251c556,
        },
    );
    if physical.is_some() {
        let _size: u32 = read_sector_size(source, region, physical)?;
    }
    let identifier = find_item(
        table,
        Uuid {
            part1: 0xbeca12ab,
            part2: 0xb2e6,
            part3: 0x4523,
            part4: 0x93ef,
            part5: 0xc309e000c746,
        },
    );
    let identifier = identifier.ok_or(DriverError::Missing)?;
    if identifier.item_size != 16 {
        return Err(DriverError::Unsupported);
    }
    Ok(())
}

fn read_disk_values(
    source: &DataSourceReference,
    region: &VhdxRegionTableEntry,
    table: &[u8],
) -> (result: Result<VhdxDiskValues, DriverError>)
    requires
        table@.len() == 0x1_0000,
        u16_le(table@, 10) <= 2047,
    ensures
        match result {
            Ok(disk) => {
                &&& disk_values(source.content(), *region, table@) == Ok::<
                    VhdxDiskValues,
                    DriverError,
                >(disk)
                &&& 0x10_0000 <= disk.block_size <= 0x1000_0000
                &&& disk.bytes_per_sector == 512 || disk.bytes_per_sector == 4096
            },
            Err(error) => source.reliable() ==> disk_values(source.content(), *region, table@)
                == Err::<VhdxDiskValues, DriverError>(error),
        },
{
    let parameters_item = find_item(
        table,
        Uuid {
            part1: 0xcaa16737,
            part2: 0xfa36,
            part3: 0x4d43,
            part4: 0xb3b6,
            part5: 0x33f0aa44e76b,
        },
    );
    let parameters: Vec<u8> = read_item_value(source, region, parameters_item, 8)?;
    let (block_size, disk_type) = read_disk_layout(parameters.as_slice())?;
    let media_size_item = find_item(
        table,
        Uuid {
            part1: 0x2fa54224,
            part2: 0xcd1b,
            part3: 0x4876,
            part4: 0xb211,
            part5: 0x5dbed83bf4b8,
        },
    );
    let media_size: Vec<u8> = read_item_value(source, region, media_size_item, 8)?;
    let sector_size_item = find_item(
        table,
        Uuid {
            part1: 0x8141bf1d,
            part2: 0xa96f,
            part3: 0x4709,
            part4: 0xba47,
            part5: 0xf233a8faab5f,
        },
    );
    let bytes_per_sector: u32 = read_sector_size(source, region, sector_size_item)?;
    check_unused_items(source, region, table)?;
    Ok(
        VhdxDiskValues {
            disk_type,
            block_size,
            bytes_per_sector: bytes_per_sector as u16,
            media_size: read_u64_le(media_size.as_slice(), 0),
        },
    )
}

fn read_locator_text(data: &[u8], offset: u32, size: u16) -> (result: Result<String, DriverError>)
    ensures
        match result {
            Ok(text) => locator_text(data@, offset as int, size as int) == Ok::<
                Seq<char>,
                DriverError,
            >(text@),
            Err(error) => locator_text(data@, offset as int, size as int) == Err::<
                Seq<char>,
                DriverError,
            >(error),
        },
{
    let offset: usize = offset as usize;
    let size: usize = size as usize;
    let length: usize = data.len();
    if offset < 20 || offset >= length || size > length - offset || size % 2 != 0 {
        return Err(DriverError::Invalid);
    }
    let units: Vec<u16> = read_units_le(
        vstd::slice::slice_subrange(data, offset, offset + size),
        false,
    );
    match decode_utf16(units.as_slice()) {
        Some(text) => Ok(text),
        None => Err(DriverError::Encoding),
    }
}

fn read_parent_locator(data: &[u8]) -> (result: Result<
    (Option<Uuid>, Option<String>),
    DriverError,
>)
    requires
        20 <= data.len() <= 0x1_0000,
    ensures
        match result {
            Ok((identifier, name)) => parent_locator(data@) == Ok::<VhdxParentValues, DriverError>(
                VhdxParentValues { identifier, name: text_view(name) },
            ),
            Err(error) => parent_locator(data@) == Err::<VhdxParentValues, DriverError>(error),
        },
{
    if read_u64_be(data, 0) != 0xb7ef_4ab0_9ed1_814a || read_u64_be(data, 8)
        != 0xb789_25b8_e944_5913 {
        return Err(DriverError::Unsupported);
    }
    let count: usize = read_u16_le(data, 18) as usize;
    let length: usize = data.len();
    let ghost failure = locator_failure(data@);
    let linkage_key: String = "parent_linkage".to_owned();
    let absolute_key: String = "absolute_win32_path".to_owned();
    let volume_key: String = "volume_path".to_owned();
    let relative_key: String = "relative_path".to_owned();
    let mut linkage: Option<String> = None;
    let mut absolute: Option<String> = None;
    let mut volume: Option<String> = None;
    let mut relative: Option<String> = None;
    let mut index: usize = 0;

    while index < count
        invariant
            index <= count <= 0xffff,
            length == data@.len(),
            20 <= length <= 0x1_0000,
            failure == locator_failure(data@),
            first_failure(index as nat, failure) is None,
            count == u16_le(data@, 18),
            u64_be(data@, 0) == 0xb7ef_4ab0_9ed1_814a,
            u64_be(data@, 8) == 0xb789_25b8_e944_5913,
            linkage_key@ == "parent_linkage"@,
            absolute_key@ == "absolute_win32_path"@,
            volume_key@ == "volume_path"@,
            relative_key@ == "relative_path"@,
            text_view(linkage) == locator_lookup(data@, index as int, "parent_linkage"@),
            text_view(absolute) == locator_lookup(data@, index as int, "absolute_win32_path"@),
            text_view(volume) == locator_lookup(data@, index as int, "volume_path"@),
            text_view(relative) == locator_lookup(data@, index as int, "relative_path"@),
        decreases count - index,
    {
        proof {
            if failure(index as int) is Some {
                lemma_first_failure_at(count as nat, failure, index as nat);
            }
        }
        let offset: usize = 20 + 12 * index;
        if offset + 12 > length {
            return Err(DriverError::Invalid);
        }
        let key: String = read_locator_text(
            data,
            read_u32_le(data, offset),
            read_u16_le(data, offset + 8),
        )?;
        let value: String = read_locator_text(
            data,
            read_u32_le(data, offset + 4),
            read_u16_le(data, offset + 10),
        )?;
        if key == linkage_key {
            linkage = Some(value.clone());
        }
        if key == absolute_key {
            absolute = Some(value.clone());
        }
        if key == volume_key {
            volume = Some(value.clone());
        }
        if key == relative_key {
            relative = Some(value.clone());
        }
        index += 1;
    }
    let name: Option<String> = if absolute.is_some() {
        absolute
    } else if volume.is_some() {
        volume
    } else {
        relative
    };
    let identifier: Option<Uuid> = match linkage {
        Some(linkage) => Some(Uuid::from_string(linkage.as_str())?),
        None => None,
    };
    Ok((identifier, name))
}

fn read_parent_values(
    source: &DataSourceReference,
    region: &VhdxRegionTableEntry,
    table: &[u8],
) -> (result: Result<(Option<Uuid>, Option<String>), DriverError>)
    requires
        table@.len() == 0x1_0000,
        u16_le(table@, 10) <= 2047,
    ensures
        match result {
            Ok((identifier, name)) => parent_values(source.content(), *region, table@) == Ok::<
                VhdxParentValues,
                DriverError,
            >(VhdxParentValues { identifier, name: text_view(name) }),
            Err(error) => source.reliable() ==> parent_values(source.content(), *region, table@)
                == Err::<VhdxParentValues, DriverError>(error),
        },
{
    let item = find_item(
        table,
        Uuid {
            part1: 0xa8d35f2d,
            part2: 0xb30b,
            part3: 0x454d,
            part4: 0xabf7,
            part5: 0xd3d84834ab0c,
        },
    );
    match item {
        None => Ok((None, None)),
        Some(item) => {
            let offset: u64 = region.data_offset.checked_add(item.item_offset as u64).ok_or(
                DriverError::Overflow,
            )?;
            if item.item_size < 20 || item.item_size > 0x1_0000 {
                return Err(DriverError::Unsupported);
            }
            let data: Vec<u8> = read_bytes(source, offset, item.item_size as usize)?;
            read_parent_locator(data.as_slice())
        },
    }
}

/// Reads the entry of the block allocation table at an index.
fn read_bat_entry(source: &DataSourceReference, region: &VhdxRegionTableEntry, index: u64) -> (
    result: Result<u64, DriverError>)
    ensures
        match result {
            Ok(entry) => bat_entry(source.content(), *region, index as int) == Ok::<
                u64,
                DriverError,
            >(entry),
            Err(error) => source.reliable() ==> bat_entry(source.content(), *region, index as int)
                == Err::<u64, DriverError>(error),
        },
{
    if index >= (region.data_size / 8) as u64 {
        return Err(DriverError::OutOfBounds);
    }
    let offset: u64 = region.data_offset.checked_add(index * 8).ok_or(DriverError::Overflow)?;
    let data: Vec<u8> = read_bytes(source, offset, 8)?;
    Ok(read_u64_le(data.as_slice(), 0))
}

/// The bounds of the values that follow from the block size and the sector size.
proof fn lemma_chunk_bounds(disk: VhdxDiskValues)
    requires
        0x10_0000 <= disk.block_size <= 0x1000_0000,
        disk.bytes_per_sector == 512 || disk.bytes_per_sector == 4096,
    ensures
        16 <= entries_per_chunk(disk) <= 0x8000,
        32 <= bitmap_size(disk) <= 0x1_0000,
        entries_per_chunk(disk) * bitmap_size(disk) <= 0x10_0000,
        0 < bitmap_coverage(disk) <= 0x8000_0000,
{
    let numerator = 0x80_0000 * disk.bytes_per_sector;
    let block_size = disk.block_size as int;
    let chunk = entries_per_chunk(disk);
    let size = bitmap_size(disk);
    assert(16 <= chunk <= 0x8000) by (nonlinear_arith)
        requires
            chunk == numerator / block_size,
            0x1_0000_0000 <= numerator <= 0x8_0000_0000,
            0x10_0000 <= block_size <= 0x1000_0000,
    ;
    assert(32 <= size <= 0x1_0000 && chunk * size <= 0x10_0000) by (nonlinear_arith)
        requires
            size == 0x10_0000int / chunk,
            16 <= chunk <= 0x8000,
    ;
    assert(0 < size * 8 * disk.bytes_per_sector <= 0x8000_0000) by (nonlinear_arith)
        requires
            32 <= size <= 0x1_0000,
            0 < disk.bytes_per_sector <= 4096,
    ;
}

/// A block together with the sector bitmap that was read for it.
struct LocatedBlock {
    block: VhdxBlock,
    bitmap: Vec<u8>,
}

/// Locates a block of a differential disk that is not stored as a whole.
fn locate_sectors(
    source: &DataSourceReference,
    disk: &VhdxDiskValues,
    region: &VhdxRegionTableEntry,
    chunk_length: u64,
    entry: u64,
    index: u64,
) -> (result: Result<LocatedBlock, DriverError>)
    requires
        0x10_0000 <= disk.block_size <= 0x1000_0000,
        disk.bytes_per_sector == 512 || disk.bytes_per_sector == 4096,
        chunk_length == entries_per_chunk(*disk),
        index <= 0x2000_0000,
    ensures
        match result {
            Ok(located) => {
                &&& sectors_of(source.content(), *disk, *region, entry, index as int) == Ok::<
                    VhdxBlock,
                    DriverError,
                >(located.block)
                &&& located.block matches VhdxBlock::Sectors { offset, bitmap_offset } && {
                    &&& located.bitmap@ == source.content().window(
                        bitmap_offset as int,
                        bitmap_size(*disk) as nat,
                    )
                    &&& offset + bitmap_coverage(*disk) <= u64::MAX
                }
            },
            Err(error) => source.reliable() ==> sectors_of(
                source.content(),
                *disk,
                *region,
                entry,
                index as int,
            ) == Err::<VhdxBlock, DriverError>(error),
        },
{
    proof {
        lemma_chunk_bounds(*disk);
    }
    let sector_bitmap_size: u64 = 0x10_0000 / chunk_length;
    let coverage: u64 = sector_bitmap_size * 8 * disk.bytes_per_sector as u64;
    let chunk: u64 = index / chunk_length;
    let position: u64 = index % chunk_length;
    proof {
        assert(0 <= chunk <= index) by (nonlinear_arith)
            requires
                chunk == index / chunk_length,
                16 <= chunk_length,
        ;
        assert(1 <= (1 + chunk) * (chunk_length + 1) <= 0x1_0000_0000_0000) by (nonlinear_arith)
            requires
                0 <= chunk <= 0x2000_0000,
                16 <= chunk_length <= 0x8000,
        ;
        assert(position * sector_bitmap_size <= 0x10_0000 - sector_bitmap_size)
            by (nonlinear_arith)
            requires
                position <= chunk_length - 1,
                chunk_length * sector_bitmap_size <= 0x10_0000,
                0 <= sector_bitmap_size,
        ;
    }
    let bitmap_entry: u64 = read_bat_entry(source, region, (1 + chunk) * (chunk_length + 1) - 1)?;
    if bitmap_entry % 8 < 6 {
        return Err(DriverError::Invalid);
    }
    let bitmap_offset: u64 = bitmap_entry - bitmap_entry % 0x10_0000 + position
        * sector_bitmap_size;
    let bitmap: Vec<u8> = read_bytes(source, bitmap_offset, sector_bitmap_size as usize)?;
    let offset: u64 = entry - entry % 0x10_0000;
    if offset > u64::MAX - coverage {
        return Err(DriverError::Overflow);
    }
    Ok(LocatedBlock { block: VhdxBlock::Sectors { offset, bitmap_offset }, bitmap })
}

/// Locates a block.
fn locate_block(
    source: &DataSourceReference,
    disk: &VhdxDiskValues,
    region: &VhdxRegionTableEntry,
    chunk_length: u64,
    index: u64,
) -> (result: Result<LocatedBlock, DriverError>)
    requires
        0x10_0000 <= disk.block_size <= 0x1000_0000,
        disk.bytes_per_sector == 512 || disk.bytes_per_sector == 4096,
        chunk_length == entries_per_chunk(*disk),
        index <= 0x2000_0000,
    ensures
        match result {
            Ok(located) => {
                &&& block_at(source.content(), *disk, *region, index as int) == Ok::<
                    VhdxBlock,
                    DriverError,
                >(located.block)
                &&& located.block matches VhdxBlock::Sectors { offset, bitmap_offset } ==> {
                    &&& located.bitmap@ == source.content().window(
                        bitmap_offset as int,
                        bitmap_size(*disk) as nat,
                    )
                    &&& offset + bitmap_coverage(*disk) <= u64::MAX
                }
            },
            Err(error) => source.reliable() ==> block_at(
                source.content(),
                *disk,
                *region,
                index as int,
            ) == Err::<VhdxBlock, DriverError>(error),
        },
{
    proof {
        lemma_chunk_bounds(*disk);
        let chunk = index as int / chunk_length as int;
        assert(0 <= chunk <= index) by (nonlinear_arith)
            requires
                chunk == index as int / chunk_length as int,
                16 <= chunk_length,
        ;
        assert(0 <= chunk * (chunk_length + 1) <= 0x1_0000_0000_0000) by (nonlinear_arith)
            requires
                0 <= chunk <= 0x2000_0000,
                16 <= chunk_length <= 0x8000,
        ;
    }
    let table_index: u64 = if disk.disk_type == VhdDiskType::Fixed {
        index
    } else {
        index / chunk_length * (chunk_length + 1) + index % chunk_length
    };
    let entry: u64 = read_bat_entry(source, region, table_index)?;
    let state: u64 = entry % 8;
    if disk.disk_type == VhdDiskType::Differential && state != 6 {
        return locate_sectors(source, disk, region, chunk_length, entry, index);
    }
    let block = if state < 6 {
        VhdxBlock::Absent
    } else {
        VhdxBlock::Stored { offset: entry - entry % 0x10_0000 }
    };
    Ok(LocatedBlock { block, bitmap: Vec::new() })
}

/// Appends the first `size` bytes of a block.
fn append_block(map: BlockMap, disk: &VhdxDiskValues, located: LocatedBlock, size: u64) -> (result:
    BlockMap)
    requires
        0x10_0000 <= disk.block_size <= 0x1000_0000,
        disk.bytes_per_sector == 512 || disk.bytes_per_sector == 4096,
        map.size() + size <= u64::MAX,
        located.block matches VhdxBlock::Sectors { offset, bitmap_offset } ==> {
            &&& located.bitmap@ == map.source().content().window(
                bitmap_offset as int,
                bitmap_size(*disk) as nat,
            )
            &&& offset + bitmap_coverage(*disk) <= u64::MAX
            &&& size <= bitmap_coverage(*disk)
        },
    ensures
        result.extends(map, size as int),
        forall|k: int|
            map.size() <= k < result.size() ==> #[trigger] result.location(k) == stored_location(
                map.source(),
                map.parent(),
                *disk,
                located.block,
                map.size() as int,
                k,
            ),
{
    proof {
        lemma_chunk_bounds(*disk);
    }
    match located.block {
        VhdxBlock::Absent => map.append_zero(size),
        VhdxBlock::Stored { offset } => map.append_data(offset, size),
        VhdxBlock::Sectors { offset, .. } => append_sectors(
            map,
            located.bitmap.as_slice(),
            disk.bytes_per_sector as u64,
            offset,
            size,
        ),
    }
}

/// Locates the blocks that cover the medium.
#[verifier::rlimit(50)]
fn build_blocks(
    source: &DataSourceReference,
    parent: &Option<DataSourceReference>,
    disk: &VhdxDiskValues,
    region: &VhdxRegionTableEntry,
) -> (result: Result<BlockMap, DriverError>)
    requires
        0x10_0000 <= disk.block_size <= 0x1000_0000,
        disk.bytes_per_sector == 512 || disk.bytes_per_sector == 4096,
    ensures
        match result {
            Ok(map) => {
                &&& blocks_failure(source.content(), *disk, *region) is None
                &&& map.source() == *source
                &&& map.parent() == *parent
                &&& map.size() == covered_size(source.content(), *disk, *region)
                &&& map.is_tiled()
                &&& forall|k: int|
                    0 <= k < map.size() ==> #[trigger] map.location(k) == media_location(
                        *source,
                        *parent,
                        *disk,
                        *region,
                    )(k)
            },
            Err(error) => source.reliable() ==> blocks_failure(source.content(), *disk, *region)
                == Some(error),
        },
{
    proof {
        lemma_chunk_bounds(*disk);
    }
    let media_size: u64 = disk.media_size;
    let block_size: u64 = disk.block_size as u64;
    let bytes_per_sector: u64 = disk.bytes_per_sector as u64;
    let chunk_length: u64 = 0x80_0000 * bytes_per_sector / block_size;
    let coverage: u64 = 0x10_0000 / chunk_length * 8 * bytes_per_sector;
    let entries: u64 = (region.data_size / 8) as u64;
    proof {
        assert(0 <= entries * block_size <= 0x2000_0000 * 0x1000_0000) by (nonlinear_arith)
            requires
                0 <= entries <= 0x2000_0000,
                0 <= block_size <= 0x1000_0000,
        ;
        assert((block_size - 1) / block_size as int == 0) by (nonlinear_arith)
            requires
                0 < block_size,
        ;
    }
    if media_size > entries * block_size {
        return Err(DriverError::OutOfBounds);
    }
    let ghost content = source.content();
    let ghost location = media_location(*source, *parent, *disk, *region);
    let ghost failure = block_failure(content, *disk, *region);
    let ghost count = number_of_blocks(media_size as int, block_size as int);
    let mut map = BlockMap::with_parent(source, parent);
    let mut usable: bool = true;
    let mut index: u64 = 0;
    let mut logical_offset: u64 = 0;

    while logical_offset < media_size
        invariant
            0x10_0000 <= disk.block_size <= 0x1000_0000,
            disk.bytes_per_sector == 512 || disk.bytes_per_sector == 4096,
            media_size == disk.media_size,
            block_size == disk.block_size,
            bytes_per_sector == disk.bytes_per_sector,
            chunk_length == entries_per_chunk(*disk),
            coverage == bitmap_coverage(*disk),
            0 < coverage,
            entries == region.data_size / 8,
            media_size <= entries * block_size,
            content == source.content(),
            location == media_location(*source, *parent, *disk, *region),
            failure == block_failure(content, *disk, *region),
            count == number_of_blocks(media_size as int, block_size as int),
            logical_offset <= media_size,
            logical_offset < media_size ==> logical_offset == index * block_size,
            index <= logical_offset,
            logical_offset == media_size ==> index == count,
            first_failure(index as nat, failure) is None,
            usable ==> forall|i: int|
                0 <= i < index ==> #[trigger] is_usable_block(content, *disk, *region, count, i),
            !usable ==> exists|i: int|
                0 <= i < count && !#[trigger] is_usable_block(content, *disk, *region, count, i),
            map.source() == *source,
            map.parent() == *parent,
            usable && logical_offset < media_size ==> map.size() == logical_offset,
            usable && logical_offset == media_size ==> map.size() == covered_size(
                content,
                *disk,
                *region,
            ),
            usable ==> forall|k: int|
                0 <= k < map.size() ==> #[trigger] map.location(k) == location(k),
        decreases media_size - logical_offset,
    {
        proof {
            lemma_number_of_blocks(media_size as int, block_size as int, index as int);
            assert(index < entries) by (nonlinear_arith)
                requires
                    index * block_size < media_size,
                    media_size <= entries * block_size,
            ;
        }
        let result = locate_block(source, disk, region, chunk_length, index);
        proof {
            if result is Err && source.reliable() {
                lemma_first_failure_at(count, failure, index as nat);
            }
        }
        let located = result?;
        let remaining_size: u64 = media_size - logical_offset;
        let logical_size: u64 = if block_size < remaining_size {
            block_size
        } else {
            remaining_size
        };
        let has_bitmap: bool = matches!(located.block, VhdxBlock::Sectors { .. });
        let covered: u64 = if has_bitmap && coverage < logical_size {
            coverage
        } else {
            logical_size
        };
        if has_bitmap && block_size < remaining_size && coverage < block_size {
            assert(!is_usable_block(content, *disk, *region, count, index as int));
            usable = false;
        }
        if usable {
            let ghost before = map;
            let ghost block = located.block;
            map = append_block(map, disk, located, covered);
            proof {
                assert forall|k: int| 0 <= k < map.size() implies #[trigger] map.location(k)
                    == location(k) by {
                    if k < logical_offset {
                        assert(map.location(k) == before.location(k));
                    } else {
                        lemma_block_index(k, index as int, block_size as int);
                    }
                }
                assert(is_usable_block(content, *disk, *region, count, index as int));
            }
        }
        logical_offset = logical_offset + logical_size;
        index = index + 1;
    }
    if !usable {
        return Err(DriverError::Invalid);
    }
    Ok(map.finish())
}

/// VHDX file metadata plus opened logical source.
pub struct VhdxFile {
    header: VhdxImageHeader,
    regions: VhdxRegions,
    disk: VhdxDiskValues,
    parent_identifier: Option<Uuid>,
    parent_name: Option<String>,
    logical_source: DataSourceReference,
}

/// The identifier of the parent file, if there is one.
pub open spec fn identifier_of(parent: Option<&VhdxFile>) -> Option<Uuid> {
    match parent {
        Some(file) => Some(file@.identifier),
        None => None,
    }
}

/// The medium of the parent file, if there is one.
pub open spec fn medium_of(parent: Option<&VhdxFile>) -> Option<DataSourceReference> {
    match parent {
        Some(file) => Some(file.logical_source()),
        None => None,
    }
}

/// Whether a file is what opening an image on top of a parent gives.
///
/// The image header and the region table that the file goes by are the ones that are valid in the
/// image, of which a source that does not fail gives the active ones.
pub open spec fn is_opened_file(
    file: VhdxFile,
    source: DataSourceReference,
    parent: Option<Uuid>,
    parent_source: Option<DataSourceReference>,
) -> bool {
    &&& is_image_header(source.content(), file.header())
    &&& are_regions(source.content(), file.regions())
    &&& file.regions().block_allocation_table is Some
    &&& image_with(source.content(), file.header(), file.regions(), parent) == Ok::<
        VhdxImage,
        DriverError,
    >(file@)
    &&& is_image_medium(
        file.logical_source(),
        source,
        parent_source,
        file@.disk,
        file.regions().block_allocation_table->0,
    )
    &&& source.reliable() ==> {
        &&& active_image_header(source.content()) == Ok::<VhdxImageHeader, DriverError>(
            file.header(),
        )
        &&& region_table(source.content()) == Ok::<VhdxRegions, DriverError>(file.regions())
        &&& image_of(source.content(), parent) == Ok::<VhdxImage, DriverError>(file@)
    }
}

impl VhdxFile {
    /// What is known of the image.
    pub closed spec fn view(&self) -> VhdxImage {
        VhdxImage {
            format_version: self.header.format_version,
            identifier: self.header.data_write_identifier,
            disk: self.disk,
            parent: VhdxParentValues {
                identifier: self.parent_identifier,
                name: text_view(self.parent_name),
            },
        }
    }

    /// The image header.
    pub closed spec fn header(&self) -> VhdxImageHeader {
        self.header
    }

    /// The regions.
    pub closed spec fn regions(&self) -> VhdxRegions {
        self.regions
    }

    /// The logical media source.
    pub closed spec fn logical_source(&self) -> DataSourceReference {
        self.logical_source
    }

    /// Opens and parses a VHDX file.
    pub fn open(source: DataSourceReference) -> (result: Result<Self, DriverError>)
        ensures
            match result {
                Ok(file) => is_opened_file(file, source, None, None),
                Err(error) => source.reliable() ==> image_of(source.content(), None) == Err::<
                    VhdxImage,
                    DriverError,
                >(error),
            },
    {
        Self::open_internal(source, None)
    }

    /// Opens and parses a differential VHDX file with an explicit parent file.
    pub fn open_with_parent(source: DataSourceReference, parent_file: &VhdxFile) -> (result: Result<
        Self,
        DriverError,
    >)
        ensures
            match result {
                Ok(file) => is_opened_file(
                    file,
                    source,
                    Some(parent_file@.identifier),
                    Some(parent_file.logical_source()),
                ),
                Err(error) => source.reliable() ==> image_of(
                    source.content(),
                    Some(parent_file@.identifier),
                ) == Err::<VhdxImage, DriverError>(error),
            },
    {
        Self::open_internal(source, Some(parent_file))
    }

    fn open_internal(source: DataSourceReference, parent_file: Option<&VhdxFile>) -> (result:
        Result<Self, DriverError>)
        ensures
            match result {
                Ok(file) => is_opened_file(
                    file,
                    source,
                    identifier_of(parent_file),
                    medium_of(parent_file),
                ),
                Err(error) => source.reliable() ==> image_of(
                    source.content(),
                    identifier_of(parent_file),
                ) == Err::<VhdxImage, DriverError>(error),
            },
    {
        let file_header: Vec<u8> = read_bytes(&source, 0, 0x1_0000)?;
        if read_u64_be(file_header.as_slice(), 0) != 0x7668_6478_6669_6c65 {
            return Err(DriverError::Unsupported);
        }
        let header = read_active_image_header(&source)?;
        let regions = read_region_table(&source)?;
        Self::open_with_regions(source, header, regions, parent_file)
    }

    fn open_with_regions(
        source: DataSourceReference,
        header: VhdxImageHeader,
        regions: VhdxRegions,
        parent_file: Option<&VhdxFile>,
    ) -> (result: Result<Self, DriverError>)
        ensures
            match result {
                Ok(file) => {
                    &&& file.header() == header
                    &&& file.regions() == regions
                    &&& regions.block_allocation_table is Some
                    &&& image_with(
                        source.content(),
                        header,
                        regions,
                        identifier_of(parent_file),
                    ) == Ok::<VhdxImage, DriverError>(file@)
                    &&& is_image_medium(
                        file.logical_source(),
                        source,
                        medium_of(parent_file),
                        file@.disk,
                        regions.block_allocation_table->0,
                    )
                },
                Err(error) => source.reliable() ==> image_with(
                    source.content(),
                    header,
                    regions,
                    identifier_of(parent_file),
                ) == Err::<VhdxImage, DriverError>(error),
            },
    {
        let metadata = regions.metadata.ok_or(DriverError::Missing)?;
        let table_region = regions.block_allocation_table.ok_or(DriverError::Missing)?;
        let table: Vec<u8> = read_metadata_table(&source, &metadata)?;
        let disk = read_disk_values(&source, &metadata, table.as_slice())?;
        let (parent_identifier, parent_name) = read_parent_values(
            &source,
            &metadata,
            table.as_slice(),
        )?;
        let parent_source: Option<DataSourceReference> = if disk.disk_type
            == VhdDiskType::Differential {
            let parent_file: &VhdxFile = parent_file.ok_or(DriverError::Missing)?;
            let identifier: Uuid = parent_identifier.ok_or(DriverError::Missing)?;
            if *parent_file.identifier() != identifier {
                return Err(DriverError::Invalid);
            }
            Some(parent_file.open_source())
        } else {
            None
        };
        let map = build_blocks(&source, &parent_source, &disk, &table_region)?;
        let logical_source = map.into_source(
            Ghost(media_location(source, parent_source, disk, table_region)),
        );
        Ok(
            VhdxFile {
                header,
                regions,
                disk,
                parent_identifier,
                parent_name,
                logical_source,
            },
        )
    }

    /// Retrieves the format version.
    pub fn format_version(&self) -> (format_version: u16)
        ensures
            format_version == self@.format_version,
    {
        self.header.format_version
    }

    /// Retrieves the disk type.
    pub fn disk_type(&self) -> (disk_type: VhdDiskType)
        ensures
            disk_type == self@.disk.disk_type,
    {
        self.disk.disk_type
    }

    /// Retrieves the identifier.
    pub fn identifier(&self) -> (identifier: &Uuid)
        ensures
            *identifier == self@.identifier,
    {
        &self.header.data_write_identifier
    }

    /// Retrieves the parent identifier if present.
    pub fn parent_identifier(&self) -> (parent_identifier: Option<&Uuid>)
        ensures
            match parent_identifier {
                Some(identifier) => self@.parent.identifier == Some(*identifier),
                None => self@.parent.identifier is None,
            },
    {
        match &self.parent_identifier {
            Some(identifier) => Some(identifier),
            None => None,
        }
    }

    /// Retrieves the parent file name if present.
    pub fn parent_name(&self) -> (parent_name: Option<&str>)
        ensures
            match parent_name {
                Some(name) => self@.parent.name == Some(name@),
                None => self@.parent.name is None,
            },
    {
        match &self.parent_name {
            Some(name) => Some(name.as_str()),
            None => None,
        }
    }

    /// Retrieves the bytes-per-sector value.
    pub fn bytes_per_sector(&self) -> (bytes_per_sector: u16)
        ensures
            bytes_per_sector == self@.disk.bytes_per_sector,
    {
        self.disk.bytes_per_sector
    }

    /// Retrieves the block size in bytes.
    pub fn block_size(&self) -> (block_size: u32)
        ensures
            block_size == self@.disk.block_size,
    {
        self.disk.block_size
    }

    /// Retrieves the media size in bytes.
    pub fn media_size(&self) -> (media_size: u64)
        ensures
            media_size == self@.disk.media_size,
    {
        self.disk.media_size
    }

    /// Opens the logical media source.
    pub fn open_source(&self) -> (source: DataSourceReference)
        ensures
            source == self.logical_source(),
    {
        self.logical_source.clone()
    }
}

} // verus!
