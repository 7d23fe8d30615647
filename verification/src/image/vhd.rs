//! Virtual Hard Disk (VHD) images.

use vstd::prelude::*;

use super::block_map::{absent_location, is_layered_medium, lemma_block_index, BlockMap};
use super::block_table::{lemma_block_count, lemma_number_of_blocks, number_of_blocks};
use super::sector_bitmap::{append_sectors, bit_of, sector_location, test_bit};
use crate::bytes::{holds_be, lemma_holds_be, read_u32_be, read_u64_be, u32_be, u64_be};
use crate::checks::{first_failure, lemma_first_failure_at};
use crate::error::DriverError;
use crate::source::data_source::{read_bytes, Content, DataSource, DataSourceReference};
use crate::source::extent_map::{media_content, MediaLocation};
use crate::source::slice::{open_slice, slice_content};
use crate::text::{
    before_zero, decode_utf16, encode_utf16, holds_units_be, lemma_before_zero, lemma_utf16_text,
    read_units_be, units_be, utf16_text,
};
use crate::uuid::{holds_uuid_be, lemma_uuid_stored, nil_uuid, uuid_be, Uuid};

verus! {

/// VHD disk type.
#[derive(Clone, Copy, Debug, PartialEq, Eq, PartialOrd, Ord, Hash, Structural)]
pub enum VhdDiskType {
    Differential,
    Dynamic,
    Fixed,
}

/// VHD file footer.
pub struct VhdFileFooter {
    pub next_offset: u64,
    pub data_size: u64,
    pub disk_type: u32,
    pub identifier: Uuid,
}

/// VHD dynamic disk header.
pub struct VhdDynamicDiskHeader {
    pub block_table_offset: u64,
    pub number_of_blocks: u32,
    pub block_size: u32,
    pub parent_identifier: Uuid,
}

/// What is known of an opened image.
pub struct VhdImage {
    pub disk_type: VhdDiskType,
    pub identifier: Uuid,
    pub parent_identifier: Option<Uuid>,
    pub parent_name: Option<Seq<char>>,
    pub block_size: u32,
    pub media_size: u64,
}

/// Whether a file footer is one that can be read: it has the signature "conectix", is of format
/// version 1.0, and refers to no further structure in a fixed disk, and to one after the footer
/// copy in another.
pub open spec fn is_supported_footer(data: Seq<u8>) -> bool {
    &&& u64_be(data, 0) == 0x636f_6e65_6374_6978
    &&& u32_be(data, 12) == 0x0001_0000
    &&& if u32_be(data, 60) == 2 {
        u64_be(data, 16) == u64::MAX
    } else {
        u64_be(data, 16) >= 512
    }
}

/// The file footer of an image: its last sector.
pub open spec fn footer_of(content: Content) -> Result<VhdFileFooter, DriverError> {
    if content.size < 512 {
        Err(DriverError::Unsupported)
    } else {
        match content.exact(content.size - 512, 512) {
            Err(error) => Err(error),
            Ok(data) => if is_supported_footer(data) {
                Ok(
                    VhdFileFooter {
                        next_offset: u64_be(data, 16),
                        data_size: u64_be(data, 40),
                        disk_type: u32_be(data, 60),
                        identifier: uuid_be(data, 68),
                    },
                )
            } else {
                Err(DriverError::Unsupported)
            },
        }
    }
}

/// Whether a dynamic disk header is one that can be read: it has the signature "cxsparse", refers
/// to no further structure, is of format version 1.0 and has a block size.
pub open spec fn is_supported_dynamic_header(data: Seq<u8>) -> bool {
    &&& u64_be(data, 0) == 0x6378_7370_6172_7365
    &&& u64_be(data, 8) == u64::MAX
    &&& u32_be(data, 24) == 0x0001_0000
    &&& u32_be(data, 32) != 0
}

/// The dynamic disk header at an offset.
pub open spec fn dynamic_header_at(content: Content, offset: u64) -> Result<
    VhdDynamicDiskHeader,
    DriverError,
> {
    match content.exact(offset as int, 1024) {
        Err(error) => Err(error),
        Ok(data) => if is_supported_dynamic_header(data) {
            Ok(
                VhdDynamicDiskHeader {
                    block_table_offset: u64_be(data, 16),
                    number_of_blocks: u32_be(data, 28),
                    block_size: u32_be(data, 32),
                    parent_identifier: uuid_be(data, 40),
                },
            )
        } else {
            Err(DriverError::Unsupported)
        },
    }
}

/// The name of the parent that a dynamic disk header holds: UTF-16 up to the first zero. A name
/// that is not valid counts as none.
pub open spec fn parent_name_in(data: Seq<u8>) -> Option<Seq<char>> {
    match utf16_text(before_zero(units_be(data.subrange(64, 576)))) {
        Some(name) => if name.len() == 0 {
            None
        } else {
            Some(name)
        },
        None => None,
    }
}

/// The size of the sector bitmap of a block: a bit for each sector, in whole sectors.
pub open spec fn bitmap_size(header: VhdDynamicDiskHeader) -> int {
    ((header.block_size as int / 512 / 8 + 511) / 512) * 512
}

/// The number of bytes of a block of which the sector bitmap speaks.
pub open spec fn bitmap_coverage(header: VhdDynamicDiskHeader) -> int {
    bitmap_size(header) * 8 * 512
}

/// The file offset of the sector bitmap of a block, which its data follows, if the block is
/// stored.
pub open spec fn block_offset(content: Content, header: VhdDynamicDiskHeader, index: int) -> Result<
    Option<u64>,
    DriverError,
> {
    if header.block_table_offset + index * 4 > u64::MAX {
        Err(DriverError::Overflow)
    } else {
        match content.exact(header.block_table_offset + index * 4, 4) {
            Err(error) => Err(error),
            Ok(entry) => if u32_be(entry, 0) == 0xffff_ffff {
                Ok(None)
            } else {
                let offset = u32_be(entry, 0) * 512;
                if offset + bitmap_size(header) + header.block_size > content.size {
                    Err(DriverError::OutOfBounds)
                } else if !content.has(offset, bitmap_size(header)) {
                    Err(DriverError::Truncated)
                } else if bitmap_size(header) == 0 {
                    Err(DriverError::Invalid)
                } else {
                    Ok(Some(offset as u64))
                }
            },
        }
    }
}

/// Why a block cannot be located.
pub open spec fn block_failure(content: Content, header: VhdDynamicDiskHeader) -> spec_fn(
    int,
) -> Option<DriverError> {
    |index: int|
        match block_offset(content, header, index) {
            Ok(_) => None,
            Err(error) => Some(error),
        }
}

/// Whether the sector bitmap of a block of a medium of `count` blocks can be used: the bits of its
/// first sector and of its eighth agree, and it covers exactly the block unless the block is the
/// last.
pub open spec fn is_usable_block(
    content: Content,
    header: VhdDynamicDiskHeader,
    count: nat,
    index: int,
) -> bool {
    match block_offset(content, header, index) {
        Ok(Some(offset)) => {
            let byte = content.window(offset as int, bitmap_size(header) as nat)[0];
            &&& bit_of(byte, 0) == bit_of(byte, 7)
            &&& index + 1 < count ==> bitmap_coverage(header) == header.block_size
        },
        _ => true,
    }
}

/// Whether a block is stored.
pub open spec fn is_stored_block(
    content: Content,
    header: VhdDynamicDiskHeader,
    index: int,
) -> bool {
    block_offset(content, header, index) matches Ok(Some(_))
}

/// The size of the medium up to which the sector bitmaps speak of it.
pub open spec fn covered_size(
    content: Content,
    header: VhdDynamicDiskHeader,
    media_size: u64,
) -> nat {
    let count = number_of_blocks(media_size as int, header.block_size as int);
    let end = (count - 1) * header.block_size + bitmap_coverage(header);
    if count > 0 && is_stored_block(content, header, count - 1) && end < media_size {
        end as nat
    } else {
        media_size as nat
    }
}

/// Where an image stores the byte of the medium at an offset: in the block that covers it if the
/// sector bitmap of the block says so, else in the parent.
pub open spec fn media_location(
    source: DataSourceReference,
    parent: Option<DataSourceReference>,
    header: VhdDynamicDiskHeader,
) -> spec_fn(int) -> MediaLocation {
    |k: int|
        match block_offset(source.content(), header, k / header.block_size as int) {
            Ok(Some(offset)) => sector_location(
                source,
                parent,
                source.content().window(offset as int, bitmap_size(header) as nat),
                512,
                offset + bitmap_size(header),
                k - k % header.block_size as int,
                k,
            ),
            _ => absent_location(parent, k),
        }
}

/// Whether a file footer is stored in the last sector: in big-endian order, behind the characters
/// "conectix", version 1.0 and its values.
pub open spec fn holds_footer(content: Content, footer: VhdFileFooter) -> bool {
    let data = content.window(content.size - 512, 512);
    &&& 512 <= content.size
    &&& content.has(content.size - 512, 512)
    &&& data[0] == 0x63 && data[1] == 0x6f && data[2] == 0x6e && data[3] == 0x65
    &&& data[4] == 0x63 && data[5] == 0x74 && data[6] == 0x69 && data[7] == 0x78
    &&& holds_be(data, 12, 4, 0x1_0000)
    &&& holds_be(data, 16, 8, footer.next_offset as int)
    &&& holds_be(data, 40, 8, footer.data_size as int)
    &&& holds_be(data, 60, 4, footer.disk_type as int)
    &&& holds_uuid_be(data, 68, footer.identifier)
}

/// The values of a file footer that is stored are read back. That of a fixed disk refers to no further
/// structure, every other one to one that lies behind the first sector.
pub proof fn lemma_footer_stored(content: Content, footer: VhdFileFooter)
    requires
        holds_footer(content, footer),
        footer.disk_type == 2 ==> footer.next_offset == 0xffff_ffff_ffff_ffff,
        footer.disk_type != 2 ==> 512 <= footer.next_offset,
    ensures
        footer_of(content) == Ok::<VhdFileFooter, DriverError>(footer),
{
    broadcast use lemma_holds_be;

    let data = content.window(content.size - 512, 512);
    lemma_uuid_stored(data, 68, footer.identifier);
    assert(u64_be(data, 0) == 0x636f_6e65_6374_6978);
}

/// Whether a dynamic disk header is stored: in big-endian order, behind the characters "cxsparse", no
/// further structure, version 1.0 and its values.
pub open spec fn holds_dynamic_header(
    content: Content,
    offset: int,
    header: VhdDynamicDiskHeader,
) -> bool {
    let data = content.window(offset, 1024);
    &&& content.has(offset, 1024)
    &&& data[0] == 0x63 && data[1] == 0x78 && data[2] == 0x73 && data[3] == 0x70
    &&& data[4] == 0x61 && data[5] == 0x72 && data[6] == 0x73 && data[7] == 0x65
    &&& holds_be(data, 8, 8, 0xffff_ffff_ffff_ffff)
    &&& holds_be(data, 16, 8, header.block_table_offset as int)
    &&& holds_be(data, 24, 4, 0x1_0000)
    &&& holds_be(data, 28, 4, header.number_of_blocks as int)
    &&& holds_be(data, 32, 4, header.block_size as int)
    &&& holds_uuid_be(data, 40, header.parent_identifier)
}

/// The values of a dynamic disk header that is stored are read back.
pub proof fn lemma_dynamic_header_stored(
    content: Content,
    offset: u64,
    header: VhdDynamicDiskHeader,
)
    requires
        holds_dynamic_header(content, offset as int, header),
        0 < header.block_size,
    ensures
        dynamic_header_at(content, offset) == Ok::<VhdDynamicDiskHeader, DriverError>(header),
{
    broadcast use lemma_holds_be;

    let data = content.window(offset as int, 1024);
    lemma_uuid_stored(data, 40, header.parent_identifier);
    assert(u64_be(data, 0) == 0x6378_7370_6172_7365);
}

/// The name of the parent that is stored in a dynamic disk header, in UTF-16 in big-endian order behind
/// which a zero follows, is read back.
pub proof fn lemma_parent_name_stored(data: Seq<u8>, name: Seq<char>)
    requires
        data.len() == 1024,
        0 < name.len(),
        encode_utf16(name).len() < 256,
        !encode_utf16(name).contains(0),
        holds_units_be(data, 64, encode_utf16(name)),
        holds_be(data, 64 + 2 * encode_utf16(name).len() as int, 2, 0),
    ensures
        parent_name_in(data) == Some(name),
{
    let units = encode_utf16(name);
    let count = units.len() as int;
    let part = data.subrange(64, 576);
    let all = units_be(part);
    assert forall|i: int| 0 <= i < count implies #[trigger] all[i] == units[i] by {
        assert(holds_be(data, 64 + 2 * i, 2, units[i] as int));
        reveal_with_fuel(holds_be, 3);
        assert(part[2 * i] == data[64 + 2 * i] && part[2 * i + 1] == data[64 + 2 * i + 1]);
    }
    assert(all[count] == 0) by {
        reveal_with_fuel(holds_be, 3);
        assert(part[2 * count] == data[64 + 2 * count]);
        assert(part[2 * count + 1] == data[64 + 2 * count + 1]);
    }
    assert forall|i: int| 0 <= i < count implies all[i] != 0 by {
        assert(units.contains(units[i]));
    }
    lemma_before_zero(all, count);
    assert(all.take(count) =~= units);
    lemma_utf16_text(name);
}

/// Whether a block with a number is stored at a sector: the number of the sector is in the block table,
/// in big-endian order, four bytes for each block.
pub open spec fn holds_block(
    content: Content,
    header: VhdDynamicDiskHeader,
    index: int,
    sector: int,
) -> bool {
    content.holds_be(header.block_table_offset + 4 * index, 4, sector)
}

/// A byte of a block that is stored lies behind the sector bitmap at the start of the block, as far as
/// it lies behind the start of the block, where the bit of its sector of 512 bytes is set. Every other
/// byte is that of the parent, or zero. The bitmap has a bit for each sector, in as many whole sectors
/// as it needs.
pub proof fn lemma_sector_byte(
    source: DataSourceReference,
    parent: Option<DataSourceReference>,
    header: VhdDynamicDiskHeader,
    index: int,
    sector: int,
    bitmap_sectors: int,
    relative_offset: int,
)
    requires
        holds_block(source.content(), header, index, sector),
        sector != 0xffff_ffff,
        header.block_size % 4096 == 0,
        (bitmap_sectors - 1) * 512 * 8 * 512 < header.block_size <= bitmap_sectors * 512 * 8 * 512,
        source.content().has(sector * 512, bitmap_sectors * 512),
        sector * 512 + bitmap_sectors * 512 + header.block_size <= source.content().size,
        header.block_table_offset + 4 * index <= u64::MAX,
        0 <= index,
        0 <= relative_offset < header.block_size,
    ensures
        media_location(source, parent, header)(index * header.block_size + relative_offset) == (
        if bit_of(
            source.content().bytes[sector * 512 + relative_offset / 512 / 8],
            relative_offset / 512 % 8,
        ) {
            MediaLocation::Data {
                source,
                offset: sector * 512 + bitmap_sectors * 512 + relative_offset,
            }
        } else {
            match parent {
                Some(parent) => MediaLocation::Data {
                    source: parent,
                    offset: index * header.block_size + relative_offset,
                },
                None => MediaLocation::Zero,
            }
        }),
{
    broadcast use lemma_holds_be;

    let content = source.content();
    let k = index * header.block_size + relative_offset;
    lemma_block_index(k, index, header.block_size as int);
    assert(header.block_table_offset + index * 4 == header.block_table_offset + 4 * index);
    assert(bitmap_size(header) == bitmap_sectors * 512);
    assert(0 < bitmap_sectors);
    let offset = sector * 512;
    assert(block_offset(content, header, index) == Ok::<Option<u64>, DriverError>(
        Some(offset as u64),
    ));
    let bitmap = content.window(offset, bitmap_size(header) as nat);
    assert(bitmap[relative_offset / 512 / 8] == content.bytes[offset + relative_offset / 512 / 8]);
}

/// A block whose entry in the block table has all bits set is not stored: its bytes are those of the
/// parent, or zero.
pub proof fn lemma_unstored_block_byte(
    source: DataSourceReference,
    parent: Option<DataSourceReference>,
    header: VhdDynamicDiskHeader,
    index: int,
    relative_offset: int,
)
    requires
        holds_block(source.content(), header, index, 0xffff_ffff),
        header.block_table_offset + 4 * index <= u64::MAX,
        0 <= index,
        0 <= relative_offset < header.block_size,
    ensures
        media_location(source, parent, header)(index * header.block_size + relative_offset) == (
        match parent {
            Some(parent) => MediaLocation::Data {
                source: parent,
                offset: index * header.block_size + relative_offset,
            },
            None => MediaLocation::Zero,
        }),
{
    broadcast use lemma_holds_be;

    lemma_block_index(
        index * header.block_size + relative_offset,
        index,
        header.block_size as int,
    );
    assert(header.block_table_offset + index * 4 == header.block_table_offset + 4 * index);
}

/// Why the blocks of a medium cannot be used, if they cannot.
pub open spec fn blocks_failure(
    content: Content,
    header: VhdDynamicDiskHeader,
    media_size: u64,
) -> Option<DriverError> {
    let count = number_of_blocks(media_size as int, header.block_size as int);
    if media_size > header.number_of_blocks * header.block_size {
        Some(DriverError::OutOfBounds)
    } else {
        match first_failure(count, block_failure(content, header)) {
            Some(error) => Some(error),
            None => if forall|i: int|
                0 <= i < count ==> #[trigger] is_usable_block(content, header, count, i) {
                None
            } else {
                Some(DriverError::Invalid)
            },
        }
    }
}

/// Why a parent cannot be used, or whether the image must not have one: a differential disk needs
/// the parent that its header names, a dynamic disk names none.
pub open spec fn parent_failure(
    disk_type: u32,
    parent_identifier: Uuid,
    parent: Option<Uuid>,
) -> Option<DriverError> {
    if disk_type == 4 {
        if parent is None || parent_identifier == nil_uuid() {
            Some(DriverError::Missing)
        } else if parent->0 != parent_identifier {
            Some(DriverError::Invalid)
        } else {
            None
        }
    } else if parent_identifier != nil_uuid() {
        Some(DriverError::Unsupported)
    } else {
        None
    }
}

/// What is known of an image that can be opened on top of a file with the identifier `parent`.
pub open spec fn image_of(content: Content, parent: Option<Uuid>) -> Result<VhdImage, DriverError> {
    match footer_of(content) {
        Err(error) => Err(error),
        Ok(footer) => if footer.disk_type == 2 {
            Ok(
                VhdImage {
                    disk_type: VhdDiskType::Fixed,
                    identifier: footer.identifier,
                    parent_identifier: None,
                    parent_name: None,
                    block_size: 0,
                    media_size: footer.data_size,
                },
            )
        } else if footer.disk_type == 3 || footer.disk_type == 4 {
            match dynamic_header_at(content, footer.next_offset) {
                Err(error) => Err(error),
                Ok(header) => match parent_failure(
                    footer.disk_type,
                    header.parent_identifier,
                    parent,
                ) {
                    Some(error) => Err(error),
                    None => match blocks_failure(content, header, footer.data_size) {
                        Some(error) => Err(error),
                        None => Ok(
                            VhdImage {
                                disk_type: if footer.disk_type == 4 {
                                    VhdDiskType::Differential
                                } else {
                                    VhdDiskType::Dynamic
                                },
                                identifier: footer.identifier,
                                parent_identifier: if header.parent_identifier == nil_uuid() {
                                    None
                                } else {
                                    Some(header.parent_identifier)
                                },
                                parent_name: parent_name_in(
                                    content.window(footer.next_offset as int, 1024),
                                ),
                                block_size: header.block_size,
                                media_size: footer.data_size,
                            },
                        ),
                    },
                },
            }
        } else {
            Err(DriverError::Unsupported)
        },
    }
}

/// A footer of type 2 is that of a fixed disk, of which the data of the file is the medium. Types 3 and 4
/// are those of dynamic and differential disks, which have a dynamic disk header. No other type can be
/// opened.
pub proof fn lemma_disk_types(content: Content, parent: Option<Uuid>, footer: VhdFileFooter)
    requires
        footer_of(content) == Ok::<VhdFileFooter, DriverError>(footer),
    ensures
        footer.disk_type == 2 ==> image_of(content, parent) is Ok,
        image_of(content, parent) is Ok ==> {
            let image = image_of(content, parent)->Ok_0;
            &&& image.media_size == footer.data_size
            &&& image.identifier == footer.identifier
            &&& footer.disk_type == 2 <==> image.disk_type is Fixed
            &&& footer.disk_type == 3 <==> image.disk_type is Dynamic
            &&& footer.disk_type == 4 <==> image.disk_type is Differential
            &&& image.disk_type is Differential ==> parent is Some && image.parent_identifier
                == parent
            &&& !(image.disk_type is Differential) ==> image.parent_identifier is None
        },
{
}

/// Whether `logical` gives access to the medium of an image.
pub open spec fn is_image_medium(
    logical: DataSourceReference,
    source: DataSourceReference,
    parent: Option<DataSourceReference>,
) -> bool {
    match footer_of(source.content()) {
        Err(_) => false,
        Ok(footer) => if footer.disk_type == 2 {
            &&& logical.content() == slice_content(source.content(), 0, footer.data_size as nat)
            &&& logical.progresses() == source.progresses()
            &&& logical.exhaustive() == source.exhaustive()
            &&& logical.measurable()
            &&& logical.spec_capabilities() == source.spec_capabilities()
            &&& logical.spec_origin_path() == source.spec_origin_path()
        } else {
            match dynamic_header_at(source.content(), footer.next_offset) {
                Err(_) => false,
                Ok(header) => is_layered_medium(
                    logical,
                    source,
                    if footer.disk_type == 4 {
                        parent
                    } else {
                        None
                    },
                    covered_size(source.content(), header, footer.data_size),
                    media_location(
                        source,
                        if footer.disk_type == 4 {
                            parent
                        } else {
                            None
                        },
                        header,
                    ),
                ),
            }
        },
    }
}

fn read_footer(source: &DataSourceReference, source_size: u64) -> (result: Result<
    VhdFileFooter,
    DriverError,
>)
    requires
        source_size == source.content().size,
    ensures
        match result {
            Ok(footer) => footer_of(source.content()) == Ok::<VhdFileFooter, DriverError>(footer),
            Err(error) => source.reliable() ==> footer_of(source.content()) == Err::<
                VhdFileFooter,
                DriverError,
            >(error),
        },
{
    if source_size < 512 {
        return Err(DriverError::Unsupported);
    }
    let data: Vec<u8> = read_bytes(source, source_size - 512, 512)?;
    let data = data.as_slice();
    let next_offset: u64 = read_u64_be(data, 16);
    let disk_type: u32 = read_u32_be(data, 60);

    if read_u64_be(data, 0) != 0x636f_6e65_6374_6978 || read_u32_be(data, 12) != 0x0001_0000 {
        return Err(DriverError::Unsupported);
    }
    if disk_type == 2 {
        if next_offset != u64::MAX {
            return Err(DriverError::Unsupported);
        }
    } else if next_offset < 512 {
        return Err(DriverError::Unsupported);
    }
    Ok(
        VhdFileFooter {
            next_offset,
            data_size: read_u64_be(data, 40),
            disk_type,
            identifier: Uuid::from_be_bytes(data, 68),
        },
    )
}

/// Reads the dynamic disk header and the name of the parent in it.
fn read_dynamic_header(source: &DataSourceReference, offset: u64) -> (result: Result<
    (VhdDynamicDiskHeader, Option<String>),
    DriverError,
>)
    ensures
        match result {
            Ok((header, parent_name)) => {
                &&& dynamic_header_at(source.content(), offset) == Ok::<
                    VhdDynamicDiskHeader,
                    DriverError,
                >(header)
                &&& text_view(parent_name) == parent_name_in(
                    source.content().window(offset as int, 1024),
                )
                &&& header.block_size != 0
            },
            Err(error) => source.reliable() ==> dynamic_header_at(source.content(), offset)
                == Err::<VhdDynamicDiskHeader, DriverError>(error),
        },
{
    let data: Vec<u8> = read_bytes(source, offset, 1024)?;
    let data = data.as_slice();
    let block_size: u32 = read_u32_be(data, 32);

    if read_u64_be(data, 0) != 0x6378_7370_6172_7365 || read_u64_be(data, 8) != u64::MAX {
        return Err(DriverError::Unsupported);
    }
    if read_u32_be(data, 24) != 0x0001_0000 || block_size == 0 {
        return Err(DriverError::Unsupported);
    }
    let header = VhdDynamicDiskHeader {
        block_table_offset: read_u64_be(data, 16),
        number_of_blocks: read_u32_be(data, 28),
        block_size,
        parent_identifier: Uuid::from_be_bytes(data, 40),
    };
    let units: Vec<u16> = read_units_be(vstd::slice::slice_subrange(data, 64, 576), true);
    let parent_name: Option<String> = match decode_utf16(units.as_slice()) {
        Some(name) => if is_empty_text(&name) {
            None
        } else {
            Some(name)
        },
        None => None,
    };
    Ok((header, parent_name))
}

/// The characters of a text, if there is one.
pub open spec fn text_view(text: Option<String>) -> Option<Seq<char>> {
    match text {
        Some(text) => Some(text@),
        None => None,
    }
}

fn is_empty_text(text: &String) -> (empty: bool)
    ensures
        empty == (text@.len() == 0),
{
    broadcast use vstd::utf8::encode_utf8_decode_utf8;

    let empty: bool = text.as_str().is_empty();
    empty
}

/// Locates the sector bitmap of a block and reads it.
fn read_block_bitmap(
    source: &DataSourceReference,
    source_size: u64,
    header: &VhdDynamicDiskHeader,
    sector_bitmap_size: u64,
    index: u64,
) -> (result: Result<Option<(u64, Vec<u8>)>, DriverError>)
    requires
        source_size == source.content().size,
        sector_bitmap_size == bitmap_size(*header),
        sector_bitmap_size <= 0x10_0000,
        index * 4 <= u64::MAX,
    ensures
        match result {
            Ok(Some((offset, bitmap))) => {
                &&& block_offset(source.content(), *header, index as int) == Ok::<
                    Option<u64>,
                    DriverError,
                >(Some(offset))
                &&& bitmap@ == source.content().window(offset as int, sector_bitmap_size as nat)
                &&& bitmap@.len() == sector_bitmap_size
                &&& 0 < sector_bitmap_size
                &&& offset <= 0x200_0000_0000
            },
            Ok(None) => block_offset(source.content(), *header, index as int) == Ok::<
                Option<u64>,
                DriverError,
            >(None),
            Err(error) => source.reliable() ==> block_offset(
                source.content(),
                *header,
                index as int,
            ) == Err::<Option<u64>, DriverError>(error),
        },
{
    let entry_offset: u64 = header.block_table_offset.checked_add(index * 4).ok_or(
        DriverError::Overflow,
    )?;
    let entry: Vec<u8> = read_bytes(source, entry_offset, 4)?;
    let sector_number: u32 = read_u32_be(entry.as_slice(), 0);
    if sector_number == 0xffff_ffff {
        return Ok(None);
    }
    let offset: u64 = sector_number as u64 * 512;
    if offset + sector_bitmap_size + header.block_size as u64 > source_size {
        return Err(DriverError::OutOfBounds);
    }
    let bitmap: Vec<u8> = read_bytes(source, offset, sector_bitmap_size as usize)?;
    if sector_bitmap_size == 0 {
        return Err(DriverError::Invalid);
    }
    Ok(Some((offset, bitmap)))
}

/// Locates the blocks that cover the medium.
fn build_blocks(
    source: &DataSourceReference,
    source_size: u64,
    parent: &Option<DataSourceReference>,
    header: &VhdDynamicDiskHeader,
    media_size: u64,
) -> (result: Result<BlockMap, DriverError>)
    requires
        source_size == source.content().size,
        header.block_size != 0,
    ensures
        match result {
            Ok(map) => {
                &&& blocks_failure(source.content(), *header, media_size) is None
                &&& map.source() == *source
                &&& map.parent() == *parent
                &&& map.size() == covered_size(source.content(), *header, media_size)
                &&& map.is_tiled()
                &&& forall|k: int|
                    0 <= k < map.size() ==> #[trigger] map.location(k) == media_location(
                        *source,
                        *parent,
                        *header,
                    )(k)
            },
            Err(error) => source.reliable() ==> blocks_failure(
                source.content(),
                *header,
                media_size,
            ) == Some(error),
        },
{
    let block_size: u64 = header.block_size as u64;
    let sector_bitmap_size: u64 = ((block_size / 512 / 8 + 511) / 512) * 512;
    let coverage: u64 = sector_bitmap_size * 8 * 512;
    let blocks: u64 = header.number_of_blocks as u64;
    proof {
        assert(0 <= blocks * block_size <= 0xffff_ffff * 0xffff_ffff) by (nonlinear_arith)
            requires
                0 <= blocks <= 0xffff_ffff,
                0 <= block_size <= 0xffff_ffff,
        ;
        assert((block_size - 1) / block_size as int == 0) by (nonlinear_arith)
            requires
                0 < block_size,
        ;
    }
    if media_size > blocks * block_size {
        return Err(DriverError::OutOfBounds);
    }
    let ghost content = source.content();
    let ghost location = media_location(*source, *parent, *header);
    let ghost failure = block_failure(content, *header);
    let ghost count = number_of_blocks(media_size as int, block_size as int);
    let mut map = BlockMap::with_parent(source, parent);
    let mut usable: bool = true;
    let mut index: u64 = 0;
    let mut logical_offset: u64 = 0;

    while logical_offset < media_size
        invariant
            source_size == source.content().size,
            block_size == header.block_size,
            0 < block_size <= 0xffff_ffff,
            sector_bitmap_size == bitmap_size(*header),
            sector_bitmap_size <= 0x10_0000,
            coverage == bitmap_coverage(*header),
            blocks == header.number_of_blocks,
            media_size <= blocks * block_size,
            content == source.content(),
            location == media_location(*source, *parent, *header),
            failure == block_failure(content, *header),
            count == number_of_blocks(media_size as int, block_size as int),
            logical_offset <= media_size,
            logical_offset < media_size ==> logical_offset == index * block_size,
            index <= logical_offset,
            logical_offset == media_size ==> index == count,
            first_failure(index as nat, failure) is None,
            usable ==> forall|i: int|
                0 <= i < index ==> #[trigger] is_usable_block(content, *header, count, i),
            !usable ==> exists|i: int|
                0 <= i < count && !#[trigger] is_usable_block(content, *header, count, i),
            map.source() == *source,
            map.parent() == *parent,
            usable && logical_offset < media_size ==> map.size() == logical_offset,
            usable && logical_offset == media_size ==> map.size() == covered_size(
                content,
                *header,
                media_size,
            ),
            usable ==> forall|k: int|
                0 <= k < map.size() ==> #[trigger] map.location(k) == location(k),
        decreases media_size - logical_offset,
    {
        proof {
            lemma_number_of_blocks(media_size as int, block_size as int, index as int);
            assert(index < blocks) by (nonlinear_arith)
                requires
                    index * block_size < media_size,
                    media_size <= blocks * block_size,
            ;
        }
        let result = read_block_bitmap(source, source_size, header, sector_bitmap_size, index);
        proof {
            if result is Err && source.reliable() {
                lemma_first_failure_at(count, failure, index as nat);
            }
        }
        let block = result?;
        let remaining_size: u64 = media_size - logical_offset;
        let logical_size: u64 = if block_size < remaining_size {
            block_size
        } else {
            remaining_size
        };
        let ghost before = map;
        match block {
            None => {
                if usable {
                    map = map.append_absent(logical_size);
                }
            },
            Some((offset, bitmap)) => {
                let byte: u8 = bitmap[0];
                if test_bit(byte, 0) != test_bit(byte, 7) || (block_size < remaining_size
                    && coverage != block_size) {
                    assert(!is_usable_block(content, *header, count, index as int));
                    usable = false;
                }
                if usable {
                    let covered: u64 = if coverage < remaining_size {
                        coverage
                    } else {
                        remaining_size
                    };
                    map = append_sectors(
                        map,
                        bitmap.as_slice(),
                        512,
                        offset + sector_bitmap_size,
                        covered,
                    );
                }
            },
        }
        proof {
            if usable {
                assert forall|k: int| 0 <= k < map.size() implies #[trigger] map.location(k)
                    == location(k) by {
                    if k < logical_offset {
                        assert(map.location(k) == before.location(k));
                    } else {
                        lemma_block_index(k, index as int, block_size as int);
                    }
                }
                assert(is_usable_block(content, *header, count, index as int));
            }
        }
        logical_offset = logical_offset + logical_size;
        index = index + 1;
    }
    if !usable {
        return Err(DriverError::Invalid);
    }
    Ok(map.finish())
}

/// VHD file metadata plus opened logical source.
pub struct VhdFile {
    disk_type: VhdDiskType,
    identifier: Uuid,
    parent_identifier: Option<Uuid>,
    parent_name: Option<String>,
    block_size: u32,
    media_size: u64,
    logical_source: DataSourceReference,
}

/// The identifier of the parent file, if there is one.
pub open spec fn identifier_of(parent: Option<&VhdFile>) -> Option<Uuid> {
    match parent {
        Some(file) => Some(file@.identifier),
        None => None,
    }
}

/// The medium of the parent file, if there is one.
pub open spec fn medium_of(parent: Option<&VhdFile>) -> Option<DataSourceReference> {
    match parent {
        Some(file) => Some(file.logical_source()),
        None => None,
    }
}

impl VhdFile {
    /// What is known of the image.
    pub closed spec fn view(&self) -> VhdImage {
        VhdImage {
            disk_type: self.disk_type,
            identifier: self.identifier,
            parent_identifier: self.parent_identifier,
            parent_name: text_view(self.parent_name),
            block_size: self.block_size,
            media_size: self.media_size,
        }
    }

    /// The logical media source.
    pub closed spec fn logical_source(&self) -> DataSourceReference {
        self.logical_source
    }

    /// Opens and parses a VHD file.
    pub fn open(source: DataSourceReference) -> (result: Result<Self, DriverError>)
        ensures
            match result {
                Ok(file) => {
                    &&& image_of(source.content(), None) == Ok::<VhdImage, DriverError>(file@)
                    &&& is_image_medium(file.logical_source(), source, None)
                },
                Err(error) => source.reliable() ==> image_of(source.content(), None) == Err::<
                    VhdImage,
                    DriverError,
                >(error),
            },
    {
        Self::open_internal(source, None)
    }

    /// Opens and parses a differential VHD file with its parent file.
    pub fn open_with_parent(source: DataSourceReference, parent_file: &VhdFile) -> (result: Result<
        Self,
        DriverError,
    >)
        ensures
            match result {
                Ok(file) => {
                    &&& image_of(source.content(), Some(parent_file@.identifier)) == Ok::<
                        VhdImage,
                        DriverError,
                    >(file@)
                    &&& is_image_medium(
                        file.logical_source(),
                        source,
                        Some(parent_file.logical_source()),
                    )
                },
                Err(error) => source.reliable() ==> image_of(
                    source.content(),
                    Some(parent_file@.identifier),
                ) == Err::<VhdImage, DriverError>(error),
            },
    {
        Self::open_internal(source, Some(parent_file))
    }

    fn open_internal(source: DataSourceReference, parent_file: Option<&VhdFile>) -> (result: Result<
        Self,
        DriverError,
    >)
        ensures
            match result {
                Ok(file) => {
                    &&& image_of(source.content(), identifier_of(parent_file)) == Ok::<
                        VhdImage,
                        DriverError,
                    >(file@)
                    &&& is_image_medium(file.logical_source(), source, medium_of(parent_file))
                },
                Err(error) => source.reliable() ==> image_of(
                    source.content(),
                    identifier_of(parent_file),
                ) == Err::<VhdImage, DriverError>(error),
            },
    {
        let source_size: u64 = source.size()?;
        let footer = read_footer(&source, source_size)?;
        let media_size: u64 = footer.data_size;

        if footer.disk_type == 2 {
            let logical_source = open_slice(source, 0, media_size);
            return Ok(
                VhdFile {
                    disk_type: VhdDiskType::Fixed,
                    identifier: footer.identifier,
                    parent_identifier: None,
                    parent_name: None,
                    block_size: 0,
                    media_size,
                    logical_source,
                },
            );
        }
        if footer.disk_type != 3 && footer.disk_type != 4 {
            return Err(DriverError::Unsupported);
        }
        let (header, parent_name) = read_dynamic_header(&source, footer.next_offset)?;
        let has_parent: bool = !header.parent_identifier.is_nil();
        let disk_type: VhdDiskType;
        let parent_source: Option<DataSourceReference>;
        if footer.disk_type == 4 {
            let parent_file: &VhdFile = parent_file.ok_or(DriverError::Missing)?;
            if !has_parent {
                return Err(DriverError::Missing);
            }
            if *parent_file.identifier() != header.parent_identifier {
                return Err(DriverError::Invalid);
            }
            disk_type = VhdDiskType::Differential;
            parent_source = Some(parent_file.open_source());
        } else {
            if has_parent {
                return Err(DriverError::Unsupported);
            }
            disk_type = VhdDiskType::Dynamic;
            parent_source = None;
        }
        let map = build_blocks(&source, source_size, &parent_source, &header, media_size)?;
        let logical_source = map.into_source(
            Ghost(media_location(source, parent_source, header)),
        );
        Ok(
            VhdFile {
                disk_type,
                identifier: footer.identifier,
                parent_identifier: if has_parent {
                    Some(header.parent_identifier)
                } else {
                    None
                },
                parent_name,
                block_size: header.block_size,
                media_size,
                logical_source,
            },
        )
    }

    /// Retrieves the disk type.
    pub fn disk_type(&self) -> (disk_type: VhdDiskType)
        ensures
            disk_type == self@.disk_type,
    {
        self.disk_type
    }

    /// Retrieves the file identifier.
    pub fn identifier(&self) -> (identifier: &Uuid)
        ensures
            *identifier == self@.identifier,
    {
        &self.identifier
    }

    /// Retrieves the parent identifier if present.
    pub fn parent_identifier(&self) -> (parent_identifier: Option<&Uuid>)
        ensures
            match parent_identifier {
                Some(identifier) => self@.parent_identifier == Some(*identifier),
                None => self@.parent_identifier is None,
            },
    {
        match &self.parent_identifier {
            Some(identifier) => Some(identifier),
            None => None,
        }
    }

    /// Retrieves the parent name if present.
    pub fn parent_name(&self) -> (parent_name: Option<&str>)
        ensures
            match parent_name {
                Some(name) => self@.parent_name == Some(name@),
                None => self@.parent_name is None,
            },
    {
        match &self.parent_name {
            Some(name) => Some(name.as_str()),
            None => None,
        }
    }

    /// Retrieves the bytes-per-sector value.
    pub fn bytes_per_sector(&self) -> (bytes_per_sector: u16)
        ensures
            bytes_per_sector == 512,
    {
        512
    }

    /// Retrieves the dynamic block size in bytes.
    pub fn block_size(&self) -> (block_size: u32)
        ensures
            block_size == self@.block_size,
    {
        self.block_size
    }

    /// Retrieves the media size in bytes.
    pub fn media_size(&self) -> (media_size: u64)
        ensures
            media_size == self@.media_size,
    {
        self.media_size
    }

    /// Opens the logical media source.
    pub fn open_source(&self) -> (source: DataSourceReference)
        ensures
            source == self.logical_source(),
    {
        self.logical_source.clone()
    }
}

/// A disk that stores none of its blocks reads as its parent.
pub proof fn lemma_unstored_disk(
    source: DataSourceReference,
    parent: DataSourceReference,
    header: VhdDynamicDiskHeader,
    size: nat,
)
    requires
        header.block_size > 0,
        size <= u64::MAX,
        forall|index: int|
            0 <= index < number_of_blocks(size as int, header.block_size as int)
                ==> !#[trigger] is_stored_block(source.content(), header, index),
    ensures
        media_content(size, media_location(source, Some(parent), header)) == slice_content(
            parent.content(),
            0,
            size,
        ),
{
    let location = media_location(source, Some(parent), header);
    let content = media_content(size, location);
    assert forall|k: int| 0 <= k < size implies #[trigger] location(k) == absent_location(
        Some(parent),
        k,
    ) by {
        let b = header.block_size as int;
        lemma_block_count(size as int, b, k / b);
        assert(0 <= k / b && k / b * b <= k) by (nonlinear_arith)
            requires
                0 <= k,
                0 < b,
        ;
        assert(!is_stored_block(source.content(), header, k / b));
    }
    assert(content.bytes =~= slice_content(parent.content(), 0, size).bytes);
}

} // verus!
