//! XFS directories.

use vstd::prelude::*;
use vstd::utf8::encode_utf8;

use super::inode::XfsBlockRange;
use super::superblock::{XFS_INODE_NUMBER_LIMIT, XfsGeometry};
use crate::bytes::{
    holds_be, lemma_holds_be, read_u16_be, read_u32_be, read_u64_be, u16_be, u32_be, u64_be,
};
use crate::error::DriverError;
use crate::filesystem::names::{are_proper_names, is_proper_name, lemma_proper_names_push};
use crate::scan::texts_view;
use crate::source::data_source::{read_bytes, Content, DataSource, DataSourceReference};
use crate::text::{holds_text, lemma_stored_text, read_stored_text, stored_text, text_chars};

verus! {

/// The entries of a directory: their names and inode numbers.
pub struct XfsEntries {
    pub names: Seq<Seq<char>>,
    pub inode_numbers: Seq<u64>,
}

/// A directory without entries.
pub open spec fn no_entries() -> XfsEntries {
    XfsEntries { names: Seq::empty(), inode_numbers: Seq::empty() }
}

/// Entries after another one was added. The entries for the directory and its parent do not count.
pub open spec fn add_entry(entries: XfsEntries, name: Seq<char>, inode_number: u64) -> XfsEntries {
    if name == seq!['.'] || name == seq!['.', '.'] {
        entries
    } else {
        XfsEntries {
            names: entries.names.push(name),
            inode_numbers: entries.inode_numbers.push(inode_number),
        }
    }
}

/// The entries of a directory that is stored in its inode from `index` on, after those before it.
pub open spec fn inline_entries_from(
    data: Seq<u8>,
    has_file_types: bool,
    inode_size: int,
    count: int,
    index: int,
    offset: int,
    entries: XfsEntries,
) -> Result<XfsEntries, DriverError>
    decreases count - index,
{
    let name_size = data[offset] as int;
    let inode_offset = offset + 3 + name_size + (if has_file_types {
        1int
    } else {
        0int
    });
    if index >= count {
        Ok(entries)
    } else if offset >= data.len() || inode_offset + inode_size > data.len() {
        Err(DriverError::OutOfBounds)
    } else {
        let number = if inode_size == 4 {
            u32_be(data, inode_offset) as u64
        } else {
            u64_be(data, inode_offset)
        };
        inline_entries_from(
            data,
            has_file_types,
            inode_size,
            count,
            index + 1,
            inode_offset + inode_size,
            add_entry(
                entries,
                stored_text(data, offset + 3, offset + 3 + name_size),
                number % XFS_INODE_NUMBER_LIMIT,
            ),
        )
    }
}

/// The entries of a directory that is stored in its inode. Inode numbers have either 32 or 64 bits.
pub open spec fn inline_entries(data: Seq<u8>, has_file_types: bool) -> Result<
    XfsEntries,
    DriverError,
> {
    if data.len() < 2 || (data[0] != 0 && data[1] != 0) {
        Err(DriverError::Unsupported)
    } else if data[1] == 0 {
        inline_entries_from(data, has_file_types, 4, data[0] as int, 0, 6, no_entries())
    } else {
        inline_entries_from(data, has_file_types, 8, data[1] as int, 0, 10, no_entries())
    }
}

/// What a directory block holds.
pub enum XfsDirectoryBlockKind {
    /// Entries behind a header of the given size, with a hash table behind them or not.
    Entries { header_size: int, has_footer: bool },
    /// Something else.
    Other,
}

/// What a directory block with a signature holds.
pub open spec fn block_kind(signature: u32) -> Option<XfsDirectoryBlockKind> {
    if signature == 0x5844_3242 {
        Some(XfsDirectoryBlockKind::Entries { header_size: 16, has_footer: true })
    } else if signature == 0x5844_3244 {
        Some(XfsDirectoryBlockKind::Entries { header_size: 16, has_footer: false })
    } else if signature == 0x5844_4233 {
        Some(XfsDirectoryBlockKind::Entries { header_size: 64, has_footer: true })
    } else if signature == 0x5844_4433 {
        Some(XfsDirectoryBlockKind::Entries { header_size: 64, has_footer: false })
    } else if signature == 0x5844_324c || signature == 0x5844_324e || signature == 0x5844_3246
        || signature == 0x5844_4c33 || signature == 0x5844_4e33 || signature == 0x5844_4633 {
        Some(XfsDirectoryBlockKind::Other)
    } else {
        None
    }
}

/// The size of an entry in a directory block, which is a multiple of eight.
pub open spec fn block_entry_size(name_size: u8, has_file_types: bool) -> int {
    8 * ((name_size + (if has_file_types {
        12int
    } else {
        11int
    }) + 7) / 8)
}

/// The size of the part of a directory block at an offset, and the entries after it. A part that is
/// not used is passed over.
pub open spec fn block_part(
    data: Seq<u8>,
    has_file_types: bool,
    offset: int,
    entries: XfsEntries,
) -> Result<(int, XfsEntries), DriverError> {
    if offset + 4 > data.len() {
        Err(DriverError::OutOfBounds)
    } else if u16_be(data, offset) == 0xffff {
        if u16_be(data, offset + 2) < 4 {
            Err(DriverError::Invalid)
        } else {
            Ok((u16_be(data, offset + 2) as int, entries))
        }
    } else if offset + 9 > data.len() || offset + 9 + data[offset + 8] > data.len() {
        Err(DriverError::OutOfBounds)
    } else {
        Ok(
            (
                block_entry_size(data[offset + 8], has_file_types),
                add_entry(
                    entries,
                    stored_text(data, offset + 9, offset + 9 + data[offset + 8]),
                    u64_be(data, offset) % XFS_INODE_NUMBER_LIMIT,
                ),
            ),
        )
    }
}

/// The entries in a directory block from an offset on, after those before it.
pub open spec fn block_entries_from(
    data: Seq<u8>,
    has_file_types: bool,
    end: int,
    offset: int,
    entries: XfsEntries,
) -> Result<XfsEntries, DriverError>
    decreases
        (if offset < end {
            end - offset
        } else {
            0
        }),
{
    if offset >= end {
        Ok(entries)
    } else {
        match block_part(data, has_file_types, offset, entries) {
            Err(error) => Err(error),
            Ok((size, more)) => block_entries_from(data, has_file_types, end, offset + size, more),
        }
    }
}

/// The entries after those of a directory block were added.
pub open spec fn add_block(data: Seq<u8>, has_file_types: bool, entries: XfsEntries) -> Result<
    XfsEntries,
    DriverError,
> {
    match block_kind(u32_be(data, 0)) {
        None => Err(DriverError::Unsupported),
        Some(XfsDirectoryBlockKind::Other) => Ok(entries),
        Some(XfsDirectoryBlockKind::Entries { header_size, has_footer }) => {
            let end = if has_footer {
                data.len() - 8 - 8 * u32_be(data, data.len() - 8)
            } else {
                data.len() as int
            };
            if end < 0 {
                Err(DriverError::OutOfBounds)
            } else {
                block_entries_from(data, has_file_types, end, header_size, entries)
            }
        },
    }
}

/// The offset in a directory from which on it holds no entries.
pub const XFS_DIRECTORY_LEAF_OFFSET: u64 = 0x8_0000_0000;

/// The entries after those of the directory blocks of a range from an offset on were added.
pub open spec fn add_range_from(
    content: Content,
    geometry: XfsGeometry,
    range: XfsBlockRange,
    offset: int,
    entries: XfsEntries,
) -> Result<XfsEntries, DriverError>
    decreases range.number_of_blocks * geometry.block_size - offset,
{
    let start = range.physical_block_number * geometry.block_size;
    if offset < 0 || geometry.directory_block_size == 0 || offset + geometry.directory_block_size
        > range.number_of_blocks * geometry.block_size || range.logical_block_number
        * geometry.block_size + offset >= XFS_DIRECTORY_LEAF_OFFSET {
        Ok(entries)
    } else if start + offset > u64::MAX {
        Err(DriverError::Overflow)
    } else {
        match content.exact(start + offset, geometry.directory_block_size as nat) {
            Err(error) => Err(error),
            Ok(data) => match add_block(data, geometry.has_file_types, entries) {
                Err(error) => Err(error),
                Ok(more) => add_range_from(
                    content,
                    geometry,
                    range,
                    offset + geometry.directory_block_size,
                    more,
                ),
            },
        }
    }
}

/// The entries after those of a range were added. A range without data is passed over.
pub open spec fn add_range(
    content: Content,
    geometry: XfsGeometry,
    range: XfsBlockRange,
    entries: XfsEntries,
) -> Result<XfsEntries, DriverError> {
    if range.is_sparse || range.number_of_blocks == 0 || range.logical_block_number
        >= XFS_DIRECTORY_LEAF_OFFSET {
        Ok(entries)
    } else if range.physical_block_number * geometry.block_size > u64::MAX {
        Err(DriverError::Overflow)
    } else {
        add_range_from(content, geometry, range, 0, entries)
    }
}

/// The entries after those of the ranges from `index` on were added.
pub open spec fn add_ranges(
    content: Content,
    geometry: XfsGeometry,
    ranges: Seq<XfsBlockRange>,
    index: int,
    entries: XfsEntries,
) -> Result<XfsEntries, DriverError>
    decreases ranges.len() - index,
{
    if index >= ranges.len() {
        Ok(entries)
    } else {
        match add_range(content, geometry, ranges[index], entries) {
            Err(error) => Err(error),
            Ok(more) => add_ranges(content, geometry, ranges, index + 1, more),
        }
    }
}

/// The entries of several directory blocks, one after another, behind other ones.
pub open spec fn joined_blocks(entries: XfsEntries, blocks: Seq<XfsEntries>) -> XfsEntries
    decreases blocks.len(),
{
    if blocks.len() == 0 {
        entries
    } else {
        joined_entries(joined_blocks(entries, blocks.drop_last()), blocks.last())
    }
}

/// Whether a directory block adds entries, whatever entries there are before it.
#[verifier::opaque]
pub open spec fn block_adds(data: Seq<u8>, has_file_types: bool, added: XfsEntries) -> bool {
    forall|entries: XfsEntries|
        #[trigger] add_block(data, has_file_types, entries) == Ok::<XfsEntries, DriverError>(
            joined_entries(entries, added),
        )
}

/// Whether the directory block at an offset adds entries.
pub open spec fn holds_block(
    content: Content,
    geometry: XfsGeometry,
    offset: int,
    added: XfsEntries,
) -> bool {
    &&& content.has(offset, geometry.directory_block_size as int)
    &&& block_adds(
        content.window(offset, geometry.directory_block_size as nat),
        geometry.has_file_types,
        added,
    )
}

proof fn lemma_range_step(
    content: Content,
    geometry: XfsGeometry,
    range: XfsBlockRange,
    offset: int,
    entries: XfsEntries,
    added: XfsEntries,
)
    requires
        0 < geometry.directory_block_size,
        0 <= offset,
        offset + geometry.directory_block_size <= range.number_of_blocks * geometry.block_size,
        range.logical_block_number * geometry.block_size + offset < XFS_DIRECTORY_LEAF_OFFSET,
        range.physical_block_number * geometry.block_size + offset <= u64::MAX,
        holds_block(
            content,
            geometry,
            range.physical_block_number * geometry.block_size + offset,
            added,
        ),
    ensures
        add_range_from(content, geometry, range, offset, entries) == add_range_from(
            content,
            geometry,
            range,
            offset + geometry.directory_block_size,
            joined_entries(entries, added),
        ),
{
    reveal(block_adds);
    let data = content.window(
        range.physical_block_number * geometry.block_size + offset,
        geometry.directory_block_size as nat,
    );
    let more = add_block(data, geometry.has_file_types, entries);
    assert(more == Ok::<XfsEntries, DriverError>(joined_entries(entries, added)));
}

/// The directory blocks of a range follow each other from its physical block on, and the entries of
/// each of them are added in that order.
pub proof fn lemma_range_blocks(
    content: Content,
    geometry: XfsGeometry,
    range: XfsBlockRange,
    blocks: Seq<XfsEntries>,
    entries: XfsEntries,
)
    requires
        !range.is_sparse,
        0 < geometry.block_size,
        0 < geometry.directory_block_size,
        range.number_of_blocks * geometry.block_size == blocks.len()
            * geometry.directory_block_size,
        (range.logical_block_number + range.number_of_blocks) * geometry.block_size
            <= XFS_DIRECTORY_LEAF_OFFSET,
        (range.physical_block_number + range.number_of_blocks) * geometry.block_size <= u64::MAX,
        forall|i: int|
            0 <= i < blocks.len() ==> holds_block(
                content,
                geometry,
                range.physical_block_number * geometry.block_size + i
                    * geometry.directory_block_size,
                #[trigger] blocks[i],
            ),
    ensures
        add_range(content, geometry, range, entries) == Ok::<XfsEntries, DriverError>(
            joined_blocks(entries, blocks),
        ),
{
    let first = range.logical_block_number as int;
    let count = range.number_of_blocks as int;
    let start = range.physical_block_number as int;
    let size = geometry.block_size as int;
    assert(first * size + count * size == (first + count) * size) by (nonlinear_arith);
    assert(start * size + count * size == (start + count) * size) by (nonlinear_arith);
    assert(first <= first * size && 0 <= count * size && 0 <= start * size) by (nonlinear_arith)
        requires
            0 < size,
            0 <= first,
            0 <= count,
            0 <= start,
    ;
    if count > 0 {
        assert(0 < count * size) by (nonlinear_arith)
            requires
                0 < size,
                0 < count,
        ;
        assert(blocks.take(0) =~= Seq::empty());
        lemma_range_blocks_from(content, geometry, range, blocks, entries, 0);
    } else {
        assert(blocks.len() == 0) by (nonlinear_arith)
            requires
                0 == blocks.len() * geometry.directory_block_size,
                0 < geometry.directory_block_size,
        ;
    }
}

proof fn lemma_range_blocks_from(
    content: Content,
    geometry: XfsGeometry,
    range: XfsBlockRange,
    blocks: Seq<XfsEntries>,
    entries: XfsEntries,
    index: int,
)
    requires
        0 < geometry.directory_block_size,
        0 <= index <= blocks.len(),
        range.number_of_blocks * geometry.block_size == blocks.len()
            * geometry.directory_block_size,
        range.logical_block_number * geometry.block_size + range.number_of_blocks
            * geometry.block_size <= XFS_DIRECTORY_LEAF_OFFSET,
        range.physical_block_number * geometry.block_size + range.number_of_blocks
            * geometry.block_size <= u64::MAX,
        forall|i: int|
            0 <= i < blocks.len() ==> holds_block(
                content,
                geometry,
                range.physical_block_number * geometry.block_size + i
                    * geometry.directory_block_size,
                #[trigger] blocks[i],
            ),
    ensures
        add_range_from(
            content,
            geometry,
            range,
            index * geometry.directory_block_size,
            joined_blocks(entries, blocks.take(index)),
        ) == Ok::<XfsEntries, DriverError>(joined_blocks(entries, blocks)),
    decreases blocks.len() - index,
{
    let size = geometry.directory_block_size as int;
    let count = blocks.len() as int;
    assert(0 <= index * size <= count * size) by (nonlinear_arith)
        requires
            0 < size,
            0 <= index <= count,
    ;
    assert((index + 1) * size == index * size + size) by (nonlinear_arith);
    let before = joined_blocks(entries, blocks.take(index));
    if index < count {
        assert((index + 1) * size <= count * size) by (nonlinear_arith)
            requires
                0 < size,
                index + 1 <= count,
        ;
        lemma_range_step(content, geometry, range, index * size, before, blocks[index]);
        assert(blocks.take(index + 1).drop_last() =~= blocks.take(index));
        lemma_range_blocks_from(content, geometry, range, blocks, entries, index + 1);
    } else {
        assert(blocks.take(index) =~= blocks);
    }
}

/// A part of a directory block.
pub enum XfsBlockPart {
    /// An entry.
    Used { name: Seq<char>, inode_number: int },
    /// Space that is not used.
    Unused { size: int },
}

/// Whether parts of a directory block are stored from an offset on, up to another one. An entry
/// holds the number of an inode in eight bytes, the size of its name and the name, a type in volumes
/// that have file types, and two bytes at its end. It takes up the smallest multiple of eight that
/// has room for all of that. Unused space starts with 0xffff and its size.
pub open spec fn holds_parts(
    data: Seq<u8>,
    has_file_types: bool,
    offset: int,
    end: int,
    parts: Seq<XfsBlockPart>,
) -> bool
    decreases parts.len(),
{
    if parts.len() == 0 {
        offset >= end
    } else {
        &&& 0 <= offset < end
        &&& match parts[0] {
            XfsBlockPart::Unused { size } => {
                &&& offset + 4 <= data.len()
                &&& holds_be(data, offset, 2, 0xffff)
                &&& holds_be(data, offset + 2, 2, size)
                &&& 4 <= size
                &&& holds_parts(data, has_file_types, offset + size, end, parts.skip(1))
            },
            XfsBlockPart::Used { name, inode_number } => {
                let name_size = encode_utf8(name).len() as int;
                &&& offset + 9 + name_size <= data.len()
                &&& inode_number < 0x100_0000_0000_0000
                &&& holds_be(data, offset, 8, inode_number)
                &&& holds_be(data, offset + 8, 1, name_size)
                &&& holds_text(data, offset + 9, offset + 9 + name_size, name)
                &&& holds_parts(
                    data,
                    has_file_types,
                    offset + aligned_size(
                        8 + 1 + name_size + 2 + if has_file_types {
                            1int
                        } else {
                            0int
                        },
                    ),
                    end,
                    parts.skip(1),
                )
            },
        }
    }
}

/// The smallest multiple of eight that has room for a number of bytes.
pub open spec fn aligned_size(size: int) -> int {
    if size % 8 == 0 {
        size
    } else {
        size + 8 - size % 8
    }
}

/// The entries among parts of a directory block, without those for the directory and its parent.
pub open spec fn used_parts(parts: Seq<XfsBlockPart>) -> XfsEntries
    decreases parts.len(),
{
    if parts.len() == 0 {
        XfsEntries { names: Seq::empty(), inode_numbers: Seq::empty() }
    } else {
        let rest = used_parts(parts.skip(1));
        match parts[0] {
            XfsBlockPart::Used { name, inode_number } => if is_proper_name(name) {
                XfsEntries {
                    names: seq![name] + rest.names,
                    inode_numbers: seq![inode_number as u64] + rest.inode_numbers,
                }
            } else {
                rest
            },
            XfsBlockPart::Unused { .. } => rest,
        }
    }
}

/// Entries with others behind them.
pub open spec fn joined_entries(first: XfsEntries, second: XfsEntries) -> XfsEntries {
    XfsEntries {
        names: first.names + second.names,
        inode_numbers: first.inode_numbers + second.inode_numbers,
    }
}

proof fn lemma_used_part(
    data: Seq<u8>,
    has_file_types: bool,
    offset: int,
    name: Seq<char>,
    inode_number: int,
    entries: XfsEntries,
)
    requires
        0 <= offset,
        offset + 9 + encode_utf8(name).len() <= data.len(),
        inode_number < 0x100_0000_0000_0000,
        holds_be(data, offset, 8, inode_number),
        holds_be(data, offset + 8, 1, encode_utf8(name).len() as int),
        holds_text(data, offset + 9, offset + 9 + encode_utf8(name).len(), name),
    ensures
        block_part(data, has_file_types, offset, entries) == Ok::<(int, XfsEntries), DriverError>(
            (
                aligned_size(
                    8 + 1 + encode_utf8(name).len() + 2 + if has_file_types {
                        1int
                    } else {
                        0int
                    },
                ),
                add_entry(entries, name, inode_number as u64),
            ),
        ),
{
    lemma_holds_be(data, offset, 8, inode_number);
    lemma_holds_be(data, offset + 8, 1, encode_utf8(name).len() as int);
    lemma_stored_text(data, offset + 9, offset + 9 + encode_utf8(name).len(), name);
    assert(u64_be(data, offset) == inode_number);
    assert(data[offset] == 0);
    assert(u16_be(data, offset) != 0xffff);
}

proof fn lemma_parts_stored(
    data: Seq<u8>,
    has_file_types: bool,
    offset: int,
    end: int,
    parts: Seq<XfsBlockPart>,
    entries: XfsEntries,
)
    requires
        holds_parts(data, has_file_types, offset, end, parts),
    ensures
        block_entries_from(data, has_file_types, end, offset, entries) == Ok::<
            XfsEntries,
            DriverError,
        >(joined_entries(entries, used_parts(parts))),
    decreases parts.len(),
{
    if parts.len() == 0 {
        let joined = joined_entries(entries, used_parts(parts));
        assert(joined.names =~= entries.names);
        assert(joined.inode_numbers =~= entries.inode_numbers);
    } else {
        let rest = used_parts(parts.skip(1));
        match parts[0] {
            XfsBlockPart::Unused { size } => {
                lemma_holds_be(data, offset, 2, 0xffff);
                lemma_holds_be(data, offset + 2, 2, size);
                lemma_parts_stored(
                    data,
                    has_file_types,
                    offset + size,
                    end,
                    parts.skip(1),
                    entries,
                );
            },
            XfsBlockPart::Used { name, inode_number } => {
                let name_size = encode_utf8(name).len() as int;
                lemma_used_part(data, has_file_types, offset, name, inode_number, entries);
                let more = add_entry(entries, name, inode_number as u64);
                let size = aligned_size(
                    8 + 1 + name_size + 2 + if has_file_types {
                        1int
                    } else {
                        0int
                    },
                );
                lemma_parts_stored(
                    data,
                    has_file_types,
                    offset + size,
                    end,
                    parts.skip(1),
                    more,
                );
                let joined = joined_entries(entries, used_parts(parts));
                let found = joined_entries(more, rest);
                assert(found.names =~= joined.names);
                assert(found.inode_numbers =~= joined.inode_numbers);
            },
        }
    }
}

/// Whether a directory block starts with a signature of four characters.
pub open spec fn has_signature(data: Seq<u8>, a: u8, b: u8, c: u8, d: u8) -> bool {
    data[0] == a && data[1] == b && data[2] == c && data[3] == d
}

/// Every entry that is stored in a directory block is added, in order. The blocks "XD2B" and "XD2D"
/// have a header of 16 bytes, "XDB3" and "XDD3" one of 64 bytes. Behind the entries of "XD2B" and
/// "XDB3" stand a table of as many 8-byte elements as the four bytes before the last four say, and
/// eight bytes; the entries of the others fill the block.
pub proof fn lemma_block_entries(
    data: Seq<u8>,
    has_file_types: bool,
    parts: Seq<XfsBlockPart>,
    table_length: int,
    entries: XfsEntries,
)
    requires
        64 <= data.len(),
        ({
            let table_end = data.len() - 8 - 8 * table_length;
            ||| {
                &&& has_signature(data, 0x58, 0x44, 0x32, 0x42)
                &&& holds_be(data, data.len() - 8, 4, table_length)
                &&& 0 <= table_end
                &&& holds_parts(data, has_file_types, 16, table_end, parts)
            }
            ||| {
                &&& has_signature(data, 0x58, 0x44, 0x42, 0x33)
                &&& holds_be(data, data.len() - 8, 4, table_length)
                &&& 0 <= table_end
                &&& holds_parts(data, has_file_types, 64, table_end, parts)
            }
            ||| {
                &&& has_signature(data, 0x58, 0x44, 0x32, 0x44)
                &&& holds_parts(data, has_file_types, 16, data.len() as int, parts)
            }
            ||| {
                &&& has_signature(data, 0x58, 0x44, 0x44, 0x33)
                &&& holds_parts(data, has_file_types, 64, data.len() as int, parts)
            }
        }),
    ensures
        add_block(data, has_file_types, entries) == Ok::<XfsEntries, DriverError>(
            joined_entries(entries, used_parts(parts)),
        ),
{
    broadcast use crate::bytes::lemma_holds_be;

    let table_end = data.len() - 8 - 8 * table_length;
    if has_signature(data, 0x58, 0x44, 0x32, 0x42) {
        lemma_parts_stored(data, has_file_types, 16, table_end, parts, entries);
    } else if has_signature(data, 0x58, 0x44, 0x42, 0x33) {
        lemma_parts_stored(data, has_file_types, 64, table_end, parts, entries);
    } else if has_signature(data, 0x58, 0x44, 0x32, 0x44) {
        lemma_parts_stored(data, has_file_types, 16, data.len() as int, parts, entries);
    } else {
        lemma_parts_stored(data, has_file_types, 64, data.len() as int, parts, entries);
    }
}

/// Whether a block of a directory holds no entries: those of its hash tables and of its table of
/// free space, "XD2L", "XD2N", "XD2F", "XDL3", "XDN3" and "XDF3".
pub open spec fn has_table_signature(data: Seq<u8>) -> bool {
    ||| has_signature(data, 0x58, 0x44, 0x32, 0x4c)
    ||| has_signature(data, 0x58, 0x44, 0x32, 0x4e)
    ||| has_signature(data, 0x58, 0x44, 0x32, 0x46)
    ||| has_signature(data, 0x58, 0x44, 0x4c, 0x33)
    ||| has_signature(data, 0x58, 0x44, 0x4e, 0x33)
    ||| has_signature(data, 0x58, 0x44, 0x46, 0x33)
}

/// A block with a table adds nothing, and a block with another signature is refused.
pub proof fn lemma_other_block(data: Seq<u8>, has_file_types: bool, entries: XfsEntries)
    requires
        !has_signature(data, 0x58, 0x44, 0x32, 0x42),
        !has_signature(data, 0x58, 0x44, 0x42, 0x33),
        !has_signature(data, 0x58, 0x44, 0x32, 0x44),
        !has_signature(data, 0x58, 0x44, 0x44, 0x33),
    ensures
        add_block(data, has_file_types, entries) == (if has_table_signature(data) {
            Ok(entries)
        } else {
            Err::<XfsEntries, DriverError>(DriverError::Unsupported)
        }),
{
}

/// Entries that are stored in an inode: for each the size of its name, two bytes, the name, a type
/// in volumes that have file types, and the number of an inode in as many bytes as given.
pub open spec fn holds_inline(
    data: Seq<u8>,
    has_file_types: bool,
    inode_size: nat,
    offset: int,
    names: Seq<Seq<char>>,
    numbers: Seq<int>,
) -> bool
    decreases names.len(),
{
    if names.len() == 0 {
        true
    } else {
        let name_size = encode_utf8(names[0]).len() as int;
        let number_at = offset + 1 + 2 + name_size + if has_file_types {
            1int
        } else {
            0int
        };
        &&& 0 <= offset
        &&& number_at + inode_size <= data.len()
        &&& 0 <= numbers[0] < 0x100_0000_0000_0000
        &&& holds_be(data, offset, 1, name_size)
        &&& holds_text(data, offset + 3, offset + 3 + name_size, names[0])
        &&& holds_be(data, number_at, inode_size, numbers[0])
        &&& holds_inline(
            data,
            has_file_types,
            inode_size,
            number_at + inode_size,
            names.skip(1),
            numbers.skip(1),
        )
    }
}

proof fn lemma_inline_stored(
    data: Seq<u8>,
    has_file_types: bool,
    inode_size: nat,
    count: int,
    index: int,
    offset: int,
    names: Seq<Seq<char>>,
    numbers: Seq<int>,
    entries: XfsEntries,
)
    requires
        inode_size == 4 || inode_size == 8,
        names.len() == numbers.len(),
        count - index == names.len(),
        are_proper_names(names),
        holds_inline(data, has_file_types, inode_size, offset, names, numbers),
    ensures
        inline_entries_from(
            data,
            has_file_types,
            inode_size as int,
            count,
            index,
            offset,
            entries,
        ) == Ok::<XfsEntries, DriverError>(
            XfsEntries {
                names: entries.names + names,
                inode_numbers: entries.inode_numbers + numbers.map_values(|n: int| n as u64),
            },
        ),
    decreases names.len(),
{
    broadcast use crate::bytes::lemma_holds_be, crate::text::lemma_stored_text;

    let all = numbers.map_values(|n: int| n as u64);
    if names.len() == 0 {
        assert(entries.names + names =~= entries.names);
        assert(entries.inode_numbers + all =~= entries.inode_numbers);
    } else {
        let name_size = encode_utf8(names[0]).len() as int;
        let number_at = offset + 3 + name_size + if has_file_types {
            1int
        } else {
            0int
        };
        assert(data[offset] == name_size);
        assert(is_proper_name(names[0]));
        assert forall|i: int| 0 <= i < names.skip(1).len() implies is_proper_name(
            #[trigger] names.skip(1)[i],
        ) by {
            assert(names.skip(1)[i] == names[i + 1]);
        }
        let more = add_entry(entries, names[0], numbers[0] as u64);
        lemma_inline_stored(
            data,
            has_file_types,
            inode_size,
            count,
            index + 1,
            number_at + inode_size,
            names.skip(1),
            numbers.skip(1),
            more,
        );
        let rest = numbers.skip(1).map_values(|n: int| n as u64);
        assert(more.names + names.skip(1) =~= entries.names + names);
        assert(more.inode_numbers + rest =~= entries.inode_numbers + all);
    }
}

/// Every entry that is stored in an inode is found, in order. The number of entries stands in the
/// first byte where the numbers of inodes have 32 bits, and in the second one where they have 64.
/// The number of the parent directory follows.
pub proof fn lemma_inline_entries(
    data: Seq<u8>,
    has_file_types: bool,
    names: Seq<Seq<char>>,
    numbers: Seq<int>,
)
    requires
        2 <= data.len(),
        names.len() == numbers.len(),
        are_proper_names(names),
        ({
            ||| {
                &&& data[0] == names.len()
                &&& data[1] == 0
                &&& holds_inline(data, has_file_types, 4, 6, names, numbers)
            }
            ||| {
                &&& data[0] == 0
                &&& data[1] == names.len()
                &&& data[1] != 0
                &&& holds_inline(data, has_file_types, 8, 10, names, numbers)
            }
        }),
    ensures
        inline_entries(data, has_file_types) == Ok::<XfsEntries, DriverError>(
            XfsEntries { names, inode_numbers: numbers.map_values(|n: int| n as u64) },
        ),
{
    let all = numbers.map_values(|n: int| n as u64);
    assert(Seq::<Seq<char>>::empty() + names =~= names);
    assert(Seq::<u64>::empty() + all =~= all);
    if data[1] == 0 {
        lemma_inline_stored(
            data,
            has_file_types,
            4,
            names.len() as int,
            0,
            6,
            names,
            numbers,
            no_entries(),
        );
    } else {
        lemma_inline_stored(
            data,
            has_file_types,
            8,
            names.len() as int,
            0,
            10,
            names,
            numbers,
            no_entries(),
        );
    }
}

/// XFS directory.
pub struct XfsDirectory {
    pub names: Vec<Vec<char>>,
    pub inode_numbers: Vec<u64>,
}

impl XfsDirectory {
    /// The entries of the directory.
    pub open spec fn view(&self) -> XfsEntries {
        XfsEntries { names: texts_view(self.names@), inode_numbers: self.inode_numbers@ }
    }

    /// Whether there is an inode number for each name.
    pub open spec fn is_sound(&self) -> bool {
        self.names@.len() == self.inode_numbers@.len()
    }

    pub(crate) fn new() -> (directory: Self)
        ensures
            directory@ == no_entries(),
            directory.is_sound(),
    {
        let directory = XfsDirectory { names: Vec::new(), inode_numbers: Vec::new() };
        assert(directory@.names =~= Seq::<Seq<char>>::empty());
        assert(directory@.inode_numbers =~= Seq::<u64>::empty());
        directory
    }

    fn add(self, name: Vec<char>, inode_number: u64) -> (directory: Self)
        requires
            self.is_sound(),
        ensures
            directory@ == add_entry(self@, name@, inode_number),
            directory.is_sound(),
    {
        proof {
            assert(name@ == seq!['.'] <==> name@.len() == 1 && name@[0] == '.') by {
                if name@.len() == 1 && name@[0] == '.' {
                    assert(name@ =~= seq!['.']);
                }
            }
            assert(name@ == seq!['.', '.'] <==> name@.len() == 2 && name@[0] == '.' && name@[1]
                == '.') by {
                if name@.len() == 2 && name@[0] == '.' && name@[1] == '.' {
                    assert(name@ =~= seq!['.', '.']);
                }
            }
        }
        if (name.len() == 1 && name[0] == '.') || (name.len() == 2 && name[0] == '.' && name[1]
            == '.') {
            return self;
        }
        let mut directory = self;
        directory.names.push(name);
        directory.inode_numbers.push(inode_number);
        assert(directory@.names =~= self@.names.push(name@));
        directory
    }

    /// Reads the entries of a directory that is stored in its inode.
    pub(crate) fn read_inline(data: &[u8], has_file_types: bool) -> (result: Result<
        Self,
        DriverError,
    >)
        ensures
            match result {
                Ok(directory) => {
                    &&& inline_entries(data@, has_file_types) == Ok::<XfsEntries, DriverError>(
                        directory@,
                    )
                    &&& directory.is_sound()
                },
                Err(error) => inline_entries(data@, has_file_types) == Err::<
                    XfsEntries,
                    DriverError,
                >(error),
            },
    {
        let length: usize = data.len();
        if length < 2 || (data[0] != 0 && data[1] != 0) {
            return Err(DriverError::Unsupported);
        }
        let wide: bool = data[1] != 0;
        let inode_size: usize = if wide {
            8
        } else {
            4
        };
        let count: u8 = if wide {
            data[1]
        } else {
            data[0]
        };
        let mut offset: usize = if wide {
            10
        } else {
            6
        };
        let type_size: usize = if has_file_types {
            1
        } else {
            0
        };
        let mut directory = XfsDirectory::new();
        let mut index: u8 = 0;
        while index < count
            invariant
                index <= count,
                length == data@.len(),
                inode_size == 4 || inode_size == 8,
                type_size == (if has_file_types {
                    1int
                } else {
                    0int
                }),
                inline_entries(data@, has_file_types) == inline_entries_from(
                    data@,
                    has_file_types,
                    inode_size as int,
                    count as int,
                    index as int,
                    offset as int,
                    directory@,
                ),
                directory.is_sound(),
            decreases count - index,
        {
            if offset >= length {
                return Err(DriverError::OutOfBounds);
            }
            let name_size: usize = data[offset] as usize;
            let fixed_size: usize = 3 + name_size + type_size + inode_size;
            if fixed_size > length - offset {
                return Err(DriverError::OutOfBounds);
            }
            let name: String = read_stored_text(data, offset + 3, offset + 3 + name_size);
            let inode_offset: usize = offset + 3 + name_size + type_size;
            let number: u64 = if inode_size == 4 {
                read_u32_be(data, inode_offset) as u64
            } else {
                read_u64_be(data, inode_offset)
            };
            directory =
            directory.add(text_chars(name.as_str()), number % XFS_INODE_NUMBER_LIMIT);
            offset = inode_offset + inode_size;
            index += 1;
        }
        Ok(directory)
    }

    fn read_block(self, data: &[u8], has_file_types: bool) -> (result: Result<Self, DriverError>)
        requires
            512 <= data@.len(),
            self.is_sound(),
        ensures
            match result {
                Ok(directory) => {
                    &&& add_block(data@, has_file_types, self@) == Ok::<XfsEntries, DriverError>(
                        directory@,
                    )
                    &&& directory.is_sound()
                },
                Err(error) => add_block(data@, has_file_types, self@) == Err::<
                    XfsEntries,
                    DriverError,
                >(error),
            },
    {
        let length: usize = data.len();
        let signature: u32 = read_u32_be(data, 0);
        let header_size: usize;
        let has_footer: bool;
        if signature == 0x5844_3242 {
            header_size = 16;
            has_footer = true;
        } else if signature == 0x5844_3244 {
            header_size = 16;
            has_footer = false;
        } else if signature == 0x5844_4233 {
            header_size = 64;
            has_footer = true;
        } else if signature == 0x5844_4433 {
            header_size = 64;
            has_footer = false;
        } else if signature == 0x5844_324c || signature == 0x5844_324e || signature == 0x5844_3246
            || signature == 0x5844_4c33 || signature == 0x5844_4e33 || signature == 0x5844_4633 {
            return Ok(self);
        } else {
            return Err(DriverError::Unsupported);
        }
        let end: usize = if has_footer {
            let table_size: u64 = 8 + 8 * (read_u32_be(data, length - 8) as u64);
            if table_size > length as u64 {
                return Err(DriverError::OutOfBounds);
            }
            length - table_size as usize
        } else {
            length
        };
        self.read_block_entries(data, has_file_types, end, header_size)
    }

    fn read_block_entries(
        self,
        data: &[u8],
        has_file_types: bool,
        end: usize,
        start: usize,
    ) -> (result: Result<Self, DriverError>)
        requires
            end <= data@.len(),
            self.is_sound(),
        ensures
            match result {
                Ok(directory) => {
                    &&& block_entries_from(
                        data@,
                        has_file_types,
                        end as int,
                        start as int,
                        self@,
                    ) == Ok::<XfsEntries, DriverError>(directory@)
                    &&& directory.is_sound()
                },
                Err(error) => block_entries_from(
                    data@,
                    has_file_types,
                    end as int,
                    start as int,
                    self@,
                ) == Err::<XfsEntries, DriverError>(error),
            },
    {
        let ghost whole = block_entries_from(
            data@,
            has_file_types,
            end as int,
            start as int,
            self@,
        );
        let mut directory = self;
        let mut offset: usize = start;
        while offset < end
            invariant
                end <= data@.len(),
                whole == block_entries_from(
                    data@,
                    has_file_types,
                    end as int,
                    start as int,
                    self@,
                ),
                whole == block_entries_from(
                    data@,
                    has_file_types,
                    end as int,
                    offset as int,
                    directory@,
                ),
                directory.is_sound(),
            decreases end - offset,
        {
            let (size, more) = directory.read_block_part(data, has_file_types, offset)?;
            if size >= end - offset {
                assert(block_entries_from(
                    data@,
                    has_file_types,
                    end as int,
                    offset + size,
                    more@,
                ) == Ok::<XfsEntries, DriverError>(more@));
                return Ok(more);
            }
            directory = more;
            offset = offset + size;
        }
        Ok(directory)
    }

    fn read_block_part(self, data: &[u8], has_file_types: bool, offset: usize) -> (result: Result<
        (usize, Self),
        DriverError,
    >)
        requires
            offset <= data@.len(),
            self.is_sound(),
        ensures
            match result {
                Ok((size, directory)) => {
                    &&& block_part(data@, has_file_types, offset as int, self@) == Ok::<
                        (int, XfsEntries),
                        DriverError,
                    >((size as int, directory@))
                    &&& directory.is_sound()
                    &&& size > 0
                },
                Err(error) => block_part(data@, has_file_types, offset as int, self@) == Err::<
                    (int, XfsEntries),
                    DriverError,
                >(error),
            },
    {
        let length: usize = data.len();
        if length - offset < 4 {
            return Err(DriverError::OutOfBounds);
        }
        if read_u16_be(data, offset) == 0xffff {
            let size: usize = read_u16_be(data, offset + 2) as usize;
            if size < 4 {
                return Err(DriverError::Invalid);
            }
            return Ok((size, self));
        }
        if length - offset < 9 {
            return Err(DriverError::OutOfBounds);
        }
        let name_size: usize = data[offset + 8] as usize;
        if length - offset - 9 < name_size {
            return Err(DriverError::OutOfBounds);
        }
        let name: String = read_stored_text(data, offset + 9, offset + 9 + name_size);
        let number: u64 = read_u64_be(data, offset) % XFS_INODE_NUMBER_LIMIT;
        let fixed_size: usize = if has_file_types {
            12
        } else {
            11
        };
        let size: usize = 8 * ((name_size + fixed_size + 7) / 8);
        Ok((size, self.add(text_chars(name.as_str()), number)))
    }

    fn read_range(
        self,
        source: &DataSourceReference,
        geometry: &XfsGeometry,
        range: &XfsBlockRange,
    ) -> (result: Result<Self, DriverError>)
        requires
            geometry.is_usable(),
            self.is_sound(),
            range.number_of_blocks <= 0x20_0000,
        ensures
            match result {
                Ok(directory) => {
                    &&& add_range(source.content(), *geometry, *range, self@) == Ok::<
                        XfsEntries,
                        DriverError,
                    >(directory@)
                    &&& directory.is_sound()
                },
                Err(error) => source.reliable() ==> add_range(
                    source.content(),
                    *geometry,
                    *range,
                    self@,
                ) == Err::<XfsEntries, DriverError>(error),
            },
    {
        if range.is_sparse || range.number_of_blocks == 0 || range.logical_block_number
            >= XFS_DIRECTORY_LEAF_OFFSET {
            return Ok(self);
        }
        let ghost content = source.content();
        let block_size: u64 = geometry.block_size as u64;
        let step: u64 = geometry.directory_block_size as u64;
        let start: u64 = range.physical_block_number.checked_mul(block_size).ok_or(
            DriverError::Overflow,
        )?;
        proof {
            assert(0 <= range.number_of_blocks * block_size <= 0x20_0000 * 65536)
                by (nonlinear_arith)
                requires
                    0 <= range.number_of_blocks <= 0x20_0000,
                    0 <= block_size <= 65536,
            ;
            assert(0 <= range.logical_block_number * block_size <= 0x8_0000_0000 * 65536)
                by (nonlinear_arith)
                requires
                    0 <= range.logical_block_number <= 0x8_0000_0000,
                    0 <= block_size <= 65536,
            ;
        }
        let size: u64 = range.number_of_blocks * block_size;
        let logical_offset: u64 = range.logical_block_number * block_size;
        let ghost whole = add_range_from(content, *geometry, *range, 0, self@);
        let mut directory = self;
        let mut offset: u64 = 0;
        while offset + step <= size && logical_offset + offset < XFS_DIRECTORY_LEAF_OFFSET
            invariant
                content == source.content(),
                geometry.is_usable(),
                step == geometry.directory_block_size,
                size == range.number_of_blocks * geometry.block_size,
                size <= 0x20_0000 * 65536,
                logical_offset == range.logical_block_number * geometry.block_size,
                logical_offset <= 0x8_0000_0000 * 65536,
                start == range.physical_block_number * geometry.block_size,
                offset <= size,
                whole == add_range_from(content, *geometry, *range, 0, self@),
                whole == add_range_from(content, *geometry, *range, offset as int, directory@),
                add_range(content, *geometry, *range, self@) == whole,
                directory.is_sound(),
            decreases size - offset,
        {
            let block_offset: u64 = start.checked_add(offset).ok_or(DriverError::Overflow)?;
            let data: Vec<u8> = read_bytes(
                source,
                block_offset,
                geometry.directory_block_size as usize,
            )?;
            directory = directory.read_block(data.as_slice(), geometry.has_file_types)?;
            offset = offset + step;
        }
        Ok(directory)
    }

    /// Reads the entries of a directory that is stored in ranges of blocks.
    pub(crate) fn read_ranges(
        source: &DataSourceReference,
        geometry: &XfsGeometry,
        ranges: &Vec<XfsBlockRange>,
    ) -> (result: Result<Self, DriverError>)
        requires
            geometry.is_usable(),
            forall|i: int|
                0 <= i < ranges@.len() ==> (#[trigger] ranges@[i]).number_of_blocks <= 0x20_0000,
        ensures
            match result {
                Ok(directory) => {
                    &&& add_ranges(source.content(), *geometry, ranges@, 0, no_entries()) == Ok::<
                        XfsEntries,
                        DriverError,
                    >(directory@)
                    &&& directory.is_sound()
                },
                Err(error) => source.reliable() ==> add_ranges(
                    source.content(),
                    *geometry,
                    ranges@,
                    0,
                    no_entries(),
                ) == Err::<XfsEntries, DriverError>(error),
            },
    {
        let ghost content = source.content();
        let ghost whole = add_ranges(content, *geometry, ranges@, 0, no_entries());
        let mut directory = XfsDirectory::new();
        let mut index: usize = 0;
        while index < ranges.len()
            invariant
                index <= ranges@.len(),
                content == source.content(),
                geometry.is_usable(),
                forall|i: int|
                    0 <= i < ranges@.len() ==> (#[trigger] ranges@[i]).number_of_blocks
                        <= 0x20_0000,
                whole == add_ranges(content, *geometry, ranges@, 0, no_entries()),
                whole == add_ranges(content, *geometry, ranges@, index as int, directory@),
                directory.is_sound(),
            decreases ranges@.len() - index,
        {
            let range: XfsBlockRange = ranges[index];
            assert(ranges@[index as int].number_of_blocks <= 0x20_0000);
            directory = directory.read_range(source, geometry, &range)?;
            index += 1;
        }
        Ok(directory)
    }
}

proof fn lemma_add_proper(entries: XfsEntries, name: Seq<char>, inode_number: u64)
    requires
        are_proper_names(entries.names),
    ensures
        are_proper_names(add_entry(entries, name, inode_number).names),
{
    if is_proper_name(name) {
        lemma_proper_names_push(entries.names, name);
    }
}

proof fn lemma_inline_from_proper(
    data: Seq<u8>,
    has_file_types: bool,
    inode_size: int,
    count: int,
    index: int,
    offset: int,
    entries: XfsEntries,
)
    requires
        are_proper_names(entries.names),
    ensures
        inline_entries_from(data, has_file_types, inode_size, count, index, offset, entries)
            matches Ok(all) ==> are_proper_names(all.names),
    decreases count - index,
{
    let name_size = data[offset] as int;
    let inode_offset = offset + 3 + name_size + (if has_file_types {
        1int
    } else {
        0int
    });
    if index < count {
        let number = if inode_size == 4 {
            u32_be(data, inode_offset) as u64
        } else {
            u64_be(data, inode_offset)
        };
        let name = stored_text(data, offset + 3, offset + 3 + name_size);
        lemma_add_proper(entries, name, number % XFS_INODE_NUMBER_LIMIT);
        lemma_inline_from_proper(
            data,
            has_file_types,
            inode_size,
            count,
            index + 1,
            inode_offset + inode_size,
            add_entry(entries, name, number % XFS_INODE_NUMBER_LIMIT),
        );
    }
}

/// The entries of a directory that is stored in its inode have proper names.
pub proof fn lemma_inline_entries_proper(data: Seq<u8>, has_file_types: bool)
    ensures
        inline_entries(data, has_file_types) matches Ok(all) ==> are_proper_names(all.names),
{
    lemma_inline_from_proper(data, has_file_types, 4, data[0] as int, 0, 6, no_entries());
    lemma_inline_from_proper(data, has_file_types, 8, data[1] as int, 0, 10, no_entries());
}

proof fn lemma_block_proper(
    data: Seq<u8>,
    has_file_types: bool,
    end: int,
    offset: int,
    entries: XfsEntries,
)
    requires
        are_proper_names(entries.names),
    ensures
        block_entries_from(data, has_file_types, end, offset, entries) matches Ok(all)
            ==> are_proper_names(all.names),
    decreases
            (if offset < end {
                end - offset
            } else {
                0
            }),
{
    if offset < end {
        lemma_add_proper(
            entries,
            stored_text(data, offset + 9, offset + 9 + data[offset + 8]),
            u64_be(data, offset) % XFS_INODE_NUMBER_LIMIT,
        );
        if let Ok((size, more)) = block_part(data, has_file_types, offset, entries) {
            lemma_block_proper(data, has_file_types, end, offset + size, more);
        }
    }
}

proof fn lemma_range_proper(
    content: Content,
    geometry: XfsGeometry,
    range: XfsBlockRange,
    offset: int,
    entries: XfsEntries,
)
    requires
        are_proper_names(entries.names),
    ensures
        add_range_from(content, geometry, range, offset, entries) matches Ok(all)
            ==> are_proper_names(all.names),
    decreases range.number_of_blocks * geometry.block_size - offset,
{
    let start = range.physical_block_number * geometry.block_size;
    if !(offset < 0 || geometry.directory_block_size == 0 || offset + geometry.directory_block_size
        > range.number_of_blocks * geometry.block_size) {
        if let Ok(data) = content.exact(start + offset, geometry.directory_block_size as nat) {
            if let Some(XfsDirectoryBlockKind::Entries { header_size, has_footer }) = block_kind(
                u32_be(data, 0),
            ) {
                let end = if has_footer {
                    data.len() - 8 - 8 * u32_be(data, data.len() - 8)
                } else {
                    data.len() as int
                };
                lemma_block_proper(data, geometry.has_file_types, end, header_size, entries);
            }
            if let Ok(more) = add_block(data, geometry.has_file_types, entries) {
                lemma_range_proper(
                    content,
                    geometry,
                    range,
                    offset + geometry.directory_block_size,
                    more,
                );
            }
        }
    }
}

/// The entries of a directory that is stored in blocks have proper names.
pub proof fn lemma_ranges_proper(
    content: Content,
    geometry: XfsGeometry,
    ranges: Seq<XfsBlockRange>,
    index: int,
    entries: XfsEntries,
)
    requires
        are_proper_names(entries.names),
    ensures
        add_ranges(content, geometry, ranges, index, entries) matches Ok(all) ==> are_proper_names(
            all.names,
        ),
    decreases ranges.len() - index,
{
    if index < ranges.len() {
        lemma_range_proper(content, geometry, ranges[index], 0, entries);
        if let Ok(more) = add_range(content, geometry, ranges[index], entries) {
            lemma_ranges_proper(content, geometry, ranges, index + 1, more);
        }
    }
}

} // verus!
