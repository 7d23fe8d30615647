//! Ext superblock and group descriptors.

use vstd::arithmetic::power2::pow2;
use vstd::prelude::*;

use crate::bytes::{holds_le, lemma_holds_le, read_u16_le, read_u32_le, u16_le, u32_le};
use crate::error::DriverError;
use crate::powers::{lemma_power_below, power_of_two};
use crate::source::data_source::{
    lemma_holds_in, read_bytes, Content, DataSource, DataSourceReference,
};
use crate::text::{holds_text, lemma_stored_text, read_stored_text, stored_text, text_chars};

verus! {

/// What an ext file system says about itself.
#[derive(Clone, Copy, Debug, PartialEq, Eq, Structural)]
pub struct ExtGeometry {
    pub format_version: u8,
    pub block_size: u32,
    pub inode_size: u16,
    pub number_of_inodes: u32,
    pub number_of_inodes_per_block_group: u32,
    pub compatible_feature_flags: u32,
    pub incompatible_feature_flags: u32,
    pub read_only_compatible_feature_flags: u32,
}

impl ExtGeometry {
    /// Whether the sizes are within their limits.
    pub open spec fn is_usable(self) -> bool {
        &&& 1024 <= self.block_size <= 0x8000_0000
        &&& self.block_size % 4 == 0
        &&& 128 <= self.inode_size <= 2048
        &&& 0 < self.number_of_inodes_per_block_group
    }
}

/// The format version that feature flags call for.
pub open spec fn format_version_of(compatible: u32, incompatible: u32, read_only: u32) -> u8 {
    if compatible & 0x200 != 0 || incompatible & 0x1_f7c0 != 0 || read_only & 0x378 != 0 {
        4
    } else if compatible & 0x4 != 0 || incompatible & 0xc != 0 {
        3
    } else {
        2
    }
}

/// A file system without features is of format version 2. A journal, or a device for one, makes it one of
/// version 3. Extents, block numbers of 64 bits, flexible groups and the like make it one of version 4.
pub proof fn lemma_format_version(compatible: u32, incompatible: u32, read_only: u32)
    ensures
        format_version_of(0, 0, 0) == 2,
        2 <= format_version_of(compatible, incompatible, read_only) <= 4,
        compatible == 4 && incompatible & 0x1_f7c0 == 0 && read_only & 0x378 == 0
            ==> format_version_of(compatible, incompatible, read_only) == 3,
        incompatible & 0x40 != 0 ==> format_version_of(compatible, incompatible, read_only) == 4,
        incompatible & 0x80 != 0 ==> format_version_of(compatible, incompatible, read_only) == 4
            && has_64bit_support(incompatible),
        incompatible & 0x200 != 0 ==> format_version_of(compatible, incompatible, read_only) == 4,
        read_only & 0x8 != 0 ==> format_version_of(compatible, incompatible, read_only) == 4,
        read_only & 0x10 != 0 ==> format_version_of(compatible, incompatible, read_only) == 4,
        read_only & 0x20 != 0 ==> format_version_of(compatible, incompatible, read_only) == 4,
        read_only & 0x40 != 0 ==> format_version_of(compatible, incompatible, read_only) == 4,
{
    assert(0u32 & 0x200 == 0 && 0u32 & 0x1_f7c0 == 0 && 0u32 & 0x378 == 0 && 0u32 & 0x4 == 0 && 0u32
        & 0xc == 0) by (bit_vector);
    assert(4u32 & 0x200 == 0 && 4u32 & 0x4 == 4) by (bit_vector);
    assert(incompatible & 0x40 != 0 ==> incompatible & 0x1_f7c0 != 0) by (bit_vector);
    assert(incompatible & 0x80 != 0 ==> incompatible & 0x1_f7c0 != 0) by (bit_vector);
    assert(incompatible & 0x200 != 0 ==> incompatible & 0x1_f7c0 != 0) by (bit_vector);
    assert(read_only & 0x8 != 0 ==> read_only & 0x378 != 0) by (bit_vector);
    assert(read_only & 0x10 != 0 ==> read_only & 0x378 != 0) by (bit_vector);
    assert(read_only & 0x20 != 0 ==> read_only & 0x378 != 0) by (bit_vector);
    assert(read_only & 0x40 != 0 ==> read_only & 0x378 != 0) by (bit_vector);
}

/// Whether block numbers have 64 bits.
pub open spec fn has_64bit_support(incompatible: u32) -> bool {
    incompatible & 0x80 != 0
}

/// Whether feature flags call for what is not supported.
pub open spec fn has_unsupported_features(incompatible: u32) -> bool {
    incompatible & 0xeffc_d931 != 0
}

/// The number of blocks.
pub open spec fn block_count(data: Seq<u8>) -> int {
    u32_le(data, 4) + (if has_64bit_support(u32_le(data, 96)) {
        0x1_0000_0000 * u32_le(data, 336)
    } else {
        0
    })
}

/// Whether the values of a superblock are within their limits.
pub open spec fn is_valid_superblock(data: Seq<u8>) -> bool {
    &&& u32_le(data, 24) <= 21
    &&& block_count(data) > 0
    &&& u32_le(data, 32) > 0
    &&& u32_le(data, 40) > 0
    &&& u16_le(data, 88) == 128 || u16_le(data, 88) == 256 || u16_le(data, 88) == 512 || u16_le(
        data,
        88,
    ) == 1024 || u16_le(data, 88) == 2048
}

/// What a superblock says about the file system.
pub open spec fn geometry_in(data: Seq<u8>) -> ExtGeometry {
    ExtGeometry {
        format_version: format_version_of(
            u32_le(data, 92),
            u32_le(data, 96),
            u32_le(data, 100),
        ),
        block_size: (1024 * pow2(u32_le(data, 24) as nat)) as u32,
        inode_size: u16_le(data, 88),
        number_of_inodes: u32_le(data, 0),
        number_of_inodes_per_block_group: u32_le(data, 40),
        compatible_feature_flags: u32_le(data, 92),
        incompatible_feature_flags: u32_le(data, 96),
        read_only_compatible_feature_flags: u32_le(data, 100),
    }
}

/// The volume label, if there is one.
pub open spec fn label_in(data: Seq<u8>) -> Option<Seq<char>> {
    let label = stored_text(data, 120, 136);
    if label.len() == 0 {
        None
    } else {
        Some(label)
    }
}

/// The volume label that is stored in a superblock, filled up with zeros, is read back.
pub proof fn lemma_label_stored(data: Seq<u8>, label: Seq<char>)
    requires
        holds_text(data, 120, 136, label),
    ensures
        label_in(data) == (if label.len() == 0 {
            None
        } else {
            Some(label)
        }),
{
    lemma_stored_text(data, 120, 136, label);
}

/// The number of block groups.
pub open spec fn group_count(data: Seq<u8>) -> int {
    (block_count(data) + u32_le(data, 32) - 1) / u32_le(data, 32) as int
}

/// The size of a group descriptor.
pub open spec fn group_descriptor_size(data: Seq<u8>) -> int {
    if geometry_in(data).format_version == 4 && has_64bit_support(u32_le(data, 96)) {
        if u16_le(data, 254) > 64 {
            u16_le(data, 254) as int
        } else {
            64
        }
    } else {
        32
    }
}

/// The offset of the group descriptors.
pub open spec fn group_descriptors_offset(block_size: u32) -> u64 {
    if block_size == 1024 {
        2048
    } else {
        block_size as u64
    }
}

/// Whether a part of data holds zeros alone.
pub open spec fn is_empty(data: Seq<u8>, start: int, end: int) -> bool {
    forall|i: int| start <= i < end ==> data[i] == 0
}

/// The block number of the inode table in a group descriptor.
pub open spec fn inode_table_in(format_version: u8, data: Seq<u8>, offset: int, size: int) -> u64 {
    if format_version == 4 && size >= 44 {
        (u32_le(data, offset + 8) + 0x1_0000_0000 * u32_le(data, offset + 40)) as u64
    } else {
        u32_le(data, offset + 8) as u64
    }
}

/// The block numbers of the inode tables of the group descriptors from `index` on, after those
/// before them. An empty group descriptor ends them.
pub open spec fn inode_tables_from(
    format_version: u8,
    data: Seq<u8>,
    size: int,
    count: int,
    index: int,
    tables: Seq<u64>,
) -> Seq<u64>
    decreases count - index,
{
    if index >= count || is_empty(data, size * index, size * index + size) {
        tables
    } else {
        inode_tables_from(
            format_version,
            data,
            size,
            count,
            index + 1,
            tables.push(inode_table_in(format_version, data, size * index, size)),
        )
    }
}

/// What is known of a file system once it is open: what its superblock says, the block numbers of
/// its inode tables and its volume label.
pub open spec fn opened_volume(content: Content) -> Result<
    (ExtGeometry, Seq<u64>, Option<Seq<char>>),
    DriverError,
> {
    match content.exact(1024, 1024) {
        Err(error) => Err(error),
        Ok(data) => {
            let geometry = geometry_in(data);
            let size = group_descriptor_size(data);
            if u16_le(data, 56) != 0xef53 {
                Err(DriverError::Unsupported)
            } else if !is_valid_superblock(data) {
                Err(DriverError::Invalid)
            } else if u32_le(data, 76) > 1 || has_unsupported_features(u32_le(data, 96)) {
                Err(DriverError::Unsupported)
            } else if size > 1024 {
                Err(DriverError::Invalid)
            } else if group_count(data) * size > 16777216 {
                Err(DriverError::Unsupported)
            } else {
                match content.exact(
                    group_descriptors_offset(geometry.block_size) as int,
                    (group_count(data) * size) as nat,
                ) {
                    Err(error) => Err(error),
                    Ok(descriptors) => Ok(
                        (
                            geometry,
                            inode_tables_from(
                                geometry.format_version,
                                descriptors,
                                size,
                                group_count(data),
                                0,
                                Seq::empty(),
                            ),
                            label_in(data),
                        ),
                    ),
                }
            }
        },
    }
}

/// Whether a superblock is stored: its values in little-endian order, behind each other. The size of
/// a block is a power of two, of which 1024 is the smallest.
pub open spec fn holds_superblock(
    data: Seq<u8>,
    geometry: ExtGeometry,
    block_bits: nat,
    blocks: int,
    blocks_per_group: int,
) -> bool {
    &&& 1024 <= data.len()
    &&& geometry.block_size == 1024 * pow2(block_bits)
    &&& holds_le(data, 0, 4, geometry.number_of_inodes as int)
    &&& holds_le(data, 4, 4, blocks % 0x1_0000_0000)
    &&& holds_le(data, 24, 4, block_bits as int)
    &&& holds_le(data, 32, 4, blocks_per_group)
    &&& holds_le(data, 40, 4, geometry.number_of_inodes_per_block_group as int)
    &&& holds_le(data, 56, 2, 0xef53)
    &&& holds_le(data, 88, 2, geometry.inode_size as int)
    &&& holds_le(data, 92, 4, geometry.compatible_feature_flags as int)
    &&& holds_le(data, 96, 4, geometry.incompatible_feature_flags as int)
    &&& holds_le(data, 100, 4, geometry.read_only_compatible_feature_flags as int)
    &&& if geometry.incompatible_feature_flags & 0x80 != 0 {
        holds_le(data, 336, 4, blocks / 0x1_0000_0000)
    } else {
        0 <= blocks < 0x1_0000_0000
    }
}

/// The values of a superblock that is stored are read back, and the blocks are in as many groups of
/// the given size as they need.
pub proof fn lemma_superblock_stored(
    data: Seq<u8>,
    geometry: ExtGeometry,
    block_bits: nat,
    blocks: int,
    blocks_per_group: int,
)
    requires
        holds_superblock(data, geometry, block_bits, blocks, blocks_per_group),
        block_bits <= 21,
        0 < blocks,
        0 < blocks_per_group,
        0 < geometry.number_of_inodes_per_block_group,
        geometry.inode_size == 128 || geometry.inode_size == 256 || geometry.inode_size == 512
            || geometry.inode_size == 1024 || geometry.inode_size == 2048,
    ensures
        geometry_in(data) == (ExtGeometry {
            format_version: geometry_in(data).format_version,
            ..geometry
        }),
        is_valid_superblock(data),
        u16_le(data, 56) == 0xef53,
        (group_count(data) - 1) * blocks_per_group < blocks <= group_count(data)
            * blocks_per_group,
{
    lemma_holds_le(data, 0, 4, geometry.number_of_inodes as int);
    lemma_holds_le(data, 4, 4, blocks % 0x1_0000_0000);
    lemma_holds_le(data, 24, 4, block_bits as int);
    lemma_holds_le(data, 32, 4, blocks_per_group);
    lemma_holds_le(data, 40, 4, geometry.number_of_inodes_per_block_group as int);
    lemma_holds_le(data, 56, 2, 0xef53);
    lemma_holds_le(data, 88, 2, geometry.inode_size as int);
    lemma_holds_le(data, 92, 4, geometry.compatible_feature_flags as int);
    lemma_holds_le(data, 96, 4, geometry.incompatible_feature_flags as int);
    lemma_holds_le(data, 100, 4, geometry.read_only_compatible_feature_flags as int);
    if geometry.incompatible_feature_flags & 0x80 != 0 {
        lemma_holds_le(data, 336, 4, blocks / 0x1_0000_0000);
    }
    assert(block_count(data) == blocks);
    let count = (blocks + blocks_per_group - 1) / blocks_per_group;
    assert((count - 1) * blocks_per_group < blocks <= count * blocks_per_group)
        by (nonlinear_arith)
        requires
            count == (blocks + blocks_per_group - 1) / blocks_per_group,
            0 < blocks_per_group,
    ;
}

/// A superblock without its signature 0xef53 is refused.
pub proof fn lemma_no_superblock(content: Content, value: int)
    requires
        content.holds_le(1080, 2, value),
        value != 0xef53,
    ensures
        opened_volume(content) is Err,
{
    if content.has(1024, 1024) {
        lemma_holds_in(content, 1024, 1024, 56, 2, value);
        lemma_holds_le(content.window(1024, 1024), 56, 2, value);
    }
}

/// Whether group descriptors are stored one behind the other: each holds the number of the first block
/// of its inode table, the lower 32 bits at offset 8 and, in format version 4 where there is room for
/// them, the upper ones at offset 40.
pub open spec fn holds_descriptors(
    format_version: u8,
    data: Seq<u8>,
    size: int,
    tables: Seq<u64>,
) -> bool {
    forall|i: int|
        0 <= i < tables.len() ==> {
            &&& 0 < #[trigger] tables[i]
            &&& size * i + size <= data.len()
            &&& holds_le(data, size * i + 8, 4, tables[i] as int % 0x1_0000_0000)
            &&& if format_version == 4 && size >= 44 {
                holds_le(data, size * i + 40, 4, tables[i] as int / 0x1_0000_0000)
            } else {
                tables[i] < 0x1_0000_0000
            }
        }
}

/// The inode table of every block group whose descriptor is stored is found, in order.
pub proof fn lemma_descriptors_stored(
    format_version: u8,
    data: Seq<u8>,
    size: int,
    tables: Seq<u64>,
)
    requires
        32 <= size,
        holds_descriptors(format_version, data, size, tables),
    ensures
        inode_tables_from(format_version, data, size, tables.len() as int, 0, Seq::empty())
            == tables,
{
    assert(tables.take(0) =~= Seq::<u64>::empty());
    lemma_descriptors_stored_from(format_version, data, size, tables, 0);
}

proof fn lemma_descriptors_stored_from(
    format_version: u8,
    data: Seq<u8>,
    size: int,
    tables: Seq<u64>,
    index: int,
)
    requires
        32 <= size,
        0 <= index <= tables.len(),
        holds_descriptors(format_version, data, size, tables),
    ensures
        inode_tables_from(
            format_version,
            data,
            size,
            tables.len() as int,
            index,
            tables.take(index),
        ) == tables,
    decreases tables.len() - index,
{
    if index < tables.len() {
        let start = size * index;
        let value = tables[index] as int;
        lemma_holds_le(data, start + 8, 4, value % 0x1_0000_0000);
        if format_version == 4 && size >= 44 {
            lemma_holds_le(data, start + 40, 4, value / 0x1_0000_0000);
        }
        assert(!is_empty(data, start, start + size)) by {
            if is_empty(data, start, start + size) {
                assert(data[start + 8] == 0 && data[start + 9] == 0 && data[start + 10] == 0
                    && data[start + 11] == 0);
                if format_version == 4 && size >= 44 {
                    assert(data[start + 40] == 0 && data[start + 41] == 0 && data[start + 42] == 0
                        && data[start + 43] == 0);
                }
            }
        }
        assert(tables.take(index).push(tables[index]) =~= tables.take(index + 1));
        lemma_descriptors_stored_from(format_version, data, size, tables, index + 1);
    } else {
        assert(tables.take(index) =~= tables);
    }
}

fn check_empty(data: &[u8], start: usize, end: usize) -> (empty: bool)
    requires
        start <= end <= data@.len(),
    ensures
        empty == is_empty(data@, start as int, end as int),
{
    let mut index: usize = start;
    while index < end
        invariant
            start <= index <= end <= data@.len(),
            forall|i: int| start <= i < index ==> data@[i] == 0,
        decreases end - index,
    {
        if data[index] != 0 {
            return false;
        }
        index += 1;
    }
    true
}

fn read_inode_tables(format_version: u8, data: &[u8], size: usize, count: usize) -> (tables: Vec<
    u64,
>)
    requires
        32 <= size,
        count * size == data@.len(),
    ensures
        tables@ == inode_tables_from(
            format_version,
            data@,
            size as int,
            count as int,
            0,
            Seq::empty(),
        ),
{
    let length: usize = data.len();
    let ghost whole = inode_tables_from(
        format_version,
        data@,
        size as int,
        count as int,
        0,
        Seq::empty(),
    );
    let mut tables: Vec<u64> = Vec::new();
    let mut index: usize = 0;
    let mut offset: usize = 0;
    assert(tables@ =~= Seq::<u64>::empty());
    while index < count
        invariant
            index <= count,
            32 <= size,
            length == data@.len(),
            count * size == length,
            offset == size * index,
            whole == inode_tables_from(
                format_version,
                data@,
                size as int,
                count as int,
                0,
                Seq::empty(),
            ),
            whole == inode_tables_from(
                format_version,
                data@,
                size as int,
                count as int,
                index as int,
                tables@,
            ),
        decreases count - index,
    {
        proof {
            assert(size * index + size == size * (index + 1)) by (nonlinear_arith);
            assert(size * (index + 1) <= count * size) by (nonlinear_arith)
                requires
                    index + 1 <= count,
                    0 <= size,
            ;
        }
        if check_empty(data, offset, offset + size) {
            return tables;
        }
        let lower: u64 = read_u32_le(data, offset + 8) as u64;
        let table: u64 = if format_version == 4 && size >= 44 {
            lower + 0x1_0000_0000 * (read_u32_le(data, offset + 40) as u64)
        } else {
            lower
        };
        tables.push(table);
        offset = offset + size;
        index += 1;
    }
    tables
}

fn count_groups(blocks: u64, blocks_per_group: u32) -> (count: u64)
    requires
        0 < blocks,
        0 < blocks_per_group,
    ensures
        count == (blocks + blocks_per_group - 1) / blocks_per_group as int,
        0 < count,
{
    let per: u64 = blocks_per_group as u64;
    proof {
        let b = blocks as int;
        let p = per as int;
        assert((b - 1) / p + 1 == (b + p - 1) / p && (b - 1) / p + 1 <= b) by (nonlinear_arith)
            requires
                0 < b,
                0 < p,
        ;
        assert((b - 1) / p >= 0) by (nonlinear_arith)
            requires
                0 < b,
                0 < p,
        ;
    }
    (blocks - 1) / per + 1
}

/// Reads the superblock and the group descriptors.
pub fn read_superblock(source: &DataSourceReference) -> (result: Result<
    (ExtGeometry, Vec<u64>, Option<String>),
    DriverError,
>)
    ensures
        match result {
            Ok((geometry, tables, label)) => {
                &&& opened_volume(source.content()) == Ok::<
                    (ExtGeometry, Seq<u64>, Option<Seq<char>>),
                    DriverError,
                >(
                    (
                        geometry,
                        tables@,
                        match label {
                            Some(label) => Some(label@),
                            None => None,
                        },
                    ),
                )
                &&& geometry.is_usable()
            },
            Err(error) => source.reliable() ==> opened_volume(source.content()) == Err::<
                (ExtGeometry, Seq<u64>, Option<Seq<char>>),
                DriverError,
            >(error),
        },
{
    let data: Vec<u8> = read_bytes(source, 1024, 1024)?;
    let data: &[u8] = data.as_slice();
    if read_u16_le(data, 56) != 0xef53 {
        return Err(DriverError::Unsupported);
    }
    let compatible: u32 = read_u32_le(data, 92);
    let incompatible: u32 = read_u32_le(data, 96);
    let read_only: u32 = read_u32_le(data, 100);
    let shift: u32 = read_u32_le(data, 24);
    let mut blocks: u64 = read_u32_le(data, 4) as u64;
    if incompatible & 0x80 != 0 {
        blocks = blocks + 0x1_0000_0000 * (read_u32_le(data, 336) as u64);
    }
    let blocks_per_group: u32 = read_u32_le(data, 32);
    let inodes_per_group: u32 = read_u32_le(data, 40);
    let inode_size: u16 = read_u16_le(data, 88);
    if shift > 21 || blocks == 0 || blocks_per_group == 0 || inodes_per_group == 0 || !(inode_size
        == 128 || inode_size == 256 || inode_size == 512 || inode_size == 1024 || inode_size
        == 2048) {
        return Err(DriverError::Invalid);
    }
    if read_u32_le(data, 76) > 1 || incompatible & 0xeffc_d931 != 0 {
        return Err(DriverError::Unsupported);
    }
    proof {
        vstd::arithmetic::power2::lemma2_to64();
        if shift < 21 {
            lemma_power_below(shift as nat, 21);
        }
    }
    let block_size: u32 = 1024 * (power_of_two(shift) as u32);
    let format_version: u8 = if compatible & 0x200 != 0 || incompatible & 0x1_f7c0 != 0 || read_only
        & 0x378 != 0 {
        4
    } else if compatible & 0x4 != 0 || incompatible & 0xc != 0 {
        3
    } else {
        2
    };
    let mut size: usize = 32;
    if format_version == 4 && incompatible & 0x80 != 0 {
        let stored_size: u16 = read_u16_le(data, 254);
        size = if stored_size > 64 {
            stored_size as usize
        } else {
            64
        };
    }
    if size > 1024 {
        return Err(DriverError::Invalid);
    }
    let count: u64 = count_groups(blocks, blocks_per_group);
    if count > 16777216 {
        proof {
            assert(count * size > 16777216) by (nonlinear_arith)
                requires
                    count > 16777216,
                    size >= 32,
            ;
        }
        return Err(DriverError::Unsupported);
    }
    proof {
        assert(0 <= count * size <= 16777216 * 1024) by (nonlinear_arith)
            requires
                0 <= count <= 16777216,
                0 <= size <= 1024,
        ;
    }
    let table_size: u64 = count * size as u64;
    if table_size > 16777216 {
        return Err(DriverError::Unsupported);
    }
    let offset: u64 = if block_size == 1024 {
        2048
    } else {
        block_size as u64
    };
    let descriptors: Vec<u8> = read_bytes(source, offset, table_size as usize)?;
    let tables: Vec<u64> = read_inode_tables(
        format_version,
        descriptors.as_slice(),
        size,
        count as usize,
    );
    let label: String = read_stored_text(data, 120, 136);
    let volume_label: Option<String> = if text_chars(label.as_str()).len() == 0 {
        None
    } else {
        Some(label)
    };
    let geometry = ExtGeometry {
        format_version,
        block_size,
        inode_size,
        number_of_inodes: read_u32_le(data, 0),
        number_of_inodes_per_block_group: inodes_per_group,
        compatible_feature_flags: compatible,
        incompatible_feature_flags: incompatible,
        read_only_compatible_feature_flags: read_only,
    };
    Ok((geometry, tables, volume_label))
}

} // verus!
