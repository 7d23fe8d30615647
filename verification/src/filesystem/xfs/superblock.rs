//! XFS superblocks.

use vstd::arithmetic::power2::{lemma2_to64, pow2};
use vstd::prelude::*;

use crate::bytes::{
    holds_be, lemma_holds_be, read_u16_be, read_u32_be, read_u64_be, u16_be, u32_be, u64_be,
};
use crate::error::DriverError;
use crate::powers::{lemma_power_below, power_of_two};
use crate::source::data_source::{read_bytes, Content, DataSource, DataSourceReference};
use crate::text::{holds_text, lemma_stored_text, read_stored_text, stored_text};

verus! {

/// What a superblock says of the layout of a file system.
#[derive(Clone, Copy, Debug, PartialEq, Eq, Structural)]
pub struct XfsGeometry {
    pub format_version: u8,
    pub has_file_types: bool,
    pub block_size: u32,
    pub sector_size: u16,
    pub inode_size: u16,
    pub inodes_per_block_log2: u8,
    pub allocation_group_block_size: u32,
    pub number_of_allocation_groups: u32,
    pub relative_block_bits: u8,
    pub root_inode_number: u64,
    pub directory_block_size: u32,
}

/// The number of inode numbers that can be told apart.
pub const XFS_INODE_NUMBER_LIMIT: u64 = 0x100_0000_0000_0000;

impl XfsGeometry {
    /// The number of bits of an inode number in an allocation group.
    pub open spec fn relative_inode_bits(self) -> nat {
        (self.relative_block_bits + self.inodes_per_block_log2) as nat
    }

    /// The number of block numbers of an allocation group.
    pub open spec fn group_blocks(self) -> int {
        pow2(self.relative_block_bits as nat) as int
    }

    /// The number of inode numbers of an allocation group.
    pub open spec fn group_inodes(self) -> int {
        pow2(self.relative_inode_bits()) as int
    }

    /// The number of inodes of a block.
    pub open spec fn block_inodes(self) -> int {
        pow2(self.inodes_per_block_log2 as nat) as int
    }

    /// Whether the values are in the ranges that are supported.
    pub open spec fn is_usable(self) -> bool {
        &&& 512 <= self.sector_size <= 32768
        &&& 512 <= self.block_size <= 65536
        &&& 256 <= self.inode_size <= 2048
        &&& 5 <= self.allocation_group_block_size
        &&& 0 < self.number_of_allocation_groups
        &&& 0 < self.relative_block_bits
        &&& 0 < self.inodes_per_block_log2
        &&& self.relative_block_bits + self.inodes_per_block_log2 < 32
        &&& self.block_size <= self.directory_block_size
    }
}

/// The size of a directory block.
pub open spec fn directory_block_size_in(data: Seq<u8>) -> int {
    u32_be(data, 4) * pow2(data[192] as nat)
}

/// Whether a superblock is supported. It has the signature "XFSB".
pub open spec fn is_supported_superblock(data: Seq<u8>) -> bool {
    &&& u32_be(data, 0) == 0x5846_5342
    &&& 4 <= u16_be(data, 100) % 16 <= 5
    &&& 512 <= u16_be(data, 102) <= 32768
    &&& 512 <= u32_be(data, 4) <= 65536
    &&& 256 <= u16_be(data, 104) <= 2048
    &&& 5 <= u32_be(data, 84)
    &&& 0 < u32_be(data, 88)
    &&& 0 < data[124]
    &&& 0 < data[123]
    &&& data[124] + data[123] < 32
    &&& pow2(data[123] as nat) == u16_be(data, 106)
    &&& data[192] < 32
    &&& directory_block_size_in(data) <= u32::MAX
}

/// What a superblock says of the layout of a file system.
pub open spec fn geometry_in(data: Seq<u8>) -> XfsGeometry {
    XfsGeometry {
        format_version: (u16_be(data, 100) % 16) as u8,
        has_file_types: u16_be(data, 100) % 16 == 5 || (u32_be(data, 200) / 0x200) % 2 == 1
            || u32_be(data, 216) % 2 == 1,
        block_size: u32_be(data, 4),
        sector_size: u16_be(data, 102),
        inode_size: u16_be(data, 104),
        inodes_per_block_log2: data[123],
        allocation_group_block_size: u32_be(data, 84),
        number_of_allocation_groups: u32_be(data, 88),
        relative_block_bits: data[124],
        root_inode_number: u64_be(data, 56) % XFS_INODE_NUMBER_LIMIT,
        directory_block_size: directory_block_size_in(data) as u32,
    }
}

/// The label of a file system, if it has one.
pub open spec fn label_in(data: Seq<u8>) -> Option<Seq<char>> {
    let label = stored_text(data, 108, 120);
    if label.len() == 0 {
        None
    } else {
        Some(label)
    }
}

/// The volume label that is stored in a superblock, filled up with zeros, is read back.
pub proof fn lemma_label_stored(data: Seq<u8>, label: Seq<char>)
    requires
        holds_text(data, 108, 120, label),
    ensures
        label_in(data) == (if label.len() == 0 {
            None
        } else {
            Some(label)
        }),
{
    lemma_stored_text(data, 108, 120, label);
}

/// The layout and the label of a file system.
pub open spec fn superblock_of(content: Content) -> Result<
    (XfsGeometry, Option<Seq<char>>),
    DriverError,
> {
    match content.exact(0, 512) {
        Err(error) => Err(error),
        Ok(data) => if is_supported_superblock(data) {
            Ok((geometry_in(data), label_in(data)))
        } else {
            Err(DriverError::Unsupported)
        },
    }
}

/// Whether a superblock is stored: its values in big-endian order, behind the characters "XFSB". The
/// size of a directory block is that of a block times a power of two.
pub open spec fn holds_superblock(
    data: Seq<u8>,
    geometry: XfsGeometry,
    version_flags: int,
    directory_bits: nat,
) -> bool {
    &&& 512 <= data.len()
    &&& data[0] == 0x58 && data[1] == 0x46 && data[2] == 0x53 && data[3] == 0x42
    &&& holds_be(data, 4, 4, geometry.block_size as int)
    &&& holds_be(data, 56, 8, geometry.root_inode_number as int)
    &&& holds_be(data, 84, 4, geometry.allocation_group_block_size as int)
    &&& holds_be(data, 88, 4, geometry.number_of_allocation_groups as int)
    &&& holds_be(data, 100, 2, 16 * version_flags + geometry.format_version)
    &&& holds_be(data, 102, 2, geometry.sector_size as int)
    &&& holds_be(data, 104, 2, geometry.inode_size as int)
    &&& holds_be(data, 106, 2, pow2(geometry.inodes_per_block_log2 as nat) as int)
    &&& holds_be(data, 123, 1, geometry.inodes_per_block_log2 as int)
    &&& holds_be(data, 124, 1, geometry.relative_block_bits as int)
    &&& holds_be(data, 192, 1, directory_bits as int)
    &&& geometry.directory_block_size == geometry.block_size * pow2(directory_bits)
    &&& geometry.root_inode_number < 0x100_0000_0000_0000
}

/// The values of a superblock that is stored are read back, where they are supported. Directory entries
/// have file types in format version 5, and where bit 9 of the features at offset 200 or bit 0 of those
/// at offset 216 is set.
pub proof fn lemma_superblock_stored(
    data: Seq<u8>,
    geometry: XfsGeometry,
    version_flags: int,
    directory_bits: nat,
    features: int,
    more_features: int,
)
    requires
        holds_superblock(data, geometry, version_flags, directory_bits),
        holds_be(data, 200, 4, features),
        holds_be(data, 216, 4, more_features),
        geometry.is_usable(),
        geometry.format_version == 4 || geometry.format_version == 5,
        0 <= version_flags,
        directory_bits < 32,
        geometry.has_file_types <==> geometry.format_version == 5 || (features / 0x200) % 2 == 1
            || more_features % 2 == 1,
    ensures
        is_supported_superblock(data),
        geometry_in(data) == geometry,
{
    lemma_holds_be(data, 4, 4, geometry.block_size as int);
    lemma_holds_be(data, 56, 8, geometry.root_inode_number as int);
    lemma_holds_be(data, 84, 4, geometry.allocation_group_block_size as int);
    lemma_holds_be(data, 88, 4, geometry.number_of_allocation_groups as int);
    lemma_holds_be(data, 100, 2, 16 * version_flags + geometry.format_version);
    lemma_holds_be(data, 102, 2, geometry.sector_size as int);
    lemma_holds_be(data, 104, 2, geometry.inode_size as int);
    lemma_holds_be(data, 106, 2, pow2(geometry.inodes_per_block_log2 as nat) as int);
    lemma_holds_be(data, 123, 1, geometry.inodes_per_block_log2 as int);
    lemma_holds_be(data, 124, 1, geometry.relative_block_bits as int);
    lemma_holds_be(data, 192, 1, directory_bits as int);
    lemma_holds_be(data, 200, 4, features);
    lemma_holds_be(data, 216, 4, more_features);
    assert(u32_be(data, 0) == 0x5846_5342);
    assert((16 * version_flags + geometry.format_version) % 16 == geometry.format_version);
    assert(directory_block_size_in(data) == geometry.directory_block_size);
}

/// Reads the superblock of a file system.
pub(crate) fn read_superblock(source: &DataSourceReference) -> (result: Result<
    (XfsGeometry, Option<String>),
    DriverError,
>)
    ensures
        match result {
            Ok((geometry, label)) => {
                &&& superblock_of(source.content()) == Ok::<
                    (XfsGeometry, Option<Seq<char>>),
                    DriverError,
                >(
                    (
                        geometry,
                        match label {
                            Some(label) => Some(label@),
                            None => None,
                        },
                    ),
                )
                &&& geometry.is_usable()
            },
            Err(error) => source.reliable() ==> superblock_of(source.content()) == Err::<
                (XfsGeometry, Option<Seq<char>>),
                DriverError,
            >(error),
        },
{
    let data: Vec<u8> = read_bytes(source, 0, 512)?;
    let data: &[u8] = data.as_slice();
    let block_size: u32 = read_u32_be(data, 4);
    let format_version: u16 = read_u16_be(data, 100) % 16;
    let sector_size: u16 = read_u16_be(data, 102);
    let inode_size: u16 = read_u16_be(data, 104);
    let group_size: u32 = read_u32_be(data, 84);
    let group_count: u32 = read_u32_be(data, 88);
    let inodes_per_block_log2: u8 = data[123];
    let relative_block_bits: u8 = data[124];
    let directory_block_log2: u8 = data[192];

    if read_u32_be(data, 0) != 0x5846_5342 || format_version < 4 || format_version > 5 {
        return Err(DriverError::Unsupported);
    }
    if sector_size < 512 || sector_size > 32768 || block_size < 512 || block_size > 65536
        || inode_size < 256 || inode_size > 2048 {
        return Err(DriverError::Unsupported);
    }
    if group_size < 5 || group_count == 0 || relative_block_bits == 0 || inodes_per_block_log2 == 0
        || relative_block_bits as u32 + inodes_per_block_log2 as u32 >= 32 {
        return Err(DriverError::Unsupported);
    }
    if power_of_two(inodes_per_block_log2 as u32) != read_u16_be(data, 106) as u64 {
        return Err(DriverError::Unsupported);
    }
    if directory_block_log2 >= 32 {
        return Err(DriverError::Unsupported);
    }
    let multiplier: u64 = power_of_two(directory_block_log2 as u32);
    proof {
        lemma_power_below(directory_block_log2 as nat, 32);
        lemma2_to64();
        assert(block_size <= block_size * multiplier <= 65536 * 0x1_0000_0000) by (nonlinear_arith)
            requires
                0 <= block_size <= 65536,
                0 < multiplier <= 0x1_0000_0000,
        ;
    }
    let directory_block_size: u64 = block_size as u64 * multiplier;
    if directory_block_size > u32::MAX as u64 {
        return Err(DriverError::Unsupported);
    }
    let label: String = read_stored_text(data, 108, 120);
    let label: Option<String> = if label.as_str().unicode_len() == 0 {
        None
    } else {
        Some(label)
    };
    let geometry = XfsGeometry {
        format_version: format_version as u8,
        has_file_types: format_version == 5 || (read_u32_be(data, 200) / 0x200) % 2 == 1
            || read_u32_be(data, 216) % 2 == 1,
        block_size,
        sector_size,
        inode_size,
        inodes_per_block_log2,
        allocation_group_block_size: group_size,
        number_of_allocation_groups: group_count,
        relative_block_bits,
        root_inode_number: read_u64_be(data, 56) % XFS_INODE_NUMBER_LIMIT,
        directory_block_size: directory_block_size as u32,
    };
    Ok((geometry, label))
}

} // verus!
