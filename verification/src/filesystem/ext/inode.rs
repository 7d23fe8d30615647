//! Ext inodes.

use vstd::prelude::*;

use super::superblock::ExtGeometry;
use crate::bytes::{holds_le, lemma_holds_le, read_u16_le, read_u32_le, u16_le, u32_le};
use crate::error::DriverError;
use crate::source::data_source::{read_bytes, Content, DataSource, DataSourceReference};

verus! {

/// What an inode says.
pub struct ExtInodeInfo {
    pub file_mode: u16,
    pub data_size: u64,
    pub number_of_blocks: u64,
    pub flags: u32,
    pub data_reference: Seq<u8>,
}

impl ExtInodeInfo {
    /// Whether the inode is that of a directory.
    pub open spec fn is_directory(self) -> bool {
        self.file_mode / 0x1000 == 4
    }

    /// Whether the inode is that of a regular file.
    pub open spec fn is_regular_file(self) -> bool {
        self.file_mode / 0x1000 == 8
    }

    /// Whether the inode is that of a symbolic link.
    pub open spec fn is_symbolic_link(self) -> bool {
        self.file_mode / 0x1000 == 0xa
    }
}

/// The type of a file is in the upper four bits of its mode: 4 is a directory, 8 a regular file and 10 a
/// symbolic link, whatever the permissions in the lower ones.
pub proof fn lemma_file_types(inode: ExtInodeInfo, kind: int, permissions: int)
    requires
        inode.file_mode == 4096 * kind + permissions,
        0 <= permissions < 4096,
    ensures
        inode.is_directory() <==> kind == 4,
        inode.is_regular_file() <==> kind == 8,
        inode.is_symbolic_link() <==> kind == 10,
{
}

/// What the inode in data says. Those that hold an extended attribute are not supported.
pub open spec fn inode_in(format_version: u8, data: Seq<u8>) -> Result<ExtInodeInfo, DriverError> {
    if u32_le(data, 32) & 0x20_0000 != 0 {
        Err(DriverError::Unsupported)
    } else {
        Ok(
            ExtInodeInfo {
                file_mode: u16_le(data, 0),
                data_size: if format_version == 4 {
                    (u32_le(data, 4) + 0x1_0000_0000 * u32_le(data, 108)) as u64
                } else {
                    u32_le(data, 4) as u64
                },
                number_of_blocks: if format_version == 4 {
                    (u32_le(data, 28) + 0x1_0000_0000 * u16_le(data, 116)) as u64
                } else {
                    u32_le(data, 28) as u64
                },
                flags: u32_le(data, 32),
                data_reference: data.subrange(40, 100),
            },
        )
    }
}

/// The offset of the inode with a number. Inodes are numbered from one on.
pub open spec fn inode_offset(geometry: ExtGeometry, tables: Seq<u64>, inode_number: u32) -> Result<
    u64,
    DriverError,
> {
    let group = (inode_number - 1) / geometry.number_of_inodes_per_block_group as int;
    let index = (inode_number - 1) % geometry.number_of_inodes_per_block_group as int;
    let offset = tables[group] * geometry.block_size + index * geometry.inode_size;
    if inode_number == 0 || inode_number > geometry.number_of_inodes {
        Err(DriverError::OutOfBounds)
    } else if group >= tables.len() {
        Err(DriverError::Missing)
    } else if offset > u64::MAX {
        Err(DriverError::Overflow)
    } else {
        Ok(offset as u64)
    }
}

/// What the inode with a number says.
pub open spec fn inode_of(
    content: Content,
    geometry: ExtGeometry,
    tables: Seq<u64>,
    inode_number: u32,
) -> Result<ExtInodeInfo, DriverError> {
    match inode_offset(geometry, tables, inode_number) {
        Err(error) => Err(error),
        Ok(offset) => match content.exact(offset as int, geometry.inode_size as nat) {
            Err(error) => Err(error),
            Ok(data) => inode_in(geometry.format_version, data),
        },
    }
}

/// Whether an inode is stored: its mode, the lower 32 bits of its size and of the number of its blocks,
/// its flags and, at offset 40, its 60 bytes of data or block numbers. Format version 4 has the upper
/// 32 bits of the size at offset 108, and 16 upper bits of the number of blocks at offset 116.
pub open spec fn holds_inode(format_version: u8, data: Seq<u8>, inode: ExtInodeInfo) -> bool {
    &&& 128 <= data.len()
    &&& holds_le(data, 0, 2, inode.file_mode as int)
    &&& holds_le(data, 4, 4, inode.data_size as int % 0x1_0000_0000)
    &&& holds_le(data, 28, 4, inode.number_of_blocks as int % 0x1_0000_0000)
    &&& holds_le(data, 32, 4, inode.flags as int)
    &&& inode.data_reference.len() == 60
    &&& forall|i: int|
        0 <= i < 60 ==> data[40 + i] == #[trigger] inode.data_reference[i]
    &&& if format_version == 4 {
        &&& holds_le(data, 108, 4, inode.data_size as int / 0x1_0000_0000)
        &&& holds_le(data, 116, 2, inode.number_of_blocks as int / 0x1_0000_0000)
    } else {
        &&& inode.data_size < 0x1_0000_0000
        &&& inode.number_of_blocks < 0x1_0000_0000
    }
}

/// An inode that is stored is read back, unless its flags say that it holds an extended attribute.
pub proof fn lemma_inode_stored(format_version: u8, data: Seq<u8>, inode: ExtInodeInfo)
    requires
        holds_inode(format_version, data, inode),
    ensures
        inode_in(format_version, data) == (if inode.flags & 0x20_0000 == 0 {
            Ok(inode)
        } else {
            Err::<ExtInodeInfo, DriverError>(DriverError::Unsupported)
        }),
{
    lemma_holds_le(data, 0, 2, inode.file_mode as int);
    lemma_holds_le(data, 4, 4, inode.data_size as int % 0x1_0000_0000);
    lemma_holds_le(data, 28, 4, inode.number_of_blocks as int % 0x1_0000_0000);
    lemma_holds_le(data, 32, 4, inode.flags as int);
    if format_version == 4 {
        lemma_holds_le(data, 108, 4, inode.data_size as int / 0x1_0000_0000);
        lemma_holds_le(data, 116, 2, inode.number_of_blocks as int / 0x1_0000_0000);
    }
    assert(data.subrange(40, 100) =~= inode.data_reference);
}

/// Each block group holds the same number of inodes, in a table of its own, one behind the other. They
/// are numbered from one on.
pub proof fn lemma_inode_offset(geometry: ExtGeometry, tables: Seq<u64>, group: int, index: int)
    requires
        0 <= group < tables.len(),
        0 <= index < geometry.number_of_inodes_per_block_group,
        group * geometry.number_of_inodes_per_block_group + index + 1
            <= geometry.number_of_inodes,
        tables[group] * geometry.block_size + index * geometry.inode_size <= u64::MAX,
    ensures
        inode_offset(
            geometry,
            tables,
            (group * geometry.number_of_inodes_per_block_group + index + 1) as u32,
        ) == Ok::<u64, DriverError>(
            (tables[group] * geometry.block_size + index * geometry.inode_size) as u64,
        ),
{
    let n = geometry.number_of_inodes_per_block_group as int;
    assert(0 <= group * n) by (nonlinear_arith)
        requires
            0 <= group,
            0 <= n,
    ;
    vstd::arithmetic::div_mod::lemma_fundamental_div_mod_converse(
        group * n + index,
        n,
        group,
        index,
    );
}

/// No inode has the number zero or one behind the last.
pub proof fn lemma_no_such_inode(geometry: ExtGeometry, tables: Seq<u64>, number: u32)
    requires
        number == 0 || number > geometry.number_of_inodes,
    ensures
        inode_offset(geometry, tables, number) is Err,
{
}

/// Ext inode.
pub struct ExtInode {
    pub file_mode: u16,
    pub data_size: u64,
    pub number_of_blocks: u64,
    pub flags: u32,
    pub data_reference: Vec<u8>,
}

impl ExtInode {
    /// What the inode says.
    pub open spec fn view(&self) -> ExtInodeInfo {
        ExtInodeInfo {
            file_mode: self.file_mode,
            data_size: self.data_size,
            number_of_blocks: self.number_of_blocks,
            flags: self.flags,
            data_reference: self.data_reference@,
        }
    }

    /// Whether the numbers are within their limits.
    pub open spec fn is_sound(&self) -> bool {
        self.data_reference@.len() == 60 && self.number_of_blocks <= 0x1_0000_0000_0000
    }

    fn read_data(format_version: u8, data: &[u8]) -> (result: Result<Self, DriverError>)
        requires
            128 <= data@.len(),
        ensures
            match result {
                Ok(inode) => {
                    &&& inode_in(format_version, data@) == Ok::<ExtInodeInfo, DriverError>(inode@)
                    &&& inode.is_sound()
                },
                Err(error) => inode_in(format_version, data@) == Err::<ExtInodeInfo, DriverError>(
                    error,
                ),
            },
    {
        let flags: u32 = read_u32_le(data, 32);
        if flags & 0x20_0000 != 0 {
            return Err(DriverError::Unsupported);
        }
        let mut data_size: u64 = read_u32_le(data, 4) as u64;
        let mut number_of_blocks: u64 = read_u32_le(data, 28) as u64;
        if format_version == 4 {
            data_size = data_size + 0x1_0000_0000 * (read_u32_le(data, 108) as u64);
            number_of_blocks = number_of_blocks + 0x1_0000_0000 * (read_u16_le(data, 116) as u64);
        }
        let reference: &[u8] = vstd::slice::slice_subrange(data, 40, 100);
        Ok(
            ExtInode {
                file_mode: read_u16_le(data, 0),
                data_size,
                number_of_blocks,
                flags,
                data_reference: vstd::slice::slice_to_vec(reference),
            },
        )
    }

    /// Reads the inode with a number.
    pub fn read(
        source: &DataSourceReference,
        geometry: &ExtGeometry,
        tables: &Vec<u64>,
        inode_number: u32,
    ) -> (result: Result<Self, DriverError>)
        requires
            geometry.is_usable(),
        ensures
            match result {
                Ok(inode) => {
                    &&& inode_of(source.content(), *geometry, tables@, inode_number) == Ok::<
                        ExtInodeInfo,
                        DriverError,
                    >(inode@)
                    &&& inode.is_sound()
                },
                Err(error) => source.reliable() ==> inode_of(
                    source.content(),
                    *geometry,
                    tables@,
                    inode_number,
                ) == Err::<ExtInodeInfo, DriverError>(error),
            },
    {
        if inode_number == 0 || inode_number > geometry.number_of_inodes {
            return Err(DriverError::OutOfBounds);
        }
        let group: u32 = (inode_number - 1) / geometry.number_of_inodes_per_block_group;
        let index: u32 = (inode_number - 1) % geometry.number_of_inodes_per_block_group;
        if group as u64 >= tables.len() as u64 {
            return Err(DriverError::Missing);
        }
        proof {
            assert(0 <= index * geometry.inode_size <= 0xffff_ffff * 2048) by (nonlinear_arith)
                requires
                    0 <= index <= 0xffff_ffff,
                    0 <= geometry.inode_size <= 2048,
            ;
        }
        let table_offset: u64 = tables[group as usize].checked_mul(
            geometry.block_size as u64,
        ).ok_or(DriverError::Overflow)?;
        let offset: u64 = table_offset.checked_add(
            index as u64 * geometry.inode_size as u64,
        ).ok_or(DriverError::Overflow)?;
        let data: Vec<u8> = read_bytes(source, offset, geometry.inode_size as usize)?;
        Self::read_data(geometry.format_version, data.as_slice())
    }
}

} // verus!
