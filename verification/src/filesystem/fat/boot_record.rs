//! FAT boot record.

use vstd::arithmetic::power2::{lemma2_to64, pow2};
use vstd::prelude::*;
use vstd::utf8::encode_utf8;

use crate::bytes::{
    holds_le, lemma_holds_le, read_u16_be, read_u16_le, read_u32_le, u16_be, u16_le, u32_le,
};
use crate::error::DriverError;
use crate::source::data_source::{read_bytes, Content, DataSource, DataSourceReference};
use crate::text::{lemma_stored_utf8_text, stored_utf8_text, text_chars, utf8_text_lossy};

verus! {

/// FAT format.
#[derive(Clone, Copy, Debug, PartialEq, Eq, Hash, Structural)]
pub enum FatFormat {
    Fat12,
    Fat16,
    Fat32,
}

/// What a boot record says.
pub struct FatBootInfo {
    pub bytes_per_sector: u16,
    pub sectors_per_cluster_block: u8,
    pub number_of_reserved_sectors: u16,
    pub number_of_allocation_tables: u8,
    pub number_of_root_directory_entries: u16,
    pub allocation_table_size: u32,
    pub number_of_sectors: u32,
    pub root_directory_cluster_block_number: u32,
    pub volume_serial_number: u32,
    pub volume_label: Option<Seq<char>>,
}

/// Where the parts of a FAT file system are.
#[derive(Clone, Copy, Debug, PartialEq, Eq, Structural)]
pub struct FatGeometry {
    pub format: FatFormat,
    pub bytes_per_sector: u16,
    pub cluster_block_size: u32,
    pub allocation_table_offset: u64,
    pub number_of_clusters: u32,
    pub first_cluster_offset: u64,
    pub root_directory_offset: u64,
    pub root_directory_size: u32,
    pub root_directory_cluster_block_number: u32,
    pub volume_serial_number: u32,
}

impl FatGeometry {
    /// Whether the offsets and sizes are within their limits.
    pub open spec fn is_usable(self) -> bool {
        &&& 512 <= self.cluster_block_size <= 524288
        &&& self.allocation_table_offset <= 0x1000_0000
        &&& self.first_cluster_offset <= 0x20_0000_0000_0000
        &&& self.root_directory_offset <= 0x20_0000_0000_0000
        &&& self.root_directory_size <= 0x20_0000
    }

    /// The offset of a cluster. The first one has the number two.
    pub open spec fn cluster_offset(self, number: u32) -> int {
        self.first_cluster_offset + (number - 2) * self.cluster_block_size
    }
}

/// The end of data without the spaces at its end.
pub open spec fn trimmed_end(data: Seq<u8>, start: int, end: int) -> int
    decreases end - start,
{
    if end > start && data[end - 1] == 0x20 {
        trimmed_end(data, start, end - 1)
    } else {
        end
    }
}

/// A text that is filled up with spaces.
pub open spec fn padded_text(data: Seq<u8>, start: int, end: int) -> Seq<char> {
    stored_utf8_text(data.subrange(start, trimmed_end(data, start, end)))
}

/// The volume label behind an extended boot signature, if there are both.
pub open spec fn label_in(data: Seq<u8>, offset: int) -> Option<Seq<char>> {
    let label = padded_text(data, offset + 5, offset + 16);
    if data[offset] == 0x29 && label.len() > 0 {
        Some(label)
    } else {
        None
    }
}

/// The serial number behind an extended boot signature.
pub open spec fn serial_number_in(data: Seq<u8>, offset: int) -> u32 {
    if data[offset] == 0x29 {
        u32_le(data, offset + 1)
    } else {
        0
    }
}

/// Whether a number of bytes per sector is supported.
pub open spec fn is_sector_size(size: u16) -> bool {
    size == 512 || size == 1024 || size == 2048 || size == 4096
}

/// Whether a number of sectors per cluster is supported.
pub open spec fn is_cluster_sectors(count: u8) -> bool {
    count == 1 || count == 2 || count == 4 || count == 8 || count == 16 || count == 32 || count
        == 64 || count == 128
}

/// Whether a boot record has the layout of FAT-32.
pub open spec fn is_fat32_record(data: Seq<u8>) -> bool {
    u32_le(data, 17) == 0 && u16_le(data, 22) == 0
}

/// What a boot record says.
pub open spec fn boot_record_in(data: Seq<u8>) -> Result<FatBootInfo, DriverError> {
    if u16_be(data, 510) != 0x55aa || !is_sector_size(u16_le(data, 11)) || !is_cluster_sectors(
        data[13],
    ) || (is_fat32_record(data) && u32_le(data, 44) < 2) {
        Err(DriverError::Unsupported)
    } else if is_fat32_record(data) {
        Ok(
            FatBootInfo {
                bytes_per_sector: u16_le(data, 11),
                sectors_per_cluster_block: data[13],
                number_of_reserved_sectors: u16_le(data, 14),
                number_of_allocation_tables: data[16],
                number_of_root_directory_entries: 0,
                allocation_table_size: u32_le(data, 36),
                number_of_sectors: u32_le(data, 32),
                root_directory_cluster_block_number: u32_le(data, 44),
                volume_serial_number: serial_number_in(data, 66),
                volume_label: label_in(data, 66),
            },
        )
    } else {
        Ok(
            FatBootInfo {
                bytes_per_sector: u16_le(data, 11),
                sectors_per_cluster_block: data[13],
                number_of_reserved_sectors: u16_le(data, 14),
                number_of_allocation_tables: data[16],
                number_of_root_directory_entries: u16_le(data, 17),
                allocation_table_size: u16_le(data, 22) as u32,
                number_of_sectors: if u32_le(data, 32) != 0 {
                    u32_le(data, 32)
                } else {
                    u16_le(data, 19) as u32
                },
                root_directory_cluster_block_number: 0,
                volume_serial_number: serial_number_in(data, 38),
                volume_label: label_in(data, 38),
            },
        )
    }
}

/// The number of clusters that a boot record leaves space for.
pub open spec fn cluster_count(boot: FatBootInfo) -> int {
    let sectors = boot.number_of_sectors - boot.number_of_reserved_sectors
        - boot.number_of_allocation_tables * boot.allocation_table_size;
    if sectors < 0 {
        0
    } else {
        sectors / boot.sectors_per_cluster_block as int
    }
}

/// The format of a file system.
pub open spec fn format_of(boot: FatBootInfo) -> FatFormat {
    if boot.root_directory_cluster_block_number != 0 || cluster_count(boot) >= 65525 {
        FatFormat::Fat32
    } else if cluster_count(boot) >= 4085 {
        FatFormat::Fat16
    } else {
        FatFormat::Fat12
    }
}

/// The offset behind the allocation tables.
pub open spec fn tables_end(boot: FatBootInfo) -> int {
    boot.number_of_reserved_sectors * boot.bytes_per_sector + boot.number_of_allocation_tables * (
    boot.allocation_table_size * boot.bytes_per_sector)
}

/// Where the parts of a file system are. A root directory of a fixed size lies behind the
/// allocation tables.
pub open spec fn geometry_of(boot: FatBootInfo) -> FatGeometry {
    let root_size = if boot.root_directory_cluster_block_number == 0 {
        32 * boot.number_of_root_directory_entries
    } else {
        0
    };
    FatGeometry {
        format: format_of(boot),
        bytes_per_sector: boot.bytes_per_sector,
        cluster_block_size: (boot.bytes_per_sector * boot.sectors_per_cluster_block) as u32,
        allocation_table_offset: (boot.number_of_reserved_sectors * boot.bytes_per_sector) as u64,
        number_of_clusters: cluster_count(boot) as u32,
        first_cluster_offset: (tables_end(boot) + root_size) as u64,
        root_directory_offset: if boot.root_directory_cluster_block_number == 0 {
            tables_end(boot) as u64
        } else {
            0
        },
        root_directory_size: root_size as u32,
        root_directory_cluster_block_number: boot.root_directory_cluster_block_number,
        volume_serial_number: boot.volume_serial_number,
    }
}

/// Where the parts of the file system of a source are, and its volume label.
pub open spec fn boot_of(content: Content) -> Result<
    (FatGeometry, Option<Seq<char>>),
    DriverError,
> {
    match content.exact(0, 512) {
        Err(error) => Err(error),
        Ok(data) => match boot_record_in(data) {
            Err(error) => Err(error),
            Ok(boot) => Ok((geometry_of(boot), boot.volume_label)),
        },
    }
}

/// Whether the part of a boot record that all formats share is stored, in little-endian order, with the
/// bytes 55 and aa at its end.
pub open spec fn holds_common_record(data: Seq<u8>, boot: FatBootInfo) -> bool {
    &&& data.len() == 512
    &&& data[510] == 0x55 && data[511] == 0xaa
    &&& holds_le(data, 11, 2, boot.bytes_per_sector as int)
    &&& data[13] == boot.sectors_per_cluster_block
    &&& holds_le(data, 14, 2, boot.number_of_reserved_sectors as int)
    &&& data[16] == boot.number_of_allocation_tables
}

/// Whether a boot record of FAT-12 or FAT-16 is stored. It has a root directory of a fixed size, and the
/// number of its sectors in 32 bits, or in 16 where those are zero.
pub open spec fn holds_small_record(data: Seq<u8>, boot: FatBootInfo) -> bool {
    &&& holds_common_record(data, boot)
    &&& holds_le(data, 17, 2, boot.number_of_root_directory_entries as int)
    &&& holds_le(data, 22, 2, boot.allocation_table_size as int)
    &&& boot.number_of_root_directory_entries != 0 || boot.allocation_table_size != 0
    &&& holds_le(data, 32, 4, 0) && holds_le(data, 19, 2, boot.number_of_sectors as int) || (
    holds_le(data, 32, 4, boot.number_of_sectors as int) && boot.number_of_sectors != 0)
    &&& boot.root_directory_cluster_block_number == 0
}

/// Whether a boot record of FAT-32 is stored. It has the first cluster of the root directory.
pub open spec fn holds_large_record(data: Seq<u8>, boot: FatBootInfo) -> bool {
    &&& holds_common_record(data, boot)
    &&& holds_le(data, 17, 2, 0)
    &&& holds_le(data, 19, 2, 0)
    &&& holds_le(data, 22, 2, 0)
    &&& holds_le(data, 36, 4, boot.allocation_table_size as int)
    &&& holds_le(data, 32, 4, boot.number_of_sectors as int)
    &&& holds_le(data, 44, 4, boot.root_directory_cluster_block_number as int)
    &&& boot.number_of_root_directory_entries == 0
}

/// Whether the serial number and the volume label are stored: behind a byte 29, the label filled up with
/// spaces.
pub open spec fn holds_volume_values(data: Seq<u8>, offset: int, boot: FatBootInfo) -> bool {
    let label = encode_utf8(boot.volume_label->0);
    &&& data[offset] == 0x29
    &&& holds_le(data, offset + 1, 4, boot.volume_serial_number as int)
    &&& boot.volume_label is Some
    &&& 0 < boot.volume_label->0.len()
    &&& 0 < label.len() <= 11
    &&& label.last() != 0x20
    &&& forall|i: int|
        offset + 5 <= i < offset + 16 ==> #[trigger] data[i] == (if i - offset - 5 < label.len() {
            label[i - offset - 5]
        } else {
            0x20
        })
}

/// The values of a boot record that is stored are read back, where they are supported: a sector has 512,
/// 1024, 2048 or 4096 bytes, and a cluster a power of two of up to 128 sectors.
pub proof fn lemma_boot_record_stored(
    data: Seq<u8>,
    boot: FatBootInfo,
    sector_bits: nat,
    cluster_bits: nat,
)
    requires
        9 <= sector_bits <= 12,
        cluster_bits <= 7,
        boot.bytes_per_sector == pow2(sector_bits),
        boot.sectors_per_cluster_block == pow2(cluster_bits),
        (holds_small_record(data, boot) && holds_volume_values(data, 38, boot)) || (
        holds_large_record(data, boot) && holds_volume_values(data, 66, boot) && 2
            <= boot.root_directory_cluster_block_number),
    ensures
        boot_record_in(data) == Ok::<FatBootInfo, DriverError>(boot),
{
    broadcast use lemma_holds_le;

    lemma2_to64();
    assert(u32_le(data, 17) == u16_le(data, 17) + 0x1_0000 * u16_le(data, 19));
    let at = if holds_small_record(data, boot) && holds_volume_values(data, 38, boot) {
        38int
    } else {
        66
    };
    let label = encode_utf8(boot.volume_label->0);
    lemma_trimmed_label(data, at + 5, at + 16, at + 5 + label.len());
    assert(data.subrange(at + 5, at + 5 + label.len()) =~= label);
    lemma_stored_utf8_text(boot.volume_label->0);
    assert(label_in(data, at) == boot.volume_label);
    assert(serial_number_in(data, at) == boot.volume_serial_number);
    if at == 38 {
        assert(!is_fat32_record(data));
    } else {
        assert(is_fat32_record(data));
    }
}

proof fn lemma_trimmed_label(data: Seq<u8>, start: int, end: int, at: int)
    requires
        start < at <= end,
        data[at - 1] != 0x20,
        forall|i: int| at <= i < end ==> #[trigger] data[i] == 0x20,
    ensures
        trimmed_end(data, start, end) == at,
    decreases end - at,
{
    if at < end {
        assert(data[end - 1] == 0x20);
        lemma_trimmed_label(data, start, end - 1, at);
    }
}

/// The allocation tables follow the reserved sectors, and then comes the root directory where it has a
/// fixed size, of 32 bytes for each entry. The clusters follow.
pub proof fn lemma_geometry(
    boot: FatBootInfo,
    reserved: int,
    tables: int,
    root: int,
)
    requires
        reserved == boot.number_of_reserved_sectors * boot.bytes_per_sector,
        tables == boot.number_of_allocation_tables * (boot.allocation_table_size
            * boot.bytes_per_sector),
        root == 32 * boot.number_of_root_directory_entries,
        boot.root_directory_cluster_block_number != 0 ==> root == 0,
        0 <= reserved + tables + root <= u64::MAX,
        0 <= reserved,
        0 <= tables,
        boot.bytes_per_sector * boot.sectors_per_cluster_block <= u32::MAX,
    ensures
        geometry_of(boot).allocation_table_offset == reserved,
        geometry_of(boot).first_cluster_offset == reserved + tables + root,
        geometry_of(boot).cluster_offset(2) == reserved + tables + root,
        boot.root_directory_cluster_block_number == 0 ==> geometry_of(boot).root_directory_offset
            == reserved + tables && geometry_of(boot).root_directory_size == root,
        geometry_of(boot).root_directory_cluster_block_number
            == boot.root_directory_cluster_block_number,
        geometry_of(boot).cluster_block_size == boot.bytes_per_sector
            * boot.sectors_per_cluster_block,
        geometry_of(boot).bytes_per_sector == boot.bytes_per_sector,
        geometry_of(boot).volume_serial_number == boot.volume_serial_number,
{
    assert(0 <= boot.bytes_per_sector * boot.sectors_per_cluster_block) by (nonlinear_arith)
        requires
            0 <= boot.bytes_per_sector,
            0 <= boot.sectors_per_cluster_block,
    ;
    assert((2 - 2) * geometry_of(boot).cluster_block_size == 0);
}

/// The clusters follow each other from the first one on, which has the number two.
pub proof fn lemma_cluster_offsets(geometry: FatGeometry, number: u32)
    requires
        2 <= number < u32::MAX,
    ensures
        geometry.cluster_offset(2) == geometry.first_cluster_offset,
        geometry.cluster_offset((number + 1) as u32) == geometry.cluster_offset(number)
            + geometry.cluster_block_size,
{
    let size = geometry.cluster_block_size as int;
    assert((number + 1 - 2) * size == (number - 2) * size + size) by (nonlinear_arith);
    assert((2 - 2) * size == 0);
}

/// The number of clusters decides on the format: fewer than 4085 are FAT-12, and fewer than 65525 are
/// FAT-16. A boot record with a cluster of the root directory is one of FAT-32. As many clusters are
/// there as fit into the sectors behind the allocation tables.
pub proof fn lemma_format(boot: FatBootInfo, count: int, rest: int)
    requires
        boot.number_of_sectors == boot.number_of_reserved_sectors
            + boot.number_of_allocation_tables * boot.allocation_table_size + count
            * boot.sectors_per_cluster_block + rest,
        0 <= count,
        0 <= rest < boot.sectors_per_cluster_block,
    ensures
        cluster_count(boot) == count,
        geometry_of(boot).number_of_clusters == count,
        boot.root_directory_cluster_block_number != 0 ==> format_of(boot) is Fat32,
        boot.root_directory_cluster_block_number == 0 ==> {
            &&& format_of(boot) is Fat12 <==> count < 4085
            &&& format_of(boot) is Fat16 <==> 4085 <= count < 65525
            &&& format_of(boot) is Fat32 <==> 65525 <= count
        },
{
    let sectors = count * boot.sectors_per_cluster_block + rest;
    vstd::arithmetic::div_mod::lemma_fundamental_div_mod_converse(
        sectors,
        boot.sectors_per_cluster_block as int,
        count,
        rest,
    );
    let tables = boot.number_of_allocation_tables * boot.allocation_table_size;
    assert(0 <= tables && 0 <= sectors && count <= sectors) by (nonlinear_arith)
        requires
            tables == boot.number_of_allocation_tables * boot.allocation_table_size,
            sectors == count * boot.sectors_per_cluster_block + rest,
            0 <= boot.number_of_allocation_tables,
            0 <= boot.allocation_table_size,
            0 <= count,
            0 < boot.sectors_per_cluster_block,
            0 <= rest,
    ;
}

/// Reads a text that is filled up with spaces.
pub(crate) fn read_padded_text(data: &[u8], start: usize, end: usize) -> (text: String)
    requires
        start <= end <= data@.len(),
    ensures
        text@ == padded_text(data@, start as int, end as int),
{
    let mut at: usize = end;
    while at > start && data[at - 1] == 0x20
        invariant
            start <= at <= end <= data@.len(),
            trimmed_end(data@, start as int, end as int) == trimmed_end(
                data@,
                start as int,
                at as int,
            ),
        decreases at,
    {
        at -= 1;
    }
    utf8_text_lossy(vstd::slice::slice_subrange(data, start, at))
}

fn read_label(data: &[u8], offset: usize) -> (label: Option<String>)
    requires
        offset + 16 <= data@.len(),
    ensures
        match label {
            Some(label) => label_in(data@, offset as int) == Some(label@),
            None => label_in(data@, offset as int) is None,
        },
{
    let length: usize = data.len();
    assert(offset + 16 <= length);
    if data[offset] != 0x29 {
        return None;
    }
    let label: String = read_padded_text(data, offset + 5, offset + 16);
    if text_chars(label.as_str()).len() == 0 {
        return None;
    }
    Some(label)
}

/// FAT boot record.
pub struct FatBootRecord {
    pub bytes_per_sector: u16,
    pub sectors_per_cluster_block: u8,
    pub number_of_reserved_sectors: u16,
    pub number_of_allocation_tables: u8,
    pub number_of_root_directory_entries: u16,
    pub allocation_table_size: u32,
    pub number_of_sectors: u32,
    pub root_directory_cluster_block_number: u32,
    pub volume_serial_number: u32,
    pub volume_label: Option<String>,
}

impl FatBootRecord {
    /// What the boot record says.
    pub open spec fn view(&self) -> FatBootInfo {
        FatBootInfo {
            bytes_per_sector: self.bytes_per_sector,
            sectors_per_cluster_block: self.sectors_per_cluster_block,
            number_of_reserved_sectors: self.number_of_reserved_sectors,
            number_of_allocation_tables: self.number_of_allocation_tables,
            number_of_root_directory_entries: self.number_of_root_directory_entries,
            allocation_table_size: self.allocation_table_size,
            number_of_sectors: self.number_of_sectors,
            root_directory_cluster_block_number: self.root_directory_cluster_block_number,
            volume_serial_number: self.volume_serial_number,
            volume_label: match self.volume_label {
                Some(label) => Some(label@),
                None => None,
            },
        }
    }

    /// Reads the boot record at the start of a source.
    pub fn read_at(source: &DataSourceReference) -> (result: Result<Self, DriverError>)
        ensures
            match result {
                Ok(boot) => {
                    &&& boot_of(source.content()) == Ok::<
                        (FatGeometry, Option<Seq<char>>),
                        DriverError,
                    >((geometry_of(boot@), boot@.volume_label))
                    &&& is_sector_size(boot.bytes_per_sector)
                    &&& is_cluster_sectors(boot.sectors_per_cluster_block)
                },
                Err(error) => source.reliable() ==> boot_of(source.content()) == Err::<
                    (FatGeometry, Option<Seq<char>>),
                    DriverError,
                >(error),
            },
    {
        let data: Vec<u8> = read_bytes(source, 0, 512)?;
        let data: &[u8] = data.as_slice();
        let bytes_per_sector: u16 = read_u16_le(data, 11);
        let sectors: u8 = data[13];
        if read_u16_be(data, 510) != 0x55aa || !(bytes_per_sector == 512 || bytes_per_sector == 1024
            || bytes_per_sector == 2048 || bytes_per_sector == 4096) || !(sectors == 1 || sectors
            == 2 || sectors == 4 || sectors == 8 || sectors == 16 || sectors == 32 || sectors == 64
            || sectors == 128) {
            return Err(DriverError::Unsupported);
        }
        if read_u32_le(data, 17) == 0 && read_u16_le(data, 22) == 0 {
            Self::read_fat32(data)
        } else {
            Ok(Self::read_fat12(data))
        }
    }

    fn read_fat12(data: &[u8]) -> (boot: Self)
        requires
            data@.len() == 512,
            u16_be(data@, 510) == 0x55aa,
            is_sector_size(u16_le(data@, 11)),
            is_cluster_sectors(data@[13]),
            !is_fat32_record(data@),
        ensures
            boot_record_in(data@) == Ok::<FatBootInfo, DriverError>(boot@),
    {
        let sectors_32bit: u32 = read_u32_le(data, 32);
        FatBootRecord {
            bytes_per_sector: read_u16_le(data, 11),
            sectors_per_cluster_block: data[13],
            number_of_reserved_sectors: read_u16_le(data, 14),
            number_of_allocation_tables: data[16],
            number_of_root_directory_entries: read_u16_le(data, 17),
            allocation_table_size: read_u16_le(data, 22) as u32,
            number_of_sectors: if sectors_32bit != 0 {
                sectors_32bit
            } else {
                read_u16_le(data, 19) as u32
            },
            root_directory_cluster_block_number: 0,
            volume_serial_number: if data[38] == 0x29 {
                read_u32_le(data, 39)
            } else {
                0
            },
            volume_label: read_label(data, 38),
        }
    }

    fn read_fat32(data: &[u8]) -> (result: Result<Self, DriverError>)
        requires
            data@.len() == 512,
            u16_be(data@, 510) == 0x55aa,
            is_sector_size(u16_le(data@, 11)),
            is_cluster_sectors(data@[13]),
            is_fat32_record(data@),
        ensures
            match result {
                Ok(boot) => boot_record_in(data@) == Ok::<FatBootInfo, DriverError>(boot@),
                Err(error) => boot_record_in(data@) == Err::<FatBootInfo, DriverError>(error),
            },
    {
        let root_directory_cluster_block_number: u32 = read_u32_le(data, 44);
        if root_directory_cluster_block_number < 2 {
            return Err(DriverError::Unsupported);
        }
        Ok(
            FatBootRecord {
                bytes_per_sector: read_u16_le(data, 11),
                sectors_per_cluster_block: data[13],
                number_of_reserved_sectors: read_u16_le(data, 14),
                number_of_allocation_tables: data[16],
                number_of_root_directory_entries: 0,
                allocation_table_size: read_u32_le(data, 36),
                number_of_sectors: read_u32_le(data, 32),
                root_directory_cluster_block_number,
                volume_serial_number: if data[66] == 0x29 {
                    read_u32_le(data, 67)
                } else {
                    0
                },
                volume_label: read_label(data, 66),
            },
        )
    }

    fn count_clusters(&self) -> (count: u32)
        requires
            is_cluster_sectors(self.sectors_per_cluster_block),
        ensures
            count == cluster_count(self@),
    {
        proof {
            assert(0 <= self.number_of_allocation_tables * self.allocation_table_size
                <= 0xff_ffff_ffff) by (nonlinear_arith)
                requires
                    0 <= self.number_of_allocation_tables <= 0xff,
                    0 <= self.allocation_table_size <= 0xffff_ffff,
            ;
        }
        let tables: u64 = self.number_of_allocation_tables as u64
            * self.allocation_table_size as u64;
        let used: u64 = self.number_of_reserved_sectors as u64 + tables;
        if used > self.number_of_sectors as u64 {
            return 0;
        }
        let sectors: u32 = (self.number_of_sectors as u64 - used) as u32;
        sectors / self.sectors_per_cluster_block as u32
    }

    /// Determines where the parts of the file system are.
    pub fn geometry(&self) -> (geometry: FatGeometry)
        requires
            is_sector_size(self.bytes_per_sector),
            is_cluster_sectors(self.sectors_per_cluster_block),
        ensures
            geometry == geometry_of(self@),
            geometry.is_usable(),
    {
        let number_of_clusters: u32 = self.count_clusters();
        let format: FatFormat = if self.root_directory_cluster_block_number != 0
            || number_of_clusters >= 65525 {
            FatFormat::Fat32
        } else if number_of_clusters >= 4085 {
            FatFormat::Fat16
        } else {
            FatFormat::Fat12
        };
        proof {
            let sector = self.bytes_per_sector as int;
            let size = self.allocation_table_size as int;
            let tables = self.number_of_allocation_tables as int;
            assert(0 <= self.number_of_reserved_sectors * sector <= 0x1000_0000)
                by (nonlinear_arith)
                requires
                    0 <= self.number_of_reserved_sectors <= 0xffff,
                    0 <= sector <= 4096,
            ;
            assert(0 <= size * sector <= 0x1000_0000_0000) by (nonlinear_arith)
                requires
                    0 <= size <= 0xffff_ffff,
                    0 <= sector <= 4096,
            ;
            assert(0 <= tables * (size * sector) <= 0x10_0000_0000_0000) by (nonlinear_arith)
                requires
                    0 <= tables <= 0xff,
                    0 <= size * sector <= 0x1000_0000_0000,
            ;
            assert(512 <= sector * self.sectors_per_cluster_block <= 524288) by (nonlinear_arith)
                requires
                    512 <= sector <= 4096,
                    1 <= self.sectors_per_cluster_block <= 128,
            ;
        }
        let sector: u64 = self.bytes_per_sector as u64;
        let allocation_table_offset: u64 = self.number_of_reserved_sectors as u64 * sector;
        let table_size: u64 = self.allocation_table_size as u64 * sector;
        let end: u64 = allocation_table_offset + self.number_of_allocation_tables as u64
            * table_size;
        let has_fixed_root: bool = self.root_directory_cluster_block_number == 0;
        let root_directory_size: u32 = if has_fixed_root {
            32 * self.number_of_root_directory_entries as u32
        } else {
            0
        };
        FatGeometry {
            format,
            bytes_per_sector: self.bytes_per_sector,
            cluster_block_size: self.bytes_per_sector as u32 * self.sectors_per_cluster_block as u32,
            allocation_table_offset,
            number_of_clusters,
            first_cluster_offset: end + root_directory_size as u64,
            root_directory_offset: if has_fixed_root {
                end
            } else {
                0
            },
            root_directory_size,
            root_directory_cluster_block_number: self.root_directory_cluster_block_number,
            volume_serial_number: self.volume_serial_number,
        }
    }
}

} // verus!
