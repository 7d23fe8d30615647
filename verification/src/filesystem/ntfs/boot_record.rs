//! NTFS boot record.

use vstd::arithmetic::power2::pow2;
use vstd::prelude::*;

use crate::bytes::{
    holds_le, lemma_holds_le, read_u16_le, read_u32_le, read_u64_be, read_u64_le, u16_le, u32_le,
    u64_be, u64_le,
};
use crate::error::DriverError;
use crate::powers::{lemma_power_below, power_of_two};
use crate::source::data_source::{read_bytes, Content, DataSource, DataSourceReference};

verus! {

/// What the boot record of an NTFS file system says.
#[derive(Clone, Copy, Debug, PartialEq, Eq, Structural)]
pub struct NtfsGeometry {
    pub bytes_per_sector: u16,
    pub cluster_block_size: u32,
    pub mft_cluster_block_number: u64,
    pub mft_entry_size: u32,
    pub index_entry_size: u32,
    pub volume_serial_number: u64,
}

impl NtfsGeometry {
    /// Whether the sizes of records are within their limits.
    pub open spec fn is_usable(self) -> bool {
        &&& 42 <= self.mft_entry_size <= 65535
        &&& 32 <= self.index_entry_size <= 16777216
        &&& self.cluster_block_size <= 524288
    }
}

/// The size of a cluster: a number of sectors, or from 244 on a power of two.
pub open spec fn cluster_size(bytes_per_sector: u16, sectors: u8) -> Option<int> {
    if sectors <= 128 {
        Some(sectors * bytes_per_sector)
    } else if sectors < 244 {
        None
    } else {
        Some(pow2((256 - sectors) as nat) as int)
    }
}

/// The size of a record: a number of clusters, or from 128 on a power of two.
pub open spec fn record_size(
    descriptor: u32,
    cluster_size: int,
    minimum: int,
    maximum: int,
) -> Option<int> {
    if descriptor == 0 || descriptor > 255 {
        None
    } else {
        let size = if descriptor < 128 {
            descriptor * cluster_size
        } else {
            pow2((256 - descriptor) as nat) as int
        };
        if minimum <= size <= maximum {
            Some(size)
        } else {
            None
        }
    }
}

/// Whether a number of bytes per sector is supported.
pub open spec fn is_sector_size(size: u16) -> bool {
    size == 256 || size == 512 || size == 1024 || size == 2048 || size == 4096
}

/// What a boot record says. It has the signature "NTFS    ".
pub open spec fn geometry_in(data: Seq<u8>) -> Result<NtfsGeometry, DriverError> {
    let sector_size = u16_le(data, 11);
    if u64_be(data, 3) != 0x4e54_4653_2020_2020 || !is_sector_size(sector_size) {
        Err(DriverError::Unsupported)
    } else {
        match cluster_size(sector_size, data[13]) {
            None => Err(DriverError::Unsupported),
            Some(cluster) => match (
                record_size(u32_le(data, 64), cluster, 42, 65535),
                record_size(u32_le(data, 68), cluster, 32, 16777216),
            ) {
                (Some(mft_entry_size), Some(index_entry_size)) => Ok(
                    NtfsGeometry {
                        bytes_per_sector: sector_size,
                        cluster_block_size: cluster as u32,
                        mft_cluster_block_number: u64_le(data, 48),
                        mft_entry_size: mft_entry_size as u32,
                        index_entry_size: index_entry_size as u32,
                        volume_serial_number: u64_le(data, 72),
                    },
                ),
                _ => Err(DriverError::Unsupported),
            },
        }
    }
}

/// What the boot record at the start of a source says.
pub open spec fn geometry_of(content: Content) -> Result<NtfsGeometry, DriverError> {
    match content.exact(0, 512) {
        Err(error) => Err(error),
        Ok(data) => geometry_in(data),
    }
}

/// Whether a boot record is stored: its values in little-endian order, behind the characters
/// "NTFS    " at offset 3. The number of sectors of a cluster has one byte, and so have those that
/// give the sizes of records.
pub open spec fn holds_boot_record(
    data: Seq<u8>,
    sectors: int,
    mft_record: int,
    index_record: int,
    geometry: NtfsGeometry,
) -> bool {
    &&& 512 <= data.len()
    &&& data[3] == 0x4e && data[4] == 0x54 && data[5] == 0x46 && data[6] == 0x53 && data[7] == 0x20
        && data[8] == 0x20 && data[9] == 0x20 && data[10] == 0x20
    &&& holds_le(data, 11, 2, geometry.bytes_per_sector as int)
    &&& holds_le(data, 13, 1, sectors)
    &&& holds_le(data, 48, 8, geometry.mft_cluster_block_number as int)
    &&& holds_le(data, 64, 4, mft_record)
    &&& holds_le(data, 68, 4, index_record)
    &&& holds_le(data, 72, 8, geometry.volume_serial_number as int)
}

/// The size of a record that a byte stands for: a number of clusters, or where the byte is that of a
/// negative number in two's complement, two to the power of its absolute value.
pub open spec fn is_record_size(size: int, value: int, cluster_size: int) -> bool {
    ||| 0 < value < 128 && size == value * cluster_size
    ||| 128 <= value < 256 && exists|bits: nat| value == 256 - bits && size == #[trigger] pow2(bits)
}

/// The values of a boot record that is stored are read back.
pub proof fn lemma_boot_record_stored(
    data: Seq<u8>,
    sectors: int,
    mft_record: int,
    index_record: int,
    geometry: NtfsGeometry,
)
    requires
        holds_boot_record(data, sectors, mft_record, index_record, geometry),
        geometry.bytes_per_sector == 256 || geometry.bytes_per_sector == 512
            || geometry.bytes_per_sector == 1024 || geometry.bytes_per_sector == 2048
            || geometry.bytes_per_sector == 4096,
        sectors <= 128 && geometry.cluster_block_size == sectors * geometry.bytes_per_sector || 244
            <= sectors && exists|bits: nat|
            sectors == 256 - bits && geometry.cluster_block_size == #[trigger] pow2(bits),
        is_record_size(
            geometry.mft_entry_size as int,
            mft_record,
            geometry.cluster_block_size as int,
        ),
        is_record_size(
            geometry.index_entry_size as int,
            index_record,
            geometry.cluster_block_size as int,
        ),
        42 <= geometry.mft_entry_size <= 65535,
        32 <= geometry.index_entry_size <= 16777216,
    ensures
        geometry_in(data) == Ok::<NtfsGeometry, DriverError>(geometry),
{
    lemma_holds_le(data, 11, 2, geometry.bytes_per_sector as int);
    lemma_holds_le(data, 13, 1, sectors);
    lemma_holds_le(data, 48, 8, geometry.mft_cluster_block_number as int);
    lemma_holds_le(data, 64, 4, mft_record);
    lemma_holds_le(data, 68, 4, index_record);
    lemma_holds_le(data, 72, 8, geometry.volume_serial_number as int);
    assert(u64_be(data, 3) == 0x4e54_4653_2020_2020);
    lemma_record_size(geometry.mft_entry_size as int, mft_record, geometry, 42, 65535);
    lemma_record_size(geometry.index_entry_size as int, index_record, geometry, 32, 16777216);
    if sectors > 128 {
        let bits = choose|bits: nat|
            sectors == 256 - bits && geometry.cluster_block_size == #[trigger] pow2(bits);
        assert((256 - sectors) as nat == bits);
    }
}

proof fn lemma_record_size(size: int, value: int, geometry: NtfsGeometry, least: int, most: int)
    requires
        is_record_size(size, value, geometry.cluster_block_size as int),
        least <= size <= most,
    ensures
        record_size(value as u32, geometry.cluster_block_size as int, least, most) == Some(size),
{
    if value >= 128 {
        let bits = choose|bits: nat| value == 256 - bits && size == #[trigger] pow2(bits);
        assert((256 - value) as nat == bits);
    }
}

fn read_cluster_size(bytes_per_sector: u16, sectors: u8) -> (size: Option<u32>)
    requires
        bytes_per_sector <= 4096,
    ensures
        match size {
            Some(size) => {
                &&& cluster_size(bytes_per_sector, sectors) == Some(size as int)
                &&& size <= 524288
            },
            None => cluster_size(bytes_per_sector, sectors) is None,
        },
{
    if sectors <= 128 {
        proof {
            assert(0 <= sectors * bytes_per_sector <= 524288) by (nonlinear_arith)
                requires
                    0 <= sectors <= 128,
                    0 <= bytes_per_sector <= 4096,
            ;
        }
        return Some((sectors as u32) * (bytes_per_sector as u32));
    }
    if sectors < 244 {
        return None;
    }
    proof {
        vstd::arithmetic::power2::lemma2_to64();
        if sectors > 244 {
            lemma_power_below((256 - sectors) as nat, 12);
        }
    }
    Some(power_of_two(256 - sectors as u32) as u32)
}

fn read_record_size(descriptor: u32, cluster: u32, minimum: u32, maximum: u32) -> (size: Option<
    u32,
>)
    requires
        cluster <= 524288,
        maximum <= 16777216,
    ensures
        match size {
            Some(size) => {
                &&& record_size(descriptor, cluster as int, minimum as int, maximum as int) == Some(
                    size as int,
                )
                &&& minimum <= size <= maximum
            },
            None => record_size(descriptor, cluster as int, minimum as int, maximum as int) is None,
        },
{
    if descriptor == 0 || descriptor > 255 {
        return None;
    }
    let size: u64 = if descriptor < 128 {
        proof {
            assert(0 <= descriptor * cluster <= 128 * 524288) by (nonlinear_arith)
                requires
                    0 <= descriptor <= 128,
                    0 <= cluster <= 524288,
            ;
        }
        (descriptor as u64) * (cluster as u64)
    } else {
        let exponent: u32 = 256 - descriptor;
        if exponent > 24 {
            proof {
                vstd::arithmetic::power2::lemma2_to64();
                lemma_power_below(24, exponent as nat);
            }
            return None;
        }
        power_of_two(exponent)
    };
    if size < minimum as u64 || size > maximum as u64 {
        return None;
    }
    Some(size as u32)
}

/// Reads the boot record at the start of a source.
pub fn read_boot_record(source: &DataSourceReference) -> (result: Result<NtfsGeometry, DriverError>)
    ensures
        match result {
            Ok(geometry) => {
                &&& geometry_of(source.content()) == Ok::<NtfsGeometry, DriverError>(geometry)
                &&& geometry.is_usable()
            },
            Err(error) => source.reliable() ==> geometry_of(source.content()) == Err::<
                NtfsGeometry,
                DriverError,
            >(error),
        },
{
    let data: Vec<u8> = read_bytes(source, 0, 512)?;
    let data: &[u8] = data.as_slice();
    let bytes_per_sector: u16 = read_u16_le(data, 11);
    if read_u64_be(data, 3) != 0x4e54_4653_2020_2020 || !(bytes_per_sector == 256
        || bytes_per_sector == 512 || bytes_per_sector == 1024 || bytes_per_sector == 2048
        || bytes_per_sector == 4096) {
        return Err(DriverError::Unsupported);
    }
    let cluster_block_size: u32 = read_cluster_size(bytes_per_sector, data[13]).ok_or(
        DriverError::Unsupported,
    )?;
    let mft_entry_size: u32 = read_record_size(
        read_u32_le(data, 64),
        cluster_block_size,
        42,
        65535,
    ).ok_or(DriverError::Unsupported)?;
    let index_entry_size: u32 = read_record_size(
        read_u32_le(data, 68),
        cluster_block_size,
        32,
        16777216,
    ).ok_or(DriverError::Unsupported)?;
    Ok(
        NtfsGeometry {
            bytes_per_sector,
            cluster_block_size,
            mft_cluster_block_number: read_u64_le(data, 48),
            mft_entry_size,
            index_entry_size,
            volume_serial_number: read_u64_le(data, 72),
        },
    )
}

} // verus!
