//! Data of EWF sections.

use vstd::prelude::*;

use super::section::{has_checksum, verify_checksum};
use crate::bytes::{holds_le, lemma_holds_le, read_u32_le, read_u64_le, u32_le, u64_le};
use crate::checksum::adler32_of;
use crate::error::DriverError;
use crate::uuid::{holds_uuid_le, lemma_uuid_stored, nil_uuid, uuid_le, Uuid};

verus! {

/// EWF media type.
#[derive(Clone, Copy, Debug, PartialEq, Eq, PartialOrd, Ord, Hash, Structural)]
pub enum EwfMediaType {
    FixedDisk,
    LogicalEvidence,
    Memory,
    OpticalDisk,
    RemoveableDisk,
    Unknown,
}

/// The medium that an image describes.
#[derive(Clone, Copy, Debug, PartialEq, Eq, Structural)]
pub struct EwfVolume {
    pub media_type: EwfMediaType,
    pub set_identifier: Uuid,
    pub number_of_chunks: u32,
    pub sectors_per_chunk: u32,
    pub bytes_per_sector: u32,
    pub number_of_sectors: u64,
}

impl EwfVolume {
    /// The size of a chunk.
    pub open spec fn spec_chunk_size(self) -> int {
        self.sectors_per_chunk * self.bytes_per_sector
    }

    /// The size of the medium.
    pub open spec fn spec_media_size(self) -> int {
        self.number_of_sectors * self.bytes_per_sector
    }
}

/// The media type that a number stands for.
pub open spec fn media_type_of(value: u8) -> EwfMediaType {
    if value == 0 {
        EwfMediaType::RemoveableDisk
    } else if value == 1 {
        EwfMediaType::FixedDisk
    } else if value == 3 {
        EwfMediaType::OpticalDisk
    } else if value == 0x0e {
        EwfMediaType::LogicalEvidence
    } else if value == 0x10 {
        EwfMediaType::Memory
    } else {
        EwfMediaType::Unknown
    }
}

/// The medium that the data of a volume section describes, which has one of two sizes. In the
/// larger one the checksum may be left out.
pub open spec fn volume_values(data: Seq<u8>) -> Result<EwfVolume, DriverError> {
    if data.len() == 1052 {
        if u32_le(data, 1048) != 0 && !has_checksum(data, 0, 1048) {
            Err(DriverError::ChecksumMismatch)
        } else {
            Ok(
                EwfVolume {
                    media_type: media_type_of(data[0]),
                    set_identifier: uuid_le(data, 64),
                    number_of_chunks: u32_le(data, 4),
                    sectors_per_chunk: u32_le(data, 8),
                    bytes_per_sector: u32_le(data, 12),
                    number_of_sectors: u64_le(data, 16),
                },
            )
        }
    } else if data.len() == 94 {
        if !has_checksum(data, 0, 90) {
            Err(DriverError::ChecksumMismatch)
        } else {
            Ok(
                EwfVolume {
                    media_type: EwfMediaType::LogicalEvidence,
                    set_identifier: nil_uuid(),
                    number_of_chunks: u32_le(data, 4),
                    sectors_per_chunk: u32_le(data, 8),
                    bytes_per_sector: u32_le(data, 12),
                    number_of_sectors: u32_le(data, 16) as u64,
                },
            )
        }
    } else {
        Err(DriverError::Unsupported)
    }
}

/// The medium that the data of a volume section describes, if its sizes can be used.
pub open spec fn volume_in(data: Seq<u8>) -> Result<EwfVolume, DriverError> {
    match volume_values(data) {
        Err(error) => Err(error),
        Ok(volume) => if volume.number_of_chunks == 0 || volume.sectors_per_chunk == 0
            || volume.bytes_per_sector == 0 {
            Err(DriverError::Invalid)
        } else if volume.spec_chunk_size() > u32::MAX || volume.spec_media_size() > u64::MAX {
            Err(DriverError::Overflow)
        } else {
            Ok(volume)
        },
    }
}

/// Whether the sizes of a medium can be used.
pub open spec fn is_usable(volume: EwfVolume) -> bool {
    &&& 0 < volume.number_of_chunks
    &&& 0 < volume.sectors_per_chunk
    &&& 0 < volume.bytes_per_sector
    &&& 0 < volume.spec_chunk_size() <= u32::MAX
    &&& 0 <= volume.spec_media_size() <= u64::MAX
}

/// Where the chunks of a table are stored.
pub struct EwfTable {
    pub base_offset: u64,
    pub entries: Seq<u32>,
}

/// The table in the data of a table section, which has at least one entry.
pub open spec fn table_in(data: Seq<u8>) -> Result<EwfTable, DriverError> {
    if data.len() < 28 || data.len() > 0x100_0000 {
        Err(DriverError::OutOfBounds)
    } else if !has_checksum(data, 0, 20) {
        Err(DriverError::ChecksumMismatch)
    } else if 28 + 4 * u32_le(data, 0) != data.len() {
        Err(DriverError::Invalid)
    } else if !has_checksum(data, 24, 24 + 4 * u32_le(data, 0)) {
        Err(DriverError::ChecksumMismatch)
    } else if u32_le(data, 0) == 0 {
        Err(DriverError::Missing)
    } else {
        Ok(
            EwfTable {
                base_offset: u64_le(data, 8),
                entries: Seq::new(u32_le(data, 0) as nat, |i: int| u32_le(data, 24 + 4 * i)),
            },
        )
    }
}

/// The MD5 hash in the data of a hash section.
pub open spec fn hash_in(data: Seq<u8>) -> Result<Seq<u8>, DriverError> {
    if data.len() < 36 {
        Err(DriverError::Unsupported)
    } else if !has_checksum(data, 0, 32) {
        Err(DriverError::ChecksumMismatch)
    } else {
        Ok(data.subrange(0, 16))
    }
}

/// The MD5 and SHA1 hashes in the data of a digest section.
pub open spec fn digest_in(data: Seq<u8>) -> Result<(Seq<u8>, Seq<u8>), DriverError> {
    if data.len() < 80 {
        Err(DriverError::Unsupported)
    } else if !has_checksum(data, 0, 76) {
        Err(DriverError::ChecksumMismatch)
    } else {
        Ok((data.subrange(0, 16), data.subrange(16, 36)))
    }
}

/// The values of a volume section are stored in little-endian order, and are read back. The larger one
/// of its two forms has a media type and an identifier.
pub proof fn lemma_volume_stored(data: Seq<u8>, volume: EwfVolume, checksum: int)
    requires
        holds_le(data, 4, 4, volume.number_of_chunks as int),
        holds_le(data, 8, 4, volume.sectors_per_chunk as int),
        holds_le(data, 12, 4, volume.bytes_per_sector as int),
        data.len() == 1052 ==> {
            &&& volume.media_type == (match data[0] {
                0 => EwfMediaType::RemoveableDisk,
                1 => EwfMediaType::FixedDisk,
                3 => EwfMediaType::OpticalDisk,
                0x0e => EwfMediaType::LogicalEvidence,
                0x10 => EwfMediaType::Memory,
                _ => EwfMediaType::Unknown,
            })
            &&& holds_le(data, 16, 8, volume.number_of_sectors as int)
            &&& holds_uuid_le(data, 64, volume.set_identifier)
            &&& holds_le(data, 1048, 4, checksum)
            &&& checksum == 0 || checksum == adler32_of(1, data.take(1048))
        },
        data.len() != 1052 ==> {
            &&& data.len() == 94
            &&& volume.media_type is LogicalEvidence
            &&& holds_le(data, 16, 4, volume.number_of_sectors as int)
            &&& volume.set_identifier == nil_uuid()
            &&& holds_le(data, 90, 4, checksum)
            &&& checksum == adler32_of(1, data.take(90))
        },
        0 < volume.number_of_chunks,
        0 < volume.sectors_per_chunk,
        0 < volume.bytes_per_sector,
        volume.sectors_per_chunk * volume.bytes_per_sector <= u32::MAX,
        volume.number_of_sectors * volume.bytes_per_sector <= u64::MAX,
    ensures
        volume_in(data) == Ok::<EwfVolume, DriverError>(volume),
{
    broadcast use lemma_holds_le;

    lemma_uuid_stored(data, 64, volume.set_identifier);
    if data.len() == 1052 {
        assert(data.subrange(0, 1048) =~= data.take(1048));
    } else {
        assert(data.subrange(0, 90) =~= data.take(90));
    }
}

/// Whether the data of a table section is stored, in little-endian order: the number of entries, the
/// offset that they are relative to, the Adler-32 of these 20 bytes, the entries and the Adler-32 of
/// the entries.
pub open spec fn holds_table(data: Seq<u8>, table: EwfTable) -> bool {
    let end = 24 + 4 * table.entries.len();
    &&& data.len() == end + 4
    &&& holds_le(data, 0, 4, table.entries.len() as int)
    &&& holds_le(data, 8, 8, table.base_offset as int)
    &&& holds_le(data, 20, 4, adler32_of(1, data.take(20)) as int)
    &&& forall|i: int|
        0 <= i < table.entries.len() ==> holds_le(
            data,
            24 + 4 * i,
            4,
            #[trigger] table.entries[i] as int,
        )
    &&& holds_le(data, end as int, 4, adler32_of(1, data.subrange(24, end as int)) as int)
}

/// A table that is stored is read back.
pub proof fn lemma_table_stored(data: Seq<u8>, table: EwfTable)
    requires
        holds_table(data, table),
        0 < table.entries.len(),
        data.len() <= 0x100_0000,
    ensures
        table_in(data) == Ok::<EwfTable, DriverError>(table),
{
    broadcast use lemma_holds_le;

    assert(data.subrange(0, 20) =~= data.take(20));
    let count = table.entries.len();
    assert(u32_le(data, 0) == count);
    let entries = Seq::new(count, |i: int| u32_le(data, 24 + 4 * i));
    assert forall|i: int| 0 <= i < count implies #[trigger] entries[i] == table.entries[i] by {
        assert(holds_le(data, 24 + 4 * i, 4, table.entries[i] as int));
    }
    assert(entries =~= table.entries);
}

/// The hashes that are stored, each in its place, are read back.
pub proof fn lemma_hashes_stored(data: Seq<u8>)
    ensures
        36 <= data.len() && holds_le(data, 32, 4, adler32_of(1, data.take(32)) as int) ==> hash_in(
            data,
        ) == Ok::<Seq<u8>, DriverError>(data.take(16)),
        80 <= data.len() && holds_le(data, 76, 4, adler32_of(1, data.take(76)) as int)
            ==> digest_in(data) == Ok::<(Seq<u8>, Seq<u8>), DriverError>(
            (data.take(16), data.skip(16).take(20)),
        ),
{
    broadcast use lemma_holds_le;

    if 36 <= data.len() {
        assert(data.subrange(0, 32) =~= data.take(32));
        assert(data.subrange(0, 16) =~= data.take(16));
    }
    if 80 <= data.len() {
        assert(data.subrange(0, 76) =~= data.take(76));
        assert(data.subrange(16, 36) =~= data.skip(16).take(20));
    }
}

/// Reads the values of a volume section.
fn parse_volume_values(data: &[u8]) -> (result: Result<EwfVolume, DriverError>)
    ensures
        result == volume_values(data@),
{
    if data.len() == 1052 {
        if read_u32_le(data, 1048) != 0 && !verify_checksum(data, 0, 1048) {
            return Err(DriverError::ChecksumMismatch);
        }
        let value: u8 = data[0];
        let media_type: EwfMediaType = if value == 0 {
            EwfMediaType::RemoveableDisk
        } else if value == 1 {
            EwfMediaType::FixedDisk
        } else if value == 3 {
            EwfMediaType::OpticalDisk
        } else if value == 0x0e {
            EwfMediaType::LogicalEvidence
        } else if value == 0x10 {
            EwfMediaType::Memory
        } else {
            EwfMediaType::Unknown
        };
        Ok(
            EwfVolume {
                media_type,
                set_identifier: Uuid::from_le_bytes(data, 64),
                number_of_chunks: read_u32_le(data, 4),
                sectors_per_chunk: read_u32_le(data, 8),
                bytes_per_sector: read_u32_le(data, 12),
                number_of_sectors: read_u64_le(data, 16),
            },
        )
    } else if data.len() == 94 {
        if !verify_checksum(data, 0, 90) {
            return Err(DriverError::ChecksumMismatch);
        }
        Ok(
            EwfVolume {
                media_type: EwfMediaType::LogicalEvidence,
                set_identifier: Uuid { part1: 0, part2: 0, part3: 0, part4: 0, part5: 0 },
                number_of_chunks: read_u32_le(data, 4),
                sectors_per_chunk: read_u32_le(data, 8),
                bytes_per_sector: read_u32_le(data, 12),
                number_of_sectors: read_u32_le(data, 16) as u64,
            },
        )
    } else {
        Err(DriverError::Unsupported)
    }
}

/// Reads the medium that the data of a volume section describes.
pub(crate) fn parse_volume(data: &[u8]) -> (result: Result<EwfVolume, DriverError>)
    ensures
        result == volume_in(data@),
        result matches Ok(volume) ==> is_usable(volume),
{
    let volume: EwfVolume = parse_volume_values(data)?;
    if volume.number_of_chunks == 0 || volume.sectors_per_chunk == 0 || volume.bytes_per_sector
        == 0 {
        return Err(DriverError::Invalid);
    }
    if volume.sectors_per_chunk.checked_mul(volume.bytes_per_sector).is_none()
        || volume.number_of_sectors.checked_mul(volume.bytes_per_sector as u64).is_none() {
        return Err(DriverError::Overflow);
    }
    proof {
        assert(0 < volume.sectors_per_chunk * volume.bytes_per_sector) by (nonlinear_arith)
            requires
                0 < volume.sectors_per_chunk,
                0 < volume.bytes_per_sector,
        ;
        assert(0 <= volume.number_of_sectors * volume.bytes_per_sector) by (nonlinear_arith)
            requires
                0 <= volume.number_of_sectors,
                0 < volume.bytes_per_sector,
        ;
    }
    Ok(volume)
}

/// Reads the table in the data of a table section.
pub(crate) fn parse_table(data: &[u8]) -> (result: Result<(u64, Vec<u32>), DriverError>)
    ensures
        match result {
            Ok((base_offset, entries)) => table_in(data@) == Ok::<EwfTable, DriverError>(
                EwfTable { base_offset, entries: entries@ },
            ),
            Err(error) => table_in(data@) == Err::<EwfTable, DriverError>(error),
        },
{
    if data.len() < 28 || data.len() > 0x100_0000 {
        return Err(DriverError::OutOfBounds);
    }
    if !verify_checksum(data, 0, 20) {
        return Err(DriverError::ChecksumMismatch);
    }
    let count: u32 = read_u32_le(data, 0);
    if 28 + 4 * (count as u64) != data.len() as u64 {
        return Err(DriverError::Invalid);
    }
    let count: usize = count as usize;
    if !verify_checksum(data, 24, 24 + 4 * count) {
        return Err(DriverError::ChecksumMismatch);
    }
    if count == 0 {
        return Err(DriverError::Missing);
    }
    let mut entries: Vec<u32> = Vec::new();
    let mut index: usize = 0;
    while index < count
        invariant
            index <= count,
            28 + 4 * count == data@.len(),
            count <= 0x100_0000,
            entries@ == Seq::new(index as nat, |i: int| u32_le(data@, 24 + 4 * i)),
        decreases count - index,
    {
        entries.push(read_u32_le(data, 24 + 4 * index));
        index += 1;
        assert(entries@ =~= Seq::new(index as nat, |i: int| u32_le(data@, 24 + 4 * i)));
    }
    Ok((read_u64_le(data, 8), entries))
}

/// Copies 16 bytes.
fn copy_16(data: &[u8], offset: usize) -> (copy: [u8; 16])
    requires
        offset + 16 <= data@.len(),
    ensures
        copy@ == data@.subrange(offset as int, offset + 16),
{
    let mut copy: [u8; 16] = [0; 16];
    let length: usize = data.len();
    let mut index: usize = 0;
    while index < 16
        invariant
            index <= 16,
            length == data@.len(),
            offset + 16 <= length,
            copy@.len() == 16,
            forall|i: int| 0 <= i < index ==> copy@[i] == data@[offset + i],
        decreases 16 - index,
    {
        copy[index] = data[offset + index];
        index += 1;
    }
    assert(copy@ =~= data@.subrange(offset as int, offset + 16));
    copy
}

/// Copies 20 bytes.
fn copy_20(data: &[u8], offset: usize) -> (copy: [u8; 20])
    requires
        offset + 20 <= data@.len(),
    ensures
        copy@ == data@.subrange(offset as int, offset + 20),
{
    let mut copy: [u8; 20] = [0; 20];
    let length: usize = data.len();
    let mut index: usize = 0;
    while index < 20
        invariant
            index <= 20,
            length == data@.len(),
            offset + 20 <= length,
            copy@.len() == 20,
            forall|i: int| 0 <= i < index ==> copy@[i] == data@[offset + i],
        decreases 20 - index,
    {
        copy[index] = data[offset + index];
        index += 1;
    }
    assert(copy@ =~= data@.subrange(offset as int, offset + 20));
    copy
}

/// Reads the hash in the data of a hash section.
pub(crate) fn parse_hash(data: &[u8]) -> (result: Result<[u8; 16], DriverError>)
    ensures
        match result {
            Ok(md5_hash) => hash_in(data@) == Ok::<Seq<u8>, DriverError>(md5_hash@),
            Err(error) => hash_in(data@) == Err::<Seq<u8>, DriverError>(error),
        },
{
    if data.len() < 36 {
        return Err(DriverError::Unsupported);
    }
    if !verify_checksum(data, 0, 32) {
        return Err(DriverError::ChecksumMismatch);
    }
    Ok(copy_16(data, 0))
}

/// Reads the hashes in the data of a digest section.
pub(crate) fn parse_digest(data: &[u8]) -> (result: Result<([u8; 16], [u8; 20]), DriverError>)
    ensures
        match result {
            Ok((md5_hash, sha1_hash)) => digest_in(data@) == Ok::<
                (Seq<u8>, Seq<u8>),
                DriverError,
            >((md5_hash@, sha1_hash@)),
            Err(error) => digest_in(data@) == Err::<(Seq<u8>, Seq<u8>), DriverError>(error),
        },
{
    if data.len() < 80 {
        return Err(DriverError::Unsupported);
    }
    if !verify_checksum(data, 0, 76) {
        return Err(DriverError::ChecksumMismatch);
    }
    Ok((copy_16(data, 0), copy_20(data, 16)))
}

} // verus!
