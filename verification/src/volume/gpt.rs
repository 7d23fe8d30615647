//! GUID Partition Table (GPT) volume systems.

use vstd::prelude::*;

use crate::bytes::{
    holds_le, lemma_holds_le, read_u32_le, read_u64_be, read_u64_le, u32_le, u64_be, u64_le,
};
use crate::checksum::{reversed_crc32, reversed_crc32_of};
use crate::error::DriverError;
use crate::source::data_source::{read_bytes, Content, DataSource, DataSourceReference};
use crate::source::slice::{is_slice, open_slice};
use crate::text::{
    before_zero, decode_utf16, encode_utf16, holds_units_le, lemma_before_zero, lemma_units_le,
    lemma_utf16_text, read_units_le, units_le, utf16_text,
};
use crate::uuid::{holds_uuid_le, lemma_uuid_stored, nil_uuid, uuid_le, Uuid};

verus! {

/// What is known of a partition.
pub struct GptPartitionInfo {
    pub entry_index: nat,
    pub offset: u64,
    pub size: u64,
    pub type_identifier: Uuid,
    pub identifier: Uuid,
    pub attribute_flags: u64,
    pub name: Seq<char>,
}

/// What is known of an opened volume system.
pub struct GptVolume {
    pub bytes_per_sector: u16,
    pub disk_identifier: Uuid,
    pub partitions: Seq<GptPartitionInfo>,
}

/// What a partition table header says.
#[derive(Clone, Copy, Debug, PartialEq, Eq, Structural)]
pub struct GptHeader {
    pub header_block_number: u64,
    pub backup_header_block_number: u64,
    pub area_start_block_number: u64,
    pub area_end_block_number: u64,
    pub disk_identifier: Uuid,
    pub entries_start_block_number: u64,
    pub number_of_entries: u32,
    pub entry_data_size: u32,
    pub entries_data_checksum: u32,
}

/// The polynomial of the checksums.
pub const GPT_CRC32_POLYNOMIAL: u32 = 0xedb8_8320;

/// The header data of which the checksum is calculated: the checksum itself counts as zero.
pub open spec fn checksum_data(data: Seq<u8>, size: nat) -> Seq<u8> {
    Seq::new(
        size,
        |i: int|
            if 16 <= i < 20 {
                0u8
            } else {
                data[i]
            },
    )
}

/// Whether a stored checksum is that of data, or left out.
pub open spec fn checksum_fits(stored: u32, data: Seq<u8>) -> bool {
    stored == 0 || stored == reversed_crc32_of(GPT_CRC32_POLYNOMIAL, 0, data)
}

/// What the header in a sector says, which has the signature "EFI PART".
pub open spec fn header_in(data: Seq<u8>) -> Result<GptHeader, DriverError> {
    if u64_be(data, 0) != 0x4546_4920_5041_5254 || u32_le(data, 8) != 0x1_0000 || u32_le(data, 12)
        < 92 || u32_le(data, 12) > data.len() {
        Err(DriverError::Unsupported)
    } else if !checksum_fits(u32_le(data, 16), checksum_data(data, u32_le(data, 12) as nat)) {
        Err(DriverError::ChecksumMismatch)
    } else {
        Ok(
            GptHeader {
                header_block_number: u64_le(data, 24),
                backup_header_block_number: u64_le(data, 32),
                area_start_block_number: u64_le(data, 40),
                area_end_block_number: u64_le(data, 48),
                disk_identifier: uuid_le(data, 56),
                entries_start_block_number: u64_le(data, 72),
                number_of_entries: u32_le(data, 80),
                entry_data_size: u32_le(data, 84),
                entries_data_checksum: u32_le(data, 88),
            },
        )
    }
}

/// What the header in the sector at an offset says.
pub open spec fn header_at(content: Content, offset: int, bytes_per_sector: u16) -> Result<
    GptHeader,
    DriverError,
> {
    match content.exact(offset, bytes_per_sector as nat) {
        Err(error) => Err(error),
        Ok(data) => header_in(data),
    }
}

/// Whether a primary header can be used.
pub open spec fn is_supported_header(header: GptHeader) -> bool {
    &&& header.header_block_number == 1
    &&& header.area_start_block_number <= header.area_end_block_number
    &&& header.number_of_entries != 0
    &&& header.entry_data_size >= 128
    &&& header.entry_data_size % 8 == 0
}

/// Why there is no backup header: neither where the primary header says nor in the last sector.
pub open spec fn backup_failure(
    content: Content,
    header: GptHeader,
    bytes_per_sector: u16,
) -> Option<DriverError> {
    let offset = header.backup_header_block_number * bytes_per_sector;
    if offset > u64::MAX {
        Some(DriverError::Overflow)
    } else if header_at(content, offset, bytes_per_sector) is Ok {
        None
    } else if content.size < bytes_per_sector {
        Some(DriverError::Unsupported)
    } else {
        match header_at(content, content.size - bytes_per_sector, bytes_per_sector) {
            Ok(_) => None,
            Err(error) => Some(error),
        }
    }
}

/// The offset of the partition entries.
pub open spec fn entries_offset(header: GptHeader, bytes_per_sector: u16) -> int {
    header.entries_start_block_number * bytes_per_sector
}

/// The size of the partition entries.
pub open spec fn entries_size(header: GptHeader) -> int {
    header.number_of_entries * header.entry_data_size
}

/// Why the partition entries cannot lie where a header says: they have to end before the area that
/// partitions use.
pub open spec fn entries_failure(header: GptHeader, bytes_per_sector: u16) -> Option<DriverError> {
    let area_offset = header.area_start_block_number * bytes_per_sector;
    if entries_offset(header, bytes_per_sector) > u64::MAX || area_offset > u64::MAX {
        Some(DriverError::Overflow)
    } else if entries_offset(header, bytes_per_sector) + entries_size(header) > area_offset {
        Some(DriverError::Overlap)
    } else {
        None
    }
}

/// The name in a partition entry.
pub open spec fn entry_name(data: Seq<u8>) -> Option<Seq<char>> {
    utf16_text(before_zero(units_le(data.subrange(56, 128))))
}

/// Where partitions end.
pub open spec fn previous_end(partitions: Seq<GptPartitionInfo>) -> int {
    if partitions.len() == 0 {
        0
    } else {
        partitions.last().offset + partitions.last().size
    }
}

/// The partitions after that of an entry was added. An entry without a type is not used. Partitions
/// are in order and lie in the area that is meant for them.
pub open spec fn add_entry(
    header: GptHeader,
    bytes_per_sector: u16,
    data: Seq<u8>,
    index: int,
    partitions: Seq<GptPartitionInfo>,
) -> Result<Seq<GptPartitionInfo>, DriverError> {
    let start = u64_le(data, 32);
    let end = u64_le(data, 40);
    match entry_name(data) {
        None => Err(DriverError::Encoding),
        Some(name) => if uuid_le(data, 0) == nil_uuid() {
            Ok(partitions)
        } else if start < header.area_start_block_number || end > header.area_end_block_number {
            Err(DriverError::OutOfBounds)
        } else if end < start {
            Err(DriverError::Invalid)
        } else if start * bytes_per_sector < previous_end(partitions) {
            Err(DriverError::Overlap)
        } else if start * bytes_per_sector > u64::MAX || (end - start + 1) * bytes_per_sector
            > u64::MAX {
            Err(DriverError::Overflow)
        } else {
            Ok(
                partitions.push(
                    GptPartitionInfo {
                        entry_index: index as nat,
                        offset: (start * bytes_per_sector) as u64,
                        size: ((end - start + 1) * bytes_per_sector) as u64,
                        type_identifier: uuid_le(data, 0),
                        identifier: uuid_le(data, 16),
                        attribute_flags: u64_le(data, 48),
                        name,
                    },
                ),
            )
        },
    }
}

/// The partitions of the entries from `index` on, after those of the entries before it.
pub open spec fn partitions_from(
    content: Content,
    header: GptHeader,
    bytes_per_sector: u16,
    index: int,
    partitions: Seq<GptPartitionInfo>,
) -> Result<Seq<GptPartitionInfo>, DriverError>
    decreases header.number_of_entries - index,
{
    if index >= header.number_of_entries {
        Ok(partitions)
    } else {
        match content.exact(
            entries_offset(header, bytes_per_sector) + index * header.entry_data_size,
            header.entry_data_size as nat,
        ) {
            Err(error) => Err(error),
            Ok(data) => match add_entry(header, bytes_per_sector, data, index, partitions) {
                Err(error) => Err(error),
                Ok(more) => partitions_from(content, header, bytes_per_sector, index + 1, more),
            },
        }
    }
}

/// The partitions that the entries of a header give.
pub open spec fn partitions_of(
    content: Content,
    header: GptHeader,
    bytes_per_sector: u16,
) -> Result<Seq<GptPartitionInfo>, DriverError> {
    match entries_failure(header, bytes_per_sector) {
        Some(error) => Err(error),
        None => match partitions_from(content, header, bytes_per_sector, 0, Seq::empty()) {
            Err(error) => Err(error),
            Ok(partitions) => if checksum_fits(
                header.entries_data_checksum,
                content.window(
                    entries_offset(header, bytes_per_sector),
                    entries_size(header) as nat,
                ),
            ) {
                Ok(partitions)
            } else {
                Err(DriverError::ChecksumMismatch)
            },
        },
    }
}

/// Whether a number of bytes per sector is supported.
pub open spec fn is_supported_sector_size(bytes_per_sector: u16) -> bool {
    bytes_per_sector == 512 || bytes_per_sector == 4096 || bytes_per_sector == 2048
        || bytes_per_sector == 1024
}

/// The volume system with a fixed number of bytes per sector.
pub open spec fn volume_with(content: Content, bytes_per_sector: u16) -> Result<
    GptVolume,
    DriverError,
> {
    if !is_supported_sector_size(bytes_per_sector) {
        Err(DriverError::Unsupported)
    } else {
        match header_at(content, bytes_per_sector as int, bytes_per_sector) {
            Err(error) => Err(error),
            Ok(header) => if !is_supported_header(header) {
                Err(DriverError::Unsupported)
            } else {
                match backup_failure(content, header, bytes_per_sector) {
                    Some(error) => Err(error),
                    None => match partitions_of(content, header, bytes_per_sector) {
                        Err(error) => Err(error),
                        Ok(partitions) => Ok(
                            GptVolume {
                                bytes_per_sector,
                                disk_identifier: header.disk_identifier,
                                partitions,
                            },
                        ),
                    },
                }
            },
        }
    }
}

/// The volume system with the first number of bytes per sector with which it can be read.
pub open spec fn volume_of(content: Content) -> Result<GptVolume, DriverError> {
    if volume_with(content, 512) is Ok {
        volume_with(content, 512)
    } else if volume_with(content, 4096) is Ok {
        volume_with(content, 4096)
    } else if volume_with(content, 2048) is Ok {
        volume_with(content, 2048)
    } else {
        volume_with(content, 1024)
    }
}

/// Whether a partition table header is stored: behind the characters "EFI PART", in little-endian order,
/// version 1.0, its size and its values. Its checksum is not tested where it is zero.
pub open spec fn holds_header(data: Seq<u8>, header_size: int, header: GptHeader) -> bool {
    &&& data[0] == 0x45 && data[1] == 0x46 && data[2] == 0x49 && data[3] == 0x20
    &&& data[4] == 0x50 && data[5] == 0x41 && data[6] == 0x52 && data[7] == 0x54
    &&& holds_le(data, 8, 4, 0x1_0000)
    &&& holds_le(data, 12, 4, header_size)
    &&& 92 <= header_size <= data.len()
    &&& holds_le(data, 24, 8, header.header_block_number as int)
    &&& holds_le(data, 32, 8, header.backup_header_block_number as int)
    &&& holds_le(data, 40, 8, header.area_start_block_number as int)
    &&& holds_le(data, 48, 8, header.area_end_block_number as int)
    &&& holds_uuid_le(data, 56, header.disk_identifier)
    &&& holds_le(data, 72, 8, header.entries_start_block_number as int)
    &&& holds_le(data, 80, 4, header.number_of_entries as int)
    &&& holds_le(data, 84, 4, header.entry_data_size as int)
    &&& holds_le(data, 88, 4, header.entries_data_checksum as int)
}

/// The values of a header that is stored are read back, unless it has a checksum other than that of the
/// header with zeros in the place of the checksum.
pub proof fn lemma_header_stored(data: Seq<u8>, header_size: int, header: GptHeader, checksum: int)
    requires
        holds_header(data, header_size, header),
        holds_le(data, 16, 4, checksum),
    ensures
        header_in(data) == (if checksum == 0 || checksum == reversed_crc32_of(
            0xedb8_8320,
            0,
            data.take(16) + seq![0u8, 0u8, 0u8, 0u8] + data.subrange(20, header_size),
        ) {
            Ok::<GptHeader, DriverError>(header)
        } else {
            Err(DriverError::ChecksumMismatch)
        }),
{
    broadcast use lemma_holds_le;

    lemma_uuid_stored(data, 56, header.disk_identifier);
    assert(u64_be(data, 0) == 0x4546_4920_5041_5254);
    assert(checksum_data(data, header_size as nat) =~= data.take(16) + seq![0u8, 0u8, 0u8, 0u8]
        + data.subrange(20, header_size));
}

/// What a partition entry that is used stores.
pub struct GptStoredEntry {
    pub start_block_number: u64,
    pub end_block_number: u64,
    pub type_identifier: Uuid,
    pub identifier: Uuid,
    pub attribute_flags: u64,
    pub name: Seq<char>,
}

/// Whether a partition entry is stored: in little-endian order the types, the first and the last block,
/// the flags and, behind these, the name in UTF-16, which ends with zeros.
pub open spec fn holds_entry(data: Seq<u8>, entry: GptStoredEntry) -> bool {
    let units = encode_utf16(entry.name);
    &&& 128 <= data.len()
    &&& holds_uuid_le(data, 0, entry.type_identifier)
    &&& holds_uuid_le(data, 16, entry.identifier)
    &&& holds_le(data, 32, 8, entry.start_block_number as int)
    &&& holds_le(data, 40, 8, entry.end_block_number as int)
    &&& holds_le(data, 48, 8, entry.attribute_flags as int)
    &&& units.len() <= 36
    &&& !units.contains(0)
    &&& holds_units_le(data, 56, units)
    &&& forall|i: int| 56 + 2 * units.len() <= i < 128 ==> #[trigger] data[i] == 0
}

/// An entry that is stored gives a partition: it starts with its first block and ends with its last
/// one.
pub proof fn lemma_entry_stored(
    header: GptHeader,
    bytes_per_sector: u16,
    data: Seq<u8>,
    entry: GptStoredEntry,
    index: int,
    partitions: Seq<GptPartitionInfo>,
)
    requires
        is_supported_sector_size(bytes_per_sector),
        holds_entry(data, entry),
        0 <= index,
        entry.type_identifier != nil_uuid(),
        header.area_start_block_number <= entry.start_block_number <= entry.end_block_number
            <= header.area_end_block_number,
        previous_end(partitions) <= entry.start_block_number * bytes_per_sector,
        (entry.end_block_number + 1) * bytes_per_sector <= u64::MAX,
    ensures
        ({
            let result = add_entry(header, bytes_per_sector, data, index, partitions);
            let partition = result->Ok_0.last();
            &&& result is Ok
            &&& result->Ok_0.drop_last() == partitions
            &&& partition.entry_index == index
            &&& partition.offset == entry.start_block_number * bytes_per_sector
            &&& partition.offset + partition.size == (entry.end_block_number + 1)
                * bytes_per_sector
            &&& partition.type_identifier == entry.type_identifier
            &&& partition.identifier == entry.identifier
            &&& partition.attribute_flags == entry.attribute_flags
            &&& partition.name == entry.name
        }),
{
    broadcast use lemma_holds_le;

    lemma_uuid_stored(data, 0, entry.type_identifier);
    lemma_uuid_stored(data, 16, entry.identifier);
    lemma_name_stored(data, entry);
    let result = add_entry(header, bytes_per_sector, data, index, partitions);
    let start = entry.start_block_number as int;
    let end = entry.end_block_number as int;
    let size = bytes_per_sector as int;
    assert(start * size + (end - start + 1) * size == (end + 1) * size) by (nonlinear_arith);
    assert(0 <= start * size && 0 <= (end - start + 1) * size) by (nonlinear_arith)
        requires
            0 <= start <= end,
            0 <= size,
    ;
    assert(result->Ok_0.drop_last() =~= partitions);
}

proof fn lemma_name_stored(data: Seq<u8>, entry: GptStoredEntry)
    requires
        holds_entry(data, entry),
    ensures
        entry_name(data) == Some(entry.name),
{
    let units = encode_utf16(entry.name);
    let count = units.len() as int;
    let all = Seq::new(
        36,
        |i: int|
            if i < count {
                units[i]
            } else {
                0u16
            },
    );
    assert forall|i: int| 0 <= i < 36 implies holds_le(
        data,
        56 + 2 * i,
        2,
        #[trigger] all[i] as int,
    ) by {
        if i < count {
            assert(holds_le(data, 56 + 2 * i, 2, units[i] as int));
        } else {
            reveal_with_fuel(holds_le, 3);
            assert(data[56 + 2 * i] == 0 && data[57 + 2 * i] == 0);
        }
    }
    lemma_units_le(data, 56, 128, all);
    assert forall|i: int| 0 <= i < count implies all[i] != 0 by {
        assert(units.contains(units[i]));
    }
    lemma_before_zero(all, count);
    assert(all.take(count) =~= units);
    lemma_utf16_text(entry.name);
}

/// An entry that has no type is passed over.
pub proof fn lemma_unused_entry(
    header: GptHeader,
    bytes_per_sector: u16,
    data: Seq<u8>,
    entry: GptStoredEntry,
    index: int,
    partitions: Seq<GptPartitionInfo>,
)
    requires
        holds_entry(data, entry),
        entry.type_identifier == nil_uuid(),
    ensures
        add_entry(header, bytes_per_sector, data, index, partitions) == Ok::<
            Seq<GptPartitionInfo>,
            DriverError,
        >(partitions),
{
    lemma_uuid_stored(data, 0, entry.type_identifier);
    lemma_name_stored(data, entry);
}

/// The entries of a header lie one after another, from the block on that the header says, and the
/// partitions are those that each of them adds, in their order.
pub proof fn lemma_entries_added(
    content: Content,
    header: GptHeader,
    bytes_per_sector: u16,
    added: Seq<Seq<GptPartitionInfo>>,
    index: int,
)
    requires
        0 <= index <= header.number_of_entries,
        added.len() == header.number_of_entries + 1,
        forall|i: int|
            0 <= i < header.number_of_entries ==> {
                let offset = header.entries_start_block_number * bytes_per_sector + i
                    * header.entry_data_size;
                &&& content.has(offset, header.entry_data_size as int)
                &&& add_entry(
                    header,
                    bytes_per_sector,
                    content.window(offset, header.entry_data_size as nat),
                    i,
                    #[trigger] added[i],
                ) == Ok::<Seq<GptPartitionInfo>, DriverError>(added[i + 1])
            },
    ensures
        partitions_from(content, header, bytes_per_sector, index, added[index]) == Ok::<
            Seq<GptPartitionInfo>,
            DriverError,
        >(added.last()),
    decreases header.number_of_entries - index,
{
    if index < header.number_of_entries {
        let offset = header.entries_start_block_number * bytes_per_sector + index
            * header.entry_data_size;
        assert(content.has(offset, header.entry_data_size as int));
        lemma_entries_added(content, header, bytes_per_sector, added, index + 1);
    }
}

/// Whether partitions follow each other without overlap.
pub open spec fn are_ordered(partitions: Seq<GptPartitionInfo>) -> bool {
    &&& forall|i: int|
        0 <= i < partitions.len() ==> (#[trigger] partitions[i]).offset + partitions[i].size
            <= partitions.last().offset + partitions.last().size
    &&& forall|i: int, j: int|
        0 <= i < j < partitions.len() ==> (#[trigger] partitions[i]).offset + partitions[i].size <= (
        #[trigger] partitions[j]).offset
}

/// The partitions of a volume system follow each other without overlap.
pub proof fn lemma_partitions_ordered(content: Content, bytes_per_sector: u16)
    requires
        volume_with(content, bytes_per_sector) is Ok,
    ensures
        are_ordered(volume_with(content, bytes_per_sector)->Ok_0.partitions),
{
    let header = header_at(content, bytes_per_sector as int, bytes_per_sector)->Ok_0;
    lemma_ordered_from(content, header, bytes_per_sector, 0, Seq::empty());
}

proof fn lemma_ordered_from(
    content: Content,
    header: GptHeader,
    bytes_per_sector: u16,
    index: int,
    partitions: Seq<GptPartitionInfo>,
)
    requires
        partitions_from(content, header, bytes_per_sector, index, partitions) is Ok,
        are_ordered(partitions),
    ensures
        are_ordered(
            partitions_from(content, header, bytes_per_sector, index, partitions)->Ok_0,
        ),
    decreases header.number_of_entries - index,
{
    if index < header.number_of_entries {
        let data = content.exact(
            entries_offset(header, bytes_per_sector) + index * header.entry_data_size,
            header.entry_data_size as nat,
        )->Ok_0;
        let more = add_entry(header, bytes_per_sector, data, index, partitions)->Ok_0;
        assert(are_ordered(more)) by {
            if more != partitions {
                assert(more.drop_last() =~= partitions);
                assert forall|i: int| 0 <= i < more.len() implies (#[trigger] more[i]).offset
                    + more[i].size <= more.last().offset + more.last().size by {
                    if i < partitions.len() {
                        assert(more[i] == partitions[i]);
                    }
                }
                assert forall|i: int, j: int| 0 <= i < j < more.len() implies (
                #[trigger] more[i]).offset + more[i].size <= (#[trigger] more[j]).offset by {
                    assert(more[i] == partitions[i]);
                    if j < partitions.len() {
                        assert(more[j] == partitions[j]);
                    }
                }
            }
        }
        lemma_ordered_from(content, header, bytes_per_sector, index + 1, more);
    }
}

/// GUID Partition Table partition metadata.
pub struct GptPartition {
    entry_index: usize,
    offset: u64,
    size: u64,
    type_identifier: Uuid,
    identifier: Uuid,
    attribute_flags: u64,
    name: String,
}

impl GptPartition {
    /// What is known of the partition.
    pub closed spec fn view(&self) -> GptPartitionInfo {
        GptPartitionInfo {
            entry_index: self.entry_index as nat,
            offset: self.offset,
            size: self.size,
            type_identifier: self.type_identifier,
            identifier: self.identifier,
            attribute_flags: self.attribute_flags,
            name: self.name@,
        }
    }

    /// Retrieves the partition table entry index.
    pub fn entry_index(&self) -> (entry_index: usize)
        ensures
            entry_index == self@.entry_index,
    {
        self.entry_index
    }

    /// Retrieves the partition offset relative to the start of the image.
    pub fn offset(&self) -> (offset: u64)
        ensures
            offset == self@.offset,
    {
        self.offset
    }

    /// Retrieves the partition size in bytes.
    pub fn size(&self) -> (size: u64)
        ensures
            size == self@.size,
    {
        self.size
    }

    /// Retrieves the partition type identifier.
    pub fn type_identifier(&self) -> (type_identifier: &Uuid)
        ensures
            *type_identifier == self@.type_identifier,
    {
        &self.type_identifier
    }

    /// Retrieves the partition identifier.
    pub fn identifier(&self) -> (identifier: &Uuid)
        ensures
            *identifier == self@.identifier,
    {
        &self.identifier
    }

    /// Retrieves the partition attribute flags.
    pub fn attribute_flags(&self) -> (attribute_flags: u64)
        ensures
            attribute_flags == self@.attribute_flags,
    {
        self.attribute_flags
    }

    /// Retrieves the partition name.
    pub fn name(&self) -> (name: &str)
        ensures
            name@ == self@.name,
    {
        self.name.as_str()
    }

    /// Opens the partition as an immutable slice data source.
    pub fn open_source(&self, source: DataSourceReference) -> (partition: DataSourceReference)
        ensures
            is_slice(partition, source, self@.offset, self@.size),
    {
        open_slice(source, self.offset, self.size)
    }
}

/// The partitions as they are known.
pub open spec fn partitions_view(partitions: Seq<GptPartition>) -> Seq<GptPartitionInfo> {
    Seq::new(partitions.len(), |i: int| partitions[i]@)
}

fn verify_checksum(stored: u32, data: &[u8]) -> (fits: bool)
    ensures
        fits == checksum_fits(stored, data@),
{
    stored == 0 || stored == reversed_crc32(GPT_CRC32_POLYNOMIAL, 0, data)
}

fn parse_header(data: &[u8]) -> (result: Result<GptHeader, DriverError>)
    requires
        data@.len() >= 92,
    ensures
        result == header_in(data@),
{
    let header_size: u32 = read_u32_le(data, 12);
    if read_u64_be(data, 0) != 0x4546_4920_5041_5254 || read_u32_le(data, 8) != 0x1_0000
        || header_size < 92 || header_size as u64 > data.len() as u64 {
        return Err(DriverError::Unsupported);
    }
    let size: usize = header_size as usize;
    let mut checked: Vec<u8> = Vec::new();
    let mut index: usize = 0;
    while index < size
        invariant
            index <= size <= data@.len(),
            checked@ == checksum_data(data@, index as nat),
        decreases size - index,
    {
        checked.push(
            if 16 <= index && index < 20 {
                0
            } else {
                data[index]
            },
        );
        index += 1;
        assert(checked@ =~= checksum_data(data@, index as nat));
    }
    if !verify_checksum(read_u32_le(data, 16), checked.as_slice()) {
        return Err(DriverError::ChecksumMismatch);
    }
    Ok(
        GptHeader {
            header_block_number: read_u64_le(data, 24),
            backup_header_block_number: read_u64_le(data, 32),
            area_start_block_number: read_u64_le(data, 40),
            area_end_block_number: read_u64_le(data, 48),
            disk_identifier: Uuid::from_le_bytes(data, 56),
            entries_start_block_number: read_u64_le(data, 72),
            number_of_entries: read_u32_le(data, 80),
            entry_data_size: read_u32_le(data, 84),
            entries_data_checksum: read_u32_le(data, 88),
        },
    )
}

fn read_header(source: &DataSourceReference, offset: u64, bytes_per_sector: u16) -> (result:
    Result<GptHeader, DriverError>)
    requires
        is_supported_sector_size(bytes_per_sector),
    ensures
        match result {
            Ok(header) => header_at(source.content(), offset as int, bytes_per_sector) == Ok::<
                GptHeader,
                DriverError,
            >(header),
            Err(error) => source.reliable() ==> header_at(
                source.content(),
                offset as int,
                bytes_per_sector,
            ) == Err::<GptHeader, DriverError>(error),
        },
{
    let data: Vec<u8> = read_bytes(source, offset, bytes_per_sector as usize)?;
    parse_header(data.as_slice())
}

/// Checks that there is a backup header.
fn check_backup_header(
    source: &DataSourceReference,
    source_size: u64,
    bytes_per_sector: u16,
    header: &GptHeader,
) -> (result: Result<(), DriverError>)
    requires
        is_supported_sector_size(bytes_per_sector),
        source_size == source.content().size,
    ensures
        match result {
            Ok(()) => backup_failure(source.content(), *header, bytes_per_sector) is None,
            Err(error) => source.reliable() ==> backup_failure(
                source.content(),
                *header,
                bytes_per_sector,
            ) == Some(error),
        },
{
    let offset: u64 = header.backup_header_block_number.checked_mul(bytes_per_sector as u64).ok_or(
        DriverError::Overflow,
    )?;
    match read_header(source, offset, bytes_per_sector) {
        Ok(_) => Ok(()),
        Err(_) => {
            if source_size < bytes_per_sector as u64 {
                return Err(DriverError::Unsupported);
            }
            match read_header(source, source_size - bytes_per_sector as u64, bytes_per_sector) {
                Ok(_) => Ok(()),
                Err(error) => Err(error),
            }
        },
    }
}

/// Reads a partition entry.
fn read_entry(
    header: &GptHeader,
    bytes_per_sector: u16,
    data: &[u8],
    index: u32,
    end_offset: u128,
    Ghost(partitions): Ghost<Seq<GptPartitionInfo>>,
) -> (result: Result<Option<GptPartition>, DriverError>)
    requires
        data@.len() >= 128,
        is_supported_sector_size(bytes_per_sector),
        end_offset == previous_end(partitions),
    ensures
        match result {
            Ok(Some(partition)) => add_entry(
                *header,
                bytes_per_sector,
                data@,
                index as int,
                partitions,
            ) == Ok::<Seq<GptPartitionInfo>, DriverError>(partitions.push(partition@)),
            Ok(None) => add_entry(*header, bytes_per_sector, data@, index as int, partitions)
                == Ok::<Seq<GptPartitionInfo>, DriverError>(partitions),
            Err(error) => add_entry(*header, bytes_per_sector, data@, index as int, partitions)
                == Err::<Seq<GptPartitionInfo>, DriverError>(error),
        },
{
    let name_data: &[u8] = vstd::slice::slice_subrange(data, 56, 128);
    let units: Vec<u16> = read_units_le(name_data, true);
    let name: String = decode_utf16(units.as_slice()).ok_or(DriverError::Encoding)?;
    let type_identifier: Uuid = Uuid::from_le_bytes(data, 0);
    if type_identifier.is_nil() {
        return Ok(None);
    }
    let start: u64 = read_u64_le(data, 32);
    let end: u64 = read_u64_le(data, 40);
    if start < header.area_start_block_number || end > header.area_end_block_number {
        return Err(DriverError::OutOfBounds);
    }
    if end < start {
        return Err(DriverError::Invalid);
    }
    if (start as u128) * (bytes_per_sector as u128) < end_offset {
        return Err(DriverError::Overlap);
    }
    let offset: u64 = start.checked_mul(bytes_per_sector as u64).ok_or(DriverError::Overflow)?;
    let blocks: u64 = (end - start).checked_add(1).ok_or(DriverError::Overflow)?;
    let size: u64 = blocks.checked_mul(bytes_per_sector as u64).ok_or(DriverError::Overflow)?;
    Ok(
        Some(
            GptPartition {
                entry_index: index as usize,
                offset,
                size,
                type_identifier,
                identifier: Uuid::from_le_bytes(data, 16),
                attribute_flags: read_u64_le(data, 48),
                name,
            },
        ),
    )
}

/// The data in front of an offset, with that at the offset behind it, is the data in front of its
/// end.
proof fn lemma_window_extended(content: Content, start: int, offset: int, size: nat)
    requires
        start <= offset,
        content.has(start, offset - start),
        content.has(offset, size as int),
    ensures
        content.has(start, offset + size - start),
        content.window(start, (offset - start) as nat) + content.window(offset, size)
            == content.window(start, (offset + size - start) as nat),
{
    assert(content.window(start, (offset - start) as nat) + content.window(offset, size)
        =~= content.window(start, (offset + size - start) as nat));
}

/// Reads the partition entries.
fn read_partition_entries(
    source: &DataSourceReference,
    bytes_per_sector: u16,
    header: &GptHeader,
) -> (result: Result<Vec<GptPartition>, DriverError>)
    requires
        is_supported_sector_size(bytes_per_sector),
        is_supported_header(*header),
    ensures
        match result {
            Ok(partitions) => partitions_of(source.content(), *header, bytes_per_sector) == Ok::<
                Seq<GptPartitionInfo>,
                DriverError,
            >(partitions_view(partitions@)),
            Err(error) => source.reliable() ==> partitions_of(
                source.content(),
                *header,
                bytes_per_sector,
            ) == Err::<Seq<GptPartitionInfo>, DriverError>(error),
        },
{
    let ghost content = source.content();
    let entry_size: u64 = header.entry_data_size as u64;
    let count: u64 = header.number_of_entries as u64;
    proof {
        assert(0 <= count * entry_size <= 0xffff_ffff * 0xffff_ffff) by (nonlinear_arith)
            requires
                0 <= count <= 0xffff_ffff,
                0 <= entry_size <= 0xffff_ffff,
        ;
    }
    let total: u64 = count * entry_size;
    let start: u64 = header.entries_start_block_number.checked_mul(bytes_per_sector as u64).ok_or(
        DriverError::Overflow,
    )?;
    let area: u64 = header.area_start_block_number.checked_mul(bytes_per_sector as u64).ok_or(
        DriverError::Overflow,
    )?;
    if start > area || total > area - start {
        return Err(DriverError::Overlap);
    }
    let mut checked: Vec<u8> = Vec::new();
    let mut partitions: Vec<GptPartition> = Vec::new();
    let mut end_offset: u128 = 0;
    let mut index: u32 = 0;
    let mut offset: u64 = start;
    assert(partitions_view(partitions@) =~= Seq::<GptPartitionInfo>::empty());
    assert(checked@ =~= content.window(start as int, 0));
    while index < header.number_of_entries
        invariant
            content == source.content(),
            is_supported_sector_size(bytes_per_sector),
            is_supported_header(*header),
            entry_size == header.entry_data_size,
            count == header.number_of_entries,
            total == entries_size(*header),
            total == count * entry_size,
            start == entries_offset(*header, bytes_per_sector),
            entries_failure(*header, bytes_per_sector) is None,
            start + total <= u64::MAX,
            index <= count,
            offset == start + index * entry_size,
            partitions_from(content, *header, bytes_per_sector, 0, Seq::empty())
                == partitions_from(
                content,
                *header,
                bytes_per_sector,
                index as int,
                partitions_view(partitions@),
            ),
            end_offset == previous_end(partitions_view(partitions@)),
            start <= offset,
            content.has(start as int, offset - start),
            checked@ == content.window(start as int, (offset - start) as nat),
        decreases count - index,
    {
        let ghost views = partitions_view(partitions@);
        proof {
            assert(0 <= index * entry_size && (index + 1) * entry_size == index * entry_size
                + entry_size && (index + 1) * entry_size <= count * entry_size)
                by (nonlinear_arith)
                requires
                    0 <= index < count,
                    0 <= entry_size,
            ;
        }
        let data: Vec<u8> = read_bytes(source, offset, header.entry_data_size as usize)?;
        let entry: Option<GptPartition> = read_entry(
            header,
            bytes_per_sector,
            data.as_slice(),
            index,
            end_offset,
            Ghost(views),
        )?;
        append_bytes(&mut checked, data.as_slice());
        proof {
            lemma_window_extended(content, start as int, offset as int, entry_size as nat);
        }
        if let Some(partition) = entry {
            end_offset = partition.offset as u128 + partition.size as u128;
            partitions.push(partition);
            assert(partitions_view(partitions@) =~= views.push(partition@));
        }
        offset = offset + entry_size;
        index += 1;
    }
    if !verify_checksum(header.entries_data_checksum, checked.as_slice()) {
        return Err(DriverError::ChecksumMismatch);
    }
    Ok(partitions)
}

fn append_bytes(data: &mut Vec<u8>, more: &[u8])
    ensures
        final(data)@ == old(data)@ + more@,
{
    let mut index: usize = 0;
    assert(data@ =~= old(data)@ + more@.take(0));
    while index < more.len()
        invariant
            index <= more@.len(),
            data@ == old(data)@ + more@.take(index as int),
        decreases more@.len() - index,
    {
        data.push(more[index]);
        index += 1;
        assert(data@ =~= old(data)@ + more@.take(index as int));
    }
    assert(more@.take(index as int) =~= more@);
}

/// GUID Partition Table metadata.
pub struct GptVolumeSystem {
    bytes_per_sector: u16,
    disk_identifier: Uuid,
    partitions: Vec<GptPartition>,
}

impl GptVolumeSystem {
    /// What is known of the volume system.
    pub closed spec fn view(&self) -> GptVolume {
        GptVolume {
            bytes_per_sector: self.bytes_per_sector,
            disk_identifier: self.disk_identifier,
            partitions: partitions_view(self.partitions@),
        }
    }

    /// Opens and parses a GUID Partition Table.
    pub fn open(source: &DataSourceReference) -> (result: Result<Self, DriverError>)
        ensures
            match result {
                Ok(volume) => {
                    &&& volume_with(source.content(), volume@.bytes_per_sector) == Ok::<
                        GptVolume,
                        DriverError,
                    >(volume@)
                    &&& source.reliable() ==> volume_of(source.content()) == Ok::<
                        GptVolume,
                        DriverError,
                    >(volume@)
                },
                Err(error) => source.reliable() ==> volume_of(source.content()) == Err::<
                    GptVolume,
                    DriverError,
                >(error),
            },
    {
        if let Ok(volume) = Self::open_with_bytes_per_sector(source, 512) {
            return Ok(volume);
        }
        if let Ok(volume) = Self::open_with_bytes_per_sector(source, 4096) {
            return Ok(volume);
        }
        if let Ok(volume) = Self::open_with_bytes_per_sector(source, 2048) {
            return Ok(volume);
        }
        Self::open_with_bytes_per_sector(source, 1024)
    }

    /// Opens and parses a GUID Partition Table with a fixed bytes-per-sector value.
    pub fn open_with_bytes_per_sector(source: &DataSourceReference, bytes_per_sector: u16) -> (result:
        Result<Self, DriverError>)
        ensures
            match result {
                Ok(volume) => {
                    &&& volume_with(source.content(), bytes_per_sector) == Ok::<
                        GptVolume,
                        DriverError,
                    >(volume@)
                    &&& volume@.bytes_per_sector == bytes_per_sector
                },
                Err(error) => source.reliable() ==> volume_with(
                    source.content(),
                    bytes_per_sector,
                ) == Err::<GptVolume, DriverError>(error),
            },
    {
        if bytes_per_sector != 512 && bytes_per_sector != 4096 && bytes_per_sector != 2048
            && bytes_per_sector != 1024 {
            return Err(DriverError::Unsupported);
        }
        let source_size: u64 = source.size()?;
        let header: GptHeader = read_header(source, bytes_per_sector as u64, bytes_per_sector)?;
        if header.header_block_number != 1 || header.area_end_block_number
            < header.area_start_block_number || header.number_of_entries == 0
            || header.entry_data_size < 128 || header.entry_data_size % 8 != 0 {
            return Err(DriverError::Unsupported);
        }
        check_backup_header(source, source_size, bytes_per_sector, &header)?;
        let partitions: Vec<GptPartition> = read_partition_entries(
            source,
            bytes_per_sector,
            &header,
        )?;
        Ok(
            GptVolumeSystem {
                bytes_per_sector,
                disk_identifier: header.disk_identifier,
                partitions,
            },
        )
    }

    /// Retrieves the disk identifier.
    pub fn disk_identifier(&self) -> (disk_identifier: &Uuid)
        ensures
            *disk_identifier == self@.disk_identifier,
    {
        &self.disk_identifier
    }

    /// Retrieves the bytes-per-sector value.
    pub fn bytes_per_sector(&self) -> (bytes_per_sector: u16)
        ensures
            bytes_per_sector == self@.bytes_per_sector,
    {
        self.bytes_per_sector
    }

    /// Retrieves all parsed partitions.
    pub fn partitions(&self) -> (partitions: &[GptPartition])
        ensures
            partitions_view(partitions@) == self@.partitions,
    {
        self.partitions.as_slice()
    }

    /// Retrieves a partition by index.
    pub fn partition(&self, partition_index: usize) -> (result: Result<&GptPartition, DriverError>)
        ensures
            match result {
                Ok(partition) => partition_index < self@.partitions.len() && partition@
                    == self@.partitions[partition_index as int],
                Err(error) => error == DriverError::OutOfBounds && partition_index
                    >= self@.partitions.len(),
            },
    {
        if partition_index < self.partitions.len() {
            Ok(&self.partitions[partition_index])
        } else {
            Err(DriverError::OutOfBounds)
        }
    }
}

} // verus!
