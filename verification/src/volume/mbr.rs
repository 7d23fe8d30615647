//! Master Boot Record (MBR) volume systems.

use std::collections::HashSet;

use vstd::prelude::*;

use super::attempts::{first_opened, lemma_first_opened};
use crate::bytes::{holds_le, lemma_holds_le, read_u16_le, read_u32_le, u16_le, u32_le};
use crate::error::DriverError;
use crate::source::data_source::{read_bytes, Content, DataSource, DataSourceReference};
use crate::source::slice::{is_slice, open_slice};

verus! {

/// Master Boot Record partition metadata.
#[derive(Clone, Copy, Debug, PartialEq, Eq, Structural)]
pub struct MbrPartition {
    pub entry_index: usize,
    pub offset: u64,
    pub size: u64,
    pub partition_type: u8,
    pub flags: u8,
}

/// What is known of an opened volume system.
pub struct MbrVolume {
    pub bytes_per_sector: u32,
    pub disk_identity: u32,
    pub partitions: Seq<MbrPartition>,
}

/// A partition table entry.
#[derive(Clone, Copy, Debug, PartialEq, Eq, Structural)]
pub struct MbrPartitionEntry {
    pub flags: u8,
    pub partition_type: u8,
    pub start_address_lba: u32,
    pub number_of_sectors: u32,
}

impl MbrPartitionEntry {
    /// Whether the entry is not used.
    pub open spec fn spec_is_empty(self) -> bool {
        self.partition_type == 0 || self.number_of_sectors == 0
    }

    /// Whether the entry is for an extended partition.
    pub open spec fn spec_is_extended(self) -> bool {
        self.partition_type == 0x05 || self.partition_type == 0x0f
    }
}

/// One of the four entries of a boot record.
pub open spec fn entry_in(data: Seq<u8>, index: int) -> MbrPartitionEntry {
    let offset = 446 + 16 * index;
    MbrPartitionEntry {
        flags: data[offset],
        partition_type: data[offset + 4],
        start_address_lba: u32_le(data, offset + 8),
        number_of_sectors: u32_le(data, offset + 12),
    }
}

/// The boot record at an offset, which has the signature 55 aa.
pub open spec fn boot_record_at(content: Content, offset: u64) -> Result<Seq<u8>, DriverError> {
    match content.exact(offset as int, 512) {
        Err(error) => Err(error),
        Ok(data) => if u16_le(data, 510) != 0xaa55 {
            Err(DriverError::Unsupported)
        } else {
            Ok(data)
        },
    }
}

/// The partition of an entry that starts at an offset.
pub open spec fn partition_of(
    entry_index: int,
    entry: MbrPartitionEntry,
    offset: int,
    bytes_per_sector: u32,
) -> MbrPartition {
    MbrPartition {
        entry_index: entry_index as usize,
        offset: offset as u64,
        size: (entry.number_of_sectors * bytes_per_sector) as u64,
        partition_type: entry.partition_type,
        flags: entry.flags,
    }
}

/// The partitions of the primary entries from `index` on, after those of the entries before it,
/// and the offset of the extended partition, of which there is one at most.
pub open spec fn primary_partitions(
    data: Seq<u8>,
    bytes_per_sector: u32,
    index: int,
    partitions: Seq<MbrPartition>,
    extended_offset: Option<u64>,
) -> Result<(Seq<MbrPartition>, Option<u64>), DriverError>
    decreases 4 - index,
{
    let entry = entry_in(data, index);
    let offset = entry.start_address_lba * bytes_per_sector;
    if index >= 4 {
        Ok((partitions, extended_offset))
    } else if entry.spec_is_empty() {
        primary_partitions(data, bytes_per_sector, index + 1, partitions, extended_offset)
    } else if entry.spec_is_extended() {
        if extended_offset is Some {
            Err(DriverError::Unsupported)
        } else {
            primary_partitions(
                data,
                bytes_per_sector,
                index + 1,
                partitions,
                Some(offset as u64),
            )
        }
    } else {
        primary_partitions(
            data,
            bytes_per_sector,
            index + 1,
            partitions.push(
                partition_of(partitions.len() as int, entry, offset, bytes_per_sector),
            ),
            extended_offset,
        )
    }
}

/// The logical partition and the next link that the entries of an extended boot record from
/// `index` on give. There is one of each at most. A link is relative to the extended partition.
pub open spec fn extended_entries(
    data: Seq<u8>,
    bytes_per_sector: u32,
    base_offset: u64,
    index: int,
    logical: Option<MbrPartitionEntry>,
    next_offset: Option<u64>,
) -> Result<(Option<MbrPartitionEntry>, Option<u64>), DriverError>
    decreases 4 - index,
{
    let entry = entry_in(data, index);
    let offset = base_offset + entry.start_address_lba * bytes_per_sector;
    if index >= 4 {
        Ok((logical, next_offset))
    } else if entry.spec_is_empty() {
        extended_entries(data, bytes_per_sector, base_offset, index + 1, logical, next_offset)
    } else if entry.spec_is_extended() {
        if next_offset is Some {
            Err(DriverError::Unsupported)
        } else if offset > u64::MAX {
            Err(DriverError::Overflow)
        } else {
            extended_entries(
                data,
                bytes_per_sector,
                base_offset,
                index + 1,
                logical,
                Some(offset as u64),
            )
        }
    } else if logical is Some {
        Err(DriverError::Unsupported)
    } else {
        extended_entries(data, bytes_per_sector, base_offset, index + 1, Some(entry), next_offset)
    }
}

/// The partitions of a chain of extended boot records from the one at `offset` on, after those of
/// the records that were visited. The chain has at most 1024 records and does not lead back to one
/// that was visited.
pub open spec fn chain_partitions(
    content: Content,
    bytes_per_sector: u32,
    base_offset: u64,
    offset: u64,
    visited: Seq<u64>,
    partitions: Seq<MbrPartition>,
) -> Result<Seq<MbrPartition>, DriverError>
    decreases 1024 - visited.len(),
{
    if visited.len() >= 1024 {
        Err(DriverError::LimitExceeded)
    } else if visited.contains(offset) {
        Err(DriverError::Cycle)
    } else {
        match boot_record_at(content, offset) {
            Err(error) => Err(error),
            Ok(data) => match extended_entries(
                data,
                bytes_per_sector,
                base_offset,
                0,
                None,
                None,
            ) {
                Err(error) => Err(error),
                Ok((None, _)) => Err(DriverError::Missing),
                Ok((Some(entry), next_offset)) => {
                    let start = offset + entry.start_address_lba * bytes_per_sector;
                    let extended = partitions.push(
                        partition_of(partitions.len() as int, entry, start, bytes_per_sector),
                    );
                    if start > u64::MAX {
                        Err(DriverError::Overflow)
                    } else {
                        match next_offset {
                            None => Ok(extended),
                            Some(next) => chain_partitions(
                                content,
                                bytes_per_sector,
                                base_offset,
                                next,
                                visited.push(offset),
                                extended,
                            ),
                        }
                    }
                },
            },
        }
    }
}

/// Whether two partitions have no byte in common.
pub open spec fn are_disjoint(a: MbrPartition, b: MbrPartition) -> bool {
    a.offset + a.size <= b.offset || b.offset + b.size <= a.offset
}

/// Whether partitions lie in a source of the given size and do not overlap.
pub open spec fn are_valid(partitions: Seq<MbrPartition>, source_size: nat) -> bool {
    &&& forall|i: int|
        0 <= i < partitions.len() ==> (#[trigger] partitions[i]).offset + partitions[i].size
            <= source_size
    &&& forall|i: int, j: int|
        0 <= i < j < partitions.len() ==> are_disjoint(
            #[trigger] partitions[i],
            #[trigger] partitions[j],
        )
}

/// Whether a number of bytes per sector is supported.
pub open spec fn is_supported_sector_size(bytes_per_sector: u32) -> bool {
    bytes_per_sector == 512 || bytes_per_sector == 4096 || bytes_per_sector == 2048
        || bytes_per_sector == 1024
}

/// The partitions of a boot record, the logical ones after the primary ones.
pub open spec fn partitions_of(content: Content, data: Seq<u8>, bytes_per_sector: u32) -> Result<
    Seq<MbrPartition>,
    DriverError,
> {
    match primary_partitions(data, bytes_per_sector, 0, Seq::empty(), None) {
        Err(error) => Err(error),
        Ok((partitions, None)) => Ok(partitions),
        Ok((partitions, Some(extended_offset))) => chain_partitions(
            content,
            bytes_per_sector,
            extended_offset,
            extended_offset,
            Seq::empty(),
            partitions,
        ),
    }
}

/// The volume system with a fixed number of bytes per sector.
pub open spec fn volume_with(content: Content, bytes_per_sector: u32) -> Result<
    MbrVolume,
    DriverError,
> {
    if !is_supported_sector_size(bytes_per_sector) {
        Err(DriverError::Unsupported)
    } else {
        match boot_record_at(content, 0) {
            Err(error) => Err(error),
            Ok(data) => match partitions_of(content, data, bytes_per_sector) {
                Err(error) => Err(error),
                Ok(partitions) => if are_valid(partitions, content.size) {
                    Ok(
                        MbrVolume {
                            bytes_per_sector,
                            disk_identity: u32_le(data, 440),
                            partitions,
                        },
                    )
                } else {
                    Err(DriverError::Invalid)
                },
            },
        }
    }
}

/// The volume system with the first number of bytes per sector with which it can be read.
pub open spec fn volume_of(content: Content) -> Result<MbrVolume, DriverError> {
    if volume_with(content, 512) is Ok {
        volume_with(content, 512)
    } else if volume_with(content, 4096) is Ok {
        volume_with(content, 4096)
    } else if volume_with(content, 2048) is Ok {
        volume_with(content, 2048)
    } else {
        volume_with(content, 1024)
    }
}

/// Whether a boot record is stored at an offset: four entries of 16 bytes from offset 446 on, each with
/// flags, a type and, in little-endian order, its first sector and its number of sectors, and the bytes
/// 55 and aa at its end.
pub open spec fn holds_record(
    content: Content,
    offset: int,
    entries: Seq<MbrPartitionEntry>,
) -> bool {
    let data = content.window(offset, 512);
    &&& content.has(offset, 512)
    &&& data[510] == 0x55 && data[511] == 0xaa
    &&& entries.len() == 4
    &&& forall|i: int|
        0 <= i < 4 ==> {
            let entry = #[trigger] entries[i];
            &&& data[446 + 16 * i] == entry.flags
            &&& data[450 + 16 * i] == entry.partition_type
            &&& holds_le(data, 454 + 16 * i, 4, entry.start_address_lba as int)
            &&& holds_le(data, 458 + 16 * i, 4, entry.number_of_sectors as int)
        }
}

proof fn lemma_record_stored(content: Content, offset: u64, entries: Seq<MbrPartitionEntry>)
    requires
        holds_record(content, offset as int, entries),
    ensures
        boot_record_at(content, offset) == Ok::<Seq<u8>, DriverError>(
            content.window(offset as int, 512),
        ),
        forall|i: int|
            0 <= i < 4 ==> #[trigger] entry_in(content.window(offset as int, 512), i) == entries[i],
{
    broadcast use lemma_holds_le;

    let data = content.window(offset as int, 512);
    assert forall|i: int| 0 <= i < 4 implies #[trigger] entry_in(data, i) == entries[i] by {
        assert(holds_le(data, 454 + 16 * i, 4, entries[i].start_address_lba as int));
        assert(holds_le(data, 458 + 16 * i, 4, entries[i].number_of_sectors as int));
    }
}

/// Whether a partition is the one with an index that an entry gives which starts at an offset.
pub open spec fn is_partition(
    partition: MbrPartition,
    index: int,
    entry: MbrPartitionEntry,
    offset: int,
    bytes_per_sector: u32,
) -> bool {
    &&& partition.entry_index == index
    &&& partition.offset == offset
    &&& partition.size == entry.number_of_sectors * bytes_per_sector
    &&& partition.partition_type == entry.partition_type
    &&& partition.flags == entry.flags
}

/// Whether what was read of the entries of a boot record is the partitions of those that are used, and
/// the offset of the extended partition.
pub open spec fn are_primary(
    result: Result<(Seq<MbrPartition>, Option<u64>), DriverError>,
    entries: Seq<MbrPartitionEntry>,
    bytes_per_sector: u32,
    used: Seq<int>,
    extended: Option<int>,
) -> bool {
    &&& result is Ok
    &&& result->Ok_0.0.len() == used.len()
    &&& forall|k: int|
        0 <= k < used.len() ==> is_partition(
            #[trigger] result->Ok_0.0[k],
            k,
            entries[used[k]],
            entries[used[k]].start_address_lba * bytes_per_sector,
            bytes_per_sector,
        )
    &&& extended is Some <==> result->Ok_0.1 is Some
    &&& extended is Some ==> result->Ok_0.1->0 == entries[extended->0].start_address_lba
        * bytes_per_sector
}

/// Each entry of a boot record that is used, and is not that of an extended partition, gives a
/// partition, in the order of the entries. It starts at its first sector and has the size of its
/// sectors. The one of an extended partition gives the place of the first extended boot record.
pub proof fn lemma_primary_stored(
    content: Content,
    entries: Seq<MbrPartitionEntry>,
    bytes_per_sector: u32,
    used: Seq<int>,
    extended: Option<int>,
)
    requires
        is_supported_sector_size(bytes_per_sector),
        holds_record(content, 0, entries),
        forall|k: int, l: int| 0 <= k < l < used.len() ==> used[k] < used[l],
        forall|k: int| 0 <= k < used.len() ==> 0 <= #[trigger] used[k] < 4,
        forall|i: int|
            0 <= i < 4 ==> (used.contains(i) <==> !(#[trigger] entries[i]).spec_is_empty()
                && !entries[i].spec_is_extended()),
        forall|i: int|
            0 <= i < 4 ==> (extended == Some(i) <==> !(#[trigger] entries[i]).spec_is_empty()
                && entries[i].spec_is_extended()),
        extended matches Some(i) ==> 0 <= i < 4,
    ensures
        are_primary(
            primary_partitions(
                content.window(0, 512),
                bytes_per_sector,
                0,
                Seq::empty(),
                None,
            ),
            entries,
            bytes_per_sector,
            used,
            extended,
        ),
{
    lemma_record_stored(content, 0, entries);
    lemma_primary_from(
        content.window(0, 512),
        entries,
        bytes_per_sector,
        used,
        extended,
        0,
        0,
        Seq::empty(),
        None,
    );
}

proof fn lemma_primary_from(
    data: Seq<u8>,
    entries: Seq<MbrPartitionEntry>,
    bytes_per_sector: u32,
    used: Seq<int>,
    extended: Option<int>,
    index: int,
    count: int,
    partitions: Seq<MbrPartition>,
    extended_offset: Option<u64>,
)
    requires
        is_supported_sector_size(bytes_per_sector),
        0 <= index <= 4,
        0 <= count <= used.len(),
        count <= index,
        entries.len() == 4,
        partitions.len() == count,
        forall|i: int| 0 <= i < 4 ==> #[trigger] entry_in(data, i) == entries[i],
        forall|k: int, l: int| 0 <= k < l < used.len() ==> used[k] < used[l],
        forall|k: int| 0 <= k < used.len() ==> 0 <= #[trigger] used[k] < 4,
        forall|k: int| 0 <= k < count ==> #[trigger] used[k] < index,
        forall|k: int| count <= k < used.len() ==> index <= #[trigger] used[k],
        forall|i: int|
            0 <= i < 4 ==> (used.contains(i) <==> !(#[trigger] entries[i]).spec_is_empty()
                && !entries[i].spec_is_extended()),
        forall|i: int|
            0 <= i < 4 ==> (extended == Some(i) <==> !(#[trigger] entries[i]).spec_is_empty()
                && entries[i].spec_is_extended()),
        forall|k: int|
            0 <= k < count ==> is_partition(
                #[trigger] partitions[k],
                k,
                entries[used[k]],
                entries[used[k]].start_address_lba * bytes_per_sector,
                bytes_per_sector,
            ),
        extended matches Some(i) ==> 0 <= i < 4,
        match (extended, extended_offset) {
            (Some(i), Some(offset)) => i < index && offset == entries[i].start_address_lba
                * bytes_per_sector,
            (Some(i), None) => index <= i,
            (None, None) => true,
            (None, Some(_)) => false,
        },
    ensures
        are_primary(
            primary_partitions(
                data,
                bytes_per_sector,
                index,
                partitions,
                extended_offset,
            ),
            entries,
            bytes_per_sector,
            used,
            extended,
        ),
    decreases 4 - index,
{
    if index < 4 {
        let entry = entries[index];
        assert(entry_in(data, index) == entry);
        let offset = entry.start_address_lba * bytes_per_sector;
        assert(0 <= offset <= u64::MAX);
        if !entry.spec_is_empty() && !entry.spec_is_extended() {
            assert(used.contains(index));
            let k = choose|k: int| 0 <= k < used.len() && used[k] == index;
            assert(k == count) by {
                if count < k {
                    assert(used[count] < used[k]);
                }
            }
            let more = partitions.push(partition_of(count, entry, offset, bytes_per_sector));
            assert(0 <= entry.number_of_sectors * bytes_per_sector <= u64::MAX);
            assert forall|l: int| 0 <= l < count + 1 implies is_partition(
                #[trigger] more[l],
                l,
                entries[used[l]],
                entries[used[l]].start_address_lba * bytes_per_sector,
                bytes_per_sector,
            ) by {
                if l < count {
                    assert(more[l] == partitions[l]);
                }
            }
            assert forall|l: int| count + 1 <= l < used.len() implies index + 1 <= #[trigger] used[l] by {
                assert(used[count] < used[l]);
            }
            lemma_primary_from(
                data,
                entries,
                bytes_per_sector,
                used,
                extended,
                index + 1,
                count + 1,
                more,
                extended_offset,
            );
        } else {
            assert(!used.contains(index));
            assert forall|l: int| count <= l < used.len() implies index + 1 <= #[trigger] used[l] by {
                assert(used[l] != index);
            }
            let next = if entry.spec_is_empty() {
                extended_offset
            } else {
                Some(offset as u64)
            };
            lemma_primary_from(
                data,
                entries,
                bytes_per_sector,
                used,
                extended,
                index + 1,
                count,
                partitions,
                next,
            );
        }
    } else if count < used.len() {
        assert(used[count] < 4);
    }
}

/// An extended boot record: where it lies, its entries, which of them is that of the logical partition,
/// and which is the link to the next record, if there is one.
pub struct MbrExtendedRecord {
    pub offset: u64,
    pub entries: Seq<MbrPartitionEntry>,
    pub logical: int,
    pub link: Option<int>,
}

/// Whether an extended boot record is stored. Its other entries are not used.
pub open spec fn holds_extended_record(
    content: Content,
    bytes_per_sector: u32,
    record: MbrExtendedRecord,
) -> bool {
    &&& holds_record(content, record.offset as int, record.entries)
    &&& 0 <= record.logical < 4
    &&& !record.entries[record.logical].spec_is_empty()
    &&& !record.entries[record.logical].spec_is_extended()
    &&& record.link matches Some(j) ==> 0 <= j < 4 && !record.entries[j].spec_is_empty()
        && record.entries[j].spec_is_extended()
    &&& forall|j: int|
        0 <= j < 4 && j != record.logical && record.link != Some(j) ==> (
        #[trigger] record.entries[j]).spec_is_empty()
    &&& record.offset + record.entries[record.logical].start_address_lba * bytes_per_sector
        <= u64::MAX
}

/// Whether extended boot records are stored, each at the place that the link in the record before it
/// gives relative to the extended partition.
pub open spec fn holds_chain(
    content: Content,
    bytes_per_sector: u32,
    base_offset: u64,
    records: Seq<MbrExtendedRecord>,
) -> bool {
    &&& forall|i: int|
        0 <= i < records.len() ==> holds_extended_record(
            content,
            bytes_per_sector,
            #[trigger] records[i],
        ) && (records[i].link is Some <==> i + 1 < records.len())
    &&& forall|i: int|
        #![trigger records[i]]
        0 <= i && i + 1 < records.len() ==> records[i + 1].offset == base_offset
            + records[i].entries[records[i].link->0].start_address_lba * bytes_per_sector
    &&& forall|i: int, j: int|
        0 <= i < j < records.len() ==> (#[trigger] records[i]).offset != (
        #[trigger] records[j]).offset
}

/// Each extended boot record gives its logical partition. It starts at its first sector relative to the
/// record, and follows those that came before it.
pub proof fn lemma_chain_stored(
    content: Content,
    bytes_per_sector: u32,
    base_offset: u64,
    records: Seq<MbrExtendedRecord>,
    partitions: Seq<MbrPartition>,
)
    requires
        is_supported_sector_size(bytes_per_sector),
        holds_chain(content, bytes_per_sector, base_offset, records),
        0 < records.len() <= 1024,
        partitions.len() <= 4,
    ensures
        ({
            let result = chain_partitions(
                content,
                bytes_per_sector,
                base_offset,
                records[0].offset,
                Seq::empty(),
                partitions,
            );
            &&& result is Ok
            &&& result->Ok_0.len() == partitions.len() + records.len()
            &&& forall|i: int| 0 <= i < partitions.len() ==> result->Ok_0[i] == partitions[i]
            &&& forall|i: int|
                0 <= i < records.len() ==> {
                    let record = #[trigger] records[i];
                    let entry = record.entries[record.logical];
                    is_partition(
                        result->Ok_0[partitions.len() + i],
                        partitions.len() + i,
                        entry,
                        record.offset + entry.start_address_lba * bytes_per_sector,
                        bytes_per_sector,
                    )
                }
        }),
{
    lemma_chain_from(
        content,
        bytes_per_sector,
        base_offset,
        records,
        partitions,
        0,
        Seq::empty(),
        partitions,
    );
}

proof fn lemma_extended_entries(
    data: Seq<u8>,
    bytes_per_sector: u32,
    base_offset: u64,
    record: MbrExtendedRecord,
)
    requires
        record.entries.len() == 4,
        forall|i: int| 0 <= i < 4 ==> #[trigger] entry_in(data, i) == record.entries[i],
        0 <= record.logical < 4,
        !record.entries[record.logical].spec_is_empty(),
        !record.entries[record.logical].spec_is_extended(),
        record.link matches Some(j) ==> 0 <= j < 4 && !record.entries[j].spec_is_empty()
            && record.entries[j].spec_is_extended() && base_offset
            + record.entries[j].start_address_lba * bytes_per_sector <= u64::MAX,
        forall|j: int|
            0 <= j < 4 && j != record.logical && record.link != Some(j) ==> (
            #[trigger] record.entries[j]).spec_is_empty(),
    ensures
        extended_entries(data, bytes_per_sector, base_offset, 0, None, None) == Ok::<
            (Option<MbrPartitionEntry>, Option<u64>),
            DriverError,
        >(
            (
                Some(record.entries[record.logical]),
                match record.link {
                    None => None,
                    Some(j) => Some(
                        (base_offset + record.entries[j].start_address_lba
                            * bytes_per_sector) as u64,
                    ),
                },
            ),
        ),
{
    reveal_with_fuel(extended_entries, 5);
    assert(entry_in(data, 0) == record.entries[0]);
    assert(entry_in(data, 1) == record.entries[1]);
    assert(entry_in(data, 2) == record.entries[2]);
    assert(entry_in(data, 3) == record.entries[3]);
}

proof fn lemma_chain_from(
    content: Content,
    bytes_per_sector: u32,
    base_offset: u64,
    records: Seq<MbrExtendedRecord>,
    first: Seq<MbrPartition>,
    index: int,
    visited: Seq<u64>,
    partitions: Seq<MbrPartition>,
)
    requires
        is_supported_sector_size(bytes_per_sector),
        holds_chain(content, bytes_per_sector, base_offset, records),
        0 <= index < records.len() <= 1024,
        first.len() <= 4,
        visited.len() == index,
        forall|i: int| 0 <= i < index ==> #[trigger] visited[i] == records[i].offset,
        partitions.len() == first.len() + index,
        forall|i: int| 0 <= i < first.len() ==> partitions[i] == first[i],
        forall|i: int|
            0 <= i < index ==> partitions[first.len() + i] == partition_of(
                first.len() + i,
                (#[trigger] records[i]).entries[records[i].logical],
                records[i].offset + records[i].entries[records[i].logical].start_address_lba
                    * bytes_per_sector,
                bytes_per_sector,
            ),
    ensures
        ({
            let result = chain_partitions(
                content,
                bytes_per_sector,
                base_offset,
                records[index].offset,
                visited,
                partitions,
            );
            &&& result is Ok
            &&& result->Ok_0.len() == first.len() + records.len()
            &&& forall|i: int| 0 <= i < first.len() ==> result->Ok_0[i] == first[i]
            &&& forall|i: int|
                0 <= i < records.len() ==> {
                    let record = #[trigger] records[i];
                    let entry = record.entries[record.logical];
                    is_partition(
                        result->Ok_0[first.len() + i],
                        first.len() + i,
                        entry,
                        record.offset + entry.start_address_lba * bytes_per_sector,
                        bytes_per_sector,
                    )
                }
        }),
    decreases records.len() - index,
{
    let record = records[index];
    let entry = record.entries[record.logical];
    let data = content.window(record.offset as int, 512);
    lemma_record_stored(content, record.offset, record.entries);
    assert(!visited.contains(record.offset)) by {
        if visited.contains(record.offset) {
            let i = choose|i: int| 0 <= i < visited.len() && visited[i] == record.offset;
            assert(records[i].offset != records[index].offset);
        }
    }
    if index + 1 < records.len() {
        assert(records[index + 1].offset == base_offset
            + record.entries[record.link->0].start_address_lba * bytes_per_sector);
    }
    lemma_extended_entries(data, bytes_per_sector, base_offset, record);
    let start = record.offset + entry.start_address_lba * bytes_per_sector;
    let more = partitions.push(
        partition_of(partitions.len() as int, entry, start, bytes_per_sector),
    );
    if index + 1 < records.len() {
        lemma_chain_from(
            content,
            bytes_per_sector,
            base_offset,
            records,
            first,
            index + 1,
            visited.push(record.offset),
            more,
        );
    }
}

/// Whether a source answers every read of a boot record, and its size can be retrieved.
pub open spec fn boot_records_answer(source: DataSourceReference) -> bool {
    source.measurable() && forall|offset: u64| #[trigger] source.answers(offset as int, 512)
}

/// Whether an attempt to open a volume system with a fixed sector size can come out as it did.
pub open spec fn may_come_out(
    source: DataSourceReference,
    bytes_per_sector: u32,
    outcome: Result<MbrVolume, DriverError>,
) -> bool {
    match outcome {
        Ok(volume) => volume_with(source.content(), bytes_per_sector) == outcome
            && volume.bytes_per_sector == bytes_per_sector,
        Err(error) => {
            &&& source.reliable() ==> volume_with(source.content(), bytes_per_sector) == outcome
            &&& boot_records_answer(source) ==> volume_with(
                source.content(),
                bytes_per_sector,
            ) is Err
        },
    }
}

/// Whether outcomes are those of the attempts with each sector size, in order.
pub open spec fn are_attempts(
    source: DataSourceReference,
    outcomes: Seq<Result<MbrVolume, DriverError>>,
) -> bool {
    &&& outcomes.len() == sector_sizes().len()
    &&& forall|i: int|
        0 <= i < outcomes.len() ==> may_come_out(
            source,
            sector_sizes()[i],
            #[trigger] outcomes[i],
        )
}

/// What came out of an attempt.
pub open spec fn outcome_of(result: Result<MbrVolumeSystem, DriverError>) -> Result<
    MbrVolume,
    DriverError,
> {
    match result {
        Ok(volume) => Ok(volume@),
        Err(error) => Err(error),
    }
}

/// A volume system is opened with the first sector size, of 512, 4096, 2048 and 1024 bytes, with
/// which it can be opened. If there is none, the error is that of the last one.
pub proof fn lemma_volume_of(content: Content)
    ensures
        volume_of(content) is Ok <==> exists|i: int|
            0 <= i < 4 && #[trigger] volume_with(content, sector_sizes()[i]) is Ok,
        forall|i: int|
            0 <= i < 4 && #[trigger] volume_with(content, sector_sizes()[i]) is Ok && (forall|j: int|
                0 <= j < i ==> #[trigger] volume_with(content, sector_sizes()[j]) is Err)
                ==> volume_of(content) == volume_with(content, sector_sizes()[i])
                && volume_of(content)->Ok_0.bytes_per_sector == sector_sizes()[i],
        volume_of(content) is Err ==> volume_of(content) == volume_with(content, 1024),
{
    assert(volume_with(content, sector_sizes()[0]) == volume_with(content, 512));
    assert(volume_with(content, sector_sizes()[1]) == volume_with(content, 4096));
    assert(volume_with(content, sector_sizes()[2]) == volume_with(content, 2048));
    assert(volume_with(content, sector_sizes()[3]) == volume_with(content, 1024));
}

/// The sector sizes, in the order in which they are tried.
pub open spec fn sector_sizes() -> Seq<u32> {
    seq![512, 4096, 2048, 1024]
}

/// No byte of the source belongs to two partitions of a volume system.
pub proof fn lemma_partitions_disjoint(
    content: Content,
    bytes_per_sector: u32,
    i: int,
    j: int,
    offset: int,
)
    requires
        volume_with(content, bytes_per_sector) is Ok,
        0 <= i < volume_with(content, bytes_per_sector)->Ok_0.partitions.len(),
        0 <= j < volume_with(content, bytes_per_sector)->Ok_0.partitions.len(),
        volume_with(content, bytes_per_sector)->Ok_0.partitions[i].offset <= offset < volume_with(
            content,
            bytes_per_sector,
        )->Ok_0.partitions[i].offset + volume_with(
            content,
            bytes_per_sector,
        )->Ok_0.partitions[i].size,
        volume_with(content, bytes_per_sector)->Ok_0.partitions[j].offset <= offset < volume_with(
            content,
            bytes_per_sector,
        )->Ok_0.partitions[j].offset + volume_with(
            content,
            bytes_per_sector,
        )->Ok_0.partitions[j].size,
    ensures
        i == j,
        offset < content.size,
{
    let partitions = volume_with(content, bytes_per_sector)->Ok_0.partitions;
    assert(are_valid(partitions, content.size));
    if i < j {
        assert(are_disjoint(partitions[i], partitions[j]));
    } else if j < i {
        assert(are_disjoint(partitions[j], partitions[i]));
    }
}

impl MbrPartition {
    /// Retrieves the partition table entry index.
    pub fn entry_index(&self) -> (entry_index: usize)
        ensures
            entry_index == self.entry_index,
    {
        self.entry_index
    }

    /// Retrieves the partition offset relative to the start of the image.
    pub fn offset(&self) -> (offset: u64)
        ensures
            offset == self.offset,
    {
        self.offset
    }

    /// Retrieves the partition size in bytes.
    pub fn size(&self) -> (size: u64)
        ensures
            size == self.size,
    {
        self.size
    }

    /// Retrieves the raw partition type value.
    pub fn partition_type(&self) -> (partition_type: u8)
        ensures
            partition_type == self.partition_type,
    {
        self.partition_type
    }

    /// Retrieves the raw partition flags.
    pub fn flags(&self) -> (flags: u8)
        ensures
            flags == self.flags,
    {
        self.flags
    }

    /// Indicates whether the partition is marked bootable.
    pub fn is_bootable(&self) -> (bootable: bool)
        ensures
            bootable == (self.flags >= 0x80),
    {
        self.flags >= 0x80
    }

    /// Opens the partition as an immutable slice data source.
    pub fn open_source(&self, source: DataSourceReference) -> (partition: DataSourceReference)
        ensures
            is_slice(partition, source, self.offset, self.size),
    {
        open_slice(source, self.offset, self.size)
    }
}

fn read_entry(data: &[u8], index: usize) -> (entry: MbrPartitionEntry)
    requires
        data@.len() == 512,
        index < 4,
    ensures
        entry == entry_in(data@, index as int),
{
    let offset: usize = 446 + 16 * index;
    MbrPartitionEntry {
        flags: data[offset],
        partition_type: data[offset + 4],
        start_address_lba: read_u32_le(data, offset + 8),
        number_of_sectors: read_u32_le(data, offset + 12),
    }
}

impl MbrPartitionEntry {
    fn is_empty(&self) -> (empty: bool)
        ensures
            empty == self.spec_is_empty(),
    {
        self.partition_type == 0 || self.number_of_sectors == 0
    }

    fn is_extended(&self) -> (extended: bool)
        ensures
            extended == self.spec_is_extended(),
    {
        self.partition_type == 0x05 || self.partition_type == 0x0f
    }
}

fn read_boot_record(source: &DataSourceReference, offset: u64) -> (result: Result<
    Vec<u8>,
    DriverError,
>)
    ensures
        match result {
            Ok(data) => {
                &&& boot_record_at(source.content(), offset) == Ok::<Seq<u8>, DriverError>(data@)
                &&& data@.len() == 512
            },
            Err(error) => {
                &&& source.reliable() ==> boot_record_at(source.content(), offset) == Err::<
                    Seq<u8>,
                    DriverError,
                >(error)
                &&& source.answers(offset as int, 512) ==> boot_record_at(
                    source.content(),
                    offset,
                ) is Err
            },
        },
{
    let data: Vec<u8> = read_bytes(source, offset, 512)?;
    if read_u16_le(data.as_slice(), 510) != 0xaa55 {
        return Err(DriverError::Unsupported);
    }
    Ok(data)
}

/// Calculates a size in bytes.
fn lba_to_offset(sectors: u32, bytes_per_sector: u32) -> (offset: u64)
    ensures
        offset == sectors * bytes_per_sector,
{
    proof {
        assert(0 <= sectors * bytes_per_sector <= 0xffff_ffff * 0xffff_ffff) by (nonlinear_arith)
            requires
                0 <= sectors <= 0xffff_ffff,
                0 <= bytes_per_sector <= 0xffff_ffff,
        ;
    }
    sectors as u64 * bytes_per_sector as u64
}

fn make_partition(
    entry_index: usize,
    entry: &MbrPartitionEntry,
    offset: u64,
    bytes_per_sector: u32,
) -> (partition: MbrPartition)
    ensures
        partition == partition_of(entry_index as int, *entry, offset as int, bytes_per_sector),
{
    MbrPartition {
        entry_index,
        offset,
        size: lba_to_offset(entry.number_of_sectors, bytes_per_sector),
        partition_type: entry.partition_type,
        flags: entry.flags,
    }
}

fn read_primary_partitions(data: &[u8], bytes_per_sector: u32) -> (result: Result<
    (Vec<MbrPartition>, Option<u64>),
    DriverError,
>)
    requires
        data@.len() == 512,
    ensures
        match result {
            Ok((partitions, extended_offset)) => primary_partitions(
                data@,
                bytes_per_sector,
                0,
                Seq::empty(),
                None,
            ) == Ok::<(Seq<MbrPartition>, Option<u64>), DriverError>(
                (partitions@, extended_offset),
            ),
            Err(error) => primary_partitions(data@, bytes_per_sector, 0, Seq::empty(), None)
                == Err::<(Seq<MbrPartition>, Option<u64>), DriverError>(error),
        },
{
    let ghost whole = primary_partitions(data@, bytes_per_sector, 0, Seq::empty(), None);
    let mut partitions: Vec<MbrPartition> = Vec::new();
    let mut extended_offset: Option<u64> = None;
    let mut index: usize = 0;
    assert(partitions@ =~= Seq::<MbrPartition>::empty());
    while index < 4
        invariant
            index <= 4,
            data@.len() == 512,
            whole == primary_partitions(data@, bytes_per_sector, 0, Seq::empty(), None),
            whole == primary_partitions(
                data@,
                bytes_per_sector,
                index as int,
                partitions@,
                extended_offset,
            ),
        decreases 4 - index,
    {
        let entry: MbrPartitionEntry = read_entry(data, index);
        if !entry.is_empty() {
            let offset: u64 = lba_to_offset(entry.start_address_lba, bytes_per_sector);
            if entry.is_extended() {
                if extended_offset.is_some() {
                    return Err(DriverError::Unsupported);
                }
                extended_offset = Some(offset);
            } else {
                let partition = make_partition(
                    partitions.len(),
                    &entry,
                    offset,
                    bytes_per_sector,
                );
                partitions.push(partition);
            }
        }
        index += 1;
    }
    Ok((partitions, extended_offset))
}

fn read_extended_entries(data: &[u8], bytes_per_sector: u32, base_offset: u64) -> (result: Result<
    (Option<MbrPartitionEntry>, Option<u64>),
    DriverError,
>)
    requires
        data@.len() == 512,
    ensures
        result == extended_entries(data@, bytes_per_sector, base_offset, 0, None, None),
{
    let ghost whole = extended_entries(data@, bytes_per_sector, base_offset, 0, None, None);
    let mut logical: Option<MbrPartitionEntry> = None;
    let mut next_offset: Option<u64> = None;
    let mut index: usize = 0;
    while index < 4
        invariant
            index <= 4,
            data@.len() == 512,
            whole == extended_entries(data@, bytes_per_sector, base_offset, 0, None, None),
            whole == extended_entries(
                data@,
                bytes_per_sector,
                base_offset,
                index as int,
                logical,
                next_offset,
            ),
        decreases 4 - index,
    {
        let entry: MbrPartitionEntry = read_entry(data, index);
        if !entry.is_empty() {
            if entry.is_extended() {
                if next_offset.is_some() {
                    return Err(DriverError::Unsupported);
                }
                let offset: u64 = lba_to_offset(entry.start_address_lba, bytes_per_sector);
                let offset: u64 = base_offset.checked_add(offset).ok_or(DriverError::Overflow)?;
                next_offset = Some(offset);
            } else if logical.is_some() {
                return Err(DriverError::Unsupported);
            } else {
                logical = Some(entry);
            }
        }
        index += 1;
    }
    Ok((logical, next_offset))
}

/// Reads the partitions of a chain of extended boot records.
fn read_extended_partition_chain(
    source: &DataSourceReference,
    bytes_per_sector: u32,
    base_offset: u64,
    primary: Vec<MbrPartition>,
) -> (result: Result<Vec<MbrPartition>, DriverError>)
    ensures
        match result {
            Ok(partitions) => chain_partitions(
                source.content(),
                bytes_per_sector,
                base_offset,
                base_offset,
                Seq::empty(),
                primary@,
            ) == Ok::<Seq<MbrPartition>, DriverError>(partitions@),
            Err(error) => {
                &&& source.reliable() ==> chain_partitions(
                    source.content(),
                    bytes_per_sector,
                    base_offset,
                    base_offset,
                    Seq::empty(),
                    primary@,
                ) == Err::<Seq<MbrPartition>, DriverError>(error)
                &&& boot_records_answer(*source) ==> chain_partitions(
                    source.content(),
                    bytes_per_sector,
                    base_offset,
                    base_offset,
                    Seq::empty(),
                    primary@,
                ) is Err
            },
        },
{
    broadcast use vstd::std_specs::hash::group_hash_axioms;

    let ghost content = source.content();
    let ghost whole = chain_partitions(
        content,
        bytes_per_sector,
        base_offset,
        base_offset,
        Seq::empty(),
        primary@,
    );
    let ghost mut order: Seq<u64> = Seq::empty();
    let mut visited: HashSet<u64> = HashSet::new();
    let mut partitions: Vec<MbrPartition> = primary;
    let mut offset: u64 = base_offset;
    let mut count: usize = 0;
    while count < 1024
        invariant
            content == source.content(),
            whole == chain_partitions(
                content,
                bytes_per_sector,
                base_offset,
                base_offset,
                Seq::empty(),
                primary@,
            ),
            whole == chain_partitions(
                content,
                bytes_per_sector,
                base_offset,
                offset,
                order,
                partitions@,
            ),
            count <= 1024,
            order.len() == count,
            forall|x: u64| visited@.contains(x) <==> order.contains(x),
        decreases 1024 - count,
    {
        if visited.contains(&offset) {
            return Err(DriverError::Cycle);
        }
        visited.insert(offset);
        let data: Vec<u8> = read_boot_record(source, offset)?;
        let (logical, next_offset) = read_extended_entries(
            data.as_slice(),
            bytes_per_sector,
            base_offset,
        )?;
        let entry: MbrPartitionEntry = match logical {
            Some(entry) => entry,
            None => return Err(DriverError::Missing),
        };
        let start: u64 = lba_to_offset(entry.start_address_lba, bytes_per_sector);
        let start: u64 = offset.checked_add(start).ok_or(DriverError::Overflow)?;
        let partition = make_partition(partitions.len(), &entry, start, bytes_per_sector);
        partitions.push(partition);
        let next: u64 = match next_offset {
            Some(next) => next,
            None => return Ok(partitions),
        };
        proof {
            let before = order;
            order = order.push(offset);
            assert forall|x: u64| visited@.contains(x) <==> order.contains(x) by {
                if before.contains(x) {
                    let i = choose|i: int| 0 <= i < before.len() && before[i] == x;
                    assert(order[i] == x);
                }
                if x == offset {
                    assert(order[before.len() as int] == x);
                }
                if order.contains(x) && x != offset {
                    let i = choose|i: int| 0 <= i < order.len() && order[i] == x;
                    assert(before[i] == x);
                }
            }
        }
        offset = next;
        count += 1;
    }
    Err(DriverError::LimitExceeded)
}

/// Determines whether partitions lie in a source of the given size and do not overlap.
fn validate_partitions(partitions: &Vec<MbrPartition>, source_size: u64) -> (valid: bool)
    ensures
        valid == are_valid(partitions@, source_size as nat),
{
    let mut i: usize = 0;
    while i < partitions.len()
        invariant
            i <= partitions@.len(),
            forall|k: int|
                0 <= k < i ==> (#[trigger] partitions@[k]).offset + partitions@[k].size
                    <= source_size,
            forall|k: int, l: int|
                0 <= k < l < i ==> are_disjoint(
                    #[trigger] partitions@[k],
                    #[trigger] partitions@[l],
                ),
        decreases partitions@.len() - i,
    {
        let partition: MbrPartition = partitions[i];
        if partition.size > source_size || partition.offset > source_size - partition.size {
            assert(partitions@[i as int].offset + partitions@[i as int].size > source_size);
            return false;
        }
        let mut j: usize = 0;
        while j < i
            invariant
                j <= i < partitions@.len(),
                partition == partitions@[i as int],
                partition.offset + partition.size <= source_size,
                forall|k: int|
                    0 <= k < i ==> (#[trigger] partitions@[k]).offset + partitions@[k].size
                        <= source_size,
                forall|k: int|
                    0 <= k < j ==> are_disjoint(#[trigger] partitions@[k], partition),
            decreases i - j,
        {
            let other: MbrPartition = partitions[j];
            assert(partitions@[j as int].offset + partitions@[j as int].size <= source_size);
            if other.offset + other.size > partition.offset && partition.offset + partition.size
                > other.offset {
                assert(!are_disjoint(partitions@[j as int], partitions@[i as int]));
                return false;
            }
            j += 1;
        }
        i += 1;
    }
    true
}

/// Master Boot Record volume system metadata.
pub struct MbrVolumeSystem {
    bytes_per_sector: u32,
    disk_identity: u32,
    partitions: Vec<MbrPartition>,
}

impl MbrVolumeSystem {
    /// What is known of the volume system.
    pub closed spec fn view(&self) -> MbrVolume {
        MbrVolume {
            bytes_per_sector: self.bytes_per_sector,
            disk_identity: self.disk_identity,
            partitions: self.partitions@,
        }
    }

    /// Opens and parses a Master Boot Record volume system.
    pub fn open(source: &DataSourceReference) -> (result: Result<Self, DriverError>)
        ensures
            exists|outcomes: Seq<Result<MbrVolume, DriverError>>|
                #[trigger] are_attempts(*source, outcomes) && outcome_of(result) == first_opened(
                    outcomes,
                ),
            boot_records_answer(*source) ==> (result is Ok <==> volume_of(source.content()) is Ok),
            match result {
                Ok(volume) => {
                    &&& volume_with(source.content(), volume@.bytes_per_sector) == Ok::<
                        MbrVolume,
                        DriverError,
                    >(volume@)
                    &&& source.reliable() ==> volume_of(source.content()) == Ok::<
                        MbrVolume,
                        DriverError,
                    >(volume@)
                },
                Err(error) => source.reliable() ==> volume_of(source.content()) == Err::<
                    MbrVolume,
                    DriverError,
                >(error),
            },
    {
        let ghost content = source.content();
        let ghost outcomes = Seq::new(4, |i: int| volume_with(content, sector_sizes()[i]));
        proof {
            lemma_volume_of(content);
        }
        let mut result = Self::open_with_bytes_per_sector(source, 512);
        let ghost outcomes = outcomes.update(0, outcome_of(result));
        if result.is_ok() {
            proof {
                lemma_first_opened(outcomes, 0);
                assert(are_attempts(*source, outcomes));
            }
            return result;
        }
        result = Self::open_with_bytes_per_sector(source, 4096);
        let ghost outcomes = outcomes.update(1, outcome_of(result));
        if result.is_ok() {
            proof {
                lemma_first_opened(outcomes, 1);
                assert(are_attempts(*source, outcomes));
            }
            return result;
        }
        result = Self::open_with_bytes_per_sector(source, 2048);
        let ghost outcomes = outcomes.update(2, outcome_of(result));
        if result.is_ok() {
            proof {
                lemma_first_opened(outcomes, 2);
                assert(are_attempts(*source, outcomes));
            }
            return result;
        }
        result = Self::open_with_bytes_per_sector(source, 1024);
        let ghost outcomes = outcomes.update(3, outcome_of(result));
        proof {
            lemma_first_opened(outcomes, 3);
            assert(are_attempts(*source, outcomes));
        }
        result
    }

    /// Opens and parses a Master Boot Record volume system with a fixed bytes-per-sector value.
    pub fn open_with_bytes_per_sector(source: &DataSourceReference, bytes_per_sector: u32) -> (result:
        Result<Self, DriverError>)
        ensures
            match result {
                Ok(volume) => {
                    &&& volume_with(source.content(), bytes_per_sector) == Ok::<
                        MbrVolume,
                        DriverError,
                    >(volume@)
                    &&& volume@.bytes_per_sector == bytes_per_sector
                },
                Err(error) => source.reliable() ==> volume_with(
                    source.content(),
                    bytes_per_sector,
                ) == Err::<MbrVolume, DriverError>(error),
            },
            boot_records_answer(*source) ==> (result is Ok <==> volume_with(
                source.content(),
                bytes_per_sector,
            ) is Ok),
    {
        if bytes_per_sector != 512 && bytes_per_sector != 4096 && bytes_per_sector != 2048
            && bytes_per_sector != 1024 {
            return Err(DriverError::Unsupported);
        }
        let source_size: u64 = source.size()?;
        let data: Vec<u8> = read_boot_record(source, 0)?;
        let (primary, extended_offset) = read_primary_partitions(
            data.as_slice(),
            bytes_per_sector,
        )?;
        let partitions: Vec<MbrPartition> = match extended_offset {
            Some(extended_offset) => read_extended_partition_chain(
                source,
                bytes_per_sector,
                extended_offset,
                primary,
            )?,
            None => primary,
        };
        if !validate_partitions(&partitions, source_size) {
            return Err(DriverError::Invalid);
        }
        Ok(
            MbrVolumeSystem {
                bytes_per_sector,
                disk_identity: read_u32_le(data.as_slice(), 440),
                partitions,
            },
        )
    }

    /// Retrieves the bytes-per-sector value.
    pub fn bytes_per_sector(&self) -> (bytes_per_sector: u32)
        ensures
            bytes_per_sector == self@.bytes_per_sector,
    {
        self.bytes_per_sector
    }

    /// Retrieves the disk identity.
    pub fn disk_identity(&self) -> (disk_identity: u32)
        ensures
            disk_identity == self@.disk_identity,
    {
        self.disk_identity
    }

    /// Retrieves all parsed partitions.
    pub fn partitions(&self) -> (partitions: &[MbrPartition])
        ensures
            partitions@ == self@.partitions,
    {
        self.partitions.as_slice()
    }

    /// Retrieves a partition by index.
    pub fn partition(&self, partition_index: usize) -> (result: Result<&MbrPartition, DriverError>)
        ensures
            match result {
                Ok(partition) => partition_index < self@.partitions.len() && *partition
                    == self@.partitions[partition_index as int],
                Err(error) => error == DriverError::OutOfBounds && partition_index
                    >= self@.partitions.len(),
            },
    {
        if partition_index < self.partitions.len() {
            Ok(&self.partitions[partition_index])
        } else {
            Err(DriverError::OutOfBounds)
        }
    }
}

} // verus!
