//! Apple Partition Map (APM) volume systems.

use vstd::prelude::*;

use crate::bytes::{holds_be, lemma_holds_be, read_u16_be, read_u32_be, u16_be, u32_be};
use crate::error::DriverError;
use crate::scan::same_text;
use crate::source::data_source::{read_bytes, Content, DataSource, DataSourceReference};
use crate::source::slice::{is_slice, open_slice};
use crate::text::{holds_text, lemma_stored_text, read_stored_text, stored_text, text_chars};

verus! {

/// What is known of a partition.
pub struct ApmPartitionInfo {
    pub entry_index: nat,
    pub offset: u64,
    pub size: u64,
    pub type_identifier: Seq<char>,
    pub name: Seq<char>,
    pub status_flags: u32,
}

/// The entry at an offset, which has the signature "PM".
pub open spec fn entry_at(content: Content, offset: int) -> Result<Seq<u8>, DriverError> {
    match content.exact(offset, 512) {
        Err(error) => Err(error),
        Ok(data) => if u16_be(data, 0) != 0x504d {
            Err(DriverError::Unsupported)
        } else {
            Ok(data)
        },
    }
}

/// The partition of an entry. The first entry is that of the partition map itself.
pub open spec fn partition_of(data: Seq<u8>, index: int) -> ApmPartitionInfo {
    ApmPartitionInfo {
        entry_index: (index - 1) as nat,
        offset: (512 * u32_be(data, 8)) as u64,
        size: (512 * u32_be(data, 12)) as u64,
        type_identifier: stored_text(data, 48, 80),
        name: stored_text(data, 16, 48),
        status_flags: u32_be(data, 88),
    }
}

/// Where the partitions end.
pub open spec fn last_end(partitions: Seq<ApmPartitionInfo>) -> int {
    if partitions.len() == 0 {
        0
    } else {
        partitions.last().offset + partitions.last().size
    }
}

/// Why an entry cannot be used. All entries say how many there are. The first one is that of the
/// partition map; the others are for partitions that follow each other.
pub open spec fn entry_failure(
    data: Seq<u8>,
    index: int,
    count: u32,
    source_size: nat,
    partitions: Seq<ApmPartitionInfo>,
) -> Option<DriverError> {
    if u32_be(data, 4) == 0 {
        Some(DriverError::Unsupported)
    } else if index == 0 {
        if stored_text(data, 48, 80) != "Apple_partition_map"@ {
            Some(DriverError::Unsupported)
        } else {
            None
        }
    } else if u32_be(data, 4) != count {
        Some(DriverError::Unsupported)
    } else if partition_of(data, index).offset < last_end(partitions) {
        Some(DriverError::Overlap)
    } else if partition_of(data, index).offset + partition_of(data, index).size > source_size {
        Some(DriverError::OutOfBounds)
    } else {
        None
    }
}

/// The partitions of the entries from `index` on, after those of the entries before it.
pub open spec fn partitions_from(
    content: Content,
    index: int,
    count: u32,
    partitions: Seq<ApmPartitionInfo>,
) -> Result<Seq<ApmPartitionInfo>, DriverError>
    decreases u32::MAX + 1 - index,
{
    match entry_at(content, 512 + 512 * index) {
        Err(error) => Err(error),
        Ok(data) => match entry_failure(data, index, count, content.size, partitions) {
            Some(error) => Err(error),
            None => {
                let total = u32_be(data, 4);
                let more = if index == 0 {
                    partitions
                } else {
                    partitions.push(partition_of(data, index))
                };
                if index + 1 >= total || index > u32::MAX {
                    Ok(more)
                } else {
                    partitions_from(content, index + 1, total, more)
                }
            },
        },
    }
}

/// The partitions of a volume system.
pub open spec fn partitions_of(content: Content) -> Result<Seq<ApmPartitionInfo>, DriverError> {
    partitions_from(content, 0, 0, Seq::empty())
}

/// What a partition map entry stores.
pub struct ApmStoredEntry {
    pub start_sector: u32,
    pub number_of_sectors: u32,
    pub name: Seq<char>,
    pub type_identifier: Seq<char>,
    pub status_flags: u32,
}

/// Whether a partition map entry is stored in a sector: behind the characters "PM", in big-endian
/// order, the number of entries, the first sector and the number of sectors, the name and the type in
/// 32 bytes each, and the flags.
pub open spec fn holds_entry(
    content: Content,
    sector: int,
    count: int,
    entry: ApmStoredEntry,
) -> bool {
    let data = content.window(512 * sector, 512);
    &&& content.has(512 * sector, 512)
    &&& data[0] == 0x50 && data[1] == 0x4d
    &&& holds_be(data, 4, 4, count)
    &&& holds_be(data, 8, 4, entry.start_sector as int)
    &&& holds_be(data, 12, 4, entry.number_of_sectors as int)
    &&& holds_text(data, 16, 48, entry.name)
    &&& holds_text(data, 48, 80, entry.type_identifier)
    &&& holds_be(data, 88, 4, entry.status_flags as int)
}

/// The entries of a partition map, which start in the second sector, give back the partitions: each but
/// the first one, which is that of the map itself.
pub proof fn lemma_partitions_stored(content: Content, entries: Seq<ApmStoredEntry>)
    requires
        0 < entries.len() <= u32::MAX,
        entries[0].type_identifier == "Apple_partition_map"@,
        forall|i: int|
            0 <= i < entries.len() ==> holds_entry(
                content,
                1 + i,
                entries.len() as int,
                #[trigger] entries[i],
            ),
        forall|i: int, j: int|
            0 < i < j < entries.len() ==> (#[trigger] entries[i]).start_sector
                + entries[i].number_of_sectors <= (#[trigger] entries[j]).start_sector,
        forall|i: int|
            0 < i < entries.len() ==> 512 * ((#[trigger] entries[i]).start_sector
                + entries[i].number_of_sectors) <= content.size,
    ensures
        partitions_of(content) is Ok,
        partitions_of(content)->Ok_0.len() == entries.len() - 1,
        forall|i: int|
            0 <= i < entries.len() - 1 ==> {
                let partition = #[trigger] partitions_of(content)->Ok_0[i];
                let entry = entries[i + 1];
                &&& partition.entry_index == i
                &&& partition.offset == 512 * entry.start_sector
                &&& partition.size == 512 * entry.number_of_sectors
                &&& partition.name == entry.name
                &&& partition.type_identifier == entry.type_identifier
                &&& partition.status_flags == entry.status_flags
            },
{
    lemma_partitions_stored_from(content, entries, 0, 0, Seq::empty());
}

/// The partition of an entry.
pub open spec fn stored_partition(entry: ApmStoredEntry, index: int) -> ApmPartitionInfo {
    ApmPartitionInfo {
        entry_index: index as nat,
        offset: (512 * entry.start_sector) as u64,
        size: (512 * entry.number_of_sectors) as u64,
        type_identifier: entry.type_identifier,
        name: entry.name,
        status_flags: entry.status_flags,
    }
}

proof fn lemma_partitions_stored_from(
    content: Content,
    entries: Seq<ApmStoredEntry>,
    index: int,
    count: u32,
    partitions: Seq<ApmPartitionInfo>,
)
    requires
        0 <= index < entries.len() <= u32::MAX,
        index > 0 ==> count == entries.len(),
        entries[0].type_identifier == "Apple_partition_map"@,
        forall|i: int|
            0 <= i < entries.len() ==> holds_entry(
                content,
                1 + i,
                entries.len() as int,
                #[trigger] entries[i],
            ),
        forall|i: int, j: int|
            0 < i < j < entries.len() ==> (#[trigger] entries[i]).start_sector
                + entries[i].number_of_sectors <= (#[trigger] entries[j]).start_sector,
        forall|i: int|
            0 < i < entries.len() ==> 512 * ((#[trigger] entries[i]).start_sector
                + entries[i].number_of_sectors) <= content.size,
        partitions.len() == (if index == 0 {
            0
        } else {
            index - 1
        }),
        forall|i: int|
            0 <= i < partitions.len() ==> #[trigger] partitions[i] == stored_partition(
                entries[i + 1],
                i,
            ),
    ensures
        partitions_from(content, index, count, partitions) is Ok,
        partitions_from(content, index, count, partitions)->Ok_0.len() == entries.len() - 1,
        forall|i: int|
            0 <= i < entries.len() - 1 ==> #[trigger] partitions_from(
                content,
                index,
                count,
                partitions,
            )->Ok_0[i] == stored_partition(entries[i + 1], i),
    decreases entries.len() - index,
{
    broadcast use {lemma_holds_be, lemma_stored_text};

    let entry = entries[index];
    let data = content.window(512 * (1 + index), 512);
    assert(holds_entry(content, 1 + index, entries.len() as int, entry));
    assert(512 + 512 * index == 512 * (1 + index));
    assert(u16_be(data, 0) == 0x504d);
    assert(entry_at(content, 512 + 512 * index) == Ok::<Seq<u8>, DriverError>(data));
    let more = if index == 0 {
        partitions
    } else {
        assert(partition_of(data, index) == stored_partition(entry, index - 1));
        if partitions.len() > 0 {
            assert(partitions[index - 2] == stored_partition(entries[index - 1], index - 2));
            assert(entries[index - 1].start_sector + entries[index - 1].number_of_sectors
                <= entries[index].start_sector);
        }
        partitions.push(partition_of(data, index))
    };
    assert(entry_failure(data, index, count, content.size, partitions) is None);
    if index + 1 < entries.len() {
        assert forall|i: int| 0 <= i < more.len() implies #[trigger] more[i] == stored_partition(
            entries[i + 1],
            i,
        ) by {
            if i < partitions.len() {
                assert(more[i] == partitions[i]);
            }
        }
        lemma_partitions_stored_from(content, entries, index + 1, entries.len() as u32, more);
    } else {
        assert forall|i: int| 0 <= i < more.len() implies #[trigger] more[i] == stored_partition(
            entries[i + 1],
            i,
        ) by {
            if i < partitions.len() {
                assert(more[i] == partitions[i]);
            }
        }
    }
}

/// Whether partitions follow each other without overlap and lie in a source of the given size.
pub open spec fn are_ordered(partitions: Seq<ApmPartitionInfo>, source_size: nat) -> bool {
    &&& forall|i: int|
        0 <= i < partitions.len() ==> (#[trigger] partitions[i]).offset + partitions[i].size
            <= last_end(partitions) <= source_size
    &&& forall|i: int, j: int|
        0 <= i < j < partitions.len() ==> (#[trigger] partitions[i]).offset + partitions[i].size <= (
        #[trigger] partitions[j]).offset
}

/// The partitions of a volume system follow each other without overlap and lie in the source.
pub proof fn lemma_partitions_ordered(content: Content)
    requires
        partitions_of(content) is Ok,
    ensures
        are_ordered(partitions_of(content)->Ok_0, content.size),
{
    lemma_ordered_from(content, 0, 0, Seq::empty());
}

proof fn lemma_ordered_from(
    content: Content,
    index: int,
    count: u32,
    partitions: Seq<ApmPartitionInfo>,
)
    requires
        partitions_from(content, index, count, partitions) is Ok,
        are_ordered(partitions, content.size),
    ensures
        are_ordered(partitions_from(content, index, count, partitions)->Ok_0, content.size),
    decreases u32::MAX + 1 - index,
{
    let data = entry_at(content, 512 + 512 * index)->Ok_0;
    let total = u32_be(data, 4);
    let more = if index == 0 {
        partitions
    } else {
        partitions.push(partition_of(data, index))
    };
    assert(are_ordered(more, content.size)) by {
        if index != 0 {
            assert(more.last() == partition_of(data, index));
            assert forall|i: int| 0 <= i < partitions.len() implies (
            #[trigger] partitions[i]).offset + partitions[i].size <= last_end(partitions) by {}
            assert forall|i: int| 0 <= i < more.len() implies (#[trigger] more[i]).offset
                + more[i].size <= last_end(more) <= content.size by {
                if i < partitions.len() {
                    assert(more[i] == partitions[i]);
                }
            }
            assert forall|i: int, j: int| 0 <= i < j < more.len() implies (
            #[trigger] more[i]).offset + more[i].size <= (#[trigger] more[j]).offset by {
                assert(more[i] == partitions[i]);
                if j < partitions.len() {
                    assert(more[j] == partitions[j]);
                }
            }
        }
    }
    if !(index + 1 >= total || index > u32::MAX) {
        lemma_ordered_from(content, index + 1, total, more);
    }
}

/// Apple Partition Map partition metadata.
pub struct ApmPartition {
    entry_index: usize,
    offset: u64,
    size: u64,
    type_identifier: String,
    name: String,
    status_flags: u32,
}

impl ApmPartition {
    /// What is known of the partition.
    pub closed spec fn view(&self) -> ApmPartitionInfo {
        ApmPartitionInfo {
            entry_index: self.entry_index as nat,
            offset: self.offset,
            size: self.size,
            type_identifier: self.type_identifier@,
            name: self.name@,
            status_flags: self.status_flags,
        }
    }

    /// Retrieves the partition table entry index.
    pub fn entry_index(&self) -> (entry_index: usize)
        ensures
            entry_index == self@.entry_index,
    {
        self.entry_index
    }

    /// Retrieves the partition offset relative to the start of the image.
    pub fn offset(&self) -> (offset: u64)
        ensures
            offset == self@.offset,
    {
        self.offset
    }

    /// Retrieves the partition size in bytes.
    pub fn size(&self) -> (size: u64)
        ensures
            size == self@.size,
    {
        self.size
    }

    /// Retrieves the partition type identifier.
    pub fn type_identifier(&self) -> (type_identifier: &str)
        ensures
            type_identifier@ == self@.type_identifier,
    {
        self.type_identifier.as_str()
    }

    /// Retrieves the partition name.
    pub fn name(&self) -> (name: &str)
        ensures
            name@ == self@.name,
    {
        self.name.as_str()
    }

    /// Retrieves the partition status flags.
    pub fn status_flags(&self) -> (status_flags: u32)
        ensures
            status_flags == self@.status_flags,
    {
        self.status_flags
    }

    /// Opens the partition as an immutable slice data source.
    pub fn open_source(&self, source: DataSourceReference) -> (partition: DataSourceReference)
        ensures
            is_slice(partition, source, self@.offset, self@.size),
    {
        open_slice(source, self.offset, self.size)
    }
}

/// The partitions as they are known.
pub open spec fn partitions_view(partitions: Seq<ApmPartition>) -> Seq<ApmPartitionInfo> {
    Seq::new(partitions.len(), |i: int| partitions[i]@)
}

fn read_entry(source: &DataSourceReference, offset: u64) -> (result: Result<Vec<u8>, DriverError>)
    ensures
        match result {
            Ok(data) => {
                &&& entry_at(source.content(), offset as int) == Ok::<Seq<u8>, DriverError>(data@)
                &&& data@.len() == 512
            },
            Err(error) => source.reliable() ==> entry_at(source.content(), offset as int) == Err::<
                Seq<u8>,
                DriverError,
            >(error),
        },
{
    let data: Vec<u8> = read_bytes(source, offset, 512)?;
    if read_u16_be(data.as_slice(), 0) != 0x504d {
        return Err(DriverError::Unsupported);
    }
    Ok(data)
}

/// Checks an entry.
fn check_entry(
    data: &[u8],
    index: u32,
    count: u32,
    source_size: u64,
    previous_end: u64,
    Ghost(partitions): Ghost<Seq<ApmPartitionInfo>>,
) -> (result: Result<(), DriverError>)
    requires
        data@.len() == 512,
        previous_end == last_end(partitions),
    ensures
        match result {
            Ok(()) => entry_failure(
                data@,
                index as int,
                count,
                source_size as nat,
                partitions,
            ) is None,
            Err(error) => entry_failure(
                data@,
                index as int,
                count,
                source_size as nat,
                partitions,
            ) == Some(error),
        },
{
    let total: u32 = read_u32_be(data, 4);
    if total == 0 {
        return Err(DriverError::Unsupported);
    }
    if index == 0 {
        let text: String = read_stored_text(data, 48, 80);
        let chars: Vec<char> = text_chars(text.as_str());
        let expected: Vec<char> = text_chars("Apple_partition_map");
        if !same_text(chars.as_slice(), expected.as_slice()) {
            return Err(DriverError::Unsupported);
        }
        return Ok(());
    }
    if total != count {
        return Err(DriverError::Unsupported);
    }
    let offset: u64 = 512 * (read_u32_be(data, 8) as u64);
    let size: u64 = 512 * (read_u32_be(data, 12) as u64);
    if offset < previous_end {
        return Err(DriverError::Overlap);
    }
    if offset + size > source_size {
        return Err(DriverError::OutOfBounds);
    }
    Ok(())
}

/// Apple Partition Map metadata.
pub struct ApmVolumeSystem {
    partitions: Vec<ApmPartition>,
}

impl ApmVolumeSystem {
    /// The partitions of the volume system.
    pub closed spec fn view(&self) -> Seq<ApmPartitionInfo> {
        partitions_view(self.partitions@)
    }

    /// Opens and parses an Apple Partition Map.
    pub fn open(source: &DataSourceReference) -> (result: Result<Self, DriverError>)
        ensures
            match result {
                Ok(volume) => partitions_of(source.content()) == Ok::<
                    Seq<ApmPartitionInfo>,
                    DriverError,
                >(volume@),
                Err(error) => source.reliable() ==> partitions_of(source.content()) == Err::<
                    Seq<ApmPartitionInfo>,
                    DriverError,
                >(error),
            },
    {
        let source_size: u64 = source.size()?;
        let ghost content = source.content();
        let mut partitions: Vec<ApmPartition> = Vec::new();
        let mut count: u32 = 0;
        let mut previous_end: u64 = 0;
        let mut index: u32 = 0;
        assert(partitions_view(partitions@) =~= Seq::<ApmPartitionInfo>::empty());
        loop
            invariant
                content == source.content(),
                source_size == content.size,
                partitions_of(content) == partitions_from(
                    content,
                    index as int,
                    count,
                    partitions_view(partitions@),
                ),
                previous_end == last_end(partitions_view(partitions@)),
            decreases u32::MAX - index,
        {
            let ghost views = partitions_view(partitions@);
            let data: Vec<u8> = read_entry(source, 512 + 512 * (index as u64))?;
            let data: &[u8] = data.as_slice();
            check_entry(data, index, count, source_size, previous_end, Ghost(views))?;
            if index != 0 {
                let partition = ApmPartition {
                    entry_index: (index - 1) as usize,
                    offset: 512 * (read_u32_be(data, 8) as u64),
                    size: 512 * (read_u32_be(data, 12) as u64),
                    type_identifier: read_stored_text(data, 48, 80),
                    name: read_stored_text(data, 16, 48),
                    status_flags: read_u32_be(data, 88),
                };
                previous_end = partition.offset + partition.size;
                assert(partition@ == partition_of(data@, index as int));
                partitions.push(partition);
                assert(partitions_view(partitions@) =~= views.push(partition@));
            }
            count = read_u32_be(data, 4);
            if index >= count - 1 {
                return Ok(ApmVolumeSystem { partitions });
            }
            index += 1;
        }
    }

    /// Retrieves the bytes-per-sector value.
    pub fn bytes_per_sector(&self) -> (bytes_per_sector: u16)
        ensures
            bytes_per_sector == 512,
    {
        512
    }

    /// Retrieves all parsed partitions.
    pub fn partitions(&self) -> (partitions: &[ApmPartition])
        ensures
            partitions_view(partitions@) == self@,
    {
        self.partitions.as_slice()
    }

    /// Retrieves a partition by index.
    pub fn partition(&self, partition_index: usize) -> (result: Result<&ApmPartition, DriverError>)
        ensures
            match result {
                Ok(partition) => partition_index < self@.len() && partition@
                    == self@[partition_index as int],
                Err(error) => error == DriverError::OutOfBounds && partition_index >= self@.len(),
            },
    {
        if partition_index < self.partitions.len() {
            Ok(&self.partitions[partition_index])
        } else {
            Err(DriverError::OutOfBounds)
        }
    }
}

} // verus!
