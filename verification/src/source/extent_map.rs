use std::sync::Arc;

use vstd::prelude::*;

use super::capabilities::{
    combine_data_source_capabilities, combined_capabilities, concurrent_cheap_capabilities,
    lemma_combined_capabilities_uniform, DataSourceCapabilities, DataSourceSeekCost,
};
use super::data_source::{Content, DataSource, DataSourceReference, SharedDataSource};
use crate::error::DriverError;

verus! {

/// Physical extent target.
pub enum ExtentMapTarget {
    /// Data stored in an underlying source.
    Data {
        /// Underlying source.
        source: DataSourceReference,
        /// Physical offset within the underlying source.
        source_offset: u64,
    },
    /// Zero-filled sparse extent.
    Zero,
}

impl Clone for ExtentMapTarget {
    fn clone(&self) -> (target: Self)
        ensures
            target == *self,
    {
        match self {
            ExtentMapTarget::Data { source, source_offset } => ExtentMapTarget::Data {
                source: source.clone(),
                source_offset: *source_offset,
            },
            ExtentMapTarget::Zero => ExtentMapTarget::Zero,
        }
    }
}

/// Logical extent mapping entry.
pub struct ExtentMapEntry {
    /// Logical start offset of the extent.
    pub logical_offset: u64,
    /// Size of the extent in bytes.
    pub size: u64,
    /// Physical target for the extent.
    pub target: ExtentMapTarget,
}

impl Clone for ExtentMapEntry {
    fn clone(&self) -> (entry: Self)
        ensures
            entry == *self,
    {
        ExtentMapEntry {
            logical_offset: self.logical_offset,
            size: self.size,
            target: self.target.clone(),
        }
    }
}

/// Where the byte at a logical offset is stored.
pub enum MediaLocation {
    /// Nowhere: the byte is zero.
    Zero,
    /// At an offset of a data source.
    Data { source: DataSourceReference, offset: int },
}

/// The byte at a location, if there is one. There is none where no offset can be given after it.
pub open spec fn location_byte(location: MediaLocation) -> Option<u8> {
    match location {
        MediaLocation::Zero => Some(0u8),
        MediaLocation::Data { source, offset } => if offset < u64::MAX
            && source.content().bytes.contains_key(offset) {
            Some(source.content().bytes[offset])
        } else {
            None
        },
    }
}

/// The content of a medium of `size` bytes of which `location` says where each byte is stored.
pub open spec fn media_content(size: nat, location: spec_fn(int) -> MediaLocation) -> Content {
    Content {
        size,
        bytes: Map::new(
            |k: int| 0 <= k < size && location_byte(location(k)) is Some,
            |k: int| location_byte(location(k))->0,
        ),
    }
}

/// Every byte of a medium is zero where it is stored nowhere, and else the byte at its location, as far
/// as there is one that can be read.
pub proof fn lemma_media_byte(size: nat, location: spec_fn(int) -> MediaLocation, k: int)
    requires
        0 <= k < size,
    ensures
        media_content(size, location).size == size,
        location(k) is Zero ==> media_content(size, location).bytes.contains_key(k)
            && media_content(size, location).bytes[k] == 0,
        location(k) matches MediaLocation::Data { source, offset } ==> {
            &&& media_content(size, location).bytes.contains_key(k) <==> offset < u64::MAX
                && source.content().bytes.contains_key(offset)
            &&& media_content(size, location).bytes.contains_key(k) ==> media_content(
                size,
                location,
            ).bytes[k] == source.content().bytes[offset]
        },
{
}

/// Whether a logical offset lies in an extent.
pub open spec fn extent_covers(entry: ExtentMapEntry, offset: int) -> bool {
    entry.logical_offset <= offset < entry.logical_offset + entry.size
}

/// Where an extent stores the byte at a logical offset.
pub open spec fn extent_location(entry: ExtentMapEntry, offset: int) -> MediaLocation {
    match entry.target {
        ExtentMapTarget::Zero => MediaLocation::Zero,
        ExtentMapTarget::Data { source, source_offset } => MediaLocation::Data {
            source,
            offset: source_offset + (offset - entry.logical_offset),
        },
    }
}

/// Where a list of extents stores the byte at a logical offset.
pub open spec fn extents_location(entries: Seq<ExtentMapEntry>, offset: int) -> MediaLocation
    decreases entries.len(),
{
    if entries.len() == 0 {
        MediaLocation::Zero
    } else if extent_covers(entries.last(), offset) {
        extent_location(entries.last(), offset)
    } else {
        extents_location(entries.drop_last(), offset)
    }
}

/// The logical size of a list of extents, or why the list is not valid: every extent must start
/// where the one before it ends, and must not be empty.
pub open spec fn check_extents(entries: Seq<ExtentMapEntry>) -> Result<u64, DriverError>
    decreases entries.len(),
{
    if entries.len() == 0 {
        Ok(0)
    } else {
        match check_extents(entries.drop_last()) {
            Err(error) => Err(error),
            Ok(end) => if entries.last().size == 0 || entries.last().logical_offset != end {
                Err(DriverError::Invalid)
            } else if end + entries.last().size > u64::MAX {
                Err(DriverError::Overflow)
            } else {
                Ok((end + entries.last().size) as u64)
            },
        }
    }
}

/// The capabilities of the sources that the extents store data in, in order.
pub open spec fn extents_capabilities(entries: Seq<ExtentMapEntry>) -> Seq<DataSourceCapabilities>
    decreases entries.len(),
{
    if entries.len() == 0 {
        Seq::empty()
    } else {
        match entries.last().target {
            ExtentMapTarget::Zero => extents_capabilities(entries.drop_last()),
            ExtentMapTarget::Data { source, .. } => extents_capabilities(entries.drop_last()).push(
                source.spec_capabilities(),
            ),
        }
    }
}

/// The capabilities of a list of extents.
pub open spec fn extent_map_capabilities(entries: Seq<ExtentMapEntry>) -> DataSourceCapabilities {
    if extents_capabilities(entries).len() == 0 {
        concurrent_cheap_capabilities()
    } else {
        combined_capabilities(extents_capabilities(entries))
    }
}

/// Whether the source of an extent can be read without failure.
pub open spec fn extent_reliable(entry: ExtentMapEntry) -> bool {
    match entry.target {
        ExtentMapTarget::Zero => true,
        ExtentMapTarget::Data { source, .. } => source.progresses(),
    }
}

/// Whether the sources of all extents can be read without failure.
pub open spec fn extents_reliable(entries: Seq<ExtentMapEntry>) -> bool {
    forall|i: int| 0 <= i < entries.len() ==> extent_reliable(#[trigger] entries[i])
}

/// Whether every byte of every extent is stored where an offset can be given.
pub open spec fn extents_addressable(entries: Seq<ExtentMapEntry>) -> bool {
    forall|i: int|
        0 <= i < entries.len() ==> match (#[trigger] entries[i]).target {
            ExtentMapTarget::Zero => true,
            ExtentMapTarget::Data { source_offset, .. } => source_offset + entries[i].size
                <= u64::MAX,
        }
}

/// Whether the byte at a location can be read without failure, if there is one.
pub open spec fn location_reliable(location: MediaLocation) -> bool {
    match location {
        MediaLocation::Zero => true,
        MediaLocation::Data { source, offset } => source.progresses() && offset <= u64::MAX,
    }
}

/// Whether every byte of a part of a medium can be read without failure.
pub open spec fn part_reliable(
    size: nat,
    location: spec_fn(int) -> MediaLocation,
    offset: int,
    length: int,
) -> bool {
    forall|k: int|
        offset <= k < offset + length && 0 <= k < size ==> location_reliable(#[trigger] location(k))
}

/// Whether an extent continues the one before it.
pub open spec fn extent_continues(last: ExtentMapEntry, entry: ExtentMapEntry) -> bool {
    &&& last.logical_offset + last.size == entry.logical_offset
    &&& match (last.target, entry.target) {
        (ExtentMapTarget::Zero, ExtentMapTarget::Zero) => true,
        (
            ExtentMapTarget::Data { source, source_offset },
            ExtentMapTarget::Data { source: next_source, source_offset: next_offset },
        ) => source == next_source && source_offset + last.size == next_offset,
        _ => false,
    }
}

/// Two extents of which one continues the other.
pub open spec fn joined_extent(last: ExtentMapEntry, entry: ExtentMapEntry) -> ExtentMapEntry {
    ExtentMapEntry {
        logical_offset: last.logical_offset,
        size: (last.size + entry.size) as u64,
        target: last.target,
    }
}

/// A list of extents after one was added, which becomes part of the last one if it continues it.
pub open spec fn added_extent(entries: Seq<ExtentMapEntry>, entry: ExtentMapEntry) -> Seq<
    ExtentMapEntry,
> {
    if entry.size == 0 {
        entries
    } else if entries.len() > 0 && extent_continues(entries.last(), entry) {
        entries.drop_last().push(joined_extent(entries.last(), entry))
    } else {
        entries.push(entry)
    }
}

/// Whether no extent of a list continues the one before it.
pub open spec fn extents_minimal(entries: Seq<ExtentMapEntry>) -> bool {
    forall|i: int|
        0 < i < entries.len() ==> !extent_continues(entries[i - 1], #[trigger] entries[i])
}

/// Adding an extent keeps a list minimal.
pub proof fn lemma_added_extent(entries: Seq<ExtentMapEntry>, entry: ExtentMapEntry)
    requires
        check_extents(entries) is Ok,
        extents_minimal(entries),
        entries.len() > 0 ==> entries.last().size + entry.size <= u64::MAX,
    ensures
        extents_minimal(added_extent(entries, entry)),
{
    let added = added_extent(entries, entry);
    assert forall|i: int| 0 < i < added.len() implies !extent_continues(
        added[i - 1],
        #[trigger] added[i],
    ) by {
        if i < entries.len() {
            assert(!extent_continues(entries[i - 1], entries[i]));
        }
    }
}

/// Whether the byte at a location is stored right after the one at another.
pub open spec fn location_continues(last: MediaLocation, next: MediaLocation) -> bool {
    match (last, next) {
        (MediaLocation::Zero, MediaLocation::Zero) => true,
        (
            MediaLocation::Data { source, offset },
            MediaLocation::Data { source: next_source, offset: next_offset },
        ) => source == next_source && offset + 1 == next_offset,
        _ => false,
    }
}

/// In a minimal list an extent starts only where a byte is not stored right after the one before
/// it.
pub proof fn lemma_extents_minimal(entries: Seq<ExtentMapEntry>, index: int)
    requires
        check_extents(entries) is Ok,
        extents_minimal(entries),
        0 < index < entries.len(),
    ensures
        0 < entries[index].logical_offset < check_extents(entries)->Ok_0,
        !location_continues(
            extents_location(entries, entries[index].logical_offset - 1),
            extents_location(entries, entries[index].logical_offset as int),
        ),
{
    let next = entries[index];
    lemma_check_extents_prefix(entries, index);
    lemma_check_extents_prefix(entries, index - 1);
    assert(entries.take(index).drop_last() =~= entries.take(index - 1));
    assert(entries.take(index).last() == entries[index - 1]);
    lemma_extents_location_at(entries, index, next.logical_offset as int);
    lemma_extents_location_at(entries, index - 1, next.logical_offset - 1);
    assert(!extent_continues(entries[index - 1], entries[index]));
}

/// Whether a list of extents is valid up to the logical offset `end` and stores every byte before
/// it where `location` says.
pub open spec fn extents_match(
    entries: Seq<ExtentMapEntry>,
    end: u64,
    location: spec_fn(int) -> MediaLocation,
) -> bool {
    &&& check_extents(entries) == Ok::<u64, DriverError>(end)
    &&& forall|k: int| 0 <= k < end ==> #[trigger] extents_location(entries, k) == location(k)
}

/// Adding an extent that starts at the end extends what the list matches.
pub proof fn lemma_extents_match_push(
    entries: Seq<ExtentMapEntry>,
    end: u64,
    entry: ExtentMapEntry,
    location: spec_fn(int) -> MediaLocation,
)
    requires
        extents_match(entries, end, location),
        entry.logical_offset == end,
        entry.size > 0,
        end + entry.size <= u64::MAX,
        forall|k: int|
            end <= k < end + entry.size ==> #[trigger] extent_location(entry, k) == location(k),
    ensures
        extents_match(entries.push(entry), (end + entry.size) as u64, location),
{
    let pushed = entries.push(entry);
    assert(pushed.drop_last() =~= entries);
    assert forall|k: int| 0 <= k < end + entry.size implies #[trigger] extents_location(pushed, k)
        == location(k) by {
        if end <= k {
            assert(extent_covers(entry, k));
            assert(extent_location(entry, k) == location(k));
        } else {
            assert(!extent_covers(entry, k));
            assert(extents_location(entries, k) == location(k));
        }
    }
}

/// The empty list matches everything before offset zero.
pub proof fn lemma_extents_match_empty(location: spec_fn(int) -> MediaLocation)
    ensures
        extents_match(Seq::empty(), 0, location),
{
}

/// Every prefix of a valid list is valid and ends where the next extent starts.
pub proof fn lemma_check_extents_prefix(entries: Seq<ExtentMapEntry>, index: int)
    requires
        check_extents(entries) is Ok,
        0 <= index < entries.len(),
    ensures
        check_extents(entries.take(index)) == Ok::<u64, DriverError>(entries[index].logical_offset),
        entries[index].size > 0,
        entries[index].logical_offset + entries[index].size <= check_extents(entries)->Ok_0,
    decreases entries.len(),
{
    if index == entries.len() - 1 {
        assert(entries.take(index) =~= entries.drop_last());
    } else {
        lemma_check_extents_prefix(entries.drop_last(), index);
        assert(entries.drop_last().take(index) =~= entries.take(index));
    }
}

/// The extents of a valid list are in order and do not overlap.
pub proof fn lemma_extents_ordered(entries: Seq<ExtentMapEntry>, i: int, j: int)
    requires
        check_extents(entries) is Ok,
        0 <= i < j < entries.len(),
    ensures
        entries[i].logical_offset + entries[i].size <= entries[j].logical_offset,
{
    lemma_check_extents_prefix(entries, j);
    lemma_check_extents_prefix(entries.take(j), i);
}

/// The location of an offset is the one that the extent which covers it gives.
pub proof fn lemma_extents_location_at(entries: Seq<ExtentMapEntry>, index: int, offset: int)
    requires
        check_extents(entries) is Ok,
        0 <= index < entries.len(),
        extent_covers(entries[index], offset),
    ensures
        extents_location(entries, offset) == extent_location(entries[index], offset),
    decreases entries.len(),
{
    if index < entries.len() - 1 {
        lemma_extents_ordered(entries, index, entries.len() - 1);
        lemma_extents_location_at(entries.drop_last(), index, offset);
    }
}

/// Every byte that a zero-filled extent covers is zero, and every other one is that of the source of
/// its extent, as far behind the offset in the source as it lies behind the start of the extent.
pub proof fn lemma_extent_byte(entries: Seq<ExtentMapEntry>, index: int, relative_offset: int)
    requires
        check_extents(entries) is Ok,
        0 <= index < entries.len(),
        0 <= relative_offset < entries[index].size,
    ensures
        ({
            let content = media_content(
                check_extents(entries)->Ok_0 as nat,
                |k: int| extents_location(entries, k),
            );
            let offset = entries[index].logical_offset + relative_offset;
            match entries[index].target {
                ExtentMapTarget::Zero => content.bytes.contains_key(offset)
                    && content.bytes[offset] == 0,
                ExtentMapTarget::Data { source, source_offset } => {
                    let at = source_offset + relative_offset;
                    &&& content.bytes.contains_key(offset) <==> at < u64::MAX
                        && source.content().bytes.contains_key(at)
                    &&& content.bytes.contains_key(offset) ==> content.bytes[offset]
                        == source.content().bytes[at]
                },
            }
        }),
        entries[index].logical_offset + relative_offset < check_extents(entries)->Ok_0,
{
    let offset = entries[index].logical_offset + relative_offset;
    lemma_check_extents_prefix(entries, index);
    lemma_extents_location_at(entries, index, offset);
    let location = |k: int| extents_location(entries, k);
    assert(location(offset) == extent_location(entries[index], offset));
}

/// The size of a list of extents is the sum of the sizes of its extents.
pub proof fn lemma_extents_total(entries: Seq<ExtentMapEntry>)
    requires
        check_extents(entries) is Ok,
    ensures
        check_extents(entries)->Ok_0 == entries.fold_left(
            0int,
            |sum: int, entry: ExtentMapEntry| sum + entry.size,
        ),
    decreases entries.len(),
{
    if entries.len() > 0 {
        lemma_extents_total(entries.drop_last());
    }
}

/// Extents that all store their data in one source have its capabilities, if there is one that
/// stores data at all.
pub proof fn lemma_extents_capabilities_uniform(
    entries: Seq<ExtentMapEntry>,
    capabilities: DataSourceCapabilities,
)
    requires
        forall|i: int|
            0 <= i < entries.len() ==> match #[trigger] entries[i].target {
                ExtentMapTarget::Zero => true,
                ExtentMapTarget::Data { source, .. } => source.spec_capabilities() == capabilities,
            },
    ensures
        (exists|i: int| 0 <= i < entries.len() && #[trigger] entries[i].target is Data)
            ==> extent_map_capabilities(entries) == capabilities,
        !(exists|i: int| 0 <= i < entries.len() && #[trigger] entries[i].target is Data)
            ==> extent_map_capabilities(entries) == concurrent_cheap_capabilities(),
{
    lemma_extents_capabilities_list(entries, capabilities);
    if extents_capabilities(entries).len() > 0 {
        lemma_combined_capabilities_uniform(extents_capabilities(entries), capabilities);
    }
}

proof fn lemma_extents_capabilities_list(
    entries: Seq<ExtentMapEntry>,
    capabilities: DataSourceCapabilities,
)
    requires
        forall|i: int|
            0 <= i < entries.len() ==> match #[trigger] entries[i].target {
                ExtentMapTarget::Zero => true,
                ExtentMapTarget::Data { source, .. } => source.spec_capabilities() == capabilities,
            },
    ensures
        forall|i: int|
            0 <= i < extents_capabilities(entries).len() ==> extents_capabilities(entries)[i]
                == capabilities,
        extents_capabilities(entries).len() > 0 <==> exists|i: int|
            0 <= i < entries.len() && #[trigger] entries[i].target is Data,
    decreases entries.len(),
{
    if entries.len() > 0 {
        let front = entries.drop_last();
        assert forall|i: int| 0 <= i < front.len() implies match #[trigger] front[i].target {
            ExtentMapTarget::Zero => true,
            ExtentMapTarget::Data { source, .. } => source.spec_capabilities() == capabilities,
        } by {
            assert(front[i] == entries[i]);
        }
        lemma_extents_capabilities_list(front, capabilities);
        assert(entries[entries.len() - 1].target == entries.last().target);
        if extents_capabilities(entries).len() > 0 && !(entries.last().target is Data) {
            let i = choose|i: int| 0 <= i < front.len() && #[trigger] front[i].target is Data;
            assert(entries[i].target is Data);
        }
        if exists|i: int| 0 <= i < entries.len() && #[trigger] entries[i].target is Data {
            let i = choose|i: int| 0 <= i < entries.len() && #[trigger] entries[i].target is Data;
            if i < front.len() {
                assert(front[i].target is Data);
            }
        }
    }
}

/// Logical source backed by immutable extents and sparse regions.
pub struct ExtentMapDataSource {
    entries: Vec<ExtentMapEntry>,
    size: u64,
    capabilities: DataSourceCapabilities,
}

/// Fills a buffer with zeros.
pub(crate) fn fill_zero(data: &mut [u8])
    ensures
        final(data)@.len() == old(data)@.len(),
        forall|k: int| 0 <= k < final(data)@.len() ==> final(data)@[k] == 0,
{
    let mut index: usize = 0;
    while index < data.len()
        invariant
            index <= data@.len(),
            data@.len() == old(data)@.len(),
            forall|k: int| 0 <= k < index ==> data@[k] == 0,
        decreases data@.len() - index,
    {
        data[index] = 0;
        index += 1;
    }
}

impl ExtentMapDataSource {
    /// The extents of the source.
    pub closed spec fn view(&self) -> Seq<ExtentMapEntry> {
        self.entries@
    }

    #[verifier::type_invariant]
    spec fn well_formed(self) -> bool {
        &&& check_extents(self.entries@) == Ok::<u64, DriverError>(self.size)
        &&& self.capabilities == extent_map_capabilities(self.entries@)
    }

    /// Creates a new extent map data source.
    pub fn new(entries: Vec<ExtentMapEntry>) -> (result: Result<Self, DriverError>)
        ensures
            match result {
                Ok(source) => source@ == entries@ && check_extents(entries@) is Ok,
                Err(error) => check_extents(entries@) == Err::<u64, DriverError>(error),
            },
    {
        let mut expected_logical_offset: u64 = 0;
        let mut data_capabilities: Vec<DataSourceCapabilities> = Vec::new();
        let mut index: usize = 0;

        while index < entries.len()
            invariant
                index <= entries@.len(),
                check_extents(entries@.take(index as int)) == Ok::<u64, DriverError>(
                    expected_logical_offset,
                ),
                data_capabilities@ == extents_capabilities(entries@.take(index as int)),
            decreases entries@.len() - index,
        {
            let entry = &entries[index];
            proof {
                let taken = entries@.take(index + 1);
                assert(taken.drop_last() =~= entries@.take(index as int));
                assert(taken.last() == entry);
                if check_extents(taken) is Err {
                    lemma_check_extents_error(entries@, index + 1);
                }
            }
            if entry.size == 0 {
                return Err(DriverError::Invalid);
            }
            if entry.logical_offset != expected_logical_offset {
                return Err(DriverError::Invalid);
            }
            if let ExtentMapTarget::Data { source, .. } = &entry.target {
                data_capabilities.push(source.capabilities());
            }
            expected_logical_offset =
            match expected_logical_offset.checked_add(entry.size) {
                Some(end) => end,
                None => return Err(DriverError::Overflow),
            };
            index += 1;
        }
        assert(entries@.take(entries@.len() as int) =~= entries@);

        let capabilities = if data_capabilities.len() == 0 {
            DataSourceCapabilities::concurrent(DataSourceSeekCost::Cheap)
        } else {
            combine_data_source_capabilities(data_capabilities.as_slice())
        };
        Ok(Self { entries, size: expected_logical_offset, capabilities })
    }

    /// Turns the source into a shared reference.
    pub fn into_reference(self) -> (reference: DataSourceReference)
        ensures
            reference.content() == self.content(),
            reference.progresses() == self.progresses(),
            reference.advances() == self.advances(),
            reference.exhaustive() == self.exhaustive(),
            forall|offset: int, length: int| #[trigger]
                reference.answers(offset, length) == self.answers(offset, length),
            reference.measurable() == self.measurable(),
            reference.spec_capabilities() == self.spec_capabilities(),
            reference.spec_telemetry_name() == self.spec_telemetry_name(),
            reference.spec_origin_path() == self.spec_origin_path(),
    {
        Arc::new(SharedDataSource { inner: Box::new(self) })
    }

    /// The index of the extent that covers an offset.
    fn find_entry(&self, offset: u64) -> (index: usize)
        requires
            check_extents(self@) == Ok::<u64, DriverError>(self.size),
            offset < self.size,
        ensures
            index < self@.len(),
            extent_covers(self@[index as int], offset as int),
    {
        let mut low: usize = 0;
        let mut high: usize = self.entries.len();
        proof {
            if self@.len() > 0 {
                lemma_check_extents_prefix(self@, 0);
                assert(self@.take(0) =~= Seq::empty());
            }
        }
        while low + 1 < high
            invariant
                check_extents(self@) == Ok::<u64, DriverError>(self.size),
                offset < self.size,
                self@ == self.entries@,
                low < high <= self@.len(),
                self@[low as int].logical_offset <= offset,
                high < self@.len() ==> offset < self@[high as int].logical_offset,
            decreases high - low,
        {
            let middle: usize = low + (high - low) / 2;
            if self.entries[middle].logical_offset <= offset {
                low = middle;
            } else {
                high = middle;
            }
        }
        proof {
            let next = low + 1;
            if next < self@.len() {
                lemma_check_extents_prefix(self@, next);
                assert(self@.take(next).drop_last() =~= self@.take(low as int));
                assert(self@.take(next).last() == self@[low as int]);
            } else {
                assert(self@.drop_last() =~= self@.take(low as int));
                lemma_check_extents_prefix(self@, low as int);
            }
        }
        low
    }

    fn read_from_source(source: &DataSourceReference, offset: u64, data: &mut [u8]) -> (result:
        Result<usize, DriverError>)
        ensures
            final(data)@.len() == old(data)@.len(),
            result matches Ok(count) ==> {
                &&& count <= old(data)@.len()
                &&& offset + count <= u64::MAX
                &&& source.content().has(offset as int, count as int)
                &&& forall|k: int|
                    0 <= k < count ==> final(data)@[k] == source.content().bytes[offset + k]
                &&& forall|k: int|
                    count <= k < old(data)@.len() ==> final(data)@[k] == old(data)@[k]
            },
            source.progresses() ==> {
                &&& result is Ok
                &&& result->Ok_0 == old(data)@.len() || !source.content().bytes.contains_key(
                    offset + result->Ok_0,
                )
            },
    {
        let length: usize = data.len();
        let mut read_offset: usize = 0;
        let ghost content = source.content();

        while read_offset < length
            invariant
                read_offset <= length,
                offset + read_offset <= u64::MAX,
                length == data@.len(),
                length == old(data)@.len(),
                content == source.content(),
                content.has(offset as int, read_offset as int),
                forall|k: int| 0 <= k < read_offset ==> data@[k] == content.bytes[offset + k],
                forall|k: int| read_offset <= k < length ==> data@[k] == old(data)@[k],
            ensures
                source.progresses() ==> read_offset == length || !content.bytes.contains_key(
                    offset + read_offset,
                ),
            decreases length - read_offset,
        {
            let current_offset: u64 = offset + read_offset as u64;
            let ghost before = data@;
            let (_done, rest) = data.split_at_mut(read_offset);
            let ghost rest_before = rest@;
            let result = source.read_at(current_offset, rest);
            let ghost after = rest@;
            let read_count: usize = match result {
                Ok(read_count) => read_count,
                Err(error) => return Err(error),
            };
            proof {
                assert forall|k: int| read_offset + read_count <= k < length implies data@[k]
                    == old(data)@[k] by {
                    let j = k - read_offset - read_count;
                    assert(after.skip(read_count as int)[j] == rest_before.skip(
                        read_count as int,
                    )[j]);
                }
            }
            if read_count == 0 {
                break;
            }
            proof {
                assert forall|k: int| 0 <= k < read_offset + read_count implies data@[k]
                    == content.bytes[offset + k] by {
                    if k < read_offset {
                        assert(data@[k] == before[k]);
                    } else {
                        assert(after.take(read_count as int)[k - read_offset] == after[k
                            - read_offset]);
                    }
                }
            }
            read_offset += read_count;
        }
        Ok(read_offset)
    }
}

/// An error in a prefix is the error of the whole list.
pub proof fn lemma_check_extents_error(entries: Seq<ExtentMapEntry>, index: int)
    requires
        0 <= index <= entries.len(),
        check_extents(entries.take(index)) is Err,
    ensures
        check_extents(entries) == check_extents(entries.take(index)),
    decreases entries.len(),
{
    if index == entries.len() {
        assert(entries.take(index) =~= entries);
    } else {
        assert(entries.drop_last().take(index) =~= entries.take(index));
        lemma_check_extents_error(entries.drop_last(), index);
    }
}

impl DataSource for ExtentMapDataSource {
    open spec fn content(&self) -> Content {
        media_content(check_extents(self@)->Ok_0 as nat, |k: int| extents_location(self@, k))
    }

    open spec fn progresses(&self) -> bool {
        extents_reliable(self@) && extents_addressable(self@)
    }

    open spec fn advances(&self) -> bool {
        extents_reliable(self@)
    }

    open spec fn exhaustive(&self) -> bool {
        extents_reliable(self@) && extents_addressable(self@)
    }

    open spec fn answers(&self, offset: int, length: int) -> bool {
        part_reliable(self.content().size, |k: int| extents_location(self@, k), offset, length)
    }

    open spec fn measurable(&self) -> bool {
        true
    }

    open spec fn spec_capabilities(&self) -> DataSourceCapabilities {
        extent_map_capabilities(self@)
    }

    open spec fn spec_telemetry_name(&self) -> Option<Seq<char>> {
        Some("extent_map"@)
    }

    open spec fn spec_origin_path(&self) -> Option<Seq<char>> {
        None
    }

    fn read_at(&self, offset: u64, buf: &mut [u8]) -> (result: Result<usize, DriverError>)
        ensures
            offset >= self.content().size ==> result == Ok::<usize, DriverError>(0),
    {
        proof {
            use_type_invariant(self);
            assert(buf@.take(0) =~= self.content().window(offset as int, 0));
        }
        if offset >= self.size || buf.len() == 0 {
            return Ok(0);
        }
        let length: usize = buf.len();
        let mut written: usize = 0;
        let mut current_offset: u64 = offset;
        let ghost content = self.content();

        while written < length && current_offset < self.size
            invariant_except_break
                current_offset <= self.size,
            invariant
                written <= length,
                length == buf@.len(),
                length == old(buf)@.len(),
                current_offset == offset + written,
                check_extents(self@) == Ok::<u64, DriverError>(self.size),
                content == self.content(),
                content.has(offset as int, written as int),
                forall|k: int| 0 <= k < written ==> buf@[k] == content.bytes[offset + k],
                forall|k: int| written <= k < length ==> buf@[k] == old(buf)@[k],
            ensures
                extents_reliable(self@) || self.answers(offset as int, length as int) ==> written
                    == length || !content.bytes.contains_key(
                    offset + written,
                ),
            decreases length - written,
        {
            let index: usize = self.find_entry(current_offset);
            let entry = &self.entries[index];
            let relative_offset: u64 = current_offset - entry.logical_offset;
            let remaining: u64 = entry.size - relative_offset;
            let available: usize = if remaining < (length - written) as u64 {
                remaining as usize
            } else {
                length - written
            };
            let ghost before = buf@;
            let ghost location = |k: int| extents_location(self@, k);
            proof {
                lemma_check_extents_prefix(self@, index as int);
                assert forall|k: int|
                    current_offset <= k < current_offset + remaining implies #[trigger] location(k)
                    == extent_location(*entry, k) by {
                    lemma_extents_location_at(self@, index as int, k);
                }
            }
            let (_done, rest) = buf.split_at_mut(written);
            let (part, _tail) = rest.split_at_mut(available);
            let read_count: usize = match &entry.target {
                ExtentMapTarget::Data { source, source_offset } => {
                    let physical_offset: u64 = match source_offset.checked_add(relative_offset) {
                        Some(physical_offset) => physical_offset,
                        None => {
                            proof {
                                assert(location(current_offset as int) == extent_location(
                                    *entry,
                                    current_offset as int,
                                ));
                                assert(!content.bytes.contains_key(current_offset as int));
                                lemma_extents_location_at(
                                    self@,
                                    index as int,
                                    current_offset - 1,
                                );
                                assert(location(current_offset - 1) == extent_location(
                                    *entry,
                                    current_offset - 1,
                                ));
                                assert(!content.bytes.contains_key(current_offset - 1));
                                assert(written > 0 ==> content.bytes.contains_key(
                                    offset + (written - 1),
                                ));
                                assert(self@[index as int].target == entry.target);
                                assert(!self.exhaustive());
                                assert(!location_reliable(location(current_offset as int)));
                                assert(!self.answers(offset as int, length as int));
                            }
                            return Err(DriverError::Truncated);
                        },
                    };
                    let result = Self::read_from_source(source, physical_offset, part);
                    let ghost after = part@;
                    match result {
                        Ok(read_count) => {
                            proof {
                                assert forall|k: int|
                                    current_offset <= k < current_offset
                                        + read_count implies #[trigger] content.bytes.contains_key(
                                    k,
                                ) && content.bytes[k] == after[k - current_offset] by {
                                    assert(location(k) == extent_location(*entry, k));
                                    assert(source.content().bytes.contains_key(
                                        source_offset + (k - entry.logical_offset),
                                    ));
                                    assert(after[k - current_offset]
                                        == source.content().bytes[physical_offset + (k
                                        - current_offset)]);
                                }
                                if read_count < available && (extents_reliable(self@)
                                    || self.answers(offset as int, length as int)) {
                                    assert(extents_reliable(self@) ==> extent_reliable(
                                        self@[index as int],
                                    ));
                                    assert(location(current_offset as int) == extent_location(
                                        *entry,
                                        current_offset as int,
                                    ));
                                    assert(source.progresses());
                                    let next = current_offset + read_count;
                                    assert(location(next) == extent_location(*entry, next));
                                    assert(!content.bytes.contains_key(next));
                                }
                            }
                            read_count
                        },
                        Err(error) => {
                            proof {
                                assert(extent_reliable(self@[index as int]) ==> result is Ok);
                                assert(!self.exhaustive());
                                assert(location(current_offset as int) == extent_location(
                                    *entry,
                                    current_offset as int,
                                ));
                                assert(!location_reliable(location(current_offset as int)));
                                assert(!self.answers(offset as int, length as int));
                            }
                            return Err(error);
                        },
                    }
                },
                ExtentMapTarget::Zero => {
                    fill_zero(part);
                    proof {
                        assert forall|k: int|
                            current_offset <= k < current_offset
                                + available implies #[trigger] content.bytes.contains_key(k)
                            && content.bytes[k] == 0 by {
                            assert(location(k) == extent_location(*entry, k));
                        }
                    }
                    available
                },
            };
            if read_count == 0 {
                break;
            }
            proof {
                assert forall|k: int| 0 <= k < written + read_count implies buf@[k]
                    == content.bytes[offset + k] by {
                    if k < written {
                        assert(buf@[k] == before[k]);
                    } else {
                        assert(content.bytes.contains_key(offset + k));
                    }
                }
            }
            written += read_count;
            current_offset = current_offset + read_count as u64;
        }
        assert(buf@.take(written as int) =~= content.window(offset as int, written as nat));
        assert(buf@.skip(written as int) =~= old(buf)@.skip(written as int));
        assert(self.exhaustive() ==> extents_reliable(self@));
        Ok(written)
    }

    fn size(&self) -> (result: Result<u64, DriverError>)
        ensures
            result is Ok,
    {
        proof {
            use_type_invariant(self);
        }
        Ok(self.size)
    }

    fn capabilities(&self) -> (capabilities: DataSourceCapabilities) {
        proof {
            use_type_invariant(self);
        }
        self.capabilities
    }

    fn telemetry_name(&self) -> (name: &'static str) {
        "extent_map"
    }

    fn origin_path(&self) -> (path: Option<&str>) {
        None
    }
}

} // verus!
