//! Data of files that is stored in extents.

use vstd::prelude::*;

use crate::error::DriverError;
use crate::image::block_map::lemma_media_content_same;
use crate::source::capabilities::concurrent_cheap_capabilities;
use crate::source::data_source::{
    content_of, is_start_of, readable_data, Content, DataSource, DataSourceReference,
};
use crate::source::extent_map::{
    check_extents, extent_continues, extent_covers, extent_location, extent_reliable,
    extents_addressable, extents_location, extents_match, extents_reliable, joined_extent,
    lemma_check_extents_error, lemma_extents_capabilities_uniform, lemma_extents_match_empty,
    lemma_extents_match_push, location_reliable, media_content, part_reliable, ExtentMapDataSource,
    ExtentMapEntry, ExtentMapTarget, MediaLocation,
};

verus! {

/// An extent of a file: its bytes are stored from `offset` on, or zero where there is none.
#[derive(Clone, Copy, Debug, PartialEq, Eq, Structural)]
pub struct FileExtent {
    pub logical_offset: u64,
    pub size: u64,
    pub offset: Option<u64>,
}

/// An extent of a file in a source.
pub open spec fn extent_entry(source: DataSourceReference, extent: FileExtent) -> ExtentMapEntry {
    ExtentMapEntry {
        logical_offset: extent.logical_offset,
        size: extent.size,
        target: match extent.offset {
            Some(offset) => ExtentMapTarget::Data { source, source_offset: offset },
            None => ExtentMapTarget::Zero,
        },
    }
}

/// The extents of a file in a source.
pub open spec fn extent_entries(source: DataSourceReference, extents: Seq<FileExtent>) -> Seq<
    ExtentMapEntry,
> {
    Seq::new(extents.len(), |i: int| extent_entry(source, extents[i]))
}

/// The size of a file that is stored in extents, which follow each other without a gap.
pub open spec fn file_size(source: DataSourceReference, extents: Seq<FileExtent>) -> Result<
    u64,
    DriverError,
> {
    check_extents(extent_entries(source, extents))
}

/// Where the bytes of a file are stored.
pub open spec fn file_location(source: DataSourceReference, extents: Seq<FileExtent>) -> spec_fn(
    int,
) -> MediaLocation {
    |k: int| extents_location(extent_entries(source, extents), k)
}

/// The content of a file that is stored in extents.
pub open spec fn file_content(source: DataSourceReference, extents: Seq<FileExtent>) -> Content {
    media_content(
        file_size(source, extents)->Ok_0 as nat,
        file_location(source, extents),
    )
}

/// Whether the data of every extent ends where an offset can be given.
pub open spec fn extents_fit(extents: Seq<FileExtent>) -> bool {
    forall|i: int|
        0 <= i < extents.len() ==> match (#[trigger] extents[i]).offset {
            Some(offset) => offset + extents[i].size <= u64::MAX,
            None => true,
        }
}

/// Whether an extent gives a byte of a file its place.
pub open spec fn extent_places(extent: FileExtent, offset: int, place: Option<int>) -> bool {
    &&& extent.logical_offset <= offset < extent.logical_offset + extent.size
    &&& match (extent.offset, place) {
        (None, None) => true,
        (Some(start), Some(place)) => start + (offset - extent.logical_offset) == place,
        _ => false,
    }
}

/// Whether a byte of a content is the one at a place of another content, or zero where there is none.
pub open spec fn is_byte_at(
    content: Content,
    offset: int,
    stored: Content,
    place: Option<int>,
) -> bool {
    match place {
        None => content.bytes.contains_key(offset) && content.bytes[offset] == 0,
        Some(at) => {
            &&& content.bytes.contains_key(offset) <==> at < u64::MAX && stored.bytes.contains_key(
                at,
            )
            &&& content.bytes.contains_key(offset) ==> content.bytes[offset] == stored.bytes[at]
        },
    }
}

/// A byte of a file is the one at the place that an extent gives it.
pub proof fn lemma_placed_byte(
    source: DataSourceReference,
    extents: Seq<FileExtent>,
    index: int,
    offset: int,
    place: Option<int>,
)
    requires
        file_size(source, extents) is Ok,
        0 <= index < extents.len(),
        extent_places(extents[index], offset, place),
    ensures
        is_byte_at(file_content(source, extents), offset, source.content(), place),
        0 <= offset < file_content(source, extents).size,
{
    let entries = extent_entries(source, extents);
    assert(entries[index] == extent_entry(source, extents[index]));
    crate::source::extent_map::lemma_extent_byte(
        entries,
        index,
        offset - extents[index].logical_offset,
    );
}

/// Whether an extent is stored.
pub open spec fn has_stored_extent(extents: Seq<FileExtent>) -> bool {
    exists|i: int| 0 <= i < extents.len() && (#[trigger] extents[i]).offset is Some
}

/// Whether a data source is the file that is stored in extents.
pub open spec fn is_file_data(
    logical: DataSourceReference,
    source: DataSourceReference,
    extents: Seq<FileExtent>,
) -> bool {
    &&& file_size(source, extents) is Ok
    &&& logical.content() == file_content(source, extents)
    &&& source.reliable() ==> logical.readable()
    &&& source.reliable() && extents_fit(extents) ==> logical.reliable() && logical.exhaustive()
    &&& forall|offset: int, length: int|
        part_reliable(
            file_size(source, extents)->Ok_0 as nat,
            file_location(source, extents),
            offset,
            length,
        ) ==> #[trigger] logical.answers(offset, length)
    &&& logical.measurable()
    &&& logical.spec_capabilities() == (if has_stored_extent(extents) {
        source.spec_capabilities()
    } else {
        concurrent_cheap_capabilities()
    })
    &&& logical.spec_telemetry_name() == Some("extent_map"@)
    &&& logical.spec_origin_path() is None
}

/// All data of a file that is stored in extents.
pub open spec fn file_data(source: DataSourceReference, extents: Seq<FileExtent>) -> Result<
    Seq<u8>,
    DriverError,
> {
    match file_size(source, extents) {
        Err(error) => Err(error),
        Ok(size) => if size > usize::MAX {
            Err(DriverError::TooLarge)
        } else {
            Ok(readable_data(file_content(source, extents)))
        },
    }
}

/// Where the data of a file is: together with what describes the file, or in extents.
pub enum FileData {
    Inline(Seq<u8>),
    Stored(Seq<FileExtent>),
}

/// Whether a data source holds exactly given bytes in memory.
pub open spec fn is_memory_data(logical: DataSourceReference, data: Seq<u8>) -> bool {
    &&& logical.content() == content_of(data)
    &&& logical.reliable()
    &&& logical.exhaustive()
    &&& logical.spec_capabilities() == concurrent_cheap_capabilities()
    &&& logical.spec_telemetry_name() == Some(
        "keramics_drivers::source::memory::MemoryDataSource"@,
    )
    &&& logical.spec_origin_path() is None
}

/// Whether a data source is a file.
pub open spec fn is_opened(
    logical: DataSourceReference,
    source: DataSourceReference,
    data: FileData,
) -> bool {
    match data {
        FileData::Inline(bytes) => is_memory_data(logical, bytes),
        FileData::Stored(extents) => is_file_data(logical, source, extents),
    }
}

/// The content of a file.
pub open spec fn opened_content(source: DataSourceReference, data: FileData) -> Content {
    match data {
        FileData::Inline(bytes) => content_of(bytes),
        FileData::Stored(extents) => file_content(source, extents),
    }
}

/// Why a file cannot be opened, if it cannot.
pub open spec fn open_error(
    source: DataSourceReference,
    data: Result<FileData, DriverError>,
) -> Option<DriverError> {
    match data {
        Err(error) => Some(error),
        Ok(FileData::Inline(bytes)) => None,
        Ok(FileData::Stored(extents)) => match file_size(source, extents) {
            Err(error) => Some(error),
            Ok(size) => None,
        },
    }
}

/// Whether bytes are what the data of a file starts with, as a source gives them that reads less
/// than there is. Data that is stored together with what describes the file is there as a whole.
pub open spec fn is_data_start(
    source: DataSourceReference,
    data: Result<FileData, DriverError>,
    bytes: Seq<u8>,
) -> bool {
    match data {
        Err(error) => false,
        Ok(FileData::Inline(inline)) => bytes == inline,
        Ok(FileData::Stored(extents)) => file_size(source, extents) is Ok && is_start_of(
            bytes,
            file_content(source, extents),
        ),
    }
}

/// All data of a file.
pub open spec fn all_data(
    source: DataSourceReference,
    data: Result<FileData, DriverError>,
) -> Result<Seq<u8>, DriverError> {
    match data {
        Err(error) => Err(error),
        Ok(FileData::Inline(bytes)) => Ok(bytes),
        Ok(FileData::Stored(extents)) => file_data(source, extents),
    }
}

/// Joining an extent with the one that it continues stores the same bytes.
proof fn lemma_joined(
    entries: Seq<ExtentMapEntry>,
    end: u64,
    entry: ExtentMapEntry,
    location: spec_fn(int) -> MediaLocation,
)
    requires
        entries.len() > 0,
        extents_match(entries, end, location),
        extent_continues(entries.last(), entry),
        entry.logical_offset == end,
        0 < entry.size,
        end + entry.size <= u64::MAX,
        forall|k: int|
            end <= k < end + entry.size ==> #[trigger] extent_location(entry, k) == location(k),
    ensures
        extents_match(
            entries.drop_last().push(joined_extent(entries.last(), entry)),
            (end + entry.size) as u64,
            location,
        ),
{
    let last = entries.last();
    let whole = joined_extent(last, entry);
    let result = entries.drop_last().push(whole);
    assert(result.drop_last() =~= entries.drop_last());
    assert forall|k: int| 0 <= k < end + entry.size implies #[trigger] extents_location(result, k)
        == location(k) by {
        if extent_covers(whole, k) {
            if k < end {
                assert(extent_covers(last, k));
                assert(extents_location(entries, k) == location(k));
            } else {
                assert(extent_location(entry, k) == location(k));
            }
        } else {
            assert(!extent_covers(last, k));
            assert(extents_location(entries, k) == location(k));
        }
    }
}

/// Opens the file that is stored in extents. Extents that continue each other are joined.
pub fn open_file_extents(source: &DataSourceReference, extents: &Vec<FileExtent>) -> (result:
    Result<DataSourceReference, DriverError>)
    ensures
        match result {
            Ok(logical) => is_file_data(logical, *source, extents@),
            Err(error) => file_size(*source, extents@) == Err::<u64, DriverError>(error),
        },
{
    let ghost all = extent_entries(*source, extents@);
    let ghost location = file_location(*source, extents@);
    let mut entries: Vec<ExtentMapEntry> = Vec::new();
    let mut end: u64 = 0;
    let mut index: usize = 0;
    let mut stored: bool = false;
    proof {
        lemma_extents_match_empty(location);
        assert(entries@ =~= Seq::<ExtentMapEntry>::empty());
        assert(all.take(0) =~= Seq::<ExtentMapEntry>::empty());
    }
    while index < extents.len()
        invariant
            index <= extents@.len(),
            all == extent_entries(*source, extents@),
            location == file_location(*source, extents@),
            check_extents(all.take(index as int)) == Ok::<u64, DriverError>(end),
            extents_match(entries@, end, location_of(all.take(index as int))),
            entries@.len() <= index,
            stored <==> exists|i: int|
                0 <= i < index && (#[trigger] extents@[i]).offset is Some,
            stored <==> exists|i: int|
                0 <= i < entries@.len() && (#[trigger] entries@[i]).target is Data,
            forall|i: int|
                0 <= i < entries@.len() ==> match (#[trigger] entries@[i]).target {
                    ExtentMapTarget::Zero => true,
                    ExtentMapTarget::Data { source: used, .. } => used == *source,
                },
            source.progresses() ==> extents_reliable(entries@),
            extents_fit(extents@) ==> extents_addressable(entries@),
        decreases extents@.len() - index,
    {
        let extent: FileExtent = extents[index];
        let ghost taken = all.take(index as int);
        let ghost more = all.take(index + 1);
        let ghost entry = extent_entry(*source, extent);
        proof {
            assert(more.drop_last() =~= taken);
            assert(more.last() == entry);
            if check_extents(more) is Err {
                lemma_check_extents_error(all, index + 1);
            }
        }
        if extent.size == 0 || extent.logical_offset != end {
            return Err(DriverError::Invalid);
        }
        let next_end: u64 = end.checked_add(extent.size).ok_or(DriverError::Overflow)?;
        let ghost before = entries@;
        proof {
            lemma_location_extended(taken, end, entry);
            assert(taken.push(entry) =~= more);
        }
        let joins: bool = if entries.len() == 0 {
            false
        } else {
            let last: &ExtentMapEntry = &entries[entries.len() - 1];
            proof {
                lemma_last_ends(before, end);
            }
            match (&last.target, extent.offset) {
                (ExtentMapTarget::Zero, None) => true,
                (ExtentMapTarget::Data { source_offset, .. }, Some(offset)) =>
                    match source_offset.checked_add(last.size) {
                        Some(stored_end) => stored_end == offset,
                        None => false,
                    },
                _ => false,
            }
        };
        if joins {
            let count: usize = entries.len();
            let last: ExtentMapEntry = entries[count - 1].clone();
            proof {
                lemma_last_ends(before, end);
                assert(extent_continues(before.last(), entry));
                lemma_joined(before, end, entry, location_of(more));
            }
            let _removed = entries.pop();
            entries.push(
                ExtentMapEntry {
                    logical_offset: last.logical_offset,
                    size: last.size + extent.size,
                    target: last.target,
                },
            );
            proof {
                assert(entries@ =~= before.drop_last().push(joined_extent(before.last(), entry)));
                assert(extents@[index as int].offset is Some <==> before.last().target is Data);
                if before.last().target is Data {
                    assert(before[before.len() - 1].target is Data);
                    assert(entries@[before.len() - 1].target is Data);
                }
                assert forall|i: int| 0 <= i < before.len() implies (
                #[trigger] entries@[i]).target == before[i].target by {}
                assert(extents@[index as int] == extent);
                assert(before[before.len() - 1] == before.last());
                assert(source.progresses() ==> extents_reliable(entries@)) by {
                    assert forall|i: int| 0 <= i < entries@.len() && source.progresses() implies
                        extent_reliable(#[trigger] entries@[i]) by {
                        assert(extent_reliable(before[i]));
                    }
                }
            }
        } else {
            let target: ExtentMapTarget = match extent.offset {
                Some(offset) => ExtentMapTarget::Data {
                    source: source.clone(),
                    source_offset: offset,
                },
                None => ExtentMapTarget::Zero,
            };
            proof {
                lemma_extents_match_push(before, end, entry, location_of(more));
            }
            entries.push(
                ExtentMapEntry { logical_offset: extent.logical_offset, size: extent.size, target },
            );
            proof {
                assert(entries@ =~= before.push(entry));
                assert forall|i: int| 0 <= i < before.len() implies (
                #[trigger] entries@[i]).target == before[i].target by {}
                if extent.offset is Some {
                    assert(entries@[before.len() as int].target is Data);
                }
                assert(extents@[index as int] == extent);
            }
        }
        proof {
            assert(extents@[index as int] == extent);
            lemma_stored(before, entries@, stored, extent.offset is Some);
        }
        if extent.offset.is_some() {
            stored = true;
        }
        end = next_end;
        index += 1;
    }
    proof {
        assert(all.take(index as int) =~= all);
        lemma_media_content_same(end as nat, location, |k: int| extents_location(entries@, k));
        lemma_extents_capabilities_uniform(entries@, source.spec_capabilities());
    }
    let ghost kept = |k: int| extents_location(entries@, k);
    let logical = ExtentMapDataSource::new(entries)?;
    proof {
        assert forall|offset: int, length: int|
            part_reliable(end as nat, location, offset, length) implies #[trigger] logical.answers(
            offset,
            length,
        ) by {
            assert forall|k: int|
                offset <= k < offset + length && 0 <= k < end implies location_reliable(
                #[trigger] kept(k),
            ) by {
                assert(location_of(all)(k) == location(k));
                assert(extents_location(logical@, k) == location_of(all)(k));
                assert(location_reliable(location(k)));
            }
        }
    }
    Ok(logical.into_reference())
}

/// Whether an extent of a list is stored, after one was added to the list or joined with its last.
proof fn lemma_stored(
    before: Seq<ExtentMapEntry>,
    entries: Seq<ExtentMapEntry>,
    stored: bool,
    more: bool,
)
    requires
        before.len() <= entries.len() <= before.len() + 1,
        forall|i: int|
            0 <= i < before.len() ==> (#[trigger] entries[i]).target == before[i].target,
        stored <==> exists|i: int|
            0 <= i < before.len() && (#[trigger] before[i]).target is Data,
        entries.len() > before.len() ==> (entries[before.len() as int].target is Data <==> more),
        entries.len() == before.len() && more ==> before.len() > 0 && before.last().target is Data,
    ensures
        (stored || more) <==> exists|i: int|
            0 <= i < entries.len() && (#[trigger] entries[i]).target is Data,
{
    if stored {
        let i = choose|i: int| 0 <= i < before.len() && (#[trigger] before[i]).target is Data;
        assert(entries[i].target is Data);
    }
    if more {
        if entries.len() > before.len() {
            assert(entries[before.len() as int].target is Data);
        } else {
            assert(before[before.len() - 1].target is Data);
            assert(entries[before.len() - 1].target is Data);
        }
    }
    if exists|i: int| 0 <= i < entries.len() && (#[trigger] entries[i]).target is Data {
        let i = choose|i: int| 0 <= i < entries.len() && (#[trigger] entries[i]).target is Data;
        if i < before.len() {
            assert(before[i].target is Data);
        }
    }
}

spec fn location_of(entries: Seq<ExtentMapEntry>) -> spec_fn(int) -> MediaLocation {
    |k: int| extents_location(entries, k)
}

proof fn lemma_last_ends(entries: Seq<ExtentMapEntry>, end: u64)
    requires
        entries.len() > 0,
        check_extents(entries) == Ok::<u64, DriverError>(end),
    ensures
        entries.last().logical_offset + entries.last().size == end,
        0 < entries.last().size,
{
}

/// The location that a longer list gives is that of the shorter one before its end.
proof fn lemma_location_extended(entries: Seq<ExtentMapEntry>, end: u64, entry: ExtentMapEntry)
    requires
        check_extents(entries) == Ok::<u64, DriverError>(end),
        entry.logical_offset == end,
    ensures
        forall|k: int|
            0 <= k < end ==> #[trigger] location_of(entries.push(entry))(k) == location_of(
                entries,
            )(k),
        forall|k: int|
            end <= k < end + entry.size ==> #[trigger] extent_location(entry, k) == location_of(
                entries.push(entry),
            )(k),
{
    assert(entries.push(entry).drop_last() =~= entries);
}

/// Reads all data of a file that is stored in extents.
pub fn read_file_extents(source: &DataSourceReference, extents: &Vec<FileExtent>) -> (result:
    Result<Vec<u8>, DriverError>)
    ensures
        result matches Ok(data) ==> is_data_start(
            *source,
            Ok::<FileData, DriverError>(FileData::Stored(extents@)),
            data@,
        ),
        source.reliable() ==> match result {
            Ok(data) => file_data(*source, extents@) == Ok::<Seq<u8>, DriverError>(data@),
            Err(error) => file_data(*source, extents@) == Err::<Seq<u8>, DriverError>(error),
        },
{
    let logical: DataSourceReference = open_file_extents(source, extents)?;
    logical.read_all()
}

} // verus!
