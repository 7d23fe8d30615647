//! Building the logical medium of an image out of blocks of a data source and of a parent.

use vstd::prelude::*;

use crate::error::DriverError;
use crate::source::capabilities::{
    combined_capabilities, concurrent_cheap_capabilities, join_capabilities, DataSourceCapabilities,
};
use crate::source::data_source::{DataSource, DataSourceReference};
use crate::source::extent_map::{
    added_extent, check_extents, extent_continues, extent_covers, extent_location,
    extent_map_capabilities, extent_reliable, extents_addressable, extents_capabilities,
    extents_location, extents_minimal, lemma_added_extent, lemma_check_extents_prefix,
    lemma_extents_location_at, lemma_extents_match_push, location_reliable, media_content,
    part_reliable, ExtentMapDataSource, ExtentMapEntry, ExtentMapTarget, MediaLocation,
};

verus! {

/// Whether some byte of a medium is stored in `source`.
pub open spec fn is_stored_in(
    source: DataSourceReference,
    size: nat,
    location: spec_fn(int) -> MediaLocation,
) -> bool {
    exists|k: int| 0 <= k < size && #[trigger] location(k) is Data && location(k)->source == source
}

/// Whether every byte of a medium is stored at an offset that can be read.
pub open spec fn has_readable_offsets(size: nat, location: spec_fn(int) -> MediaLocation) -> bool {
    forall|k: int|
        0 <= k < size && #[trigger] location(k) is Data ==> location(k)->offset < u64::MAX
}

/// Whether two sources do not ask for different chunk sizes.
pub open spec fn agree_on_chunk_size(a: DataSourceCapabilities, b: DataSourceCapabilities) -> bool {
    a.preferred_chunk_size is None || b.preferred_chunk_size is None || a.preferred_chunk_size
        == b.preferred_chunk_size
}

/// Whether `logical` gives access to a medium of `size` bytes of which `location` says where each
/// byte is stored: in `source`, in `parent`, or nowhere.
///
/// Where the two sources ask for different chunk sizes, the chunk size that the medium prefers
/// depends on the order of its extents, and nothing is said of it.
pub open spec fn is_layered_medium(
    logical: DataSourceReference,
    source: DataSourceReference,
    parent: Option<DataSourceReference>,
    size: nat,
    location: spec_fn(int) -> MediaLocation,
) -> bool {
    &&& logical.content() == media_content(size, location)
    &&& source.reliable() && (parent is Some ==> parent->0.reliable()) && has_readable_offsets(
        size,
        location,
    ) ==> logical.reliable() && logical.exhaustive()
    &&& forall|offset: int, length: int|
        part_reliable(size, location, offset, length) ==> #[trigger] logical.answers(
            offset,
            length,
        )
    &&& logical.measurable()
    &&& logical.spec_telemetry_name() == Some("extent_map"@)
    &&& logical.spec_origin_path() is None
    &&& if is_stored_in(source, size, location) {
        if parent is Some && is_stored_in(parent->0, size, location) {
            let joined = join_capabilities(
                source.spec_capabilities(),
                parent->0.spec_capabilities(),
            );
            &&& logical.spec_capabilities().read_concurrency == joined.read_concurrency
            &&& logical.spec_capabilities().seek_cost == joined.seek_cost
            &&& agree_on_chunk_size(source.spec_capabilities(), parent->0.spec_capabilities())
                ==> logical.spec_capabilities() == joined
        } else {
            logical.spec_capabilities() == source.spec_capabilities()
        }
    } else if parent is Some && is_stored_in(parent->0, size, location) {
        logical.spec_capabilities() == parent->0.spec_capabilities()
    } else {
        logical.spec_capabilities() == concurrent_cheap_capabilities()
    }
}

/// Whether `logical` gives access to a medium of `size` bytes of which `location` says where each
/// byte is stored: in `source` or nowhere.
pub open spec fn is_medium(
    logical: DataSourceReference,
    source: DataSourceReference,
    size: nat,
    location: spec_fn(int) -> MediaLocation,
) -> bool {
    is_layered_medium(logical, source, None, size, location)
}

/// Two ways to say where the bytes of a medium are stored give the same content if they agree on
/// every byte.
pub proof fn lemma_media_content_same(
    size: nat,
    location1: spec_fn(int) -> MediaLocation,
    location2: spec_fn(int) -> MediaLocation,
)
    requires
        forall|k: int| 0 <= k < size ==> #[trigger] location1(k) == location2(k),
    ensures
        media_content(size, location1) == media_content(size, location2),
        has_readable_offsets(size, location1) == has_readable_offsets(size, location2),
        forall|source: DataSourceReference|
            is_stored_in(source, size, location1) == #[trigger] is_stored_in(
                source,
                size,
                location2,
            ),
{
    let content1 = media_content(size, location1);
    let content2 = media_content(size, location2);
    assert forall|k: int| content1.bytes.contains_key(k) == content2.bytes.contains_key(k) by {
        if 0 <= k < size {
            assert(location1(k) == location2(k));
        }
    }
    assert forall|k: int| content1.bytes.contains_key(k) implies content1.bytes[k]
        == content2.bytes[k] by {
        assert(location1(k) == location2(k));
    }
    assert(content1.bytes =~= content2.bytes);
    assert forall|source: DataSourceReference|
        is_stored_in(source, size, location1) == #[trigger] is_stored_in(
            source,
            size,
            location2,
        ) by {
        if is_stored_in(source, size, location1) {
            let k = choose|k: int|
                0 <= k < size && #[trigger] location1(k) is Data && location1(k)->source == source;
            assert(location2(k) is Data);
        }
        if is_stored_in(source, size, location2) {
            let k = choose|k: int|
                0 <= k < size && #[trigger] location2(k) is Data && location2(k)->source == source;
            assert(location1(k) is Data);
        }
    }
    assert(has_readable_offsets(size, location1) == has_readable_offsets(size, location2)) by {
        if has_readable_offsets(size, location1) {
            assert forall|k: int| 0 <= k < size && #[trigger] location2(k) is Data implies
                location2(k)->offset < u64::MAX by {
                assert(location1(k) is Data);
            }
        }
        if has_readable_offsets(size, location2) {
            assert forall|k: int| 0 <= k < size && #[trigger] location1(k) is Data implies
                location1(k)->offset < u64::MAX by {
                assert(location2(k) is Data);
            }
        }
    }
}

/// The block that covers an offset, and the position of the offset in it.
pub proof fn lemma_block_index(offset: int, index: int, size: int)
    requires
        index * size <= offset < index * size + size,
    ensures
        offset / size == index,
        offset % size == offset - index * size,
{
    assert(offset / size == index && offset % size == offset - index * size) by (nonlinear_arith)
        requires
            index * size <= offset < index * size + size,
    ;
}

/// Where an extent comes from.
#[derive(Clone, Copy, PartialEq, Eq, Structural)]
enum ExtentOrigin {
    Nowhere,
    Source,
    Parent,
}

/// The extents of a medium whose blocks are known from its start up to some offset.
pub struct BlockMap {
    source: DataSourceReference,
    parent: Option<DataSourceReference>,
    entries: Vec<ExtentMapEntry>,
    size: u64,
    last_origin: ExtentOrigin,
}

impl BlockMap {
    #[verifier::type_invariant]
    spec fn well_formed(self) -> bool {
        &&& check_extents(self.entries@) == Ok::<u64, DriverError>(self.size)
        &&& forall|i: int|
            0 <= i < self.entries@.len() ==> #[trigger] is_known_entry(
                self.entries@[i],
                self.source,
                self.parent,
            )
        &&& self.entries@.len() > 0 ==> has_origin(
            self.entries@.last(),
            self.source,
            self.parent,
            self.last_origin,
        )
        &&& self.parent != Some(self.source) ==> extents_minimal(self.entries@)
    }

    /// The extents.
    pub closed spec fn extents(&self) -> Seq<ExtentMapEntry> {
        self.entries@
    }

    /// Whether the extents follow each other up to the size, and no two neighbours could be one,
    /// except where the medium is its own parent.
    pub open spec fn is_tiled(&self) -> bool {
        &&& check_extents(self.extents()) == Ok::<u64, DriverError>(self.size())
        &&& self.parent() != Some(self.source()) ==> extents_minimal(self.extents())
        &&& forall|k: int|
            0 <= k < self.size() ==> #[trigger] self.location(k) == extents_location(
                self.extents(),
                k,
            )
    }

    /// Ends the list of extents, which tile the medium.
    pub fn finish(self) -> (map: Self)
        ensures
            map == self,
            map.is_tiled(),
    {
        proof {
            use_type_invariant(&self);
        }
        self
    }

    /// The data source that holds the blocks.
    pub closed spec fn source(&self) -> DataSourceReference {
        self.source
    }

    /// The medium that holds the blocks that the data source does not.
    pub closed spec fn parent(&self) -> Option<DataSourceReference> {
        self.parent
    }

    /// The offset up to which the medium is known.
    pub closed spec fn size(&self) -> u64 {
        self.size
    }

    /// Where the byte at a logical offset is stored.
    pub closed spec fn location(&self, offset: int) -> MediaLocation {
        extents_location(self.entries@, offset)
    }

    /// Whether this is `before` with a block of `size` bytes added at its end.
    pub open spec fn extends(&self, before: BlockMap, size: int) -> bool {
        &&& self.source() == before.source()
        &&& self.parent() == before.parent()
        &&& self.size() == before.size() + size
        &&& forall|k: int|
            0 <= k < before.size() ==> #[trigger] self.location(k) == before.location(k)
    }

    /// Starts with a medium of which nothing is known.
    pub fn new(source: &DataSourceReference) -> (map: Self)
        ensures
            map.source() == *source,
            map.parent() is None,
            map.size() == 0,
    {
        BlockMap {
            source: source.clone(),
            parent: None,
            entries: Vec::new(),
            size: 0,
            last_origin: ExtentOrigin::Nowhere,
        }
    }

    /// Starts with a medium on top of a parent of which nothing is known.
    pub fn with_parent(source: &DataSourceReference, parent: &Option<DataSourceReference>) -> (map:
        Self)
        ensures
            map.source() == *source,
            map.parent() == *parent,
            map.size() == 0,
    {
        BlockMap {
            source: source.clone(),
            parent: match parent {
                Some(parent) => Some(parent.clone()),
                None => None,
            },
            entries: Vec::new(),
            size: 0,
            last_origin: ExtentOrigin::Nowhere,
        }
    }

    /// Retrieves the data source that holds the blocks.
    pub fn clone_source(&self) -> (source: DataSourceReference)
        ensures
            source == self.source(),
    {
        self.source.clone()
    }

    /// Appends a block of zeros.
    pub fn append_zero(self, size: u64) -> (map: Self)
        requires
            self.size() + size <= u64::MAX,
        ensures
            map.extends(self, size as int),
            forall|k: int|
                self.size() <= k < map.size() ==> #[trigger] map.location(k)
                    == MediaLocation::Zero,
    {
        let entry = ExtentMapEntry {
            logical_offset: self.size,
            size,
            target: ExtentMapTarget::Zero,
        };
        self.append(entry, ExtentOrigin::Nowhere)
    }

    /// Appends a block that is stored at an offset of the data source.
    pub fn append_data(self, source_offset: u64, size: u64) -> (map: Self)
        requires
            self.size() + size <= u64::MAX,
        ensures
            map.extends(self, size as int),
            forall|k: int|
                self.size() <= k < map.size() ==> #[trigger] map.location(k) == (
                MediaLocation::Data {
                    source: self.source(),
                    offset: source_offset + (k - self.size()),
                }),
    {
        let entry = ExtentMapEntry {
            logical_offset: self.size,
            size,
            target: ExtentMapTarget::Data { source: self.source.clone(), source_offset },
        };
        self.append(entry, ExtentOrigin::Source)
    }

    /// Appends a block that the data source does not hold: it is stored at the same offset of the
    /// parent, or zero where there is no parent.
    pub fn append_absent(self, size: u64) -> (map: Self)
        requires
            self.size() + size <= u64::MAX,
        ensures
            map.extends(self, size as int),
            forall|k: int|
                self.size() <= k < map.size() ==> #[trigger] map.location(k)
                    == absent_location(self.parent(), k),
    {
        let parent = match &self.parent {
            Some(parent) => Some(parent.clone()),
            None => None,
        };
        match parent {
            Some(parent) => {
                let entry = ExtentMapEntry {
                    logical_offset: self.size,
                    size,
                    target: ExtentMapTarget::Data { source: parent, source_offset: self.size },
                };
                self.append(entry, ExtentOrigin::Parent)
            },
            None => self.append_zero(size),
        }
    }

    /// Appends an extent, which becomes part of the last one where it continues it.
    fn append(self, entry: ExtentMapEntry, origin: ExtentOrigin) -> (map: Self)
        requires
            entry.logical_offset == self.size(),
            has_origin(entry, self.source, self.parent, origin),
            self.size() + entry.size <= u64::MAX,
        ensures
            map.extends(self, entry.size as int),
            self.parent() != Some(self.source()) ==> map.extents() == added_extent(
                self.extents(),
                entry,
            ),
            forall|k: int|
                self.size() <= k < map.size() ==> #[trigger] map.location(k) == extent_location(
                    entry,
                    k,
                ),
    {
        proof {
            use_type_invariant(&self);
        }
        if entry.size == 0 {
            return self;
        }
        let ghost before = self.entries@;
        let ghost old_size = self.size;
        let ghost location = |k: int|
            if k < old_size {
                extents_location(before, k)
            } else {
                extent_location(entry, k)
            };
        let BlockMap { source, parent, mut entries, size, last_origin } = self;
        let count: usize = entries.len();
        let continues: bool = if count == 0 || last_origin != origin {
            false
        } else {
            let last = &entries[count - 1];
            match (&last.target, &entry.target) {
                (ExtentMapTarget::Zero, ExtentMapTarget::Zero) => true,
                (
                    ExtentMapTarget::Data { source_offset: last_offset, .. },
                    ExtentMapTarget::Data { source_offset, .. },
                ) => *source_offset >= last.size && *source_offset - last.size == *last_offset,
                _ => false,
            }
        };
        let new_size: u64 = size + entry.size;
        proof {
            if parent != Some(source) {
                if count > 0 {
                    lemma_check_extents_prefix(before, count - 1);
                    assert(is_known_entry(before[count - 1], source, parent));
                }
                lemma_added_extent(before, entry);
                assert(continues == (count > 0 && extent_continues(before.last(), entry)));
            }
        }
        if continues {
            let last = match entries.pop() {
                Some(last) => last,
                None => return BlockMap { source, parent, entries, size, last_origin },
            };
            let ghost front = entries@;
            proof {
                assert(front =~= before.drop_last());
                assert(is_known_entry(before[before.len() - 1], source, parent));
                assert forall|k: int|
                    last.logical_offset <= k < size implies extents_location(before, k)
                    == extent_location(last, k) by {
                    lemma_extents_location_at(before, before.len() - 1, k);
                }
            }
            let merged = ExtentMapEntry {
                logical_offset: last.logical_offset,
                size: last.size + entry.size,
                target: last.target,
            };
            proof {
                assert forall|k: int|
                    last.logical_offset <= k < new_size implies #[trigger] extent_location(
                    merged,
                    k,
                ) == location(k) by {
                    if k < size {
                        assert(extents_location(before, k) == extent_location(last, k));
                    }
                }
                lemma_extents_match_push(front, last.logical_offset, merged, location);
                assert forall|i: int| 0 <= i < front.push(merged).len() implies #[trigger]
                    is_known_entry(front.push(merged)[i], source, parent) by {
                    if i < front.len() {
                        assert(is_known_entry(before[i], source, parent));
                    }
                }
            }
            entries.push(merged);
        } else {
            proof {
                lemma_extents_match_push(before, size, entry, location);
                assert forall|i: int| 0 <= i < before.push(entry).len() implies #[trigger]
                    is_known_entry(before.push(entry)[i], source, parent) by {
                    if i < before.len() {
                        assert(is_known_entry(before[i], source, parent));
                    }
                }
            }
            entries.push(entry);
        }
        let map = BlockMap { source, parent, entries, size: new_size, last_origin: origin };
        assert forall|k: int| 0 <= k < new_size implies #[trigger] map.location(k) == location(
            k,
        ) by {
            assert(extents_location(map.entries@, k) == location(k));
        }
        map
    }

    /// Turns the extents into a data source, which gives access to the medium that `location`
    /// describes.
    pub fn into_source(self, location: Ghost<spec_fn(int) -> MediaLocation>) -> (logical:
        DataSourceReference)
        requires
            forall|k: int| 0 <= k < self.size() ==> #[trigger] self.location(k) == location@(k),
        ensures
            is_layered_medium(
                logical,
                self.source(),
                self.parent(),
                self.size() as nat,
                location@,
            ),
    {
        proof {
            use_type_invariant(&self);
        }
        let ghost location = location@;
        let ghost size = self.size as nat;
        let ghost source = self.source;
        let ghost parent = self.parent;
        let ghost entries = self.entries@;
        proof {
            assert forall|k: int| 0 <= k < size implies #[trigger] location(k) == extents_location(
                entries,
                k,
            ) by {
                assert(self.location(k) == location(k));
            }
            lemma_layered_capabilities(entries, source, parent, self.size, location);
            lemma_media_content_same(size, location, |k: int| extents_location(entries, k));
            if source.reliable() && (parent is Some ==> parent->0.reliable())
                && has_readable_offsets(size, location) {
                assert forall|i: int| 0 <= i < entries.len() implies #[trigger] extent_reliable(
                    entries[i],
                ) by {
                    assert(is_known_entry(entries[i], source, parent));
                    lemma_check_extents_prefix(entries, i);
                    let k = entries[i].logical_offset + entries[i].size - 1;
                    lemma_extents_location_at(entries, i, k);
                    if location(k) is Data {
                    }
                }
                assert(extents_addressable(entries)) by {
                    assert forall|i: int| 0 <= i < entries.len() implies match (
                    #[trigger] entries[i]).target {
                        ExtentMapTarget::Zero => true,
                        ExtentMapTarget::Data { source_offset, .. } => source_offset
                            + entries[i].size <= u64::MAX,
                    } by {
                        lemma_check_extents_prefix(entries, i);
                        let k = entries[i].logical_offset + entries[i].size - 1;
                        lemma_extents_location_at(entries, i, k);
                        if location(k) is Data {
                        }
                    }
                }
            }
        }
        let extent_map = match ExtentMapDataSource::new(self.entries) {
            Ok(extent_map) => extent_map,
            Err(_) => vstd::pervasive::unreached(),
        };
        let ghost given = |k: int| extents_location(entries, k);
        proof {
            assert forall|offset: int, length: int|
                part_reliable(size, location, offset, length) implies #[trigger] part_reliable(
                size,
                given,
                offset,
                length,
            ) by {
                assert forall|k: int|
                    offset <= k < offset + length && 0 <= k < size implies location_reliable(
                    #[trigger] given(k),
                ) by {
                    assert(location(k) == extents_location(entries, k));
                    assert(location_reliable(location(k)));
                }
            }
            assert forall|offset: int, length: int|
                part_reliable(size, location, offset, length) implies #[trigger] extent_map.answers(
                offset,
                length,
            ) by {
                assert(part_reliable(size, given, offset, length));
            }
        }
        extent_map.into_reference()
    }
}

/// Where a byte is stored that the data source does not hold.
pub open spec fn absent_location(parent: Option<DataSourceReference>, offset: int) -> MediaLocation {
    match parent {
        Some(parent) => MediaLocation::Data { source: parent, offset },
        None => MediaLocation::Zero,
    }
}

/// Whether an extent comes from where `origin` says.
spec fn has_origin(
    entry: ExtentMapEntry,
    source: DataSourceReference,
    parent: Option<DataSourceReference>,
    origin: ExtentOrigin,
) -> bool {
    match origin {
        ExtentOrigin::Nowhere => entry.target is Zero,
        ExtentOrigin::Source => entry.target is Data && entry.target->source == source,
        ExtentOrigin::Parent => entry.target is Data && parent is Some && entry.target->source
            == parent->0,
    }
}

/// Whether an extent is a block of zeros or stored in one of the two sources.
spec fn is_known_entry(
    entry: ExtentMapEntry,
    source: DataSourceReference,
    parent: Option<DataSourceReference>,
) -> bool {
    ||| has_origin(entry, source, parent, ExtentOrigin::Nowhere)
    ||| has_origin(entry, source, parent, ExtentOrigin::Source)
    ||| has_origin(entry, source, parent, ExtentOrigin::Parent)
}

/// Whether an extent of a list is stored in `source`.
spec fn holds_extent(entries: Seq<ExtentMapEntry>, source: DataSourceReference) -> bool {
    exists|i: int|
        0 <= i < entries.len() && #[trigger] entries[i].target is Data && entries[i].target->source
            == source
}

/// Whether `joined` is what the extents stored in `source` and `parent` have in common.
spec fn capabilities_of_layers(
    joined: DataSourceCapabilities,
    entries: Seq<ExtentMapEntry>,
    source: DataSourceReference,
    parent: Option<DataSourceReference>,
) -> bool {
    if holds_extent(entries, source) {
        if parent is Some && holds_extent(entries, parent->0) {
            let both = join_capabilities(
                source.spec_capabilities(),
                parent->0.spec_capabilities(),
            );
            &&& joined.read_concurrency == both.read_concurrency
            &&& joined.seek_cost == both.seek_cost
            &&& agree_on_chunk_size(source.spec_capabilities(), parent->0.spec_capabilities())
                ==> joined == both
        } else {
            joined == source.spec_capabilities()
        }
    } else if parent is Some && holds_extent(entries, parent->0) {
        joined == parent->0.spec_capabilities()
    } else {
        true
    }
}

proof fn lemma_holds_extent_push(
    entries: Seq<ExtentMapEntry>,
    source: DataSourceReference,
)
    requires
        entries.len() > 0,
    ensures
        holds_extent(entries, source) <==> holds_extent(entries.drop_last(), source) || (
        entries.last().target is Data && entries.last().target->source == source),
{
    let front = entries.drop_last();
    if holds_extent(front, source) {
        let i = choose|i: int|
            0 <= i < front.len() && #[trigger] front[i].target is Data && front[i].target->source
                == source;
        assert(entries[i].target is Data);
    }
    if holds_extent(entries, source) {
        let i = choose|i: int|
            0 <= i < entries.len() && #[trigger] entries[i].target is Data
                && entries[i].target->source == source;
        if i < front.len() {
            assert(front[i].target is Data);
        }
    }
    if entries.last().target is Data && entries.last().target->source == source {
        assert(entries[entries.len() - 1].target is Data);
    }
}

proof fn lemma_layers_list(
    entries: Seq<ExtentMapEntry>,
    source: DataSourceReference,
    parent: Option<DataSourceReference>,
)
    requires
        forall|i: int|
            0 <= i < entries.len() ==> #[trigger] is_known_entry(entries[i], source, parent),
    ensures
        capabilities_of_layers(
            combined_capabilities(extents_capabilities(entries)),
            entries,
            source,
            parent,
        ),
        extents_capabilities(entries).len() > 0 <==> holds_extent(entries, source) || (parent
            is Some && holds_extent(entries, parent->0)),
    decreases entries.len(),
{
    if entries.len() > 0 {
        let front = entries.drop_last();
        assert forall|i: int| 0 <= i < front.len() implies #[trigger] is_known_entry(
            front[i],
            source,
            parent,
        ) by {
            assert(is_known_entry(entries[i], source, parent));
        }
        lemma_layers_list(front, source, parent);
        lemma_holds_extent_push(entries, source);
        if parent is Some {
            lemma_holds_extent_push(entries, parent->0);
        }
        assert(is_known_entry(entries[entries.len() - 1], source, parent));
        if entries.last().target is Data {
            let list = extents_capabilities(entries);
            assert(list.drop_last() =~= extents_capabilities(front));
        }
    }
}

proof fn lemma_layered_capabilities(
    entries: Seq<ExtentMapEntry>,
    source: DataSourceReference,
    parent: Option<DataSourceReference>,
    size: u64,
    location: spec_fn(int) -> MediaLocation,
)
    requires
        check_extents(entries) == Ok::<u64, DriverError>(size),
        forall|k: int| 0 <= k < size ==> #[trigger] location(k) == extents_location(entries, k),
        forall|i: int|
            0 <= i < entries.len() ==> #[trigger] is_known_entry(entries[i], source, parent),
    ensures
        is_stored_in(source, size as nat, location) == holds_extent(entries, source),
        parent is Some ==> is_stored_in(parent->0, size as nat, location) == holds_extent(
            entries,
            parent->0,
        ),
        capabilities_of_layers(extent_map_capabilities(entries), entries, source, parent),
        !holds_extent(entries, source) && (parent is Some ==> !holds_extent(entries, parent->0))
            ==> extent_map_capabilities(entries) == concurrent_cheap_capabilities(),
{
    lemma_layers_list(entries, source, parent);
    lemma_stored_in(entries, source, size, location);
    if parent is Some {
        lemma_stored_in(entries, parent->0, size, location);
    }
}

proof fn lemma_stored_in(
    entries: Seq<ExtentMapEntry>,
    source: DataSourceReference,
    size: u64,
    location: spec_fn(int) -> MediaLocation,
)
    requires
        check_extents(entries) == Ok::<u64, DriverError>(size),
        forall|k: int| 0 <= k < size ==> #[trigger] location(k) == extents_location(entries, k),
    ensures
        is_stored_in(source, size as nat, location) == holds_extent(entries, source),
{
    if holds_extent(entries, source) {
        let i = choose|i: int|
            0 <= i < entries.len() && #[trigger] entries[i].target is Data
                && entries[i].target->source == source;
        lemma_check_extents_prefix(entries, i);
        let k = entries[i].logical_offset as int;
        lemma_extents_location_at(entries, i, k);
        assert(location(k) is Data);
    }
    if is_stored_in(source, size as nat, location) {
        let k = choose|k: int|
            0 <= k < size && #[trigger] location(k) is Data && location(k)->source == source;
        lemma_location_data(entries, source, k);
    }
}

proof fn lemma_location_data(
    entries: Seq<ExtentMapEntry>,
    source: DataSourceReference,
    offset: int,
)
    requires
        extents_location(entries, offset) is Data,
        extents_location(entries, offset)->source == source,
    ensures
        holds_extent(entries, source),
    decreases entries.len(),
{
    if entries.len() > 0 {
        lemma_holds_extent_push(entries, source);
        if !extent_covers(entries.last(), offset) {
            lemma_location_data(entries.drop_last(), source, offset);
        }
    }
}

} // verus!
