//! Building a logical medium out of extents of any number of data sources.

use vstd::prelude::*;

use super::block_map::lemma_media_content_same;
use crate::error::DriverError;
use crate::source::data_source::{DataSource, DataSourceReference};
use crate::source::extent_map::{
    check_extents, extent_location, extent_map_capabilities, extent_reliable, extents_addressable,
    extents_location, extents_match, lemma_check_extents_prefix, lemma_extents_location_at,
    lemma_extents_match_push, media_content, part_reliable, ExtentMapDataSource, ExtentMapEntry,
    ExtentMapTarget, MediaLocation,
};

verus! {

/// Whether `logical` gives access to a medium of `size` bytes of which `location` says where each
/// byte is stored. Its capabilities are what the extents of the medium have in common.
pub open spec fn is_composed_medium(
    logical: DataSourceReference,
    size: u64,
    location: spec_fn(int) -> MediaLocation,
) -> bool {
    &&& logical.content() == media_content(size as nat, location)
    &&& (forall|k: int|
        0 <= k < size && #[trigger] location(k) is Data ==> location(k)->source.reliable()
            && location(k)->offset < u64::MAX) ==> logical.reliable() && logical.exhaustive()
    &&& forall|offset: int, length: int|
        part_reliable(size as nat, location, offset, length) ==> #[trigger] logical.answers(
            offset,
            length,
        )
    &&& logical.measurable()
    &&& logical.spec_telemetry_name() == Some("extent_map"@)
    &&& logical.spec_origin_path() is None
    &&& exists|entries: Seq<ExtentMapEntry>|
        #[trigger] extents_match(entries, size, location) && logical.spec_capabilities()
            == extent_map_capabilities(entries)
}

/// The extents of a medium that is known from its start up to some offset.
pub struct ExtentList {
    entries: Vec<ExtentMapEntry>,
    size: u64,
}

impl ExtentList {
    #[verifier::type_invariant]
    spec fn well_formed(self) -> bool {
        check_extents(self.entries@) == Ok::<u64, DriverError>(self.size)
    }

    /// The offset up to which the medium is known.
    pub closed spec fn size(&self) -> u64 {
        self.size
    }

    /// Where the byte at a logical offset is stored.
    pub closed spec fn location(&self, offset: int) -> MediaLocation {
        extents_location(self.entries@, offset)
    }

    /// The source in which the last extent is stored, if it is stored in one.
    pub closed spec fn last_source(&self) -> Option<DataSourceReference> {
        if self.entries@.len() == 0 {
            None
        } else {
            match self.entries@.last().target {
                ExtentMapTarget::Data { source, .. } => Some(source),
                ExtentMapTarget::Zero => None,
            }
        }
    }

    /// Whether this is `before` with an extent of `size` bytes added at its end.
    pub open spec fn extends(&self, before: ExtentList, size: int) -> bool {
        &&& self.size() == before.size() + size
        &&& forall|k: int|
            0 <= k < before.size() ==> #[trigger] self.location(k) == before.location(k)
    }

    /// Starts with a medium of which nothing is known.
    pub fn new() -> (list: Self)
        ensures
            list.size() == 0,
            list.last_source() is None,
    {
        ExtentList { entries: Vec::new(), size: 0 }
    }

    /// Retrieves the offset up to which the medium is known.
    pub fn end(&self) -> (size: u64)
        ensures
            size == self.size(),
    {
        self.size
    }

    /// Appends zeros, which become part of the last extent if `continues` and it is zero.
    pub fn append_zero(self, size: u64, continues: bool) -> (list: Self)
        requires
            self.size() + size <= u64::MAX,
        ensures
            list.extends(self, size as int),
            size > 0 ==> list.last_source() is None,
            forall|k: int|
                self.size() <= k < list.size() ==> #[trigger] list.location(k)
                    == MediaLocation::Zero,
    {
        let entry = ExtentMapEntry {
            logical_offset: self.size,
            size,
            target: ExtentMapTarget::Zero,
        };
        self.append(entry, continues)
    }

    /// Appends data that is stored at an offset of a data source, which becomes part of the last
    /// extent if `continues` and it does continue it. The last extent then has to be zero or to be
    /// stored in the same data source.
    pub fn append_data(
        self,
        source: &DataSourceReference,
        source_offset: u64,
        size: u64,
        continues: bool,
    ) -> (list: Self)
        requires
            self.size() + size <= u64::MAX,
            continues ==> (self.last_source() matches Some(last) ==> last == *source),
        ensures
            list.extends(self, size as int),
            size > 0 ==> list.last_source() == Some(*source),
            forall|k: int|
                self.size() <= k < list.size() ==> #[trigger] list.location(k) == (
                MediaLocation::Data {
                    source: *source,
                    offset: source_offset + (k - self.size()),
                }),
    {
        let entry = ExtentMapEntry {
            logical_offset: self.size,
            size,
            target: ExtentMapTarget::Data { source: source.clone(), source_offset },
        };
        self.append(entry, continues)
    }

    fn append(self, entry: ExtentMapEntry, continues: bool) -> (list: Self)
        requires
            entry.logical_offset == self.size(),
            self.size() + entry.size <= u64::MAX,
            continues ==> match entry.target {
                ExtentMapTarget::Zero => true,
                ExtentMapTarget::Data { source, .. } => self.last_source() matches Some(last)
                    ==> last == source,
            },
        ensures
            list.extends(self, entry.size as int),
            entry.size > 0 ==> list.last_source() == (match entry.target {
                ExtentMapTarget::Zero => None,
                ExtentMapTarget::Data { source, .. } => Some(source),
            }),
            forall|k: int|
                self.size() <= k < list.size() ==> #[trigger] list.location(k) == extent_location(
                    entry,
                    k,
                ),
    {
        proof {
            use_type_invariant(&self);
        }
        if entry.size == 0 {
            return self;
        }
        let ghost before = self.entries@;
        let ghost old_size = self.size;
        let ghost location = |k: int|
            if k < old_size {
                extents_location(before, k)
            } else {
                extent_location(entry, k)
            };
        let ExtentList { mut entries, size } = self;
        let count: usize = entries.len();
        let merges: bool = if !continues || count == 0 {
            false
        } else {
            let last = &entries[count - 1];
            match (&last.target, &entry.target) {
                (ExtentMapTarget::Zero, ExtentMapTarget::Zero) => true,
                (
                    ExtentMapTarget::Data { source_offset: last_offset, .. },
                    ExtentMapTarget::Data { source_offset, .. },
                ) => *source_offset >= last.size && *source_offset - last.size == *last_offset,
                _ => false,
            }
        };
        let new_size: u64 = size + entry.size;
        if merges {
            let last = match entries.pop() {
                Some(last) => last,
                None => return ExtentList { entries, size },
            };
            let ghost front = entries@;
            proof {
                assert(front =~= before.drop_last());
                assert forall|k: int|
                    last.logical_offset <= k < size implies extents_location(before, k)
                    == extent_location(last, k) by {
                    lemma_extents_location_at(before, before.len() - 1, k);
                }
            }
            let merged = ExtentMapEntry {
                logical_offset: last.logical_offset,
                size: last.size + entry.size,
                target: last.target,
            };
            proof {
                assert forall|k: int|
                    last.logical_offset <= k < new_size implies #[trigger] extent_location(
                    merged,
                    k,
                ) == location(k) by {
                    if k < size {
                        assert(extents_location(before, k) == extent_location(last, k));
                    }
                }
                lemma_extents_match_push(front, last.logical_offset, merged, location);
            }
            entries.push(merged);
        } else {
            proof {
                lemma_extents_match_push(before, size, entry, location);
            }
            entries.push(entry);
        }
        let list = ExtentList { entries, size: new_size };
        assert forall|k: int| 0 <= k < new_size implies #[trigger] list.location(k) == location(
            k,
        ) by {
            assert(extents_location(list.entries@, k) == location(k));
        }
        list
    }

    /// Turns the extents into a data source, which gives access to the medium that `location`
    /// describes.
    pub fn into_source(self, location: Ghost<spec_fn(int) -> MediaLocation>) -> (logical:
        DataSourceReference)
        requires
            forall|k: int| 0 <= k < self.size() ==> #[trigger] self.location(k) == location@(k),
        ensures
            is_composed_medium(logical, self.size(), location@),
    {
        proof {
            use_type_invariant(&self);
        }
        let ghost location = location@;
        let ghost size = self.size as nat;
        let ghost entries = self.entries@;
        proof {
            assert forall|k: int| 0 <= k < size implies #[trigger] extents_location(entries, k)
                == location(k) by {
                assert(self.location(k) == location(k));
            }
            assert(extents_match(entries, self.size, location));
            lemma_media_content_same(size, location, |k: int| extents_location(entries, k));
            if forall|k: int|
                0 <= k < size && #[trigger] location(k) is Data ==> location(k)->source.reliable()
                    && location(k)->offset < u64::MAX {
                assert forall|i: int| 0 <= i < entries.len() implies #[trigger] extent_reliable(
                    entries[i],
                ) by {
                    lemma_check_extents_prefix(entries, i);
                    let k = entries[i].logical_offset + entries[i].size - 1;
                    lemma_extents_location_at(entries, i, k);
                    if location(k) is Data {
                    }
                }
                assert(extents_addressable(entries)) by {
                    assert forall|i: int| 0 <= i < entries.len() implies match (
                    #[trigger] entries[i]).target {
                        ExtentMapTarget::Zero => true,
                        ExtentMapTarget::Data { source_offset, .. } => source_offset
                            + entries[i].size <= u64::MAX,
                    } by {
                        lemma_check_extents_prefix(entries, i);
                        let k = entries[i].logical_offset + entries[i].size - 1;
                        lemma_extents_location_at(entries, i, k);
                        if location(k) is Data {
                        }
                    }
                }
            }
        }
        let extent_map = match ExtentMapDataSource::new(self.entries) {
            Ok(extent_map) => extent_map,
            Err(_) => vstd::pervasive::unreached(),
        };
        extent_map.into_reference()
    }
}

} // verus!
