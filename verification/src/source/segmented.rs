use std::sync::Arc;

use vstd::prelude::*;

use super::capabilities::{unknown_capabilities, DataSourceCapabilities};
use super::data_source::{Content, DataSource, DataSourceReference, SharedDataSource};
use super::extent_map::{
    check_extents, extent_map_capabilities, ExtentMapDataSource, ExtentMapEntry, ExtentMapTarget,
};
use crate::error::DriverError;

verus! {

/// Single logical segment within a segmented data source.
pub struct SegmentedSourceSegment {
    /// Logical start offset of the segment.
    pub logical_offset: u64,
    /// Size of the segment in bytes.
    pub size: u64,
    /// Underlying source that stores the segment bytes.
    pub source: DataSourceReference,
    /// Physical start offset within the underlying source.
    pub source_offset: u64,
}

impl Clone for SegmentedSourceSegment {
    fn clone(&self) -> (segment: Self)
        ensures
            segment == *self,
    {
        SegmentedSourceSegment {
            logical_offset: self.logical_offset,
            size: self.size,
            source: self.source.clone(),
            source_offset: self.source_offset,
        }
    }
}

/// A segment as an extent that stores data.
pub open spec fn segment_extent(segment: SegmentedSourceSegment) -> ExtentMapEntry {
    ExtentMapEntry {
        logical_offset: segment.logical_offset,
        size: segment.size,
        target: ExtentMapTarget::Data {
            source: segment.source,
            source_offset: segment.source_offset,
        },
    }
}

/// Segments as extents that store data.
pub open spec fn segment_extents(segments: Seq<SegmentedSourceSegment>) -> Seq<ExtentMapEntry> {
    Seq::new(segments.len(), |i: int| segment_extent(segments[i]))
}

/// Every byte that a segment covers is that of its source, as far behind the offset in the source as it
/// lies behind the start of the segment.
pub proof fn lemma_segment_byte(
    segments: Seq<SegmentedSourceSegment>,
    index: int,
    relative_offset: int,
)
    requires
        check_extents(segment_extents(segments)) is Ok,
        0 <= index < segments.len(),
        0 <= relative_offset < segments[index].size,
    ensures
        ({
            let content = super::extent_map::media_content(
                check_extents(segment_extents(segments))->Ok_0 as nat,
                |k: int| super::extent_map::extents_location(segment_extents(segments), k),
            );
            let offset = segments[index].logical_offset + relative_offset;
            let at = segments[index].source_offset + relative_offset;
            let stored = segments[index].source.content();
            &&& content.bytes.contains_key(offset) <==> at < u64::MAX
                && stored.bytes.contains_key(at)
            &&& content.bytes.contains_key(offset) ==> content.bytes[offset] == stored.bytes[at]
        }),
{
    super::extent_map::lemma_extent_byte(segment_extents(segments), index, relative_offset);
}

/// Concatenated logical source backed by multiple segments.
pub struct SegmentedDataSource {
    extents: ExtentMapDataSource,
    capabilities: DataSourceCapabilities,
}

impl SegmentedDataSource {
    /// The segments of the source, as extents.
    pub closed spec fn view(&self) -> Seq<ExtentMapEntry> {
        self.extents@
    }

    #[verifier::type_invariant]
    spec fn well_formed(self) -> bool {
        self.capabilities == (if self.extents@.len() == 0 {
            unknown_capabilities()
        } else {
            extent_map_capabilities(self.extents@)
        })
    }

    /// Creates a new segmented data source.
    pub fn new(segments: Vec<SegmentedSourceSegment>) -> (result: Result<Self, DriverError>)
        ensures
            match result {
                Ok(source) => source@ == segment_extents(segments@) && check_extents(
                    segment_extents(segments@),
                ) is Ok,
                Err(error) => check_extents(segment_extents(segments@)) == Err::<u64, DriverError>(
                    error,
                ),
            },
    {
        let mut entries: Vec<ExtentMapEntry> = Vec::new();
        let mut index: usize = 0;

        while index < segments.len()
            invariant
                index <= segments@.len(),
                entries@ == segment_extents(segments@.take(index as int)),
            decreases segments@.len() - index,
        {
            let segment = &segments[index];
            entries.push(
                ExtentMapEntry {
                    logical_offset: segment.logical_offset,
                    size: segment.size,
                    target: ExtentMapTarget::Data {
                        source: segment.source.clone(),
                        source_offset: segment.source_offset,
                    },
                },
            );
            index += 1;
            assert(entries@ =~= segment_extents(segments@.take(index as int)));
        }
        assert(segments@.take(segments@.len() as int) =~= segments@);

        let extents = match ExtentMapDataSource::new(entries) {
            Ok(extents) => extents,
            Err(error) => return Err(error),
        };
        let capabilities = if segments.len() == 0 {
            DataSourceCapabilities::default()
        } else {
            extents.capabilities()
        };
        Ok(Self { extents, capabilities })
    }

    /// Turns the source into a shared reference.
    pub fn into_reference(self) -> (reference: DataSourceReference)
        ensures
            reference.content() == self.content(),
            reference.progresses() == self.progresses(),
            reference.advances() == self.advances(),
            reference.exhaustive() == self.exhaustive(),
            forall|offset: int, length: int| #[trigger]
                reference.answers(offset, length) == self.answers(offset, length),
            reference.measurable() == self.measurable(),
            reference.spec_capabilities() == self.spec_capabilities(),
            reference.spec_telemetry_name() == self.spec_telemetry_name(),
            reference.spec_origin_path() == self.spec_origin_path(),
    {
        Arc::new(SharedDataSource { inner: Box::new(self) })
    }
}

impl DataSource for SegmentedDataSource {
    open spec fn content(&self) -> Content {
        super::extent_map::media_content(
            check_extents(self@)->Ok_0 as nat,
            |k: int| super::extent_map::extents_location(self@, k),
        )
    }

    open spec fn progresses(&self) -> bool {
        super::extent_map::extents_reliable(self@) && super::extent_map::extents_addressable(self@)
    }

    open spec fn advances(&self) -> bool {
        super::extent_map::extents_reliable(self@)
    }

    open spec fn exhaustive(&self) -> bool {
        super::extent_map::extents_reliable(self@) && super::extent_map::extents_addressable(self@)
    }

    open spec fn answers(&self, offset: int, length: int) -> bool {
        super::extent_map::part_reliable(
            self.content().size,
            |k: int| super::extent_map::extents_location(self@, k),
            offset,
            length,
        )
    }

    open spec fn measurable(&self) -> bool {
        true
    }

    open spec fn spec_capabilities(&self) -> DataSourceCapabilities {
        if self@.len() == 0 {
            unknown_capabilities()
        } else {
            extent_map_capabilities(self@)
        }
    }

    open spec fn spec_telemetry_name(&self) -> Option<Seq<char>> {
        Some("segmented"@)
    }

    open spec fn spec_origin_path(&self) -> Option<Seq<char>> {
        None
    }

    fn read_at(&self, offset: u64, buf: &mut [u8]) -> (result: Result<usize, DriverError>) {
        assert(self.exhaustive() == self.extents.exhaustive());
        assert(self.answers(offset as int, buf@.len() as int) == self.extents.answers(
            offset as int,
            buf@.len() as int,
        ));
        self.extents.read_at(offset, buf)
    }

    fn size(&self) -> (result: Result<u64, DriverError>)
        ensures
            result is Ok,
    {
        assert(self@ == self.extents@);
        self.extents.size()
    }

    fn capabilities(&self) -> (capabilities: DataSourceCapabilities) {
        proof {
            use_type_invariant(self);
        }
        self.capabilities
    }

    fn telemetry_name(&self) -> (name: &'static str) {
        "segmented"
    }

    fn origin_path(&self) -> (path: Option<&str>) {
        None
    }
}

} // verus!
