//! EWF images.

use vstd::prelude::*;

use super::builder::{
    add_segments, assembled, chunks_end_at, initial_state, lemma_chunks_in_more_segments,
    EwfBuilder, EwfChunk, EwfSegmentInfo, EwfState,
};
use super::naming::{
    file_stem, get_file_stem, get_segment_file_name, get_segment_file_naming_schema, naming_schema,
    segment_file_name, EwfNamingSchema,
};
use super::section::{
    is_bounded, read_file_header, read_section_headers, sections_of, segment_number_of, EwfSection,
    EwfSectionKind,
};
use super::table::{is_usable, EwfMediaType, EwfVolume};
use crate::compression::CompressionMethod;
use crate::error::DriverError;
use crate::image::packed::{
    is_packed_medium, ranges_end_at, PackedDataSource, PackedRange, PackedStorage,
};
use crate::resolver::source_resolver::{never_fails, SourceResolver, SourceResolverReference};
use crate::source::capabilities::{
    DataSourceCapabilities, DataSourceReadConcurrency, DataSourceSeekCost,
};
use crate::source::data_source::{DataSource, DataSourceReference};
use crate::uuid::Uuid;

verus! {

/// An image: its segment files and what their sections say.
pub struct EwfInfo {
    pub segments: Seq<EwfSegmentInfo>,
    pub state: EwfState,
}

/// Whether another segment file follows one with the given sections.
pub open spec fn has_next(sections: Seq<EwfSection>) -> bool {
    sections.len() > 0 && sections.last().kind is Next
}

/// The segment files of an image of which those before `number` are given.
pub open spec fn segments_from(
    resolver: SourceResolverReference,
    name: Seq<char>,
    schema: EwfNamingSchema,
    number: u16,
    segments: Seq<EwfSegmentInfo>,
) -> Result<Seq<EwfSegmentInfo>, DriverError>
    decreases u16::MAX - number,
{
    match segment_file_name(name, number, schema) {
        Err(error) => Err(error),
        Ok(file_name) => match resolver.entry(file_name) {
            Err(error) => Err(error),
            Ok(None) => Err(DriverError::Missing),
            Ok(Some(source)) => match segment_number_of(source.content()) {
                Err(error) => Err(error),
                Ok(stored_number) => match sections_of(source.content()) {
                    Err(error) => Err(error),
                    Ok(sections) => {
                        let segment = EwfSegmentInfo { file_name, source, sections };
                        if stored_number != number {
                            Err(DriverError::Unsupported)
                        } else if !has_next(sections) {
                            Ok(segments.push(segment))
                        } else if number == u16::MAX {
                            Err(DriverError::Overflow)
                        } else {
                            segments_from(
                                resolver,
                                name,
                                schema,
                                (number + 1) as u16,
                                segments.push(segment),
                            )
                        }
                    },
                },
            },
        },
    }
}

/// The image whose first segment file has a name.
pub open spec fn image_of(resolver: SourceResolverReference, file_name: Seq<char>) -> Result<
    EwfInfo,
    DriverError,
> {
    match naming_schema(file_name) {
        Err(error) => Err(error),
        Ok(schema) => match segments_from(resolver, file_stem(file_name), schema, 1, Seq::empty()) {
            Err(error) => Err(error),
            Ok(segments) => match assembled(segments) {
                Err(error) => Err(error),
                Ok(state) => Ok(EwfInfo { segments, state }),
            },
        },
    }
}

/// The range of the medium that a chunk makes up.
pub open spec fn chunk_range(
    segments: Seq<EwfSegmentInfo>,
    volume: EwfVolume,
    chunk: EwfChunk,
) -> PackedRange {
    let source = segments[chunk.segment_index as int].source;
    PackedRange {
        logical_offset: chunk.logical_offset,
        size: chunk.logical_size,
        storage: if chunk.compressed {
            PackedStorage::Compressed {
                source,
                offset: chunk.data_offset,
                size: chunk.data_size,
                method: CompressionMethod::Zlib,
                capacity: volume.spec_chunk_size() as u32,
                minimum: chunk.logical_size,
            }
        } else {
            PackedStorage::Stored { source, offset: chunk.data_offset }
        },
    }
}

/// The ranges of which an image is made up.
pub open spec fn media_ranges(info: EwfInfo) -> Seq<PackedRange> {
    Seq::new(
        info.state.chunks.len(),
        |i: int| chunk_range(info.segments, info.state.volume->0, info.state.chunks[i]),
    )
}

/// A chunk makes up its range of the medium, from the file of its segment: as it is stored at its offset,
/// or compressed with zlib in as many bytes as are stored. What is decompressed has to fill the range, and
/// has room for a whole chunk.
pub proof fn lemma_chunk_stored(info: EwfInfo, index: int)
    requires
        0 <= index < info.state.chunks.len(),
        0 <= info.state.chunks[index].segment_index < info.segments.len(),
        info.state.volume->0.sectors_per_chunk * info.state.volume->0.bytes_per_sector <= u32::MAX,
    ensures
        ({
            let chunk = info.state.chunks[index];
            let range = media_ranges(info)[index];
            let source = info.segments[chunk.segment_index as int].source;
            &&& range.logical_offset == chunk.logical_offset
            &&& range.size == chunk.logical_size
            &&& !chunk.compressed ==> range.storage == (PackedStorage::Stored {
                source,
                offset: chunk.data_offset,
            })
            &&& chunk.compressed ==> {
                &&& range.storage is Compressed
                &&& range.storage->Compressed_source == source
                &&& range.storage->Compressed_offset == chunk.data_offset
                &&& range.storage->Compressed_size == chunk.data_size
                &&& range.storage->method == CompressionMethod::Zlib
                &&& range.storage->capacity == info.state.volume->0.sectors_per_chunk
                    * info.state.volume->0.bytes_per_sector
                &&& range.storage->minimum == chunk.logical_size
            }
        }),
{
    let volume = info.state.volume->0;
    assert(0 <= volume.sectors_per_chunk * volume.bytes_per_sector) by (nonlinear_arith)
        requires
            0 <= volume.sectors_per_chunk,
            0 <= volume.bytes_per_sector,
    ;
}

/// An opened segment file.
struct EwfSegment {
    file_name: String,
    source: DataSourceReference,
    sections: Vec<EwfSection>,
}

impl EwfSegment {
    spec fn view(&self) -> EwfSegmentInfo {
        EwfSegmentInfo {
            file_name: self.file_name@,
            source: self.source,
            sections: self.sections@,
        }
    }
}

spec fn segment_views(segments: Seq<EwfSegment>) -> Seq<EwfSegmentInfo> {
    Seq::new(segments.len(), |i: int| segments[i]@)
}

spec fn all_bounded(segments: Seq<EwfSegment>) -> bool {
    forall|i: int, j: int|
        0 <= i < segments.len() && 0 <= j < segments[i].sections@.len() ==> is_bounded(
            #[trigger] segments[i].sections@[j],
        )
}

/// EWF image metadata plus the opened logical source.
pub struct EwfImage {
    segments: Vec<EwfSegment>,
    volume: EwfVolume,
    md5_hash: Option<[u8; 16]>,
    sha1_hash: Option<[u8; 20]>,
    state: Ghost<EwfState>,
    logical: DataSourceReference,
}

/// Builds the source of a medium that is made up of chunks.
fn build_source(
    segments: &Vec<EwfSegment>,
    volume: &EwfVolume,
    chunks: &Vec<EwfChunk>,
    Ghost(info): Ghost<EwfInfo>,
) -> (logical: DataSourceReference)
    requires
        is_usable(*volume),
        chunks_end_at(
            chunks@,
            volume.spec_media_size(),
            volume.spec_chunk_size(),
            segments@.len() as int,
        ),
        info.segments == segment_views(segments@),
        info.state.volume == Some(*volume),
        info.state.chunks == chunks@,
    ensures
        is_packed_medium(logical, volume.spec_media_size() as nat, media_ranges(info)),
        logical.spec_capabilities() == (DataSourceCapabilities {
            read_concurrency: DataSourceReadConcurrency::Concurrent,
            seek_cost: DataSourceSeekCost::Expensive,
            preferred_chunk_size: Some(volume.spec_chunk_size() as usize),
        }),
        logical.spec_telemetry_name() == Some("ewf"@),
{
    let chunk_size: u32 = volume.sectors_per_chunk * volume.bytes_per_sector;
    let media_size: u64 = volume.number_of_sectors * volume.bytes_per_sector as u64;
    let ghost ranges_of = media_ranges(info);
    let mut ranges: Vec<PackedRange> = Vec::new();
    let mut index: usize = 0;
    while index < chunks.len()
        invariant
            index <= chunks@.len(),
            chunk_size == volume.spec_chunk_size(),
            chunks_end_at(
                chunks@,
                volume.spec_media_size(),
                volume.spec_chunk_size(),
                segments@.len() as int,
            ),
            info.segments == segment_views(segments@),
            info.state.volume == Some(*volume),
            info.state.chunks == chunks@,
            ranges_of == media_ranges(info),
            ranges@ == ranges_of.take(index as int),
        decreases chunks@.len() - index,
    {
        let chunk: EwfChunk = chunks[index];
        proof {
            lemma_chunk_bounds(
                chunks@,
                volume.spec_media_size(),
                volume.spec_chunk_size(),
                segments@.len() as int,
                index as int,
            );
        }
        let source: DataSourceReference = segments[chunk.segment_index].source.clone();
        let storage: PackedStorage = if chunk.compressed {
            PackedStorage::Compressed {
                source,
                offset: chunk.data_offset,
                size: chunk.data_size,
                method: CompressionMethod::Zlib,
                capacity: chunk_size,
                minimum: chunk.logical_size,
            }
        } else {
            PackedStorage::Stored { source, offset: chunk.data_offset }
        };
        ranges.push(
            PackedRange {
                logical_offset: chunk.logical_offset,
                size: chunk.logical_size,
                storage,
            },
        );
        index += 1;
        assert(ranges@ =~= ranges_of.take(index as int));
    }
    proof {
        assert(ranges@ =~= ranges_of);
        lemma_ranges_end(info, chunks@, volume.spec_media_size(), segments@.len() as int);
    }
    let capabilities = DataSourceCapabilities::concurrent(
        DataSourceSeekCost::Expensive,
    ).with_preferred_chunk_size(chunk_size as usize);
    PackedDataSource::new(ranges, media_size, capabilities, "ewf").into_reference()
}

proof fn lemma_chunk_bounds(
    chunks: Seq<EwfChunk>,
    end: int,
    chunk_size: int,
    segment_count: int,
    index: int,
)
    requires
        chunks_end_at(chunks, end, chunk_size, segment_count),
        0 <= index < chunks.len(),
    ensures
        chunks[index].segment_index < segment_count,
    decreases chunks.len(),
{
    if index < chunks.len() - 1 {
        lemma_chunk_bounds(
            chunks.drop_last(),
            chunks.last().logical_offset as int,
            chunk_size,
            segment_count,
            index,
        );
    }
}

/// The ranges of chunks that follow each other do so too.
proof fn lemma_ranges_end(info: EwfInfo, chunks: Seq<EwfChunk>, end: int, segment_count: int)
    requires
        info.state.volume is Some,
        is_usable(info.state.volume->0),
        chunks_end_at(chunks, end, info.state.volume->0.spec_chunk_size(), segment_count),
    ensures
        ranges_end_at(
            Seq::new(
                chunks.len(),
                |i: int| chunk_range(info.segments, info.state.volume->0, chunks[i]),
            ),
            end,
        ),
    decreases chunks.len(),
{
    let volume = info.state.volume->0;
    let ranges = Seq::new(chunks.len(), |i: int| chunk_range(info.segments, volume, chunks[i]));
    if chunks.len() > 0 {
        let front = chunks.drop_last();
        lemma_ranges_end(info, front, chunks.last().logical_offset as int, segment_count);
        assert(ranges.drop_last() =~= Seq::new(
            front.len(),
            |i: int| chunk_range(info.segments, volume, front[i]),
        ));
        assert(ranges.last() == chunk_range(info.segments, volume, chunks.last()));
    }
}

impl EwfImage {
    #[verifier::type_invariant]
    spec fn well_formed(self) -> bool {
        &&& self.state@.volume == Some(self.volume)
        &&& is_usable(self.volume)
        &&& self.state@.md5_hash == (match self.md5_hash {
            Some(hash) => Some(hash@),
            None => None,
        })
        &&& self.state@.sha1_hash == (match self.sha1_hash {
            Some(hash) => Some(hash@),
            None => None,
        })
        &&& is_packed_medium(
            self.logical,
            self.volume.spec_media_size() as nat,
            media_ranges(self@),
        )
        &&& self.logical.spec_capabilities() == (DataSourceCapabilities {
            read_concurrency: DataSourceReadConcurrency::Concurrent,
            seek_cost: DataSourceSeekCost::Expensive,
            preferred_chunk_size: Some(self.volume.spec_chunk_size() as usize),
        })
        &&& self.logical.spec_telemetry_name() == Some("ewf"@)
    }

    /// The segment files of the image and what their sections say.
    pub closed spec fn view(&self) -> EwfInfo {
        EwfInfo { segments: segment_views(self.segments@), state: self.state@ }
    }

    /// Opens an EWF image from a resolver and first segment file name.
    pub fn open(resolver: &SourceResolverReference, file_name: &str) -> (result: Result<
        Self,
        DriverError,
    >)
        ensures
            match result {
                Ok(image) => image_of(*resolver, file_name@) == Ok::<EwfInfo, DriverError>(image@),
                Err(error) => never_fails(*resolver) ==> image_of(*resolver, file_name@) == Err::<
                    EwfInfo,
                    DriverError,
                >(error),
            },
    {
        let schema: EwfNamingSchema = get_segment_file_naming_schema(file_name)?;
        let name: Vec<char> = get_file_stem(file_name);
        let segments: Vec<EwfSegment> = Self::open_segments(resolver, name.as_slice(), schema)?;
        Self::assemble(segments, Ghost(*resolver))
    }

    fn assemble(
        segments: Vec<EwfSegment>,
        Ghost(resolver): Ghost<SourceResolverReference>,
    ) -> (result: Result<Self, DriverError>)
        requires
            all_bounded(segments@),
            never_fails(resolver) ==> forall|i: int|
                0 <= i < segments@.len() ==> (#[trigger] segments@[i]).source.reliable(),
        ensures
            match result {
                Ok(image) => {
                    &&& assembled(segment_views(segments@)) == Ok::<EwfState, DriverError>(
                        image@.state,
                    )
                    &&& image@.segments == segment_views(segments@)
                },
                Err(error) => never_fails(resolver) ==> assembled(segment_views(segments@))
                    == Err::<EwfState, DriverError>(error),
            },
    {
        let ghost views = segment_views(segments@);
        let mut builder = EwfBuilder::new();
        let mut index: usize = 0;
        while index < segments.len()
            invariant
                index <= segments@.len(),
                all_bounded(segments@),
                never_fails(resolver) ==> forall|i: int|
                    0 <= i < segments@.len() ==> (#[trigger] segments@[i]).source.reliable(),
                views == segment_views(segments@),
                add_segments(initial_state(), views, 0) == add_segments(
                    builder@,
                    views,
                    index as int,
                ),
                builder.is_sound(index as int),
            decreases segments@.len() - index,
        {
            let segment: &EwfSegment = &segments[index];
            let ghost before = builder;
            proof {
                if let Some(volume) = builder.volume {
                    lemma_chunks_in_more_segments(
                        builder.chunks@,
                        builder.logical_end as int,
                        volume.spec_chunk_size(),
                        index as int,
                        index + 1,
                    );
                }
                assert(segments@[index as int].source == segment.source);
                assert(views[index as int] == segment@);
            }
            builder =
            builder.read_sections(&segment.source, index, &segment.sections, Ghost(segment@))?;
            index += 1;
        }
        let volume: EwfVolume = match builder.volume {
            Some(volume) => volume,
            None => return Err(DriverError::Missing),
        };
        let media_size: u64 = volume.number_of_sectors * volume.bytes_per_sector as u64;
        if builder.chunks.len() as u64 % 0x1_0000_0000 != volume.number_of_chunks as u64
            || builder.logical_end != media_size {
            return Err(DriverError::Invalid);
        }
        let ghost state = builder@;
        let ghost info = EwfInfo { segments: views, state };
        let logical: DataSourceReference = build_source(
            &segments,
            &volume,
            &builder.chunks,
            Ghost(info),
        );
        Ok(
            EwfImage {
                segments,
                volume,
                md5_hash: builder.md5_hash,
                sha1_hash: builder.sha1_hash,
                state: Ghost(state),
                logical,
            },
        )
    }

    /// Retrieves the media type.
    pub fn media_type(&self) -> (media_type: EwfMediaType)
        ensures
            media_type == self@.state.volume->0.media_type,
    {
        proof {
            use_type_invariant(self);
        }
        self.volume.media_type
    }

    /// Retrieves the set identifier.
    pub fn set_identifier(&self) -> (set_identifier: &Uuid)
        ensures
            *set_identifier == self@.state.volume->0.set_identifier,
    {
        proof {
            use_type_invariant(self);
        }
        &self.volume.set_identifier
    }

    /// Retrieves the number of segments.
    pub fn number_of_segments(&self) -> (number_of_segments: usize)
        ensures
            number_of_segments == self@.segments.len(),
    {
        self.segments.len()
    }

    /// Retrieves the segment file names.
    pub fn segment_file_names(&self) -> (names: Vec<&str>)
        ensures
            names@.len() == self@.segments.len(),
            forall|i: int|
                0 <= i < names@.len() ==> (#[trigger] names@[i])@ == self@.segments[i].file_name,
    {
        let mut names: Vec<&str> = Vec::new();
        let mut index: usize = 0;
        while index < self.segments.len()
            invariant
                index <= self.segments@.len(),
                names@.len() == index,
                forall|i: int|
                    0 <= i < names@.len() ==> (#[trigger] names@[i])@
                        == self.segments@[i].file_name@,
            decreases self.segments@.len() - index,
        {
            names.push(self.segments[index].file_name.as_str());
            index += 1;
        }
        names
    }

    /// Retrieves the number of chunks.
    pub fn number_of_chunks(&self) -> (number_of_chunks: u32)
        ensures
            number_of_chunks == self@.state.volume->0.number_of_chunks,
    {
        proof {
            use_type_invariant(self);
        }
        self.volume.number_of_chunks
    }

    /// Retrieves the sectors per chunk.
    pub fn sectors_per_chunk(&self) -> (sectors_per_chunk: u32)
        ensures
            sectors_per_chunk == self@.state.volume->0.sectors_per_chunk,
    {
        proof {
            use_type_invariant(self);
        }
        self.volume.sectors_per_chunk
    }

    /// Retrieves the bytes per sector.
    pub fn bytes_per_sector(&self) -> (bytes_per_sector: u32)
        ensures
            bytes_per_sector == self@.state.volume->0.bytes_per_sector,
    {
        proof {
            use_type_invariant(self);
        }
        self.volume.bytes_per_sector
    }

    /// Retrieves the number of sectors.
    pub fn number_of_sectors(&self) -> (number_of_sectors: u64)
        ensures
            number_of_sectors == self@.state.volume->0.number_of_sectors,
    {
        proof {
            use_type_invariant(self);
        }
        self.volume.number_of_sectors
    }

    /// Retrieves the chunk size in bytes.
    pub fn chunk_size(&self) -> (chunk_size: u32)
        ensures
            chunk_size == self@.state.volume->0.spec_chunk_size(),
    {
        proof {
            use_type_invariant(self);
        }
        self.volume.sectors_per_chunk * self.volume.bytes_per_sector
    }

    /// Retrieves the media size in bytes.
    pub fn media_size(&self) -> (media_size: u64)
        ensures
            media_size == self@.state.volume->0.spec_media_size(),
    {
        proof {
            use_type_invariant(self);
        }
        self.volume.number_of_sectors * self.volume.bytes_per_sector as u64
    }

    /// Retrieves the MD5 hash if present.
    pub fn md5_hash(&self) -> (md5_hash: Option<&[u8; 16]>)
        ensures
            match md5_hash {
                Some(hash) => self@.state.md5_hash == Some(hash@),
                None => self@.state.md5_hash is None,
            },
    {
        proof {
            use_type_invariant(self);
        }
        match &self.md5_hash {
            Some(hash) => Some(hash),
            None => None,
        }
    }

    /// Retrieves the SHA1 hash if present.
    pub fn sha1_hash(&self) -> (sha1_hash: Option<&[u8; 20]>)
        ensures
            match sha1_hash {
                Some(hash) => self@.state.sha1_hash == Some(hash@),
                None => self@.state.sha1_hash is None,
            },
    {
        proof {
            use_type_invariant(self);
        }
        match &self.sha1_hash {
            Some(hash) => Some(hash),
            None => None,
        }
    }

    /// Opens the logical media source.
    pub fn open_source(&self) -> (logical: DataSourceReference)
        ensures
            is_packed_medium(
                logical,
                self@.state.volume->0.spec_media_size() as nat,
                media_ranges(self@),
            ),
            logical.spec_capabilities() == (DataSourceCapabilities {
                read_concurrency: DataSourceReadConcurrency::Concurrent,
                seek_cost: DataSourceSeekCost::Expensive,
                preferred_chunk_size: Some(self@.state.volume->0.spec_chunk_size() as usize),
            }),
            logical.spec_telemetry_name() == Some("ewf"@),
    {
        proof {
            use_type_invariant(self);
        }
        self.logical.clone()
    }

    fn open_segment(file_name: String, source: DataSourceReference) -> (result: Result<
        (u16, EwfSegment),
        DriverError,
    >)
        ensures
            match result {
                Ok((number, segment)) => {
                    &&& segment_number_of(source.content()) == Ok::<u16, DriverError>(number)
                    &&& sections_of(source.content()) == Ok::<Seq<EwfSection>, DriverError>(
                        segment.sections@,
                    )
                    &&& segment.file_name@ == file_name@
                    &&& segment.source == source
                    &&& forall|j: int|
                        0 <= j < segment.sections@.len() ==> is_bounded(
                            #[trigger] segment.sections@[j],
                        )
                },
                Err(error) => source.reliable() ==> {
                    ||| segment_number_of(source.content()) == Err::<u16, DriverError>(error)
                    ||| {
                        &&& segment_number_of(source.content()) is Ok
                        &&& sections_of(source.content()) == Err::<Seq<EwfSection>, DriverError>(
                            error,
                        )
                    }
                },
            },
    {
        let number: u16 = read_file_header(&source)?;
        let sections: Vec<EwfSection> = read_section_headers(&source)?;
        Ok((number, EwfSegment { file_name, source, sections }))
    }

    fn open_segments(
        resolver: &SourceResolverReference,
        name: &[char],
        schema: EwfNamingSchema,
    ) -> (result: Result<Vec<EwfSegment>, DriverError>)
        ensures
            match result {
                Ok(segments) => {
                    &&& segments_from(*resolver, name@, schema, 1, Seq::empty()) == Ok::<
                        Seq<EwfSegmentInfo>,
                        DriverError,
                    >(segment_views(segments@))
                    &&& all_bounded(segments@)
                    &&& never_fails(*resolver) ==> forall|i: int|
                        0 <= i < segments@.len() ==> (#[trigger] segments@[i]).source.reliable()
                },
                Err(error) => never_fails(*resolver) ==> segments_from(
                    *resolver,
                    name@,
                    schema,
                    1,
                    Seq::empty(),
                ) == Err::<Seq<EwfSegmentInfo>, DriverError>(error),
            },
    {
        let ghost whole = segments_from(*resolver, name@, schema, 1, Seq::empty());
        let mut segments: Vec<EwfSegment> = Vec::new();
        let mut number: u16 = 1;
        assert(segment_views(segments@) =~= Seq::<EwfSegmentInfo>::empty());
        loop
            invariant
                whole == segments_from(*resolver, name@, schema, 1, Seq::empty()),
                whole == segments_from(
                    *resolver,
                    name@,
                    schema,
                    number,
                    segment_views(segments@),
                ),
                all_bounded(segments@),
                never_fails(*resolver) ==> forall|i: int|
                    0 <= i < segments@.len() ==> (#[trigger] segments@[i]).source.reliable(),
            decreases u16::MAX - number,
        {
            let file_name: String = get_segment_file_name(name, number, schema)?;
            let ghost path = file_name@;
            let source = resolver.open_source(file_name.as_str())?;
            let source: DataSourceReference = source.ok_or(DriverError::Missing)?;
            proof {
                assert(resolver.entry(path) == Ok::<Option<DataSourceReference>, DriverError>(
                    Some(source),
                ));
            }
            let (stored_number, segment) = Self::open_segment(file_name, source)?;
            if stored_number != number {
                return Err(DriverError::Unsupported);
            }
            let count: usize = segment.sections.len();
            let last: bool = if count == 0 {
                true
            } else {
                match segment.sections[count - 1].kind {
                    EwfSectionKind::Next => false,
                    _ => true,
                }
            };
            let ghost before = segments@;
            segments.push(segment);
            proof {
                assert(segment_views(segments@) =~= segment_views(before).push(segment@));
            }
            if last {
                return Ok(segments);
            }
            number = number.checked_add(1).ok_or(DriverError::Overflow)?;
        }
    }
}

} // verus!
