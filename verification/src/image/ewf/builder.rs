//! Assembly of an EWF image from the sections of its segment files.

use vstd::prelude::*;

use super::section::{is_bounded, read_section_data, section_data, EwfSection, EwfSectionKind};
use super::table::{
    digest_in, hash_in, is_usable, parse_digest, parse_hash, parse_table, parse_volume, table_in,
    volume_in, EwfTable, EwfVolume,
};
use crate::error::DriverError;
use crate::source::data_source::{Content, DataSource, DataSourceReference};

verus! {

/// A chunk of the medium.
#[derive(Clone, Copy, Debug, PartialEq, Eq, Structural)]
pub struct EwfChunk {
    pub segment_index: usize,
    pub logical_offset: u64,
    pub logical_size: u64,
    pub data_offset: u64,
    pub data_size: u32,
    pub compressed: bool,
}

/// What is known of an image of which some sections were read.
pub struct EwfState {
    pub volume: Option<EwfVolume>,
    pub chunks: Seq<EwfChunk>,
    pub logical_end: u64,
    pub md5_hash: Option<Seq<u8>>,
    pub sha1_hash: Option<Seq<u8>>,
}

/// An opened segment file.
pub struct EwfSegmentInfo {
    pub file_name: Seq<char>,
    pub source: DataSourceReference,
    pub sections: Seq<EwfSection>,
}

/// What is known before any section was read.
pub open spec fn initial_state() -> EwfState {
    EwfState {
        volume: None,
        chunks: Seq::empty(),
        logical_end: 0,
        md5_hash: None,
        sha1_hash: None,
    }
}

/// Where the data of a chunk starts. The upper bit of an entry is a flag.
pub open spec fn entry_offset(table: EwfTable, index: int) -> int {
    table.base_offset + table.entries[index] % 0x8000_0000
}

/// Whether the data of a chunk is compressed.
pub open spec fn entry_compressed(table: EwfTable, index: int) -> bool {
    table.entries[index] >= 0x8000_0000
}

/// What is known after an entry of a table was added. The data of a chunk ends where that of the
/// next one starts, and that of the last one at `data_end`.
pub open spec fn add_entry(
    state: EwfState,
    volume: EwfVolume,
    segment_index: usize,
    table: EwfTable,
    data_end: u64,
    index: int,
) -> Result<EwfState, DriverError> {
    let start = entry_offset(table, index);
    let end = if index + 1 < table.entries.len() {
        entry_offset(table, index + 1)
    } else {
        data_end as int
    };
    let rest = volume.spec_media_size() - state.logical_end;
    let logical_size = if volume.spec_chunk_size() < rest {
        volume.spec_chunk_size()
    } else {
        rest
    };
    if start > u64::MAX || end > u64::MAX {
        Err(DriverError::Overflow)
    } else if end <= start {
        Err(DriverError::Invalid)
    } else if rest <= 0 {
        Err(DriverError::OutOfBounds)
    } else if end - start > u32::MAX {
        Err(DriverError::Overflow)
    } else {
        Ok(
            EwfState {
                volume: state.volume,
                chunks: state.chunks.push(
                    EwfChunk {
                        segment_index,
                        logical_offset: state.logical_end,
                        logical_size: logical_size as u64,
                        data_offset: start as u64,
                        data_size: (end - start) as u32,
                        compressed: entry_compressed(table, index),
                    },
                ),
                logical_end: (state.logical_end + logical_size) as u64,
                md5_hash: state.md5_hash,
                sha1_hash: state.sha1_hash,
            },
        )
    }
}

/// A chunk starts at the offset in the lower 31 bits of its entry, relative to that of the table, and
/// ends where the next one starts, or with the data. The highest bit says that it is compressed. It
/// makes up a chunk of the medium, behind the chunks before it, or what is left of it.
pub proof fn lemma_chunk_added(
    state: EwfState,
    volume: EwfVolume,
    segment_index: usize,
    table: EwfTable,
    data_end: u64,
    index: int,
    offset: int,
    next_offset: int,
    is_compressed: bool,
)
    requires
        0 <= index < table.entries.len(),
        0 <= offset < 0x8000_0000,
        0 <= next_offset,
        table.entries[index] == offset + (if is_compressed {
            0x8000_0000int
        } else {
            0
        }),
        if index + 1 < table.entries.len() {
            next_offset < 0x8000_0000 && (table.entries[index + 1] == next_offset
                || table.entries[index + 1] == 0x8000_0000 + next_offset)
        } else {
            table.base_offset + next_offset == data_end
        },
        table.base_offset + offset < table.base_offset + next_offset <= u64::MAX,
        next_offset - offset <= u32::MAX,
        state.logical_end < volume.number_of_sectors * volume.bytes_per_sector <= u64::MAX,
        0 < volume.sectors_per_chunk * volume.bytes_per_sector,
    ensures
        ({
            let result = add_entry(state, volume, segment_index, table, data_end, index);
            let chunk = result->Ok_0.chunks.last();
            let chunk_size = volume.sectors_per_chunk * volume.bytes_per_sector;
            let rest = volume.number_of_sectors * volume.bytes_per_sector - state.logical_end;
            &&& result is Ok
            &&& result->Ok_0.chunks.drop_last() == state.chunks
            &&& chunk.segment_index == segment_index
            &&& chunk.logical_offset == state.logical_end
            &&& chunk.logical_size == vstd::math::min(chunk_size, rest)
            &&& chunk.data_offset == table.base_offset + offset
            &&& chunk.data_offset + chunk.data_size == table.base_offset + next_offset
            &&& chunk.compressed == is_compressed
            &&& result->Ok_0.logical_end == chunk.logical_offset + chunk.logical_size
            &&& result->Ok_0.volume == state.volume
            &&& result->Ok_0.md5_hash == state.md5_hash
            &&& result->Ok_0.sha1_hash == state.sha1_hash
        }),
{
    let result = add_entry(state, volume, segment_index, table, data_end, index);
    assert(entry_offset(table, index) == table.base_offset + offset);
    assert(result->Ok_0.chunks.drop_last() =~= state.chunks);
}

/// What is known after the entries of a table from `index` on were added.
pub open spec fn add_entries(
    state: EwfState,
    volume: EwfVolume,
    segment_index: usize,
    table: EwfTable,
    data_end: u64,
    index: int,
) -> Result<EwfState, DriverError>
    decreases table.entries.len() - index,
{
    if index >= table.entries.len() {
        Ok(state)
    } else {
        match add_entry(state, volume, segment_index, table, data_end, index) {
            Err(error) => Err(error),
            Ok(next) => add_entries(next, volume, segment_index, table, data_end, index + 1),
        }
    }
}

/// What is known after a volume section was read, which only the first segment file has, once.
pub open spec fn add_volume(
    state: EwfState,
    content: Content,
    segment_index: usize,
    section: EwfSection,
) -> Result<EwfState, DriverError> {
    if segment_index != 0 || state.volume is Some {
        Err(DriverError::Unsupported)
    } else {
        match section_data(content, section) {
            Err(error) => Err(error),
            Ok(data) => match volume_in(data) {
                Err(error) => Err(error),
                Ok(volume) => Ok(
                    EwfState {
                        volume: Some(volume),
                        chunks: state.chunks,
                        logical_end: state.logical_end,
                        md5_hash: state.md5_hash,
                        sha1_hash: state.sha1_hash,
                    },
                ),
            },
        }
    }
}

/// What is known after a table section was read, which a volume section has to precede. The data
/// of the last chunk ends with the last section that holds sectors, or with the table.
pub open spec fn add_table(
    state: EwfState,
    content: Content,
    segment_index: usize,
    section: EwfSection,
    sectors_end: Option<u64>,
) -> Result<EwfState, DriverError> {
    match state.volume {
        None => Err(DriverError::Missing),
        Some(volume) => match section_data(content, section) {
            Err(error) => Err(error),
            Ok(data) => match table_in(data) {
                Err(error) => Err(error),
                Ok(table) => add_entries(
                    state,
                    volume,
                    segment_index,
                    table,
                    match sectors_end {
                        Some(end) => end,
                        None => section.next_offset,
                    },
                    0,
                ),
            },
        },
    }
}

/// What is known after a hash section was read.
pub open spec fn add_hash(state: EwfState, content: Content, section: EwfSection) -> Result<
    EwfState,
    DriverError,
> {
    match section_data(content, section) {
        Err(error) => Err(error),
        Ok(data) => match hash_in(data) {
            Err(error) => Err(error),
            Ok(md5_hash) => Ok(
                EwfState {
                    volume: state.volume,
                    chunks: state.chunks,
                    logical_end: state.logical_end,
                    md5_hash: Some(md5_hash),
                    sha1_hash: state.sha1_hash,
                },
            ),
        },
    }
}

/// What is known after a digest section was read.
pub open spec fn add_digest(state: EwfState, content: Content, section: EwfSection) -> Result<
    EwfState,
    DriverError,
> {
    match section_data(content, section) {
        Err(error) => Err(error),
        Ok(data) => match digest_in(data) {
            Err(error) => Err(error),
            Ok((md5_hash, sha1_hash)) => Ok(
                EwfState {
                    volume: state.volume,
                    chunks: state.chunks,
                    logical_end: state.logical_end,
                    md5_hash: Some(md5_hash),
                    sha1_hash: Some(sha1_hash),
                },
            ),
        },
    }
}

/// What is known after a section was read.
pub open spec fn add_section(
    state: EwfState,
    content: Content,
    segment_index: usize,
    section: EwfSection,
    sectors_end: Option<u64>,
) -> Result<EwfState, DriverError> {
    match section.kind {
        EwfSectionKind::Volume => add_volume(state, content, segment_index, section),
        EwfSectionKind::Table => add_table(state, content, segment_index, section, sectors_end),
        EwfSectionKind::Hash => add_hash(state, content, section),
        EwfSectionKind::Digest => add_digest(state, content, section),
        _ => Ok(state),
    }
}

/// What is known after the sections of a segment file from `index` on were read.
pub open spec fn add_sections(
    state: EwfState,
    segment: EwfSegmentInfo,
    segment_index: usize,
    sectors_end: Option<u64>,
    index: int,
) -> Result<EwfState, DriverError>
    decreases segment.sections.len() - index,
{
    if index >= segment.sections.len() {
        Ok(state)
    } else {
        let section = segment.sections[index];
        match add_section(state, segment.source.content(), segment_index, section, sectors_end) {
            Err(error) => Err(error),
            Ok(next) => add_sections(
                next,
                segment,
                segment_index,
                if section.kind is Sectors {
                    Some(section.next_offset)
                } else {
                    sectors_end
                },
                index + 1,
            ),
        }
    }
}

/// What is known after the segment files from `index` on were read.
pub open spec fn add_segments(
    state: EwfState,
    segments: Seq<EwfSegmentInfo>,
    index: int,
) -> Result<EwfState, DriverError>
    decreases segments.len() - index,
{
    if index >= segments.len() {
        Ok(state)
    } else {
        match add_sections(state, segments[index], index as usize, None, 0) {
            Err(error) => Err(error),
            Ok(next) => add_segments(next, segments, index + 1),
        }
    }
}

/// What is known of an image that consists of segment files. Its chunks make up the medium.
pub open spec fn assembled(segments: Seq<EwfSegmentInfo>) -> Result<EwfState, DriverError> {
    match add_segments(initial_state(), segments, 0) {
        Err(error) => Err(error),
        Ok(state) => match state.volume {
            None => Err(DriverError::Missing),
            Some(volume) => if state.chunks.len() % 0x1_0000_0000 != volume.number_of_chunks
                || state.logical_end != volume.spec_media_size() {
                Err(DriverError::Invalid)
            } else {
                Ok(state)
            },
        },
    }
}

/// Whether chunks follow each other up to `end`, each no larger than a chunk can be.
pub open spec fn chunks_end_at(
    chunks: Seq<EwfChunk>,
    end: int,
    chunk_size: int,
    segment_count: int,
) -> bool
    decreases chunks.len(),
{
    if chunks.len() == 0 {
        end == 0
    } else {
        &&& 0 < chunks.last().logical_size <= chunk_size
        &&& chunks.last().logical_offset + chunks.last().logical_size == end
        &&& chunks.last().segment_index < segment_count
        &&& chunks_end_at(
            chunks.drop_last(),
            chunks.last().logical_offset as int,
            chunk_size,
            segment_count,
        )
    }
}

/// Whether the chunks that are known make up the medium so far.
pub open spec fn is_sound_state(state: EwfState, segment_count: int) -> bool {
    match state.volume {
        None => state.chunks.len() == 0 && state.logical_end == 0,
        Some(volume) => is_usable(volume) && chunks_end_at(
            state.chunks,
            state.logical_end as int,
            volume.spec_chunk_size(),
            segment_count,
        ),
    }
}

/// Chunks that lie in the first segment files lie in more of them too.
pub proof fn lemma_chunks_in_more_segments(
    chunks: Seq<EwfChunk>,
    end: int,
    chunk_size: int,
    segment_count: int,
    larger_count: int,
)
    requires
        chunks_end_at(chunks, end, chunk_size, segment_count),
        segment_count <= larger_count,
    ensures
        chunks_end_at(chunks, end, chunk_size, larger_count),
    decreases chunks.len(),
{
    if chunks.len() > 0 {
        lemma_chunks_in_more_segments(
            chunks.drop_last(),
            chunks.last().logical_offset as int,
            chunk_size,
            segment_count,
            larger_count,
        );
    }
}

/// What is known of an image while its sections are read.
pub struct EwfBuilder {
    pub volume: Option<EwfVolume>,
    pub chunks: Vec<EwfChunk>,
    pub logical_end: u64,
    pub md5_hash: Option<[u8; 16]>,
    pub sha1_hash: Option<[u8; 20]>,
}

impl EwfBuilder {
    /// What is known of the image.
    pub open spec fn view(&self) -> EwfState {
        EwfState {
            volume: self.volume,
            chunks: self.chunks@,
            logical_end: self.logical_end,
            md5_hash: match self.md5_hash {
                Some(hash) => Some(hash@),
                None => None,
            },
            sha1_hash: match self.sha1_hash {
                Some(hash) => Some(hash@),
                None => None,
            },
        }
    }

    /// Whether the chunks follow each other in segment files that there are.
    pub open spec fn is_sound(&self, segment_count: int) -> bool {
        is_sound_state(self@, segment_count)
    }

    /// Creates a builder that knows nothing yet.
    pub fn new() -> (builder: Self)
        ensures
            builder@ == initial_state(),
            builder.is_sound(0),
    {
        let builder = EwfBuilder {
            volume: None,
            chunks: Vec::new(),
            logical_end: 0,
            md5_hash: None,
            sha1_hash: None,
        };
        assert(builder.chunks@ =~= Seq::<EwfChunk>::empty());
        builder
    }

    fn add_table_entries(
        self,
        volume: &EwfVolume,
        segment_index: usize,
        base_offset: u64,
        entries: &[u32],
        data_end: u64,
    ) -> (result: Result<Self, DriverError>)
        requires
            self.volume == Some(*volume),
            self.is_sound(segment_index + 1),
        ensures
            match result {
                Ok(builder) => {
                    &&& add_entries(
                        self@,
                        *volume,
                        segment_index,
                        (EwfTable { base_offset, entries: entries@ }),
                        data_end,
                        0,
                    ) == Ok::<EwfState, DriverError>(builder@)
                    &&& builder.volume == self.volume
                    &&& builder.is_sound(segment_index + 1)
                },
                Err(error) => add_entries(
                    self@,
                    *volume,
                    segment_index,
                    (EwfTable { base_offset, entries: entries@ }),
                    data_end,
                    0,
                ) == Err::<EwfState, DriverError>(error),
            },
    {
        let ghost table = EwfTable { base_offset, entries: entries@ };
        let ghost whole = add_entries(self@, *volume, segment_index, table, data_end, 0);
        let chunk_size: u64 = volume.sectors_per_chunk as u64 * volume.bytes_per_sector as u64;
        let media_size: u64 = volume.number_of_sectors * volume.bytes_per_sector as u64;
        let mut builder = self;
        let mut index: usize = 0;
        while index < entries.len()
            invariant
                index <= entries@.len(),
                table == (EwfTable { base_offset, entries: entries@ }),
                whole == add_entries(self@, *volume, segment_index, table, data_end, 0),
                whole == add_entries(
                    builder@,
                    *volume,
                    segment_index,
                    table,
                    data_end,
                    index as int,
                ),
                builder.volume == Some(*volume),
                self.volume == Some(*volume),
                builder.is_sound(segment_index + 1),
                chunk_size == volume.spec_chunk_size(),
                media_size == volume.spec_media_size(),
            decreases entries@.len() - index,
        {
            let entry: u32 = entries[index];
            let start: u64 = base_offset.checked_add((entry % 0x8000_0000) as u64).ok_or(
                DriverError::Overflow,
            )?;
            let end: u64 = if entries.len() - index > 1 {
                let next: u32 = entries[index + 1];
                base_offset.checked_add((next % 0x8000_0000) as u64).ok_or(DriverError::Overflow)?
            } else {
                data_end
            };
            if end <= start {
                return Err(DriverError::Invalid);
            }
            if builder.logical_end >= media_size {
                return Err(DriverError::OutOfBounds);
            }
            if end - start > u32::MAX as u64 {
                return Err(DriverError::Overflow);
            }
            let rest: u64 = media_size - builder.logical_end;
            let logical_size: u64 = if chunk_size < rest {
                chunk_size
            } else {
                rest
            };
            let chunk = EwfChunk {
                segment_index,
                logical_offset: builder.logical_end,
                logical_size,
                data_offset: start,
                data_size: (end - start) as u32,
                compressed: entry >= 0x8000_0000,
            };
            let ghost before = builder@;
            builder.chunks.push(chunk);
            builder.logical_end = builder.logical_end + logical_size;
            proof {
                assert(builder.chunks@.drop_last() =~= before.chunks);
                assert(builder@.chunks =~= before.chunks.push(chunk));
            }
            index += 1;
        }
        Ok(builder)
    }

    /// Reads a section.
    pub fn read_section(
        self,
        source: &DataSourceReference,
        segment_index: usize,
        section: &EwfSection,
        sectors_end: Option<u64>,
    ) -> (result: Result<Self, DriverError>)
        requires
            is_bounded(*section),
            self.is_sound(segment_index + 1),
        ensures
            match result {
                Ok(builder) => {
                    &&& add_section(
                        self@,
                        source.content(),
                        segment_index,
                        *section,
                        sectors_end,
                    ) == Ok::<EwfState, DriverError>(builder@)
                    &&& builder.is_sound(segment_index + 1)
                },
                Err(error) => source.reliable() ==> add_section(
                    self@,
                    source.content(),
                    segment_index,
                    *section,
                    sectors_end,
                ) == Err::<EwfState, DriverError>(error),
            },
    {
        let mut builder = self;
        match section.kind {
            EwfSectionKind::Volume => {
                if segment_index != 0 || builder.volume.is_some() {
                    return Err(DriverError::Unsupported);
                }
                let data: Vec<u8> = read_section_data(source, section)?;
                builder.volume = Some(parse_volume(data.as_slice())?);
                Ok(builder)
            },
            EwfSectionKind::Table => {
                let volume: EwfVolume = match builder.volume {
                    Some(volume) => volume,
                    None => return Err(DriverError::Missing),
                };
                let data: Vec<u8> = read_section_data(source, section)?;
                let (base_offset, entries) = parse_table(data.as_slice())?;
                let data_end: u64 = match sectors_end {
                    Some(end) => end,
                    None => section.next_offset,
                };
                builder.add_table_entries(
                    &volume,
                    segment_index,
                    base_offset,
                    entries.as_slice(),
                    data_end,
                )
            },
            EwfSectionKind::Hash => {
                let data: Vec<u8> = read_section_data(source, section)?;
                builder.md5_hash = Some(parse_hash(data.as_slice())?);
                Ok(builder)
            },
            EwfSectionKind::Digest => {
                let data: Vec<u8> = read_section_data(source, section)?;
                let (md5_hash, sha1_hash) = parse_digest(data.as_slice())?;
                builder.md5_hash = Some(md5_hash);
                builder.sha1_hash = Some(sha1_hash);
                Ok(builder)
            },
            _ => Ok(builder),
        }
    }

    /// Reads the sections of a segment file.
    pub fn read_sections(
        self,
        source: &DataSourceReference,
        segment_index: usize,
        sections: &Vec<EwfSection>,
        Ghost(segment): Ghost<EwfSegmentInfo>,
    ) -> (result: Result<Self, DriverError>)
        requires
            forall|i: int| 0 <= i < sections@.len() ==> is_bounded(#[trigger] sections@[i]),
            self.is_sound(segment_index + 1),
            segment.source == *source,
            segment.sections == sections@,
        ensures
            match result {
                Ok(builder) => {
                    &&& add_sections(self@, segment, segment_index, None, 0) == Ok::<
                        EwfState,
                        DriverError,
                    >(builder@)
                    &&& builder.is_sound(segment_index + 1)
                },
                Err(error) => source.reliable() ==> add_sections(
                    self@,
                    segment,
                    segment_index,
                    None,
                    0,
                ) == Err::<EwfState, DriverError>(error),
            },
    {
        let ghost whole = add_sections(self@, segment, segment_index, None, 0);
        let mut builder = self;
        let mut sectors_end: Option<u64> = None;
        let mut index: usize = 0;
        while index < sections.len()
            invariant
                index <= sections@.len(),
                forall|i: int| 0 <= i < sections@.len() ==> is_bounded(#[trigger] sections@[i]),
                builder.is_sound(segment_index + 1),
                segment.source == *source,
                segment.sections == sections@,
                whole == add_sections(self@, segment, segment_index, None, 0),
                whole == add_sections(builder@, segment, segment_index, sectors_end, index as int),
            decreases sections@.len() - index,
        {
            let section: EwfSection = sections[index];
            assert(is_bounded(sections@[index as int]));
            builder = builder.read_section(source, segment_index, &section, sectors_end)?;
            if let EwfSectionKind::Sectors = section.kind {
                sectors_end = Some(section.next_offset);
            }
            index += 1;
        }
        Ok(builder)
    }
}

proof fn lemma_entries_sound(
    state: EwfState,
    volume: EwfVolume,
    segment_index: usize,
    table: EwfTable,
    data_end: u64,
    index: int,
    segment_count: int,
)
    requires
        state.volume == Some(volume),
        is_sound_state(state, segment_count),
        segment_index < segment_count,
    ensures
        add_entries(state, volume, segment_index, table, data_end, index) matches Ok(all)
            ==> is_sound_state(all, segment_count),
    decreases table.entries.len() - index,
{
    if index < table.entries.len() {
        if let Ok(next) = add_entry(state, volume, segment_index, table, data_end, index) {
            assert(next.chunks.drop_last() =~= state.chunks);
            lemma_entries_sound(
                next,
                volume,
                segment_index,
                table,
                data_end,
                index + 1,
                segment_count,
            );
        }
    }
}

proof fn lemma_section_sound(
    state: EwfState,
    content: Content,
    segment_index: usize,
    section: EwfSection,
    sectors_end: Option<u64>,
    segment_count: int,
)
    requires
        is_sound_state(state, segment_count),
        segment_index < segment_count,
    ensures
        add_section(state, content, segment_index, section, sectors_end) matches Ok(next)
            ==> is_sound_state(next, segment_count),
{
    match section.kind {
        EwfSectionKind::Table => {
            if state.volume is Some && section_data(content, section) is Ok {
                if let Ok(table) = table_in(section_data(content, section)->Ok_0) {
                    lemma_entries_sound(
                        state,
                        state.volume->0,
                        segment_index,
                        table,
                        match sectors_end {
                            Some(end) => end,
                            None => section.next_offset,
                        },
                        0,
                        segment_count,
                    );
                }
            }
        },
        EwfSectionKind::Volume => {
            if let Ok(next) = add_volume(state, content, segment_index, section) {
                let volume = next.volume->0;
                assert(0 < volume.sectors_per_chunk * volume.bytes_per_sector && 0
                    <= volume.number_of_sectors * volume.bytes_per_sector) by (nonlinear_arith)
                    requires
                        0 < volume.sectors_per_chunk,
                        0 < volume.bytes_per_sector,
                        0 <= volume.number_of_sectors,
                ;
            }
        },
        _ => {},
    }
}

proof fn lemma_sections_sound(
    state: EwfState,
    segment: EwfSegmentInfo,
    segment_index: usize,
    sectors_end: Option<u64>,
    index: int,
    segment_count: int,
)
    requires
        0 <= index,
        is_sound_state(state, segment_count),
        segment_index < segment_count,
    ensures
        add_sections(state, segment, segment_index, sectors_end, index) matches Ok(all)
            ==> is_sound_state(all, segment_count),
    decreases segment.sections.len() - index,
{
    if index < segment.sections.len() {
        let section = segment.sections[index];
        let content = segment.source.content();
        lemma_section_sound(
            state,
            content,
            segment_index,
            section,
            sectors_end,
            segment_count,
        );
        let outcome = add_section(state, content, segment_index, section, sectors_end);
        if outcome is Ok {
            lemma_sections_sound(
                outcome->Ok_0,
                segment,
                segment_index,
                if section.kind is Sectors {
                    Some(section.next_offset)
                } else {
                    sectors_end
                },
                index + 1,
                segment_count,
            );
        }
    }
}

proof fn lemma_segments_sound(state: EwfState, segments: Seq<EwfSegmentInfo>, index: int)
    requires
        0 <= index,
        segments.len() <= usize::MAX,
        is_sound_state(state, segments.len() as int),
    ensures
        add_segments(state, segments, index) matches Ok(all) ==> is_sound_state(
            all,
            segments.len() as int,
        ),
    decreases segments.len() - index,
{
    if index < segments.len() {
        lemma_sections_sound(
            state,
            segments[index],
            index as usize,
            None,
            0,
            segments.len() as int,
        );
        if let Ok(next) = add_sections(state, segments[index], index as usize, None, 0) {
            lemma_segments_sound(next, segments, index + 1);
        }
    }
}

/// The chunks of an image make up its medium: each starts where the one before it ends, none is
/// empty, and each lies in one of the segment files.
pub proof fn lemma_chunks_contiguous(segments: Seq<EwfSegmentInfo>)
    requires
        segments.len() <= usize::MAX,
    ensures
        assembled(segments) matches Ok(state) ==> chunks_end_at(
            state.chunks,
            state.volume->0.spec_media_size(),
            state.volume->0.spec_chunk_size(),
            segments.len() as int,
        ),
{
    lemma_segments_sound(initial_state(), segments, 0);
}

} // verus!
