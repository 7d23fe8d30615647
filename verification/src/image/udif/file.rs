//! UDIF files.

use vstd::prelude::*;
use vstd::utf8::{decode_utf8, valid_utf8};

use super::block_table::{
    add_tables, block_ranges_end_at, block_tables, extract_block_tables, no_ranges, UdifBlockRange,
    UdifBlockRangeType, UdifRangeList, UdifRanges,
};
use crate::bytes::{holds_be, lemma_holds_be, read_u32_be, read_u64_be, u32_be, u64_be};
use crate::compression::CompressionMethod;
use crate::error::DriverError;
use crate::image::packed::{
    is_packed_medium, ranges_end_at, PackedDataSource, PackedRange, PackedStorage,
};
use crate::source::capabilities::{
    DataSourceCapabilities, DataSourceReadConcurrency, DataSourceSeekCost,
};
use crate::source::data_source::{read_bytes, Content, DataSource, DataSourceReference};
use crate::source::slice::{open_slice, slice_content};
use crate::text::{text_chars, utf8_text};

verus! {

/// UDIF compression method.
#[derive(Clone, Copy, Debug, PartialEq, Eq, PartialOrd, Ord, Hash, Structural)]
pub enum UdifCompressionMethod {
    Adc,
    Bzip2,
    Lzfse,
    Lzma,
    Uncompressed,
    Zlib,
}

/// What the footer of a file says.
#[derive(Clone, Copy, Debug, PartialEq, Eq, Structural)]
pub struct UdifFooter {
    pub data_fork_offset: u64,
    pub data_fork_size: u64,
    pub plist_offset: u64,
    pub plist_size: u64,
}

/// What is known of an opened file.
pub enum UdifInfo {
    /// The data fork is the medium.
    Plain { offset: u64, size: u64 },
    /// The medium is made up of ranges.
    Ranged(UdifRanges),
}

impl UdifInfo {
    /// The size of the medium.
    pub open spec fn media_size(self) -> int {
        match self {
            UdifInfo::Plain { size, .. } => size as int,
            UdifInfo::Ranged(ranges) => ranges.media_offset(),
        }
    }

    /// The compression method.
    pub open spec fn compression_method(self) -> UdifCompressionMethod {
        match self {
            UdifInfo::Plain { .. } => UdifCompressionMethod::Uncompressed,
            UdifInfo::Ranged(ranges) => method_of(ranges.compressed_entry_type),
        }
    }
}

/// The compression method that a type of entry stands for.
pub open spec fn method_of(entry_type: u32) -> UdifCompressionMethod {
    if entry_type == 0x8000_0004 {
        UdifCompressionMethod::Adc
    } else if entry_type == 0x8000_0005 {
        UdifCompressionMethod::Zlib
    } else if entry_type == 0x8000_0006 {
        UdifCompressionMethod::Bzip2
    } else if entry_type == 0x8000_0007 {
        UdifCompressionMethod::Lzfse
    } else if entry_type == 0x8000_0008 {
        UdifCompressionMethod::Lzma
    } else {
        UdifCompressionMethod::Uncompressed
    }
}

/// What the footer says, which has the signature "koly".
pub open spec fn footer_in(data: Seq<u8>) -> Result<UdifFooter, DriverError> {
    if u32_be(data, 0) != 0x6b6f_6c79 || u32_be(data, 4) != 4 {
        Err(DriverError::Unsupported)
    } else {
        Ok(
            UdifFooter {
                data_fork_offset: u64_be(data, 24),
                data_fork_size: u64_be(data, 32),
                plist_offset: u64_be(data, 216),
                plist_size: u64_be(data, 224),
            },
        )
    }
}

/// What the footer at the end of a file says.
pub open spec fn footer_of(content: Content) -> Result<UdifFooter, DriverError> {
    if content.size < 512 {
        Err(DriverError::Unsupported)
    } else {
        match content.exact(content.size - 512, 512) {
            Err(error) => Err(error),
            Ok(data) => footer_in(data),
        }
    }
}

/// Whether the footer is stored in the last 512 bytes: behind the characters "koly", in big-endian
/// order, version 4 and its values.
pub open spec fn holds_footer(content: Content, footer: UdifFooter) -> bool {
    let data = content.window(content.size - 512, 512);
    &&& 512 <= content.size
    &&& content.has(content.size - 512, 512)
    &&& data[0] == 0x6b && data[1] == 0x6f && data[2] == 0x6c && data[3] == 0x79
    &&& holds_be(data, 4, 4, 4)
    &&& holds_be(data, 24, 8, footer.data_fork_offset as int)
    &&& holds_be(data, 32, 8, footer.data_fork_size as int)
    &&& holds_be(data, 216, 8, footer.plist_offset as int)
    &&& holds_be(data, 224, 8, footer.plist_size as int)
}

/// The values of a footer that is stored are read back.
pub proof fn lemma_footer_stored(content: Content, footer: UdifFooter)
    requires
        holds_footer(content, footer),
    ensures
        footer_of(content) == Ok::<UdifFooter, DriverError>(footer),
{
    broadcast use lemma_holds_be;

    let data = content.window(content.size - 512, 512);
    assert(u32_be(data, 0) == 0x6b6f_6c79);
}

/// The medium of a file without a property list is its data fork.
pub proof fn lemma_plain_medium(
    logical: DataSourceReference,
    source: DataSourceReference,
    footer: UdifFooter,
    k: int,
)
    requires
        holds_footer(source.content(), footer),
        footer.plist_size == 0,
        footer.data_fork_offset + footer.data_fork_size <= source.content().size,
        footer.data_fork_offset + footer.data_fork_size <= u64::MAX,
        0 <= k < footer.data_fork_size,
    ensures
        file_of(source.content()) is Ok,
        is_udif_medium(logical, source, file_of(source.content())->Ok_0) ==> {
            let at = footer.data_fork_offset + k;
            &&& logical.content().size == footer.data_fork_size
            &&& logical.content().bytes.contains_key(k)
                <==> source.content().bytes.contains_key(at)
            &&& logical.content().bytes.contains_key(k) ==> logical.content().bytes[k]
                == source.content().bytes[at]
        },
{
    lemma_footer_stored(source.content(), footer);
}

/// A range of a file is stored in the file itself: not at all where it is sparse, as it is at its
/// offset, or compressed in as many bytes as its entry says, by the method of the type of the entry.
pub proof fn lemma_range_stored(
    source: DataSourceReference,
    ranges: UdifRanges,
    index: int,
)
    requires
        0 <= index < ranges.ranges.len(),
    ensures
        ({
            let range = ranges.ranges[index];
            let packed = media_ranges(source, ranges)[index];
            &&& packed.logical_offset == range.media_offset
            &&& packed.size == range.size
            &&& range.range_type is Sparse ==> packed.storage is Zero
            &&& range.range_type is InFile ==> packed.storage == (PackedStorage::Stored {
                source,
                offset: range.data_offset,
            })
            &&& range.range_type is Compressed ==> {
                &&& packed.storage is Compressed
                &&& packed.storage->Compressed_source == source
                &&& packed.storage->Compressed_offset == range.data_offset
                &&& packed.storage->Compressed_size == range.compressed_data_size
                &&& ranges.compressed_entry_type == 0x8000_0004
                    ==> packed.storage->method == CompressionMethod::Adc
                &&& ranges.compressed_entry_type == 0x8000_0005
                    ==> packed.storage->method == CompressionMethod::Zlib
                &&& ranges.compressed_entry_type == 0x8000_0006
                    ==> packed.storage->method == CompressionMethod::Bzip2
                &&& ranges.compressed_entry_type == 0x8000_0007
                    ==> packed.storage->method == CompressionMethod::Lzfse
            }
        }),
{
}

/// The ranges that the property list of a file describes.
pub open spec fn ranges_in(plist: Seq<char>, footer: UdifFooter) -> Result<UdifInfo, DriverError> {
    match block_tables(plist) {
        Err(error) => Err(error),
        Ok(tables) => match add_tables(
            no_ranges(),
            tables,
            footer.data_fork_offset,
            (footer.data_fork_offset + footer.data_fork_size) as u64,
            0,
        ) {
            Err(error) => Err(error),
            Ok(ranges) => if method_of(ranges.compressed_entry_type) is Lzma {
                Err(DriverError::Unsupported)
            } else {
                Ok(UdifInfo::Ranged(ranges))
            },
        },
    }
}

/// What is known of a file with a footer. Without a property list its data fork is the medium.
pub open spec fn info_in(content: Content, footer: UdifFooter) -> Result<UdifInfo, DriverError> {
    if footer.data_fork_offset + footer.data_fork_size > u64::MAX {
        Err(DriverError::Overflow)
    } else if footer.data_fork_offset + footer.data_fork_size > content.size {
        Err(DriverError::OutOfBounds)
    } else if footer.plist_size == 0 {
        Ok(UdifInfo::Plain { offset: footer.data_fork_offset, size: footer.data_fork_size })
    } else if footer.plist_size > 0x100_0000 {
        Err(DriverError::OutOfBounds)
    } else if footer.plist_offset + footer.plist_size > u64::MAX {
        Err(DriverError::Overflow)
    } else if footer.plist_offset + footer.plist_size > content.size {
        Err(DriverError::OutOfBounds)
    } else {
        match content.exact(footer.plist_offset as int, footer.plist_size as nat) {
            Err(error) => Err(error),
            Ok(data) => if valid_utf8(data) {
                ranges_in(decode_utf8(data), footer)
            } else {
                Err(DriverError::Encoding)
            },
        }
    }
}

/// What is known of a file that can be opened.
pub open spec fn file_of(content: Content) -> Result<UdifInfo, DriverError> {
    match footer_of(content) {
        Err(error) => Err(error),
        Ok(footer) => info_in(content, footer),
    }
}

/// How the compressed ranges of a file are decompressed.
pub open spec fn packing_of(entry_type: u32) -> CompressionMethod {
    if entry_type == 0x8000_0004 {
        CompressionMethod::Adc
    } else if entry_type == 0x8000_0006 {
        CompressionMethod::Bzip2
    } else if entry_type == 0x8000_0007 {
        CompressionMethod::Lzfse
    } else {
        CompressionMethod::Zlib
    }
}

/// How a range of the medium is stored in a file.
pub open spec fn packed_range(
    source: DataSourceReference,
    entry_type: u32,
    range: UdifBlockRange,
) -> PackedRange {
    PackedRange {
        logical_offset: range.media_offset,
        size: range.size,
        storage: match range.range_type {
            UdifBlockRangeType::Sparse => PackedStorage::Zero,
            UdifBlockRangeType::InFile => PackedStorage::Stored {
                source,
                offset: range.data_offset,
            },
            UdifBlockRangeType::Compressed => PackedStorage::Compressed {
                source,
                offset: range.data_offset,
                size: range.compressed_data_size,
                method: packing_of(entry_type),
                capacity: range.size as u32,
                minimum: 0,
            },
        },
    }
}

/// How the ranges of the medium are stored in a file.
pub open spec fn media_ranges(source: DataSourceReference, ranges: UdifRanges) -> Seq<PackedRange> {
    Seq::new(
        ranges.ranges.len(),
        |i: int| packed_range(source, ranges.compressed_entry_type, ranges.ranges[i]),
    )
}

/// The capabilities of a medium that is made up of ranges.
pub open spec fn ranged_capabilities(ranges: UdifRanges) -> DataSourceCapabilities {
    DataSourceCapabilities {
        read_concurrency: DataSourceReadConcurrency::Concurrent,
        seek_cost: if method_of(ranges.compressed_entry_type) is Uncompressed {
            DataSourceSeekCost::Cheap
        } else {
            DataSourceSeekCost::Expensive
        },
        preferred_chunk_size: None,
    }
}

/// Whether a data source is the medium of a file.
pub open spec fn is_udif_medium(
    logical: DataSourceReference,
    source: DataSourceReference,
    info: UdifInfo,
) -> bool {
    match info {
        UdifInfo::Plain { offset, size } => {
            &&& logical.content() == slice_content(source.content(), offset as int, size as nat)
            &&& logical.progresses() == source.progresses()
            &&& logical.exhaustive() == source.exhaustive()
            &&& logical.measurable()
            &&& logical.spec_capabilities() == source.spec_capabilities()
            &&& logical.spec_telemetry_name() == source.spec_telemetry_name()
            &&& logical.spec_origin_path() == source.spec_origin_path()
        },
        UdifInfo::Ranged(ranges) => {
            &&& is_packed_medium(
                logical,
                ranges.media_offset() as nat,
                media_ranges(source, ranges),
            )
            &&& logical.spec_capabilities() == ranged_capabilities(ranges)
            &&& logical.spec_telemetry_name() == Some("udif"@)
        },
    }
}

proof fn lemma_packed_ranges_end(
    source: DataSourceReference,
    entry_type: u32,
    ranges: Seq<UdifBlockRange>,
    end: int,
)
    requires
        block_ranges_end_at(ranges, end),
    ensures
        ranges_end_at(
            Seq::new(ranges.len(), |i: int| packed_range(source, entry_type, ranges[i])),
            end,
        ),
    decreases ranges.len(),
{
    let packed = Seq::new(ranges.len(), |i: int| packed_range(source, entry_type, ranges[i]));
    if ranges.len() > 0 {
        let front = ranges.drop_last();
        lemma_packed_ranges_end(source, entry_type, front, ranges.last().media_offset as int);
        assert(packed.drop_last() =~= Seq::new(
            front.len(),
            |i: int| packed_range(source, entry_type, front[i]),
        ));
        assert(packed.last() == packed_range(source, entry_type, ranges.last()));
    }
}

/// UDIF file metadata plus opened logical source.
pub struct UdifFile {
    compression_method: UdifCompressionMethod,
    media_size: u64,
    logical: DataSourceReference,
    source: Ghost<DataSourceReference>,
    info: Ghost<UdifInfo>,
}

fn read_footer(source: &DataSourceReference, source_size: u64) -> (result: Result<
    UdifFooter,
    DriverError,
>)
    requires
        source_size == source.content().size,
    ensures
        match result {
            Ok(footer) => footer_of(source.content()) == Ok::<UdifFooter, DriverError>(footer),
            Err(error) => source.reliable() ==> footer_of(source.content()) == Err::<
                UdifFooter,
                DriverError,
            >(error),
        },
{
    if source_size < 512 {
        return Err(DriverError::Unsupported);
    }
    let data: Vec<u8> = read_bytes(source, source_size - 512, 512)?;
    let data: &[u8] = data.as_slice();
    if read_u32_be(data, 0) != 0x6b6f_6c79 || read_u32_be(data, 4) != 4 {
        return Err(DriverError::Unsupported);
    }
    Ok(
        UdifFooter {
            data_fork_offset: read_u64_be(data, 24),
            data_fork_size: read_u64_be(data, 32),
            plist_offset: read_u64_be(data, 216),
            plist_size: read_u64_be(data, 224),
        },
    )
}

fn get_compression_method(entry_type: u32) -> (method: UdifCompressionMethod)
    ensures
        method == method_of(entry_type),
{
    if entry_type == 0x8000_0004 {
        UdifCompressionMethod::Adc
    } else if entry_type == 0x8000_0005 {
        UdifCompressionMethod::Zlib
    } else if entry_type == 0x8000_0006 {
        UdifCompressionMethod::Bzip2
    } else if entry_type == 0x8000_0007 {
        UdifCompressionMethod::Lzfse
    } else if entry_type == 0x8000_0008 {
        UdifCompressionMethod::Lzma
    } else {
        UdifCompressionMethod::Uncompressed
    }
}

fn get_packing(entry_type: u32) -> (method: CompressionMethod)
    ensures
        method == packing_of(entry_type),
{
    if entry_type == 0x8000_0004 {
        CompressionMethod::Adc
    } else if entry_type == 0x8000_0006 {
        CompressionMethod::Bzip2
    } else if entry_type == 0x8000_0007 {
        CompressionMethod::Lzfse
    } else {
        CompressionMethod::Zlib
    }
}

/// Builds the source of a medium that is made up of ranges.
fn build_source(source: &DataSourceReference, list: &UdifRangeList) -> (logical:
    DataSourceReference)
    requires
        list.is_sound(),
    ensures
        is_udif_medium(logical, *source, UdifInfo::Ranged(list@)),
{
    let ghost all = media_ranges(*source, list@);
    let method: CompressionMethod = get_packing(list.compressed_entry_type);
    let mut ranges: Vec<PackedRange> = Vec::new();
    let mut index: usize = 0;
    while index < list.ranges.len()
        invariant
            index <= list.ranges@.len(),
            all == media_ranges(*source, list@),
            method == packing_of(list.compressed_entry_type),
            ranges@ == all.take(index as int),
        decreases list.ranges@.len() - index,
    {
        let range: UdifBlockRange = list.ranges[index];
        let storage: PackedStorage = match range.range_type {
            UdifBlockRangeType::Sparse => PackedStorage::Zero,
            UdifBlockRangeType::InFile => PackedStorage::Stored {
                source: source.clone(),
                offset: range.data_offset,
            },
            UdifBlockRangeType::Compressed => PackedStorage::Compressed {
                source: source.clone(),
                offset: range.data_offset,
                size: range.compressed_data_size,
                method,
                capacity: range.size as u32,
                minimum: 0,
            },
        };
        ranges.push(
            PackedRange { logical_offset: range.media_offset, size: range.size, storage },
        );
        index += 1;
        assert(ranges@ =~= all.take(index as int));
    }
    proof {
        assert(ranges@ =~= all);
        lemma_packed_ranges_end(
            *source,
            list.compressed_entry_type,
            list.ranges@,
            list@.media_offset(),
        );
    }
    let seek_cost: DataSourceSeekCost = match get_compression_method(list.compressed_entry_type) {
        UdifCompressionMethod::Uncompressed => DataSourceSeekCost::Cheap,
        _ => DataSourceSeekCost::Expensive,
    };
    let capabilities = DataSourceCapabilities::concurrent(seek_cost);
    PackedDataSource::new(
        ranges,
        512 * list.media_sector,
        capabilities,
        "udif",
    ).into_reference()
}

impl UdifFile {
    #[verifier::type_invariant]
    spec fn well_formed(self) -> bool {
        &&& is_udif_medium(self.logical, self.source@, self.info@)
        &&& self.media_size == self.info@.media_size()
        &&& self.compression_method == self.info@.compression_method()
    }

    /// What is known of the file.
    pub closed spec fn view(&self) -> UdifInfo {
        self.info@
    }

    /// The source that the file was opened from.
    pub closed spec fn spec_source(&self) -> DataSourceReference {
        self.source@
    }

    /// Opens and parses a UDIF file.
    pub fn open(source: DataSourceReference) -> (result: Result<Self, DriverError>)
        ensures
            match result {
                Ok(file) => {
                    &&& file_of(source.content()) == Ok::<UdifInfo, DriverError>(file@)
                    &&& file.spec_source() == source
                },
                Err(error) => source.reliable() ==> file_of(source.content()) == Err::<
                    UdifInfo,
                    DriverError,
                >(error),
            },
    {
        let source_size: u64 = source.size()?;
        let footer: UdifFooter = read_footer(&source, source_size)?;
        let fork_end: u64 = footer.data_fork_offset.checked_add(footer.data_fork_size).ok_or(
            DriverError::Overflow,
        )?;
        if fork_end > source_size {
            return Err(DriverError::OutOfBounds);
        }
        if footer.plist_size == 0 {
            let ghost info = UdifInfo::Plain {
                offset: footer.data_fork_offset,
                size: footer.data_fork_size,
            };
            let ghost medium = source;
            let logical = open_slice(source, footer.data_fork_offset, footer.data_fork_size);
            return Ok(
                UdifFile {
                    compression_method: UdifCompressionMethod::Uncompressed,
                    media_size: footer.data_fork_size,
                    logical,
                    source: Ghost(medium),
                    info: Ghost(info),
                },
            );
        }
        if footer.plist_size > 0x100_0000 {
            return Err(DriverError::OutOfBounds);
        }
        let plist_end: u64 = footer.plist_offset.checked_add(footer.plist_size).ok_or(
            DriverError::Overflow,
        )?;
        if plist_end > source_size {
            return Err(DriverError::OutOfBounds);
        }
        let data: Vec<u8> = read_bytes(&source, footer.plist_offset, footer.plist_size as usize)?;
        let plist: String = match utf8_text(data) {
            Some(plist) => plist,
            None => return Err(DriverError::Encoding),
        };
        Self::open_ranged(source, &footer, plist.as_str())
    }

    fn open_ranged(source: DataSourceReference, footer: &UdifFooter, plist: &str) -> (result:
        Result<Self, DriverError>)
        requires
            footer.data_fork_offset + footer.data_fork_size <= u64::MAX,
        ensures
            match result {
                Ok(file) => {
                    &&& ranges_in(plist@, *footer) == Ok::<UdifInfo, DriverError>(file@)
                    &&& file.spec_source() == source
                },
                Err(error) => ranges_in(plist@, *footer) == Err::<UdifInfo, DriverError>(error),
            },
    {
        let chars: Vec<char> = text_chars(plist);
        let tables: Vec<Vec<u8>> = extract_block_tables(chars.as_slice())?;
        let list = UdifRangeList::new();
        let list = list.read_tables(
            &tables,
            footer.data_fork_offset,
            footer.data_fork_offset + footer.data_fork_size,
        )?;
        let compression_method: UdifCompressionMethod = get_compression_method(
            list.compressed_entry_type,
        );
        if let UdifCompressionMethod::Lzma = compression_method {
            return Err(DriverError::Unsupported);
        }
        let logical: DataSourceReference = build_source(&source, &list);
        Ok(
            UdifFile {
                compression_method,
                media_size: 512 * list.media_sector,
                logical,
                source: Ghost(source),
                info: Ghost(UdifInfo::Ranged(list@)),
            },
        )
    }

    /// Retrieves the bytes-per-sector value.
    pub fn bytes_per_sector(&self) -> (bytes_per_sector: u16)
        ensures
            bytes_per_sector == 512,
    {
        512
    }

    /// Retrieves the compression method.
    pub fn compression_method(&self) -> (compression_method: UdifCompressionMethod)
        ensures
            compression_method == self@.compression_method(),
    {
        proof {
            use_type_invariant(self);
        }
        self.compression_method
    }

    /// Retrieves the media size.
    pub fn media_size(&self) -> (media_size: u64)
        ensures
            media_size == self@.media_size(),
    {
        proof {
            use_type_invariant(self);
        }
        self.media_size
    }

    /// Opens the logical media source.
    pub fn open_source(&self) -> (logical: DataSourceReference)
        ensures
            is_udif_medium(logical, self.spec_source(), self@),
    {
        proof {
            use_type_invariant(self);
        }
        self.logical.clone()
    }
}

} // verus!
