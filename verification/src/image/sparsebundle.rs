//! Mac OS sparse bundle disk images (.sparsebundle).

use vstd::prelude::*;
use vstd::utf8::{decode_utf8, valid_utf8};

use super::block_map::lemma_block_index;
use super::block_table::{lemma_number_of_blocks, number_of_blocks};
use super::extent_list::{is_composed_medium, ExtentList};
use crate::checks::{first_failure, lemma_first_failure_at, lemma_first_failure_none};
use crate::error::DriverError;
use crate::resolver::source_resolver::{never_fails, SourceResolver, SourceResolverReference};
use crate::scan::{
    append_number, find_from, find_pattern, is_space, is_trimmed, lemma_found_at,
    lemma_number_read_back, lemma_trimmed, matches_at, number_text, number_value, parse_number,
    same_text, trim_text, trimmed,
};
use crate::source::data_source::{is_start_of, readable_data, DataSource, DataSourceReference};
use crate::source::extent_map::MediaLocation;
use crate::text::{chars_text, text_chars, utf8_text};

verus! {

/// What the property list of a bundle says.
pub struct SparseBundleInfo {
    pub band_size: u32,
    pub media_size: u64,
}

/// What is known of an opened image: its property list, and the source of each band that is stored.
pub struct SparseBundle {
    pub band_size: u32,
    pub media_size: u64,
    pub bands: Seq<Option<DataSourceReference>>,
}

/// The text between the first pair of marks after a key.
pub open spec fn property_value(
    text: Seq<char>,
    key: Seq<char>,
    open_mark: Seq<char>,
    close_mark: Seq<char>,
) -> Option<Seq<char>> {
    match find_from(text, key, 0) {
        None => None,
        Some(key_at) => match find_from(text, open_mark, (key_at + key.len()) as int) {
            None => None,
            Some(open_at) => {
                let start = (open_at + open_mark.len()) as int;
                match find_from(text, close_mark, start) {
                    None => None,
                    Some(end) => Some(trimmed(text.subrange(start, end))),
                }
            },
        },
    }
}

/// Why the text of a key that has to have a fixed value cannot be used.
pub open spec fn fixed_value_failure(text: Seq<char>, key: Seq<char>, value: Seq<char>) -> Option<
    DriverError,
> {
    match property_value(text, key, "<string>"@, "</string>"@) {
        None => Some(DriverError::Missing),
        Some(found) => if found == value {
            None
        } else {
            Some(DriverError::Unsupported)
        },
    }
}

/// The number of a key, which must not be zero.
pub open spec fn number_property(text: Seq<char>, key: Seq<char>, max: int) -> Result<
    u64,
    DriverError,
> {
    match property_value(text, key, "<integer>"@, "</integer>"@) {
        None => Err(DriverError::Missing),
        Some(value) => match number_value(value, 10, max) {
            None => Err(DriverError::Invalid),
            Some(number) => if number == 0 {
                Err(DriverError::Invalid)
            } else {
                Ok(number)
            },
        },
    }
}

/// What a property list says.
pub open spec fn parsed_info(text: Seq<char>) -> Result<SparseBundleInfo, DriverError> {
    match fixed_value_failure(text, "<key>CFBundleInfoDictionaryVersion</key>"@, "6.0"@) {
        Some(error) => Err(error),
        None => match fixed_value_failure(
            text,
            "<key>diskimage-bundle-type</key>"@,
            "com.apple.diskimage.sparsebundle"@,
        ) {
            Some(error) => Err(error),
            None => match number_property(text, "<key>band-size</key>"@, u32::MAX as int) {
                Err(error) => Err(error),
                Ok(band_size) => match number_property(text, "<key>size</key>"@, u64::MAX as int) {
                    Err(error) => Err(error),
                    Ok(media_size) => Ok(
                        SparseBundleInfo { band_size: band_size as u32, media_size },
                    ),
                },
            },
        },
    }
}

/// What the property list in a file of at most 64 KiB says.
pub open spec fn info_in(entry: Result<Option<DataSourceReference>, DriverError>) -> Result<
    SparseBundleInfo,
    DriverError,
> {
    match entry {
        Err(error) => Err(error),
        Ok(None) => Err(DriverError::Missing),
        Ok(Some(source)) => if source.content().size == 0 || source.content().size > 0x1_0000 {
            Err(DriverError::Unsupported)
        } else if !valid_utf8(readable_data(source.content())) {
            Err(DriverError::Encoding)
        } else {
            parsed_info(decode_utf8(readable_data(source.content())))
        },
    }
}

/// Whether a property list in a file can be taken to say what `info` does, by a source that reads
/// less than there is.
pub open spec fn may_say(
    entry: Result<Option<DataSourceReference>, DriverError>,
    info: SparseBundleInfo,
) -> bool {
    entry matches Ok(Some(source)) && 0 < source.content().size <= 0x1_0000
        && exists|data: Seq<u8>|
        #[trigger] is_start_of(data, source.content()) && valid_utf8(data) && parsed_info(
            decode_utf8(data),
        ) == Ok::<SparseBundleInfo, DriverError>(info)
}

/// What the property list of a bundle says: that of the first of its two copies that can be used.
pub open spec fn info_of(resolver: SourceResolverReference) -> Result<
    SparseBundleInfo,
    DriverError,
> {
    match info_in(resolver.entry("Info.plist"@)) {
        Ok(info) => Ok(info),
        Err(_) => info_in(resolver.entry("Info.bckup"@)),
    }
}

/// The name of the file of a band.
pub open spec fn band_file_name(index: int) -> Seq<char> {
    "bands/"@ + number_text(index as nat, 16)
}

/// The number of bands of a medium.
pub open spec fn number_of_bands(info: SparseBundleInfo) -> nat {
    number_of_blocks(info.media_size as int, info.band_size as int)
}

/// The size of a band, the last of which ends with the medium.
pub open spec fn used_band_size(info: SparseBundleInfo, index: int) -> int {
    if (index + 1) * info.band_size < info.media_size {
        info.band_size as int
    } else {
        info.media_size - index * info.band_size
    }
}

/// Why a band cannot be used: its file cannot be resolved, is empty, or larger than the band.
pub open spec fn band_failure(resolver: SourceResolverReference, info: SparseBundleInfo) -> spec_fn(
    int,
) -> Option<DriverError> {
    |index: int|
        match resolver.entry(band_file_name(index)) {
            Err(error) => Some(error),
            Ok(None) => None,
            Ok(Some(source)) => if source.content().size == 0 {
                Some(DriverError::Unsupported)
            } else if source.content().size > used_band_size(info, index) {
                Some(DriverError::OutOfBounds)
            } else {
                None
            },
        }
}

/// The sources of the bands.
pub open spec fn band_sources(resolver: SourceResolverReference, info: SparseBundleInfo) -> Seq<
    Option<DataSourceReference>,
> {
    Seq::new(number_of_bands(info), |i: int| resolver.entry(band_file_name(i))->Ok_0)
}

/// What is known of an image with the given property list.
pub open spec fn image_with(resolver: SourceResolverReference, info: SparseBundleInfo) -> Result<
    SparseBundle,
    DriverError,
> {
    match first_failure(number_of_bands(info), band_failure(resolver, info)) {
        Some(error) => Err(error),
        None => Ok(
            SparseBundle {
                band_size: info.band_size,
                media_size: info.media_size,
                bands: band_sources(resolver, info),
            },
        ),
    }
}

/// What is known of an image that can be opened.
pub open spec fn image_of(resolver: SourceResolverReference) -> Result<SparseBundle, DriverError> {
    match info_of(resolver) {
        Err(error) => Err(error),
        Ok(info) => image_with(resolver, info),
    }
}

/// Where an image stores the byte of the medium at an offset: in the file of the band that covers
/// it, as far as that goes.
pub open spec fn media_location(image: SparseBundle) -> spec_fn(int) -> MediaLocation {
    |k: int|
        match image.bands[k / image.band_size as int] {
            Some(source) => if k % (image.band_size as int) < source.content().size {
                MediaLocation::Data { source, offset: k % image.band_size as int }
            } else {
                MediaLocation::Zero
            },
            None => MediaLocation::Zero,
        }
}

/// The value of a key in a property list is the text between the marks that follow the key, without the
/// white space around it.
pub proof fn lemma_property_value(
    text: Seq<char>,
    key: Seq<char>,
    open_mark: Seq<char>,
    close_mark: Seq<char>,
    key_at: int,
    open_at: int,
    end: int,
    before: Seq<char>,
    value: Seq<char>,
    after: Seq<char>,
)
    requires
        0 <= key_at,
        matches_at(text, key, key_at),
        forall|i: int| 0 <= i < key_at ==> !#[trigger] matches_at(text, key, i),
        key_at + key.len() <= open_at,
        matches_at(text, open_mark, open_at),
        forall|i: int|
            key_at + key.len() <= i < open_at ==> !#[trigger] matches_at(text, open_mark, i),
        open_at + open_mark.len() <= end,
        matches_at(text, close_mark, end),
        forall|i: int|
            open_at + open_mark.len() <= i < end ==> !#[trigger] matches_at(text, close_mark, i),
        text.subrange(open_at + open_mark.len(), end) == before + value + after,
        is_space(before),
        is_space(after),
        is_trimmed(value),
    ensures
        property_value(text, key, open_mark, close_mark) == Some(value),
{
    lemma_found_at(text, key, 0, key_at);
    lemma_found_at(text, open_mark, key_at + key.len(), open_at);
    lemma_found_at(text, close_mark, open_at + open_mark.len(), end);
    lemma_trimmed(before, value, after);
}

/// Every byte of a band lies in the file of the band, as far behind its start as it lies behind the
/// start of the band. It is zero where there is no file, or the file is shorter.
pub proof fn lemma_band_byte(image: SparseBundle, index: int, relative_offset: int)
    requires
        0 <= index < image.bands.len(),
        0 <= relative_offset < image.band_size,
    ensures
        media_location(image)(index * image.band_size + relative_offset) == (
        match image.bands[index] {
            None => MediaLocation::Zero,
            Some(source) => if source.content().size <= relative_offset {
                MediaLocation::Zero
            } else {
                MediaLocation::Data { source, offset: relative_offset }
            },
        }),
{
    lemma_block_index(
        index * image.band_size + relative_offset,
        index,
        image.band_size as int,
    );
}

/// The band with an index is the file in the directory "bands" that is named by the index in
/// hexadecimal digits.
pub proof fn lemma_band_file(resolver: SourceResolverReference, info: SparseBundleInfo, index: int)
    requires
        image_with(resolver, info) is Ok,
        0 <= index < number_of_bands(info),
    ensures
        resolver.entry("bands/"@ + number_text(index as nat, 16)) == Ok::<
            Option<DataSourceReference>,
            DriverError,
        >(image_with(resolver, info)->Ok_0.bands[index]),
        number_value(number_text(index as nat, 16), 16, index) == Some(index as u64) || index
            > u64::MAX,
{
    lemma_first_failure_none(number_of_bands(info), band_failure(resolver, info));
    assert(band_failure(resolver, info)(index) is None);
    if index <= u64::MAX {
        lemma_number_read_back(index as nat, 16, index);
    }
}

fn find_property(text: &[char], key: &str, open_mark: &str, close_mark: &str) -> (value: Option<
    Vec<char>,
>)
    ensures
        match value {
            Some(value) => property_value(text@, key@, open_mark@, close_mark@) == Some(value@),
            None => property_value(text@, key@, open_mark@, close_mark@) is None,
        },
{
    let key: Vec<char> = text_chars(key);
    let open_mark: Vec<char> = text_chars(open_mark);
    let close_mark: Vec<char> = text_chars(close_mark);
    let length: usize = text.len();
    let key_at: usize = find_pattern(text, key.as_slice(), 0)?;
    let open_at: usize = find_pattern(text, open_mark.as_slice(), key_at + key.len())?;
    let start: usize = open_at + open_mark.len();
    let end: usize = find_pattern(text, close_mark.as_slice(), start)?;
    let value: &[char] = trim_text(vstd::slice::slice_subrange(text, start, end));
    Some(crate::scan::copy_text(value))
}

fn check_fixed_value(text: &[char], key: &str, value: &str) -> (result: Result<(), DriverError>)
    ensures
        match result {
            Ok(()) => fixed_value_failure(text@, key@, value@) is None,
            Err(error) => fixed_value_failure(text@, key@, value@) == Some(error),
        },
{
    let found: Vec<char> = find_property(text, key, "<string>", "</string>").ok_or(
        DriverError::Missing,
    )?;
    if same_text(found.as_slice(), text_chars(value).as_slice()) {
        Ok(())
    } else {
        Err(DriverError::Unsupported)
    }
}

fn read_number(text: &[char], key: &str, max: u64) -> (result: Result<u64, DriverError>)
    ensures
        result == number_property(text@, key@, max as int),
        result matches Ok(number) ==> 0 < number <= max,
{
    let value: Vec<char> = find_property(text, key, "<integer>", "</integer>").ok_or(
        DriverError::Missing,
    )?;
    let number: u64 = parse_number(value.as_slice(), 10, max).ok_or(DriverError::Invalid)?;
    if number == 0 {
        return Err(DriverError::Invalid);
    }
    Ok(number)
}

fn parse_info(text: &[char]) -> (result: Result<SparseBundleInfo, DriverError>)
    ensures
        result == parsed_info(text@),
        result matches Ok(info) ==> info.band_size > 0,
{
    check_fixed_value(text, "<key>CFBundleInfoDictionaryVersion</key>", "6.0")?;
    check_fixed_value(
        text,
        "<key>diskimage-bundle-type</key>",
        "com.apple.diskimage.sparsebundle",
    )?;
    let band_size: u64 = read_number(text, "<key>band-size</key>", u32::MAX as u64)?;
    let media_size: u64 = read_number(text, "<key>size</key>", u64::MAX)?;
    Ok(SparseBundleInfo { band_size: band_size as u32, media_size })
}

/// Sparsebundle metadata plus opened band sources.
pub struct SparseBundleImage {
    band_size: u32,
    media_size: u64,
    bands: Vec<Option<DataSourceReference>>,
    source_sizes: Vec<u64>,
    band_file_names: Vec<String>,
}

/// The property list of an image.
pub open spec fn info_in_image(image: SparseBundle) -> SparseBundleInfo {
    SparseBundleInfo { band_size: image.band_size, media_size: image.media_size }
}

impl SparseBundleImage {
    #[verifier::type_invariant]
    spec fn well_formed(self) -> bool {
        let info = SparseBundleInfo { band_size: self.band_size, media_size: self.media_size };
        &&& 0 < self.band_size
        &&& self.bands@.len() == number_of_bands(info)
        &&& self.source_sizes@.len() == self.bands@.len()
        &&& self.band_file_names@.len() == self.bands@.len()
        &&& forall|i: int|
            0 <= i < self.bands@.len() ==> match #[trigger] self.bands@[i] {
                Some(source) => {
                    &&& 0 < source.content().size <= used_band_size(info, i)
                    &&& self.source_sizes@[i] == source.content().size
                },
                None => true,
            }
        &&& forall|i: int|
            0 <= i < self.band_file_names@.len() ==> (#[trigger] self.band_file_names@[i])@
                == band_file_name(i)
    }

    /// What is known of the image.
    pub closed spec fn view(&self) -> SparseBundle {
        SparseBundle {
            band_size: self.band_size,
            media_size: self.media_size,
            bands: self.bands@,
        }
    }

    /// Opens a sparsebundle image from a resolver rooted at the bundle directory.
    pub fn open(resolver: &SourceResolverReference) -> (result: Result<Self, DriverError>)
        ensures
            match result {
                Ok(image) => {
                    &&& image_with(*resolver, info_in_image(image@)) == Ok::<
                        SparseBundle,
                        DriverError,
                    >(image@)
                    &&& may_say(resolver.entry("Info.plist"@), info_in_image(image@)) || may_say(
                        resolver.entry("Info.bckup"@),
                        info_in_image(image@),
                    )
                    &&& never_fails(*resolver) ==> image_of(*resolver) == Ok::<
                        SparseBundle,
                        DriverError,
                    >(image@)
                },
                Err(error) => never_fails(*resolver) ==> image_of(*resolver) == Err::<
                    SparseBundle,
                    DriverError,
                >(error),
            },
    {
        let info = Self::read_info_plist(resolver)?;
        Self::open_bands(resolver, info)
    }

    fn open_bands(resolver: &SourceResolverReference, info: SparseBundleInfo) -> (result: Result<
        Self,
        DriverError,
    >)
        requires
            0 < info.band_size,
        ensures
            match result {
                Ok(image) => {
                    &&& image_with(*resolver, info) == Ok::<SparseBundle, DriverError>(image@)
                    &&& info_in_image(image@) == info
                },
                Err(error) => never_fails(*resolver) ==> image_with(*resolver, info) == Err::<
                    SparseBundle,
                    DriverError,
                >(error),
            },
    {
        let ghost failure = band_failure(*resolver, info);
        let ghost count = number_of_bands(info);
        let ghost sources = band_sources(*resolver, info);
        let band_size: u64 = info.band_size as u64;
        let media_size: u64 = info.media_size;
        let mut bands: Vec<Option<DataSourceReference>> = Vec::new();
        let mut source_sizes: Vec<u64> = Vec::new();
        let mut band_file_names: Vec<String> = Vec::new();
        let mut index: u64 = 0;
        let mut logical_offset: u64 = 0;
        proof {
            assert((band_size - 1) / band_size as int == 0) by (nonlinear_arith)
                requires
                    0 < band_size,
            ;
        }
        while logical_offset < media_size
            invariant
                band_size == info.band_size,
                0 < band_size,
                media_size == info.media_size,
                failure == band_failure(*resolver, info),
                count == number_of_bands(info),
                sources == band_sources(*resolver, info),
                logical_offset <= media_size,
                logical_offset < media_size ==> logical_offset == index * band_size,
                index <= logical_offset,
                logical_offset == media_size ==> index == count,
                first_failure(index as nat, failure) is None,
                bands@.len() == index,
                index <= count,
                forall|i: int| 0 <= i < index ==> bands@[i] == #[trigger] sources[i],
                forall|i: int|
                    0 <= i < index ==> match #[trigger] bands@[i] {
                        Some(source) => {
                            &&& 0 < source.content().size <= used_band_size(info, i)
                            &&& source_sizes@[i] == source.content().size
                        },
                        None => true,
                    },
                source_sizes@.len() == index,
                band_file_names@.len() == index,
                forall|i: int|
                    0 <= i < index ==> (#[trigger] band_file_names@[i])@ == band_file_name(i),
            decreases media_size - logical_offset,
        {
            proof {
                lemma_number_of_blocks(media_size as int, band_size as int, index as int);
                if failure(index as int) is Some {
                    lemma_first_failure_at(count, failure, index as nat);
                }
                assert(sources[index as int] == resolver.entry(
                    band_file_name(index as int),
                )->Ok_0);
            }
            let remaining_size: u64 = media_size - logical_offset;
            let logical_size: u64 = if band_size < remaining_size {
                band_size
            } else {
                remaining_size
            };
            let mut name: Vec<char> = text_chars("bands/");
            append_number(&mut name, index, 16);
            let file_name: String = chars_text(name.as_slice());
            let source = resolver.open_source(file_name.as_str())?;
            let mut source_size: u64 = 0;
            if let Some(band_source) = &source {
                source_size = band_source.size()?;
                if source_size == 0 {
                    return Err(DriverError::Unsupported);
                }
                if source_size > logical_size {
                    return Err(DriverError::OutOfBounds);
                }
            }
            bands.push(source);
            source_sizes.push(source_size);
            band_file_names.push(file_name);
            logical_offset = logical_offset + logical_size;
            index = index + 1;
        }
        assert(bands@ =~= sources);
        Ok(
            SparseBundleImage {
                band_size: info.band_size,
                media_size: info.media_size,
                bands,
                source_sizes,
                band_file_names,
            },
        )
    }

    /// Retrieves the logical band size.
    pub fn band_size(&self) -> (band_size: u32)
        ensures
            band_size == self@.band_size,
    {
        self.band_size
    }

    /// Retrieves the logical media size.
    pub fn media_size(&self) -> (media_size: u64)
        ensures
            media_size == self@.media_size,
    {
        self.media_size
    }

    /// Retrieves the number of logical bands.
    pub fn number_of_bands(&self) -> (number_of_bands: usize)
        ensures
            number_of_bands == self@.bands.len(),
    {
        self.bands.len()
    }

    /// Retrieves the logical band file names.
    pub fn band_file_names(&self) -> (names: Vec<&str>)
        ensures
            names@.len() == self@.bands.len(),
            forall|i: int| 0 <= i < names@.len() ==> (#[trigger] names@[i])@ == band_file_name(i),
    {
        proof {
            use_type_invariant(self);
        }
        let mut names: Vec<&str> = Vec::new();
        let mut index: usize = 0;
        while index < self.band_file_names.len()
            invariant
                index <= self.band_file_names@.len(),
                names@.len() == index,
                forall|i: int|
                    0 <= i < self.band_file_names@.len() ==> (#[trigger] self.band_file_names@[i])@
                        == band_file_name(i),
                forall|i: int| 0 <= i < index ==> (#[trigger] names@[i])@ == band_file_name(i),
            decreases self.band_file_names@.len() - index,
        {
            names.push(self.band_file_names[index].as_str());
            index += 1;
        }
        names
    }

    /// Opens the logical media source backed by sparsebundle band files.
    pub fn open_source(&self) -> (result: Result<DataSourceReference, DriverError>)
        ensures
            result is Ok,
            is_composed_medium(result->Ok_0, self@.media_size, media_location(self@)),
    {
        proof {
            use_type_invariant(self);
        }
        let ghost location = media_location(self@);
        let ghost info = info_in_image(self@);
        let ghost count = number_of_bands(info);
        let band_size: u64 = self.band_size as u64;
        let media_size: u64 = self.media_size;
        let total: usize = self.bands.len();
        let mut list = ExtentList::new();
        let mut index: usize = 0;
        let mut logical_offset: u64 = 0;
        proof {
            assert((band_size - 1) / band_size as int == 0) by (nonlinear_arith)
                requires
                    0 < band_size,
            ;
        }
        while logical_offset < media_size
            invariant
                info == info_in_image(self@),
                location == media_location(self@),
                self@.bands == self.bands@,
                band_size == self@.band_size,
                0 < band_size,
                media_size == self@.media_size,
                count == number_of_bands(info),
                total == count,
                self.bands@.len() == count,
                self.source_sizes@.len() == count,
                forall|i: int|
                    0 <= i < self.bands@.len() ==> match #[trigger] self.bands@[i] {
                        Some(source) => {
                            &&& 0 < source.content().size <= used_band_size(info, i)
                            &&& self.source_sizes@[i] == source.content().size
                        },
                        None => true,
                    },
                logical_offset <= media_size,
                logical_offset < media_size ==> logical_offset == index * band_size,
                list.size() == logical_offset,
                forall|k: int|
                    0 <= k < logical_offset ==> #[trigger] list.location(k) == location(k),
            decreases media_size - logical_offset,
        {
            proof {
                lemma_number_of_blocks(media_size as int, band_size as int, index as int);
                assert(self.bands@[index as int] == self@.bands[index as int]);
            }
            let remaining_size: u64 = media_size - logical_offset;
            let logical_size: u64 = if band_size < remaining_size {
                band_size
            } else {
                remaining_size
            };
            let ghost before = list;
            let ghost mut middle = list;
            match &self.bands[index] {
                Some(source) => {
                    let source_size: u64 = self.source_sizes[index];
                    list = list.append_data(source, 0, source_size, false);
                    proof {
                        middle = list;
                    }
                    list = list.append_zero(logical_size - source_size, false);
                },
                None => {
                    list = list.append_zero(logical_size, false);
                },
            }
            proof {
                assert forall|k: int| 0 <= k < logical_offset + logical_size implies #[trigger]
                    list.location(k) == location(k) by {
                    if k < middle.size() {
                        assert(list.location(k) == middle.location(k));
                        if k < logical_offset {
                            assert(middle.location(k) == before.location(k));
                        }
                    }
                    if k >= logical_offset {
                        lemma_block_index(k, index as int, band_size as int);
                    }
                }
            }
            logical_offset = logical_offset + logical_size;
            index = index + 1;
        }
        Ok(list.into_source(Ghost(location)))
    }

    fn read_info_plist(resolver: &SourceResolverReference) -> (result: Result<
        SparseBundleInfo,
        DriverError,
    >)
        ensures
            result matches Ok(info) ==> {
                &&& info.band_size > 0
                &&& may_say(resolver.entry("Info.plist"@), info) || may_say(
                    resolver.entry("Info.bckup"@),
                    info,
                )
            },
            never_fails(*resolver) ==> result == info_of(*resolver),
    {
        match Self::read_info_plist_by_name(resolver, "Info.plist") {
            Ok(info) => Ok(info),
            Err(_) => Self::read_info_plist_by_name(resolver, "Info.bckup"),
        }
    }

    fn read_info_plist_by_name(resolver: &SourceResolverReference, file_name: &str) -> (result:
        Result<SparseBundleInfo, DriverError>)
        ensures
            result matches Ok(info) ==> info.band_size > 0 && may_say(
                resolver.entry(file_name@),
                info,
            ),
            never_fails(*resolver) ==> result == info_in(resolver.entry(file_name@)),
    {
        let source = resolver.open_source(file_name)?;
        let source = source.ok_or(DriverError::Missing)?;
        let size: u64 = source.size()?;
        if size == 0 || size > 0x1_0000 {
            return Err(DriverError::Unsupported);
        }
        let data: Vec<u8> = source.read_all()?;
        assert(is_start_of(data@, source.content()));
        let text: String = match utf8_text(data) {
            Some(text) => text,
            None => return Err(DriverError::Encoding),
        };
        let chars: Vec<char> = text_chars(text.as_str());
        parse_info(chars.as_slice())
    }
}

} // verus!
