//! Split raw images.

use vstd::prelude::*;

use crate::error::DriverError;
use crate::resolver::source_resolver::{never_fails, SourceResolver, SourceResolverReference};
use crate::scan::{
    append_number, append_significant_digits, copy_text, find_back, find_last_pattern, number_text,
    number_value, parse_number, significant_digits,
};
use crate::image::block_map::lemma_media_content_same;
use crate::source::capabilities::{combined_capabilities, DataSourceCapabilities};
use crate::source::data_source::{DataSource, DataSourceReference};
use crate::source::extent_map::{
    extent_location, extent_reliable, extents_capabilities, extents_location, extents_match,
    lemma_extents_match_push, media_content, part_reliable, ExtentMapEntry, MediaLocation,
};
use crate::source::segmented::{
    segment_extent, segment_extents, SegmentedDataSource, SegmentedSourceSegment,
};
use crate::text::{chars_text, text_chars};

verus! {

/// How the segment files of an image are named.
#[derive(Clone, Copy, Debug, PartialEq, Eq, Structural)]
pub enum SplitRawNamingSchema {
    Alphabetic,
    Numeric,
    XOfN,
}

/// The parts of which the name of a segment file is made.
pub struct SegmentNaming {
    pub schema: SplitRawNamingSchema,
    pub name: Seq<char>,
    pub first_number: u16,
    pub suffix_size: nat,
    pub fixed_count: u16,
}

/// An opened segment file.
pub struct SplitRawSegment {
    pub file_name: Seq<char>,
    pub source: DataSourceReference,
}

/// Whether a text ends with a character.
pub open spec fn ends_with_char(text: Seq<char>, c: char) -> bool {
    text.len() > 0 && text.last() == c
}

/// How the files are named of which one has a name: "1ofN", or a suffix of letters or digits.
pub open spec fn naming_schema(file_name: Seq<char>) -> Option<SplitRawNamingSchema> {
    match find_back(file_name, "1of"@, file_name.len() as int) {
        Some(at) => match number_value(file_name.skip(at + 3), 10, u16::MAX as int) {
            Some(_) => Some(SplitRawNamingSchema::XOfN),
            None => None,
        },
        None => if ends_with_char(file_name, 'a') && ends_with_char(file_name.drop_last(), 'a') {
            Some(SplitRawNamingSchema::Alphabetic)
        } else if ends_with_char(file_name, '0') || ends_with_char(file_name, '1') {
            Some(SplitRawNamingSchema::Numeric)
        } else {
            None
        },
    }
}

/// The number of times that a text has a character at its end, if another character precedes them.
pub open spec fn trailing_count(text: Seq<char>, c: char) -> Option<nat>
    decreases text.len(),
{
    if text.len() == 0 {
        None
    } else if text.last() != c {
        Some(0)
    } else {
        match trailing_count(text.drop_last(), c) {
            Some(count) => Some(count + 1),
            None => None,
        }
    }
}

/// The parts of the name of the first segment file.
pub open spec fn segment_naming(file_name: Seq<char>) -> Option<SegmentNaming> {
    match naming_schema(file_name) {
        None => None,
        Some(schema) => match schema {
            SplitRawNamingSchema::Alphabetic => {
                let suffix_size = match trailing_count(file_name, 'a') {
                    Some(count) => count,
                    None => 0,
                };
                Some(
                    SegmentNaming {
                        schema,
                        name: file_name.take(file_name.len() - suffix_size),
                        first_number: 0,
                        suffix_size,
                        fixed_count: 0,
                    },
                )
            },
            SplitRawNamingSchema::Numeric => {
                let suffix_size = match trailing_count(file_name.drop_last(), '0') {
                    Some(count) => count + 1,
                    None => 1,
                };
                Some(
                    SegmentNaming {
                        schema,
                        name: file_name.take(file_name.len() - suffix_size),
                        first_number: if file_name.last() == '0' {
                            0
                        } else {
                            1
                        },
                        suffix_size,
                        fixed_count: 0,
                    },
                )
            },
            SplitRawNamingSchema::XOfN => {
                let at = find_back(file_name, "1of"@, file_name.len() as int)->0;
                Some(
                    SegmentNaming {
                        schema,
                        name: file_name.take(at),
                        first_number: 0,
                        suffix_size: 0,
                        fixed_count: number_value(
                            file_name.skip(at + 3),
                            10,
                            u16::MAX as int,
                        )->0 as u16,
                    },
                )
            },
        },
    }
}

/// The letter with an index.
pub open spec fn letter(index: nat) -> char {
    ('a' as int + index) as char
}

/// A number in letters, of which zero has none.
pub open spec fn number_letters(value: nat) -> Seq<char>
    decreases value,
{
    if value == 0 {
        Seq::empty()
    } else {
        number_letters(value / 26).push(letter(value % 26))
    }
}

/// The number that letters stand for, each with the value of its place in the alphabet.
pub open spec fn letters_value(letters: Seq<char>) -> int
    decreases letters.len(),
{
    if letters.len() == 0 {
        0
    } else {
        26 * letters_value(letters.drop_last()) + (letters.last() as int - 'a' as int)
    }
}

/// The letters of a number, with any number of the letter of zero in front of them, stand for the number,
/// so that no two segment files have the same name.
pub proof fn lemma_letters_read_back(value: nat, zeros: Seq<char>)
    requires
        forall|i: int| 0 <= i < zeros.len() ==> #[trigger] zeros[i] == 'a',
    ensures
        letters_value(zeros + number_letters(value)) == value,
    decreases value + zeros.len(),
{
    if value == 0 {
        assert(zeros + number_letters(value) =~= zeros);
        if zeros.len() > 0 {
            let front = zeros.drop_last();
            assert forall|i: int| 0 <= i < front.len() implies #[trigger] front[i] == 'a' by {
                assert(zeros[i] == 'a');
            }
            lemma_letters_read_back(value, front);
            assert(front + number_letters(value) =~= front);
            assert(zeros[zeros.len() - 1] == 'a');
        }
    } else {
        lemma_letters_read_back(value / 26, zeros);
        let letters = zeros + number_letters(value);
        assert(letters.drop_last() =~= zeros + number_letters(value / 26));
        let code = ('a' as int + value % 26) as u32;
        vstd::utf8::char_u32_cast(letter(value % 26), code);
        assert(letters.last() == letter(value % 26));
    }
}

/// A suffix of the given size: `digits` after as many of a filling character as needed.
pub open spec fn padded(digits: Seq<char>, size: nat, filling: char) -> Seq<char> {
    Seq::new((size - digits.len()) as nat, |i: int| filling) + digits
}

/// The name of the segment file with a number, which starts at one.
pub open spec fn file_name_of(
    name: Seq<char>,
    number: u16,
    count: u16,
    schema: SplitRawNamingSchema,
    first_number: u16,
    suffix_size: nat,
) -> Result<Seq<char>, DriverError> {
    let index = (number - 1 + first_number) as nat;
    if number == 0 {
        Err(DriverError::Invalid)
    } else {
        match schema {
            SplitRawNamingSchema::Alphabetic => if number_letters(index).len() > suffix_size {
                Err(DriverError::OutOfBounds)
            } else {
                Ok(name + padded(number_letters(index), suffix_size, 'a'))
            },
            SplitRawNamingSchema::Numeric => if significant_digits(index, 10).len() > suffix_size {
                Err(DriverError::OutOfBounds)
            } else {
                Ok(name + padded(significant_digits(index, 10), suffix_size, '0'))
            },
            SplitRawNamingSchema::XOfN => Ok(
                name + number_text(number as nat, 10) + "of"@ + number_text(count as nat, 10),
            ),
        }
    }
}

/// The name of a segment file.
pub open spec fn segment_file_name(naming: SegmentNaming, number: u16) -> Result<
    Seq<char>,
    DriverError,
> {
    file_name_of(
        naming.name,
        number,
        naming.fixed_count,
        naming.schema,
        naming.first_number,
        naming.suffix_size,
    )
}

/// The number of times that a text ends with a character is counted up to another character.
pub proof fn lemma_counted(head: Seq<char>, c: char, count: nat)
    requires
        head.len() > 0,
        head.last() != c,
    ensures
        trailing_count(head + Seq::new(count, |i: int| c), c) == Some(count),
    decreases count,
{
    let text = head + Seq::new(count, |i: int| c);
    if count > 0 {
        let fewer = (count - 1) as nat;
        assert(text.last() == c);
        assert(text.drop_last() =~= head + Seq::new(fewer, |i: int| c));
        lemma_counted(head, c, fewer);
    } else {
        assert(text =~= head);
    }
}

proof fn lemma_trailing_count(text: Seq<char>, c: char)
    ensures
        trailing_count(text, c) matches Some(count) ==> {
            &&& count < text.len()
            &&& forall|i: int| text.len() - count <= i < text.len() ==> text[i] == c
        },
    decreases text.len(),
{
    if text.len() > 0 {
        lemma_trailing_count(text.drop_last(), c);
        assert forall|i: int| 0 <= i < text.len() - 1 implies text[i] == text.drop_last()[i] by {}
    }
}

/// The first segment file of an image has the name with which the image was opened. Where the name
/// gives the number of segments, it has to be written without a sign or leading zeros.
pub proof fn lemma_first_segment_file_name(file_name: Seq<char>)
    requires
        segment_naming(file_name) is Some,
        segment_naming(file_name)->0.schema is XOfN ==> file_name.skip(
            segment_naming(file_name)->0.name.len() as int + 3,
        ) == number_text(segment_naming(file_name)->0.fixed_count as nat, 10),
    ensures
        segment_file_name(segment_naming(file_name)->0, 1) == Ok::<Seq<char>, DriverError>(
            file_name,
        ),
{
    let naming = segment_naming(file_name)->0;
    lemma_trailing_count(file_name, 'a');
    match naming.schema {
        SplitRawNamingSchema::Alphabetic => {
            assert(naming.name + padded(number_letters(0), naming.suffix_size, 'a') =~= file_name);
        },
        SplitRawNamingSchema::Numeric => {
            let front = file_name.drop_last();
            lemma_trailing_count(front, '0');
            assert forall|i: int| 0 <= i < front.len() implies front[i] == file_name[i] by {}
            reveal_with_fuel(significant_digits, 2);
            assert(significant_digits(1, 10) =~= seq!['1']) by {
                assert(1nat / 10 == 0 && 1nat % 10 == 1);
            }
            let digits = significant_digits(naming.first_number as nat, 10);
            assert(naming.name + padded(digits, naming.suffix_size, '0') =~= file_name);
        },
        SplitRawNamingSchema::XOfN => {
            let at = naming.name.len() as int;
            reveal_strlit("1of");
            reveal_strlit("of");
            lemma_find_back(file_name, "1of"@, file_name.len() as int);
            assert(file_name.subrange(at, at + 3) == "1of"@);
            assert(file_name[at] == file_name.subrange(at, at + 3)[0]);
            assert(file_name[at + 1] == file_name.subrange(at, at + 3)[1]);
            assert(file_name[at + 2] == file_name.subrange(at, at + 3)[2]);
            reveal_with_fuel(significant_digits, 2);
            assert(number_text(1, 10) =~= seq!['1']) by {
                assert(1nat / 10 == 0 && 1nat % 10 == 1);
            }
            let count = number_text(naming.fixed_count as nat, 10);
            assert(naming.name + number_text(1, 10) + "of"@ + count =~= file_name) by {
                assert(file_name =~= file_name.take(at + 3) + file_name.skip(at + 3));
            }
        },
    }
}

proof fn lemma_find_back(text: Seq<char>, pattern: Seq<char>, to: int)
    ensures
        find_back(text, pattern, to) matches Some(at) ==> 0 <= at <= to
            && crate::scan::matches_at(text, pattern, at),
    decreases to + 1,
{
    if to >= 0 {
        lemma_find_back(text, pattern, to - 1);
    }
}

/// The size of the medium that segments make up.
pub open spec fn total_size(segments: Seq<SplitRawSegment>) -> int
    decreases segments.len(),
{
    if segments.len() == 0 {
        0
    } else {
        total_size(segments.drop_last()) + segments.last().source.content().size
    }
}

/// The segments of an image of which those before `number` are given. All but the last have the
/// same size. Where their number is not fixed, the first file that is missing ends them.
pub open spec fn segments_from(
    resolver: SourceResolverReference,
    naming: SegmentNaming,
    number: u16,
    segments: Seq<SplitRawSegment>,
) -> Result<Seq<SplitRawSegment>, DriverError>
    decreases u16::MAX - number,
{
    if naming.fixed_count != 0 && number > naming.fixed_count {
        Ok(segments)
    } else {
        match segment_file_name(naming, number) {
            Err(error) => Err(error),
            Ok(file_name) => match resolver.entry(file_name) {
                Err(error) => Err(error),
                Ok(None) => if naming.fixed_count != 0 {
                    Err(DriverError::Missing)
                } else {
                    Ok(segments)
                },
                Ok(Some(source)) => if segments.len() > 0 && segments.last().source.content().size
                    != segments[0].source.content().size {
                    Err(DriverError::Invalid)
                } else if source.content().size == 0 {
                    Err(DriverError::Unsupported)
                } else if total_size(segments) + source.content().size > u64::MAX || number
                    == u16::MAX {
                    Err(DriverError::Overflow)
                } else {
                    segments_from(
                        resolver,
                        naming,
                        (number + 1) as u16,
                        segments.push(SplitRawSegment { file_name, source }),
                    )
                },
            },
        }
    }
}

/// The segments of an image that can be opened, of which there has to be one.
pub open spec fn segments_of(resolver: SourceResolverReference, file_name: Seq<char>) -> Result<
    Seq<SplitRawSegment>,
    DriverError,
> {
    match segment_naming(file_name) {
        None => Err(DriverError::Unsupported),
        Some(naming) => match segments_from(resolver, naming, 1, Seq::empty()) {
            Err(error) => Err(error),
            Ok(segments) => if segments.len() == 0 {
                Err(DriverError::Missing)
            } else {
                Ok(segments)
            },
        },
    }
}

/// Where the byte of a medium at an offset is stored: in the segment that covers it.
pub open spec fn concatenated_location(segments: Seq<SplitRawSegment>, offset: int) -> MediaLocation
    decreases segments.len(),
{
    if segments.len() == 0 {
        MediaLocation::Zero
    } else if offset >= total_size(segments.drop_last()) {
        MediaLocation::Data {
            source: segments.last().source,
            offset: offset - total_size(segments.drop_last()),
        }
    } else {
        concatenated_location(segments.drop_last(), offset)
    }
}

/// Where the bytes of a medium are stored.
pub open spec fn media_location(segments: Seq<SplitRawSegment>) -> spec_fn(int) -> MediaLocation {
    |k: int| concatenated_location(segments, k)
}

proof fn lemma_total_size(segments: Seq<SplitRawSegment>, count: int)
    requires
        0 <= count <= segments.len(),
    ensures
        0 <= total_size(segments.take(count)) <= total_size(segments),
    decreases segments.len(),
{
    if count == segments.len() {
        assert(segments.take(count) =~= segments);
        if count > 0 {
            lemma_total_size(segments.drop_last(), count - 1);
        }
    } else {
        assert(segments.drop_last().take(count) =~= segments.take(count));
        lemma_total_size(segments.drop_last(), count);
    }
}

/// A byte between the start and the end of a segment is stored in it.
pub proof fn lemma_concatenated_location(segments: Seq<SplitRawSegment>, index: int, offset: int)
    requires
        0 <= index < segments.len(),
        total_size(segments.take(index)) <= offset < total_size(segments.take(index + 1)),
    ensures
        concatenated_location(segments, offset) == (MediaLocation::Data {
            source: segments[index].source,
            offset: offset - total_size(segments.take(index)),
        }),
    decreases segments.len(),
{
    let front = segments.drop_last();
    if index == segments.len() - 1 {
        assert(segments.take(index) =~= front);
    } else {
        lemma_total_size(front, index + 1);
        assert(front.take(index) =~= segments.take(index));
        assert(front.take(index + 1) =~= segments.take(index + 1));
        lemma_concatenated_location(front, index, offset);
    }
}

fn count_trailing(text: &[char], c: char) -> (count: Option<usize>)
    ensures
        match count {
            Some(count) => trailing_count(text@, c) == Some(count as nat) && count <= text@.len(),
            None => trailing_count(text@, c) is None,
        },
{
    let mut end: usize = text.len();
    assert(text@.take(end as int) =~= text@);
    while end > 0 && text[end - 1] == c
        invariant
            end <= text@.len(),
            match trailing_count(text@.take(end as int), c) {
                Some(count) => trailing_count(text@, c) == Some((count + text@.len() - end) as nat),
                None => trailing_count(text@, c) is None,
            },
        decreases end,
    {
        assert(text@.take(end as int).drop_last() =~= text@.take(end - 1));
        end -= 1;
    }
    if end == 0 {
        None
    } else {
        Some(text.len() - end)
    }
}

fn append_letters(text: &mut Vec<char>, value: u32)
    ensures
        final(text)@ == old(text)@ + number_letters(value as nat),
    decreases value,
{
    if value == 0 {
        assert(text@ =~= old(text)@ + Seq::<char>::empty());
        return;
    }
    append_letters(text, value / 26);
    let c: char = (0x61 + (value % 26) as u8) as char;
    text.push(c);
    assert(text@ =~= old(text)@ + number_letters(value as nat));
}

/// Appends a suffix of the given size to a name.
fn append_suffix(name: &[char], digits: &[char], size: usize, filling: char) -> (text: Vec<char>)
    requires
        digits@.len() <= size,
    ensures
        text@ == name@ + padded(digits@, size as nat, filling),
{
    let mut text: Vec<char> = copy_text(name);
    let mut count: usize = size - digits.len();
    let ghost fill = (size - digits@.len()) as nat;
    while count > 0
        invariant
            count <= fill,
            text@ == name@ + Seq::new((fill - count) as nat, |i: int| filling),
        decreases count,
    {
        text.push(filling);
        count -= 1;
        assert(text@ =~= name@ + Seq::new((fill - count) as nat, |i: int| filling));
    }
    let mut index: usize = 0;
    while index < digits.len()
        invariant
            index <= digits@.len(),
            text@ == name@ + Seq::new(fill, |i: int| filling) + digits@.take(index as int),
        decreases digits@.len() - index,
    {
        text.push(digits[index]);
        index += 1;
        assert(text@ =~= name@ + Seq::new(fill, |i: int| filling) + digits@.take(index as int));
    }
    assert(text@ =~= name@ + padded(digits@, size as nat, filling));
    text
}

/// The parts of which the name of a segment file is made, as they were read from a name.
struct NamingValues {
    schema: SplitRawNamingSchema,
    name: Vec<char>,
    first_number: u16,
    suffix_size: usize,
    fixed_count: u16,
}

impl NamingValues {
    spec fn view(&self) -> SegmentNaming {
        SegmentNaming {
            schema: self.schema,
            name: self.name@,
            first_number: self.first_number,
            suffix_size: self.suffix_size as nat,
            fixed_count: self.fixed_count,
        }
    }
}

/// Split raw image metadata plus opened segment sources.
pub struct SplitRawImage {
    file_names: Vec<String>,
    sources: Vec<DataSourceReference>,
    sizes: Vec<u64>,
    media_size: u64,
}

/// The segments with the given names and sources.
spec fn zipped(file_names: Seq<String>, sources: Seq<DataSourceReference>) -> Seq<SplitRawSegment> {
    Seq::new(
        file_names.len(),
        |i: int| SplitRawSegment { file_name: file_names[i]@, source: sources[i] },
    )
}

impl SplitRawImage {
    #[verifier::type_invariant]
    spec fn well_formed(self) -> bool {
        &&& self.sources@.len() == self.file_names@.len()
        &&& self.sizes@.len() == self.file_names@.len()
        &&& 0 < self.file_names@.len()
        &&& forall|i: int|
            0 <= i < self.sizes@.len() ==> #[trigger] self.sizes@[i]
                == self.sources@[i].content().size && 0 < self.sizes@[i]
        &&& self.media_size == total_size(zipped(self.file_names@, self.sources@))
    }

    /// The segments of the image.
    pub closed spec fn view(&self) -> Seq<SplitRawSegment> {
        zipped(self.file_names@, self.sources@)
    }

    /// Opens a split raw image from a resolver and first segment file name.
    pub fn open(resolver: &SourceResolverReference, file_name: &str) -> (result: Result<
        Self,
        DriverError,
    >)
        ensures
            match result {
                Ok(image) => segments_of(*resolver, file_name@) == Ok::<
                    Seq<SplitRawSegment>,
                    DriverError,
                >(image@),
                Err(error) => never_fails(*resolver) ==> segments_of(*resolver, file_name@)
                    == Err::<Seq<SplitRawSegment>, DriverError>(error),
            },
    {
        let naming = Self::parse_segment_naming(file_name).ok_or(DriverError::Unsupported)?;
        let ghost whole = segments_from(*resolver, naming@, 1, Seq::empty());
        let mut file_names: Vec<String> = Vec::new();
        let mut sources: Vec<DataSourceReference> = Vec::new();
        let mut sizes: Vec<u64> = Vec::new();
        let mut media_size: u64 = 0;
        let mut number: u16 = 1;
        assert(zipped(file_names@, sources@) =~= Seq::<SplitRawSegment>::empty());

        loop
            invariant_except_break
                whole == segments_from(
                    *resolver,
                    naming@,
                    number,
                    zipped(file_names@, sources@),
                ),
            invariant
                segment_naming(file_name@) == Some(naming@),
                whole == segments_from(*resolver, naming@, 1, Seq::empty()),
                1 <= number,
                sources@.len() == file_names@.len(),
                sizes@.len() == file_names@.len(),
                forall|i: int|
                    0 <= i < sizes@.len() ==> #[trigger] sizes@[i] == sources@[i].content().size
                        && 0 < sizes@[i],
                media_size == total_size(zipped(file_names@, sources@)),
            ensures
                whole == Ok::<Seq<SplitRawSegment>, DriverError>(zipped(file_names@, sources@)),
            decreases u16::MAX - number,
        {
            let ghost segments = zipped(file_names@, sources@);
            if naming.fixed_count != 0 && number > naming.fixed_count {
                break;
            }
            let segment_file_name: String = Self::get_segment_file_name(
                naming.name.as_slice(),
                number,
                naming.fixed_count,
                naming.schema,
                naming.first_number,
                naming.suffix_size,
            )?;
            let source = resolver.open_source(segment_file_name.as_str())?;
            let source: DataSourceReference = match source {
                Some(source) => source,
                None => {
                    if naming.fixed_count != 0 {
                        return Err(DriverError::Missing);
                    }
                    break;
                },
            };
            if sizes.len() > 0 && sizes[sizes.len() - 1] != sizes[0] {
                assert(segments.last().source == sources@[sources@.len() - 1]);
                assert(segments[0].source == sources@[0]);
                return Err(DriverError::Invalid);
            }
            let size: u64 = source.size()?;
            if size == 0 {
                return Err(DriverError::Unsupported);
            }
            let next_size: u64 = media_size.checked_add(size).ok_or(DriverError::Overflow)?;
            let next_number: u16 = number.checked_add(1).ok_or(DriverError::Overflow)?;
            let ghost segment = SplitRawSegment { file_name: segment_file_name@, source };
            file_names.push(segment_file_name);
            sources.push(source);
            sizes.push(size);
            proof {
                assert(zipped(file_names@, sources@) =~= segments.push(segment));
                assert(segments.push(segment).drop_last() =~= segments);
            }
            media_size = next_size;
            number = next_number;
        }
        if file_names.len() == 0 {
            return Err(DriverError::Missing);
        }
        Ok(SplitRawImage { file_names, sources, sizes, media_size })
    }

    /// Retrieves the total logical media size.
    pub fn media_size(&self) -> (media_size: u64)
        ensures
            media_size == total_size(self@),
    {
        proof {
            use_type_invariant(self);
        }
        self.media_size
    }

    /// Retrieves the expected size of full-sized segments.
    pub fn segment_size(&self) -> (segment_size: u64)
        ensures
            segment_size == self@[0].source.content().size,
    {
        proof {
            use_type_invariant(self);
        }
        self.sizes[0]
    }

    /// Retrieves the number of opened segments.
    pub fn number_of_segments(&self) -> (number_of_segments: usize)
        ensures
            number_of_segments == self@.len(),
    {
        self.file_names.len()
    }

    /// Opens the logical image source backed by the segment sequence.
    pub fn open_source(&self) -> (result: Result<DataSourceReference, DriverError>)
        ensures
            match result {
                Ok(logical) => {
                    &&& logical.content() == media_content(
                        total_size(self@) as nat,
                        media_location(self@),
                    )
                    &&& (forall|i: int|
                        0 <= i < self@.len() ==> #[trigger] self@[i].source.reliable())
                        ==> logical.reliable() && logical.exhaustive()
                    &&& forall|offset: int, length: int|
                        part_reliable(
                            total_size(self@) as nat,
                            media_location(self@),
                            offset,
                            length,
                        ) ==> #[trigger] logical.answers(offset, length)
                    &&& logical.measurable()
                    &&& logical.spec_capabilities() == combined_capabilities(
                        Seq::new(self@.len(), |i: int| self@[i].source.spec_capabilities()),
                    )
                    &&& logical.spec_telemetry_name() == Some("segmented"@)
                    &&& logical.spec_origin_path() is None
                },
                Err(_) => false,
            },
    {
        proof {
            use_type_invariant(self);
        }
        let ghost all = self@;
        let ghost location = media_location(all);
        let mut segments: Vec<SegmentedSourceSegment> = Vec::new();
        let mut offset: u64 = 0;
        let mut index: usize = 0;
        proof {
            lemma_total_size(all, 0);
            assert(all.take(0) =~= Seq::<SplitRawSegment>::empty());
            assert(segment_extents(segments@) =~= Seq::<ExtentMapEntry>::empty());
        }
        while index < self.sources.len()
            invariant
                all == zipped(self.file_names@, self.sources@),
                location == media_location(all),
                self.sources@.len() == self.file_names@.len(),
                self.sizes@.len() == self.file_names@.len(),
                forall|i: int|
                    0 <= i < self.sizes@.len() ==> #[trigger] self.sizes@[i]
                        == self.sources@[i].content().size && 0 < self.sizes@[i],
                self.media_size == total_size(all),
                index <= self.sources@.len(),
                offset == total_size(all.take(index as int)),
                segments@.len() == index,
                forall|i: int|
                    0 <= i < index ==> (#[trigger] segments@[i]).source == all[i].source
                        && segments@[i].source_offset == 0 && segments@[i].size
                        == all[i].source.content().size,
                extents_match(segment_extents(segments@), offset, location),
            decreases self.sources@.len() - index,
        {
            let size: u64 = self.sizes[index];
            let segment = SegmentedSourceSegment {
                logical_offset: offset,
                size,
                source: self.sources[index].clone(),
                source_offset: 0,
            };
            let ghost extent = segment_extent(segment);
            let ghost before = segment_extents(segments@);
            proof {
                lemma_total_size(all, index + 1);
                assert(all.take(index + 1).drop_last() =~= all.take(index as int));
                assert(all.take(index + 1).last() == all[index as int]);
                assert forall|k: int| offset <= k < offset + size implies #[trigger]
                    extent_location(extent, k) == location(k) by {
                    lemma_concatenated_location(all, index as int, k);
                }
                lemma_extents_match_push(before, offset, extent, location);
            }
            segments.push(segment);
            assert(segment_extents(segments@) =~= before.push(extent));
            offset = offset + size;
            index += 1;
        }
        let ghost extents = segment_extents(segments@);
        proof {
            assert(all.take(index as int) =~= all);
            lemma_media_content_same(
                offset as nat,
                location,
                |k: int| extents_location(extents, k),
            );
            lemma_all_data_capabilities(extents);
            let capabilities = Seq::new(all.len(), |i: int| all[i].source.spec_capabilities());
            assert(extents_capabilities(extents) =~= capabilities);
            if forall|i: int| 0 <= i < all.len() ==> #[trigger] all[i].source.reliable() {
                assert forall|i: int| 0 <= i < extents.len() implies #[trigger] extent_reliable(
                    extents[i],
                ) by {
                    assert(all[i].source.reliable());
                    assert(segments@[i].source == all[i].source);
                }
            }
        }
        let source = SegmentedDataSource::new(segments)?;
        Ok(source.into_reference())
    }

    /// Retrieves the opened segment file names.
    pub fn segment_file_names(&self) -> (names: Vec<&str>)
        ensures
            names@.len() == self@.len(),
            forall|i: int| 0 <= i < names@.len() ==> (#[trigger] names@[i])@ == self@[i].file_name,
    {
        let mut names: Vec<&str> = Vec::new();
        let mut index: usize = 0;
        while index < self.file_names.len()
            invariant
                index <= self.file_names@.len(),
                self@ == zipped(self.file_names@, self.sources@),
                names@.len() == index,
                forall|i: int|
                    0 <= i < names@.len() ==> (#[trigger] names@[i])@ == self@[i].file_name,
            decreases self.file_names@.len() - index,
        {
            names.push(self.file_names[index].as_str());
            index += 1;
        }
        names
    }

    fn parse_segment_naming(file_name: &str) -> (naming: Option<NamingValues>)
        ensures
            match naming {
                Some(naming) => segment_naming(file_name@) == Some(naming@),
                None => segment_naming(file_name@) is None,
            },
    {
        let schema: SplitRawNamingSchema = Self::get_segment_file_naming_schema(file_name)?;
        let chars: Vec<char> = text_chars(file_name);
        let chars: &[char] = chars.as_slice();
        let length: usize = chars.len();
        match schema {
            SplitRawNamingSchema::Alphabetic => {
                let suffix_size: usize = match count_trailing(chars, 'a') {
                    Some(count) => count,
                    None => 0,
                };
                let name: &[char] = vstd::slice::slice_subrange(chars, 0, length - suffix_size);
                assert(name@ =~= file_name@.take(length - suffix_size));
                Some(
                    NamingValues {
                        schema,
                        name: copy_text(name),
                        first_number: 0,
                        suffix_size,
                        fixed_count: 0,
                    },
                )
            },
            SplitRawNamingSchema::Numeric => {
                let first_number: u16 = if chars[length - 1] == '0' {
                    0
                } else {
                    1
                };
                let front: &[char] = vstd::slice::slice_subrange(chars, 0, length - 1);
                assert(front@ =~= file_name@.drop_last());
                let suffix_size: usize = match count_trailing(front, '0') {
                    Some(count) => count + 1,
                    None => 1,
                };
                let name: &[char] = vstd::slice::slice_subrange(chars, 0, length - suffix_size);
                assert(name@ =~= file_name@.take(length - suffix_size));
                Some(
                    NamingValues {
                        schema,
                        name: copy_text(name),
                        first_number,
                        suffix_size,
                        fixed_count: 0,
                    },
                )
            },
            SplitRawNamingSchema::XOfN => {
                let pattern: Vec<char> = text_chars("1of");
                proof {
                    reveal_strlit("1of");
                }
                let at: usize = find_last_pattern(chars, pattern.as_slice())?;
                let name: &[char] = vstd::slice::slice_subrange(chars, 0, at);
                let rest: &[char] = vstd::slice::slice_subrange(chars, at + 3, length);
                assert(name@ =~= file_name@.take(at as int));
                assert(rest@ =~= file_name@.skip(at + 3));
                let count: u64 = parse_number(rest, 10, u16::MAX as u64)?;
                Some(
                    NamingValues {
                        schema,
                        name: copy_text(name),
                        first_number: 0,
                        suffix_size: 0,
                        fixed_count: count as u16,
                    },
                )
            },
        }
    }

    /// Determines the name of the segment file with a number.
    pub fn get_segment_file_name(
        name: &[char],
        segment_number: u16,
        number_of_segment_files: u16,
        naming_schema: SplitRawNamingSchema,
        name_first_segment_number: u16,
        name_suffix_size: usize,
    ) -> (result: Result<String, DriverError>)
        ensures
            match result {
                Ok(file_name) => file_name_of(
                    name@,
                    segment_number,
                    number_of_segment_files,
                    naming_schema,
                    name_first_segment_number,
                    name_suffix_size as nat,
                ) == Ok::<Seq<char>, DriverError>(file_name@),
                Err(error) => file_name_of(
                    name@,
                    segment_number,
                    number_of_segment_files,
                    naming_schema,
                    name_first_segment_number,
                    name_suffix_size as nat,
                ) == Err::<Seq<char>, DriverError>(error),
            },
    {
        if segment_number == 0 {
            return Err(DriverError::Invalid);
        }
        let index: u32 = segment_number as u32 - 1 + name_first_segment_number as u32;
        match naming_schema {
            SplitRawNamingSchema::Alphabetic => {
                let mut letters: Vec<char> = Vec::new();
                append_letters(&mut letters, index);
                assert(letters@ =~= number_letters(index as nat));
                if letters.len() > name_suffix_size {
                    return Err(DriverError::OutOfBounds);
                }
                let text: Vec<char> = append_suffix(
                    name,
                    letters.as_slice(),
                    name_suffix_size,
                    'a',
                );
                Ok(chars_text(text.as_slice()))
            },
            SplitRawNamingSchema::Numeric => {
                let mut digits: Vec<char> = Vec::new();
                append_significant_digits(&mut digits, index as u64, 10);
                assert(digits@ =~= significant_digits(index as nat, 10));
                if digits.len() > name_suffix_size {
                    return Err(DriverError::OutOfBounds);
                }
                let text: Vec<char> = append_suffix(
                    name,
                    digits.as_slice(),
                    name_suffix_size,
                    '0',
                );
                Ok(chars_text(text.as_slice()))
            },
            SplitRawNamingSchema::XOfN => {
                let mut text: Vec<char> = copy_text(name);
                append_number(&mut text, segment_number as u64, 10);
                text.push('o');
                text.push('f');
                proof {
                    reveal_strlit("of");
                    assert(text@ =~= name@ + number_text(segment_number as nat, 10) + "of"@);
                }
                append_number(&mut text, number_of_segment_files as u64, 10);
                Ok(chars_text(text.as_slice()))
            },
        }
    }

    /// Determines how the segment files are named of which one has a name.
    pub fn get_segment_file_naming_schema(file_name: &str) -> (schema: Option<
        SplitRawNamingSchema,
    >)
        ensures
            schema == naming_schema(file_name@),
    {
        let chars: Vec<char> = text_chars(file_name);
        let chars: &[char] = chars.as_slice();
        let length: usize = chars.len();
        let pattern: Vec<char> = text_chars("1of");
        proof {
            reveal_strlit("1of");
        }
        match find_last_pattern(chars, pattern.as_slice()) {
            Some(at) => {
                let rest: &[char] = vstd::slice::slice_subrange(chars, at + 3, length);
                assert(rest@ =~= file_name@.skip(at + 3));
                match parse_number(rest, 10, u16::MAX as u64) {
                    Some(_) => Some(SplitRawNamingSchema::XOfN),
                    None => None,
                }
            },
            None => if length >= 2 && chars[length - 1] == 'a' && chars[length - 2] == 'a' {
                Some(SplitRawNamingSchema::Alphabetic)
            } else if length >= 1 && (chars[length - 1] == '0' || chars[length - 1] == '1') {
                Some(SplitRawNamingSchema::Numeric)
            } else {
                None
            },
        }
    }
}

proof fn lemma_all_data_capabilities(extents: Seq<ExtentMapEntry>)
    requires
        forall|i: int| 0 <= i < extents.len() ==> #[trigger] extents[i].target is Data,
    ensures
        extents_capabilities(extents) == Seq::new(
            extents.len(),
            |i: int| extents[i].target->source.spec_capabilities(),
        ),
    decreases extents.len(),
{
    let list = Seq::new(
        extents.len(),
        |i: int| extents[i].target->source.spec_capabilities(),
    );
    if extents.len() > 0 {
        let front = extents.drop_last();
        assert forall|i: int| 0 <= i < front.len() implies #[trigger] front[i].target is Data by {
            assert(extents[i].target is Data);
        }
        lemma_all_data_capabilities(front);
        assert(extents[extents.len() - 1].target is Data);
        assert(list =~= extents_capabilities(extents));
    } else {
        assert(list =~= Seq::<DataSourceCapabilities>::empty());
    }
}

} // verus!
