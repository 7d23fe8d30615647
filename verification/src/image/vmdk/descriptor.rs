//! VMDK descriptors.

use vstd::prelude::*;
use vstd::utf8::{decode_utf8, valid_utf8};

use crate::bytes::{before_zero_byte, find_zero_byte};
use crate::error::DriverError;
use crate::scan::{
    find_from, find_pattern, find_word, is_space, is_trimmed, is_word, lemma_find_from,
    lemma_found_at, lemma_number_read_back, lemma_number_word, lemma_trimmed, lemma_words,
    lowercase, lowercase_text, matches_at, nth_word, number_text, number_value, parse_number,
    same_text, trim_text, trimmed,
};
use crate::source::data_source::{read_bytes, Content, DataSource, DataSourceReference};
use crate::text::{chars_text, text_chars, utf8_text};

verus! {

/// VMDK disk type.
#[derive(Clone, Copy, Debug, PartialEq, Eq, PartialOrd, Ord, Hash, Structural)]
pub enum VmdkDiskType {
    MonolithicSparse,
    VmfsSparse,
    Unknown,
}

/// Type of an extent.
#[derive(Clone, Copy, Debug, PartialEq, Eq, Structural)]
pub enum VmdkDescriptorExtentType {
    Sparse,
    Unknown,
}

/// What a descriptor says of an extent.
pub struct ExtentInfo {
    pub number_of_sectors: u64,
    pub extent_type: VmdkDescriptorExtentType,
    pub file_name: Option<Seq<char>>,
}

/// An extent of a descriptor.
pub struct VmdkDescriptorExtent {
    pub number_of_sectors: u64,
    pub extent_type: VmdkDescriptorExtentType,
    pub file_name: Option<String>,
}

impl VmdkDescriptorExtent {
    /// What the descriptor says of the extent.
    pub open spec fn view(&self) -> ExtentInfo {
        ExtentInfo {
            number_of_sectors: self.number_of_sectors,
            extent_type: self.extent_type,
            file_name: match self.file_name {
                Some(name) => Some(name@),
                None => None,
            },
        }
    }

    /// Determines whether the name of the file is given, but empty.
    pub fn has_empty_file_name(&self) -> (empty: bool)
        ensures
            empty == (self@.file_name matches Some(name) && name.len() == 0),
    {
        match &self.file_name {
            Some(name) => text_chars(name.as_str()).len() == 0,
            None => false,
        }
    }
}

/// What a descriptor says of a disk, as far as it has been read.
pub struct VmdkDescriptor {
    pub content_identifier: u32,
    pub parent_content_identifier: Option<u32>,
    pub disk_type: VmdkDiskType,
    pub extents: Seq<ExtentInfo>,
    pub in_extent_section: bool,
}

/// A descriptor of which nothing has been read.
pub open spec fn empty_descriptor() -> VmdkDescriptor {
    VmdkDescriptor {
        content_identifier: 0,
        parent_content_identifier: None,
        disk_type: VmdkDiskType::Unknown,
        extents: Seq::empty(),
        in_extent_section: false,
    }
}

/// The end of the line that starts at a position.
pub open spec fn line_end(text: Seq<char>, start: int) -> int {
    match find_from(text, seq!['\n'], start) {
        Some(end) => end,
        None => text.len() as int,
    }
}

/// What stands between the first two quotation marks of a text, if there are two.
pub open spec fn quoted(line: Seq<char>) -> Option<Seq<char>> {
    match find_from(line, seq!['"'], 0) {
        None => None,
        Some(start) => match find_from(line, seq!['"'], start + 1) {
            None => None,
            Some(end) => Some(line.subrange(start + 1, end)),
        },
    }
}

/// What the line of an extent says: its access mode, which has to be "RW", the number of its
/// sectors, its type and, in quotation marks, the name of its file.
pub open spec fn descriptor_extent(line: Seq<char>) -> Result<ExtentInfo, DriverError> {
    if lowercase(nth_word(line, 0)) != "rw"@ {
        Err(DriverError::Unsupported)
    } else {
        match number_value(nth_word(line, 1), 10, u64::MAX as int) {
            None => Err(DriverError::Unsupported),
            Some(number_of_sectors) => Ok(
                ExtentInfo {
                    number_of_sectors,
                    extent_type: if lowercase(nth_word(line, 2)) == "sparse"@ {
                        VmdkDescriptorExtentType::Sparse
                    } else {
                        VmdkDescriptorExtentType::Unknown
                    },
                    file_name: quoted(line),
                },
            ),
        }
    }
}

/// The line of an extent says what was written in it: its access mode, the number of its sectors, its
/// type and, in quotation marks, the name of its file. Case does not matter in the mode and the type.
pub proof fn lemma_extent_line(
    mode: Seq<char>,
    number_of_sectors: u64,
    kind: Seq<char>,
    name: Seq<char>,
    rest: Seq<char>,
)
    requires
        is_word(mode),
        is_word(kind),
        lowercase(mode) == "rw"@,
        !mode.contains('"'),
        !kind.contains('"'),
        !name.contains('"'),
    ensures
        descriptor_extent(
            mode + (seq![' '] + number_text(number_of_sectors as nat, 10) + (seq![' '] + kind
                + seq![' ', '"'])) + name + seq!['"'] + rest,
        ) == Ok::<ExtentInfo, DriverError>(
            ExtentInfo {
                number_of_sectors,
                extent_type: if lowercase(kind) == "sparse"@ {
                    VmdkDescriptorExtentType::Sparse
                } else {
                    VmdkDescriptorExtentType::Unknown
                },
                file_name: Some(name),
            },
        ),
{
    let space = seq![' '];
    let digits = number_text(number_of_sectors as nat, 10);
    let end = seq![' ', '"'] + name + seq!['"'] + rest;
    let line = mode + (space + digits + (space + kind + seq![' ', '"'])) + name + seq!['"'] + rest;
    let first = space + digits + (space + kind + end);
    let second = space + kind + end;
    assert(line =~= Seq::<char>::empty() + mode + first);
    assert(first =~= space + digits + second);
    lemma_words(Seq::empty(), mode, first, 0);
    lemma_words(Seq::empty(), mode, first, 1);
    lemma_number_word(number_of_sectors as nat);
    lemma_words(space, digits, second, 0);
    lemma_words(space, kind, end, 0);
    lemma_number_read_back(number_of_sectors as nat, 10, u64::MAX as int);
    let start = (mode.len() + 1 + digits.len() + 1 + kind.len() + 1) as int;
    let mark = seq!['"'];
    assert(line[start] == '"');
    assert(line.subrange(start, start + 1) =~= mark);
    assert forall|i: int| 0 <= i < start implies !#[trigger] matches_at(line, mark, i) by {
        assert(line.subrange(i, i + 1)[0] == line[i]);
        if i < mode.len() {
            assert(line[i] == mode[i]);
            assert(mode.contains(mode[i]));
        } else if i == mode.len() {
        } else if i < mode.len() + 1 + digits.len() {
            assert(line[i] == digits[i - mode.len() - 1]);
        } else if i == mode.len() + 1 + digits.len() {
        } else if i < start - 1 {
            let k = i - mode.len() - digits.len() - 2;
            assert(line[i] == kind[k]);
            assert(kind.contains(kind[k]));
        }
    }
    lemma_found_at(line, mark, 0, start);
    let stop = start + 1 + name.len();
    assert(line.subrange(stop, stop + 1) =~= mark);
    assert forall|i: int| start + 1 <= i < stop implies !#[trigger] matches_at(line, mark, i) by {
        assert(line.subrange(i, i + 1)[0] == line[i]);
        assert(line[i] == name[i - start - 1]);
        assert(name.contains(name[i - start - 1]));
    }
    lemma_found_at(line, mark, start + 1, stop);
    assert(line.subrange(start + 1, stop) =~= name);
}

/// A text without the quotation marks around it.
pub open spec fn unquoted_end(text: Seq<char>) -> Seq<char>
    decreases text.len(),
{
    if text.len() > 0 && text.last() == '"' {
        unquoted_end(text.drop_last())
    } else {
        text
    }
}

/// A text without the quotation marks around it.
pub open spec fn unquoted(text: Seq<char>) -> Seq<char>
    decreases text.len(),
{
    if text.len() > 0 && text[0] == '"' {
        unquoted(text.skip(1))
    } else {
        unquoted_end(text)
    }
}

/// What is known after a line that gives a key a value.
pub open spec fn after_value(
    descriptor: VmdkDescriptor,
    key: Seq<char>,
    value: Seq<char>,
) -> Result<VmdkDescriptor, DriverError> {
    if key == "cid"@ {
        match number_value(value, 16, u32::MAX as int) {
            None => Err(DriverError::Unsupported),
            Some(identifier) => Ok(
                VmdkDescriptor { content_identifier: identifier as u32, ..descriptor },
            ),
        }
    } else if key == "parentcid"@ {
        match number_value(value, 16, u32::MAX as int) {
            None => Err(DriverError::Unsupported),
            Some(identifier) => if identifier == 0xffff_ffff {
                Ok(descriptor)
            } else {
                Ok(
                    VmdkDescriptor {
                        parent_content_identifier: Some(identifier as u32),
                        ..descriptor
                    },
                )
            },
        }
    } else if key == "createtype"@ {
        Ok(
            VmdkDescriptor {
                disk_type: if lowercase(unquoted(value)) == "monolithicsparse"@ {
                    VmdkDiskType::MonolithicSparse
                } else {
                    VmdkDiskType::Unknown
                },
                ..descriptor
            },
        )
    } else {
        Ok(descriptor)
    }
}

/// Whether a line ends the extent section.
pub open spec fn ends_extents(line: Seq<char>) -> bool {
    ||| lowercase(line) == "# change tracking file"@
    ||| lowercase(line) == "# the disk data base"@
}

/// What is known after a line that is not empty and does not end the descriptor.
pub open spec fn after_line(descriptor: VmdkDescriptor, line: Seq<char>) -> Result<
    VmdkDescriptor,
    DriverError,
> {
    if lowercase(line) == "# extent description"@ {
        Ok(VmdkDescriptor { in_extent_section: true, ..descriptor })
    } else if line[0] == '#' {
        Ok(descriptor)
    } else if descriptor.in_extent_section {
        match descriptor_extent(line) {
            Err(error) => Err(error),
            Ok(extent) => Ok(
                VmdkDescriptor { extents: descriptor.extents.push(extent), ..descriptor },
            ),
        }
    } else {
        match find_from(line, seq!['='], 0) {
            None => Err(DriverError::Invalid),
            Some(at) => after_value(
                descriptor,
                lowercase(trimmed(line.take(at))),
                trimmed(line.skip(at + 1)),
            ),
        }
    }
}

/// A line that gives a key a value, outside of the section of the extents: the part in front of the first
/// equal sign is the key, whatever the case of its letters, and the part behind it the value, both without
/// the white space around them.
pub proof fn lemma_value_line(
    descriptor: VmdkDescriptor,
    key: Seq<char>,
    before: Seq<char>,
    after: Seq<char>,
    value: Seq<char>,
)
    requires
        !descriptor.in_extent_section,
        key.len() > 0,
        key[0] != '#',
        is_trimmed(key),
        is_trimmed(value),
        is_space(before),
        is_space(after),
        !(key + before).contains('='),
        lowercase(key + before + seq!['='] + after + value) != "# extent description"@,
    ensures
        after_line(descriptor, key + before + seq!['='] + after + value) == after_value(
            descriptor,
            lowercase(key),
            value,
        ),
{
    let line = key + before + seq!['='] + after + value;
    let at = (key.len() + before.len()) as int;
    let mark = seq!['='];
    assert(line[0] == key[0]);
    assert(line.subrange(at, at + 1) =~= mark);
    assert forall|i: int| 0 <= i < at implies !#[trigger] matches_at(line, mark, i) by {
        assert(line.subrange(i, i + 1)[0] == line[i]);
        assert(line[i] == (key + before)[i]);
        assert((key + before).contains((key + before)[i]));
    }
    lemma_found_at(line, mark, 0, at);
    let none = Seq::<char>::empty();
    assert(line.take(at) =~= none + key + before);
    lemma_trimmed(none, key, before);
    assert(line.skip(at + 1) =~= after + value + none);
    lemma_trimmed(after, value, none);
}

/// The content identifier and that of the parent are the values of the keys "cid" and "parentcid" in
/// hexadecimal digits. A parent identifier with all bits set stands for none.
pub proof fn lemma_identifier_values(descriptor: VmdkDescriptor, identifier: u32)
    ensures
        after_value(descriptor, "cid"@, number_text(identifier as nat, 16)) == Ok::<
            VmdkDescriptor,
            DriverError,
        >(VmdkDescriptor { content_identifier: identifier, ..descriptor }),
        after_value(descriptor, "parentcid"@, number_text(identifier as nat, 16)) == Ok::<
            VmdkDescriptor,
            DriverError,
        >(
            if identifier == 0xffff_ffff {
                descriptor
            } else {
                VmdkDescriptor { parent_content_identifier: Some(identifier), ..descriptor }
            },
        ),
{
    reveal_strlit("cid");
    reveal_strlit("parentcid");
    assert("cid"@.len() == 3 && "parentcid"@.len() == 9);
    lemma_number_read_back(identifier as nat, 16, u32::MAX as int);
}

/// What is known after a line, without the white space around it, is what is known before the lines
/// behind the end of the line. Empty lines do not count.
pub proof fn lemma_next_line(
    descriptor: VmdkDescriptor,
    text: Seq<char>,
    start: int,
    end: int,
    before: Seq<char>,
    line: Seq<char>,
    after: Seq<char>,
)
    requires
        0 <= start <= end < text.len(),
        text[end] == '\n',
        !text.subrange(start, end).contains('\n'),
        text.subrange(start, end) == before + line + after,
        is_space(before),
        is_space(after),
        is_trimmed(line),
        !descriptor.in_extent_section || !ends_extents(line),
    ensures
        after_lines(descriptor, text, start) == (if line.len() == 0 {
            after_lines(descriptor, text, end + 1)
        } else {
            match after_line(descriptor, line) {
                Err(error) => Err(error),
                Ok(next) => after_lines(next, text, end + 1),
            }
        }),
{
    let mark = seq!['\n'];
    assert(text.subrange(end, end + 1) =~= mark);
    assert forall|i: int| start <= i < end implies !#[trigger] matches_at(text, mark, i) by {
        assert(text.subrange(i, i + 1)[0] == text[i]);
        assert(text.subrange(start, end)[i - start] == text[i]);
        assert(text.subrange(start, end).contains(text.subrange(start, end)[i - start]));
    }
    lemma_found_at(text, mark, start, end);
    lemma_trimmed(before, line, after);
}

/// What is known after the lines from a position on.
pub open spec fn after_lines(descriptor: VmdkDescriptor, text: Seq<char>, start: int) -> Result<
    VmdkDescriptor,
    DriverError,
>
    decreases text.len() + 1 - start,
{
    if start < 0 || start >= text.len() {
        Ok(descriptor)
    } else {
        proof {
            lemma_find_from(text, seq!['\n'], start);
        }
        let line = trimmed(text.subrange(start, line_end(text, start)));
        if line.len() == 0 {
            after_lines(descriptor, text, line_end(text, start) + 1)
        } else if descriptor.in_extent_section && ends_extents(line) {
            Ok(descriptor)
        } else {
            match after_line(descriptor, line) {
                Err(error) => Err(error),
                Ok(next) => after_lines(next, text, line_end(text, start) + 1),
            }
        }
    }
}

/// What a descriptor says. Its first line is "# Disk DescriptorFile", and it has to be that of a
/// monolithic sparse disk.
pub open spec fn descriptor_of(text: Seq<char>) -> Result<VmdkDescriptor, DriverError> {
    let first_line = text.take(line_end(text, 0));
    if lowercase(trimmed(first_line)) != "# disk descriptorfile"@ {
        Err(DriverError::Invalid)
    } else {
        match after_lines(empty_descriptor(), text, line_end(text, 0) + 1) {
            Err(error) => Err(error),
            Ok(descriptor) => if descriptor.disk_type is Unknown {
                Err(DriverError::Unsupported)
            } else {
                Ok(descriptor)
            },
        }
    }
}

/// What the descriptor of the given size at an offset says.
pub open spec fn descriptor_at(content: Content, offset: int, size: u64) -> Result<
    VmdkDescriptor,
    DriverError,
> {
    if size < 21 || size > 0x100_0000 {
        Err(DriverError::Unsupported)
    } else {
        match content.exact(offset, size as nat) {
            Err(error) => Err(error),
            Ok(data) => if valid_utf8(before_zero_byte(data)) {
                descriptor_of(decode_utf8(before_zero_byte(data)))
            } else {
                Err(DriverError::Encoding)
            },
        }
    }
}

/// What has been read of a descriptor.
pub struct DescriptorValues {
    pub content_identifier: u32,
    pub parent_content_identifier: Option<u32>,
    pub disk_type: VmdkDiskType,
    pub extents: Vec<VmdkDescriptorExtent>,
    pub in_extent_section: bool,
}

impl DescriptorValues {
    /// What the descriptor says so far.
    pub open spec fn view(&self) -> VmdkDescriptor {
        VmdkDescriptor {
            content_identifier: self.content_identifier,
            parent_content_identifier: self.parent_content_identifier,
            disk_type: self.disk_type,
            extents: Seq::new(self.extents@.len(), |i: int| self.extents@[i]@),
            in_extent_section: self.in_extent_section,
        }
    }
}

fn equals(text: &[char], literal: &str) -> (same: bool)
    ensures
        same == (text@ == literal@),
{
    same_text(text, text_chars(literal).as_slice())
}

fn equals_lowercase(text: &[char], literal: &str) -> (same: bool)
    ensures
        same == (lowercase(text@) == literal@),
{
    equals(lowercase_text(text).as_slice(), literal)
}

fn find_char(text: &[char], c: char, from: usize) -> (position: Option<usize>)
    requires
        from <= text@.len(),
    ensures
        match position {
            Some(at) => find_from(text@, seq![c], from as int) == Some(at as int) && from <= at
                < text@.len(),
            None => find_from(text@, seq![c], from as int) is None,
        },
{
    let mut pattern: Vec<char> = Vec::new();
    pattern.push(c);
    assert(pattern@ =~= seq![c]);
    find_pattern(text, pattern.as_slice(), from)
}

fn parse_descriptor_extent(line: &[char]) -> (result: Result<VmdkDescriptorExtent, DriverError>)
    ensures
        match result {
            Ok(extent) => descriptor_extent(line@) == Ok::<ExtentInfo, DriverError>(extent@),
            Err(error) => descriptor_extent(line@) == Err::<ExtentInfo, DriverError>(error),
        },
{
    if !equals_lowercase(find_word(line, 0), "rw") {
        return Err(DriverError::Unsupported);
    }
    let number_of_sectors: u64 = match parse_number(find_word(line, 1), 10, u64::MAX) {
        Some(number_of_sectors) => number_of_sectors,
        None => return Err(DriverError::Unsupported),
    };
    let extent_type: VmdkDescriptorExtentType = if equals_lowercase(find_word(line, 2), "sparse") {
        VmdkDescriptorExtentType::Sparse
    } else {
        VmdkDescriptorExtentType::Unknown
    };
    let _length: usize = line.len();
    let file_name: Option<String> = match find_char(line, '"', 0) {
        Some(start) => match find_char(line, '"', start + 1) {
            Some(end) => Some(chars_text(vstd::slice::slice_subrange(line, start + 1, end))),
            None => None,
        },
        None => None,
    };
    Ok(VmdkDescriptorExtent { number_of_sectors, extent_type, file_name })
}

fn unquote(text: &[char]) -> (part: &[char])
    ensures
        part@ == unquoted(text@),
{
    let mut start: usize = 0;
    assert(text@.skip(0) =~= text@);
    while start < text.len() && text[start] == '"'
        invariant
            start <= text@.len(),
            unquoted(text@) == unquoted(text@.skip(start as int)),
        decreases text@.len() - start,
    {
        assert(text@.skip(start as int).skip(1) =~= text@.skip(start + 1));
        start += 1;
    }
    let ghost rest = text@.skip(start as int);
    assert(unquoted(text@) == unquoted_end(rest));
    let mut end: usize = text.len();
    assert(text@.subrange(start as int, end as int) =~= rest);
    while start < end && text[end - 1] == '"'
        invariant
            start <= end <= text@.len(),
            unquoted_end(rest) == unquoted_end(text@.subrange(start as int, end as int)),
        decreases end,
    {
        assert(text@.subrange(start as int, end as int).drop_last() =~= text@.subrange(
            start as int,
            end - 1,
        ));
        end -= 1;
    }
    vstd::slice::slice_subrange(text, start, end)
}

fn read_value(descriptor: DescriptorValues, key: &[char], value: &[char]) -> (result: Result<
    DescriptorValues,
    DriverError,
>)
    ensures
        match result {
            Ok(next) => after_value(descriptor@, key@, value@) == Ok::<VmdkDescriptor, DriverError>(
                next@,
            ),
            Err(error) => after_value(descriptor@, key@, value@) == Err::<
                VmdkDescriptor,
                DriverError,
            >(error),
        },
{
    let mut descriptor = descriptor;
    if equals(key, "cid") {
        match parse_number(value, 16, u32::MAX as u64) {
            Some(identifier) => {
                descriptor.content_identifier = identifier as u32;
            },
            None => return Err(DriverError::Unsupported),
        }
    } else if equals(key, "parentcid") {
        match parse_number(value, 16, u32::MAX as u64) {
            Some(identifier) => {
                if identifier != 0xffff_ffff {
                    descriptor.parent_content_identifier = Some(identifier as u32);
                }
            },
            None => return Err(DriverError::Unsupported),
        }
    } else if equals(key, "createtype") {
        descriptor.disk_type =
        if equals_lowercase(unquote(value), "monolithicsparse") {
            VmdkDiskType::MonolithicSparse
        } else {
            VmdkDiskType::Unknown
        };
    }
    Ok(descriptor)
}

fn read_line(descriptor: DescriptorValues, line: &[char]) -> (result: Result<
    DescriptorValues,
    DriverError,
>)
    requires
        line@.len() > 0,
    ensures
        match result {
            Ok(next) => after_line(descriptor@, line@) == Ok::<VmdkDescriptor, DriverError>(next@),
            Err(error) => after_line(descriptor@, line@) == Err::<VmdkDescriptor, DriverError>(
                error,
            ),
        },
{
    let mut descriptor = descriptor;
    if equals_lowercase(line, "# extent description") {
        descriptor.in_extent_section = true;
        return Ok(descriptor);
    }
    if line[0] == '#' {
        return Ok(descriptor);
    }
    if descriptor.in_extent_section {
        let ghost before = descriptor@;
        let extent = parse_descriptor_extent(line)?;
        let ghost info = extent@;
        descriptor.extents.push(extent);
        assert(descriptor@.extents =~= before.extents.push(info));
        return Ok(descriptor);
    }
    let at: usize = match find_char(line, '=', 0) {
        Some(at) => at,
        None => return Err(DriverError::Invalid),
    };
    let key: &[char] = vstd::slice::slice_subrange(line, 0, at);
    let value: &[char] = vstd::slice::slice_subrange(line, at + 1, line.len());
    assert(key@ =~= line@.take(at as int));
    assert(value@ =~= line@.skip(at + 1));
    let key: Vec<char> = lowercase_text(trim_text(key));
    read_value(descriptor, key.as_slice(), trim_text(value))
}

fn find_line_end(text: &[char], start: usize) -> (end: usize)
    requires
        start <= text@.len(),
    ensures
        end == line_end(text@, start as int),
        start <= end <= text@.len(),
{
    match find_char(text, '\n', start) {
        Some(end) => end,
        None => text.len(),
    }
}

fn read_lines(text: &[char], start: usize) -> (result: Result<DescriptorValues, DriverError>)
    requires
        start <= text@.len(),
    ensures
        match result {
            Ok(descriptor) => after_lines(empty_descriptor(), text@, start as int) == Ok::<
                VmdkDescriptor,
                DriverError,
            >(descriptor@),
            Err(error) => after_lines(empty_descriptor(), text@, start as int) == Err::<
                VmdkDescriptor,
                DriverError,
            >(error),
        },
{
    let mut descriptor = DescriptorValues {
        content_identifier: 0,
        parent_content_identifier: None,
        disk_type: VmdkDiskType::Unknown,
        extents: Vec::new(),
        in_extent_section: false,
    };
    let length: usize = text.len();
    let mut position: usize = start;
    assert(descriptor@.extents =~= Seq::<ExtentInfo>::empty());
    assert(descriptor@ == empty_descriptor());
    while position < length
        invariant
            length == text@.len(),
            position <= length,
            after_lines(empty_descriptor(), text@, start as int) == after_lines(
                descriptor@,
                text@,
                position as int,
            ),
        decreases length - position,
    {
        let end: usize = find_line_end(text, position);
        let line: &[char] = trim_text(vstd::slice::slice_subrange(text, position, end));
        if line.len() > 0 {
            if descriptor.in_extent_section && (equals_lowercase(line, "# change tracking file")
                || equals_lowercase(line, "# the disk data base")) {
                return Ok(descriptor);
            }
            descriptor = read_line(descriptor, line)?;
        }
        if end == length {
            assert(after_lines(descriptor@, text@, end + 1) == Ok::<VmdkDescriptor, DriverError>(
                descriptor@,
            ));
            return Ok(descriptor);
        }
        position = end + 1;
    }
    Ok(descriptor)
}

fn parse_descriptor(text: &[char]) -> (result: Result<DescriptorValues, DriverError>)
    ensures
        match result {
            Ok(descriptor) => descriptor_of(text@) == Ok::<VmdkDescriptor, DriverError>(
                descriptor@,
            ),
            Err(error) => descriptor_of(text@) == Err::<VmdkDescriptor, DriverError>(error),
        },
{
    let end: usize = find_line_end(text, 0);
    let first_line: &[char] = vstd::slice::slice_subrange(text, 0, end);
    assert(first_line@ =~= text@.take(end as int));
    if !equals_lowercase(trim_text(first_line), "# disk descriptorfile") {
        return Err(DriverError::Invalid);
    }
    let start: usize = if end < text.len() {
        end + 1
    } else {
        end
    };
    let descriptor = read_lines(text, start)?;
    if descriptor.disk_type == VmdkDiskType::Unknown {
        return Err(DriverError::Unsupported);
    }
    Ok(descriptor)
}

/// Reads the descriptor of the given size at an offset.
pub fn read_descriptor(source: &DataSourceReference, offset: u64, size: u64) -> (result: Result<
    DescriptorValues,
    DriverError,
>)
    ensures
        match result {
            Ok(descriptor) => descriptor_at(source.content(), offset as int, size) == Ok::<
                VmdkDescriptor,
                DriverError,
            >(descriptor@),
            Err(error) => source.reliable() ==> descriptor_at(
                source.content(),
                offset as int,
                size,
            ) == Err::<VmdkDescriptor, DriverError>(error),
        },
{
    if size < 21 || size > 0x100_0000 {
        return Err(DriverError::Unsupported);
    }
    let mut data: Vec<u8> = read_bytes(source, offset, size as usize)?;
    let end: usize = find_zero_byte(data.as_slice());
    data.truncate(end);
    let text: String = match utf8_text(data) {
        Some(text) => text,
        None => return Err(DriverError::Encoding),
    };
    let chars: Vec<char> = text_chars(text.as_str());
    parse_descriptor(chars.as_slice())
}

} // verus!
