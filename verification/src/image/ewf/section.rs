//! Sections of EWF segment files.

use vstd::prelude::*;

use crate::bytes::{
    holds_le, lemma_holds_le, read_u16_le, read_u32_le, read_u64_be, read_u64_le, u16_le, u32_le,
    u64_be, u64_le,
};
use crate::checksum::{adler32, adler32_of};
use crate::error::DriverError;
use crate::source::data_source::{
    lemma_holds_in, read_bytes, Content, DataSource, DataSourceReference,
};

verus! {

/// What a section holds.
#[derive(Clone, Copy, Debug, PartialEq, Eq, Structural)]
pub enum EwfSectionKind {
    Digest,
    Done,
    Hash,
    Next,
    Other,
    Sectors,
    Table,
    Volume,
}

/// A section of a segment file.
#[derive(Clone, Copy, Debug, PartialEq, Eq, Structural)]
pub struct EwfSection {
    pub file_offset: u64,
    pub kind: EwfSectionKind,
    pub next_offset: u64,
    pub size: u64,
}

/// What a section holds whose type is stored in two halves of eight characters each. The types
/// are "digest", "done", "hash", "next", "sectors", "table", "disk" and "volume".
pub open spec fn kind_of(high: u64, low: u64) -> EwfSectionKind {
    if low != 0 {
        EwfSectionKind::Other
    } else if high == 0x6469_6765_7374_0000 {
        EwfSectionKind::Digest
    } else if high == 0x646f_6e65_0000_0000 {
        EwfSectionKind::Done
    } else if high == 0x6861_7368_0000_0000 {
        EwfSectionKind::Hash
    } else if high == 0x6e65_7874_0000_0000 {
        EwfSectionKind::Next
    } else if high == 0x7365_6374_6f72_7300 {
        EwfSectionKind::Sectors
    } else if high == 0x7461_626c_6500_0000 {
        EwfSectionKind::Table
    } else if high == 0x6469_736b_0000_0000 || high == 0x766f_6c75_6d65_0000 {
        EwfSectionKind::Volume
    } else {
        EwfSectionKind::Other
    }
}

/// Whether a section is the last one of its segment file.
pub open spec fn is_final(kind: EwfSectionKind) -> bool {
    kind is Done || kind is Next
}

/// Whether data is followed by its Adler-32.
pub open spec fn has_checksum(data: Seq<u8>, start: int, end: int) -> bool {
    u32_le(data, end) == adler32_of(1, data.subrange(start, end))
}

/// The section at an offset. The size is that up to the next section, and may be left out. The
/// last section refers to itself.
pub open spec fn section_at(content: Content, offset: u64) -> Result<EwfSection, DriverError> {
    match content.exact(offset as int, 76) {
        Err(error) => Err(error),
        Ok(data) => {
            let kind = kind_of(u64_be(data, 0), u64_be(data, 8));
            let next_offset = u64_le(data, 16);
            let size = u64_le(data, 24);
            let expected = if is_final(kind) {
                76
            } else {
                next_offset - offset
            };
            if !has_checksum(data, 0, 72) {
                Err(DriverError::ChecksumMismatch)
            } else if is_final(kind) && next_offset != offset {
                Err(DriverError::Unsupported)
            } else if expected < 76 || (size != 0 && size != expected) {
                Err(DriverError::Unsupported)
            } else {
                Ok(EwfSection { file_offset: offset, kind, next_offset, size: expected as u64 })
            }
        },
    }
}

/// The sections of a segment file of which those before `offset` are given. They end with the
/// file.
pub open spec fn sections_from(
    content: Content,
    offset: u64,
    sections: Seq<EwfSection>,
) -> Result<Seq<EwfSection>, DriverError>
    decreases u64::MAX - offset,
{
    if offset >= content.size {
        if offset == content.size {
            Ok(sections)
        } else {
            Err(DriverError::Unsupported)
        }
    } else {
        match section_at(content, offset) {
            Err(error) => Err(error),
            Ok(section) => if is_final(section.kind) {
                if offset + 76 > u64::MAX {
                    Err(DriverError::Overflow)
                } else if offset + 76 != content.size {
                    Err(DriverError::Unsupported)
                } else {
                    Ok(sections.push(section))
                }
            } else if section.next_offset <= offset {
                Err(DriverError::Unsupported)
            } else {
                sections_from(content, section.next_offset, sections.push(section))
            },
        }
    }
}

/// The number of a segment file. The file starts with the signature "EVF\x09\x0d\x0a\xff\x00".
pub open spec fn segment_number_of(content: Content) -> Result<u16, DriverError> {
    match content.exact(0, 13) {
        Err(error) => Err(error),
        Ok(data) => if u64_be(data, 0) != 0x4556_4609_0d0a_ff00 || data[8] != 1 || data[11] != 0
            || data[12] != 0 {
            Err(DriverError::Unsupported)
        } else {
            Ok(u16_le(data, 9))
        },
    }
}

/// The sections of a segment file.
pub open spec fn sections_of(content: Content) -> Result<Seq<EwfSection>, DriverError> {
    if content.size < 13 {
        Err(DriverError::Unsupported)
    } else {
        sections_from(content, 13, Seq::empty())
    }
}

/// The data of a section.
pub open spec fn section_data(content: Content, section: EwfSection) -> Result<
    Seq<u8>,
    DriverError,
> {
    if section.size - 76 > usize::MAX {
        Err(DriverError::TooLarge)
    } else {
        content.exact(section.file_offset + 76, (section.size - 76) as nat)
    }
}

/// Whether a section lies in front of the end of the file.
pub open spec fn is_bounded(section: EwfSection) -> bool {
    76 <= section.size && section.file_offset + section.size <= u64::MAX
}

/// Sections follow each other: every section starts where the one before it ends, and the first
/// one after the file header.
pub proof fn lemma_sections_contiguous(
    content: Content,
    offset: u64,
    sections: Seq<EwfSection>,
    index: int,
)
    requires
        sections_from(content, offset, sections) is Ok,
        forall|i: int|
            0 < i < sections.len() ==> (#[trigger] sections[i]).file_offset == sections[i
                - 1].file_offset + sections[i - 1].size,
        sections.len() > 0 ==> sections.last().file_offset + sections.last().size == offset,
        0 < index < sections_from(content, offset, sections)->Ok_0.len(),
    ensures
        sections_from(content, offset, sections)->Ok_0[index].file_offset == sections_from(
            content,
            offset,
            sections,
        )->Ok_0[index - 1].file_offset + sections_from(content, offset, sections)->Ok_0[index
            - 1].size,
    decreases u64::MAX - offset,
{
    if offset < content.size {
        let section = section_at(content, offset)->Ok_0;
        if !is_final(section.kind) {
            lemma_sections_contiguous(
                content,
                section.next_offset,
                sections.push(section),
                index,
            );
        }
    }
}

/// Whether a section with a type is of a kind.
pub open spec fn is_named(name: Seq<u8>, kind: EwfSectionKind) -> bool {
    match kind {
        EwfSectionKind::Digest => name == seq![0x64u8, 0x69u8, 0x67u8, 0x65u8, 0x73u8, 0x74u8],
        EwfSectionKind::Done => name == seq![0x64u8, 0x6fu8, 0x6eu8, 0x65u8],
        EwfSectionKind::Hash => name == seq![0x68u8, 0x61u8, 0x73u8, 0x68u8],
        EwfSectionKind::Next => name == seq![0x6eu8, 0x65u8, 0x78u8, 0x74u8],
        EwfSectionKind::Sectors => name == seq![
            0x73u8,
            0x65u8,
            0x63u8,
            0x74u8,
            0x6fu8,
            0x72u8,
            0x73u8,
        ],
        EwfSectionKind::Table => name == seq![0x74u8, 0x61u8, 0x62u8, 0x6cu8, 0x65u8],
        EwfSectionKind::Volume => name == seq![0x64u8, 0x69u8, 0x73u8, 0x6bu8] || name == seq![
            0x76u8,
            0x6fu8,
            0x6cu8,
            0x75u8,
            0x6du8,
            0x65u8,
        ],
        EwfSectionKind::Other => false,
    }
}

/// Whether a section header is stored at an offset: its type in 16 bytes, in little-endian order the
/// offset of the next section and its size, and the Adler-32 of these 72 bytes.
pub open spec fn holds_section(
    content: Content,
    offset: int,
    name: Seq<u8>,
    next_offset: int,
    size: int,
) -> bool {
    let data = content.window(offset, 76);
    &&& content.has(offset, 76)
    &&& name.len() <= 16
    &&& forall|i: int| 0 <= i < name.len() ==> data[i] == #[trigger] name[i]
    &&& forall|i: int| name.len() <= i < 16 ==> #[trigger] data[i] == 0
    &&& holds_le(data, 16, 8, next_offset)
    &&& holds_le(data, 24, 8, size)
    &&& holds_le(data, 72, 4, adler32_of(1, data.take(72)) as int)
}

/// A section that is stored is read back: its kind is the one of its type, and it goes up to the next
/// section. The last one of a file refers to itself and has only a header.
pub proof fn lemma_section_stored(
    content: Content,
    offset: u64,
    name: Seq<u8>,
    kind: EwfSectionKind,
    next_offset: u64,
    size: int,
)
    requires
        holds_section(content, offset as int, name, next_offset as int, size),
        is_named(name, kind),
        if kind is Done || kind is Next {
            next_offset == offset && (size == 0 || size == 76)
        } else {
            offset + 76 <= next_offset && (size == 0 || size == next_offset - offset)
        },
    ensures
        section_at(content, offset) == Ok::<EwfSection, DriverError>(
            EwfSection {
                file_offset: offset,
                kind,
                next_offset,
                size: if kind is Done || kind is Next {
                    76
                } else {
                    (next_offset - offset) as u64
                },
            },
        ),
{
    broadcast use lemma_holds_le;

    let data = content.window(offset as int, 76);
    lemma_kind(data, name, kind);
    assert(data.subrange(0, 72) =~= data.take(72));
}

proof fn lemma_kind(data: Seq<u8>, name: Seq<u8>, kind: EwfSectionKind)
    requires
        is_named(name, kind),
        forall|i: int| 0 <= i < name.len() ==> data[i] == #[trigger] name[i],
        forall|i: int| name.len() <= i < 16 ==> #[trigger] data[i] == 0,
    ensures
        kind_of(u64_be(data, 0), u64_be(data, 8)) == kind,
{
    assert(u64_be(data, 8) == 0) by {
        assert(data[8] == 0 && data[9] == 0 && data[10] == 0 && data[11] == 0);
        assert(data[12] == 0 && data[13] == 0 && data[14] == 0 && data[15] == 0);
    }
    assert(forall|i: int|
        0 <= i < 8 ==> #[trigger] data[i] == (if i < name.len() {
            name[i]
        } else {
            0
        }));
    match kind {
        EwfSectionKind::Digest => {
            assert(u64_be(data, 0) == 0x6469_6765_7374_0000);
        },
        EwfSectionKind::Done => {
            assert(u64_be(data, 0) == 0x646f_6e65_0000_0000);
        },
        EwfSectionKind::Hash => {
            assert(u64_be(data, 0) == 0x6861_7368_0000_0000);
        },
        EwfSectionKind::Next => {
            assert(u64_be(data, 0) == 0x6e65_7874_0000_0000);
        },
        EwfSectionKind::Sectors => {
            assert(u64_be(data, 0) == 0x7365_6374_6f72_7300);
        },
        EwfSectionKind::Table => {
            assert(u64_be(data, 0) == 0x7461_626c_6500_0000);
        },
        EwfSectionKind::Volume => {
            assert(u64_be(data, 0) == 0x6469_736b_0000_0000 || u64_be(data, 0)
                == 0x766f_6c75_6d65_0000);
        },
        EwfSectionKind::Other => {},
    }
}

/// Whether a section is not the last one of its file, and the next one is where it says.
pub open spec fn is_followed(content: Content, sections: Seq<EwfSection>, index: int) -> bool {
    let section = sections[index];
    &&& !(section.kind is Done) && !(section.kind is Next)
    &&& section.file_offset < section.next_offset < content.size
    &&& section.next_offset == sections[index + 1].file_offset
}

/// The sections of a file are those from behind the file header on, each at the place that the one
/// before it gives, up to the one that ends the file.
pub proof fn lemma_sections_stored(content: Content, sections: Seq<EwfSection>, index: int)
    requires
        0 <= index < sections.len(),
        forall|i: int|
            0 <= i < sections.len() ==> section_at(content, (#[trigger] sections[i]).file_offset)
                == Ok::<EwfSection, DriverError>(sections[i]),
        forall|i: int| 0 <= i < sections.len() - 1 ==> #[trigger] is_followed(content, sections, i),
        sections.last().kind is Done || sections.last().kind is Next,
        sections.last().file_offset + 76 == content.size,
        content.size <= u64::MAX,
    ensures
        sections_from(content, sections[index].file_offset, sections.take(index)) == Ok::<
            Seq<EwfSection>,
            DriverError,
        >(sections),
    decreases sections.len() - index,
{
    let section = sections[index];
    assert(sections.take(index).push(section) =~= sections.take(index + 1));
    if index < sections.len() - 1 {
        assert(is_followed(content, sections, index));
        lemma_sections_stored(content, sections, index + 1);
    } else {
        assert(sections.take(index + 1) =~= sections);
    }
}

/// The number of a segment file is stored in little-endian order, behind the signature of the file and
/// a one, and is read back.
pub proof fn lemma_segment_number_stored(content: Content, number: int)
    requires
        content.has(0, 13),
        content.bytes[0] == 0x45 && content.bytes[1] == 0x56 && content.bytes[2] == 0x46
            && content.bytes[3] == 0x09,
        content.bytes[4] == 0x0d && content.bytes[5] == 0x0a && content.bytes[6] == 0xff
            && content.bytes[7] == 0x00,
        content.bytes[8] == 1,
        content.holds_le(9, 2, number),
        content.bytes[11] == 0 && content.bytes[12] == 0,
    ensures
        segment_number_of(content) == Ok::<u16, DriverError>(number as u16),
        0 <= number <= u16::MAX,
{
    broadcast use lemma_holds_le;

    let data = content.window(0, 13);
    lemma_holds_in(content, 0, 13, 9, 2, number);
    assert(u64_be(data, 0) == 0x4556_4609_0d0a_ff00);
    assert(u16_le(data, 9) == number);
}

/// Determines what a section holds.
fn section_kind(high: u64, low: u64) -> (kind: EwfSectionKind)
    ensures
        kind == kind_of(high, low),
{
    if low != 0 {
        EwfSectionKind::Other
    } else if high == 0x6469_6765_7374_0000 {
        EwfSectionKind::Digest
    } else if high == 0x646f_6e65_0000_0000 {
        EwfSectionKind::Done
    } else if high == 0x6861_7368_0000_0000 {
        EwfSectionKind::Hash
    } else if high == 0x6e65_7874_0000_0000 {
        EwfSectionKind::Next
    } else if high == 0x7365_6374_6f72_7300 {
        EwfSectionKind::Sectors
    } else if high == 0x7461_626c_6500_0000 {
        EwfSectionKind::Table
    } else if high == 0x6469_736b_0000_0000 || high == 0x766f_6c75_6d65_0000 {
        EwfSectionKind::Volume
    } else {
        EwfSectionKind::Other
    }
}

/// Determines whether data is followed by its Adler-32.
pub(crate) fn verify_checksum(data: &[u8], start: usize, end: usize) -> (valid: bool)
    requires
        start <= end,
        end + 4 <= data@.len(),
    ensures
        valid == has_checksum(data@, start as int, end as int),
{
    let part: &[u8] = vstd::slice::slice_subrange(data, start, end);
    read_u32_le(data, end) == adler32(1, part)
}

/// Reads the section at an offset.
fn read_section_header(source: &DataSourceReference, file_offset: u64) -> (result: Result<
    EwfSection,
    DriverError,
>)
    ensures
        match result {
            Ok(section) => section_at(source.content(), file_offset) == Ok::<
                EwfSection,
                DriverError,
            >(section),
            Err(error) => source.reliable() ==> section_at(source.content(), file_offset) == Err::<
                EwfSection,
                DriverError,
            >(error),
        },
{
    let data: Vec<u8> = read_bytes(source, file_offset, 76)?;
    let data: &[u8] = data.as_slice();
    if !verify_checksum(data, 0, 72) {
        return Err(DriverError::ChecksumMismatch);
    }
    let kind: EwfSectionKind = section_kind(read_u64_be(data, 0), read_u64_be(data, 8));
    let next_offset: u64 = read_u64_le(data, 16);
    let size: u64 = read_u64_le(data, 24);
    let expected: u64 = match kind {
        EwfSectionKind::Done | EwfSectionKind::Next => {
            if next_offset != file_offset {
                return Err(DriverError::Unsupported);
            }
            76
        },
        _ => {
            if next_offset < file_offset {
                return Err(DriverError::Unsupported);
            }
            next_offset - file_offset
        },
    };
    if expected < 76 || (size != 0 && size != expected) {
        return Err(DriverError::Unsupported);
    }
    Ok(EwfSection { file_offset, kind, next_offset, size: expected })
}

/// Reads the number of a segment file.
pub(crate) fn read_file_header(source: &DataSourceReference) -> (result: Result<u16, DriverError>)
    ensures
        match result {
            Ok(number) => segment_number_of(source.content()) == Ok::<u16, DriverError>(number),
            Err(error) => source.reliable() ==> segment_number_of(source.content()) == Err::<
                u16,
                DriverError,
            >(error),
        },
{
    let data: Vec<u8> = read_bytes(source, 0, 13)?;
    let data: &[u8] = data.as_slice();
    if read_u64_be(data, 0) != 0x4556_4609_0d0a_ff00 || data[8] != 1 || data[11] != 0 || data[12]
        != 0 {
        return Err(DriverError::Unsupported);
    }
    Ok(read_u16_le(data, 9))
}

/// Reads the sections of a segment file.
pub(crate) fn read_section_headers(source: &DataSourceReference) -> (result: Result<
    Vec<EwfSection>,
    DriverError,
>)
    ensures
        match result {
            Ok(sections) => {
                &&& sections_of(source.content()) == Ok::<Seq<EwfSection>, DriverError>(sections@)
                &&& forall|i: int| 0 <= i < sections@.len() ==> is_bounded(#[trigger] sections@[i])
            },
            Err(error) => source.reliable() ==> sections_of(source.content()) == Err::<
                Seq<EwfSection>,
                DriverError,
            >(error),
        },
{
    let file_size: u64 = source.size()?;
    if file_size < 13 {
        return Err(DriverError::Unsupported);
    }
    let ghost content = source.content();
    let mut sections: Vec<EwfSection> = Vec::new();
    let mut file_offset: u64 = 13;
    while file_offset < file_size
        invariant
            content == source.content(),
            file_size == content.size,
            sections_of(content) == sections_from(content, file_offset, sections@),
            forall|i: int| 0 <= i < sections@.len() ==> is_bounded(#[trigger] sections@[i]),
        decreases u64::MAX - file_offset,
    {
        let section: EwfSection = read_section_header(source, file_offset)?;
        match section.kind {
            EwfSectionKind::Done | EwfSectionKind::Next => {
                let end: u64 = file_offset.checked_add(76).ok_or(DriverError::Overflow)?;
                if end != file_size {
                    return Err(DriverError::Unsupported);
                }
                sections.push(section);
                return Ok(sections);
            },
            _ => {
                sections.push(section);
                file_offset = section.next_offset;
            },
        }
    }
    if file_offset != file_size {
        return Err(DriverError::Unsupported);
    }
    Ok(sections)
}

/// Reads the data of a section.
pub(crate) fn read_section_data(source: &DataSourceReference, section: &EwfSection) -> (result:
    Result<Vec<u8>, DriverError>)
    requires
        is_bounded(*section),
    ensures
        match result {
            Ok(data) => section_data(source.content(), *section) == Ok::<Seq<u8>, DriverError>(
                data@,
            ),
            Err(error) => source.reliable() ==> section_data(source.content(), *section) == Err::<
                Seq<u8>,
                DriverError,
            >(error),
        },
{
    let size: u64 = section.size - 76;
    if size > usize::MAX as u64 {
        return Err(DriverError::TooLarge);
    }
    read_bytes(source, section.file_offset + 76, size as usize)
}

} // verus!
