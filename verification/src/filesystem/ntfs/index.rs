//! NTFS directory indexes.

use vstd::prelude::*;

use super::fixup::{apply_fixup_values, fixed};
use crate::bytes::{
    read_u16_le, read_u32_be, read_u32_le, read_u64_le, u16_le, u32_be, u32_le, u64_le,
};
use crate::error::DriverError;
use crate::filesystem::visited::{is_cycle, nodes_left, was_visited};
use crate::scan::texts_view;
use crate::source::data_source::{read_bytes, Content, DataSource, DataSourceReference};
use crate::text::{decode_utf16, read_units_le, text_chars, units_le, utf16_text};

verus! {

/// The entries of a directory: their names and file references.
pub struct NtfsEntries {
    pub names: Seq<Seq<char>>,
    pub file_references: Seq<u64>,
}

/// A directory without entries.
pub open spec fn no_entries() -> NtfsEntries {
    NtfsEntries { names: Seq::empty(), file_references: Seq::empty() }
}

/// A value of an index node.
#[derive(Clone, Copy, Debug, PartialEq, Eq, Structural)]
pub struct NtfsIndexValue {
    pub file_reference: u64,
    pub size: u16,
    pub key_size: u16,
    pub flags: u32,
}

impl NtfsIndexValue {
    /// Whether a node lies below the value.
    pub open spec fn is_branch(self) -> bool {
        self.flags % 2 == 1
    }

    /// Whether the value is the last one of its node.
    pub open spec fn is_last(self) -> bool {
        (self.flags / 2) % 2 == 1
    }
}

/// The value at an offset of a node whose values end at another one.
pub open spec fn value_at(data: Seq<u8>, offset: int, end: int) -> Result<
    NtfsIndexValue,
    DriverError,
> {
    let size = u16_le(data, offset + 8);
    let key_size = u16_le(data, offset + 10);
    if offset + 16 > end || offset + 16 > data.len() || offset + size > end || 16 + key_size
        > size {
        Err(DriverError::OutOfBounds)
    } else {
        Ok(
            NtfsIndexValue {
                file_reference: u64_le(data, offset),
                size,
                key_size,
                flags: u32_le(data, offset + 12),
            },
        )
    }
}

/// The name in a file name attribute.
pub open spec fn file_name_in(data: Seq<u8>) -> Result<Seq<char>, DriverError> {
    if data.len() < 66 || 66 + 2 * data[64] > data.len() {
        Err(DriverError::Unsupported)
    } else {
        match utf16_text(units_le(data.subrange(66, 66 + 2 * data[64]))) {
            Some(name) => Ok(name),
            None => Err(DriverError::Encoding),
        }
    }
}

/// Entries after that of a value was added. Short names for DOS and the entry for the directory
/// itself do not count.
pub open spec fn add_value(
    data: Seq<u8>,
    offset: int,
    value: NtfsIndexValue,
    entries: NtfsEntries,
) -> Result<NtfsEntries, DriverError> {
    let key = data.subrange(offset + 16, offset + 16 + value.key_size);
    if value.key_size == 0 || value.is_last() {
        Ok(entries)
    } else if offset + 16 + value.key_size > data.len() {
        Err(DriverError::OutOfBounds)
    } else {
        match file_name_in(key) {
            Err(error) => Err(error),
            Ok(name) => if key[65] == 2 || name == seq!['.'] {
                Ok(entries)
            } else {
                Ok(
                    NtfsEntries {
                        names: entries.names.push(name),
                        file_references: entries.file_references.push(value.file_reference),
                    },
                )
            },
        }
    }
}

/// The number of the node below a value, if there is one.
pub open spec fn branch_of(
    data: Seq<u8>,
    offset: int,
    value: NtfsIndexValue,
    has_allocation: bool,
) -> Result<Option<u64>, DriverError> {
    if !value.is_branch() {
        Ok(None)
    } else if value.size - 16 - value.key_size < 8 {
        Err(DriverError::OutOfBounds)
    } else if !has_allocation {
        Err(DriverError::Missing)
    } else if offset + value.size > data.len() {
        Err(DriverError::OutOfBounds)
    } else {
        Ok(Some(u64_le(data, offset + value.size - 8)))
    }
}

/// The content in which nodes are stored, if there is one.
pub open spec fn allocation_content(allocation: Option<DataSourceReference>) -> Option<Content> {
    match allocation {
        Some(source) => Some(source.content()),
        None => None,
    }
}

/// The record of the node with a number. It has the signature "INDX".
pub open spec fn branch_record(allocation: Content, entry_size: u32, number: u64) -> Result<
    Seq<u8>,
    DriverError,
> {
    if number * entry_size > u64::MAX {
        Err(DriverError::Overflow)
    } else {
        match allocation.exact(number * entry_size, entry_size as nat) {
            Err(error) => Err(error),
            Ok(data) => if u32_be(data, 0) != 0x494e_4458 {
                Err(DriverError::Unsupported)
            } else {
                fixed(data, u16_le(data, 4) as int, u16_le(data, 6))
            },
        }
    }
}

/// The offset of the value after one that ends at an offset.
pub open spec fn aligned(offset: int) -> int {
    8 * ((offset + 7) / 8)
}

/// Entries after those of a node and the nodes below it were added. The path holds the numbers of
/// the nodes on the way to it.
pub open spec fn add_node(
    allocation: Option<Content>,
    entry_size: u32,
    data: Seq<u8>,
    offset: int,
    path: Seq<u64>,
    entries: NtfsEntries,
) -> Result<NtfsEntries, DriverError>
    decreases nodes_left(path), 1int, 0int,
{
    let values_offset = u32_le(data, offset);
    let size = u32_le(data, offset + 4);
    if data.len() < offset + 16 {
        Err(DriverError::Unsupported)
    } else if values_offset < 16 || values_offset >= size {
        Err(DriverError::OutOfBounds)
    } else {
        add_values_from(
            allocation,
            entry_size,
            data,
            offset + size,
            offset + values_offset,
            path,
            entries,
        )
    }
}

/// Entries after those of the values of a node from an offset on were added.
pub open spec fn add_values_from(
    allocation: Option<Content>,
    entry_size: u32,
    data: Seq<u8>,
    end: int,
    offset: int,
    path: Seq<u64>,
    entries: NtfsEntries,
) -> Result<NtfsEntries, DriverError>
    decreases
            nodes_left(path),
            0int,
            (if offset < end {
                end - offset
            } else {
                0
            }),
{
    if offset >= end {
        Ok(entries)
    } else {
        match value_at(data, offset, end) {
            Err(error) => Err(error),
            Ok(value) => match add_value(data, offset, value, entries) {
                Err(error) => Err(error),
                Ok(more) => match branch_of(data, offset, value, allocation is Some) {
                    Err(error) => Err(error),
                    Ok(None) => if value.is_last() {
                        Ok(more)
                    } else {
                        add_values_from(
                            allocation,
                            entry_size,
                            data,
                            end,
                            aligned(offset + value.size),
                            path,
                            more,
                        )
                    },
                    Ok(Some(number)) => if is_cycle(path, number) {
                        Err(DriverError::Cycle)
                    } else {
                        match branch_record(allocation->0, entry_size, number) {
                            Err(error) => Err(error),
                            Ok(record) => match add_node(
                                allocation,
                                entry_size,
                                record,
                                24,
                                path.push(number),
                                more,
                            ) {
                                Err(error) => Err(error),
                                Ok(below) => if value.is_last() {
                                    Ok(below)
                                } else {
                                    add_values_from(
                                        allocation,
                                        entry_size,
                                        data,
                                        end,
                                        aligned(offset + value.size),
                                        path,
                                        below,
                                    )
                                },
                            },
                        }
                    },
                },
            },
        }
    }
}

fn read_index_value(data: &[u8], offset: u64, end: u64) -> (result: Result<
    NtfsIndexValue,
    DriverError,
>)
    requires
        offset <= end <= 0x2_0000_0000,
    ensures
        result == value_at(data@, offset as int, end as int),
        result is Ok ==> offset + 16 <= data@.len(),
{
    let length: usize = data.len();
    if offset + 16 > end || offset + 16 > length as u64 {
        return Err(DriverError::OutOfBounds);
    }
    let at: usize = offset as usize;
    let size: u16 = read_u16_le(data, at + 8);
    let key_size: u16 = read_u16_le(data, at + 10);
    if offset + size as u64 > end || 16 + key_size as u32 > size as u32 {
        return Err(DriverError::OutOfBounds);
    }
    Ok(
        NtfsIndexValue {
            file_reference: read_u64_le(data, at),
            size,
            key_size,
            flags: read_u32_le(data, at + 12),
        },
    )
}

fn read_file_name(data: &[u8]) -> (result: Result<String, DriverError>)
    ensures
        match result {
            Ok(name) => file_name_in(data@) == Ok::<Seq<char>, DriverError>(name@),
            Err(error) => file_name_in(data@) == Err::<Seq<char>, DriverError>(error),
        },
{
    if data.len() < 66 {
        return Err(DriverError::Unsupported);
    }
    let end: usize = 66 + 2 * (data[64] as usize);
    if end > data.len() {
        return Err(DriverError::Unsupported);
    }
    let units: Vec<u16> = read_units_le(vstd::slice::slice_subrange(data, 66, end), false);
    decode_utf16(units.as_slice()).ok_or(DriverError::Encoding)
}

fn read_branch_record(allocation: &DataSourceReference, entry_size: u32, number: u64) -> (result:
    Result<Vec<u8>, DriverError>)
    requires
        8 <= entry_size <= 16777216,
    ensures
        match result {
            Ok(record) => branch_record(allocation.content(), entry_size, number) == Ok::<
                Seq<u8>,
                DriverError,
            >(record@),
            Err(error) => allocation.readable() ==> branch_record(
                allocation.content(),
                entry_size,
                number,
            ) == Err::<Seq<u8>, DriverError>(error),
        },
{
    let offset: u64 = number.checked_mul(entry_size as u64).ok_or(DriverError::Overflow)?;
    let mut data: Vec<u8> = read_bytes(allocation, offset, entry_size as usize)?;
    if read_u32_be(data.as_slice(), 0) != 0x494e_4458 {
        return Err(DriverError::Unsupported);
    }
    let fixup_offset: usize = read_u16_le(data.as_slice(), 4) as usize;
    let fixup_count: u16 = read_u16_le(data.as_slice(), 6);
    apply_fixup_values(&mut data, fixup_offset, fixup_count)?;
    Ok(data)
}

/// Directory index.
pub struct NtfsDirectory {
    pub names: Vec<Vec<char>>,
    pub file_references: Vec<u64>,
}

impl NtfsDirectory {
    /// The entries of the directory.
    pub open spec fn view(&self) -> NtfsEntries {
        NtfsEntries { names: texts_view(self.names@), file_references: self.file_references@ }
    }

    /// Whether there is a file reference for each name.
    pub open spec fn is_sound(&self) -> bool {
        self.names@.len() == self.file_references@.len()
    }

    /// Creates a directory without entries.
    pub fn new() -> (directory: Self)
        ensures
            directory@ == no_entries(),
            directory.is_sound(),
    {
        let directory = NtfsDirectory { names: Vec::new(), file_references: Vec::new() };
        assert(directory@.names =~= Seq::<Seq<char>>::empty());
        assert(directory@.file_references =~= Seq::<u64>::empty());
        directory
    }

    fn read_value(self, data: &[u8], offset: u64, value: NtfsIndexValue) -> (result: Result<
        Self,
        DriverError,
    >)
        requires
            self.is_sound(),
            offset + 16 <= data@.len(),
        ensures
            match result {
                Ok(directory) => {
                    &&& add_value(data@, offset as int, value, self@) == Ok::<
                        NtfsEntries,
                        DriverError,
                    >(directory@)
                    &&& directory.is_sound()
                },
                Err(error) => add_value(data@, offset as int, value, self@) == Err::<
                    NtfsEntries,
                    DriverError,
                >(error),
            },
    {
        if value.key_size == 0 || (value.flags / 2) % 2 == 1 {
            return Ok(self);
        }
        let length: usize = data.len();
        assert(offset + 16 <= length);
        let start: usize = offset as usize + 16;
        if value.key_size as usize > length - start {
            return Err(DriverError::OutOfBounds);
        }
        let key: &[u8] = vstd::slice::slice_subrange(data, start, start + value.key_size as usize);
        let name: String = read_file_name(key)?;
        let name: Vec<char> = text_chars(name.as_str());
        proof {
            assert(name@ == seq!['.'] <==> name@.len() == 1 && name@[0] == '.') by {
                if name@.len() == 1 && name@[0] == '.' {
                    assert(name@ =~= seq!['.']);
                }
            }
        }
        if key[65] == 2 || (name.len() == 1 && name[0] == '.') {
            return Ok(self);
        }
        let ghost before = self@;
        let mut directory = self;
        directory.names.push(name);
        directory.file_references.push(value.file_reference);
        assert(directory@.names =~= before.names.push(name@));
        Ok(directory)
    }

    /// Reads the entries of a node of the index and the nodes below it.
    pub fn read_node(
        self,
        allocation: &Option<DataSourceReference>,
        entry_size: u32,
        data: &[u8],
        offset: usize,
        path: &mut Vec<u64>,
    ) -> (result: Result<Self, DriverError>)
        requires
            self.is_sound(),
            8 <= entry_size <= 16777216,
            offset <= 24,
        ensures
            match result {
                Ok(directory) => {
                    &&& add_node(
                        allocation_content(*allocation),
                        entry_size,
                        data@,
                        offset as int,
                        old(path)@,
                        self@,
                    ) == Ok::<NtfsEntries, DriverError>(directory@)
                    &&& directory.is_sound()
                    &&& final(path)@ == old(path)@
                },
                Err(error) => (allocation matches Some(source) ==> source.readable())
                    ==> add_node(
                    allocation_content(*allocation),
                    entry_size,
                    data@,
                    offset as int,
                    old(path)@,
                    self@,
                ) == Err::<NtfsEntries, DriverError>(error),
            },
        decreases nodes_left(old(path)@),
    {
        let ghost content: Option<Content> = allocation_content(*allocation);
        let ghost whole = add_node(content, entry_size, data@, offset as int, path@, self@);
        if data.len() < offset + 16 {
            return Err(DriverError::Unsupported);
        }
        let values_offset: u32 = read_u32_le(data, offset);
        let size: u32 = read_u32_le(data, offset + 4);
        if values_offset < 16 || values_offset >= size {
            return Err(DriverError::OutOfBounds);
        }
        let end: u64 = offset as u64 + size as u64;
        let mut at: u64 = offset as u64 + values_offset as u64;
        let mut directory = self;
        while at < end
            invariant
                end <= 0x2_0000_0000,
                directory.is_sound(),
                8 <= entry_size <= 16777216,
                path@ == old(path)@,
                content == allocation_content(*allocation),
                whole == add_node(
                    content,
                    entry_size,
                    data@,
                    offset as int,
                    old(path)@,
                    self@,
                ),
                whole == add_values_from(
                    content,
                    entry_size,
                    data@,
                    end as int,
                    at as int,
                    old(path)@,
                    directory@,
                ),
            decreases end + 16 - at,
        {
            let value: NtfsIndexValue = read_index_value(data, at, end)?;
            directory = directory.read_value(data, at, value)?;
            if value.flags % 2 == 1 {
                if value.size - 16 - value.key_size < 8 {
                    return Err(DriverError::OutOfBounds);
                }
                let source: &DataSourceReference = match allocation {
                    Some(source) => source,
                    None => return Err(DriverError::Missing),
                };
                let length: usize = data.len();
                if at + value.size as u64 > length as u64 {
                    return Err(DriverError::OutOfBounds);
                }
                let number: u64 = read_u64_le(data, at as usize + value.size as usize - 8);
                if was_visited(path, number) {
                    return Err(DriverError::Cycle);
                }
                let record: Vec<u8> = read_branch_record(source, entry_size, number)?;
                path.push(number);
                let count: usize = path.len();
                assert(count <= u64::MAX);
                directory =
                directory.read_node(allocation, entry_size, record.as_slice(), 24, path)?;
                let _number = path.pop();
                assert(path@ =~= old(path)@);
            }
            if (value.flags / 2) % 2 == 1 {
                return Ok(directory);
            }
            at = 8 * ((at + value.size as u64 + 7) / 8);
        }
        Ok(directory)
    }
}

} // verus!
