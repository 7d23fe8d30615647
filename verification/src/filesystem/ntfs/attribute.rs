//! NTFS MFT entries and their attributes.

use vstd::prelude::*;

use super::data_run::{
    holds_runs, lemma_runs_stored, make_run_extents, read_data_runs, run_extents_from, runs_from,
    NtfsDataRun,
};
use super::fixup::{apply_fixup_values, fixed};
use crate::bytes::{
    holds_le, lemma_holds_le, read_u16_le, read_u32_be, read_u32_le, read_u64_le, u16_le, u32_be,
    u32_le, u64_le,
};
use crate::error::DriverError;
use crate::filesystem::extents::FileExtent;
use crate::scan::same_text;
use crate::source::data_source::{read_bytes, Content, DataSource, DataSourceReference};
use crate::text::{
    decode_utf16, encode_utf16, holds_units_le, lemma_units_le, lemma_utf16_text, read_units_le,
    text_chars, units_le, utf16_text,
};

verus! {

/// What an attribute says.
pub struct NtfsAttributeInfo {
    pub attribute_type: u32,
    pub name: Option<Seq<char>>,
    pub is_resident: bool,
    pub data_flags: u16,
    pub data_size: u64,
    pub resident_data: Seq<u8>,
    pub data_runs: Seq<NtfsDataRun>,
}

/// What an MFT entry says.
pub struct NtfsEntryInfo {
    pub base_record_file_reference: u64,
    pub attributes: Seq<NtfsAttributeInfo>,
    pub is_directory: bool,
}

/// The name of an attribute.
pub open spec fn attribute_name(data: Seq<u8>) -> Result<Option<Seq<char>>, DriverError> {
    let start = u16_le(data, 10) as int;
    let end = start + 2 * data[9];
    if data[9] == 0 {
        Ok(None)
    } else if start < 16 || end > u32_le(data, 4) {
        Err(DriverError::OutOfBounds)
    } else {
        match utf16_text(units_le(data.subrange(start, end))) {
            Some(name) => Ok(Some(name)),
            None => Err(DriverError::Encoding),
        }
    }
}

/// The attribute at the start of data. Its data is resident, or stored in data runs.
pub open spec fn attribute_in(data: Seq<u8>) -> Result<NtfsAttributeInfo, DriverError> {
    let size = u32_le(data, 4);
    if data.len() < 16 || size < 16 || size > data.len() {
        Err(DriverError::Unsupported)
    } else {
        match attribute_name(data) {
            Err(error) => Err(error),
            Ok(name) => if data[8] == 0 {
                let resident_size = u32_le(data, 16);
                let resident_offset = u16_le(data, 20);
                if size < 24 || resident_offset < 24 || resident_offset + resident_size > size {
                    Err(DriverError::OutOfBounds)
                } else {
                    Ok(
                        NtfsAttributeInfo {
                            attribute_type: u32_le(data, 0),
                            name,
                            is_resident: true,
                            data_flags: u16_le(data, 12),
                            data_size: resident_size as u64,
                            resident_data: data.subrange(
                                resident_offset as int,
                                resident_offset + resident_size,
                            ),
                            data_runs: Seq::empty(),
                        },
                    )
                }
            } else if size < 64 || u16_le(data, 34) > 0 {
                Err(DriverError::Unsupported)
            } else if u16_le(data, 32) < 64 || u16_le(data, 32) > size {
                Err(DriverError::OutOfBounds)
            } else {
                match runs_from(
                    data,
                    u16_le(data, 32) as int,
                    u64_le(data, 16) as int,
                    0,
                    Seq::empty(),
                ) {
                    Err(error) => Err(error),
                    Ok(data_runs) => Ok(
                        NtfsAttributeInfo {
                            attribute_type: u32_le(data, 0),
                            name,
                            is_resident: false,
                            data_flags: u16_le(data, 12),
                            data_size: u64_le(data, 48),
                            resident_data: Seq::empty(),
                            data_runs,
                        },
                    ),
                }
            },
        }
    }
}

/// The attributes from an offset on, after those before it. An end mark follows them.
pub open spec fn attributes_from(
    data: Seq<u8>,
    offset: int,
    attributes: Seq<NtfsAttributeInfo>,
) -> Result<Seq<NtfsAttributeInfo>, DriverError>
    decreases data.len() - offset,
{
    if offset < 0 || offset + 4 > data.len() {
        Err(DriverError::OutOfBounds)
    } else if u32_le(data, offset) == 0xffff_ffff {
        Ok(attributes)
    } else {
        let rest = data.subrange(offset, data.len() as int);
        match attribute_in(rest) {
            Err(error) => Err(error),
            Ok(attribute) => attributes_from(
                data,
                offset + u32_le(rest, 4),
                attributes.push(attribute),
            ),
        }
    }
}

/// What the MFT entry in data says. An MFT entry has the signature "FILE".
pub open spec fn entry_in(data: Seq<u8>) -> Result<NtfsEntryInfo, DriverError> {
    let fixup_offset = u16_le(data, 4);
    let attributes_offset = u16_le(data, 20);
    if u32_be(data, 0) != 0x4649_4c45 {
        Err(DriverError::Unsupported)
    } else if fixup_offset < 42 || attributes_offset > data.len() || fixup_offset
        >= attributes_offset {
        Err(DriverError::OutOfBounds)
    } else {
        match fixed(data, fixup_offset as int, u16_le(data, 6)) {
            Err(error) => Err(error),
            Ok(record) => match attributes_from(record, attributes_offset as int, Seq::empty()) {
                Err(error) => Err(error),
                Ok(attributes) => Ok(
                    NtfsEntryInfo {
                        base_record_file_reference: u64_le(data, 32),
                        attributes,
                        is_directory: (u16_le(data, 22) / 2) % 2 == 1,
                    },
                ),
            },
        }
    }
}

/// What the MFT entry at an offset says.
pub open spec fn entry_at(content: Content, entry_size: u32, offset: int) -> Result<
    NtfsEntryInfo,
    DriverError,
> {
    match content.exact(offset, entry_size as nat) {
        Err(error) => Err(error),
        Ok(data) => entry_in(data),
    }
}

/// The first attribute from `index` on with a type and a name.
pub open spec fn first_attribute_from(
    attributes: Seq<NtfsAttributeInfo>,
    name: Option<Seq<char>>,
    attribute_type: u32,
    index: int,
) -> Option<NtfsAttributeInfo>
    decreases attributes.len() - index,
{
    if index < 0 || index >= attributes.len() {
        None
    } else if attributes[index].attribute_type == attribute_type && attributes[index].name
        == name {
        Some(attributes[index])
    } else {
        first_attribute_from(attributes, name, attribute_type, index + 1)
    }
}

/// The first attribute with a type and a name.
pub open spec fn first_attribute(
    attributes: Seq<NtfsAttributeInfo>,
    name: Option<Seq<char>>,
    attribute_type: u32,
) -> Option<NtfsAttributeInfo> {
    first_attribute_from(attributes, name, attribute_type, 0)
}

/// The extents of the data of an attribute. Compressed data is not supported.
pub open spec fn attribute_extents(cluster_size: u32, attribute: NtfsAttributeInfo) -> Result<
    Seq<FileExtent>,
    DriverError,
> {
    if attribute.is_resident || attribute.data_flags % 256 != 0 {
        Err(DriverError::Unsupported)
    } else {
        run_extents_from(
            cluster_size,
            attribute.data_size,
            attribute.data_runs,
            0,
            Seq::empty(),
        )
    }
}

/// Whether the header of an attribute is stored: its type, size and flags, and the size and offset of
/// its name, which is stored in UTF-16.
pub open spec fn holds_attribute_header(
    data: Seq<u8>,
    attribute: NtfsAttributeInfo,
    size: int,
    name_offset: int,
) -> bool {
    &&& 16 <= size <= data.len()
    &&& holds_le(data, 0, 4, attribute.attribute_type as int)
    &&& holds_le(data, 4, 4, size)
    &&& holds_le(data, 12, 2, attribute.data_flags as int)
    &&& match attribute.name {
        None => holds_le(data, 9, 1, 0),
        Some(name) => {
            let units = encode_utf16(name);
            &&& 0 < units.len()
            &&& 16 <= name_offset
            &&& name_offset + 2 * units.len() <= size
            &&& holds_le(data, 9, 1, units.len() as int)
            &&& holds_le(data, 10, 2, name_offset)
            &&& holds_units_le(data, name_offset, units)
        },
    }
}

/// Whether an attribute with its data is stored: behind the header the size of the data and its
/// offset.
pub open spec fn holds_resident(
    data: Seq<u8>,
    attribute: NtfsAttributeInfo,
    size: int,
    name_offset: int,
    data_offset: int,
) -> bool {
    let bytes = attribute.resident_data;
    &&& attribute.is_resident
    &&& attribute.data_runs.len() == 0
    &&& attribute.data_size == bytes.len()
    &&& holds_attribute_header(data, attribute, size, name_offset)
    &&& holds_le(data, 8, 1, 0)
    &&& 24 <= data_offset
    &&& data_offset + bytes.len() <= size
    &&& holds_le(data, 16, 4, bytes.len() as int)
    &&& holds_le(data, 20, 2, data_offset)
    &&& forall|i: int| 0 <= i < bytes.len() ==> data[data_offset + i] == #[trigger] bytes[i]
}

/// Whether an attribute with data runs is stored: behind the header its first cluster, at offset 32
/// the offset of the data runs, and at offset 48 the size of the data.
pub open spec fn holds_non_resident(
    data: Seq<u8>,
    attribute: NtfsAttributeInfo,
    size: int,
    name_offset: int,
    runs_offset: int,
    first_cluster: int,
    count_sizes: Seq<nat>,
    distance_sizes: Seq<nat>,
) -> bool {
    &&& !attribute.is_resident
    &&& attribute.resident_data.len() == 0
    &&& holds_attribute_header(data, attribute, size, name_offset)
    &&& exists|flag: int| flag != 0 && #[trigger] holds_le(data, 8, 1, flag)
    &&& 64 <= runs_offset <= size
    &&& holds_le(data, 16, 8, first_cluster)
    &&& holds_le(data, 32, 2, runs_offset)
    &&& holds_le(data, 34, 2, 0)
    &&& holds_le(data, 48, 8, attribute.data_size as int)
    &&& holds_runs(
        data,
        runs_offset,
        first_cluster,
        0,
        attribute.data_runs,
        count_sizes,
        distance_sizes,
    )
}

proof fn lemma_attribute_header(
    data: Seq<u8>,
    attribute: NtfsAttributeInfo,
    size: int,
    name_offset: int,
)
    requires
        holds_attribute_header(data, attribute, size, name_offset),
    ensures
        u32_le(data, 0) == attribute.attribute_type,
        u32_le(data, 4) == size,
        u16_le(data, 12) == attribute.data_flags,
        attribute_name(data) == Ok::<Option<Seq<char>>, DriverError>(attribute.name),
{
    lemma_holds_le(data, 0, 4, attribute.attribute_type as int);
    lemma_holds_le(data, 4, 4, size);
    lemma_holds_le(data, 12, 2, attribute.data_flags as int);
    match attribute.name {
        None => {
            lemma_holds_le(data, 9, 1, 0);
        },
        Some(name) => {
            let units = encode_utf16(name);
            lemma_holds_le(data, 9, 1, units.len() as int);
            lemma_holds_le(data, 10, 2, name_offset);
            lemma_units_le(data, name_offset, name_offset + 2 * units.len(), units);
            lemma_utf16_text(name);
        },
    }
}

/// An attribute that is stored with its data is read back.
pub proof fn lemma_resident_stored(
    data: Seq<u8>,
    attribute: NtfsAttributeInfo,
    size: int,
    name_offset: int,
    data_offset: int,
)
    requires
        holds_resident(data, attribute, size, name_offset, data_offset),
    ensures
        attribute_in(data) == Ok::<NtfsAttributeInfo, DriverError>(attribute),
{
    lemma_attribute_header(data, attribute, size, name_offset);
    let bytes = attribute.resident_data;
    lemma_holds_le(data, 8, 1, 0);
    lemma_holds_le(data, 16, 4, bytes.len() as int);
    lemma_holds_le(data, 20, 2, data_offset);
    assert(data.subrange(data_offset, data_offset + bytes.len()) =~= bytes);
    assert(attribute.data_runs =~= Seq::<NtfsDataRun>::empty());
}

/// An attribute that is stored with its data runs is read back.
pub proof fn lemma_non_resident_stored(
    data: Seq<u8>,
    attribute: NtfsAttributeInfo,
    size: int,
    name_offset: int,
    runs_offset: int,
    first_cluster: int,
    count_sizes: Seq<nat>,
    distance_sizes: Seq<nat>,
)
    requires
        holds_non_resident(
            data,
            attribute,
            size,
            name_offset,
            runs_offset,
            first_cluster,
            count_sizes,
            distance_sizes,
        ),
    ensures
        attribute_in(data) == Ok::<NtfsAttributeInfo, DriverError>(attribute),
{
    lemma_attribute_header(data, attribute, size, name_offset);
    let flag = choose|flag: int| flag != 0 && #[trigger] holds_le(data, 8, 1, flag);
    lemma_holds_le(data, 8, 1, flag);
    lemma_holds_le(data, 16, 8, first_cluster);
    lemma_holds_le(data, 32, 2, runs_offset);
    lemma_holds_le(data, 34, 2, 0);
    lemma_holds_le(data, 48, 8, attribute.data_size as int);
    lemma_runs_stored(
        data,
        runs_offset,
        first_cluster,
        0,
        attribute.data_runs,
        count_sizes,
        distance_sizes,
        Seq::empty(),
    );
    assert(Seq::<NtfsDataRun>::empty() + attribute.data_runs =~= attribute.data_runs);
    assert(attribute.resident_data =~= Seq::<u8>::empty());
}

/// Whether attributes follow each other in a record from an offset on: each has a size and is followed
/// by the next one, and the last one by 0xffffffff.
pub open spec fn holds_attributes(
    data: Seq<u8>,
    offset: int,
    attributes: Seq<NtfsAttributeInfo>,
) -> bool
    decreases attributes.len(),
{
    &&& 0 <= offset
    &&& offset + 4 <= data.len()
    &&& if attributes.len() == 0 {
        holds_le(data, offset, 4, 0xffff_ffff)
    } else {
        let rest = data.subrange(offset, data.len() as int);
        &&& attributes[0].attribute_type != 0xffff_ffff
        &&& holds_le(rest, 0, 4, attributes[0].attribute_type as int)
        &&& attribute_in(rest) == Ok::<NtfsAttributeInfo, DriverError>(attributes[0])
        &&& exists|size: int|
            {
                &&& 16 <= size
                &&& #[trigger] holds_le(data, offset + 4, 4, size)
                &&& holds_attributes(data, offset + size, attributes.skip(1))
            }
    }
}

/// Attributes that follow each other are all found, in order.
pub proof fn lemma_attributes_stored(
    data: Seq<u8>,
    offset: int,
    attributes: Seq<NtfsAttributeInfo>,
    before: Seq<NtfsAttributeInfo>,
)
    requires
        holds_attributes(data, offset, attributes),
    ensures
        attributes_from(data, offset, before) == Ok::<Seq<NtfsAttributeInfo>, DriverError>(
            before + attributes,
        ),
    decreases attributes.len(),
{
    if attributes.len() == 0 {
        lemma_holds_le(data, offset, 4, 0xffff_ffff);
        assert(before + attributes =~= before);
    } else {
        let rest = data.subrange(offset, data.len() as int);
        let size = choose|size: int|
            {
                &&& 16 <= size
                &&& #[trigger] holds_le(data, offset + 4, 4, size)
                &&& holds_attributes(data, offset + size, attributes.skip(1))
            };
        lemma_holds_le(data, offset + 4, 4, size);
        assert(u32_le(rest, 4) == u32_le(data, offset + 4));
        lemma_holds_le(rest, 0, 4, attributes[0].attribute_type as int);
        assert(u32_le(data, offset) == u32_le(rest, 0));
        lemma_attributes_stored(
            data,
            offset + size,
            attributes.skip(1),
            before.push(attributes[0]),
        );
        assert(before.push(attributes[0]) + attributes.skip(1) =~= before + attributes);
    }
}

/// The attribute that is found is the first one with the type and the name that are looked for.
pub proof fn lemma_first_attribute(
    attributes: Seq<NtfsAttributeInfo>,
    name: Option<Seq<char>>,
    attribute_type: u32,
    from: int,
)
    requires
        0 <= from <= attributes.len(),
    ensures
        match first_attribute_from(attributes, name, attribute_type, from) {
            Some(attribute) => exists|i: int|
                {
                    &&& from <= i < attributes.len()
                    &&& #[trigger] attributes[i] == attribute
                    &&& attribute.attribute_type == attribute_type
                    &&& attribute.name == name
                    &&& forall|j: int|
                        from <= j < i ==> (#[trigger] attributes[j]).attribute_type
                            != attribute_type || attributes[j].name != name
                },
            None => forall|j: int|
                from <= j < attributes.len() ==> (#[trigger] attributes[j]).attribute_type
                    != attribute_type || attributes[j].name != name,
        },
    decreases attributes.len() - from,
{
    if from < attributes.len() {
        if attributes[from].attribute_type == attribute_type && attributes[from].name == name {
            assert(attributes[from] == first_attribute_from(
                attributes,
                name,
                attribute_type,
                from,
            )->0);
        } else {
            lemma_first_attribute(attributes, name, attribute_type, from + 1);
            if let Some(attribute) = first_attribute_from(
                attributes,
                name,
                attribute_type,
                from + 1,
            ) {
                let i = choose|i: int|
                    {
                        &&& from + 1 <= i < attributes.len()
                        &&& #[trigger] attributes[i] == attribute
                        &&& attribute.attribute_type == attribute_type
                        &&& attribute.name == name
                        &&& forall|j: int|
                            from + 1 <= j < i ==> (#[trigger] attributes[j]).attribute_type
                                != attribute_type || attributes[j].name != name
                    };
                assert(attributes[i] == attribute);
            }
        }
    }
}

/// The values of an MFT entry that is stored are read back: the reference of its base record stands at
/// offset 32, and the second bit of the flags at offset 22 says whether it is a directory. Its
/// attributes are those in its record after the fix-up values were put in place.
pub proof fn lemma_entry_stored(
    data: Seq<u8>,
    record: Seq<u8>,
    fixup_offset: int,
    fixup_count: int,
    attributes_offset: int,
    flags: int,
    entry: NtfsEntryInfo,
)
    requires
        42 <= data.len(),
        data[0] == 0x46 && data[1] == 0x49 && data[2] == 0x4c && data[3] == 0x45,
        holds_le(data, 4, 2, fixup_offset),
        holds_le(data, 6, 2, fixup_count),
        holds_le(data, 20, 2, attributes_offset),
        holds_le(data, 22, 2, flags),
        holds_le(data, 32, 8, entry.base_record_file_reference as int),
        entry.is_directory <==> (flags / 2) % 2 == 1,
        42 <= fixup_offset < attributes_offset <= data.len(),
        fixed(data, fixup_offset, fixup_count as u16) == Ok::<Seq<u8>, DriverError>(record),
        holds_attributes(record, attributes_offset, entry.attributes),
    ensures
        entry_in(data) == Ok::<NtfsEntryInfo, DriverError>(entry),
{
    lemma_holds_le(data, 4, 2, fixup_offset);
    lemma_holds_le(data, 6, 2, fixup_count);
    lemma_holds_le(data, 20, 2, attributes_offset);
    lemma_holds_le(data, 22, 2, flags);
    lemma_holds_le(data, 32, 8, entry.base_record_file_reference as int);
    assert(u32_be(data, 0) == 0x4649_4c45);
    lemma_attributes_stored(record, attributes_offset, entry.attributes, Seq::empty());
    assert(Seq::<NtfsAttributeInfo>::empty() + entry.attributes =~= entry.attributes);
}

/// Attribute of an MFT entry.
pub struct NtfsAttribute {
    pub attribute_type: u32,
    pub name: Option<Vec<char>>,
    pub is_resident: bool,
    pub data_flags: u16,
    pub data_size: u64,
    pub resident_data: Vec<u8>,
    pub data_runs: Vec<NtfsDataRun>,
}

impl NtfsAttribute {
    /// What the attribute says.
    pub open spec fn view(&self) -> NtfsAttributeInfo {
        NtfsAttributeInfo {
            attribute_type: self.attribute_type,
            name: match self.name {
                Some(name) => Some(name@),
                None => None,
            },
            is_resident: self.is_resident,
            data_flags: self.data_flags,
            data_size: self.data_size,
            resident_data: self.resident_data@,
            data_runs: self.data_runs@,
        }
    }

    fn read_name(data: &[u8]) -> (result: Result<Option<Vec<char>>, DriverError>)
        requires
            16 <= data@.len(),
            u32_le(data@, 4) <= data@.len(),
        ensures
            match result {
                Ok(Some(name)) => attribute_name(data@) == Ok::<Option<Seq<char>>, DriverError>(
                    Some(name@),
                ),
                Ok(None) => attribute_name(data@) == Ok::<Option<Seq<char>>, DriverError>(None),
                Err(error) => attribute_name(data@) == Err::<Option<Seq<char>>, DriverError>(error),
            },
    {
        if data[9] == 0 {
            return Ok(None);
        }
        let start: usize = read_u16_le(data, 10) as usize;
        let end: usize = start + 2 * (data[9] as usize);
        if start < 16 || end as u64 > read_u32_le(data, 4) as u64 {
            return Err(DriverError::OutOfBounds);
        }
        let units: Vec<u16> = read_units_le(vstd::slice::slice_subrange(data, start, end), false);
        match decode_utf16(units.as_slice()) {
            Some(name) => Ok(Some(text_chars(name.as_str()))),
            None => Err(DriverError::Encoding),
        }
    }

    /// Reads the attribute at the start of data and its size.
    pub fn read(data: &[u8]) -> (result: Result<(usize, Self), DriverError>)
        ensures
            match result {
                Ok((size, attribute)) => {
                    &&& attribute_in(data@) == Ok::<NtfsAttributeInfo, DriverError>(attribute@)
                    &&& size == u32_le(data@, 4)
                    &&& 16 <= size <= data@.len()
                },
                Err(error) => attribute_in(data@) == Err::<NtfsAttributeInfo, DriverError>(error),
            },
    {
        let length: usize = data.len();
        if length < 16 {
            return Err(DriverError::Unsupported);
        }
        let size: u32 = read_u32_le(data, 4);
        if size < 16 || size as u64 > length as u64 {
            return Err(DriverError::Unsupported);
        }
        let name: Option<Vec<char>> = Self::read_name(data)?;
        if data[8] == 0 {
            if size < 24 {
                return Err(DriverError::OutOfBounds);
            }
            let resident_size: u32 = read_u32_le(data, 16);
            let resident_offset: u16 = read_u16_le(data, 20);
            if resident_offset < 24 || resident_offset as u64 + resident_size as u64
                > size as u64 {
                return Err(DriverError::OutOfBounds);
            }
            let resident_data: &[u8] = vstd::slice::slice_subrange(
                data,
                resident_offset as usize,
                resident_offset as usize + resident_size as usize,
            );
            let attribute = NtfsAttribute {
                attribute_type: read_u32_le(data, 0),
                name,
                is_resident: true,
                data_flags: read_u16_le(data, 12),
                data_size: resident_size as u64,
                resident_data: vstd::slice::slice_to_vec(resident_data),
                data_runs: Vec::new(),
            };
            assert(attribute.data_runs@ =~= Seq::<NtfsDataRun>::empty());
            return Ok((size as usize, attribute));
        }
        if size < 64 || read_u16_le(data, 34) > 0 {
            return Err(DriverError::Unsupported);
        }
        let runs_offset: u16 = read_u16_le(data, 32);
        if runs_offset < 64 || runs_offset as u32 > size {
            return Err(DriverError::OutOfBounds);
        }
        let data_runs: Vec<NtfsDataRun> = read_data_runs(
            data,
            read_u64_le(data, 16),
            runs_offset as usize,
        )?;
        let attribute = NtfsAttribute {
            attribute_type: read_u32_le(data, 0),
            name,
            is_resident: false,
            data_flags: read_u16_le(data, 12),
            data_size: read_u64_le(data, 48),
            resident_data: Vec::new(),
            data_runs,
        };
        assert(attribute.resident_data@ =~= Seq::<u8>::empty());
        Ok((size as usize, attribute))
    }

    /// Determines the extents of the data of the attribute.
    pub fn read_extents(&self, cluster_size: u32) -> (result: Result<Vec<FileExtent>, DriverError>)
        ensures
            match result {
                Ok(extents) => attribute_extents(cluster_size, self@) == Ok::<
                    Seq<FileExtent>,
                    DriverError,
                >(extents@),
                Err(error) => attribute_extents(cluster_size, self@) == Err::<
                    Seq<FileExtent>,
                    DriverError,
                >(error),
            },
    {
        if self.is_resident || self.data_flags % 256 != 0 {
            return Err(DriverError::Unsupported);
        }
        make_run_extents(cluster_size, self.data_size, &self.data_runs)
    }
}

/// What attributes say.
pub open spec fn attributes_view(attributes: Seq<NtfsAttribute>) -> Seq<NtfsAttributeInfo> {
    Seq::new(attributes.len(), |i: int| attributes[i]@)
}

/// NTFS MFT entry.
pub struct NtfsMftEntry {
    pub base_record_file_reference: u64,
    pub attributes: Vec<NtfsAttribute>,
    pub is_directory: bool,
}

impl NtfsMftEntry {
    /// What the MFT entry says.
    pub open spec fn view(&self) -> NtfsEntryInfo {
        NtfsEntryInfo {
            base_record_file_reference: self.base_record_file_reference,
            attributes: attributes_view(self.attributes@),
            is_directory: self.is_directory,
        }
    }

    fn read_attributes(data: &[u8], offset: usize) -> (result: Result<
        Vec<NtfsAttribute>,
        DriverError,
    >)
        ensures
            match result {
                Ok(attributes) => attributes_from(data@, offset as int, Seq::empty()) == Ok::<
                    Seq<NtfsAttributeInfo>,
                    DriverError,
                >(attributes_view(attributes@)),
                Err(error) => attributes_from(data@, offset as int, Seq::empty()) == Err::<
                    Seq<NtfsAttributeInfo>,
                    DriverError,
                >(error),
            },
    {
        let ghost whole = attributes_from(data@, offset as int, Seq::empty());
        let length: usize = data.len();
        let mut attributes: Vec<NtfsAttribute> = Vec::new();
        let mut at: usize = offset;
        assert(attributes_view(attributes@) =~= Seq::<NtfsAttributeInfo>::empty());
        if at > length {
            return Err(DriverError::OutOfBounds);
        }
        loop
            invariant
                at <= length,
                length == data@.len(),
                whole == attributes_from(data@, offset as int, Seq::empty()),
                whole == attributes_from(data@, at as int, attributes_view(attributes@)),
            decreases length - at,
        {
            if length - at < 4 {
                return Err(DriverError::OutOfBounds);
            }
            if read_u32_le(data, at) == 0xffff_ffff {
                return Ok(attributes);
            }
            let (size, attribute) = NtfsAttribute::read(
                vstd::slice::slice_subrange(data, at, length),
            )?;
            let ghost before = attributes_view(attributes@);
            let ghost info = attribute@;
            attributes.push(attribute);
            assert(attributes_view(attributes@) =~= before.push(info));
            at = at + size;
        }
    }

    fn read_data(data: Vec<u8>) -> (result: Result<Self, DriverError>)
        requires
            42 <= data@.len(),
        ensures
            match result {
                Ok(entry) => entry_in(data@) == Ok::<NtfsEntryInfo, DriverError>(entry@),
                Err(error) => entry_in(data@) == Err::<NtfsEntryInfo, DriverError>(error),
            },
    {
        let mut record: Vec<u8> = data;
        let length: usize = record.len();
        if read_u32_be(record.as_slice(), 0) != 0x4649_4c45 {
            return Err(DriverError::Unsupported);
        }
        let fixup_offset: usize = read_u16_le(record.as_slice(), 4) as usize;
        let fixup_count: u16 = read_u16_le(record.as_slice(), 6);
        let attributes_offset: usize = read_u16_le(record.as_slice(), 20) as usize;
        let flags: u16 = read_u16_le(record.as_slice(), 22);
        let base_record_file_reference: u64 = read_u64_le(record.as_slice(), 32);
        if fixup_offset < 42 || attributes_offset > length || fixup_offset >= attributes_offset {
            return Err(DriverError::OutOfBounds);
        }
        apply_fixup_values(&mut record, fixup_offset, fixup_count)?;
        let attributes: Vec<NtfsAttribute> = Self::read_attributes(
            record.as_slice(),
            attributes_offset,
        )?;
        Ok(
            NtfsMftEntry {
                base_record_file_reference,
                attributes,
                is_directory: (flags / 2) % 2 == 1,
            },
        )
    }

    /// Reads the MFT entry at an offset.
    pub fn read_at(source: &DataSourceReference, entry_size: u32, offset: u64) -> (result: Result<
        Self,
        DriverError,
    >)
        requires
            42 <= entry_size <= 65535,
        ensures
            match result {
                Ok(entry) => entry_at(source.content(), entry_size, offset as int) == Ok::<
                    NtfsEntryInfo,
                    DriverError,
                >(entry@),
                Err(error) => source.readable() ==> entry_at(
                    source.content(),
                    entry_size,
                    offset as int,
                ) == Err::<NtfsEntryInfo, DriverError>(error),
            },
    {
        let data: Vec<u8> = read_bytes(source, offset, entry_size as usize)?;
        Self::read_data(data)
    }

    /// Retrieves the first attribute with a type and a name.
    pub fn find_attribute(&self, name: Option<&[char]>, attribute_type: u32) -> (attribute: Option<
        &NtfsAttribute,
    >)
        ensures
            match attribute {
                Some(attribute) => first_attribute(
                    self@.attributes,
                    match name {
                        Some(name) => Some(name@),
                        None => None,
                    },
                    attribute_type,
                ) == Some(attribute@),
                None => first_attribute(
                    self@.attributes,
                    match name {
                        Some(name) => Some(name@),
                        None => None,
                    },
                    attribute_type,
                ) is None,
            },
    {
        let ghost views = self@.attributes;
        let ghost wanted: Option<Seq<char>> = match name {
            Some(name) => Some(name@),
            None => None,
        };
        let mut index: usize = 0;
        while index < self.attributes.len()
            invariant
                index <= self.attributes@.len(),
                views == attributes_view(self.attributes@),
                wanted == (match name {
                    Some(name) => Some(name@),
                    None => None,
                }),
                first_attribute(views, wanted, attribute_type) == first_attribute_from(
                    views,
                    wanted,
                    attribute_type,
                    index as int,
                ),
            decreases self.attributes@.len() - index,
        {
            let attribute: &NtfsAttribute = &self.attributes[index];
            assert(views[index as int] == attribute@);
            let same_name: bool = match (&attribute.name, name) {
                (Some(attribute_name), Some(name)) => same_text(attribute_name.as_slice(), name),
                (None, None) => true,
                _ => false,
            };
            if attribute.attribute_type == attribute_type && same_name {
                return Some(attribute);
            }
            index += 1;
        }
        None
    }
}

} // verus!
