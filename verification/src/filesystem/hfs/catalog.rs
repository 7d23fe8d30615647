//! HFS catalog.

use vstd::prelude::*;
use vstd::utf8::encode_utf8;

use super::btree::{
    holds_node, is_node_size, is_sorted, lemma_node_offsets_stored, node_offsets, read_node_offsets,
    record_data, records_end, HfsBtreeHeader,
};
use super::fork::{
    blocks_of, count_blocks_of, fork_at, holds_extents, holds_fork, lemma_blocks_of,
    lemma_fork_stored, lemma_small_extents_stored, read_small_extents, small_extents_from,
    HfsExtent, HfsFork, HfsForkInfo, HfsFormat,
};
use crate::bytes::{holds_be, lemma_holds_be, read_u16_be, read_u32_be, u16_be, u32_be};
use crate::error::DriverError;
use crate::filesystem::visited::{is_cycle, nodes_left, VisitedNodes};
use crate::source::data_source::{read_bytes, Content, DataSource, DataSourceReference};
use crate::text::{
    decode_utf16, encode_utf16, holds_units_be, lemma_stored_utf8_text, lemma_units_be,
    lemma_utf16_text, read_units_be, stored_utf8_text, units_be, utf16_text, utf8_text_lossy,
};

verus! {

/// The key of a catalog record.
pub struct HfsKeyInfo {
    pub size: int,
    pub parent_identifier: u32,
    pub name: Seq<char>,
}

/// What a catalog record for a file or directory says.
pub struct HfsEntryInfo {
    pub identifier: u32,
    pub parent_identifier: u32,
    pub name: Seq<char>,
    pub is_directory: bool,
    pub data_fork: Option<HfsForkInfo>,
}

/// A unit of a name. A zero is shown as its symbol and a slash as a colon.
pub open spec fn name_unit(unit: u16) -> u16 {
    if unit == 0 {
        0x2400
    } else if unit == 0x2f {
        0x3a
    } else {
        unit
    }
}

/// The units of a name.
pub open spec fn name_units(units: Seq<u16>) -> Seq<u16> {
    Seq::new(units.len(), |i: int| name_unit(units[i]))
}

/// The key of a catalog record of HFS.
pub open spec fn small_key_in(data: Seq<u8>) -> Result<HfsKeyInfo, DriverError> {
    let key_size = data[0] as int;
    let name_size = if key_size >= 6 {
        data[6] as int
    } else {
        0
    };
    if data.len() == 0 {
        Err(DriverError::Unsupported)
    } else if key_size + 1 > data.len() || 7 + name_size > data.len() {
        Err(DriverError::OutOfBounds)
    } else {
        Ok(
            HfsKeyInfo {
                size: 1 + key_size,
                parent_identifier: if key_size >= 6 {
                    u32_be(data, 2)
                } else {
                    0
                },
                name: stored_utf8_text(data.subrange(7, 7 + name_size)),
            },
        )
    }
}

/// The key of a catalog record of HFS+.
pub open spec fn large_key_in(data: Seq<u8>) -> Result<HfsKeyInfo, DriverError> {
    let key_size = u16_be(data, 0) as int;
    let name_size = if key_size >= 6 {
        u16_be(data, 6) as int
    } else {
        0
    };
    if data.len() < 2 {
        Err(DriverError::Unsupported)
    } else if key_size + 2 > data.len() || 8 + 2 * name_size > data.len() {
        Err(DriverError::OutOfBounds)
    } else {
        match utf16_text(name_units(units_be(data.subrange(8, 8 + 2 * name_size)))) {
            None => Err(DriverError::Encoding),
            Some(name) => Ok(
                HfsKeyInfo {
                    size: 2 + key_size,
                    parent_identifier: if key_size >= 4 {
                        u32_be(data, 2)
                    } else {
                        0
                    },
                    name,
                },
            ),
        }
    }
}

/// The key of a catalog record.
pub open spec fn key_in(format: HfsFormat, data: Seq<u8>) -> Result<HfsKeyInfo, DriverError> {
    if format == HfsFormat::Hfs {
        small_key_in(data)
    } else {
        large_key_in(data)
    }
}

/// What the part of a catalog record of HFS behind its key says.
pub open spec fn small_entry_in(data: Seq<u8>, offset: int, key: HfsKeyInfo) -> Result<
    Option<HfsEntryInfo>,
    DriverError,
> {
    if offset + 2 > data.len() {
        Err(DriverError::OutOfBounds)
    } else if u16_be(data, offset) == 0x100 {
        if offset + 10 > data.len() {
            Err(DriverError::OutOfBounds)
        } else {
            Ok(
                Some(
                    HfsEntryInfo {
                        identifier: u32_be(data, offset + 6),
                        parent_identifier: key.parent_identifier,
                        name: key.name,
                        is_directory: true,
                        data_fork: None,
                    },
                ),
            )
        }
    } else if u16_be(data, offset) == 0x200 {
        let size = u32_be(data, offset + 26);
        if offset + 30 > data.len() {
            Err(DriverError::OutOfBounds)
        } else {
            match small_extents_from(data, offset + 74, 0, Seq::empty()) {
                Err(error) => Err(error),
                Ok(extents) => Ok(
                    Some(
                        HfsEntryInfo {
                            identifier: u32_be(data, offset + 20),
                            parent_identifier: key.parent_identifier,
                            name: key.name,
                            is_directory: false,
                            data_fork: Some(
                                HfsForkInfo {
                                    size: size as u64,
                                    number_of_blocks: blocks_of(size, 512),
                                    extents,
                                },
                            ),
                        },
                    ),
                ),
            }
        }
    } else {
        Ok(None)
    }
}

/// What the part of a catalog record of HFS+ behind its key says.
pub open spec fn large_entry_in(data: Seq<u8>, offset: int, key: HfsKeyInfo) -> Result<
    Option<HfsEntryInfo>,
    DriverError,
> {
    if offset + 2 > data.len() {
        Err(DriverError::OutOfBounds)
    } else if u16_be(data, offset) == 1 {
        if offset + 12 > data.len() {
            Err(DriverError::OutOfBounds)
        } else {
            Ok(
                Some(
                    HfsEntryInfo {
                        identifier: u32_be(data, offset + 8),
                        parent_identifier: key.parent_identifier,
                        name: key.name,
                        is_directory: true,
                        data_fork: None,
                    },
                ),
            )
        }
    } else if u16_be(data, offset) == 2 {
        if offset + 168 > data.len() {
            Err(DriverError::OutOfBounds)
        } else {
            Ok(
                Some(
                    HfsEntryInfo {
                        identifier: u32_be(data, offset + 8),
                        parent_identifier: key.parent_identifier,
                        name: key.name,
                        is_directory: false,
                        data_fork: Some(fork_at(data, offset + 88)),
                    },
                ),
            )
        }
    } else {
        Ok(None)
    }
}

/// What a catalog record says, if it is one for a file or directory.
pub open spec fn entry_in(format: HfsFormat, data: Seq<u8>) -> Result<
    Option<HfsEntryInfo>,
    DriverError,
> {
    match key_in(format, data) {
        Err(error) => Err(error),
        Ok(key) => if format == HfsFormat::Hfs {
            small_entry_in(data, key.size + key.size % 2, key)
        } else {
            large_entry_in(data, key.size, key)
        },
    }
}

/// Entries after those of the records of a node from `index` on were added.
pub open spec fn add_records_from(
    format: HfsFormat,
    data: Seq<u8>,
    offsets: Seq<u16>,
    index: int,
    entries: Seq<HfsEntryInfo>,
) -> Result<Seq<HfsEntryInfo>, DriverError>
    decreases offsets.len() - index,
{
    if index >= offsets.len() {
        Ok(entries)
    } else {
        match entry_in(format, record_data(data, offsets, index)) {
            Err(error) => Err(error),
            Ok(None) => add_records_from(format, data, offsets, index + 1, entries),
            Ok(Some(entry)) => add_records_from(
                format,
                data,
                offsets,
                index + 1,
                entries.push(entry),
            ),
        }
    }
}

/// Entries after those of the leaf node in data were added.
pub open spec fn add_leaf(format: HfsFormat, data: Seq<u8>, entries: Seq<HfsEntryInfo>) -> Result<
    Seq<HfsEntryInfo>,
    DriverError,
> {
    match node_offsets(data) {
        Err(error) => Err(error),
        Ok(offsets) => if data[8] != 0xff {
            Err(DriverError::Unsupported)
        } else {
            add_records_from(format, data, offsets, 0, entries)
        },
    }
}

/// Entries after those of a leaf node and the ones that follow it were added. No node may follow
/// twice.
pub open spec fn add_leaves(
    catalog: Content,
    format: HfsFormat,
    node_size: u16,
    number: u32,
    visited: Seq<u64>,
    entries: Seq<HfsEntryInfo>,
) -> Result<Seq<HfsEntryInfo>, DriverError>
    decreases nodes_left(visited),
{
    if number == 0 {
        Ok(entries)
    } else if is_cycle(visited, number as u64) {
        Err(DriverError::Cycle)
    } else {
        match catalog.exact(number * node_size, node_size as nat) {
            Err(error) => Err(error),
            Ok(data) => match add_leaf(format, data, entries) {
                Err(error) => Err(error),
                Ok(more) => add_leaves(
                    catalog,
                    format,
                    node_size,
                    u32_be(data, 0),
                    visited.push(number as u64),
                    more,
                ),
            },
        }
    }
}

/// Whether the key of a catalog record of HFS is stored: the number of bytes behind the first one, the
/// identifier of the parent in big-endian order, the size of the name and the name.
pub open spec fn holds_small_key(data: Seq<u8>, key: HfsKeyInfo) -> bool {
    let name = encode_utf8(key.name);
    &&& 7 <= key.size <= data.len()
    &&& data[0] == key.size - 1
    &&& holds_be(data, 2, 4, key.parent_identifier as int)
    &&& data[6] == name.len()
    &&& 7 + name.len() <= data.len()
    &&& forall|i: int| 0 <= i < name.len() ==> data[7 + i] == #[trigger] name[i]
}

/// Whether the key of a catalog record of HFS+ is stored, in big-endian order: the number of bytes behind
/// the first two, the identifier of the parent, the number of units of the name and the units.
pub open spec fn holds_large_key(data: Seq<u8>, key: HfsKeyInfo) -> bool {
    let units = encode_utf16(key.name);
    &&& 8 <= key.size <= data.len()
    &&& holds_be(data, 0, 2, key.size - 2)
    &&& holds_be(data, 2, 4, key.parent_identifier as int)
    &&& holds_be(data, 6, 2, units.len() as int)
    &&& 8 + 2 * units.len() <= data.len()
    &&& holds_units_be(data, 8, units)
}

/// A key that is stored is read back. A name of HFS+ with a slash or a zero has another character in its
/// place.
pub proof fn lemma_key_stored(data: Seq<u8>, key: HfsKeyInfo)
    ensures
        holds_small_key(data, key) ==> key_in(HfsFormat::Hfs, data) == Ok::<
            HfsKeyInfo,
            DriverError,
        >(key),
        holds_large_key(data, key) && !encode_utf16(key.name).contains(0) && !encode_utf16(
            key.name,
        ).contains(0x2f) ==> key_in(HfsFormat::HfsPlus, data) == Ok::<HfsKeyInfo, DriverError>(key),
        key_in(HfsFormat::HfsX, data) == key_in(HfsFormat::HfsPlus, data),
{
    broadcast use lemma_holds_be;

    if holds_small_key(data, key) {
        let name = encode_utf8(key.name);
        assert(data.subrange(7, 7 + name.len() as int) =~= name);
        lemma_stored_utf8_text(key.name);
    }
    let units = encode_utf16(key.name);
    if holds_large_key(data, key) && !units.contains(0) && !units.contains(0x2f) {
        lemma_units_be(data, 8, 8 + 2 * units.len() as int, units);
        assert forall|i: int| 0 <= i < units.len() implies #[trigger] name_units(units)[i]
            == units[i] by {
            assert(units.contains(units[i]));
        }
        assert(name_units(units) =~= units);
        lemma_utf16_text(key.name);
    }
}

/// A slash in a name of HFS+ is shown as a colon, and a zero as its symbol.
pub proof fn lemma_name_unit(units: Seq<u16>, i: int)
    requires
        0 <= i < units.len(),
    ensures
        name_units(units).len() == units.len(),
        units[i] == 0x2f ==> name_units(units)[i] == 0x3a,
        units[i] == 0 ==> name_units(units)[i] == 0x2400,
        units[i] != 0x2f && units[i] != 0 ==> name_units(units)[i] == units[i],
{
}

/// Whether what a catalog record of HFS says is stored at an offset, in big-endian order: type 0x100 and
/// the identifier of a directory, or type 0x200 and the identifier, the size and the three extents of a
/// file.
pub open spec fn holds_small_entry(data: Seq<u8>, offset: int, entry: HfsEntryInfo) -> bool {
    if entry.is_directory {
        &&& offset + 10 <= data.len()
        &&& holds_be(data, offset, 2, 0x100)
        &&& holds_be(data, offset + 6, 4, entry.identifier as int)
        &&& entry.data_fork is None
    } else {
        &&& offset + 86 <= data.len()
        &&& holds_be(data, offset, 2, 0x200)
        &&& holds_be(data, offset + 20, 4, entry.identifier as int)
        &&& entry.data_fork is Some
        &&& holds_be(data, offset + 26, 4, entry.data_fork->0.size as int)
        &&& entry.data_fork->0.size <= u32::MAX
        &&& 512 * entry.data_fork->0.number_of_blocks - 512 < entry.data_fork->0.size <= 512
            * entry.data_fork->0.number_of_blocks
        &&& holds_extents(data, offset + 74, 2, 3, entry.data_fork->0.extents)
    }
}

/// Whether what a catalog record of HFS+ says is stored at an offset, in big-endian order: type 1 and the
/// identifier of a directory, or type 2, the identifier and the data fork of a file.
pub open spec fn holds_large_entry(data: Seq<u8>, offset: int, entry: HfsEntryInfo) -> bool {
    &&& holds_be(data, offset + 8, 4, entry.identifier as int)
    &&& if entry.is_directory {
        &&& offset + 12 <= data.len()
        &&& holds_be(data, offset, 2, 1)
        &&& entry.data_fork is None
    } else {
        &&& offset + 168 <= data.len()
        &&& holds_be(data, offset, 2, 2)
        &&& entry.data_fork is Some
        &&& holds_fork(data, offset + 88, entry.data_fork->0)
    }
}

/// A record of HFS that is stored is read back: what it says follows the key, from the next even offset
/// on.
pub proof fn lemma_small_record_stored(
    data: Seq<u8>,
    key: HfsKeyInfo,
    entry: HfsEntryInfo,
    offset: int,
)
    requires
        holds_small_key(data, key),
        offset == key.size || offset == key.size + 1,
        offset % 2 == 0,
        holds_small_entry(data, offset, entry),
        entry.parent_identifier == key.parent_identifier,
        entry.name == key.name,
    ensures
        entry_in(HfsFormat::Hfs, data) == Ok::<Option<HfsEntryInfo>, DriverError>(Some(entry)),
{
    broadcast use lemma_holds_be;

    lemma_key_stored(data, key);
    if !entry.is_directory {
        let fork = entry.data_fork->0;
        lemma_small_extents_stored(data, offset + 74, fork.extents);
        lemma_blocks_of(fork.size as u32, 512, fork.number_of_blocks);
    }
}

/// A record of HFS+ that is stored is read back: what it says follows the key.
pub proof fn lemma_large_record_stored(data: Seq<u8>, key: HfsKeyInfo, entry: HfsEntryInfo)
    requires
        holds_large_key(data, key),
        !encode_utf16(key.name).contains(0),
        !encode_utf16(key.name).contains(0x2f),
        holds_large_entry(data, key.size, entry),
        entry.parent_identifier == key.parent_identifier,
        entry.name == key.name,
    ensures
        entry_in(HfsFormat::HfsPlus, data) == Ok::<Option<HfsEntryInfo>, DriverError>(Some(entry)),
        entry_in(HfsFormat::HfsX, data) == Ok::<Option<HfsEntryInfo>, DriverError>(Some(entry)),
{
    broadcast use lemma_holds_be;

    lemma_key_stored(data, key);
    if !entry.is_directory {
        lemma_fork_stored(data, key.size + 88, entry.data_fork->0);
    }
}

/// The entries of the records that have one.
pub open spec fn present_entries(records: Seq<Option<HfsEntryInfo>>) -> Seq<HfsEntryInfo>
    decreases records.len(),
{
    if records.len() == 0 {
        Seq::empty()
    } else {
        match records.last() {
            None => present_entries(records.drop_last()),
            Some(entry) => present_entries(records.drop_last()).push(entry),
        }
    }
}

/// The entries of a leaf node are those of its records, each of which goes from its offset to that of
/// the next one, in their order.
pub proof fn lemma_leaf_stored(
    format: HfsFormat,
    data: Seq<u8>,
    offsets: Seq<u16>,
    records: Seq<Option<HfsEntryInfo>>,
    entries: Seq<HfsEntryInfo>,
)
    requires
        holds_node(data, 0xff, offsets),
        is_sorted(offsets),
        records.len() == offsets.len(),
        forall|i: int|
            0 <= i < offsets.len() ==> entry_in(
                format,
                data.subrange(
                    offsets[i] as int,
                    if i + 1 < offsets.len() {
                        offsets[i + 1] as int
                    } else {
                        data.len() - 2 * (offsets.len() + 1)
                    },
                ),
            ) == Ok::<Option<HfsEntryInfo>, DriverError>(#[trigger] records[i]),
    ensures
        add_leaf(format, data, entries) == Ok::<Seq<HfsEntryInfo>, DriverError>(
            entries + present_entries(records),
        ),
{
    lemma_node_offsets_stored(data, 0xff, offsets);
    lemma_holds_be(data, 10, 2, offsets.len() as int);
    assert(records.take(0) =~= Seq::empty());
    assert(entries + present_entries(records.take(0)) =~= entries);
    lemma_records_stored_from(format, data, offsets, records, entries, 0);
}

proof fn lemma_records_stored_from(
    format: HfsFormat,
    data: Seq<u8>,
    offsets: Seq<u16>,
    records: Seq<Option<HfsEntryInfo>>,
    entries: Seq<HfsEntryInfo>,
    index: int,
)
    requires
        records_end(data) == data.len() - 2 * (offsets.len() + 1),
        records.len() == offsets.len(),
        0 <= index <= offsets.len(),
        forall|i: int|
            0 <= i < offsets.len() ==> entry_in(
                format,
                data.subrange(
                    offsets[i] as int,
                    if i + 1 < offsets.len() {
                        offsets[i + 1] as int
                    } else {
                        data.len() - 2 * (offsets.len() + 1)
                    },
                ),
            ) == Ok::<Option<HfsEntryInfo>, DriverError>(#[trigger] records[i]),
    ensures
        add_records_from(
            format,
            data,
            offsets,
            index,
            entries + present_entries(records.take(index)),
        ) == Ok::<Seq<HfsEntryInfo>, DriverError>(entries + present_entries(records)),
    decreases offsets.len() - index,
{
    if index < offsets.len() {
        assert(records.take(index + 1).drop_last() =~= records.take(index));
        let before = entries + present_entries(records.take(index));
        let record = records[index];
        assert(entry_in(format, record_data(data, offsets, index)) == Ok::<
            Option<HfsEntryInfo>,
            DriverError,
        >(record));
        if let Some(entry) = record {
            assert(before.push(entry) =~= entries + present_entries(records.take(index + 1)));
        }
        lemma_records_stored_from(format, data, offsets, records, entries, index + 1);
    } else {
        assert(records.take(index) =~= records);
    }
}

/// The leaf nodes follow each other by the numbers in their first four bytes, from the first one on up
/// to one without a number. `states` are the entries before each of them and after the last one.
pub proof fn lemma_leaves_stored(
    catalog: Content,
    format: HfsFormat,
    node_size: u16,
    numbers: Seq<u32>,
    states: Seq<Seq<HfsEntryInfo>>,
    visited: Seq<u64>,
    index: int,
)
    requires
        0 <= index < numbers.len() <= u64::MAX,
        states.len() == numbers.len() + 1,
        numbers.no_duplicates(),
        visited.len() == index,
        forall|i: int| 0 <= i < index ==> #[trigger] visited[i] == numbers[i],
        forall|i: int|
            0 <= i < numbers.len() ==> holds_leaf(
                catalog,
                format,
                node_size,
                #[trigger] numbers[i],
                if i + 1 < numbers.len() {
                    numbers[i + 1]
                } else {
                    0
                },
                states[i],
                states[i + 1],
            ),
    ensures
        add_leaves(catalog, format, node_size, numbers[index], visited, states[index]) == Ok::<
            Seq<HfsEntryInfo>,
            DriverError,
        >(states.last()),
    decreases numbers.len() - index,
{
    let number = numbers[index];
    let data = catalog.window(number * node_size, node_size as nat);
    let next = if index + 1 < numbers.len() {
        numbers[index + 1]
    } else {
        0
    };
    assert(holds_leaf(
        catalog,
        format,
        node_size,
        number,
        next,
        states[index],
        states[index + 1],
    ));
    assert(!visited.contains(number as u64)) by {
        if visited.contains(number as u64) {
            let i = choose|i: int| 0 <= i < visited.len() && visited[i] == number as u64;
            assert(numbers[i] == numbers[index]);
        }
    }
    lemma_holds_be(data, 0, 4, next as int);
    if index + 1 < numbers.len() {
        lemma_leaves_stored(
            catalog,
            format,
            node_size,
            numbers,
            states,
            visited.push(number as u64),
            index + 1,
        );
    } else {
        assert(add_leaves(
            catalog,
            format,
            node_size,
            0,
            visited.push(number as u64),
            states[index + 1],
        ) == Ok::<Seq<HfsEntryInfo>, DriverError>(states[index + 1]));
    }
}

/// Whether a leaf node that is not the first node lies behind the nodes before it, gives the number of
/// the next one, and adds its entries to those before it.
pub open spec fn holds_leaf(
    catalog: Content,
    format: HfsFormat,
    node_size: u16,
    number: u32,
    next_number: u32,
    before: Seq<HfsEntryInfo>,
    after: Seq<HfsEntryInfo>,
) -> bool {
    let data = catalog.window(number * node_size, node_size as nat);
    &&& number != 0
    &&& catalog.has(number * node_size, node_size as int)
    &&& holds_be(data, 0, 4, next_number as int)
    &&& add_leaf(format, data, before) == Ok::<Seq<HfsEntryInfo>, DriverError>(after)
}

/// Catalog entry.
pub struct HfsCatalogEntry {
    pub identifier: u32,
    pub parent_identifier: u32,
    pub name: String,
    pub is_directory: bool,
    pub data_fork: Option<HfsFork>,
}

impl HfsCatalogEntry {
    /// What the catalog entry says.
    pub open spec fn view(&self) -> HfsEntryInfo {
        HfsEntryInfo {
            identifier: self.identifier,
            parent_identifier: self.parent_identifier,
            name: self.name@,
            is_directory: self.is_directory,
            data_fork: match self.data_fork {
                Some(fork) => Some(fork@),
                None => None,
            },
        }
    }

    /// Whether the fork has no more extents than there is space for.
    pub open spec fn is_sound(&self) -> bool {
        self.data_fork matches Some(fork) ==> fork.is_sound()
    }

    fn read_small(data: &[u8], offset: usize, parent_identifier: u32, name: String) -> (result:
        Result<Option<Self>, DriverError>)
        requires
            offset <= 0x1_0000,
        ensures
            forall|key: HfsKeyInfo|
                key.parent_identifier == parent_identifier && key.name == name@ ==> (match result {
                    Ok(Some(entry)) => {
                        &&& #[trigger] small_entry_in(data@, offset as int, key) == Ok::<
                            Option<HfsEntryInfo>,
                            DriverError,
                        >(Some(entry@))
                        &&& entry.is_sound()
                    },
                    Ok(None) => small_entry_in(data@, offset as int, key) == Ok::<
                        Option<HfsEntryInfo>,
                        DriverError,
                    >(None),
                    Err(error) => small_entry_in(data@, offset as int, key) == Err::<
                        Option<HfsEntryInfo>,
                        DriverError,
                    >(error),
                }),
    {
        let length: usize = data.len();
        if offset + 2 > length {
            return Err(DriverError::OutOfBounds);
        }
        let record_type: u16 = read_u16_be(data, offset);
        if record_type == 0x100 {
            if offset + 10 > length {
                return Err(DriverError::OutOfBounds);
            }
            return Ok(
                Some(
                    HfsCatalogEntry {
                        identifier: read_u32_be(data, offset + 6),
                        parent_identifier,
                        name,
                        is_directory: true,
                        data_fork: None,
                    },
                ),
            );
        }
        if record_type != 0x200 {
            return Ok(None);
        }
        if offset + 30 > length {
            return Err(DriverError::OutOfBounds);
        }
        let size: u32 = read_u32_be(data, offset + 26);
        let extents: Vec<HfsExtent> = read_small_extents(data, offset + 74)?;
        let fork = HfsFork {
            size: size as u64,
            number_of_blocks: count_blocks_of(size, 512),
            extents,
        };
        Ok(
            Some(
                HfsCatalogEntry {
                    identifier: read_u32_be(data, offset + 20),
                    parent_identifier,
                    name,
                    is_directory: false,
                    data_fork: Some(fork),
                },
            ),
        )
    }

    fn read_large(data: &[u8], offset: usize, parent_identifier: u32, name: String) -> (result:
        Result<Option<Self>, DriverError>)
        requires
            offset <= 0x1_0008,
        ensures
            forall|key: HfsKeyInfo|
                key.parent_identifier == parent_identifier && key.name == name@ ==> (match result {
                    Ok(Some(entry)) => {
                        &&& #[trigger] large_entry_in(data@, offset as int, key) == Ok::<
                            Option<HfsEntryInfo>,
                            DriverError,
                        >(Some(entry@))
                        &&& entry.is_sound()
                    },
                    Ok(None) => large_entry_in(data@, offset as int, key) == Ok::<
                        Option<HfsEntryInfo>,
                        DriverError,
                    >(None),
                    Err(error) => large_entry_in(data@, offset as int, key) == Err::<
                        Option<HfsEntryInfo>,
                        DriverError,
                    >(error),
                }),
    {
        let length: usize = data.len();
        if offset + 2 > length {
            return Err(DriverError::OutOfBounds);
        }
        let record_type: u16 = read_u16_be(data, offset);
        if record_type != 1 && record_type != 2 {
            return Ok(None);
        }
        if offset + 12 > length {
            return Err(DriverError::OutOfBounds);
        }
        let identifier: u32 = read_u32_be(data, offset + 8);
        if record_type == 1 {
            return Ok(
                Some(
                    HfsCatalogEntry {
                        identifier,
                        parent_identifier,
                        name,
                        is_directory: true,
                        data_fork: None,
                    },
                ),
            );
        }
        if offset + 168 > length {
            return Err(DriverError::OutOfBounds);
        }
        let fork = HfsFork::read_at(data, offset + 88);
        Ok(
            Some(
                HfsCatalogEntry {
                    identifier,
                    parent_identifier,
                    name,
                    is_directory: false,
                    data_fork: Some(fork),
                },
            ),
        )
    }

    /// Reads a catalog record.
    pub fn read(format: HfsFormat, data: &[u8]) -> (result: Result<Option<Self>, DriverError>)
        ensures
            match result {
                Ok(Some(entry)) => {
                    &&& entry_in(format, data@) == Ok::<Option<HfsEntryInfo>, DriverError>(
                        Some(entry@),
                    )
                    &&& entry.is_sound()
                },
                Ok(None) => entry_in(format, data@) == Ok::<Option<HfsEntryInfo>, DriverError>(
                    None,
                ),
                Err(error) => entry_in(format, data@) == Err::<Option<HfsEntryInfo>, DriverError>(
                    error,
                ),
            },
    {
        let (size, parent_identifier, name) = read_catalog_key(format, data)?;
        match format {
            HfsFormat::Hfs => Self::read_small(data, size + size % 2, parent_identifier, name),
            HfsFormat::HfsPlus => Self::read_large(data, size, parent_identifier, name),
            HfsFormat::HfsX => Self::read_large(data, size, parent_identifier, name),
        }
    }
}

fn read_catalog_key(format: HfsFormat, data: &[u8]) -> (result: Result<
    (usize, u32, String),
    DriverError,
>)
    ensures
        match result {
            Ok((size, parent_identifier, name)) => {
                &&& key_in(format, data@) == Ok::<HfsKeyInfo, DriverError>(
                    HfsKeyInfo { size: size as int, parent_identifier, name: name@ },
                )
                &&& size <= (if format == HfsFormat::Hfs {
                    0x100
                } else {
                    0x1_0001int
                })
            },
            Err(error) => key_in(format, data@) == Err::<HfsKeyInfo, DriverError>(error),
        },
{
    match format {
        HfsFormat::Hfs => read_small_key(data),
        HfsFormat::HfsPlus => read_large_key(data),
        HfsFormat::HfsX => read_large_key(data),
    }
}

fn read_small_key(data: &[u8]) -> (result: Result<(usize, u32, String), DriverError>)
    ensures
        match result {
            Ok((size, parent_identifier, name)) => {
                &&& small_key_in(data@) == Ok::<HfsKeyInfo, DriverError>(
                    HfsKeyInfo { size: size as int, parent_identifier, name: name@ },
                )
                &&& size <= 0x100
            },
            Err(error) => small_key_in(data@) == Err::<HfsKeyInfo, DriverError>(error),
        },
{
    let length: usize = data.len();
    if length == 0 {
        return Err(DriverError::Unsupported);
    }
    let key_size: usize = data[0] as usize;
    if key_size > length - 1 {
        return Err(DriverError::OutOfBounds);
    }
    let mut name_size: usize = 0;
    let mut parent_identifier: u32 = 0;
    if key_size >= 6 {
        name_size = data[6] as usize;
        parent_identifier = read_u32_be(data, 2);
    }
    if 7 + name_size > length {
        return Err(DriverError::OutOfBounds);
    }
    let name: String = utf8_text_lossy(vstd::slice::slice_subrange(data, 7, 7 + name_size));
    Ok((1 + key_size, parent_identifier, name))
}

fn read_large_key(data: &[u8]) -> (result: Result<(usize, u32, String), DriverError>)
    ensures
        match result {
            Ok((size, parent_identifier, name)) => {
                &&& large_key_in(data@) == Ok::<HfsKeyInfo, DriverError>(
                    HfsKeyInfo { size: size as int, parent_identifier, name: name@ },
                )
                &&& size <= 0x1_0001
            },
            Err(error) => large_key_in(data@) == Err::<HfsKeyInfo, DriverError>(error),
        },
{
    let length: usize = data.len();
    if length < 2 {
        return Err(DriverError::Unsupported);
    }
    let key_size: usize = read_u16_be(data, 0) as usize;
    if key_size > length - 2 {
        return Err(DriverError::OutOfBounds);
    }
    let mut name_size: usize = 0;
    let mut parent_identifier: u32 = 0;
    if key_size >= 6 {
        name_size = read_u16_be(data, 6) as usize;
    }
    if key_size >= 4 {
        parent_identifier = read_u32_be(data, 2);
    }
    if 8 + 2 * name_size > length {
        return Err(DriverError::OutOfBounds);
    }
    let stored: Vec<u16> = read_units_be(
        vstd::slice::slice_subrange(data, 8, 8 + 2 * name_size),
        false,
    );
    let mut units: Vec<u16> = Vec::new();
    let mut index: usize = 0;
    while index < stored.len()
        invariant
            index <= stored@.len(),
            units@ == name_units(stored@).take(index as int),
        decreases stored@.len() - index,
    {
        let unit: u16 = stored[index];
        let shown: u16 = if unit == 0 {
            0x2400
        } else if unit == 0x2f {
            0x3a
        } else {
            unit
        };
        assert(name_units(stored@).take(index + 1) =~= name_units(stored@).take(
            index as int,
        ).push(shown));
        units.push(shown);
        index += 1;
    }
    assert(units@ =~= name_units(stored@));
    let name: String = decode_utf16(units.as_slice()).ok_or(DriverError::Encoding)?;
    Ok((2 + key_size, parent_identifier, name))
}

/// What catalog entries say.
pub open spec fn entries_view(entries: Seq<HfsCatalogEntry>) -> Seq<HfsEntryInfo> {
    Seq::new(entries.len(), |i: int| entries[i]@)
}

/// Whether the forks have no more extents than there is space for.
pub open spec fn entries_sound(entries: Seq<HfsCatalogEntry>) -> bool {
    forall|i: int| 0 <= i < entries.len() ==> (#[trigger] entries[i]).is_sound()
}

fn read_leaf(format: HfsFormat, data: &[u8], entries: Vec<HfsCatalogEntry>) -> (result: Result<
    Vec<HfsCatalogEntry>,
    DriverError,
>)
    requires
        512 <= data@.len() <= 32768,
        entries_sound(entries@),
    ensures
        match result {
            Ok(more) => {
                &&& add_leaf(format, data@, entries_view(entries@)) == Ok::<
                    Seq<HfsEntryInfo>,
                    DriverError,
                >(entries_view(more@))
                &&& entries_sound(more@)
            },
            Err(error) => add_leaf(format, data@, entries_view(entries@)) == Err::<
                Seq<HfsEntryInfo>,
                DriverError,
            >(error),
        },
{
    let offsets: Vec<u16> = read_node_offsets(data)?;
    if data[8] != 0xff {
        return Err(DriverError::Unsupported);
    }
    let ghost whole = add_leaf(format, data@, entries_view(entries@));
    let end: usize = data.len() - 2 * (read_u16_be(data, 10) as usize + 1);
    let mut more: Vec<HfsCatalogEntry> = entries;
    let mut index: usize = 0;
    while index < offsets.len()
        invariant
            index <= offsets@.len(),
            end == records_end(data@),
            end <= data@.len(),
            is_sorted(offsets@),
            forall|i: int| 0 <= i < offsets@.len() ==> (#[trigger] offsets@[i]) < end,
            entries_sound(more@),
            whole == add_leaf(format, data@, entries_view(entries@)),
            whole == add_records_from(
                format,
                data@,
                offsets@,
                index as int,
                entries_view(more@),
            ),
        decreases offsets@.len() - index,
    {
        let start: usize = offsets[index] as usize;
        let stop: usize = if index + 1 < offsets.len() {
            offsets[index + 1] as usize
        } else {
            end
        };
        assert(offsets@[index as int] < end);
        proof {
            if index + 1 < offsets@.len() {
                assert(offsets@[index + 1] < end);
            }
        }
        let record: &[u8] = vstd::slice::slice_subrange(data, start, stop);
        assert(record@ == record_data(data@, offsets@, index as int));
        let ghost before = entries_view(more@);
        if let Some(entry) = HfsCatalogEntry::read(format, record)? {
            let ghost info = entry@;
            more.push(entry);
            assert(entries_view(more@) =~= before.push(info));
        }
        index += 1;
    }
    Ok(more)
}

/// Reads the entries of the leaf nodes of a catalog.
pub fn read_catalog_entries(
    catalog: &DataSourceReference,
    format: HfsFormat,
    header: HfsBtreeHeader,
) -> (result: Result<Vec<HfsCatalogEntry>, DriverError>)
    requires
        is_node_size(header.node_size),
    ensures
        match result {
            Ok(entries) => {
                &&& add_leaves(
                    catalog.content(),
                    format,
                    header.node_size,
                    header.first_leaf_node_number,
                    Seq::empty(),
                    Seq::empty(),
                ) == Ok::<Seq<HfsEntryInfo>, DriverError>(entries_view(entries@))
                &&& entries_sound(entries@)
            },
            Err(error) => catalog.readable() ==> add_leaves(
                catalog.content(),
                format,
                header.node_size,
                header.first_leaf_node_number,
                Seq::empty(),
                Seq::empty(),
            ) == Err::<Seq<HfsEntryInfo>, DriverError>(error),
        },
{
    let ghost content = catalog.content();
    let ghost whole = add_leaves(
        content,
        format,
        header.node_size,
        header.first_leaf_node_number,
        Seq::empty(),
        Seq::empty(),
    );
    let mut entries: Vec<HfsCatalogEntry> = Vec::new();
    let mut visited = VisitedNodes::new();
    let mut number: u32 = header.first_leaf_node_number;
    assert(entries_view(entries@) =~= Seq::<HfsEntryInfo>::empty());
    while number != 0
        invariant
            content == catalog.content(),
            is_node_size(header.node_size),
            entries_sound(entries@),
            whole == add_leaves(
                content,
                format,
                header.node_size,
                header.first_leaf_node_number,
                Seq::empty(),
                Seq::empty(),
            ),
            whole == add_leaves(
                content,
                format,
                header.node_size,
                number,
                visited@,
                entries_view(entries@),
            ),
        decreases nodes_left(visited@),
    {
        if visited.contains(number as u64) {
            return Err(DriverError::Cycle);
        }
        proof {
            assert(0 <= number * header.node_size <= u64::MAX) by (nonlinear_arith)
                requires
                    0 <= number <= u32::MAX,
                    0 <= header.node_size <= u16::MAX,
            ;
        }
        let offset: u64 = number as u64 * header.node_size as u64;
        let data: Vec<u8> = read_bytes(catalog, offset, header.node_size as usize)?;
        entries = read_leaf(format, data.as_slice(), entries)?;
        visited = visited.add(number as u64);
        number = read_u32_be(data.as_slice(), 0);
    }
    Ok(entries)
}

} // verus!
