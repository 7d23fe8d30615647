//! Block tables of UDIF files.

use vstd::prelude::*;
use vstd::utf8::encode_utf8;

use crate::bytes::{holds_be, lemma_holds_be, read_u32_be, read_u64_be, u32_be, u64_be};
use crate::encoding::{base64_decode, base64_decoded, base64_encoded, lemma_base64_decoded};
use crate::error::DriverError;
use crate::scan::{
    find_from, find_pattern, find_sections, lemma_found_at, matches_at, sections, texts_view,
};
use crate::text::{chars_text, text_chars};

verus! {

/// How a range of the medium is stored.
#[derive(Clone, Copy, Debug, PartialEq, Eq, Structural)]
pub enum UdifBlockRangeType {
    Compressed,
    InFile,
    Sparse,
}

/// A range of the medium.
#[derive(Clone, Copy, Debug, PartialEq, Eq, Structural)]
pub struct UdifBlockRange {
    pub media_offset: u64,
    pub data_offset: u64,
    pub size: u64,
    pub compressed_data_size: u32,
    pub range_type: UdifBlockRangeType,
}

/// The ranges that were read from block tables.
pub struct UdifRanges {
    pub ranges: Seq<UdifBlockRange>,
    pub media_sector: u64,
    pub compressed_entry_type: u32,
}

impl UdifRanges {
    /// Where the next range starts.
    pub open spec fn media_offset(self) -> int {
        512 * self.media_sector
    }
}

/// Before any block table was read.
pub open spec fn no_ranges() -> UdifRanges {
    UdifRanges { ranges: Seq::empty(), media_sector: 0, compressed_entry_type: 0 }
}

/// The texts of the block tables of a property list: the data elements of the array after the key
/// "blkx".
pub open spec fn block_table_texts(plist: Seq<char>) -> Result<Seq<Seq<char>>, DriverError> {
    match find_from(plist, "<key>blkx</key>"@, 0) {
        None => Err(DriverError::Missing),
        Some(key_at) => match find_from(plist, "<array>"@, key_at) {
            None => Err(DriverError::Missing),
            Some(array_at) => match find_from(plist, "</array>"@, array_at + 7) {
                None => Err(DriverError::Missing),
                Some(end) => sections(
                    plist.subrange(array_at + 7, end),
                    "<data>"@,
                    "</data>"@,
                ),
            },
        },
    }
}

/// The block tables of a property list are the data elements of the array behind the key "blkx": from the
/// first array mark behind the key on, up to the first one that closes an array.
pub proof fn lemma_block_table_texts(
    plist: Seq<char>,
    key_at: int,
    array_at: int,
    end: int,
)
    requires
        0 <= key_at <= array_at,
        matches_at(plist, "<key>blkx</key>"@, key_at),
        forall|i: int| 0 <= i < key_at ==> !#[trigger] matches_at(plist, "<key>blkx</key>"@, i),
        matches_at(plist, "<array>"@, array_at),
        forall|i: int| key_at <= i < array_at ==> !#[trigger] matches_at(plist, "<array>"@, i),
        array_at + "<array>"@.len() <= end,
        matches_at(plist, "</array>"@, end),
        forall|i: int|
            array_at + "<array>"@.len() <= i < end ==> !#[trigger] matches_at(
                plist,
                "</array>"@,
                i,
            ),
    ensures
        block_table_texts(plist) == sections(
            plist.subrange(array_at + "<array>"@.len(), end),
            "<data>"@,
            "</data>"@,
        ),
{
    reveal_strlit("<array>");
    lemma_found_at(plist, "<key>blkx</key>"@, 0, key_at);
    lemma_found_at(plist, "<array>"@, key_at, array_at);
    lemma_found_at(plist, "</array>"@, array_at + 7, end);
}

/// The data of the block tables is what their Base64 texts stand for, in their order.
pub proof fn lemma_tables_decoded(texts: Seq<Seq<char>>, tables: Seq<Seq<u8>>, index: int)
    requires
        texts.len() == tables.len(),
        0 <= index <= texts.len(),
        forall|i: int|
            0 <= i < texts.len() ==> encode_utf8(#[trigger] texts[i]) == base64_encoded(tables[i]),
    ensures
        decoded_from(texts, index, tables.take(index)) == Ok::<Seq<Seq<u8>>, DriverError>(tables),
    decreases texts.len() - index,
{
    if index < texts.len() {
        assert(encode_utf8(texts[index]) == base64_encoded(tables[index]));
        lemma_base64_decoded(tables[index]);
        assert(tables.take(index).push(tables[index]) =~= tables.take(index + 1));
        lemma_tables_decoded(texts, tables, index + 1);
    } else {
        assert(tables.take(index) =~= tables);
    }
}

/// The data that texts stand for from `index` on.
pub open spec fn decoded_from(texts: Seq<Seq<char>>, index: int, tables: Seq<Seq<u8>>) -> Result<
    Seq<Seq<u8>>,
    DriverError,
>
    decreases texts.len() - index,
{
    if index >= texts.len() {
        Ok(tables)
    } else {
        match base64_decoded(encode_utf8(texts[index])) {
            None => Err(DriverError::Invalid),
            Some(data) => decoded_from(texts, index + 1, tables.push(data)),
        }
    }
}

/// The block tables of a property list, of which there has to be one.
pub open spec fn block_tables(plist: Seq<char>) -> Result<Seq<Seq<u8>>, DriverError> {
    match block_table_texts(plist) {
        Err(error) => Err(error),
        Ok(texts) => match decoded_from(texts, 0, Seq::empty()) {
            Err(error) => Err(error),
            Ok(tables) => if tables.len() == 0 {
                Err(DriverError::Missing)
            } else {
                Ok(tables)
            },
        },
    }
}

/// Whether an entry is for a range that is not stored.
pub open spec fn is_sparse_type(entry_type: u32) -> bool {
    entry_type == 0 || entry_type == 2
}

/// Whether an entry is for a range that is compressed.
pub open spec fn is_compressed_type(entry_type: u32) -> bool {
    0x8000_0004 <= entry_type <= 0x8000_0008
}

/// The ranges after the one of the entry at an offset of a block table was added. It starts where
/// the ranges before it end, and its data lies in the data fork.
pub open spec fn add_entry(
    state: UdifRanges,
    data: Seq<u8>,
    offset: int,
    fork_offset: u64,
    fork_end: u64,
) -> Result<UdifRanges, DriverError> {
    let entry_type = u32_be(data, offset);
    let start_sector = u64_be(data, offset + 8);
    let number_of_sectors = u64_be(data, offset + 16);
    let data_offset = u64_be(data, offset + 24);
    let data_size = u64_be(data, offset + 32);
    if u64_be(data, 8) + start_sector != state.media_sector {
        Err(DriverError::OutOfBounds)
    } else if number_of_sectors == 0 || number_of_sectors > u64::MAX / 512 {
        Err(DriverError::OutOfBounds)
    } else if !is_sparse_type(entry_type) && !(fork_offset <= data_offset < fork_end && data_offset
        + data_size <= fork_end) {
        Err(DriverError::OutOfBounds)
    } else if is_compressed_type(entry_type) && number_of_sectors > 2048 {
        Err(DriverError::OutOfBounds)
    } else if !is_sparse_type(entry_type) && entry_type != 1 && !is_compressed_type(entry_type) {
        Err(DriverError::Unsupported)
    } else if is_compressed_type(entry_type) && state.compressed_entry_type != 0
        && state.compressed_entry_type != entry_type {
        Err(DriverError::Unsupported)
    } else if is_compressed_type(entry_type) && data_size > u32::MAX {
        Err(DriverError::Overflow)
    } else if state.media_offset() + 512 * number_of_sectors > u64::MAX {
        Err(DriverError::Overflow)
    } else {
        Ok(
            UdifRanges {
                ranges: state.ranges.push(
                    UdifBlockRange {
                        media_offset: state.media_offset() as u64,
                        data_offset: if is_sparse_type(entry_type) {
                            0
                        } else {
                            data_offset
                        },
                        size: (512 * number_of_sectors) as u64,
                        compressed_data_size: if is_compressed_type(entry_type) {
                            data_size as u32
                        } else {
                            0
                        },
                        range_type: if is_sparse_type(entry_type) {
                            UdifBlockRangeType::Sparse
                        } else if entry_type == 1 {
                            UdifBlockRangeType::InFile
                        } else {
                            UdifBlockRangeType::Compressed
                        },
                    },
                ),
                media_sector: (state.media_sector + number_of_sectors) as u64,
                compressed_entry_type: if is_compressed_type(entry_type) {
                    entry_type
                } else {
                    state.compressed_entry_type
                },
            },
        )
    }
}

/// The ranges after those of the entries of a block table from `index` on were added. A comment is
/// passed over, and the entry with the highest type ends the table.
pub open spec fn add_entries(
    state: UdifRanges,
    data: Seq<u8>,
    fork_offset: u64,
    fork_end: u64,
    index: int,
) -> Result<UdifRanges, DriverError>
    decreases u32_be(data, 200) - index,
{
    if index >= u32_be(data, 200) {
        Ok(state)
    } else if u32_be(data, 204 + 40 * index) == 0xffff_ffff {
        Ok(state)
    } else if u32_be(data, 204 + 40 * index) == 0x7fff_fffe {
        add_entries(state, data, fork_offset, fork_end, index + 1)
    } else {
        match add_entry(state, data, 204 + 40 * index, fork_offset, fork_end) {
            Err(error) => Err(error),
            Ok(next) => add_entries(next, data, fork_offset, fork_end, index + 1),
        }
    }
}

/// The ranges after those of a block table were added. The table has the signature "mish" and
/// starts at the sector where the ranges before it end.
pub open spec fn add_table(
    state: UdifRanges,
    data: Seq<u8>,
    fork_offset: u64,
    fork_end: u64,
) -> Result<UdifRanges, DriverError> {
    if data.len() < 204 || u32_be(data, 0) != 0x6d69_7368 || u32_be(data, 4) != 1 {
        Err(DriverError::Unsupported)
    } else if 204 + 40 * u32_be(data, 200) > data.len() || u64_be(data, 8) != state.media_sector {
        Err(DriverError::OutOfBounds)
    } else {
        add_entries(state, data, fork_offset, fork_end, 0)
    }
}

/// The ranges after those of the block tables from `index` on were added.
pub open spec fn add_tables(
    state: UdifRanges,
    tables: Seq<Seq<u8>>,
    fork_offset: u64,
    fork_end: u64,
    index: int,
) -> Result<UdifRanges, DriverError>
    decreases tables.len() - index,
{
    if index >= tables.len() {
        Ok(state)
    } else {
        match add_table(state, tables[index], fork_offset, fork_end) {
            Err(error) => Err(error),
            Ok(next) => add_tables(next, tables, fork_offset, fork_end, index + 1),
        }
    }
}

/// What an entry of a block table stores.
pub struct UdifStoredEntry {
    pub entry_type: int,
    pub start_sector: int,
    pub number_of_sectors: int,
    pub data_offset: int,
    pub data_size: int,
}

/// Whether an entry of a block table is stored at an offset, in big-endian order.
pub open spec fn holds_entry(data: Seq<u8>, offset: int, entry: UdifStoredEntry) -> bool {
    &&& holds_be(data, offset, 4, entry.entry_type)
    &&& holds_be(data, offset + 8, 8, entry.start_sector)
    &&& holds_be(data, offset + 16, 8, entry.number_of_sectors)
    &&& holds_be(data, offset + 24, 8, entry.data_offset)
    &&& holds_be(data, offset + 32, 8, entry.data_size)
}

/// Whether a range is the one of an entry, from an offset of the medium on: types 0 and 2 are not
/// stored, type 1 is stored as it is, and those from 0x80000004 to 0x80000008 are compressed.
pub open spec fn is_entry_range(
    range: UdifBlockRange,
    media_offset: int,
    entry: UdifStoredEntry,
) -> bool {
    &&& range.media_offset == media_offset
    &&& range.size == 512 * entry.number_of_sectors
    &&& entry.entry_type == 0 || entry.entry_type == 2 ==> range.range_type is Sparse
    &&& entry.entry_type == 1 ==> range.range_type is InFile && range.data_offset
        == entry.data_offset
    &&& 0x8000_0004 <= entry.entry_type <= 0x8000_0008 ==> {
        &&& range.range_type is Compressed
        &&& range.data_offset == entry.data_offset
        &&& range.compressed_data_size == entry.data_size
    }
}

/// An entry that is stored adds its range behind those that came before it. The data of one that is
/// stored lies in the data fork, and a compressed one has at most 2048 sectors and is compressed like
/// those before it.
pub proof fn lemma_entry_stored(
    state: UdifRanges,
    data: Seq<u8>,
    offset: int,
    entry: UdifStoredEntry,
    fork_offset: u64,
    fork_end: u64,
)
    requires
        holds_entry(data, offset, entry),
        0 <= entry.start_sector,
        u64_be(data, 8) + entry.start_sector == state.media_sector,
        0 < entry.number_of_sectors,
        512 * state.media_sector + 512 * entry.number_of_sectors <= u64::MAX,
        entry.entry_type == 0 || entry.entry_type == 2 || {
            &&& fork_offset <= entry.data_offset < fork_end
            &&& entry.data_offset + entry.data_size <= fork_end
            &&& entry.entry_type == 1 || {
                &&& 0x8000_0004 <= entry.entry_type <= 0x8000_0008
                &&& entry.number_of_sectors <= 2048
                &&& entry.data_size <= u32::MAX
                &&& state.compressed_entry_type == 0 || state.compressed_entry_type
                    == entry.entry_type
            }
        },
    ensures
        ({
            let result = add_entry(state, data, offset, fork_offset, fork_end);
            &&& result is Ok
            &&& result->Ok_0.ranges.drop_last() == state.ranges
            &&& is_entry_range(result->Ok_0.ranges.last(), 512 * state.media_sector, entry)
            &&& result->Ok_0.media_sector == state.media_sector + entry.number_of_sectors
            &&& result->Ok_0.compressed_entry_type == (if 0x8000_0004 <= entry.entry_type {
                entry.entry_type
            } else {
                state.compressed_entry_type as int
            })
        }),
{
    broadcast use lemma_holds_be;

    let result = add_entry(state, data, offset, fork_offset, fork_end);
    assert(result->Ok_0.ranges.drop_last() =~= state.ranges);
}

/// Whether a block table is stored: behind the characters "mish", in big-endian order, version 1, its
/// first sector and, at offset 200, the number of its entries, which follow.
pub open spec fn holds_table(data: Seq<u8>, start_sector: int, entries: Seq<UdifStoredEntry>) -> bool {
    &&& data.len() >= 204 + 40 * entries.len()
    &&& data[0] == 0x6d && data[1] == 0x69 && data[2] == 0x73 && data[3] == 0x68
    &&& holds_be(data, 4, 4, 1)
    &&& holds_be(data, 8, 8, start_sector)
    &&& holds_be(data, 200, 4, entries.len() as int)
    &&& forall|i: int|
        0 <= i < entries.len() ==> holds_entry(data, 204 + 40 * i, #[trigger] entries[i])
}

/// The entries of a block table are added in their order, without comments, up to the one that ends the
/// table. `states` are the ranges before each entry and after the last one.
pub proof fn lemma_table_stored(
    data: Seq<u8>,
    entries: Seq<UdifStoredEntry>,
    states: Seq<UdifRanges>,
    fork_offset: u64,
    fork_end: u64,
)
    requires
        states.len() == entries.len() + 1,
        holds_table(data, states[0].media_sector as int, entries),
        forall|i: int|
            0 <= i < entries.len() ==> if (#[trigger] entries[i]).entry_type == 0xffff_ffff {
                states[i] == states.last()
            } else if entries[i].entry_type == 0x7fff_fffe {
                states[i] == states[i + 1]
            } else {
                add_entry(states[i], data, 204 + 40 * i, fork_offset, fork_end) == Ok::<
                    UdifRanges,
                    DriverError,
                >(states[i + 1])
            },
    ensures
        add_table(states[0], data, fork_offset, fork_end) == Ok::<UdifRanges, DriverError>(
            states.last(),
        ),
{
    broadcast use lemma_holds_be;

    assert(u32_be(data, 0) == 0x6d69_7368);
    lemma_table_stored_from(data, entries, states, fork_offset, fork_end, 0);
}

proof fn lemma_table_stored_from(
    data: Seq<u8>,
    entries: Seq<UdifStoredEntry>,
    states: Seq<UdifRanges>,
    fork_offset: u64,
    fork_end: u64,
    index: int,
)
    requires
        states.len() == entries.len() + 1,
        holds_table(data, states[0].media_sector as int, entries),
        forall|i: int|
            0 <= i < entries.len() ==> if (#[trigger] entries[i]).entry_type == 0xffff_ffff {
                states[i] == states.last()
            } else if entries[i].entry_type == 0x7fff_fffe {
                states[i] == states[i + 1]
            } else {
                add_entry(states[i], data, 204 + 40 * i, fork_offset, fork_end) == Ok::<
                    UdifRanges,
                    DriverError,
                >(states[i + 1])
            },
        0 <= index <= entries.len(),
    ensures
        add_entries(states[index], data, fork_offset, fork_end, index) == Ok::<
            UdifRanges,
            DriverError,
        >(states.last()),
    decreases entries.len() - index,
{
    broadcast use lemma_holds_be;

    assert(u32_be(data, 200) == entries.len());
    if index < entries.len() {
        let entry = entries[index];
        assert(holds_entry(data, 204 + 40 * index, entry));
        assert(u32_be(data, 204 + 40 * index) == entry.entry_type);
        if entry.entry_type != 0xffff_ffff {
            lemma_table_stored_from(data, entries, states, fork_offset, fork_end, index + 1);
        }
    }
}

/// Whether ranges follow each other up to `end`.
pub open spec fn block_ranges_end_at(ranges: Seq<UdifBlockRange>, end: int) -> bool
    decreases ranges.len(),
{
    if ranges.len() == 0 {
        end == 0
    } else {
        &&& 0 < ranges.last().size
        &&& ranges.last().media_offset + ranges.last().size == end
        &&& ranges.last().range_type is Compressed ==> ranges.last().size <= 0x10_0000
        &&& block_ranges_end_at(ranges.drop_last(), ranges.last().media_offset as int)
    }
}

/// The ranges while block tables are read.
pub struct UdifRangeList {
    pub ranges: Vec<UdifBlockRange>,
    pub media_sector: u64,
    pub compressed_entry_type: u32,
}

/// The data of each of a list of block tables.
pub open spec fn tables_view(tables: Seq<Vec<u8>>) -> Seq<Seq<u8>> {
    Seq::new(tables.len(), |i: int| tables[i]@)
}

impl UdifRangeList {
    /// The ranges that were read.
    pub open spec fn view(&self) -> UdifRanges {
        UdifRanges {
            ranges: self.ranges@,
            media_sector: self.media_sector,
            compressed_entry_type: self.compressed_entry_type,
        }
    }

    /// Whether the ranges follow each other and their offsets can be represented.
    pub open spec fn is_sound(&self) -> bool {
        &&& self@.media_offset() <= u64::MAX
        &&& block_ranges_end_at(self.ranges@, self@.media_offset())
    }

    /// Creates a list without ranges.
    pub fn new() -> (list: Self)
        ensures
            list@ == no_ranges(),
            list.is_sound(),
    {
        let list = UdifRangeList {
            ranges: Vec::new(),
            media_sector: 0,
            compressed_entry_type: 0,
        };
        assert(list.ranges@ =~= Seq::<UdifBlockRange>::empty());
        list
    }

    fn read_entry(self, data: &[u8], offset: usize, fork_offset: u64, fork_end: u64) -> (result:
        Result<Self, DriverError>)
        requires
            204 <= offset,
            offset + 40 <= data@.len(),
            self.is_sound(),
        ensures
            match result {
                Ok(list) => {
                    &&& add_entry(self@, data@, offset as int, fork_offset, fork_end) == Ok::<
                        UdifRanges,
                        DriverError,
                    >(list@)
                    &&& list.is_sound()
                },
                Err(error) => add_entry(self@, data@, offset as int, fork_offset, fork_end)
                    == Err::<UdifRanges, DriverError>(error),
            },
    {
        let length: usize = data.len();
        assert(offset + 40 <= length);
        let entry_type: u32 = read_u32_be(data, offset);
        let start_sector: u64 = read_u64_be(data, offset + 8);
        let number_of_sectors: u64 = read_u64_be(data, offset + 16);
        let data_offset: u64 = read_u64_be(data, offset + 24);
        let data_size: u64 = read_u64_be(data, offset + 32);
        let table_start: u64 = read_u64_be(data, 8);
        let sparse: bool = entry_type == 0 || entry_type == 2;
        let compressed: bool = 0x8000_0004 <= entry_type && entry_type <= 0x8000_0008;

        match table_start.checked_add(start_sector) {
            Some(sector) => if sector != self.media_sector {
                return Err(DriverError::OutOfBounds);
            },
            None => return Err(DriverError::OutOfBounds),
        }
        if number_of_sectors == 0 || number_of_sectors > u64::MAX / 512 {
            return Err(DriverError::OutOfBounds);
        }
        if !sparse && (data_offset < fork_offset || data_offset >= fork_end || data_size > fork_end
            - data_offset) {
            return Err(DriverError::OutOfBounds);
        }
        if compressed && number_of_sectors > 2048 {
            return Err(DriverError::OutOfBounds);
        }
        if !sparse && entry_type != 1 && !compressed {
            return Err(DriverError::Unsupported);
        }
        if compressed && self.compressed_entry_type != 0 && self.compressed_entry_type
            != entry_type {
            return Err(DriverError::Unsupported);
        }
        if compressed && data_size > u32::MAX as u64 {
            return Err(DriverError::Overflow);
        }
        let media_offset: u64 = 512 * self.media_sector;
        let size: u64 = 512 * number_of_sectors;
        if size > u64::MAX - media_offset {
            return Err(DriverError::Overflow);
        }
        let range = UdifBlockRange {
            media_offset,
            data_offset: if sparse {
                0
            } else {
                data_offset
            },
            size,
            compressed_data_size: if compressed {
                data_size as u32
            } else {
                0
            },
            range_type: if sparse {
                UdifBlockRangeType::Sparse
            } else if entry_type == 1 {
                UdifBlockRangeType::InFile
            } else {
                UdifBlockRangeType::Compressed
            },
        };
        let mut list = self;
        let ghost before = list.ranges@;
        list.ranges.push(range);
        list.media_sector = list.media_sector + number_of_sectors;
        if compressed {
            list.compressed_entry_type = entry_type;
        }
        assert(list.ranges@.drop_last() =~= before);
        Ok(list)
    }

    fn read_table(self, data: &[u8], fork_offset: u64, fork_end: u64) -> (result: Result<
        Self,
        DriverError,
    >)
        requires
            self.is_sound(),
        ensures
            match result {
                Ok(list) => {
                    &&& add_table(self@, data@, fork_offset, fork_end) == Ok::<
                        UdifRanges,
                        DriverError,
                    >(list@)
                    &&& list.is_sound()
                },
                Err(error) => add_table(self@, data@, fork_offset, fork_end) == Err::<
                    UdifRanges,
                    DriverError,
                >(error),
            },
    {
        let length: usize = data.len();
        if length < 204 || read_u32_be(data, 0) != 0x6d69_7368 || read_u32_be(data, 4) != 1 {
            return Err(DriverError::Unsupported);
        }
        let count: u32 = read_u32_be(data, 200);
        if 204 + 40 * (count as u64) > length as u64 || read_u64_be(data, 8) != self.media_sector {
            return Err(DriverError::OutOfBounds);
        }
        let ghost whole = add_entries(self@, data@, fork_offset, fork_end, 0);
        let mut list = self;
        let mut index: usize = 0;
        let mut offset: usize = 204;
        while index < count as usize
            invariant
                index <= count,
                offset == 204 + 40 * index,
                count == u32_be(data@, 200),
                length == data@.len(),
                204 + 40 * count <= length,
                whole == add_entries(self@, data@, fork_offset, fork_end, 0),
                whole == add_entries(list@, data@, fork_offset, fork_end, index as int),
                add_table(self@, data@, fork_offset, fork_end) == whole,
                list.is_sound(),
            decreases count - index,
        {
            let entry_type: u32 = read_u32_be(data, offset);
            if entry_type == 0xffff_ffff {
                return Ok(list);
            }
            if entry_type != 0x7fff_fffe {
                list = list.read_entry(data, offset, fork_offset, fork_end)?;
            }
            offset = offset + 40;
            index += 1;
        }
        Ok(list)
    }

    /// Reads the ranges of block tables.
    pub fn read_tables(self, tables: &Vec<Vec<u8>>, fork_offset: u64, fork_end: u64) -> (result:
        Result<Self, DriverError>)
        requires
            self.is_sound(),
        ensures
            match result {
                Ok(list) => {
                    &&& add_tables(self@, tables_view(tables@), fork_offset, fork_end, 0) == Ok::<
                        UdifRanges,
                        DriverError,
                    >(list@)
                    &&& list.is_sound()
                },
                Err(error) => add_tables(self@, tables_view(tables@), fork_offset, fork_end, 0)
                    == Err::<UdifRanges, DriverError>(error),
            },
    {
        let ghost views = tables_view(tables@);
        let ghost whole = add_tables(self@, views, fork_offset, fork_end, 0);
        let mut list = self;
        let mut index: usize = 0;
        while index < tables.len()
            invariant
                index <= tables@.len(),
                views == tables_view(tables@),
                whole == add_tables(self@, views, fork_offset, fork_end, 0),
                whole == add_tables(list@, views, fork_offset, fork_end, index as int),
                list.is_sound(),
            decreases tables@.len() - index,
        {
            assert(views[index as int] == tables@[index as int]@);
            list = list.read_table(tables[index].as_slice(), fork_offset, fork_end)?;
            index += 1;
        }
        Ok(list)
    }
}

fn find_block_table_texts(plist: &[char]) -> (result: Result<Vec<Vec<char>>, DriverError>)
    ensures
        match result {
            Ok(texts) => block_table_texts(plist@) == Ok::<Seq<Seq<char>>, DriverError>(
                texts_view(texts@),
            ),
            Err(error) => block_table_texts(plist@) == Err::<Seq<Seq<char>>, DriverError>(error),
        },
{
    let key: Vec<char> = text_chars("<key>blkx</key>");
    let array_open: Vec<char> = text_chars("<array>");
    let array_close: Vec<char> = text_chars("</array>");
    let data_open: Vec<char> = text_chars("<data>");
    let data_close: Vec<char> = text_chars("</data>");
    proof {
        reveal_strlit("<array>");
        reveal_strlit("<data>");
    }
    let length: usize = plist.len();
    let key_at: usize = find_pattern(plist, key.as_slice(), 0).ok_or(DriverError::Missing)?;
    let array_at: usize = find_pattern(plist, array_open.as_slice(), key_at).ok_or(
        DriverError::Missing,
    )?;
    assert(array_at + 7 <= length);
    let start: usize = array_at + array_open.len();
    let end: usize = find_pattern(plist, array_close.as_slice(), start).ok_or(
        DriverError::Missing,
    )?;
    let array: &[char] = vstd::slice::slice_subrange(plist, start, end);
    find_sections(array, data_open.as_slice(), data_close.as_slice())
}

/// Retrieves the block tables of a property list.
pub(crate) fn extract_block_tables(plist: &[char]) -> (result: Result<Vec<Vec<u8>>, DriverError>)
    ensures
        match result {
            Ok(tables) => block_tables(plist@) == Ok::<Seq<Seq<u8>>, DriverError>(
                tables_view(tables@),
            ),
            Err(error) => block_tables(plist@) == Err::<Seq<Seq<u8>>, DriverError>(error),
        },
{
    let texts: Vec<Vec<char>> = find_block_table_texts(plist)?;
    let ghost views = texts_view(texts@);
    let mut tables: Vec<Vec<u8>> = Vec::new();
    let mut index: usize = 0;
    assert(tables_view(tables@) =~= Seq::<Seq<u8>>::empty());
    while index < texts.len()
        invariant
            index <= texts@.len(),
            views == texts_view(texts@),
            block_table_texts(plist@) == Ok::<Seq<Seq<char>>, DriverError>(views),
            decoded_from(views, 0, Seq::empty()) == decoded_from(
                views,
                index as int,
                tables_view(tables@),
            ),
        decreases texts@.len() - index,
    {
        let text: String = chars_text(texts[index].as_slice());
        assert(text@ == views[index as int]);
        let data: Vec<u8> = base64_decode(text.as_str().as_bytes()).ok_or(DriverError::Invalid)?;
        let ghost before = tables@;
        tables.push(data);
        assert(tables_view(tables@) =~= tables_view(before).push(data@));
        index += 1;
    }
    if tables.len() == 0 {
        return Err(DriverError::Missing);
    }
    Ok(tables)
}

proof fn lemma_entries_contiguous(
    state: UdifRanges,
    data: Seq<u8>,
    fork_offset: u64,
    fork_end: u64,
    index: int,
)
    requires
        block_ranges_end_at(state.ranges, state.media_offset()),
    ensures
        add_entries(state, data, fork_offset, fork_end, index) matches Ok(all)
            ==> block_ranges_end_at(all.ranges, all.media_offset()),
    decreases u32_be(data, 200) - index,
{
    if index < u32_be(data, 200) && u32_be(data, 204 + 40 * index) != 0xffff_ffff {
        if u32_be(data, 204 + 40 * index) == 0x7fff_fffe {
            lemma_entries_contiguous(state, data, fork_offset, fork_end, index + 1);
        } else if let Ok(next) = add_entry(
            state,
            data,
            204 + 40 * index,
            fork_offset,
            fork_end,
        ) {
            assert(next.ranges.drop_last() =~= state.ranges);
            lemma_entries_contiguous(next, data, fork_offset, fork_end, index + 1);
        }
    }
}

proof fn lemma_tables_contiguous(
    state: UdifRanges,
    tables: Seq<Seq<u8>>,
    fork_offset: u64,
    fork_end: u64,
    index: int,
)
    requires
        block_ranges_end_at(state.ranges, state.media_offset()),
    ensures
        add_tables(state, tables, fork_offset, fork_end, index) matches Ok(all)
            ==> block_ranges_end_at(all.ranges, all.media_offset()),
    decreases tables.len() - index,
{
    if index < tables.len() {
        lemma_entries_contiguous(state, tables[index], fork_offset, fork_end, 0);
        if let Ok(next) = add_table(state, tables[index], fork_offset, fork_end) {
            lemma_tables_contiguous(next, tables, fork_offset, fork_end, index + 1);
        }
    }
}

/// The ranges of block tables make up the medium: each starts where the one before it ends, and
/// none is empty.
pub proof fn lemma_ranges_contiguous(tables: Seq<Seq<u8>>, fork_offset: u64, fork_end: u64)
    ensures
        add_tables(no_ranges(), tables, fork_offset, fork_end, 0) matches Ok(all)
            ==> block_ranges_end_at(all.ranges, all.media_offset()),
{
    lemma_tables_contiguous(no_ranges(), tables, fork_offset, fork_end, 0);
}

} // verus!
