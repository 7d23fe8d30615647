//! FAT directories.

use vstd::prelude::*;
use vstd::utf8::encode_utf8;

use super::allocation_table::{check_cluster, is_cluster, next_cluster, read_next_cluster};
use super::boot_record::{padded_text, read_padded_text, trimmed_end, FatFormat, FatGeometry};
use crate::bytes::{
    holds_le, lemma_holds_le, read_u16_be, read_u16_le, read_u32_le, u16_be, u16_le, u32_le,
};
use crate::error::DriverError;
use crate::filesystem::visited::{is_cycle, nodes_left, VisitedNodes};
use crate::scan::{lowercase, lowercase_text, texts_view};
use crate::source::data_source::{read_bytes, Content, DataSource, DataSourceReference};
use crate::text::{
    chars_text, decode_utf16, encode_utf16, lemma_stored_utf8_text, lemma_utf16_text,
    stored_utf8_text, text_chars, utf16_text,
};

verus! {

/// What a directory entry says, with the long name that stands before it.
pub struct FatEntryInfo {
    pub identifier: u32,
    pub short_name: Seq<char>,
    pub file_attribute_flags: u8,
    pub data_start_cluster: u32,
    pub data_size: u32,
    pub long_name: Option<Seq<char>>,
}

impl FatEntryInfo {
    /// The long name, or the short one where there is none.
    pub open spec fn name(self) -> Seq<char> {
        match self.long_name {
            Some(name) => name,
            None => self.short_name,
        }
    }
}

/// The entries of a directory with their names in lower case, and its volume label.
pub struct FatListing {
    pub lookup_names: Seq<Seq<char>>,
    pub entries: Seq<FatEntryInfo>,
    pub volume_label: Option<Seq<char>>,
}

/// A directory without entries.
pub open spec fn no_listing() -> FatListing {
    FatListing { lookup_names: Seq::empty(), entries: Seq::empty(), volume_label: None }
}

/// The parts of a long name that were read so far, and the sequence number of the last one.
pub struct FatPending {
    pub units: Option<Seq<u16>>,
    pub sequence_number: u8,
}

/// Whether flags are those of a volume label.
pub open spec fn is_label(flags: u8) -> bool {
    (flags / 8) % 2 == 1 && (flags / 16) % 2 == 0 && (flags / 64) % 2 == 0
}

/// Whether flags are those of a directory.
pub open spec fn is_directory(flags: u8) -> bool {
    (flags / 8) % 2 == 0 && (flags / 16) % 2 == 1 && (flags / 64) % 2 == 0
}

/// Whether an entry is a part of a long name.
pub open spec fn is_long_name(data: Seq<u8>) -> bool {
    &&& u16_be(data, 11) == 0x0f00
    &&& u16_be(data, 26) == 0
    &&& 0x01 <= data[0] <= 0x13 || 0x41 <= data[0] <= 0x54
}

/// Whether an entry ends a directory.
pub open spec fn is_terminator(data: Seq<u8>) -> bool {
    forall|i: int| 0 <= i < 32 ==> data[i] == 0
}

/// The units of a part of a name, after those before it. A zero or a filler ends them.
pub open spec fn add_units(data: Seq<u8>, start: int, end: int, units: Seq<u16>) -> Seq<u16>
    decreases end - start,
{
    if start + 2 > end || u16_le(data, start) == 0 || u16_le(data, start) == 0xffff {
        units
    } else {
        add_units(data, start + 2, end, units.push(u16_le(data, start)))
    }
}

/// The units of the three parts of a long name in an entry.
pub open spec fn long_name_units(data: Seq<u8>) -> Seq<u16> {
    let first = add_units(data, 1, 11, Seq::empty());
    let second = if first.len() == 5 || u16_le(data, 14) != 0xffff {
        add_units(data, 14, 26, first)
    } else {
        first
    };
    if second.len() == 11 || u16_le(data, 28) != 0xffff {
        add_units(data, 28, 32, second)
    } else {
        second
    }
}

/// What is read of a long name after another part of it. The last part of the name comes first.
pub open spec fn add_long_name(data: Seq<u8>, pending: FatPending) -> Result<
    FatPending,
    DriverError,
> {
    let number = data[0] % 0x20;
    let starts = (data[0] / 0x40) % 2 == 1;
    if !starts && pending.sequence_number != 0 && number + 1 != pending.sequence_number {
        Err(DriverError::Invalid)
    } else {
        Ok(
            FatPending {
                units: Some(
                    long_name_units(data) + (if starts || pending.units is None {
                        Seq::empty()
                    } else {
                        pending.units->0
                    }),
                ),
                sequence_number: number,
            },
        )
    }
}

/// The text, in lower case where the flag says so.
pub open spec fn cased(text: Seq<char>, lower: bool) -> Seq<char> {
    if lower {
        lowercase(text)
    } else {
        text
    }
}

/// The short name of an entry. Its extension follows a dot except in a volume label.
pub open spec fn short_name_in(data: Seq<u8>) -> Seq<char> {
    let name = cased(padded_text(data, 0, 8), (data[12] / 8) % 2 == 1);
    let extension = padded_text(data, 8, 11);
    if extension.len() == 0 {
        name
    } else {
        (if is_label(data[11]) {
            name
        } else {
            name.push('.')
        }) + cased(extension, (data[12] / 16) % 2 == 1)
    }
}

/// The first cluster of an entry.
pub open spec fn start_cluster_in(data: Seq<u8>, format: FatFormat) -> u32 {
    if format == FatFormat::Fat32 {
        (0x1_0000 * u16_le(data, 20) + u16_le(data, 26)) as u32
    } else {
        u16_le(data, 26) as u32
    }
}

/// The first cluster that is stored in a directory entry is read back: every one below 2^32 on
/// FAT-32, with its lower 16 bits at offset 26 and its upper ones at offset 20, and every one below
/// 2^16 on FAT-12 and FAT-16, at offset 26.
pub proof fn lemma_start_cluster_stored(data: Seq<u8>, format: FatFormat, cluster: int)
    requires
        holds_le(data, 26, 2, cluster % 0x1_0000),
        format is Fat32 ==> 0 <= cluster < 0x1_0000_0000 && holds_le(
            data,
            20,
            2,
            cluster / 0x1_0000,
        ),
        !(format is Fat32) ==> 0 <= cluster < 0x1_0000,
    ensures
        start_cluster_in(data, format) == cluster,
{
    lemma_holds_le(data, 26, 2, cluster % 0x1_0000);
    if format is Fat32 {
        lemma_holds_le(data, 20, 2, cluster / 0x1_0000);
    }
}

/// Whether a directory entry with a short name is stored at an offset: a name of up to eight
/// characters and an extension of up to three, both filled up with spaces, flags, the first cluster
/// and the size of the data.
pub open spec fn holds_short_entry(
    data: Seq<u8>,
    at: int,
    format: FatFormat,
    name: Seq<u8>,
    extension: Seq<u8>,
    flags: u8,
    cluster: int,
    size: int,
) -> bool {
    &&& 0 <= at
    &&& at + 32 <= data.len()
    &&& name.len() <= 8
    &&& extension.len() <= 3
    &&& forall|i: int|
        0 <= i < 8 ==> #[trigger] data[at + i] == (if i < name.len() {
            name[i]
        } else {
            0x20
        })
    &&& forall|i: int|
        0 <= i < 3 ==> #[trigger] data[at + 8 + i] == (if i < extension.len() {
            extension[i]
        } else {
            0x20
        })
    &&& data[at + 11] == flags
    &&& holds_le(data, at + 26, 2, cluster % 0x1_0000)
    &&& format is Fat32 ==> 0 <= cluster < 0x1_0000_0000 && holds_le(
        data,
        at + 20,
        2,
        cluster / 0x1_0000,
    )
    &&& !(format is Fat32) ==> 0 <= cluster < 0x1_0000
    &&& holds_le(data, at + 28, 4, size)
}

/// A text that is filled up with spaces is read back without them, unless it ends with one.
pub proof fn lemma_padded_stored(data: Seq<u8>, start: int, end: int, bytes: Seq<u8>)
    requires
        0 <= start,
        start + bytes.len() <= end <= data.len(),
        bytes.len() > 0 ==> bytes.last() != 0x20,
        forall|i: int|
            start <= i < end ==> #[trigger] data[i] == (if i - start < bytes.len() {
                bytes[i - start]
            } else {
                0x20
            }),
    ensures
        padded_text(data, start, end) == stored_utf8_text(bytes),
{
    lemma_trimmed(data, start, end, start + bytes.len());
    assert(data.subrange(start, start + bytes.len()) =~= bytes);
}

proof fn lemma_trimmed(data: Seq<u8>, start: int, end: int, at: int)
    requires
        start <= at <= end,
        at > start ==> data[at - 1] != 0x20,
        forall|i: int| at <= i < end ==> #[trigger] data[i] == 0x20,
    ensures
        trimmed_end(data, start, end) == at,
    decreases end - at,
{
    if at < end {
        assert(data[end - 1] == 0x20);
        lemma_trimmed(data, start, end - 1, at);
    }
}

/// The text of a short name: the name and, behind a dot, the extension, where there is one.
pub open spec fn dotted(name: Seq<char>, extension: Seq<char>) -> Seq<char> {
    if extension.len() == 0 {
        name
    } else {
        name + seq!['.'] + extension
    }
}

/// A directory entry that is stored is found, with its name, flags, first cluster and size. The name
/// is as it is stored where no flag asks for lower case. No long name stands before it.
pub proof fn lemma_short_entry_stored(
    data: Seq<u8>,
    at: int,
    format: FatFormat,
    offset: int,
    name: Seq<u8>,
    extension: Seq<u8>,
    flags: u8,
    cluster: int,
    size: int,
    listing: FatListing,
)
    requires
        holds_short_entry(data, at, format, name, extension, flags, cluster, size),
        0 < name.len(),
        name[0] != 0xe5,
        name[0] != 0,
        name.last() != 0x20,
        extension.len() > 0 ==> extension.last() != 0x20,
        (flags / 8) % 2 == 0,
        data[at + 12] == 0,
        !is_dots(dotted(stored_utf8_text(name), stored_utf8_text(extension))),
        0 <= offset,
    ensures
        ({
            let text = dotted(stored_utf8_text(name), stored_utf8_text(extension));
            let entry = FatEntryInfo {
                identifier: ((offset + at) % 0x1_0000_0000) as u32,
                short_name: text,
                file_attribute_flags: flags,
                data_start_cluster: cluster as u32,
                data_size: size as u32,
                long_name: None,
            };
            add_entries_from(
                data,
                format,
                offset,
                at,
                listing,
                FatPending { units: None, sequence_number: 0 },
            ) == add_entries_from(
                data,
                format,
                offset,
                at + 32,
                FatListing {
                    lookup_names: listing.lookup_names.push(lowercase(text)),
                    entries: listing.entries.push(entry),
                    volume_label: listing.volume_label,
                },
                FatPending { units: None, sequence_number: 0 },
            )
        }),
{
    let entry = data.subrange(at, at + 32);
    reveal_with_fuel(holds_le, 5);
    assert(forall|i: int| 0 <= i < 32 ==> #[trigger] entry[i] == data[at + i]);
    assert(data[at + 0] == name[0]);
    assert(entry[0] == name[0]);
    assert(entry[11] == flags);
    assert(!is_long_name(entry)) by {
        if flags == 0x0f {
            assert((flags / 8) % 2 == 1);
        }
    }
    assert(!is_terminator(entry));
    assert(!is_label(entry[11]));
    assert forall|i: int| 0 <= i < 8 implies #[trigger] entry[i] == (if i - 0 < name.len() {
        name[i - 0]
    } else {
        0x20
    }) by {
        assert(data[at + i] == entry[i]);
    }
    lemma_padded_stored(entry, 0, 8, name);
    assert forall|i: int| 8 <= i < 11 implies #[trigger] entry[i] == (if i - 8 < extension.len() {
        extension[i - 8]
    } else {
        0x20
    }) by {
        assert(data[at + 8 + (i - 8)] == entry[i]);
    }
    lemma_padded_stored(entry, 8, 11, extension);
    assert(entry[12] == 0);
    let text = dotted(stored_utf8_text(name), stored_utf8_text(extension));
    if stored_utf8_text(extension).len() > 0 {
        assert(stored_utf8_text(name).push('.') =~= stored_utf8_text(name) + seq!['.']);
    }
    assert(short_name_in(entry) == text);
    assert(holds_le(entry, 26, 2, cluster % 0x1_0000));
    if format is Fat32 {
        assert(holds_le(entry, 20, 2, cluster / 0x1_0000));
    }
    lemma_start_cluster_stored(entry, format, cluster);
    assert(holds_le(entry, 28, 4, size));
    lemma_holds_le(entry, 28, 4, size);
}

/// The long name that was read, if there is one.
pub open spec fn pending_name(pending: FatPending) -> Result<Option<Seq<char>>, DriverError> {
    match pending.units {
        None => Ok(None),
        Some(units) => match utf16_text(units) {
            None => Err(DriverError::Encoding),
            Some(name) => Ok(Some(name)),
        },
    }
}

/// Whether a name is that of the directory itself or of its parent.
pub open spec fn is_dots(name: Seq<char>) -> bool {
    name == seq!['.'] || name == seq!['.', '.']
}

/// The listing and what is read of a long name after an entry with a short name.
pub open spec fn add_short_name(
    data: Seq<u8>,
    format: FatFormat,
    offset: int,
    listing: FatListing,
    pending: FatPending,
) -> Result<(FatListing, FatPending), DriverError> {
    let name = short_name_in(data);
    let kept = FatPending { units: pending.units, sequence_number: 0 };
    if is_label(data[11]) {
        Ok(
            (
                FatListing {
                    lookup_names: listing.lookup_names,
                    entries: listing.entries,
                    volume_label: Some(name),
                },
                kept,
            ),
        )
    } else if is_dots(name) {
        Ok((listing, kept))
    } else {
        match pending_name(pending) {
            Err(error) => Err(error),
            Ok(long_name) => {
                let entry = FatEntryInfo {
                    identifier: (offset % 0x1_0000_0000) as u32,
                    short_name: name,
                    file_attribute_flags: data[11],
                    data_start_cluster: start_cluster_in(data, format),
                    data_size: u32_le(data, 28),
                    long_name,
                };
                Ok(
                    (
                        FatListing {
                            lookup_names: listing.lookup_names.push(lowercase(entry.name())),
                            entries: listing.entries.push(entry),
                            volume_label: listing.volume_label,
                        },
                        FatPending { units: None, sequence_number: 0 },
                    ),
                )
            },
        }
    }
}

/// The listing after the entries in data from `at` on were added. The data stands at an offset.
pub open spec fn add_entries_from(
    data: Seq<u8>,
    format: FatFormat,
    offset: int,
    at: int,
    listing: FatListing,
    pending: FatPending,
) -> Result<FatListing, DriverError>
    decreases data.len() - at,
{
    let entry = data.subrange(at, at + 32);
    if at < 0 || at + 32 > data.len() {
        Ok(listing)
    } else if entry[0] == 0xe5 {
        add_entries_from(
            data,
            format,
            offset,
            at + 32,
            listing,
            FatPending { units: None, sequence_number: 0 },
        )
    } else if is_long_name(entry) {
        match add_long_name(entry, pending) {
            Err(error) => Err(error),
            Ok(more) => add_entries_from(data, format, offset, at + 32, listing, more),
        }
    } else if is_terminator(entry) {
        Ok(listing)
    } else {
        match add_short_name(entry, format, offset + at, listing, pending) {
            Err(error) => Err(error),
            Ok((more, rest)) => add_entries_from(data, format, offset, at + 32, more, rest),
        }
    }
}

/// The offset in an entry of a unit of a part of a long name: five, six and two of them follow each
/// other.
pub open spec fn unit_offset(i: int) -> int {
    if i < 5 {
        1 + 2 * i
    } else if i < 11 {
        14 + 2 * (i - 5)
    } else {
        28 + 2 * (i - 11)
    }
}

/// Whether a part of a long name is stored in an entry, in little-endian order: up to 13 units, with a
/// zero and fillers behind them where there are fewer.
pub open spec fn holds_name_part(data: Seq<u8>, units: Seq<u16>) -> bool {
    &&& 0 < units.len() <= 13
    &&& data.len() == 32
    &&& forall|i: int|
        0 <= i < units.len() ==> #[trigger] units[i] != 0 && units[i] != 0xffff && holds_le(
            data,
            unit_offset(i),
            2,
            units[i] as int,
        )
    &&& units.len() < 13 ==> holds_le(data, unit_offset(units.len() as int), 2, 0)
    &&& forall|i: int|
        units.len() < i < 13 ==> holds_le(data, #[trigger] unit_offset(i), 2, 0xffff)
}

proof fn lemma_units_added(
    data: Seq<u8>,
    start: int,
    end: int,
    before: Seq<u16>,
    units: Seq<u16>,
)
    requires
        start + 2 * units.len() <= end,
        forall|i: int|
            0 <= i < units.len() ==> #[trigger] units[i] != 0 && units[i] != 0xffff && u16_le(
                data,
                start + 2 * i,
            ) == units[i],
        start + 2 * units.len() + 2 > end || u16_le(data, start + 2 * units.len()) == 0 || u16_le(
            data,
            start + 2 * units.len(),
        ) == 0xffff,
    ensures
        add_units(data, start, end, before) == before + units,
    decreases units.len(),
{
    if units.len() == 0 {
        assert(before + units =~= before);
    } else {
        let rest = units.skip(1);
        assert(u16_le(data, start + 2 * 0) == units[0]);
        assert forall|i: int| 0 <= i < rest.len() implies #[trigger] rest[i] != 0 && rest[i]
            != 0xffff && u16_le(data, start + 2 + 2 * i) == rest[i] by {
            assert(rest[i] == units[i + 1]);
            assert(u16_le(data, start + 2 * (i + 1)) == units[i + 1]);
        }
        lemma_units_added(data, start + 2, end, before.push(units[0]), rest);
        assert(before.push(units[0]) + rest =~= before + units);
    }
}

/// The units of a part of a long name that is stored are read back.
pub proof fn lemma_name_part_stored(data: Seq<u8>, units: Seq<u16>)
    requires
        holds_name_part(data, units),
    ensures
        long_name_units(data) == units,
{
    let count = units.len() as int;
    assert forall|i: int| 0 <= i < count implies u16_le(data, unit_offset(i))
        == #[trigger] units[i] by {
        lemma_holds_le(data, unit_offset(i), 2, units[i] as int);
    }
    if count < 13 {
        lemma_holds_le(data, unit_offset(count), 2, 0);
    }
    assert forall|i: int| count < i < 13 implies u16_le(data, #[trigger] unit_offset(i))
        == 0xffff by {
        lemma_holds_le(data, unit_offset(i), 2, 0xffff);
    }
    let first = units.take(if count < 5 {
        count
    } else {
        5
    });
    let second = units.take(if count < 11 {
        count
    } else {
        11
    });
    assert forall|i: int| 0 <= i < first.len() implies #[trigger] first[i] != 0 && first[i]
        != 0xffff && u16_le(data, 1 + 2 * i) == first[i] by {
        assert(first[i] == units[i]);
        assert(unit_offset(i) == 1 + 2 * i);
    }
    assert(unit_offset(count) == 1 + 2 * count || count >= 5);
    lemma_units_added(data, 1, 11, Seq::empty(), first);
    assert(Seq::<u16>::empty() + first =~= first);
    assert(unit_offset(5) == 14 && unit_offset(11) == 28);
    if count >= 5 {
        let middle = second.skip(5);
        assert forall|i: int| 0 <= i < middle.len() implies #[trigger] middle[i] != 0 && middle[i]
            != 0xffff && u16_le(data, 14 + 2 * i) == middle[i] by {
            assert(middle[i] == units[i + 5]);
            assert(unit_offset(i + 5) == 14 + 2 * i);
        }
        assert(unit_offset(count) == 14 + 2 * (count - 5) || count >= 11);
        lemma_units_added(data, 14, 26, first, middle);
        assert(first + middle =~= second);
    } else {
        assert(first =~= second);
    }
    if count >= 11 {
        let end = units.skip(11);
        assert forall|i: int| 0 <= i < end.len() implies #[trigger] end[i] != 0 && end[i] != 0xffff
            && u16_le(data, 28 + 2 * i) == end[i] by {
            assert(end[i] == units[i + 11]);
            assert(unit_offset(i + 11) == 28 + 2 * i);
        }
        assert(unit_offset(count) == 28 + 2 * (count - 11));
        lemma_units_added(data, 28, 32, second, end);
        assert(second + end =~= units);
    } else {
        assert(second =~= units);
    }
}

/// A part of a long name comes in front of the parts that were read before it. The first entry is that of
/// the last part, which has bit 6 of its number set, and the numbers of the others go down by one each.
pub proof fn lemma_name_part_added(
    data: Seq<u8>,
    units: Seq<u16>,
    number: int,
    is_last: bool,
    pending: FatPending,
)
    requires
        holds_name_part(data, units),
        0 < number < 0x14,
        data[0] == number + (if is_last {
            0x40int
        } else {
            0
        }),
        data[11] == 0x0f && data[12] == 0,
        data[26] == 0 && data[27] == 0,
        !is_last ==> pending.units is Some && pending.sequence_number == number + 1,
    ensures
        is_long_name(data),
        add_long_name(data, pending) == Ok::<FatPending, DriverError>(
            FatPending {
                units: Some(
                    if is_last {
                        units
                    } else {
                        units + pending.units->0
                    },
                ),
                sequence_number: number as u8,
            },
        ),
{
    lemma_name_part_stored(data, units);
    assert(units + Seq::<u16>::empty() =~= units);
}

/// An entry behind the parts of a long name has that name, and is found by it in lower case.
pub proof fn lemma_long_named_entry(
    data: Seq<u8>,
    format: FatFormat,
    offset: int,
    listing: FatListing,
    pending: FatPending,
    name: Seq<char>,
)
    requires
        pending.units == Some(encode_utf16(name)),
        !is_label(data[11]),
        !is_dots(short_name_in(data)),
    ensures
        ({
            let result = add_short_name(data, format, offset, listing, pending);
            let more = result->Ok_0.0;
            &&& result is Ok
            &&& result->Ok_0.1 == FatPending { units: None, sequence_number: 0 }
            &&& more.entries.drop_last() == listing.entries
            &&& more.entries.last().long_name == Some(name)
            &&& more.entries.last().short_name == short_name_in(data)
            &&& more.lookup_names == listing.lookup_names.push(lowercase(name))
            &&& more.volume_label == listing.volume_label
        }),
{
    lemma_utf16_text(name);
    let result = add_short_name(data, format, offset, listing, pending);
    assert(result->Ok_0.0.entries.drop_last() =~= listing.entries);
}

/// The bits of the flags: bit 4 is that of a directory and bit 3 that of a volume label. Neither counts
/// where bit 6 or the other one is set.
pub proof fn lemma_flags(
    flags: u8,
    read_only: int,
    device: bool,
    archive: int,
    directory: bool,
    label: bool,
    low: int,
)
    requires
        flags == 128 * read_only + (if device {
            64int
        } else {
            0
        }) + 32 * archive + (if directory {
            16int
        } else {
            0
        }) + (if label {
            8int
        } else {
            0
        }) + low,
        0 <= read_only < 2,
        0 <= archive < 2,
        0 <= low < 8,
    ensures
        is_directory(flags) <==> directory && !label && !device,
        is_label(flags) <==> label && !directory && !device,
{
}

/// The name of a volume label is the volume label, and adds no entry.
pub proof fn lemma_label_stored(
    data: Seq<u8>,
    format: FatFormat,
    offset: int,
    listing: FatListing,
    pending: FatPending,
    name: Seq<u8>,
)
    requires
        data.len() == 32,
        is_label(data[11]),
        data[12] == 0,
        0 < name.len() <= 8,
        name.last() != 0x20,
        forall|i: int|
            0 <= i < 8 ==> #[trigger] data[i] == (if i < name.len() {
                name[i]
            } else {
                0x20
            }),
        data[8] == 0x20 && data[9] == 0x20 && data[10] == 0x20,
    ensures
        add_short_name(data, format, offset, listing, pending) == Ok::<
            (FatListing, FatPending),
            DriverError,
        >(
            (
                FatListing {
                    lookup_names: listing.lookup_names,
                    entries: listing.entries,
                    volume_label: Some(stored_utf8_text(name)),
                },
                FatPending { units: pending.units, sequence_number: 0 },
            ),
        ),
{
    lemma_padded_stored(data, 0, 8, name);
    lemma_trimmed(data, 8, 11, 8);
    assert(data.subrange(8, 8) =~= encode_utf8(Seq::<char>::empty()));
    lemma_stored_utf8_text(Seq::<char>::empty());
}

/// Where bit 3 or bit 4 of the byte behind the flags is set, the name or the extension is shown in lower
/// case.
pub proof fn lemma_short_name_case(
    data: Seq<u8>,
    name: Seq<u8>,
    extension: Seq<u8>,
    lower_name: bool,
    lower_extension: bool,
)
    requires
        data.len() == 32,
        0 < name.len() <= 8,
        name.last() != 0x20,
        extension.len() <= 3,
        extension.len() > 0 ==> extension.last() != 0x20,
        forall|i: int|
            0 <= i < 8 ==> #[trigger] data[i] == (if i < name.len() {
                name[i]
            } else {
                0x20
            }),
        forall|i: int|
            8 <= i < 11 ==> #[trigger] data[i] == (if i - 8 < extension.len() {
                extension[i - 8]
            } else {
                0x20
            }),
        data[12] == (if lower_name {
            8int
        } else {
            0
        }) + (if lower_extension {
            16int
        } else {
            0
        }),
        !is_label(data[11]),
        stored_utf8_text(extension).len() > 0,
    ensures
        short_name_in(data) == (if lower_name {
            lowercase(stored_utf8_text(name))
        } else {
            stored_utf8_text(name)
        }) + seq!['.'] + (if lower_extension {
            lowercase(stored_utf8_text(extension))
        } else {
            stored_utf8_text(extension)
        }),
{
    lemma_padded_stored(data, 0, 8, name);
    lemma_padded_stored(data, 8, 11, extension);
    let text = if lower_name {
        lowercase(stored_utf8_text(name))
    } else {
        stored_utf8_text(name)
    };
    assert(text.push('.') =~= text + seq!['.']);
}

/// An entry that was deleted, which starts with the byte e5, is passed over, and zeros end a directory.
pub proof fn lemma_deleted_entry(
    data: Seq<u8>,
    format: FatFormat,
    offset: int,
    at: int,
    listing: FatListing,
    pending: FatPending,
)
    requires
        0 <= at,
        at + 32 <= data.len(),
    ensures
        data[at] == 0xe5 ==> add_entries_from(data, format, offset, at, listing, pending)
            == add_entries_from(
            data,
            format,
            offset,
            at + 32,
            listing,
            FatPending { units: None, sequence_number: 0 },
        ),
        (forall|i: int| at <= i < at + 32 ==> data[i] == 0) ==> add_entries_from(
            data,
            format,
            offset,
            at,
            listing,
            pending,
        ) == Ok::<FatListing, DriverError>(listing),
{
    let entry = data.subrange(at, at + 32);
    if forall|i: int| at <= i < at + 32 ==> data[i] == 0 {
        assert(entry[0] == 0 && entry[11] == 0);
        assert(is_terminator(entry));
    }
}

/// The listing after the entries in data at an offset were added.
pub open spec fn add_entries(
    data: Seq<u8>,
    format: FatFormat,
    offset: int,
    listing: FatListing,
) -> Result<FatListing, DriverError> {
    add_entries_from(
        data,
        format,
        offset,
        0,
        listing,
        FatPending { units: None, sequence_number: 0 },
    )
}

/// The listing after the entries in the clusters from one on were added. No cluster may follow
/// twice.
pub open spec fn add_clusters(
    content: Content,
    geometry: FatGeometry,
    number: u32,
    visited: Seq<u64>,
    listing: FatListing,
) -> Result<FatListing, DriverError>
    decreases nodes_left(visited),
{
    let offset = geometry.cluster_offset(number);
    if !is_cluster(geometry.format, number) {
        Ok(listing)
    } else if is_cycle(visited, number as u64) {
        Err(DriverError::Cycle)
    } else {
        match content.exact(offset, geometry.cluster_block_size as nat) {
            Err(error) => Err(error),
            Ok(data) => match add_entries(data, geometry.format, offset, listing) {
                Err(error) => Err(error),
                Ok(more) => match next_cluster(content, geometry, number) {
                    Err(error) => Err(error),
                    Ok(next) => add_clusters(
                        content,
                        geometry,
                        next,
                        visited.push(number as u64),
                        more,
                    ),
                },
            },
        }
    }
}

/// The listing of the root directory.
pub open spec fn root_listing(content: Content, geometry: FatGeometry) -> Result<
    FatListing,
    DriverError,
> {
    if geometry.root_directory_size > 0 {
        match content.exact(
            geometry.root_directory_offset as int,
            geometry.root_directory_size as nat,
        ) {
            Err(error) => Err(error),
            Ok(data) => add_entries(
                data,
                geometry.format,
                geometry.root_directory_offset as int,
                no_listing(),
            ),
        }
    } else {
        add_clusters(
            content,
            geometry,
            geometry.root_directory_cluster_block_number,
            Seq::empty(),
            no_listing(),
        )
    }
}

/// FAT directory entry.
pub struct FatDirectoryEntry {
    pub identifier: u32,
    pub short_name: String,
    pub file_attribute_flags: u8,
    pub data_start_cluster: u32,
    pub data_size: u32,
    pub long_name: Option<String>,
}

impl FatDirectoryEntry {
    /// What the directory entry says.
    pub open spec fn view(&self) -> FatEntryInfo {
        FatEntryInfo {
            identifier: self.identifier,
            short_name: self.short_name@,
            file_attribute_flags: self.file_attribute_flags,
            data_start_cluster: self.data_start_cluster,
            data_size: self.data_size,
            long_name: match self.long_name {
                Some(name) => Some(name@),
                None => None,
            },
        }
    }

    /// Retrieves the long name, or the short one where there is none.
    pub fn name(&self) -> (name: &str)
        ensures
            name@ == self@.name(),
    {
        match &self.long_name {
            Some(name) => name.as_str(),
            None => self.short_name.as_str(),
        }
    }
}

/// What directory entries say.
pub open spec fn entries_view(entries: Seq<FatDirectoryEntry>) -> Seq<FatEntryInfo> {
    Seq::new(entries.len(), |i: int| entries[i]@)
}

struct FatNameParts {
    units: Option<Vec<u16>>,
    sequence_number: u8,
}

impl FatNameParts {
    spec fn view(&self) -> FatPending {
        FatPending {
            units: match self.units {
                Some(units) => Some(units@),
                None => None,
            },
            sequence_number: self.sequence_number,
        }
    }

    fn add_part(self, data: &[u8]) -> (result: Result<Self, DriverError>)
        requires
            data@.len() == 32,
        ensures
            match result {
                Ok(parts) => add_long_name(data@, self@) == Ok::<FatPending, DriverError>(parts@),
                Err(error) => add_long_name(data@, self@) == Err::<FatPending, DriverError>(error),
            },
    {
        let number: u8 = data[0] % 0x20;
        let starts: bool = (data[0] / 0x40) % 2 == 1;
        if !starts && self.sequence_number != 0 && number + 1 != self.sequence_number {
            return Err(DriverError::Invalid);
        }
        let ghost part = long_name_units(data@);
        let ghost rest: Seq<u16> = if starts || self.units is None {
            Seq::empty()
        } else {
            self@.units->0
        };
        let mut units: Vec<u16> = read_long_name_units(data);
        assert(part + Seq::<u16>::empty() =~= part);
        if !starts {
            if let Some(before) = self.units {
                let mut index: usize = 0;
                assert(part + before@.take(0) =~= part);
                while index < before.len()
                    invariant
                        index <= before@.len(),
                        units@ == part + before@.take(index as int),
                    decreases before@.len() - index,
                {
                    assert(part + before@.take(index + 1) =~= (part + before@.take(
                        index as int,
                    )).push(before@[index as int]));
                    units.push(before[index]);
                    index += 1;
                }
                assert(before@.take(index as int) =~= before@);
            }
        }
        assert(units@ == part + rest);
        Ok(FatNameParts { units: Some(units), sequence_number: number })
    }

    fn decode(&self) -> (result: Result<Option<String>, DriverError>)
        ensures
            match result {
                Ok(Some(name)) => pending_name(self@) == Ok::<Option<Seq<char>>, DriverError>(
                    Some(name@),
                ),
                Ok(None) => pending_name(self@) == Ok::<Option<Seq<char>>, DriverError>(None),
                Err(error) => pending_name(self@) == Err::<Option<Seq<char>>, DriverError>(error),
            },
    {
        match &self.units {
            None => Ok(None),
            Some(units) => match decode_utf16(units.as_slice()) {
                Some(name) => Ok(Some(name)),
                None => Err(DriverError::Encoding),
            },
        }
    }
}

fn append_units(data: &[u8], start: usize, end: usize, units: Vec<u16>) -> (more: Vec<u16>)
    requires
        start <= end <= data@.len(),
    ensures
        more@ == add_units(data@, start as int, end as int, units@),
{
    let ghost whole = add_units(data@, start as int, end as int, units@);
    let mut more: Vec<u16> = units;
    let mut at: usize = start;
    while end - at >= 2
        invariant
            at <= end <= data@.len(),
            whole == add_units(data@, start as int, end as int, units@),
            whole == add_units(data@, at as int, end as int, more@),
        decreases end - at,
    {
        let unit: u16 = read_u16_le(data, at);
        if unit == 0 || unit == 0xffff {
            return more;
        }
        more.push(unit);
        at = at + 2;
    }
    more
}

fn read_long_name_units(data: &[u8]) -> (units: Vec<u16>)
    requires
        data@.len() == 32,
    ensures
        units@ == long_name_units(data@),
{
    let none: Vec<u16> = Vec::new();
    assert(none@ =~= Seq::<u16>::empty());
    let mut units: Vec<u16> = append_units(data, 1, 11, none);
    if units.len() == 5 || read_u16_le(data, 14) != 0xffff {
        units = append_units(data, 14, 26, units);
    }
    if units.len() == 11 || read_u16_le(data, 28) != 0xffff {
        units = append_units(data, 28, 32, units);
    }
    units
}

fn read_short_name(data: &[u8]) -> (name: Vec<char>)
    requires
        data@.len() == 32,
    ensures
        name@ == short_name_in(data@),
{
    let stored: String = read_padded_text(data, 0, 8);
    let mut name: Vec<char> = text_chars(stored.as_str());
    if (data[12] / 8) % 2 == 1 {
        name = lowercase_text(name.as_slice());
    }
    let stored: String = read_padded_text(data, 8, 11);
    let mut extension: Vec<char> = text_chars(stored.as_str());
    if extension.len() == 0 {
        return name;
    }
    if (data[12] / 16) % 2 == 1 {
        extension = lowercase_text(extension.as_slice());
    }
    let flags: u8 = data[11];
    if !((flags / 8) % 2 == 1 && (flags / 16) % 2 == 0 && (flags / 64) % 2 == 0) {
        name.push('.');
    }
    let ghost front = name@;
    let mut index: usize = 0;
    assert(front + extension@.take(0) =~= front);
    while index < extension.len()
        invariant
            index <= extension@.len(),
            name@ == front + extension@.take(index as int),
        decreases extension@.len() - index,
    {
        assert(front + extension@.take(index + 1) =~= (front + extension@.take(index as int)).push(
            extension@[index as int],
        ));
        name.push(extension[index]);
        index += 1;
    }
    assert(extension@.take(index as int) =~= extension@);
    name
}

fn check_terminator(data: &[u8]) -> (terminator: bool)
    requires
        data@.len() == 32,
    ensures
        terminator == is_terminator(data@),
{
    let mut index: usize = 0;
    while index < 32
        invariant
            index <= 32,
            data@.len() == 32,
            forall|i: int| 0 <= i < index ==> data@[i] == 0,
        decreases 32 - index,
    {
        if data[index] != 0 {
            return false;
        }
        index += 1;
    }
    true
}

fn check_dots(name: &Vec<char>) -> (dots: bool)
    ensures
        dots == is_dots(name@),
{
    proof {
        if name@.len() == 1 && name@[0] == '.' {
            assert(name@ =~= seq!['.']);
        }
        if name@.len() == 2 && name@[0] == '.' && name@[1] == '.' {
            assert(name@ =~= seq!['.', '.']);
        }
    }
    (name.len() == 1 && name[0] == '.') || (name.len() == 2 && name[0] == '.' && name[1] == '.')
}

/// FAT directory.
pub struct FatDirectory {
    pub lookup_names: Vec<Vec<char>>,
    pub entries: Vec<FatDirectoryEntry>,
    pub volume_label: Option<String>,
}

impl FatDirectory {
    /// The listing of the directory.
    pub open spec fn view(&self) -> FatListing {
        FatListing {
            lookup_names: texts_view(self.lookup_names@),
            entries: entries_view(self.entries@),
            volume_label: match self.volume_label {
                Some(label) => Some(label@),
                None => None,
            },
        }
    }

    /// Whether there is an entry for each name.
    pub open spec fn is_sound(&self) -> bool {
        self.lookup_names@.len() == self.entries@.len()
    }

    /// Creates a directory without entries.
    pub fn new() -> (directory: Self)
        ensures
            directory@ == no_listing(),
            directory.is_sound(),
    {
        let directory = FatDirectory {
            lookup_names: Vec::new(),
            entries: Vec::new(),
            volume_label: None,
        };
        assert(directory@.lookup_names =~= Seq::<Seq<char>>::empty());
        assert(directory@.entries =~= Seq::<FatEntryInfo>::empty());
        directory
    }

    fn read_entry(self, data: &[u8], format: FatFormat, offset: u64, parts: FatNameParts) -> (result:
        Result<(Self, FatNameParts), DriverError>)
        requires
            data@.len() == 32,
            self.is_sound(),
        ensures
            match result {
                Ok((directory, rest)) => {
                    &&& add_short_name(data@, format, offset as int, self@, parts@) == Ok::<
                        (FatListing, FatPending),
                        DriverError,
                    >((directory@, rest@))
                    &&& directory.is_sound()
                },
                Err(error) => add_short_name(data@, format, offset as int, self@, parts@) == Err::<
                    (FatListing, FatPending),
                    DriverError,
                >(error),
            },
    {
        let name: Vec<char> = read_short_name(data);
        let flags: u8 = data[11];
        let mut directory = self;
        if (flags / 8) % 2 == 1 && (flags / 16) % 2 == 0 && (flags / 64) % 2 == 0 {
            directory.volume_label = Some(chars_text(name.as_slice()));
            return Ok((directory, FatNameParts { units: parts.units, sequence_number: 0 }));
        }
        if check_dots(&name) {
            return Ok((directory, FatNameParts { units: parts.units, sequence_number: 0 }));
        }
        let long_name: Option<String> = parts.decode()?;
        let data_start_cluster: u32 = match format {
            FatFormat::Fat32 => 0x1_0000 * read_u16_le(data, 20) as u32
                + read_u16_le(data, 26) as u32,
            FatFormat::Fat16 => read_u16_le(data, 26) as u32,
            FatFormat::Fat12 => read_u16_le(data, 26) as u32,
        };
        let entry = FatDirectoryEntry {
            identifier: (offset % 0x1_0000_0000) as u32,
            short_name: chars_text(name.as_slice()),
            file_attribute_flags: flags,
            data_start_cluster,
            data_size: read_u32_le(data, 28),
            long_name,
        };
        let entry_name: Vec<char> = text_chars(entry.name());
        let lookup_name: Vec<char> = lowercase_text(entry_name.as_slice());
        let ghost before = self@;
        let ghost info = entry@;
        directory.lookup_names.push(lookup_name);
        directory.entries.push(entry);
        assert(directory@.lookup_names =~= before.lookup_names.push(lookup_name@));
        assert(directory@.entries =~= before.entries.push(info));
        Ok((directory, FatNameParts { units: None, sequence_number: 0 }))
    }

    /// Reads the entries in data that stands at an offset.
    fn read_entries(self, data: &[u8], format: FatFormat, offset: u64) -> (result: Result<
        Self,
        DriverError,
    >)
        requires
            self.is_sound(),
            offset + data@.len() <= u64::MAX,
        ensures
            match result {
                Ok(directory) => {
                    &&& add_entries(data@, format, offset as int, self@) == Ok::<
                        FatListing,
                        DriverError,
                    >(directory@)
                    &&& directory.is_sound()
                },
                Err(error) => add_entries(data@, format, offset as int, self@) == Err::<
                    FatListing,
                    DriverError,
                >(error),
            },
    {
        let ghost whole = add_entries(data@, format, offset as int, self@);
        let length: usize = data.len();
        let mut directory = self;
        let mut parts = FatNameParts { units: None, sequence_number: 0 };
        let mut at: usize = 0;
        while length - at >= 32
            invariant
                at <= length,
                length == data@.len(),
                offset + length <= u64::MAX,
                directory.is_sound(),
                whole == add_entries(data@, format, offset as int, self@),
                whole == add_entries_from(
                    data@,
                    format,
                    offset as int,
                    at as int,
                    directory@,
                    parts@,
                ),
            decreases length - at,
        {
            let entry: &[u8] = vstd::slice::slice_subrange(data, at, at + 32);
            if entry[0] == 0xe5 {
                parts = FatNameParts { units: None, sequence_number: 0 };
            } else if read_u16_be(entry, 11) == 0x0f00 && read_u16_be(entry, 26) == 0 && ((entry[0]
                >= 0x01 && entry[0] <= 0x13) || (entry[0] >= 0x41 && entry[0] <= 0x54)) {
                parts = parts.add_part(entry)?;
            } else if check_terminator(entry) {
                return Ok(directory);
            } else {
                let (more, rest) = directory.read_entry(entry, format, offset + at as u64, parts)?;
                directory = more;
                parts = rest;
            }
            at = at + 32;
        }
        Ok(directory)
    }

    /// Reads the entries in the clusters from one on.
    pub fn read_clusters(source: &DataSourceReference, geometry: &FatGeometry, first: u32) -> (result:
        Result<Self, DriverError>)
        requires
            geometry.is_usable(),
        ensures
            match result {
                Ok(directory) => {
                    &&& add_clusters(
                        source.content(),
                        *geometry,
                        first,
                        Seq::empty(),
                        no_listing(),
                    ) == Ok::<FatListing, DriverError>(directory@)
                    &&& directory.is_sound()
                },
                Err(error) => source.reliable() ==> add_clusters(
                    source.content(),
                    *geometry,
                    first,
                    Seq::empty(),
                    no_listing(),
                ) == Err::<FatListing, DriverError>(error),
            },
    {
        let ghost content = source.content();
        let ghost whole = add_clusters(content, *geometry, first, Seq::empty(), no_listing());
        let mut directory = FatDirectory::new();
        let mut visited = VisitedNodes::new();
        let mut number: u32 = first;
        while check_cluster(geometry.format, number)
            invariant
                content == source.content(),
                geometry.is_usable(),
                directory.is_sound(),
                whole == add_clusters(content, *geometry, first, Seq::empty(), no_listing()),
                whole == add_clusters(content, *geometry, number, visited@, directory@),
            decreases nodes_left(visited@),
        {
            if visited.contains(number as u64) {
                return Err(DriverError::Cycle);
            }
            let offset: u64 = get_cluster_offset(geometry, number);
            let data: Vec<u8> = read_bytes(source, offset, geometry.cluster_block_size as usize)?;
            directory = directory.read_entries(data.as_slice(), geometry.format, offset)?;
            let next: u32 = read_next_cluster(source, geometry, number)?;
            visited = visited.add(number as u64);
            number = next;
        }
        Ok(directory)
    }

    /// Reads the root directory.
    pub fn read_root(source: &DataSourceReference, geometry: &FatGeometry) -> (result: Result<
        Self,
        DriverError,
    >)
        requires
            geometry.is_usable(),
        ensures
            match result {
                Ok(directory) => {
                    &&& root_listing(source.content(), *geometry) == Ok::<FatListing, DriverError>(
                        directory@,
                    )
                    &&& directory.is_sound()
                },
                Err(error) => source.reliable() ==> root_listing(source.content(), *geometry)
                    == Err::<FatListing, DriverError>(error),
            },
    {
        if geometry.root_directory_size > 0 {
            let data: Vec<u8> = read_bytes(
                source,
                geometry.root_directory_offset,
                geometry.root_directory_size as usize,
            )?;
            FatDirectory::new().read_entries(
                data.as_slice(),
                geometry.format,
                geometry.root_directory_offset,
            )
        } else {
            Self::read_clusters(source, geometry, geometry.root_directory_cluster_block_number)
        }
    }
}

/// Calculates the offset of a cluster.
pub fn get_cluster_offset(geometry: &FatGeometry, number: u32) -> (offset: u64)
    requires
        geometry.is_usable(),
        2 <= number,
    ensures
        offset == geometry.cluster_offset(number),
        offset <= 0x40_0000_0000_0000,
{
    proof {
        assert(0 <= (number - 2) * geometry.cluster_block_size <= 0x8_0000_0000_0000)
            by (nonlinear_arith)
            requires
                0 <= number - 2 <= 0xffff_ffff,
                0 <= geometry.cluster_block_size <= 524288,
        ;
    }
    geometry.first_cluster_offset + (number - 2) as u64 * geometry.cluster_block_size as u64
}

} // verus!
