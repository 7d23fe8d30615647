//! Directory indexes as they are stored.

use vstd::prelude::*;

use super::fixup::fixed;
use super::index::{
    add_node, add_value, add_values_from, aligned, branch_of, branch_record, file_name_in, value_at,
    NtfsEntries, NtfsIndexValue,
};
use crate::bytes::{holds_le, lemma_holds_le, u16_le, u32_be, u32_le, u64_le};
use crate::error::DriverError;
use crate::filesystem::visited::is_cycle;
use crate::source::data_source::{lemma_holds_in, Content};
use crate::text::{encode_utf16, holds_units_le, lemma_units_le, lemma_utf16_text, units_le};

verus! {

/// A value of an index node: the name of a file with its reference, and the node below it. The last
/// value of a node has no name.
pub struct StoredValue {
    pub name: Seq<char>,
    pub file_reference: int,
    pub name_space: u8,
    pub size: int,
    pub key_size: int,
    pub child: Option<StoredNode>,
}

/// A node of an index, with its number and its record.
pub struct StoredNode {
    pub number: int,
    pub record: Seq<u8>,
    pub values: Seq<StoredValue>,
}

/// The first multiple of eight that does not lie before an offset.
pub open spec fn next_aligned(offset: int) -> int {
    if offset % 8 == 0 {
        offset
    } else {
        offset + 8 - offset % 8
    }
}

/// Whether the fixed part of a value is stored at an offset: its reference, its size, the size of its
/// key and its flags, of which the first says that a node lies below it and the second that it is the
/// last one. The number of the node below it stands in its last eight bytes.
#[verifier::opaque]
pub open spec fn holds_value(data: Seq<u8>, offset: int, end: int, value: StoredValue, is_last: bool) -> bool {
    &&& 0 <= offset
    &&& 16 + value.key_size <= value.size
    &&& 0 <= value.key_size
    &&& offset + value.size <= end <= data.len()
    &&& holds_le(data, offset, 8, value.file_reference)
    &&& holds_le(data, offset + 8, 2, value.size)
    &&& holds_le(data, offset + 10, 2, value.key_size)
    &&& holds_le(
        data,
        offset + 12,
        4,
        (if value.child is Some {
            1int
        } else {
            0int
        }) + (if is_last {
            2int
        } else {
            0int
        }),
    )
    &&& value.child matches Some(child) ==> {
        &&& value.size - 16 - value.key_size >= 8
        &&& holds_le(data, offset + value.size - 8, 8, child.number)
    }
    &&& !is_last ==> {
        let units = encode_utf16(value.name);
        &&& 66 + 2 * units.len() <= value.key_size
        &&& holds_le(data, offset + 16 + 64, 1, units.len() as int)
        &&& data[offset + 16 + 65] == value.name_space
        &&& holds_units_le(data, offset + 16 + 66, units)
    }
}

/// Whether a node is stored in data at an offset: the offset of its values, where they end, and the
/// values behind each other at multiples of eight. The nodes below it have numbers that are not on the
/// way to it.
pub open spec fn holds_node(
    allocation: Content,
    entry_size: u32,
    data: Seq<u8>,
    offset: int,
    path: Seq<u64>,
    node: StoredNode,
) -> bool
    decreases node, node.values.len() + 1,
{
    &&& 0 <= offset
    &&& offset + 16 <= data.len()
    &&& node.values.len() > 0
    &&& path.len() < u64::MAX
    &&& exists|values_offset: int, size: int|
        {
            &&& 16 <= values_offset < size
            &&& #[trigger] holds_le(data, offset, 4, values_offset)
            &&& #[trigger] holds_le(data, offset + 4, 4, size)
            &&& holds_values(
                allocation,
                entry_size,
                data,
                offset + size,
                offset + values_offset,
                path,
                node,
                0,
            )
        }
}

/// Whether the values of a node from `index` on are stored from an offset on.
pub open spec fn holds_values(
    allocation: Content,
    entry_size: u32,
    data: Seq<u8>,
    end: int,
    offset: int,
    path: Seq<u64>,
    node: StoredNode,
    index: int,
) -> bool
    decreases node, node.values.len() - index,
{
    if index < 0 || index >= node.values.len() {
        true
    } else {
        let value = node.values[index];
        let is_last = index == node.values.len() - 1;
        &&& offset < end
        &&& holds_value(data, offset, end, value, is_last)
        &&& match node.values[index].child {
            None => true,
            Some(child) => {
                &&& 0 <= child.number <= u64::MAX
                &&& !path.contains(child.number as u64)
                &&& branch_record(allocation, entry_size, child.number as u64) == Ok::<
                    Seq<u8>,
                    DriverError,
                >(child.record)
                &&& holds_node(
                    allocation,
                    entry_size,
                    child.record,
                    24,
                    path.push(child.number as u64),
                    child,
                )
            },
        }
        &&& holds_values(
            allocation,
            entry_size,
            data,
            end,
            next_aligned(offset + value.size),
            path,
            node,
            index + 1,
        )
    }
}

/// The entries of a node and those below it, in the order in which they are stored: each value comes
/// before the node below it. Names in the DOS name space and the one of the directory do not count.
pub open spec fn node_entries(node: StoredNode, count: int) -> NtfsEntries
    decreases node, count,
{
    if count <= 0 || count > node.values.len() {
        NtfsEntries { names: Seq::empty(), file_references: Seq::empty() }
    } else {
        let before = node_entries(node, count - 1);
        let value = node.values[count - 1];
        let own = if count < node.values.len() && value.name_space != 2 && value.name != seq!['.'] {
            NtfsEntries {
                names: before.names.push(value.name),
                file_references: before.file_references.push(value.file_reference as u64),
            }
        } else {
            before
        };
        match node.values[count - 1].child {
            None => own,
            Some(child) => joined_entries(own, node_entries(child, child.values.len() as int)),
        }
    }
}

/// Entries with others behind them.
pub open spec fn joined_entries(first: NtfsEntries, second: NtfsEntries) -> NtfsEntries {
    NtfsEntries {
        names: first.names + second.names,
        file_references: first.file_references + second.file_references,
    }
}

#[verifier::opaque]
spec fn value_found(
    data: Seq<u8>,
    offset: int,
    end: int,
    value: StoredValue,
    is_last: bool,
    entries: NtfsEntries,
    more: NtfsEntries,
) -> bool {
    value_at(data, offset, end) matches Ok(found) && found.is_last() == is_last && found.size
        == value.size && add_value(data, offset, found, entries) == Ok::<NtfsEntries, DriverError>(
        more,
    ) && branch_of(data, offset, found, true) == Ok::<Option<u64>, DriverError>(
        match value.child {
            None => None,
            Some(child) => Some(child.number as u64),
        },
    )
}

/// What is read from a value on that leads to no node.
proof fn lemma_leaf_step(
    allocation: Content,
    entry_size: u32,
    data: Seq<u8>,
    end: int,
    offset: int,
    path: Seq<u64>,
    found: NtfsIndexValue,
    entries: NtfsEntries,
    more: NtfsEntries,
)
    requires
        offset < end,
        value_at(data, offset, end) == Ok::<NtfsIndexValue, DriverError>(found),
        add_value(data, offset, found, entries) == Ok::<NtfsEntries, DriverError>(more),
        branch_of(data, offset, found, true) == Ok::<Option<u64>, DriverError>(None),
    ensures
        add_values_from(Some(allocation), entry_size, data, end, offset, path, entries) == (
        if found.is_last() {
            Ok::<NtfsEntries, DriverError>(more)
        } else {
            add_values_from(
                Some(allocation),
                entry_size,
                data,
                end,
                aligned(offset + found.size),
                path,
                more,
            )
        }),
{
}

/// What is read from a value on that leads to a node.
proof fn lemma_branch_step(
    allocation: Content,
    entry_size: u32,
    data: Seq<u8>,
    end: int,
    offset: int,
    path: Seq<u64>,
    found: NtfsIndexValue,
    number: u64,
    record: Seq<u8>,
    entries: NtfsEntries,
    more: NtfsEntries,
    below: NtfsEntries,
)
    requires
        offset < end,
        value_at(data, offset, end) == Ok::<NtfsIndexValue, DriverError>(found),
        add_value(data, offset, found, entries) == Ok::<NtfsEntries, DriverError>(more),
        branch_of(data, offset, found, true) == Ok::<Option<u64>, DriverError>(Some(number)),
        !is_cycle(path, number),
        branch_record(allocation, entry_size, number) == Ok::<Seq<u8>, DriverError>(record),
        add_node(Some(allocation), entry_size, record, 24, path.push(number), more) == Ok::<
            NtfsEntries,
            DriverError,
        >(below),
    ensures
        add_values_from(Some(allocation), entry_size, data, end, offset, path, entries) == (
        if found.is_last() {
            Ok::<NtfsEntries, DriverError>(below)
        } else {
            add_values_from(
                Some(allocation),
                entry_size,
                data,
                end,
                aligned(offset + found.size),
                path,
                below,
            )
        }),
{
}

proof fn lemma_value_stored(
    data: Seq<u8>,
    offset: int,
    end: int,
    value: StoredValue,
    is_last: bool,
    entries: NtfsEntries,
)
    requires
        holds_value(data, offset, end, value, is_last),
    ensures
        value_found(
            data,
            offset,
            end,
            value,
            is_last,
            entries,
            if !is_last && value.name_space != 2 && value.name != seq!['.'] {
                NtfsEntries {
                    names: entries.names.push(value.name),
                    file_references: entries.file_references.push(value.file_reference as u64),
                }
            } else {
                entries
            },
        ),
{
    reveal(holds_value);
    reveal(value_found);
    let flags = (if value.child is Some {
        1int
    } else {
        0int
    }) + (if is_last {
        2int
    } else {
        0int
    });
    lemma_holds_le(data, offset, 8, value.file_reference);
    lemma_holds_le(data, offset + 8, 2, value.size);
    lemma_holds_le(data, offset + 10, 2, value.key_size);
    lemma_holds_le(data, offset + 12, 4, flags);
    if let Some(child) = value.child {
        lemma_holds_le(data, offset + value.size - 8, 8, child.number);
    }
    if !is_last {
        let units = encode_utf16(value.name);
        let key = data.subrange(offset + 16, offset + 16 + value.key_size);
        lemma_holds_le(data, offset + 80, 1, units.len() as int);
        lemma_units_le(data, offset + 82, offset + 82 + 2 * units.len(), units);
        lemma_utf16_text(value.name);
        assert(key[64] == units.len());
        assert(key.subrange(66, 66 + 2 * key[64]) =~= data.subrange(
            offset + 82,
            offset + 82 + 2 * units.len(),
        ));
        assert(key[65] == value.name_space);
    }
}

proof fn lemma_node_stored(
    allocation: Content,
    entry_size: u32,
    data: Seq<u8>,
    offset: int,
    path: Seq<u64>,
    node: StoredNode,
    entries: NtfsEntries,
)
    requires
        holds_node(allocation, entry_size, data, offset, path, node),
    ensures
        add_node(Some(allocation), entry_size, data, offset, path, entries) == Ok::<
            NtfsEntries,
            DriverError,
        >(joined_entries(entries, node_entries(node, node.values.len() as int))),
    decreases node, node.values.len() + 1,
{
    let (values_offset, size) = choose|values_offset: int, size: int|
        {
            &&& 16 <= values_offset < size
            &&& #[trigger] holds_le(data, offset, 4, values_offset)
            &&& #[trigger] holds_le(data, offset + 4, 4, size)
            &&& holds_values(
                allocation,
                entry_size,
                data,
                offset + size,
                offset + values_offset,
                path,
                node,
                0,
            )
        };
    lemma_holds_le(data, offset, 4, values_offset);
    lemma_holds_le(data, offset + 4, 4, size);
    let none = node_entries(node, 0);
    assert(joined_entries(entries, none).names =~= entries.names);
    assert(joined_entries(entries, none).file_references =~= entries.file_references);
    lemma_values_stored(
        allocation,
        entry_size,
        data,
        offset + size,
        offset + values_offset,
        path,
        node,
        0,
        entries,
    );
}

proof fn lemma_values_stored(
    allocation: Content,
    entry_size: u32,
    data: Seq<u8>,
    end: int,
    offset: int,
    path: Seq<u64>,
    node: StoredNode,
    index: int,
    entries: NtfsEntries,
)
    requires
        0 <= index < node.values.len(),
        path.len() < u64::MAX,
        holds_values(allocation, entry_size, data, end, offset, path, node, index),
    ensures
        add_values_from(
            Some(allocation),
            entry_size,
            data,
            end,
            offset,
            path,
            joined_entries(entries, node_entries(node, index)),
        ) == Ok::<NtfsEntries, DriverError>(
            joined_entries(entries, node_entries(node, node.values.len() as int)),
        ),
    decreases node, node.values.len() - index,
{
    let value = node.values[index];
    let is_last = index == node.values.len() - 1;
    let before = joined_entries(entries, node_entries(node, index));
    lemma_value_stored(data, offset, end, value, is_last, before);
    let own = if !is_last && value.name_space != 2 && value.name != seq!['.'] {
        NtfsEntries {
            names: before.names.push(value.name),
            file_references: before.file_references.push(value.file_reference as u64),
        }
    } else {
        before
    };
    let after = joined_entries(entries, node_entries(node, index + 1));
    match node.values[index].child {
        None => {
            assert(own.names =~= after.names);
            assert(own.file_references =~= after.file_references);
            assert(own == after);
        },
        Some(child) => {
            lemma_node_stored(
                allocation,
                entry_size,
                child.record,
                24,
                path.push(child.number as u64),
                child,
                own,
            );
            let below = joined_entries(own, node_entries(child, child.values.len() as int));
            assert(below.names =~= after.names);
            assert(below.file_references =~= after.file_references);
            assert(below == after);
        },
    }
    assert(aligned(offset + value.size) == next_aligned(offset + value.size));
    reveal(value_found);
    let found = value_at(data, offset, end)->Ok_0;
    match node.values[index].child {
        None => {
            lemma_leaf_step(
                allocation,
                entry_size,
                data,
                end,
                offset,
                path,
                found,
                before,
                after,
            );
        },
        Some(child) => {
            lemma_branch_step(
                allocation,
                entry_size,
                data,
                end,
                offset,
                path,
                found,
                child.number as u64,
                child.record,
                before,
                own,
                after,
            );
        },
    }
    if !is_last {
        lemma_values_stored(
            allocation,
            entry_size,
            data,
            end,
            next_aligned(offset + value.size),
            path,
            node,
            index + 1,
            entries,
        );
    }
}

/// Every entry of a directory index that is stored is found, in all of its nodes.
pub proof fn lemma_index_stored(
    allocation: Content,
    entry_size: u32,
    data: Seq<u8>,
    offset: int,
    node: StoredNode,
)
    requires
        holds_node(allocation, entry_size, data, offset, Seq::empty(), node),
    ensures
        add_node(
            Some(allocation),
            entry_size,
            data,
            offset,
            Seq::empty(),
            NtfsEntries { names: Seq::empty(), file_references: Seq::empty() },
        ) == Ok::<NtfsEntries, DriverError>(node_entries(node, node.values.len() as int)),
{
    let none = NtfsEntries { names: Seq::empty(), file_references: Seq::empty() };
    let all = node_entries(node, node.values.len() as int);
    lemma_node_stored(allocation, entry_size, data, offset, Seq::empty(), node, none);
    assert(joined_entries(none, all).names =~= all.names);
    assert(joined_entries(none, all).file_references =~= all.file_references);
}

/// The record of a node lies behind as many records as its number says. It starts with the characters
/// "INDX", the offset of its fix-up values and their number.
pub proof fn lemma_branch_record_stored(
    allocation: Content,
    entry_size: u32,
    number: u64,
    fixup_offset: int,
    fixup_count: int,
    record: Seq<u8>,
)
    requires
        8 <= entry_size,
        number * entry_size <= u64::MAX,
        allocation.has(number * entry_size, entry_size as int),
        allocation.bytes[number * entry_size] == 0x49,
        allocation.bytes[number * entry_size + 1] == 0x4e,
        allocation.bytes[number * entry_size + 2] == 0x44,
        allocation.bytes[number * entry_size + 3] == 0x58,
        allocation.holds_le(number * entry_size + 4, 2, fixup_offset),
        allocation.holds_le(number * entry_size + 6, 2, fixup_count),
        fixed(
            allocation.window(number * entry_size, entry_size as nat),
            fixup_offset,
            fixup_count as u16,
        ) == Ok::<Seq<u8>, DriverError>(record),
    ensures
        branch_record(allocation, entry_size, number) == Ok::<Seq<u8>, DriverError>(record),
{
    let start = number * entry_size;
    let data = allocation.window(start, entry_size as nat);
    lemma_holds_in(allocation, start, entry_size as nat, 4, 2, fixup_offset);
    lemma_holds_in(allocation, start, entry_size as nat, 6, 2, fixup_count);
    lemma_holds_le(data, 4, 2, fixup_offset);
    lemma_holds_le(data, 6, 2, fixup_count);
    assert(data[0] == 0x49 && data[1] == 0x4e && data[2] == 0x44 && data[3] == 0x58);
    assert(u32_be(data, 0) == 0x494e_4458);
}

} // verus!
