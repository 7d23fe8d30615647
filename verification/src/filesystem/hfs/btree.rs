//! Nodes of HFS B-trees.

use vstd::arithmetic::power2::{lemma2_to64, pow2};
use vstd::prelude::*;

use crate::bytes::{holds_be, lemma_holds_be, read_u16_be, read_u32_be, u16_be, u32_be};
use crate::error::DriverError;
use crate::source::data_source::{read_bytes, Content, DataSource, DataSourceReference};

verus! {

/// What the header node of a B-tree says.
#[derive(Clone, Copy, Debug, PartialEq, Eq, Structural)]
pub struct HfsBtreeHeader {
    pub node_size: u16,
    pub first_leaf_node_number: u32,
}

/// Whether a node size is supported.
pub open spec fn is_node_size(size: u16) -> bool {
    size == 512 || size == 1024 || size == 2048 || size == 4096 || size == 8192 || size == 16384
        || size == 32768
}

/// What the header node of a B-tree says.
pub open spec fn btree_header_of(content: Content) -> Result<HfsBtreeHeader, DriverError> {
    match content.exact(0, 512) {
        Err(error) => Err(error),
        Ok(data) => if data[8] != 1 || !is_node_size(u16_be(data, 32)) {
            Err(DriverError::Unsupported)
        } else {
            Ok(
                HfsBtreeHeader {
                    node_size: u16_be(data, 32),
                    first_leaf_node_number: u32_be(data, 24),
                },
            )
        },
    }
}

/// Sorted offsets after another one was put behind those that are not greater.
pub open spec fn insert_offset(offsets: Seq<u16>, offset: u16) -> Seq<u16>
    decreases offsets.len(),
{
    if offsets.len() == 0 || offsets.last() <= offset {
        offsets.push(offset)
    } else {
        insert_offset(offsets.drop_last(), offset).push(offsets.last())
    }
}

/// Whether offsets are in their order.
pub open spec fn is_sorted(offsets: Seq<u16>) -> bool {
    forall|i: int, j: int| 0 <= i <= j < offsets.len() ==> offsets[i] <= offsets[j]
}

/// The number of records of a node.
pub open spec fn record_count(data: Seq<u8>) -> int {
    u16_be(data, 10) as int
}

/// The offset at which the records of a node end and the table of their offsets starts.
pub open spec fn records_end(data: Seq<u8>) -> int {
    data.len() - 2 * (record_count(data) + 1)
}

/// The offsets of the records of a node from `index` on, sorted together with those before them.
/// The table of offsets ends with the first one.
pub open spec fn offsets_from(data: Seq<u8>, index: int, offsets: Seq<u16>) -> Result<
    Seq<u16>,
    DriverError,
>
    decreases record_count(data) - index,
{
    let offset = u16_be(data, data.len() - 2 - 2 * index);
    if index >= record_count(data) {
        Ok(offsets)
    } else if offset < 14 || offset >= records_end(data) {
        Err(DriverError::OutOfBounds)
    } else {
        offsets_from(data, index + 1, insert_offset(offsets, offset))
    }
}

/// The sorted offsets of the records of the node in data.
pub open spec fn node_offsets(data: Seq<u8>) -> Result<Seq<u16>, DriverError> {
    if data[8] != 0 && data[8] != 1 && data[8] != 2 && data[8] != 0xff {
        Err(DriverError::Unsupported)
    } else if records_end(data) < 0 {
        Err(DriverError::OutOfBounds)
    } else {
        offsets_from(data, 0, Seq::empty())
    }
}

/// The data of a record, which ends where the next one starts.
pub open spec fn record_data(data: Seq<u8>, offsets: Seq<u16>, index: int) -> Seq<u8> {
    data.subrange(
        offsets[index] as int,
        if index + 1 < offsets.len() {
            offsets[index + 1] as int
        } else {
            records_end(data)
        },
    )
}

/// The header node of a B-tree has kind 1 and, in big-endian order, the number of the first leaf node and
/// the size of a node, which are read back.
pub proof fn lemma_btree_header_stored(content: Content, header: HfsBtreeHeader, bits: nat)
    requires
        content.has(0, 512),
        content.bytes[8] == 1,
        holds_be(content.window(0, 512), 24, 4, header.first_leaf_node_number as int),
        holds_be(content.window(0, 512), 32, 2, header.node_size as int),
        9 <= bits <= 15,
        header.node_size == pow2(bits),
    ensures
        btree_header_of(content) == Ok::<HfsBtreeHeader, DriverError>(header),
{
    broadcast use lemma_holds_be;

    lemma2_to64();
}

/// Whether a node is stored: its kind, its number of records and, in big-endian order from its end
/// backwards, the offset of each record and that of the space behind the records.
pub open spec fn holds_node(data: Seq<u8>, kind: u8, offsets: Seq<u16>) -> bool {
    &&& 14 + 2 * (offsets.len() + 1) <= data.len()
    &&& data[8] == kind
    &&& holds_be(data, 10, 2, offsets.len() as int)
    &&& forall|i: int|
        0 <= i < offsets.len() ==> {
            &&& holds_be(data, data.len() - 2 - 2 * i, 2, #[trigger] offsets[i] as int)
            &&& 14 <= offsets[i] < data.len() - 2 * (offsets.len() + 1)
        }
}

/// The offsets of the records of a node that is stored are read back, in their order.
pub proof fn lemma_node_offsets_stored(data: Seq<u8>, kind: u8, offsets: Seq<u16>)
    requires
        holds_node(data, kind, offsets),
        kind == 0 || kind == 1 || kind == 2 || kind == 0xff,
        is_sorted(offsets),
    ensures
        node_offsets(data) == Ok::<Seq<u16>, DriverError>(offsets),
{
    lemma_holds_be(data, 10, 2, offsets.len() as int);
    assert(offsets.take(0) =~= Seq::empty());
    lemma_offsets_stored_from(data, kind, offsets, 0);
}

proof fn lemma_offsets_stored_from(data: Seq<u8>, kind: u8, offsets: Seq<u16>, index: int)
    requires
        holds_node(data, kind, offsets),
        is_sorted(offsets),
        0 <= index <= offsets.len(),
    ensures
        offsets_from(data, index, offsets.take(index)) == Ok::<Seq<u16>, DriverError>(offsets),
    decreases offsets.len() - index,
{
    lemma_holds_be(data, 10, 2, offsets.len() as int);
    if index < offsets.len() {
        let offset = offsets[index];
        lemma_holds_be(data, data.len() - 2 - 2 * index, 2, offset as int);
        let before = offsets.take(index);
        if index > 0 {
            assert(before.last() == offsets[index - 1]);
            assert(offsets[index - 1] <= offset);
        }
        assert(insert_offset(before, offset) == before.push(offset));
        assert(before.push(offset) =~= offsets.take(index + 1));
        lemma_offsets_stored_from(data, kind, offsets, index + 1);
    } else {
        assert(offsets.take(index) =~= offsets);
    }
}

/// Inserting keeps offsets in their order and within a range.
proof fn lemma_insert_offset(offsets: Seq<u16>, offset: u16, end: int)
    requires
        is_sorted(offsets),
        forall|i: int| 0 <= i < offsets.len() ==> (#[trigger] offsets[i]) < end,
        offset < end,
    ensures
        is_sorted(insert_offset(offsets, offset)),
        insert_offset(offsets, offset).len() == offsets.len() + 1,
        forall|i: int|
            0 <= i < offsets.len() + 1 ==> (#[trigger] insert_offset(offsets, offset)[i]) < end,
        forall|i: int|
            0 <= i < offsets.len() + 1 ==> (#[trigger] insert_offset(offsets, offset)[i]) <= offset
                || (offsets.len() > 0 && insert_offset(offsets, offset)[i] <= offsets.last()),
    decreases offsets.len(),
{
    if offsets.len() == 0 || offsets.last() <= offset {
        let more = offsets.push(offset);
        assert forall|i: int| 0 <= i < more.len() implies (#[trigger] more[i]) <= offset by {
            if i < offsets.len() {
                assert(offsets[i] <= offsets[offsets.len() - 1]);
            }
        }
    } else {
        let front = offsets.drop_last();
        assert forall|i: int| 0 <= i < front.len() implies (#[trigger] front[i]) < end by {
            assert(front[i] == offsets[i]);
        }
        lemma_insert_offset(front, offset, end);
        let part = insert_offset(front, offset);
        assert(offsets[offsets.len() - 1] < end);
        assert forall|i: int| 0 <= i < part.len() implies (#[trigger] part[i])
            <= offsets.last() by {
            if front.len() > 0 {
                assert(offsets[front.len() - 1] <= offsets[offsets.len() - 1]);
            }
        }
    }
}

/// Reads the header node of a B-tree.
pub fn read_btree_header(source: &DataSourceReference) -> (result: Result<
    HfsBtreeHeader,
    DriverError,
>)
    ensures
        match result {
            Ok(header) => {
                &&& btree_header_of(source.content()) == Ok::<HfsBtreeHeader, DriverError>(header)
                &&& is_node_size(header.node_size)
            },
            Err(error) => source.readable() ==> btree_header_of(source.content()) == Err::<
                HfsBtreeHeader,
                DriverError,
            >(error),
        },
{
    let data: Vec<u8> = read_bytes(source, 0, 512)?;
    let data: &[u8] = data.as_slice();
    let size: u16 = read_u16_be(data, 32);
    if data[8] != 1 || !(size == 512 || size == 1024 || size == 2048 || size == 4096 || size == 8192
        || size == 16384 || size == 32768) {
        return Err(DriverError::Unsupported);
    }
    Ok(HfsBtreeHeader { node_size: size, first_leaf_node_number: read_u32_be(data, 24) })
}

fn insert_record_offset(offsets: &mut Vec<u16>, offset: u16)
    ensures
        final(offsets)@ == insert_offset(old(offsets)@, offset),
{
    let ghost before = offsets@;
    let mut at: usize = offsets.len();
    assert(before.take(at as int) =~= before);
    assert(insert_offset(before, offset) =~= insert_offset(before.take(at as int), offset)
        + before.skip(at as int));
    while at > 0 && offsets[at - 1] > offset
        invariant
            offsets@ == before,
            at <= before.len(),
            insert_offset(before, offset) == insert_offset(before.take(at as int), offset)
                + before.skip(at as int),
        decreases at,
    {
        let ghost taken = before.take(at as int);
        assert(taken.drop_last() =~= before.take(at - 1));
        assert(taken.last() == before[at - 1]);
        assert(insert_offset(taken.drop_last(), offset).push(taken.last()) + before.skip(at as int)
            =~= insert_offset(before.take(at - 1), offset) + before.skip(at - 1));
        at -= 1;
    }
    proof {
        let taken = before.take(at as int);
        assert(insert_offset(taken, offset) == taken.push(offset));
        assert(before.insert(at as int, offset) =~= taken.push(offset) + before.skip(at as int));
    }
    offsets.insert(at, offset);
}

/// Reads the sorted offsets of the records of a node.
pub fn read_node_offsets(data: &[u8]) -> (result: Result<Vec<u16>, DriverError>)
    requires
        512 <= data@.len() <= 32768,
    ensures
        match result {
            Ok(offsets) => {
                &&& node_offsets(data@) == Ok::<Seq<u16>, DriverError>(offsets@)
                &&& is_sorted(offsets@)
                &&& forall|i: int|
                    0 <= i < offsets@.len() ==> (#[trigger] offsets@[i]) < records_end(data@)
                &&& 0 <= records_end(data@) <= data@.len()
            },
            Err(error) => node_offsets(data@) == Err::<Seq<u16>, DriverError>(error),
        },
{
    if data[8] != 0 && data[8] != 1 && data[8] != 2 && data[8] != 0xff {
        return Err(DriverError::Unsupported);
    }
    let length: usize = data.len();
    let count: u16 = read_u16_be(data, 10);
    let table_size: usize = 2 * (count as usize + 1);
    if table_size > length {
        return Err(DriverError::OutOfBounds);
    }
    let end: usize = length - table_size;
    let ghost whole = node_offsets(data@);
    let mut offsets: Vec<u16> = Vec::new();
    let mut index: u16 = 0;
    assert(offsets@ =~= Seq::<u16>::empty());
    while index < count
        invariant
            index <= count,
            count == record_count(data@),
            length == data@.len(),
            length <= 32768,
            end == records_end(data@),
            2 * (count + 1) <= length,
            whole == node_offsets(data@),
            whole == offsets_from(data@, index as int, offsets@),
            is_sorted(offsets@),
            forall|i: int| 0 <= i < offsets@.len() ==> (#[trigger] offsets@[i]) < end,
        decreases count - index,
    {
        let offset: u16 = read_u16_be(data, length - 2 - 2 * (index as usize));
        if offset < 14 || offset as usize >= end {
            return Err(DriverError::OutOfBounds);
        }
        proof {
            lemma_insert_offset(offsets@, offset, end as int);
        }
        insert_record_offset(&mut offsets, offset);
        index += 1;
    }
    Ok(offsets)
}

} // verus!
