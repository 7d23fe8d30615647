//! Blocks of which a bitmap says which sectors they hold.

use vstd::arithmetic::power2::{lemma2_to64, lemma_pow2_unfold, pow2};
use vstd::prelude::*;

use super::block_map::{absent_location, lemma_block_index, BlockMap};
use crate::source::data_source::DataSourceReference;
use crate::source::extent_map::{extents_location, lemma_extents_minimal, MediaLocation};

verus! {

/// Whether a bit of a byte is set, counted from the lowest one.
pub open spec fn bit_of(byte: u8, bit: int) -> bool
    decreases bit,
{
    if bit <= 0 {
        byte % 2 == 1
    } else {
        bit_of(byte / 2, bit - 1)
    }
}

/// Whether a bitmap says that a sector is held.
pub open spec fn is_sector_set(bitmap: Seq<u8>, sector: int) -> bool {
    bit_of(bitmap[sector / 8], sector % 8)
}

/// The lowest bit of a byte is the one with the number zero, and each other one has the number of its
/// power of two.
pub proof fn lemma_bit(byte: u8, bit: nat, above: int, value: int, below: int)
    requires
        byte == 2 * above * pow2(bit) + value * pow2(bit) + below,
        0 <= above,
        0 <= value < 2,
        0 <= below < pow2(bit),
    ensures
        bit_of(byte, bit as int) == (value == 1),
    decreases bit,
{
    if bit == 0 {
        lemma2_to64();
    } else {
        let half = pow2((bit - 1) as nat) as int;
        lemma_pow2_unfold(bit);
        assert(byte / 2 == 2 * above * half + value * half + below / 2) by {
            assert(2 * above * (2 * half) == 2 * (2 * above * half)) by (nonlinear_arith);
            assert(value * (2 * half) == 2 * (value * half)) by (nonlinear_arith);
        }
        lemma_bit(byte / 2, (bit - 1) as nat, above, value, below / 2);
    }
}

/// Where a byte of a block is stored: after `data_offset` if its sector is held.
pub open spec fn sector_location(
    source: DataSourceReference,
    parent: Option<DataSourceReference>,
    bitmap: Seq<u8>,
    sector_size: int,
    data_offset: int,
    block_offset: int,
    k: int,
) -> MediaLocation {
    if is_sector_set(bitmap, (k - block_offset) / sector_size) {
        MediaLocation::Data { source, offset: data_offset + (k - block_offset) }
    } else {
        absent_location(parent, k)
    }
}

/// Whether an offset in a block lies between a sector that is held and one that is not.
pub open spec fn sectors_differ(bitmap: Seq<u8>, sector_size: int, offset: int) -> bool {
    is_sector_set(bitmap, (offset - 1) / sector_size) != is_sector_set(bitmap, offset / sector_size)
}

/// Determines if a bit of a byte is set.
pub fn test_bit(byte: u8, bit: u64) -> (set: bool)
    ensures
        set == bit_of(byte, bit as int),
    decreases bit,
{
    if bit == 0 {
        byte % 2 == 1
    } else {
        test_bit(byte / 2, bit - 1)
    }
}

/// Appends the first `size` bytes of a block that has its data at `data_offset`.
pub fn append_sectors(
    map: BlockMap,
    bitmap: &[u8],
    sector_size: u64,
    data_offset: u64,
    size: u64,
) -> (result: BlockMap)
    requires
        0 < sector_size,
        size <= bitmap@.len() * 8 * sector_size,
        map.size() + size <= u64::MAX,
        data_offset + size <= u64::MAX,
    ensures
        result.extends(map, size as int),
        result.is_tiled(),
        map.parent() != Some(map.source()) ==> forall|i: int|
            0 < i < result.extents().len() && map.size() < (
            #[trigger] result.extents()[i]).logical_offset ==> sectors_differ(
                bitmap@,
                sector_size as int,
                result.extents()[i].logical_offset - map.size(),
            ),
        forall|k: int|
            map.size() <= k < result.size() ==> #[trigger] result.location(k) == sector_location(
                map.source(),
                map.parent(),
                bitmap@,
                sector_size as int,
                data_offset as int,
                map.size() as int,
                k,
            ),
{
    let ghost start = map;
    let mut map = map;
    let mut sector: u64 = 0;
    let mut offset: u64 = 0;
    while offset < size
        invariant
            0 < sector_size,
            size <= bitmap@.len() * 8 * sector_size,
            start.size() + size <= u64::MAX,
            data_offset + size <= u64::MAX,
            offset <= size,
            sector <= offset,
            offset < size ==> offset == sector * sector_size,
            map.extends(start, offset as int),
            forall|k: int|
                start.size() <= k < map.size() ==> #[trigger] map.location(k) == sector_location(
                    start.source(),
                    start.parent(),
                    bitmap@,
                    sector_size as int,
                    data_offset as int,
                    start.size() as int,
                    k,
                ),
        decreases size - offset,
    {
        proof {
            assert(sector / 8 < bitmap@.len() && (sector + 1) * sector_size == sector * sector_size
                + sector_size) by (nonlinear_arith)
                requires
                    0 < sector_size,
                    sector * sector_size < size,
                    size <= bitmap@.len() * 8 * sector_size,
            ;
        }
        let remaining_size: u64 = size - offset;
        let sector_part: u64 = if sector_size < remaining_size {
            sector_size
        } else {
            remaining_size
        };
        let ghost before = map;
        if test_bit(bitmap[(sector / 8) as usize], sector % 8) {
            map = map.append_data(data_offset + offset, sector_part);
        } else {
            map = map.append_absent(sector_part);
        }
        proof {
            assert forall|k: int| start.size() <= k < map.size() implies #[trigger] map.location(k)
                == sector_location(
                start.source(),
                start.parent(),
                bitmap@,
                sector_size as int,
                data_offset as int,
                start.size() as int,
                k,
            ) by {
                if k < before.size() {
                    assert(map.location(k) == before.location(k));
                } else {
                    lemma_block_index(k - start.size(), sector as int, sector_size as int);
                }
            }
            assert forall|k: int| 0 <= k < start.size() implies #[trigger] map.location(k)
                == start.location(k) by {
                assert(map.location(k) == before.location(k));
            }
        }
        offset = offset + sector_part;
        sector = sector + 1;
    }
    let map = map.finish();
    proof {
        if start.parent() != Some(start.source()) {
            assert forall|i: int|
                0 < i < map.extents().len() && start.size() < (
                #[trigger] map.extents()[i]).logical_offset implies sectors_differ(
                bitmap@,
                sector_size as int,
                map.extents()[i].logical_offset - start.size(),
            ) by {
                let k = map.extents()[i].logical_offset as int;
                lemma_extents_minimal(map.extents(), i);
                assert(map.location(k - 1) == extents_location(map.extents(), k - 1));
                assert(map.location(k) == extents_location(map.extents(), k));
            }
        }
    }
    map
}

} // verus!
