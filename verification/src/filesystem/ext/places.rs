//! Where the blocks of ext files are stored.

use vstd::prelude::*;

use super::blocks::{
    add_extent, add_extents, add_extents_from, add_numbers, add_numbers_from, add_range,
    blocks_below, completed, continues, extent_ranges, number_range, number_ranges,
    range_extents_from, ranges_reach, EXT_BLOCK_LIMIT, ExtBlockRange, ExtRanges,
};
use crate::bytes::{holds_le, lemma_holds_le, u16_le, u32_le};
use crate::error::DriverError;
use crate::filesystem::extents::{
    extent_places, file_content, file_size, is_byte_at, lemma_placed_byte, FileExtent,
};
use crate::source::data_source::{Content, DataSource, DataSourceReference};

verus! {

/// The number of the block in which a block of a file is stored, if it is stored.
pub open spec fn place_in(ranges: Seq<ExtBlockRange>, block: int) -> Option<int>
    decreases ranges.len(),
{
    if ranges.len() == 0 {
        None
    } else {
        let last = ranges.last();
        if last.logical_block_number <= block < last.logical_block_number + last.number_of_blocks {
            if last.is_sparse {
                None
            } else {
                Some(last.physical_block_number + (block - last.logical_block_number))
            }
        } else {
            place_in(ranges.drop_last(), block)
        }
    }
}

/// Whether a range covers a block of a file.
pub open spec fn covers(range: ExtBlockRange, block: int) -> bool {
    range.logical_block_number <= block < range.logical_block_number + range.number_of_blocks
}

/// A range that is added gives the blocks that it covers their place, and no other one.
pub proof fn lemma_place_added(ranges: Seq<ExtBlockRange>, next: ExtBlockRange, block: int)
    requires
        ranges.len() > 0 ==> ranges.last().number_of_blocks + next.number_of_blocks <= u64::MAX,
    ensures
        place_in(add_range(ranges, next), block) == (if covers(next, block) {
            if next.is_sparse {
                None
            } else {
                Some(next.physical_block_number + (block - next.logical_block_number))
            }
        } else {
            place_in(ranges, block)
        }),
{
    let added = add_range(ranges, next);
    if ranges.len() > 0 && continues(ranges.last(), next) {
        assert(added.drop_last() =~= ranges.drop_last());
    } else {
        assert(added.drop_last() =~= ranges);
    }
}

/// Whether ranges follow each other.
pub open spec fn ranges_ordered(ranges: Seq<ExtBlockRange>) -> bool {
    forall|i: int, j: int|
        0 <= i < j < ranges.len() ==> (#[trigger] ranges[i]).logical_block_number
            + ranges[i].number_of_blocks <= (#[trigger] ranges[j]).logical_block_number
}

/// Whether ranges follow each other up to a block, and none has too many blocks.
spec fn counts_bounded(state: ExtRanges) -> bool {
    &&& state.end <= EXT_BLOCK_LIMIT
    &&& ranges_ordered(state.ranges)
    &&& forall|i: int|
        0 <= i < state.ranges.len() ==> (#[trigger] state.ranges[i]).number_of_blocks
            + state.ranges[i].logical_block_number <= state.end
}

proof fn lemma_counts_added(state: ExtRanges, next: ExtBlockRange, end: u64)
    requires
        counts_bounded(state),
        state.end <= next.logical_block_number,
        next.logical_block_number + next.number_of_blocks <= end <= EXT_BLOCK_LIMIT,
    ensures
        counts_bounded(ExtRanges { end, ranges: add_range(state.ranges, next) }),
        state.ranges.len() > 0 ==> state.ranges.last().number_of_blocks + next.number_of_blocks
            <= u64::MAX,
{
    let ranges = state.ranges;
    let added = add_range(ranges, next);
    if ranges.len() > 0 {
        assert(ranges[ranges.len() - 1] == ranges.last());
    }
    assert forall|i: int| 0 <= i < added.len() implies (#[trigger] added[i]).number_of_blocks
        + added[i].logical_block_number <= end by {
        if i < ranges.len() {
            assert(ranges[i].number_of_blocks + ranges[i].logical_block_number <= state.end);
        }
    }
    assert forall|i: int, j: int| 0 <= i < j < added.len() implies (
    #[trigger] added[i]).logical_block_number + added[i].number_of_blocks <= (
    #[trigger] added[j]).logical_block_number by {
        assert(ranges[i].number_of_blocks + ranges[i].logical_block_number <= state.end);
        if j < ranges.len() {
            assert(ranges[i].logical_block_number + ranges[i].number_of_blocks
                <= ranges[j].logical_block_number);
        }
    }
}

/// The number at an index of a block of numbers, which is zero where there is no such block.
pub open spec fn number_at(content: Content, block_size: u32, block: int, index: int) -> int {
    if block == 0 {
        0
    } else {
        u32_le(content.window(block * block_size + 4 * index, 4), 0) as int
    }
}

/// The number of the block in which a block of a file is stored, or zero: the first twelve numbers
/// are those of blocks, and the next ones lead to blocks of numbers once, twice and three times.
pub open spec fn numbered_block(
    content: Content,
    block_size: u32,
    reference: Seq<u8>,
    block: int,
) -> int {
    let p = (block_size / 4) as int;
    if block < 12 {
        u32_le(reference, 4 * block) as int
    } else if block < 12 + p {
        number_at(content, block_size, u32_le(reference, 48) as int, block - 12)
    } else if block < 12 + p + p * p {
        let k = block - 12 - p;
        number_at(
            content,
            block_size,
            number_at(content, block_size, u32_le(reference, 52) as int, k / p),
            k % p,
        )
    } else if block < 12 + p + p * p + p * (p * p) {
        let k = block - 12 - p - p * p;
        number_at(
            content,
            block_size,
            number_at(
                content,
                block_size,
                number_at(content, block_size, u32_le(reference, 56) as int, k / (p * p)),
                k % (p * p) / p,
            ),
            k % (p * p) % p,
        )
    } else {
        0
    }
}

/// A place, where zero stands for none.
pub open spec fn place_of(number: int) -> Option<int> {
    if number == 0 {
        None
    } else {
        Some(number)
    }
}

/// The number of a block below a number.
spec fn number_below(content: Content, block_size: u32, number: int, depth: nat, index: int) -> int
    decreases depth,
{
    if number == 0 || depth == 0 {
        number
    } else {
        let below = blocks_below(block_size, (depth - 1) as nat) as int;
        number_below(
            content,
            block_size,
            number_at(content, block_size, number, index / below),
            (depth - 1) as nat,
            index % below,
        )
    }
}

proof fn lemma_below_positive(block_size: u32, depth: nat)
    requires
        4 <= block_size,
    ensures
        0 < blocks_below(block_size, depth),
    decreases depth,
{
    if depth > 0 {
        lemma_below_positive(block_size, (depth - 1) as nat);
        let p = (block_size / 4) as int;
        let below = blocks_below(block_size, (depth - 1) as nat) as int;
        assert(0 < p * below) by (nonlinear_arith)
            requires
                0 < p,
                0 < below,
        ;
    }
}

spec fn least(a: int, b: int) -> int {
    if a < b {
        a
    } else {
        b
    }
}

proof fn lemma_step(m: int, b: int)
    requires
        0 < b,
        0 <= m,
    ensures
        (m + b) / b == m / b + 1,
        (m + b) % b == m % b,
        0 <= m / b,
        0 <= m % b < b,
{
    vstd::arithmetic::div_mod::lemma_fundamental_div_mod(m, b);
    let q = m / b;
    assert((q + 1) * b == q * b + b) by (nonlinear_arith);
    assert(b * q == q * b) by (nonlinear_arith);
    vstd::arithmetic::div_mod::lemma_fundamental_div_mod_converse(m + b, b, q + 1, m % b);
    assert(0 <= m / b) by (nonlinear_arith)
        requires
            0 < b,
            0 <= m,
    ;
}

/// What a number of blocks of numbers gives each block that it covers.
proof fn lemma_numbers_place(
    content: Content,
    block_size: u32,
    total: u64,
    data: Seq<u8>,
    at: int,
    depth: nat,
    state: ExtRanges,
    block: int,
)
    requires
        4 <= block_size,
        block_size % 4 == 0,
        total <= EXT_BLOCK_LIMIT,
        state.end <= total,
        0 <= at <= data.len(),
        at % 4 == 0,
        data.len() % 4 == 0,
        counts_bounded(state),
        add_numbers_from(content, block_size, total, data, at, depth, state) is Ok,
        0 <= block,
    ensures
        ({
            let more = add_numbers_from(content, block_size, total, data, at, depth, state)->Ok_0;
            let below = blocks_below(block_size, depth) as int;
            &&& more.end == least(total as int, state.end + (data.len() - at) / 4 * below)
            &&& counts_bounded(more)
            &&& block < state.end || more.end <= block ==> place_in(more.ranges, block) == place_in(
                state.ranges,
                block,
            )
            &&& state.end <= block < more.end ==> place_in(more.ranges, block) == place_of(
                number_below(
                    content,
                    block_size,
                    u32_le(data, at + 4 * ((block - state.end) / below)) as int,
                    depth,
                    (block - state.end) % below,
                ),
            )
        }),
    decreases depth, data.len() - at,
{
    let more = add_numbers_from(content, block_size, total, data, at, depth, state)->Ok_0;
    let below = blocks_below(block_size, depth) as int;
    let count = (data.len() - at) / 4;
    lemma_below_positive(block_size, depth);
    assert(0 <= count * below) by (nonlinear_arith)
        requires
            0 <= count,
            0 < below,
    ;
    if at + 4 > data.len() {
        assert(count == 0);
        assert(0 * below == 0);
    } else if state.end >= total {
    } else {
        let number = u32_le(data, at);
        let next = if number != 0 && depth > 0 {
            let node = content.exact(number * block_size, block_size as nat)->Ok_0;
            lemma_numbers_place(
                content,
                block_size,
                total,
                node,
                0,
                (depth - 1) as nat,
                state,
                block,
            );
            add_numbers_from(
                content,
                block_size,
                total,
                node,
                0,
                (depth - 1) as nat,
                state,
            )->Ok_0
        } else {
            let range = number_range(block_size, total, number, depth, state.end);
            ExtRanges {
                end: (state.end + range.number_of_blocks) as u64,
                ranges: add_range(state.ranges, range),
            }
        };
        // What the first number gives.
        assert(next.end == least(total as int, state.end + below) && (state.end <= block < next.end
            ==> place_in(next.ranges, block) == place_of(
            number_below(content, block_size, number as int, depth, block - state.end),
        )) && (block < state.end || next.end <= block ==> place_in(next.ranges, block) == place_in(
            state.ranges,
            block,
        )) && counts_bounded(next)) by {
            if number != 0 && depth > 0 {
                let node = content.exact(number * block_size, block_size as nat)->Ok_0;
                let inner = blocks_below(block_size, (depth - 1) as nat) as int;
                lemma_below_positive(block_size, (depth - 1) as nat);
                assert((node.len() - 0) / 4 == block_size / 4);
                assert(below == (block_size / 4) as int * inner);
                if state.end <= block < next.end {
                    let j = block - state.end;
                    let i = j / inner;
                    assert(0 <= i < block_size / 4) by (nonlinear_arith)
                        requires
                            0 <= j < (block_size / 4) as int * inner,
                            0 < inner,
                            i == j / inner,
                    ;
                    let window = content.window(number * block_size + 4 * i, 4);
                    assert(forall|m: int| 0 <= m < 4 ==> window[m] == node[4 * i + m]);
                    assert(u32_le(window, 0) == u32_le(node, 4 * i));
                    assert(u32_le(node, 0 + 4 * i) == number_at(
                        content,
                        block_size,
                        number as int,
                        i,
                    ));
                }
            } else {
                let range = number_range(block_size, total, number, depth, state.end);
                lemma_counts_added(state, range, (state.end + range.number_of_blocks) as u64);
                lemma_place_added(state.ranges, range, block);
                assert(depth == 0 ==> below == 1);
            }
        }
        lemma_numbers_place(content, block_size, total, data, at + 4, depth, next, block);
        let rest = count - 1;
        assert((data.len() - (at + 4)) / 4 == rest);
        assert(count * below == rest * below + below) by (nonlinear_arith)
            requires
                rest == count - 1,
        ;
        assert(0 <= rest * below) by (nonlinear_arith)
            requires
                0 <= rest,
                0 < below,
        ;
        if state.end <= block < next.end {
            let j = block - state.end;
            assert(j / below == 0 && j % below == j) by (nonlinear_arith)
                requires
                    0 <= j < below,
            ;
        } else if next.end <= block < more.end {
            lemma_step(block - next.end, below);
            assert(block - state.end == block - next.end + below);
        }
    }
}

/// Every block of a file with block numbers is stored where its numbers lead to, and is not stored
/// where one of them is zero.
pub proof fn lemma_numbered_block(
    content: Content,
    block_size: u32,
    total: u64,
    reference: Seq<u8>,
    block: int,
)
    requires
        4 <= block_size,
        block_size % 4 == 0,
        total <= EXT_BLOCK_LIMIT,
        reference.len() == 60,
        number_ranges(content, block_size, total, reference) is Ok,
        0 <= block < total,
    ensures
        place_in(number_ranges(content, block_size, total, reference)->Ok_0, block) == place_of(
            numbered_block(content, block_size, reference, block),
        ),
        ranges_ordered(number_ranges(content, block_size, total, reference)->Ok_0),
{
    reveal_with_fuel(blocks_below, 4);
    reveal_with_fuel(number_below, 4);
    let p = (block_size / 4) as int;
    let none = ExtRanges { end: 0, ranges: Seq::empty() };
    let part0 = reference.subrange(0, 48);
    let part1 = reference.subrange(48, 52);
    let part2 = reference.subrange(52, 56);
    let part3 = reference.subrange(56, 60);
    let direct = add_numbers(content, block_size, total, part0, 0, Ok(none))->Ok_0;
    let single = add_numbers(content, block_size, total, part1, 1, Ok(direct))->Ok_0;
    let double = add_numbers(content, block_size, total, part2, 2, Ok(single))->Ok_0;
    let triple = add_numbers(content, block_size, total, part3, 3, Ok(double))->Ok_0;
    lemma_numbers_place(content, block_size, total, part0, 0, 0, none, block);
    lemma_numbers_place(content, block_size, total, part1, 0, 1, direct, block);
    lemma_numbers_place(content, block_size, total, part2, 0, 2, single, block);
    lemma_numbers_place(content, block_size, total, part3, 0, 3, double, block);
    assert(p * 1 == p);
    let p2 = p * p;
    assert(p * (p * 1) == p2);
    assert(p * (p * (p * 1)) == p * p2);
    assert(0 < p2 && 0 < p * p2) by (nonlinear_arith)
        requires
            0 < p,
            p2 == p * p,
    ;
    assert(blocks_below(block_size, 0) == 1);
    assert(blocks_below(block_size, 1) == p);
    assert(blocks_below(block_size, 2) == p2);
    assert(blocks_below(block_size, 3) == p * p2);
    assert((part1.len() - 0) / 4 == 1 && (part2.len() - 0) / 4 == 1 && (part3.len() - 0) / 4 == 1);
    assert(1 * p == p && 1 * p2 == p2 && 1 * (p * p2) == p * p2);
    let count0 = (part0.len() - 0) / 4;
    assert(count0 == 12);
    assert(count0 * blocks_below(block_size, 0) == 12) by (nonlinear_arith)
        requires
            count0 == 12,
            blocks_below(block_size, 0) == 1,
    ;
    assert(none.end == 0);
    assert(direct == add_numbers_from(content, block_size, total, part0, 0, 0, none)->Ok_0);
    assert(direct.end == least(total as int, 12));
    assert(single.end == least(total as int, 12 + p));
    assert(double.end == least(total as int, 12 + p + p2));
    assert(triple.end == least(total as int, 12 + p + p2 + p * p2));
    if block < 12 {
        assert(u32_le(part0, 4 * block) == u32_le(reference, 4 * block));
    } else if block < 12 + p {
        let k = block - 12;
        assert(k / p == 0 && k % p == k) by (nonlinear_arith)
            requires
                0 <= k < p,
        ;
        assert(u32_le(part1, 0) == u32_le(reference, 48));
        assert(k / 1 == k && k % 1 == 0);
    } else if block < 12 + p + p2 {
        let k = block - 12 - p;
        assert(k / p2 == 0 && k % p2 == k) by (nonlinear_arith)
            requires
                0 <= k < p2,
        ;
        assert(u32_le(part2, 0) == u32_le(reference, 52));
        assert((k % p) / 1 == k % p);
    } else if block < 12 + p + p2 + p * p2 {
        let k = block - 12 - p - p2;
        let p3 = p * p2;
        assert(k / p3 == 0 && k % p3 == k) by (nonlinear_arith)
            requires
                0 <= k < p3,
        ;
        assert(u32_le(part3, 0) == u32_le(reference, 56));
        assert((k % p2 % p) / 1 == k % p2 % p);
    } else {
    }
    if triple.end < total {
        let gap = ExtBlockRange {
            logical_block_number: triple.end,
            physical_block_number: 0,
            number_of_blocks: (total - triple.end) as u64,
            is_sparse: true,
        };
        lemma_counts_added(triple, gap, total);
        lemma_place_added(triple.ranges, gap, block);
    }
}

/// An extent of a file: a number of blocks from a logical one on that are stored from a physical one
/// on. Extents that are not initialized have no data yet.
pub struct ExtentValue {
    pub logical: int,
    pub count: int,
    pub physical: int,
    pub is_initialized: bool,
}

impl ExtentValue {
    /// Whether the numbers of an extent have the sizes for which there is space.
    pub open spec fn is_valid(self) -> bool {
        &&& 0 <= self.logical < 0x1_0000_0000
        &&& 0 < self.count
        &&& self.is_initialized ==> self.count <= 32768
        &&& !self.is_initialized ==> self.count < 32768
        &&& 0 <= self.physical < 0x1_0000_0000_0000
    }

    /// Where a block that the extent covers is stored.
    pub open spec fn place(self, block: int) -> Option<int> {
        if self.is_initialized && self.physical != 0 {
            Some(self.physical + (block - self.logical))
        } else {
            None
        }
    }
}

/// Whether an extent is stored at an offset: its logical block, the number of its blocks, to which
/// 32768 is added where it is not initialized, and the upper 16 and lower 32 bits of its physical
/// block.
pub open spec fn holds_extent(data: Seq<u8>, at: int, extent: ExtentValue) -> bool {
    &&& extent.is_valid()
    &&& holds_le(data, at, 4, extent.logical)
    &&& holds_le(
        data,
        at + 4,
        2,
        if extent.is_initialized {
            extent.count
        } else {
            extent.count + 32768
        },
    )
    &&& holds_le(data, at + 6, 2, extent.physical / 0x1_0000_0000)
    &&& holds_le(data, at + 8, 4, extent.physical % 0x1_0000_0000)
}

/// An extent that is stored gives every block that it covers its place. The blocks between what was
/// read before and the extent are not stored.
proof fn lemma_extent_added(
    data: Seq<u8>,
    at: int,
    extent: ExtentValue,
    state: ExtRanges,
    block: int,
)
    requires
        holds_extent(data, at, extent),
        counts_bounded(state),
        state.end <= extent.logical,
    ensures
        counts_bounded(add_extent(data, at, state)),
        add_extent(data, at, state).end == extent.logical + extent.count,
        place_in(add_extent(data, at, state).ranges, block) == (if extent.logical <= block
            < extent.logical + extent.count {
            extent.place(block)
        } else if state.end <= block < extent.logical {
            None
        } else {
            place_in(state.ranges, block)
        }),
{
    lemma_holds_le(data, at, 4, extent.logical);
    lemma_holds_le(
        data,
        at + 4,
        2,
        if extent.is_initialized {
            extent.count
        } else {
            extent.count + 32768
        },
    );
    lemma_holds_le(data, at + 6, 2, extent.physical / 0x1_0000_0000);
    lemma_holds_le(data, at + 8, 4, extent.physical % 0x1_0000_0000);
    let gap = ExtBlockRange {
        logical_block_number: state.end,
        physical_block_number: 0,
        number_of_blocks: (extent.logical - state.end) as u64,
        is_sparse: true,
    };
    let middle = ExtRanges {
        end: extent.logical as u64,
        ranges: if extent.logical > state.end {
            add_range(state.ranges, gap)
        } else {
            state.ranges
        },
    };
    if extent.logical > state.end {
        lemma_counts_added(state, gap, extent.logical as u64);
        lemma_place_added(state.ranges, gap, block);
    }
    let range = ExtBlockRange {
        logical_block_number: extent.logical as u64,
        physical_block_number: extent.physical as u64,
        number_of_blocks: extent.count as u64,
        is_sparse: extent.physical == 0 || !extent.is_initialized,
    };
    lemma_counts_added(middle, range, (extent.logical + extent.count) as u64);
    lemma_place_added(middle.ranges, range, block);
}

/// A tree of extents: a leaf holds extents, and another node the numbers of the blocks of the nodes
/// below it.
pub enum ExtentTree {
    Leaf { extents: Seq<ExtentValue> },
    Branch { depth: nat, blocks: Seq<int>, children: Seq<ExtentTree> },
}

impl ExtentTree {
    /// The number of levels below the node.
    pub open spec fn depth(self) -> nat {
        match self {
            ExtentTree::Leaf { .. } => 0,
            ExtentTree::Branch { depth, .. } => depth,
        }
    }
}

/// Whether a tree of extents is stored with the given node at its root. A node starts with 0xf30a,
/// the number of its entries and, at offset 6, its depth. Its entries of 12 bytes follow at offset
/// 12. Those of a branch hold the lower 32 and upper 16 bits of the number of a block.
pub open spec fn holds_tree(content: Content, block_size: u32, data: Seq<u8>, tree: ExtentTree) -> bool
    decreases tree,
{
    &&& holds_le(data, 0, 2, 0xf30a)
    &&& holds_le(data, 6, 2, tree.depth() as int)
    &&& match tree {
        ExtentTree::Leaf { extents } => {
            &&& holds_le(data, 2, 2, extents.len() as int)
            &&& 12 + 12 * extents.len() <= data.len()
            &&& forall|i: int|
                0 <= i < extents.len() ==> holds_extent(data, 12 + 12 * i, #[trigger] extents[i])
        },
        ExtentTree::Branch { depth, blocks, children } => {
            &&& 0 < depth
            &&& holds_le(data, 2, 2, children.len() as int)
            &&& 12 + 12 * children.len() <= data.len()
            &&& blocks.len() == children.len()
            &&& forall|i: int|
                0 <= i < children.len() ==> {
                    &&& (#[trigger] children[i]).depth() < depth
                    &&& 0 <= blocks[i] < 0x1_0000_0000_0000
                    &&& blocks[i] * block_size <= u64::MAX
                    &&& holds_le(data, 12 + 12 * i + 4, 4, blocks[i] % 0x1_0000_0000)
                    &&& holds_le(data, 12 + 12 * i + 8, 2, blocks[i] / 0x1_0000_0000)
                    &&& content.has(blocks[i] * block_size, block_size as int)
                    &&& holds_tree(
                        content,
                        block_size,
                        content.window(blocks[i] * block_size, block_size as nat),
                        children[i],
                    )
                }
        },
    }
}

/// The extents of a tree, from left to right.
pub open spec fn tree_extents(tree: ExtentTree) -> Seq<ExtentValue>
    decreases tree, 1int, 0int,
{
    match tree {
        ExtentTree::Leaf { extents } => extents,
        ExtentTree::Branch { children, .. } => extents_below(tree, children.len() as int),
    }
}

/// The extents of the first nodes below a node, from left to right.
pub open spec fn extents_below(tree: ExtentTree, count: int) -> Seq<ExtentValue>
    decreases tree, 0int, count,
{
    match tree {
        ExtentTree::Leaf { .. } => Seq::empty(),
        ExtentTree::Branch { children, .. } => if count <= 0 || count > children.len() {
            Seq::empty()
        } else {
            extents_below(tree, count - 1) + tree_extents(children[count - 1])
        },
    }
}

/// Whether extents follow each other from a block on.
pub open spec fn ascending_from(extents: Seq<ExtentValue>, start: int) -> bool
    decreases extents.len(),
{
    if extents.len() == 0 {
        true
    } else {
        &&& start <= extents[0].logical
        &&& 0 <= extents[0].count
        &&& ascending_from(extents.skip(1), extents[0].logical + extents[0].count)
    }
}

/// The end of extents that start no earlier than at a block.
pub open spec fn extents_end(extents: Seq<ExtentValue>, start: int) -> int
    decreases extents.len(),
{
    if extents.len() == 0 {
        start
    } else {
        extents_end(extents.skip(1), extents[0].logical + extents[0].count)
    }
}

/// Where a block is stored that the first extent which covers it gives a place.
pub open spec fn extents_place(extents: Seq<ExtentValue>, block: int) -> Option<int>
    decreases extents.len(),
{
    if extents.len() == 0 {
        None
    } else if extents[0].logical <= block < extents[0].logical + extents[0].count {
        extents[0].place(block)
    } else {
        extents_place(extents.skip(1), block)
    }
}

/// Whether ranges give blocks the places that they had before and those of extents.
spec fn gives_places(
    before: ExtRanges,
    extents: Seq<ExtentValue>,
    after: ExtRanges,
    block: int,
) -> bool {
    &&& counts_bounded(after)
    &&& after.end == extents_end(extents, before.end as int)
    &&& before.end <= after.end
    &&& place_in(after.ranges, block) == (if before.end <= block < after.end {
        extents_place(extents, block)
    } else {
        place_in(before.ranges, block)
    })
}

proof fn lemma_extents_end(extents: Seq<ExtentValue>, start: int, block: int)
    requires
        ascending_from(extents, start),
    ensures
        start <= extents_end(extents, start),
        block < start || extents_end(extents, start) <= block ==> extents_place(extents, block)
            is None,
    decreases extents.len(),
{
    if extents.len() > 0 {
        lemma_extents_end(extents.skip(1), extents[0].logical + extents[0].count, block);
    }
}

proof fn lemma_extents_split(
    first: Seq<ExtentValue>,
    second: Seq<ExtentValue>,
    start: int,
    block: int,
)
    requires
        ascending_from(first + second, start),
    ensures
        ascending_from(first, start),
        ascending_from(second, extents_end(first, start)),
        extents_end(first + second, start) == extents_end(second, extents_end(first, start)),
        extents_place(first + second, block) == (if block < extents_end(first, start) {
            extents_place(first, block)
        } else {
            extents_place(second, block)
        }),
    decreases first.len(),
{
    if first.len() == 0 {
        assert(first + second =~= second);
        lemma_extents_end(second, start, block);
    } else {
        let next = first[0].logical + first[0].count;
        assert((first + second).skip(1) =~= first.skip(1) + second);
        lemma_extents_split(first.skip(1), second, next, block);
        lemma_extents_end(first.skip(1), next, block);
    }
}

proof fn lemma_places_joined(
    before: ExtRanges,
    first: Seq<ExtentValue>,
    middle: ExtRanges,
    second: Seq<ExtentValue>,
    after: ExtRanges,
    block: int,
)
    requires
        ascending_from(first + second, before.end as int),
        gives_places(before, first, middle, block),
        gives_places(middle, second, after, block),
    ensures
        gives_places(before, first + second, after, block),
{
    lemma_extents_split(first, second, before.end as int, block);
}

proof fn lemma_leaf_places(
    content: Content,
    block_size: u32,
    data: Seq<u8>,
    extents: Seq<ExtentValue>,
    index: int,
    state: ExtRanges,
    block: int,
)
    requires
        0 <= index <= extents.len(),
        u16_le(data, 2) == extents.len(),
        12 + 12 * extents.len() <= data.len(),
        forall|i: int|
            0 <= i < extents.len() ==> holds_extent(data, 12 + 12 * i, #[trigger] extents[i]),
        counts_bounded(state),
        ascending_from(extents.skip(index), state.end as int),
    ensures
        add_extents_from(content, block_size, data, 0, index, state) matches Ok(after)
            && gives_places(state, extents.skip(index), after, block),
    decreases extents.len() - index,
{
    let rest = extents.skip(index);
    if index < extents.len() {
        let extent = extents[index];
        assert(rest[0] == extent);
        assert(rest.skip(1) =~= extents.skip(index + 1));
        lemma_extent_added(data, 12 + 12 * index, extent, state, block);
        let next = add_extent(data, 12 + 12 * index, state);
        lemma_leaf_places(content, block_size, data, extents, index + 1, next, block);
        lemma_extents_end(extents.skip(index + 1), next.end as int, block);
    } else {
        assert(rest =~= Seq::<ExtentValue>::empty());
    }
}

proof fn lemma_tree_places(
    content: Content,
    block_size: u32,
    data: Seq<u8>,
    tree: ExtentTree,
    parent_depth: nat,
    state: ExtRanges,
    block: int,
)
    requires
        holds_tree(content, block_size, data, tree),
        tree.depth() < parent_depth,
        counts_bounded(state),
        ascending_from(tree_extents(tree), state.end as int),
    ensures
        add_extents(content, block_size, data, parent_depth, state) matches Ok(after)
            && gives_places(state, tree_extents(tree), after, block),
    decreases tree, 1int, 0int,
{
    lemma_holds_le(data, 0, 2, 0xf30a);
    lemma_holds_le(data, 6, 2, tree.depth() as int);
    match tree {
        ExtentTree::Leaf { extents } => {
            lemma_holds_le(data, 2, 2, extents.len() as int);
            assert(extents.skip(0) =~= extents);
            lemma_leaf_places(content, block_size, data, extents, 0, state, block);
        },
        ExtentTree::Branch { depth, blocks, children } => {
            lemma_holds_le(data, 2, 2, children.len() as int);
            assert(tree_extents(tree) == extents_below(tree, children.len() as int));
            assert(extents_below(tree, 0) =~= Seq::<ExtentValue>::empty());
            lemma_branch_places(
                content,
                block_size,
                data,
                tree,
                0,
                state,
                state,
                block,
            );
        },
    }
}

proof fn lemma_branch_places(
    content: Content,
    block_size: u32,
    data: Seq<u8>,
    tree: ExtentTree,
    index: int,
    start: ExtRanges,
    state: ExtRanges,
    block: int,
)
    requires
        tree is Branch,
        holds_tree(content, block_size, data, tree),
        0 <= index <= tree->children.len(),
        u16_le(data, 2) == tree->children.len(),
        ascending_from(tree_extents(tree), start.end as int),
        gives_places(start, extents_below(tree, index), state, block),
    ensures
        add_extents_from(content, block_size, data, tree.depth(), index, state) matches Ok(after)
            && gives_places(start, tree_extents(tree), after, block),
    decreases tree, 0int, tree->children.len() - index,
{
    let children = tree->children;
    let blocks = tree->blocks;
    if index < children.len() {
        let child = children[index];
        let number = blocks[index];
        let at = 12 + 12 * index;
        lemma_holds_le(data, at + 4, 4, number % 0x1_0000_0000);
        lemma_holds_le(data, at + 8, 2, number / 0x1_0000_0000);
        let node = content.window(number * block_size, block_size as nat);
        let first = extents_below(tree, index);
        let second = tree_extents(child);
        assert(extents_below(tree, index + 1) == first + second);
        lemma_below_ascending(tree, index + 1, start.end as int);
        lemma_extents_split(first, second, start.end as int, block);
        lemma_tree_places(content, block_size, node, child, tree.depth(), state, block);
        let next = add_extents(content, block_size, node, tree.depth(), state)->Ok_0;
        lemma_places_joined(start, first, state, second, next, block);
        lemma_branch_places(content, block_size, data, tree, index + 1, start, next, block);
    }
}

proof fn lemma_below_ascending(tree: ExtentTree, count: int, start: int)
    requires
        tree is Branch,
        0 <= count <= tree->children.len(),
        ascending_from(tree_extents(tree), start),
    ensures
        ascending_from(extents_below(tree, count), start),
    decreases tree->children.len() - count,
{
    if count < tree->children.len() {
        lemma_below_ascending(tree, count + 1, start);
        lemma_extents_split(
            extents_below(tree, count),
            tree_extents(tree->children[count]),
            start,
            0,
        );
    }
}

/// Every block that an extent of a stored tree covers is stored where that extent says, whatever the
/// depth of the tree is. All other blocks of the file are not stored.
pub proof fn lemma_extent_block(
    content: Content,
    block_size: u32,
    total: u64,
    reference: Seq<u8>,
    tree: ExtentTree,
    block: int,
)
    requires
        holds_tree(content, block_size, reference, tree),
        tree.depth() <= 5,
        ascending_from(tree_extents(tree), 0),
        total <= EXT_BLOCK_LIMIT,
        0 <= block < total,
    ensures
        extent_ranges(content, block_size, total, reference) matches Ok(ranges) && place_in(
            ranges,
            block,
        ) == extents_place(tree_extents(tree), block) && ranges_ordered(ranges),
{
    let none = ExtRanges { end: 0, ranges: Seq::empty() };
    lemma_tree_places(content, block_size, reference, tree, 6, none, block);
    let state = add_extents(content, block_size, reference, 6, none)->Ok_0;
    lemma_extents_end(tree_extents(tree), 0, block);
    if state.end < total {
        let gap = ExtBlockRange {
            logical_block_number: state.end,
            physical_block_number: 0,
            number_of_blocks: (total - state.end) as u64,
            is_sparse: true,
        };
        lemma_counts_added(state, gap, total);
        lemma_place_added(state.ranges, gap, block);
    }
}

/// Every byte of a file that a range of blocks covers is stored in that range, as far behind its
/// first block as the byte lies behind the first one that the range covers.
pub proof fn lemma_range_places(
    block_size: u32,
    data_size: u64,
    ranges: Seq<ExtBlockRange>,
    from: int,
    extents: Seq<FileExtent>,
    index: int,
    offset: int,
)
    requires
        ranges_ordered(ranges),
        0 <= from <= index < ranges.len(),
        range_extents_from(block_size, data_size, ranges, from, extents) is Ok,
        0 <= offset < data_size,
        ranges[index].logical_block_number * block_size <= offset < (
        ranges[index].logical_block_number + ranges[index].number_of_blocks) * block_size,
    ensures
        exists|i: int|
            0 <= i < range_extents_from(block_size, data_size, ranges, from, extents)->Ok_0.len()
                && extent_places(
                #[trigger] range_extents_from(block_size, data_size, ranges, from, extents)->Ok_0[i],
                offset,
                if ranges[index].is_sparse {
                    None
                } else {
                    Some(
                        ranges[index].physical_block_number * block_size + (offset
                            - ranges[index].logical_block_number * block_size),
                    )
                },
            ),
    decreases ranges.len() - from,
{
    let all = range_extents_from(block_size, data_size, ranges, from, extents)->Ok_0;
    let range = ranges[from];
    let b = block_size as int;
    let start = range.logical_block_number * block_size;
    let length = range.number_of_blocks * block_size;
    let rest = data_size - start;
    let size = if length < rest {
        length
    } else {
        rest
    };
    let extent = FileExtent {
        logical_offset: start as u64,
        size: size as u64,
        offset: if range.is_sparse {
            None
        } else {
            Some((range.physical_block_number * block_size) as u64)
        },
    };
    assert((range.logical_block_number + range.number_of_blocks) * block_size == start + length)
        by (nonlinear_arith)
        requires
            start == range.logical_block_number * block_size,
            length == range.number_of_blocks * block_size,
    ;
    assert(0 <= start && 0 <= length && 0 <= range.physical_block_number * block_size)
        by (nonlinear_arith)
        requires
            start == range.logical_block_number * block_size,
            length == range.number_of_blocks * block_size,
    ;
    if from < index {
        let next = ranges[index].logical_block_number as int;
        let own = range.logical_block_number as int;
        assert(own * b <= next * b) by (nonlinear_arith)
            requires
                own <= next,
                0 <= b,
        ;
        lemma_range_places(
            block_size,
            data_size,
            ranges,
            from + 1,
            extents.push(extent),
            index,
            offset,
        );
    } else {
        lemma_range_extents_kept(block_size, data_size, ranges, from + 1, extents.push(extent));
        let i = extents.len() as int;
        assert(extents.push(extent)[i] == extent);
        assert(all[i] == extent);
    }
}

/// A block that ranges reach is covered by one of them, which gives it its place.
pub proof fn lemma_place_index(ranges: Seq<ExtBlockRange>, total: u64, from: int, block: int) -> (index:
    int)
    requires
        ranges_ordered(ranges),
        ranges_reach(ranges, total),
        0 <= from < ranges.len(),
        ranges[from].logical_block_number <= block < total,
    ensures
        from <= index < ranges.len(),
        covers(ranges[index], block),
        place_in(ranges, block) == (if ranges[index].is_sparse {
            None
        } else {
            Some(ranges[index].physical_block_number + (block - ranges[index].logical_block_number))
        }),
    decreases ranges.len() - from,
{
    if covers(ranges[from], block) {
        lemma_place_covered(ranges, from, block);
        from
    } else {
        if from + 1 == ranges.len() {
            assert(ranges[from] == ranges.last());
        }
        assert(ranges[from + 1].logical_block_number <= ranges[from + 1
            - 1].logical_block_number + ranges[from + 1 - 1].number_of_blocks);
        lemma_place_index(ranges, total, from + 1, block)
    }
}

proof fn lemma_place_covered(ranges: Seq<ExtBlockRange>, index: int, block: int)
    requires
        ranges_ordered(ranges),
        0 <= index < ranges.len(),
        covers(ranges[index], block),
    ensures
        place_in(ranges, block) == (if ranges[index].is_sparse {
            None
        } else {
            Some(ranges[index].physical_block_number + (block - ranges[index].logical_block_number))
        }),
    decreases ranges.len(),
{
    if index < ranges.len() - 1 {
        let front = ranges.drop_last();
        assert(ranges[ranges.len() - 1] == ranges.last());
        assert(ranges[index].logical_block_number + ranges[index].number_of_blocks
            <= ranges[ranges.len() - 1].logical_block_number);
        assert forall|i: int, j: int| 0 <= i < j < front.len() implies (
        #[trigger] front[i]).logical_block_number + front[i].number_of_blocks <= (
        #[trigger] front[j]).logical_block_number by {
            assert(ranges[i].logical_block_number + ranges[i].number_of_blocks
                <= ranges[j].logical_block_number);
        }
        lemma_place_covered(front, index, block);
    }
}

/// Every byte of a file lies in the block that its ranges give the block which covers it.
pub proof fn lemma_ranges_byte(
    source: DataSourceReference,
    block_size: u32,
    data_size: u64,
    total: u64,
    ranges: Seq<ExtBlockRange>,
    offset: int,
)
    requires
        0 < block_size,
        ranges_ordered(ranges),
        ranges_reach(ranges, total),
        data_size <= total * block_size,
        range_extents_from(block_size, data_size, ranges, 0, Seq::empty()) is Ok,
        file_size(
            source,
            range_extents_from(block_size, data_size, ranges, 0, Seq::empty())->Ok_0,
        ) is Ok,
        0 <= offset < data_size,
    ensures
        is_byte_at(
            file_content(
                source,
                range_extents_from(block_size, data_size, ranges, 0, Seq::empty())->Ok_0,
            ),
            offset,
            source.content(),
            match place_in(ranges, offset / block_size as int) {
                None => None,
                Some(block) => Some(block * block_size + offset % block_size as int),
            },
        ),
{
    let b = block_size as int;
    let block = offset / b;
    let extents = range_extents_from(block_size, data_size, ranges, 0, Seq::empty())->Ok_0;
    assert(0 <= block < total && offset == block * b + offset % b && 0 <= offset % b < b)
        by (nonlinear_arith)
        requires
            0 <= offset < total * b,
            block == offset / b,
            0 < b,
    ;
    if ranges.len() == 0 {
        assert(false);
    }
    let index = lemma_place_index(ranges, total, 0, block);
    let range = ranges[index];
    let first = range.logical_block_number as int;
    let count = range.number_of_blocks as int;
    let physical = range.physical_block_number as int;
    assert(first * b <= offset < (first + count) * b) by (nonlinear_arith)
        requires
            first <= block < first + count,
            offset == block * b + offset % b,
            0 <= offset % b < b,
    ;
    assert((physical + (block - first)) * b + offset % b == physical * b + (offset - first * b))
        by (nonlinear_arith)
        requires
            offset == block * b + offset % b,
    ;
    lemma_range_places(block_size, data_size, ranges, 0, Seq::empty(), index, offset);
    let place = if range.is_sparse {
        None
    } else {
        Some(range.physical_block_number * block_size + (offset - range.logical_block_number
            * block_size))
    };
    let i = choose|i: int|
        0 <= i < extents.len() && extent_places(#[trigger] extents[i], offset, place);
    lemma_placed_byte(source, extents, i, offset, place);
}

proof fn lemma_range_extents_kept(
    block_size: u32,
    data_size: u64,
    ranges: Seq<ExtBlockRange>,
    from: int,
    extents: Seq<FileExtent>,
)
    requires
        0 <= from,
    ensures
        range_extents_from(block_size, data_size, ranges, from, extents) matches Ok(all) ==> {
            &&& extents.len() <= all.len()
            &&& forall|i: int| 0 <= i < extents.len() ==> #[trigger] all[i] == extents[i]
        },
    decreases ranges.len() - from,
{
    if from < ranges.len() {
        let range = ranges[from];
        let start = range.logical_block_number * block_size;
        let length = range.number_of_blocks * block_size;
        let rest = data_size - start;
        let size = if length < rest {
            length
        } else {
            rest
        };
        let extent = FileExtent {
            logical_offset: start as u64,
            size: size as u64,
            offset: if range.is_sparse {
                None
            } else {
                Some((range.physical_block_number * block_size) as u64)
            },
        };
        lemma_range_extents_kept(block_size, data_size, ranges, from + 1, extents.push(extent));
        if let Ok(all) = range_extents_from(
            block_size,
            data_size,
            ranges,
            from + 1,
            extents.push(extent),
        ) {
            assert forall|i: int| 0 <= i < extents.len() implies #[trigger] all[i]
                == extents[i] by {
                assert(extents.push(extent)[i] == extents[i]);
            }
        }
    }
}

} // verus!
