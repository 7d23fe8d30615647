//! Block ranges of ext files.

use vstd::prelude::*;

use crate::bytes::{read_u16_le, read_u32_le, u16_le, u32_le};
use crate::error::DriverError;
use crate::filesystem::extents::{extent_entries, file_size, FileExtent};
use crate::source::data_source::{read_bytes, Content, DataSource, DataSourceReference};

verus! {

/// A number of blocks of a file that are stored together, or not at all.
#[derive(Clone, Copy, Debug, PartialEq, Eq, Structural)]
pub struct ExtBlockRange {
    pub logical_block_number: u64,
    pub physical_block_number: u64,
    pub number_of_blocks: u64,
    pub is_sparse: bool,
}

/// The block ranges that were read so far, and the number of the block behind them.
pub struct ExtRanges {
    pub end: u64,
    pub ranges: Seq<ExtBlockRange>,
}

/// The largest number of a block that is reached.
pub const EXT_BLOCK_LIMIT: u64 = 0x1000_0000_0000_0000;

/// Whether the numbers of blocks are within their limits.
pub open spec fn ranges_bounded(ranges: Seq<ExtBlockRange>) -> bool {
    forall|i: int|
        0 <= i < ranges.len() ==> {
            &&& (#[trigger] ranges[i]).logical_block_number + ranges[i].number_of_blocks
                <= EXT_BLOCK_LIMIT
            &&& ranges[i].physical_block_number <= EXT_BLOCK_LIMIT
        }
}

/// Whether a range continues another one.
pub open spec fn continues(last: ExtBlockRange, next: ExtBlockRange) -> bool {
    &&& last.is_sparse == next.is_sparse
    &&& next.logical_block_number == last.logical_block_number + last.number_of_blocks
    &&& last.is_sparse || next.physical_block_number == last.physical_block_number
        + last.number_of_blocks
}

/// The ranges after another one was added, which is joined with the last one if it continues that.
pub open spec fn add_range(ranges: Seq<ExtBlockRange>, next: ExtBlockRange) -> Seq<ExtBlockRange> {
    if ranges.len() > 0 && continues(ranges.last(), next) {
        ranges.update(
            ranges.len() - 1,
            ExtBlockRange {
                logical_block_number: ranges.last().logical_block_number,
                physical_block_number: ranges.last().physical_block_number,
                number_of_blocks: (ranges.last().number_of_blocks + next.number_of_blocks) as u64,
                is_sparse: next.is_sparse,
            },
        )
    } else {
        ranges.push(next)
    }
}

/// The number of blocks that lie below a block number of a depth.
pub open spec fn blocks_below(block_size: u32, depth: nat) -> nat
    decreases depth,
{
    if depth == 0 {
        1
    } else {
        (block_size / 4) as nat * blocks_below(block_size, (depth - 1) as nat)
    }
}

/// The range of a block number, where it is that of a block or of none.
pub open spec fn number_range(
    block_size: u32,
    total: u64,
    number: u32,
    depth: nat,
    end: u64,
) -> ExtBlockRange {
    let below = blocks_below(block_size, depth) as int;
    ExtBlockRange {
        logical_block_number: end,
        physical_block_number: number as u64,
        number_of_blocks: if number != 0 {
            1
        } else if below < total - end {
            below as u64
        } else {
            (total - end) as u64
        },
        is_sparse: number == 0,
    }
}

/// The block ranges after those of the block numbers in data from `at` on were added. With a depth
/// above zero they are those of blocks that hold block numbers themselves.
pub open spec fn add_numbers_from(
    content: Content,
    block_size: u32,
    total: u64,
    data: Seq<u8>,
    at: int,
    depth: nat,
    state: ExtRanges,
) -> Result<ExtRanges, DriverError>
    decreases depth, data.len() - at,
{
    let number = u32_le(data, at);
    if at < 0 || at + 4 > data.len() || state.end >= total {
        Ok(state)
    } else if number != 0 && depth > 0 {
        match content.exact(number * block_size, block_size as nat) {
            Err(error) => Err(error),
            Ok(node) => match add_numbers_from(
                content,
                block_size,
                total,
                node,
                0,
                (depth - 1) as nat,
                state,
            ) {
                Err(error) => Err(error),
                Ok(more) => add_numbers_from(
                    content,
                    block_size,
                    total,
                    data,
                    at + 4,
                    depth,
                    more,
                ),
            },
        }
    } else {
        let range = number_range(block_size, total, number, depth, state.end);
        add_numbers_from(
            content,
            block_size,
            total,
            data,
            at + 4,
            depth,
            ExtRanges {
                end: (state.end + range.number_of_blocks) as u64,
                ranges: add_range(state.ranges, range),
            },
        )
    }
}

/// The block ranges after those of the block numbers in a part of data were added.
pub open spec fn add_numbers(
    content: Content,
    block_size: u32,
    total: u64,
    data: Seq<u8>,
    depth: nat,
    state: Result<ExtRanges, DriverError>,
) -> Result<ExtRanges, DriverError> {
    match state {
        Err(error) => Err(error),
        Ok(state) => add_numbers_from(content, block_size, total, data, 0, depth, state),
    }
}

/// The ranges up to a number of blocks. What is missing at their end is not stored.
pub open spec fn completed(state: ExtRanges, total: u64) -> Seq<ExtBlockRange> {
    if state.end < total {
        add_range(
            state.ranges,
            ExtBlockRange {
                logical_block_number: state.end,
                physical_block_number: 0,
                number_of_blocks: (total - state.end) as u64,
                is_sparse: true,
            },
        )
    } else {
        state.ranges
    }
}

/// The block ranges of block numbers: twelve of blocks, and one each of blocks that hold block
/// numbers one, two and three times over.
pub open spec fn number_ranges(
    content: Content,
    block_size: u32,
    total: u64,
    reference: Seq<u8>,
) -> Result<Seq<ExtBlockRange>, DriverError> {
    let none = ExtRanges { end: 0, ranges: Seq::empty() };
    let direct = add_numbers(content, block_size, total, reference.subrange(0, 48), 0, Ok(none));
    let single = add_numbers(content, block_size, total, reference.subrange(48, 52), 1, direct);
    let double = add_numbers(content, block_size, total, reference.subrange(52, 56), 2, single);
    match add_numbers(content, block_size, total, reference.subrange(56, 60), 3, double) {
        Err(error) => Err(error),
        Ok(state) => Ok(completed(state, total)),
    }
}

/// The block ranges after that of an extent was added. A gap before it is not stored, nor is an
/// extent with more than 32768 blocks, of which that number is taken off.
pub open spec fn add_extent(data: Seq<u8>, at: int, state: ExtRanges) -> ExtRanges {
    let logical = u32_le(data, at) as u64;
    let stored_count = u16_le(data, at + 4) as u64;
    let physical = (u32_le(data, at + 8) + 0x1_0000_0000 * u16_le(data, at + 6)) as u64;
    let count = if stored_count > 32768 {
        (stored_count - 32768) as u64
    } else {
        stored_count
    };
    let ranges = if logical > state.end {
        add_range(
            state.ranges,
            ExtBlockRange {
                logical_block_number: state.end,
                physical_block_number: 0,
                number_of_blocks: (logical - state.end) as u64,
                is_sparse: true,
            },
        )
    } else {
        state.ranges
    };
    ExtRanges {
        end: (logical + count) as u64,
        ranges: add_range(
            ranges,
            ExtBlockRange {
                logical_block_number: logical,
                physical_block_number: physical,
                number_of_blocks: count,
                is_sparse: physical == 0 || stored_count > 32768,
            },
        ),
    }
}

/// The block number of the node below an index.
pub open spec fn index_block(data: Seq<u8>, at: int) -> u64 {
    (u32_le(data, at + 4) + 0x1_0000_0000 * u16_le(data, at + 8)) as u64
}

/// The block ranges after those of the entries of a node of an extents tree from `index` on were
/// added.
pub open spec fn add_extents_from(
    content: Content,
    block_size: u32,
    data: Seq<u8>,
    depth: nat,
    index: int,
    state: ExtRanges,
) -> Result<ExtRanges, DriverError>
    decreases depth, 1int, u16_le(data, 2) - index,
{
    let at = 12 + 12 * index;
    if index >= u16_le(data, 2) {
        Ok(state)
    } else if at + 12 > data.len() {
        Err(DriverError::OutOfBounds)
    } else if depth == 0 {
        add_extents_from(
            content,
            block_size,
            data,
            depth,
            index + 1,
            add_extent(data, at, state),
        )
    } else if index_block(data, at) * block_size > u64::MAX {
        Err(DriverError::Overflow)
    } else {
        match content.exact(index_block(data, at) * block_size, block_size as nat) {
            Err(error) => Err(error),
            Ok(node) => match add_extents(content, block_size, node, depth, state) {
                Err(error) => Err(error),
                Ok(more) => add_extents_from(content, block_size, data, depth, index + 1, more),
            },
        }
    }
}

/// The block ranges after those of a node of an extents tree were added. The depth of a node lies
/// below that of its parent.
pub open spec fn add_extents(
    content: Content,
    block_size: u32,
    data: Seq<u8>,
    parent_depth: nat,
    state: ExtRanges,
) -> Result<ExtRanges, DriverError>
    decreases parent_depth, 0int, 0int,
{
    let depth = u16_le(data, 6) as nat;
    if u16_le(data, 0) != 0xf30a {
        Err(DriverError::Unsupported)
    } else if depth >= parent_depth {
        Err(DriverError::OutOfBounds)
    } else {
        add_extents_from(content, block_size, data, depth, 0, state)
    }
}

/// The block ranges of an extents tree.
pub open spec fn extent_ranges(
    content: Content,
    block_size: u32,
    total: u64,
    reference: Seq<u8>,
) -> Result<Seq<ExtBlockRange>, DriverError> {
    match add_extents(
        content,
        block_size,
        reference,
        6,
        ExtRanges { end: 0, ranges: Seq::empty() },
    ) {
        Err(error) => Err(error),
        Ok(state) => Ok(completed(state, total)),
    }
}

/// The extents of block ranges from `index` on, after those before them. They end with the data.
pub open spec fn range_extents_from(
    block_size: u32,
    data_size: u64,
    ranges: Seq<ExtBlockRange>,
    index: int,
    extents: Seq<FileExtent>,
) -> Result<Seq<FileExtent>, DriverError>
    decreases ranges.len() - index,
{
    let start = ranges[index].logical_block_number * block_size;
    let length = ranges[index].number_of_blocks * block_size;
    let rest = data_size - start;
    let size = if length < rest {
        length
    } else {
        rest
    };
    if index >= ranges.len() {
        Ok(extents)
    } else if start > u64::MAX {
        Err(DriverError::Overflow)
    } else if start >= data_size {
        Ok(extents)
    } else if !ranges[index].is_sparse && ranges[index].physical_block_number * block_size
        > u64::MAX {
        Err(DriverError::Overflow)
    } else {
        range_extents_from(
            block_size,
            data_size,
            ranges,
            index + 1,
            extents.push(
                FileExtent {
                    logical_offset: start as u64,
                    size: size as u64,
                    offset: if ranges[index].is_sparse {
                        None
                    } else {
                        Some((ranges[index].physical_block_number * block_size) as u64)
                    },
                },
            ),
        )
    }
}

/// Block ranges of an ext file.
pub struct ExtBlockRanges {
    pub end: u64,
    pub ranges: Vec<ExtBlockRange>,
}

impl ExtBlockRanges {
    /// The block ranges.
    pub open spec fn view(&self) -> ExtRanges {
        ExtRanges { end: self.end, ranges: self.ranges@ }
    }

    /// Whether the numbers of blocks are within their limits.
    pub open spec fn is_sound(&self) -> bool {
        self.end <= EXT_BLOCK_LIMIT && ranges_bounded(self.ranges@)
    }

    fn new() -> (state: Self)
        ensures
            state@ == (ExtRanges { end: 0, ranges: Seq::empty() }),
            state.is_sound(),
    {
        let state = ExtBlockRanges { end: 0, ranges: Vec::new() };
        assert(state.ranges@ =~= Seq::<ExtBlockRange>::empty());
        state
    }

    fn add(self, next: ExtBlockRange, end: u64) -> (state: Self)
        requires
            self.is_sound(),
            next.logical_block_number + next.number_of_blocks <= EXT_BLOCK_LIMIT,
            next.physical_block_number <= EXT_BLOCK_LIMIT,
            end <= EXT_BLOCK_LIMIT,
        ensures
            state@ == (ExtRanges { end, ranges: add_range(self@.ranges, next) }),
            state.is_sound(),
    {
        let mut ranges: Vec<ExtBlockRange> = self.ranges;
        let count: usize = ranges.len();
        if count > 0 {
            let last: ExtBlockRange = ranges[count - 1];
            assert(ranges@[count - 1] == ranges@.last());
            if last.is_sparse == next.is_sparse && next.logical_block_number
                == last.logical_block_number + last.number_of_blocks && (last.is_sparse
                || next.physical_block_number == last.physical_block_number
                + last.number_of_blocks) {
                ranges.set(
                    count - 1,
                    ExtBlockRange {
                        logical_block_number: last.logical_block_number,
                        physical_block_number: last.physical_block_number,
                        number_of_blocks: last.number_of_blocks + next.number_of_blocks,
                        is_sparse: next.is_sparse,
                    },
                );
                return ExtBlockRanges { end, ranges };
            }
        }
        ranges.push(next);
        ExtBlockRanges { end, ranges }
    }

    fn read_numbers(
        self,
        source: &DataSourceReference,
        block_size: u32,
        total: u64,
        data: &[u8],
        depth: u8,
    ) -> (result: Result<Self, DriverError>)
        requires
            self.is_sound(),
            total <= EXT_BLOCK_LIMIT,
            depth <= 3,
            4 <= block_size,
        ensures
            match result {
                Ok(state) => {
                    &&& add_numbers_from(
                        source.content(),
                        block_size,
                        total,
                        data@,
                        0,
                        depth as nat,
                        self@,
                    ) == Ok::<ExtRanges, DriverError>(state@)
                    &&& state.is_sound()
                },
                Err(error) => source.reliable() ==> add_numbers_from(
                    source.content(),
                    block_size,
                    total,
                    data@,
                    0,
                    depth as nat,
                    self@,
                ) == Err::<ExtRanges, DriverError>(error),
            },
        decreases depth,
    {
        let ghost content = source.content();
        let ghost whole = add_numbers_from(
            content,
            block_size,
            total,
            data@,
            0,
            depth as nat,
            self@,
        );
        let length: usize = data.len();
        let mut state = self;
        let mut at: usize = 0;
        while length - at >= 4 && state.end < total
            invariant
                at <= length,
                length == data@.len(),
                content == source.content(),
                state.is_sound(),
                total <= EXT_BLOCK_LIMIT,
                depth <= 3,
                4 <= block_size,
                whole == add_numbers_from(
                    content,
                    block_size,
                    total,
                    data@,
                    0,
                    depth as nat,
                    self@,
                ),
                whole == add_numbers_from(
                    content,
                    block_size,
                    total,
                    data@,
                    at as int,
                    depth as nat,
                    state@,
                ),
            decreases length - at,
        {
            let number: u32 = read_u32_le(data, at);
            if number != 0 && depth > 0 {
                proof {
                    assert(0 <= number * block_size <= u64::MAX) by (nonlinear_arith)
                        requires
                            0 <= number <= 0xffff_ffff,
                            0 <= block_size <= 0xffff_ffff,
                    ;
                }
                let node: Vec<u8> = read_bytes(
                    source,
                    number as u64 * block_size as u64,
                    block_size as usize,
                )?;
                state =
                state.read_numbers(source, block_size, total, node.as_slice(), depth - 1)?;
            } else {
                let range: ExtBlockRange = make_number_range(
                    block_size,
                    total,
                    number,
                    depth,
                    state.end,
                );
                let end: u64 = state.end + range.number_of_blocks;
                state = state.add(range, end);
            }
            at = at + 4;
        }
        Ok(state)
    }

    fn complete(self, total: u64) -> (ranges: Vec<ExtBlockRange>)
        requires
            self.is_sound(),
            total <= EXT_BLOCK_LIMIT,
        ensures
            ranges@ == completed(self@, total),
    {
        if self.end >= total {
            return self.ranges;
        }
        let range = ExtBlockRange {
            logical_block_number: self.end,
            physical_block_number: 0,
            number_of_blocks: total - self.end,
            is_sparse: true,
        };
        self.add(range, total).ranges
    }

    fn read_extent(self, data: &[u8], at: usize) -> (state: Self)
        requires
            self.is_sound(),
            at + 12 <= data@.len(),
        ensures
            state@ == add_extent(data@, at as int, self@),
            state.is_sound(),
    {
        let length: usize = data.len();
        assert(at + 12 <= length);
        let logical: u64 = read_u32_le(data, at) as u64;
        let stored_count: u64 = read_u16_le(data, at + 4) as u64;
        let physical: u64 = read_u32_le(data, at + 8) as u64 + 0x1_0000_0000 * (read_u16_le(
            data,
            at + 6,
        ) as u64);
        let count: u64 = if stored_count > 32768 {
            stored_count - 32768
        } else {
            stored_count
        };
        let mut state = self;
        if logical > state.end {
            let gap = ExtBlockRange {
                logical_block_number: state.end,
                physical_block_number: 0,
                number_of_blocks: logical - state.end,
                is_sparse: true,
            };
            state = state.add(gap, logical);
        }
        let range = ExtBlockRange {
            logical_block_number: logical,
            physical_block_number: physical,
            number_of_blocks: count,
            is_sparse: physical == 0 || stored_count > 32768,
        };
        state.add(range, logical + count)
    }

    fn read_extents(
        self,
        source: &DataSourceReference,
        block_size: u32,
        data: &[u8],
        parent_depth: u16,
    ) -> (result: Result<Self, DriverError>)
        requires
            self.is_sound(),
            12 <= data@.len(),
            1024 <= block_size,
        ensures
            match result {
                Ok(state) => {
                    &&& add_extents(
                        source.content(),
                        block_size,
                        data@,
                        parent_depth as nat,
                        self@,
                    ) == Ok::<ExtRanges, DriverError>(state@)
                    &&& state.is_sound()
                },
                Err(error) => source.reliable() ==> add_extents(
                    source.content(),
                    block_size,
                    data@,
                    parent_depth as nat,
                    self@,
                ) == Err::<ExtRanges, DriverError>(error),
            },
        decreases parent_depth,
    {
        let ghost content = source.content();
        let ghost whole = add_extents(content, block_size, data@, parent_depth as nat, self@);
        let length: usize = data.len();
        if read_u16_le(data, 0) != 0xf30a {
            return Err(DriverError::Unsupported);
        }
        let depth: u16 = read_u16_le(data, 6);
        if depth >= parent_depth {
            return Err(DriverError::OutOfBounds);
        }
        let count: u16 = read_u16_le(data, 2);
        let mut state = self;
        let mut index: u16 = 0;
        while index < count
            invariant
                index <= count,
                count == u16_le(data@, 2),
                depth < parent_depth,
                length == data@.len(),
                content == source.content(),
                state.is_sound(),
                1024 <= block_size,
                whole == add_extents(content, block_size, data@, parent_depth as nat, self@),
                whole == add_extents_from(
                    content,
                    block_size,
                    data@,
                    depth as nat,
                    index as int,
                    state@,
                ),
            decreases count - index,
        {
            let at: usize = 12 + 12 * (index as usize);
            if at + 12 > length {
                return Err(DriverError::OutOfBounds);
            }
            if depth == 0 {
                state = state.read_extent(data, at);
            } else {
                let number: u64 = read_u32_le(data, at + 4) as u64 + 0x1_0000_0000 * (read_u16_le(
                    data,
                    at + 8,
                ) as u64);
                let offset: u64 = number.checked_mul(block_size as u64).ok_or(
                    DriverError::Overflow,
                )?;
                let node: Vec<u8> = read_bytes(source, offset, block_size as usize)?;
                state = state.read_extents(source, block_size, node.as_slice(), depth)?;
            }
            index += 1;
        }
        Ok(state)
    }
}

fn make_number_range(block_size: u32, total: u64, number: u32, depth: u8, end: u64) -> (range:
    ExtBlockRange)
    requires
        end < total,
        depth <= 3,
        number == 0 || depth == 0,
        4 <= block_size,
    ensures
        range == number_range(block_size, total, number, depth as nat, end),
        end + range.number_of_blocks <= total,
{
    let rest: u64 = total - end;
    let mut count: u64 = 1;
    if number == 0 {
        let mut level: u8 = 0;
        while level < depth && count < rest
            invariant
                level <= depth <= 3,
                4 <= block_size,
                count == blocks_below(block_size, level as nat),
                rest == total - end,
                number == 0,
                end < total,
            decreases depth - level,
        {
            let per: u64 = (block_size / 4) as u64;
            match count.checked_mul(per) {
                Some(product) => {
                    proof {
                        assert(count * per == per * count) by (nonlinear_arith);
                    }
                    count = product;
                },
                None => {
                    proof {
                        assert(count * per == per * count) by (nonlinear_arith);
                        lemma_blocks_below(block_size, (level + 1) as nat, depth as nat);
                    }
                    return ExtBlockRange {
                        logical_block_number: end,
                        physical_block_number: number as u64,
                        number_of_blocks: rest,
                        is_sparse: true,
                    };
                },
            }
            level += 1;
        }
        proof {
            lemma_blocks_below(block_size, level as nat, depth as nat);
        }
        if count >= rest {
            count = rest;
        }
    }
    ExtBlockRange {
        logical_block_number: end,
        physical_block_number: number as u64,
        number_of_blocks: count,
        is_sparse: number == 0,
    }
}

/// No fewer blocks lie below a block number of a greater depth.
proof fn lemma_blocks_below(block_size: u32, level: nat, depth: nat)
    requires
        level <= depth,
        4 <= block_size,
    ensures
        blocks_below(block_size, level) <= blocks_below(block_size, depth),
    decreases depth - level,
{
    if level < depth {
        lemma_blocks_below(block_size, level, (depth - 1) as nat);
        let below = blocks_below(block_size, (depth - 1) as nat);
        let per = (block_size / 4) as nat;
        assert(below <= per * below) by (nonlinear_arith)
            requires
                1 <= per,
                0 <= below,
        ;
    }
}

/// Reads the block ranges of block numbers.
pub fn read_number_ranges(
    source: &DataSourceReference,
    block_size: u32,
    total: u64,
    reference: &[u8],
) -> (result: Result<Vec<ExtBlockRange>, DriverError>)
    requires
        reference@.len() == 60,
        total <= EXT_BLOCK_LIMIT,
        1024 <= block_size,
    ensures
        match result {
            Ok(ranges) => number_ranges(source.content(), block_size, total, reference@) == Ok::<
                Seq<ExtBlockRange>,
                DriverError,
            >(ranges@),
            Err(error) => source.reliable() ==> number_ranges(
                source.content(),
                block_size,
                total,
                reference@,
            ) == Err::<Seq<ExtBlockRange>, DriverError>(error),
        },
{
    let direct: &[u8] = vstd::slice::slice_subrange(reference, 0, 48);
    let single: &[u8] = vstd::slice::slice_subrange(reference, 48, 52);
    let double: &[u8] = vstd::slice::slice_subrange(reference, 52, 56);
    let triple: &[u8] = vstd::slice::slice_subrange(reference, 56, 60);
    let state = ExtBlockRanges::new();
    let state = state.read_numbers(source, block_size, total, direct, 0)?;
    let state = state.read_numbers(source, block_size, total, single, 1)?;
    let state = state.read_numbers(source, block_size, total, double, 2)?;
    let state = state.read_numbers(source, block_size, total, triple, 3)?;
    Ok(state.complete(total))
}

/// Reads the block ranges of an extents tree.
pub fn read_extent_ranges(
    source: &DataSourceReference,
    block_size: u32,
    total: u64,
    reference: &[u8],
) -> (result: Result<Vec<ExtBlockRange>, DriverError>)
    requires
        reference@.len() == 60,
        total <= EXT_BLOCK_LIMIT,
        1024 <= block_size,
    ensures
        match result {
            Ok(ranges) => extent_ranges(source.content(), block_size, total, reference@) == Ok::<
                Seq<ExtBlockRange>,
                DriverError,
            >(ranges@),
            Err(error) => source.reliable() ==> extent_ranges(
                source.content(),
                block_size,
                total,
                reference@,
            ) == Err::<Seq<ExtBlockRange>, DriverError>(error),
        },
{
    let state = ExtBlockRanges::new().read_extents(source, block_size, reference, 6)?;
    Ok(state.complete(total))
}

/// Determines the extents of block ranges.
pub fn make_range_extents(block_size: u32, data_size: u64, ranges: &Vec<ExtBlockRange>) -> (result:
    Result<Vec<FileExtent>, DriverError>)
    ensures
        match result {
            Ok(extents) => range_extents_from(block_size, data_size, ranges@, 0, Seq::empty())
                == Ok::<Seq<FileExtent>, DriverError>(extents@),
            Err(error) => range_extents_from(block_size, data_size, ranges@, 0, Seq::empty())
                == Err::<Seq<FileExtent>, DriverError>(error),
        },
{
    let ghost whole = range_extents_from(block_size, data_size, ranges@, 0, Seq::empty());
    let mut extents: Vec<FileExtent> = Vec::new();
    let mut index: usize = 0;
    assert(extents@ =~= Seq::<FileExtent>::empty());
    while index < ranges.len()
        invariant
            index <= ranges@.len(),
            whole == range_extents_from(block_size, data_size, ranges@, 0, Seq::empty()),
            whole == range_extents_from(block_size, data_size, ranges@, index as int, extents@),
        decreases ranges@.len() - index,
    {
        let range: ExtBlockRange = ranges[index];
        let start: u64 = range.logical_block_number.checked_mul(block_size as u64).ok_or(
            DriverError::Overflow,
        )?;
        if start >= data_size {
            return Ok(extents);
        }
        let rest: u64 = data_size - start;
        let size: u64 = match range.number_of_blocks.checked_mul(block_size as u64) {
            Some(length) => if length < rest {
                length
            } else {
                rest
            },
            None => rest,
        };
        let stored: Option<u64> = if range.is_sparse {
            None
        } else {
            let stored: u64 = range.physical_block_number.checked_mul(block_size as u64).ok_or(
                DriverError::Overflow,
            )?;
            Some(stored)
        };
        extents.push(FileExtent { logical_offset: start, size, offset: stored });
        index += 1;
    }
    Ok(extents)
}

/// Whether ranges end at a block, and none starts behind the end of the one before it.
pub open spec fn ranges_joined(state: ExtRanges) -> bool {
    &&& state.ranges.len() == 0 ==> state.end == 0
    &&& state.ranges.len() > 0 ==> state.ranges[0].logical_block_number == 0
    &&& state.ranges.len() > 0 ==> state.ranges.last().logical_block_number
        + state.ranges.last().number_of_blocks == state.end
    &&& forall|i: int|
        0 < i < state.ranges.len() ==> (#[trigger] state.ranges[i]).logical_block_number
            <= state.ranges[i - 1].logical_block_number + state.ranges[i - 1].number_of_blocks
    &&& state.end <= EXT_BLOCK_LIMIT
}

/// Adding a range that does not start behind the end of the others keeps them joined.
proof fn lemma_add_range(state: ExtRanges, next: ExtBlockRange)
    requires
        ranges_joined(state),
        next.logical_block_number <= state.end,
        next.logical_block_number + next.number_of_blocks <= EXT_BLOCK_LIMIT,
    ensures
        ranges_joined(
            ExtRanges {
                end: (next.logical_block_number + next.number_of_blocks) as u64,
                ranges: add_range(state.ranges, next),
            },
        ),
        add_range(state.ranges, next).len() > 0,
{
    let more = add_range(state.ranges, next);
    assert forall|i: int| 0 < i < more.len() implies (#[trigger] more[i]).logical_block_number
        <= more[i - 1].logical_block_number + more[i - 1].number_of_blocks by {
        if i < state.ranges.len() {
            assert(state.ranges[i].logical_block_number <= state.ranges[i - 1].logical_block_number
                + state.ranges[i - 1].number_of_blocks);
        }
    }
}

/// The ranges of block numbers are joined.
proof fn lemma_add_numbers(
    content: Content,
    block_size: u32,
    total: u64,
    data: Seq<u8>,
    at: int,
    depth: nat,
    state: ExtRanges,
)
    requires
        ranges_joined(state),
        total <= EXT_BLOCK_LIMIT,
        4 <= block_size,
    ensures
        add_numbers_from(content, block_size, total, data, at, depth, state) matches Ok(more)
            ==> ranges_joined(more),
    decreases depth, data.len() - at,
{
    let number = u32_le(data, at);
    if !(at < 0 || at + 4 > data.len() || state.end >= total) {
        if number != 0 && depth > 0 {
            if let Ok(node) = content.exact(number * block_size, block_size as nat) {
                lemma_add_numbers(
                    content,
                    block_size,
                    total,
                    node,
                    0,
                    (depth - 1) as nat,
                    state,
                );
                if let Ok(more) = add_numbers_from(
                    content,
                    block_size,
                    total,
                    node,
                    0,
                    (depth - 1) as nat,
                    state,
                ) {
                    lemma_add_numbers(content, block_size, total, data, at + 4, depth, more);
                }
            }
        } else {
            let range = number_range(block_size, total, number, depth, state.end);
            lemma_add_range(state, range);
            lemma_add_numbers(
                content,
                block_size,
                total,
                data,
                at + 4,
                depth,
                ExtRanges {
                    end: (state.end + range.number_of_blocks) as u64,
                    ranges: add_range(state.ranges, range),
                },
            );
        }
    }
}

/// The ranges of an extents tree are joined.
proof fn lemma_add_extents_from(
    content: Content,
    block_size: u32,
    data: Seq<u8>,
    depth: nat,
    index: int,
    state: ExtRanges,
)
    requires
        ranges_joined(state),
    ensures
        add_extents_from(content, block_size, data, depth, index, state) matches Ok(more)
            ==> ranges_joined(more),
    decreases depth, 1int, u16_le(data, 2) - index,
{
    let at = 12 + 12 * index;
    if index < u16_le(data, 2) && at + 12 <= data.len() {
        if depth == 0 {
            let logical = u32_le(data, at) as u64;
            if logical > state.end {
                let gap = ExtBlockRange {
                    logical_block_number: state.end,
                    physical_block_number: 0,
                    number_of_blocks: (logical - state.end) as u64,
                    is_sparse: true,
                };
                lemma_add_range(state, gap);
            }
            let before = ExtRanges {
                end: if logical > state.end {
                    logical
                } else {
                    state.end
                },
                ranges: if logical > state.end {
                    add_range(
                        state.ranges,
                        ExtBlockRange {
                            logical_block_number: state.end,
                            physical_block_number: 0,
                            number_of_blocks: (logical - state.end) as u64,
                            is_sparse: true,
                        },
                    )
                } else {
                    state.ranges
                },
            };
            assert(ranges_joined(before));
            let stored_count = u16_le(data, at + 4) as u64;
            let physical = (u32_le(data, at + 8) + 0x1_0000_0000 * u16_le(data, at + 6)) as u64;
            let count = if stored_count > 32768 {
                (stored_count - 32768) as u64
            } else {
                stored_count
            };
            lemma_add_range(
                before,
                ExtBlockRange {
                    logical_block_number: logical,
                    physical_block_number: physical,
                    number_of_blocks: count,
                    is_sparse: physical == 0 || stored_count > 32768,
                },
            );
            lemma_add_extents_from(
                content,
                block_size,
                data,
                depth,
                index + 1,
                add_extent(data, at, state),
            );
        } else {
            if let Ok(node) = content.exact(index_block(data, at) * block_size, block_size as nat) {
                lemma_add_extents(content, block_size, node, depth, state);
                if let Ok(more) = add_extents(content, block_size, node, depth, state) {
                    lemma_add_extents_from(content, block_size, data, depth, index + 1, more);
                }
            }
        }
    }
}

proof fn lemma_add_extents(
    content: Content,
    block_size: u32,
    data: Seq<u8>,
    parent_depth: nat,
    state: ExtRanges,
)
    requires
        ranges_joined(state),
    ensures
        add_extents(content, block_size, data, parent_depth, state) matches Ok(more)
            ==> ranges_joined(more),
    decreases parent_depth, 0int, 0int,
{
    let depth = u16_le(data, 6) as nat;
    if depth < parent_depth {
        lemma_add_extents_from(content, block_size, data, depth, 0, state);
    }
}

/// Whether ranges reach a number of blocks, and none starts behind the end of the one before it.
pub open spec fn ranges_reach(ranges: Seq<ExtBlockRange>, total: u64) -> bool {
    &&& ranges.len() == 0 ==> total == 0
    &&& ranges.len() > 0 ==> ranges[0].logical_block_number == 0
    &&& ranges.len() > 0 ==> ranges.last().logical_block_number + ranges.last().number_of_blocks
        >= total
    &&& forall|i: int|
        0 < i < ranges.len() ==> (#[trigger] ranges[i]).logical_block_number <= ranges[i
            - 1].logical_block_number + ranges[i - 1].number_of_blocks
}

proof fn lemma_completed(state: ExtRanges, total: u64)
    requires
        ranges_joined(state),
        total <= EXT_BLOCK_LIMIT,
    ensures
        ranges_reach(completed(state, total), total),
{
    if state.end < total {
        lemma_add_range(
            state,
            ExtBlockRange {
                logical_block_number: state.end,
                physical_block_number: 0,
                number_of_blocks: (total - state.end) as u64,
                is_sparse: true,
            },
        );
    }
}

/// The block ranges of block numbers reach the number of blocks of a file without a gap.
pub proof fn lemma_number_ranges(
    content: Content,
    block_size: u32,
    total: u64,
    reference: Seq<u8>,
)
    requires
        total <= EXT_BLOCK_LIMIT,
        4 <= block_size,
    ensures
        number_ranges(content, block_size, total, reference) matches Ok(ranges) ==> ranges_reach(
            ranges,
            total,
        ),
{
    let none = ExtRanges { end: 0, ranges: Seq::empty() };
    let direct = add_numbers(content, block_size, total, reference.subrange(0, 48), 0, Ok(none));
    let single = add_numbers(content, block_size, total, reference.subrange(48, 52), 1, direct);
    let double = add_numbers(content, block_size, total, reference.subrange(52, 56), 2, single);
    let triple = add_numbers(content, block_size, total, reference.subrange(56, 60), 3, double);
    lemma_add_numbers(content, block_size, total, reference.subrange(0, 48), 0, 0, none);
    if let Ok(state) = direct {
        lemma_add_numbers(content, block_size, total, reference.subrange(48, 52), 0, 1, state);
        if let Ok(state) = single {
            lemma_add_numbers(content, block_size, total, reference.subrange(52, 56), 0, 2, state);
            if let Ok(state) = double {
                lemma_add_numbers(
                    content,
                    block_size,
                    total,
                    reference.subrange(56, 60),
                    0,
                    3,
                    state,
                );
                if let Ok(state) = triple {
                    lemma_completed(state, total);
                }
            }
        }
    }
}

/// The block ranges of an extents tree reach the number of blocks of a file without a gap.
pub proof fn lemma_extent_ranges(
    content: Content,
    block_size: u32,
    total: u64,
    reference: Seq<u8>,
)
    requires
        total <= EXT_BLOCK_LIMIT,
    ensures
        extent_ranges(content, block_size, total, reference) matches Ok(ranges) ==> ranges_reach(
            ranges,
            total,
        ),
{
    let none = ExtRanges { end: 0, ranges: Seq::empty() };
    lemma_add_extents(content, block_size, reference, 6, none);
    if let Ok(state) = add_extents(content, block_size, reference, 6, none) {
        lemma_completed(state, total);
    }
}

/// The extents of block ranges that reach the end of the data end with the data.
pub proof fn lemma_range_extents(
    source: DataSourceReference,
    block_size: u32,
    data_size: u64,
    total: u64,
    ranges: Seq<ExtBlockRange>,
    index: int,
    extents: Seq<FileExtent>,
)
    requires
        ranges_reach(ranges, total),
        data_size <= total * block_size,
        0 <= index <= ranges.len(),
        index == 0 ==> extents.len() == 0,
        index > 0 ==> {
            let last = ranges[index - 1];
            let start = last.logical_block_number * block_size;
            &&& extents.len() > 0
            &&& start < data_size
            &&& extents.last().logical_offset == start
            &&& extents.last().size == (if last.number_of_blocks * block_size < data_size - start {
                last.number_of_blocks * block_size
            } else {
                data_size - start
            })
        },
        range_extents_from(block_size, data_size, ranges, index, extents) is Ok,
        file_size(
            source,
            range_extents_from(block_size, data_size, ranges, index, extents)->Ok_0,
        ) is Ok,
    ensures
        file_size(
            source,
            range_extents_from(block_size, data_size, ranges, index, extents)->Ok_0,
        ) == Ok::<u64, DriverError>(data_size),
    decreases ranges.len() - index,
{
    let b = block_size as int;
    let out = range_extents_from(block_size, data_size, ranges, index, extents)->Ok_0;
    if index < ranges.len() && ranges[index].logical_block_number * block_size < data_size {
        let range = ranges[index];
        let start = range.logical_block_number * block_size;
        let length = range.number_of_blocks * block_size;
        let size = if length < data_size - start {
            length
        } else {
            data_size - start
        };
        let extent = FileExtent {
            logical_offset: start as u64,
            size: size as u64,
            offset: if range.is_sparse {
                None
            } else {
                Some((range.physical_block_number * block_size) as u64)
            },
        };
        assert(0 <= length) by (nonlinear_arith)
            requires
                length == range.number_of_blocks * block_size,
                0 <= range.number_of_blocks,
                0 <= block_size,
        ;
        lemma_range_extents(
            source,
            block_size,
            data_size,
            total,
            ranges,
            index + 1,
            extents.push(extent),
        );
    } else {
        assert(out == extents);
        let entries = extent_entries(source, extents);
        if index == 0 {
            if ranges.len() == 0 {
                assert(total * block_size == 0) by (nonlinear_arith)
                    requires
                        total == 0,
                ;
            }
            assert(data_size == 0) by {
                if ranges.len() > 0 {
                    assert(ranges[0].logical_block_number * block_size == 0) by (nonlinear_arith)
                        requires
                            ranges[0].logical_block_number == 0,
                    ;
                }
            }
        } else {
            let last = ranges[index - 1];
            let end = last.logical_block_number + last.number_of_blocks;
            let start = last.logical_block_number * block_size;
            assert(entries.last().logical_offset == start);
            assert(entries.last().size == extents.last().size);
            if index < ranges.len() {
                let next = ranges[index].logical_block_number;
                assert(next <= end);
                assert(end * b >= next * b) by (nonlinear_arith)
                    requires
                        next <= end,
                        0 <= b,
                ;
            } else {
                assert(end >= total);
                assert(end * b >= total * b) by (nonlinear_arith)
                    requires
                        end >= total,
                        0 <= b,
                ;
            }
            assert(end * b == last.logical_block_number * b + last.number_of_blocks * b)
                by (nonlinear_arith)
                requires
                    end == last.logical_block_number + last.number_of_blocks,
            ;
        }
    }
}

} // verus!
