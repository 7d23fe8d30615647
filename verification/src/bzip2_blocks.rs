//! Blocks of bzip2 compressed data.

use vstd::arithmetic::power2::{lemma2_to64, lemma_pow2_unfold, pow2};
use vstd::prelude::*;

use crate::powers::{lemma_power_below, power_of_two};

verus! {

/// Signature of a block.
pub const BZIP2_BLOCK_SIGNATURE: u64 = 0x3141_5926_5359;

/// Number of selectors that are kept.
pub const BZIP2_SELECTORS: usize = 32769;

/// Size from which on the positions of bits are not kept.
pub const BZIP2_SIZE_LIMIT: u64 = 0x1000_0000_0000_0000;

/// What was read, or why reading ended.
pub enum Bzip2Reading<T> {
    /// A value.
    Done(T),
    /// The data cannot be decompressed.
    Stop,
    /// A value is out of the bounds of its type.
    Fail,
}

/// Whether a bit of the data is set. None is after the end.
pub open spec fn is_bit_set(data: Seq<u8>, position: int) -> bool {
    &&& position / 8 < data.len()
    &&& (data[position / 8] >> ((7 - position % 8) as u8)) & 1 == 1
}

/// The position after a number of bits, but no later than the end.
pub open spec fn skipped(data: Seq<u8>, position: int, count: int) -> int {
    if position + count < 8 * data.len() {
        position + count
    } else {
        8 * data.len() as int
    }
}

/// The value of a number of bits.
pub open spec fn bits_value(data: Seq<u8>, position: int, count: nat) -> nat
    decreases count,
{
    if count == 0 {
        0
    } else {
        2 * bits_value(data, position, (count - 1) as nat) + if is_bit_set(
            data,
            position + count - 1,
        ) {
            1nat
        } else {
            0nat
        }
    }
}

/// The number of bits that are set.
pub open spec fn set_bits(data: Seq<u8>, position: int, count: nat) -> nat
    decreases count,
{
    if count == 0 {
        0
    } else {
        set_bits(data, position, (count - 1) as nat) + if is_bit_set(data, position + count - 1) {
            1nat
        } else {
            0nat
        }
    }
}

/// The number of bytes that are used, of groups of 16 of which bits at `groups` say which are used,
/// and the position after the bits of those groups.
pub open spec fn used_bytes(
    data: Seq<u8>,
    groups: int,
    position: int,
    group: nat,
    count: nat,
) -> (nat, int)
    decreases 16 - group,
{
    if group >= 16 {
        (count, position)
    } else if is_bit_set(data, groups + group) {
        used_bytes(
            data,
            groups,
            skipped(data, position, 16),
            group + 1,
            count + set_bits(data, position, 16),
        )
    } else {
        used_bytes(data, groups, position, group + 1, count)
    }
}

/// The number of bits up to one that is not set, but no more than the limit, and the position after
/// those that were read.
pub open spec fn unary_value(data: Seq<u8>, position: int, limit: nat, count: nat) -> (nat, int)
    decreases limit - count,
{
    if count >= limit {
        (count, position)
    } else if is_bit_set(data, position) {
        unary_value(data, skipped(data, position, 1), limit, count + 1)
    } else {
        (count, skipped(data, position, 1))
    }
}

/// The selectors of trees from the one with an index on, and the position after them. Each is given
/// by its place among the ones used last. Selectors that are not read stay as they are.
pub open spec fn read_selectors(
    data: Seq<u8>,
    position: int,
    trees: nat,
    count: nat,
    recent: Seq<u8>,
    selectors: Seq<u8>,
    index: nat,
) -> Option<(Seq<u8>, int)>
    decreases count - index,
{
    if index >= count {
        Some((selectors, position))
    } else {
        let (place, next) = unary_value(data, position, trees, 0);
        if place >= trees {
            None
        } else {
            let selector = recent[place as int];
            read_selectors(
                data,
                next,
                trees,
                count,
                recent.remove(place as int).insert(0, selector),
                selectors.update(index as int, selector),
                index + 1,
            )
        }
    }
}

/// The code size that follows a code size, and the position after it.
pub open spec fn next_code_size(data: Seq<u8>, position: int, size: int) -> Bzip2Reading<
    (int, int),
>
    decreases 8 * data.len() - position,
{
    if size >= 20 {
        Bzip2Reading::Done((size, position))
    } else if !is_bit_set(data, position) {
        Bzip2Reading::Done((size, skipped(data, position, 1)))
    } else if position >= 8 * data.len() {
        Bzip2Reading::Stop
    } else if !is_bit_set(data, position + 1) {
        next_code_size(data, skipped(data, position, 2), size + 1)
    } else if size == 0 {
        Bzip2Reading::Fail
    } else {
        next_code_size(data, skipped(data, position, 2), size - 1)
    }
}

/// The code sizes of all symbols, and the position after them.
pub open spec fn read_code_sizes(
    data: Seq<u8>,
    position: int,
    size: int,
    symbols: nat,
    sizes: Seq<u8>,
) -> Bzip2Reading<(Seq<u8>, int)>
    decreases symbols - sizes.len(),
{
    if sizes.len() >= symbols {
        Bzip2Reading::Done((sizes, position))
    } else {
        match next_code_size(data, position, size) {
            Bzip2Reading::Stop => Bzip2Reading::Stop,
            Bzip2Reading::Fail => Bzip2Reading::Fail,
            Bzip2Reading::Done((next, after)) => if next >= 20 {
                Bzip2Reading::Stop
            } else {
                read_code_sizes(data, after, next, symbols, sizes.push(next as u8))
            },
        }
    }
}

/// The part of all codes that codes of the given sizes take up.
pub open spec fn code_weight(sizes: Seq<u8>) -> nat
    decreases sizes.len(),
{
    if sizes.len() == 0 {
        0
    } else {
        code_weight(sizes.drop_last()) + pow2((19 - sizes.last()) as nat)
    }
}

/// The code sizes of a tree, which has to have a symbol for every code, and the position after it.
pub open spec fn read_tree(data: Seq<u8>, position: int, symbols: nat) -> Bzip2Reading<
    (Seq<u8>, int),
> {
    match read_code_sizes(
        data,
        skipped(data, position, 5),
        bits_value(data, position, 5) as int,
        symbols,
        Seq::empty(),
    ) {
        Bzip2Reading::Done((sizes, after)) => if code_weight(sizes) > pow2(19) {
            Bzip2Reading::Fail
        } else if code_weight(sizes) < pow2(19) {
            Bzip2Reading::Stop
        } else {
            Bzip2Reading::Done((sizes, after))
        },
        ended => ended,
    }
}

/// The code sizes of all trees, and the position after them.
pub open spec fn read_trees(
    data: Seq<u8>,
    position: int,
    count: nat,
    symbols: nat,
    trees: Seq<Seq<u8>>,
) -> Bzip2Reading<(Seq<Seq<u8>>, int)>
    decreases count - trees.len(),
{
    if trees.len() >= count {
        Bzip2Reading::Done((trees, position))
    } else {
        match read_tree(data, position, symbols) {
            Bzip2Reading::Stop => Bzip2Reading::Stop,
            Bzip2Reading::Fail => Bzip2Reading::Fail,
            Bzip2Reading::Done((sizes, after)) => read_trees(
                data,
                after,
                count,
                symbols,
                trees.push(sizes),
            ),
        }
    }
}

/// The symbols before `end` with codes of a size.
pub open spec fn symbols_of_size(sizes: Seq<u8>, size: int, end: int) -> Seq<int>
    decreases end,
{
    if end <= 0 {
        Seq::empty()
    } else if sizes[end - 1] == size {
        symbols_of_size(sizes, size, end - 1).push(end - 1)
    } else {
        symbols_of_size(sizes, size, end - 1)
    }
}

/// The symbols in the order of their codes, with codes up to a size.
pub open spec fn sorted_symbols(sizes: Seq<u8>, size: int) -> Seq<int>
    decreases size,
{
    if size <= 0 {
        Seq::empty()
    } else {
        sorted_symbols(sizes, size - 1) + symbols_of_size(sizes, size, sizes.len() as int)
    }
}

/// The symbol whose code goes on at a position, and the position after it. The bits before are the
/// start `code` of the code, `first` is the smallest code of the given size, and `index` the number
/// of symbols with shorter codes.
pub open spec fn read_symbol(
    data: Seq<u8>,
    sizes: Seq<u8>,
    position: int,
    size: int,
    code: int,
    first: int,
    index: int,
) -> Option<(int, int)>
    decreases 21 - size,
{
    if size > 20 {
        None
    } else {
        let next = 2 * code + if is_bit_set(data, position) {
            1int
        } else {
            0int
        };
        let count = symbols_of_size(sizes, size, sizes.len() as int).len();
        if next - count < first {
            Some(
                (
                    sorted_symbols(sizes, 20)[index + (next - first)],
                    skipped(data, position, 1),
                ),
            )
        } else {
            read_symbol(
                data,
                sizes,
                skipped(data, position, 1),
                size + 1,
                next,
                2 * (first + count),
                index + count,
            )
        }
    }
}

/// The position after the symbols of a block. At most 63 symbols in a row can give the length of a
/// run.
pub open spec fn symbols_end(
    data: Seq<u8>,
    trees: Seq<Seq<u8>>,
    selectors: Seq<u8>,
    count: nat,
    last: int,
    position: int,
    tree: int,
    run: nat,
    index: nat,
) -> Bzip2Reading<int>
    decreases 50 * (count + 1) - index,
{
    if tree >= trees.len() || index >= 50 * (count + 1) {
        Bzip2Reading::Stop
    } else {
        match read_symbol(data, trees[tree], position, 1, 0, 0, 0) {
            None => Bzip2Reading::Stop,
            Some((symbol, next)) => if run >= 64 && (symbol > 1 || symbol != last) {
                Bzip2Reading::Fail
            } else if symbol == last {
                Bzip2Reading::Done(next)
            } else {
                symbols_end(
                    data,
                    trees,
                    selectors,
                    count,
                    last,
                    next,
                    if (index + 1) % 50 == 0 {
                        selectors[((index + 1) / 50) as int] as int
                    } else {
                        tree
                    },
                    if symbol <= 1 {
                        run + 1
                    } else {
                        0
                    },
                    index + 1,
                )
            },
        }
    }
}

/// The selectors after the block at a position, and the position after it.
pub open spec fn read_block(data: Seq<u8>, position: int, selectors: Seq<u8>) -> Bzip2Reading<
    (Seq<u8>, int),
> {
    let groups = skipped(data, position, 105);
    let (used, after) = used_bytes(data, groups, skipped(data, groups, 16), 0, 0);
    let trees = bits_value(data, after, 3);
    let count = bits_value(data, after + 3, 15);
    if bits_value(data, position, 48) != BZIP2_BLOCK_SIGNATURE {
        Bzip2Reading::Stop
    } else {
        match read_selectors(
            data,
            skipped(data, after, 18),
            trees,
            count,
            seq![0u8, 1, 2, 3, 4, 5, 6],
            selectors,
            0,
        ) {
            None => Bzip2Reading::Stop,
            Some((selectors, start)) => match read_trees(
                data,
                start,
                trees,
                used + 2,
                Seq::empty(),
            ) {
                Bzip2Reading::Stop => Bzip2Reading::Stop,
                Bzip2Reading::Fail => Bzip2Reading::Fail,
                Bzip2Reading::Done((trees, start)) => match symbols_end(
                    data,
                    trees,
                    selectors,
                    count,
                    used as int + 1,
                    start,
                    selectors[0] as int,
                    0,
                    0,
                ) {
                    Bzip2Reading::Stop => Bzip2Reading::Stop,
                    Bzip2Reading::Fail => Bzip2Reading::Fail,
                    Bzip2Reading::Done(end) => Bzip2Reading::Done((selectors, end)),
                },
            },
        }
    }
}

/// Whether no block from the one at a position on holds a value that is out of bounds.
pub open spec fn blocks_sound_from(data: Seq<u8>, position: int, selectors: Seq<u8>) -> bool
    decreases 8 * data.len() - position,
{
    if (position + 7) / 8 >= data.len() {
        true
    } else {
        match read_block(data, position, selectors) {
            Bzip2Reading::Stop => true,
            Bzip2Reading::Fail => false,
            Bzip2Reading::Done((selectors, end)) => position < end <= 8 * data.len()
                && blocks_sound_from(data, end, selectors),
        }
    }
}

/// Whether no block holds a value that is out of bounds. The first one follows a header of four
/// bytes. The positions of all bits have to fit in 64 bits.
pub open spec fn blocks_sound(data: Seq<u8>) -> bool {
    &&& data.len() < BZIP2_SIZE_LIMIT
    &&& blocks_sound_from(data, 32, Seq::new(BZIP2_SELECTORS as nat, |i: int| 0u8))
}

fn check_bit(data: &[u8], position: u64) -> (set: bool)
    ensures
        set == is_bit_set(data@, position as int),
{
    if position / 8 < data.len() as u64 {
        let shift: u8 = 7 - (position % 8) as u8;
        (data[(position / 8) as usize] >> shift) & 1 == 1
    } else {
        false
    }
}

fn skip_bits(data: &[u8], position: u64, count: u64) -> (after: u64)
    requires
        data@.len() < BZIP2_SIZE_LIMIT,
        position <= 8 * data@.len() || count == 0,
    ensures
        after == skipped(data@, position as int, count as int),
        after <= 8 * data@.len(),
{
    let end: u64 = 8 * data.len() as u64;
    if position < end && count < end - position {
        position + count
    } else {
        end
    }
}

fn read_bits(data: &[u8], position: u64, count: u32) -> (value: u64)
    requires
        count <= 48,
        position + count <= u64::MAX,
    ensures
        value == bits_value(data@, position as int, count as nat),
        value < pow2(count as nat),
{
    let mut value: u64 = 0;
    let mut index: u32 = 0;
    proof {
        lemma2_to64();
    }
    while index < count
        invariant
            index <= count <= 48,
            position + count <= u64::MAX,
            value == bits_value(data@, position as int, index as nat),
            value < pow2(index as nat),
        decreases count - index,
    {
        proof {
            lemma2_to64();
            lemma_power_below((index + 1) as nat, 64);
            lemma_pow2_unfold((index + 1) as nat);
        }
        let bit: u64 = if check_bit(data, position + index as u64) {
            1
        } else {
            0
        };
        value = 2 * value + bit;
        index += 1;
    }
    value
}

fn count_set_bits(data: &[u8], position: u64) -> (count: usize)
    requires
        position + 16 <= u64::MAX,
    ensures
        count == set_bits(data@, position as int, 16),
        count <= 16,
{
    let mut count: usize = 0;
    let mut index: u64 = 0;
    while index < 16
        invariant
            index <= 16,
            position + 16 <= u64::MAX,
            count == set_bits(data@, position as int, index as nat),
            count <= index,
        decreases 16 - index,
    {
        if check_bit(data, position + index) {
            count += 1;
        }
        index += 1;
    }
    count
}

fn read_used_bytes(data: &[u8], groups: u64, position: u64) -> (result: (usize, u64))
    requires
        data@.len() < BZIP2_SIZE_LIMIT,
        groups <= 8 * data@.len(),
        position <= 8 * data@.len(),
    ensures
        (result.0 as nat, result.1 as int) == used_bytes(
            data@,
            groups as int,
            position as int,
            0,
            0,
        ),
        result.0 <= 256,
        result.1 <= 8 * data@.len(),
{
    let mut count: usize = 0;
    let mut after: u64 = position;
    let mut group: u64 = 0;
    while group < 16
        invariant
            group <= 16,
            data@.len() < BZIP2_SIZE_LIMIT,
            groups <= 8 * data@.len(),
            after <= 8 * data@.len(),
            count <= 16 * group,
            used_bytes(data@, groups as int, position as int, 0, 0) == used_bytes(
                data@,
                groups as int,
                after as int,
                group as nat,
                count as nat,
            ),
        decreases 16 - group,
    {
        if check_bit(data, groups + group) {
            count += count_set_bits(data, after);
            after = skip_bits(data, after, 16);
        }
        group += 1;
    }
    (count, after)
}

fn read_unary(data: &[u8], position: u64, limit: usize) -> (result: (usize, u64))
    requires
        data@.len() < BZIP2_SIZE_LIMIT,
        position <= 8 * data@.len(),
    ensures
        (result.0 as nat, result.1 as int) == unary_value(
            data@,
            position as int,
            limit as nat,
            0,
        ),
        result.1 <= 8 * data@.len(),
{
    let mut count: usize = 0;
    let mut after: u64 = position;
    while count < limit
        invariant
            count <= limit,
            data@.len() < BZIP2_SIZE_LIMIT,
            after <= 8 * data@.len(),
            unary_value(data@, position as int, limit as nat, 0) == unary_value(
                data@,
                after as int,
                limit as nat,
                count as nat,
            ),
        decreases limit - count,
    {
        let set: bool = check_bit(data, after);
        after = skip_bits(data, after, 1);
        if !set {
            return (count, after);
        }
        count += 1;
    }
    (count, after)
}

fn load_selectors(
    data: &[u8],
    position: u64,
    trees: usize,
    count: usize,
    selectors: &mut Vec<u8>,
) -> (result: Option<u64>)
    requires
        data@.len() < BZIP2_SIZE_LIMIT,
        position <= 8 * data@.len(),
        trees <= 7,
        count < old(selectors)@.len(),
    ensures
        match result {
            Some(after) => {
                &&& read_selectors(
                    data@,
                    position as int,
                    trees as nat,
                    count as nat,
                    seq![0u8, 1, 2, 3, 4, 5, 6],
                    old(selectors)@,
                    0,
                ) == Some((final(selectors)@, after as int))
                &&& after <= 8 * data@.len()
                &&& final(selectors)@.len() == old(selectors)@.len()
            },
            None => read_selectors(
                data@,
                position as int,
                trees as nat,
                count as nat,
                seq![0u8, 1, 2, 3, 4, 5, 6],
                old(selectors)@,
                0,
            ) is None,
        },
{
    let mut recent: Vec<u8> = vec![0, 1, 2, 3, 4, 5, 6];
    let mut after: u64 = position;
    let mut index: usize = 0;
    assert(recent@ =~= seq![0u8, 1, 2, 3, 4, 5, 6]);
    while index < count
        invariant
            index <= count,
            count < selectors@.len(),
            selectors@.len() == old(selectors)@.len(),
            data@.len() < BZIP2_SIZE_LIMIT,
            after <= 8 * data@.len(),
            trees <= 7,
            recent@.len() == 7,
            read_selectors(
                data@,
                position as int,
                trees as nat,
                count as nat,
                seq![0u8, 1, 2, 3, 4, 5, 6],
                old(selectors)@,
                0,
            ) == read_selectors(
                data@,
                after as int,
                trees as nat,
                count as nat,
                recent@,
                selectors@,
                index as nat,
            ),
        decreases count - index,
    {
        let (place, next) = read_unary(data, after, trees);
        if place >= trees {
            return None;
        }
        let selector: u8 = recent.remove(place);
        recent.insert(0, selector);
        selectors.set(index, selector);
        after = next;
        index += 1;
    }
    Some(after)
}

/// The outcome of reading a code size.
enum CodeSize {
    Done(u64, u64),
    Fail,
}

fn read_code_size(data: &[u8], position: u64, size: u64) -> (result: CodeSize)
    requires
        data@.len() < BZIP2_SIZE_LIMIT,
        position <= 8 * data@.len(),
        size <= 31,
    ensures
        match result {
            CodeSize::Done(next, after) => {
                &&& next_code_size(data@, position as int, size as int) == Bzip2Reading::Done(
                    (next as int, after as int),
                )
                &&& after <= 8 * data@.len()
                &&& next <= 31
            },
            CodeSize::Fail => next_code_size(data@, position as int, size as int) is Fail,
        },
{
    let mut after: u64 = position;
    let mut next: u64 = size;
    while next < 20
        invariant
            data@.len() < BZIP2_SIZE_LIMIT,
            after <= 8 * data@.len(),
            next <= 31,
            next_code_size(data@, position as int, size as int) == next_code_size(
                data@,
                after as int,
                next as int,
            ),
        decreases 8 * data@.len() - after,
    {
        if !check_bit(data, after) {
            return CodeSize::Done(next, skip_bits(data, after, 1));
        }
        if !check_bit(data, after + 1) {
            next += 1;
        } else if next == 0 {
            return CodeSize::Fail;
        } else {
            next -= 1;
        }
        after = skip_bits(data, after, 2);
    }
    CodeSize::Done(next, after)
}

/// A tree: the number of symbols with codes of each size, and the symbols in the order of their
/// codes.
struct CodeTree {
    counts: Vec<usize>,
    symbols: Vec<usize>,
    sizes: Ghost<Seq<u8>>,
}

impl CodeTree {
    spec fn is_sound(self) -> bool {
        &&& self.counts@.len() == 21
        &&& forall|size: int|
            1 <= size <= 20 ==> #[trigger] self.counts@[size] == symbols_of_size(
                self.sizes@,
                size,
                self.sizes@.len() as int,
            ).len()
        &&& self.symbols@.len() == sorted_symbols(self.sizes@, 20).len()
        &&& forall|i: int|
            0 <= i < self.symbols@.len() ==> #[trigger] self.symbols@[i] == sorted_symbols(
                self.sizes@,
                20,
            )[i]
    }

    fn new(sizes: &Vec<u8>) -> (tree: Self)
        requires
            sizes@.len() <= 258,
        ensures
            tree.is_sound(),
            tree.sizes@ == sizes@,
    {
        let mut counts: Vec<usize> = vec![0];
        let mut symbols: Vec<usize> = Vec::new();
        let mut size: u8 = 1;
        while size <= 20
            invariant
                1 <= size <= 21,
                counts@.len() == size,
                sizes@.len() <= 258,
                symbols@.len() <= 258 * (size - 1),
                forall|other: int|
                    1 <= other < size ==> #[trigger] counts@[other] == symbols_of_size(
                        sizes@,
                        other,
                        sizes@.len() as int,
                    ).len(),
                symbols@.len() == sorted_symbols(sizes@, size - 1).len(),
                forall|i: int|
                    0 <= i < symbols@.len() ==> #[trigger] symbols@[i] == sorted_symbols(
                        sizes@,
                        size - 1,
                    )[i],
            decreases 21 - size,
        {
            let before: usize = symbols.len();
            let ghost sorted = sorted_symbols(sizes@, size - 1);
            let mut index: usize = 0;
            assert(sorted + symbols_of_size(sizes@, size as int, 0) =~= sorted);
            while index < sizes.len()
                invariant
                    index <= sizes@.len(),
                    sizes@.len() <= 258,
                    before == sorted.len(),
                    symbols@.len() == before + symbols_of_size(
                        sizes@,
                        size as int,
                        index as int,
                    ).len(),
                    symbols@.len() <= before + index,
                    forall|i: int|
                        0 <= i < symbols@.len() ==> #[trigger] symbols@[i] == (sorted
                            + symbols_of_size(sizes@, size as int, index as int))[i],
                decreases sizes@.len() - index,
            {
                if sizes[index] == size {
                    symbols.push(index);
                }
                index += 1;
            }
            counts.push(symbols.len() - before);
            size += 1;
        }
        CodeTree { counts, symbols, sizes: Ghost(sizes@) }
    }

    fn read(&self, data: &[u8], position: u64) -> (result: Option<(usize, u64)>)
        requires
            self.is_sound(),
            data@.len() < BZIP2_SIZE_LIMIT,
            position <= 8 * data@.len(),
        ensures
            match result {
                Some((symbol, after)) => {
                    &&& read_symbol(data@, self.sizes@, position as int, 1, 0, 0, 0) == Some(
                        (symbol as int, after as int),
                    )
                    &&& after <= 8 * data@.len()
                },
                None => read_symbol(data@, self.sizes@, position as int, 1, 0, 0, 0) is None,
            },
    {
        let total: usize = self.symbols.len();
        let mut after: u64 = position;
        let mut code: u64 = 0;
        let mut first: u64 = 0;
        let mut index: usize = 0;
        let mut size: usize = 1;
        proof {
            lemma2_to64();
        }
        while size <= 20
            invariant
                1 <= size <= 21,
                self.is_sound(),
                total == self.symbols@.len(),
                data@.len() < BZIP2_SIZE_LIMIT,
                after <= 8 * data@.len(),
                first <= 2 * code,
                code < pow2((size - 1) as nat),
                index == sorted_symbols(self.sizes@, size - 1).len(),
                read_symbol(data@, self.sizes@, position as int, 1, 0, 0, 0) == read_symbol(
                    data@,
                    self.sizes@,
                    after as int,
                    size as int,
                    code as int,
                    first as int,
                    index as int,
                ),
            decreases 21 - size,
        {
            proof {
                lemma2_to64();
                lemma_power_below((size - 1) as nat, 21);
                lemma_pow2_unfold(size as nat);
                lemma_sorted_symbols(self.sizes@, size as int, 20);
                assert(sorted_symbols(self.sizes@, size as int).len() == index + symbols_of_size(
                    self.sizes@,
                    size as int,
                    self.sizes@.len() as int,
                ).len());
                assert(self.counts@[size as int] <= total - index);
            }
            let bit: u64 = if check_bit(data, after) {
                1
            } else {
                0
            };
            code = 2 * code + bit;
            after = skip_bits(data, after, 1);
            let count: usize = self.counts[size];
            if code - first < count as u64 {
                let place: usize = index + (code - first) as usize;
                return Some((self.symbols[place], after));
            }
            first = 2 * (first + count as u64);
            index = index + count;
            size += 1;
        }
        None
    }
}

/// More symbols have codes up to a larger size.
proof fn lemma_sorted_symbols(sizes: Seq<u8>, size: int, larger: int)
    requires
        0 <= size <= larger,
    ensures
        sorted_symbols(sizes, size).len() <= sorted_symbols(sizes, larger).len(),
    decreases larger - size,
{
    if size < larger {
        lemma_sorted_symbols(sizes, size, larger - 1);
    }
}

/// Reads a tree with a number of symbols.
fn load_tree(data: &[u8], position: u64, symbols: usize) -> (result: Bzip2Reading<(CodeTree, u64)>)
    requires
        data@.len() < BZIP2_SIZE_LIMIT,
        position <= 8 * data@.len(),
        symbols <= 258,
    ensures
        match result {
            Bzip2Reading::Done((tree, after)) => {
                &&& read_tree(data@, position as int, symbols as nat) == Bzip2Reading::Done(
                    (tree.sizes@, after as int),
                )
                &&& tree.is_sound()
                &&& after <= 8 * data@.len()
            },
            Bzip2Reading::Stop => read_tree(data@, position as int, symbols as nat) is Stop,
            Bzip2Reading::Fail => read_tree(data@, position as int, symbols as nat) is Fail,
        },
{
    let mut size: u64 = read_bits(data, position, 5);
    let mut after: u64 = skip_bits(data, position, 5);
    let mut sizes: Vec<u8> = Vec::new();
    let mut weight: u64 = 0;
    let ghost start = after as int;
    let ghost first = size as int;
    proof {
        lemma2_to64();
        assert(sizes@ =~= Seq::<u8>::empty());
    }
    while sizes.len() < symbols
        invariant
            data@.len() < BZIP2_SIZE_LIMIT,
            after <= 8 * data@.len(),
            start == skipped(data@, position as int, 5),
            first == bits_value(data@, position as int, 5),
            size <= 31,
            symbols <= 258,
            sizes@.len() <= symbols,
            weight == code_weight(sizes@),
            weight <= sizes@.len() * 0x10_0000,
            read_code_sizes(data@, start, first, symbols as nat, Seq::empty()) == read_code_sizes(
                data@,
                after as int,
                size as int,
                symbols as nat,
                sizes@,
            ),
        decreases symbols - sizes@.len(),
    {
        match read_code_size(data, after, size) {
            CodeSize::Fail => return Bzip2Reading::Fail,
            CodeSize::Done(next, end) => {
                if next >= 20 {
                    return Bzip2Reading::Stop;
                }
                let ghost before = sizes@;
                size = next;
                after = end;
                sizes.push(size as u8);
                proof {
                    lemma2_to64();
                    lemma_power_below((19 - size) as nat, 20);
                    assert(sizes@.drop_last() =~= before);
                }
                weight = weight + power_of_two((19 - size) as u32);
            },
        }
    }
    let all: u64 = power_of_two(19);
    if weight > all {
        return Bzip2Reading::Fail;
    }
    if weight < all {
        return Bzip2Reading::Stop;
    }
    Bzip2Reading::Done((CodeTree::new(&sizes), after))
}

spec fn tree_sizes(trees: Seq<CodeTree>) -> Seq<Seq<u8>> {
    Seq::new(trees.len(), |i: int| trees[i].sizes@)
}

/// Reads trees with a number of symbols.
fn load_trees(data: &[u8], position: u64, count: usize, symbols: usize) -> (result: Bzip2Reading<
    (Vec<CodeTree>, u64),
>)
    requires
        data@.len() < BZIP2_SIZE_LIMIT,
        position <= 8 * data@.len(),
        symbols <= 258,
    ensures
        match result {
            Bzip2Reading::Done((trees, after)) => {
                &&& read_trees(
                    data@,
                    position as int,
                    count as nat,
                    symbols as nat,
                    Seq::empty(),
                ) == Bzip2Reading::Done((tree_sizes(trees@), after as int))
                &&& forall|i: int| 0 <= i < trees@.len() ==> (#[trigger] trees@[i]).is_sound()
                &&& after <= 8 * data@.len()
            },
            Bzip2Reading::Stop => read_trees(
                data@,
                position as int,
                count as nat,
                symbols as nat,
                Seq::empty(),
            ) is Stop,
            Bzip2Reading::Fail => read_trees(
                data@,
                position as int,
                count as nat,
                symbols as nat,
                Seq::empty(),
            ) is Fail,
        },
{
    let mut trees: Vec<CodeTree> = Vec::new();
    let mut after: u64 = position;
    assert(tree_sizes(trees@) =~= Seq::<Seq<u8>>::empty());
    while trees.len() < count
        invariant
            data@.len() < BZIP2_SIZE_LIMIT,
            after <= 8 * data@.len(),
            symbols <= 258,
            trees@.len() <= count,
            forall|i: int| 0 <= i < trees@.len() ==> (#[trigger] trees@[i]).is_sound(),
            read_trees(data@, position as int, count as nat, symbols as nat, Seq::empty())
                == read_trees(
                data@,
                after as int,
                count as nat,
                symbols as nat,
                tree_sizes(trees@),
            ),
        decreases count - trees@.len(),
    {
        match load_tree(data, after, symbols) {
            Bzip2Reading::Stop => return Bzip2Reading::Stop,
            Bzip2Reading::Fail => return Bzip2Reading::Fail,
            Bzip2Reading::Done((tree, end)) => {
                let ghost before = tree_sizes(trees@);
                let ghost sizes = tree.sizes@;
                trees.push(tree);
                after = end;
                assert(tree_sizes(trees@) =~= before.push(sizes));
            },
        }
    }
    Bzip2Reading::Done((trees, after))
}

/// Reads the symbols of a block.
fn skip_symbols(
    data: &[u8],
    position: u64,
    trees: &Vec<CodeTree>,
    selectors: &Vec<u8>,
    count: usize,
    last: usize,
) -> (result: Bzip2Reading<u64>)
    requires
        data@.len() < BZIP2_SIZE_LIMIT,
        position <= 8 * data@.len(),
        count < selectors@.len() <= BZIP2_SELECTORS,
        forall|i: int| 0 <= i < trees@.len() ==> (#[trigger] trees@[i]).is_sound(),
    ensures
        match result {
            Bzip2Reading::Done(after) => {
                &&& symbols_end(
                    data@,
                    tree_sizes(trees@),
                    selectors@,
                    count as nat,
                    last as int,
                    position as int,
                    selectors@[0] as int,
                    0,
                    0,
                ) == Bzip2Reading::Done(after as int)
                &&& after <= 8 * data@.len()
            },
            Bzip2Reading::Stop => symbols_end(
                data@,
                tree_sizes(trees@),
                selectors@,
                count as nat,
                last as int,
                position as int,
                selectors@[0] as int,
                0,
                0,
            ) is Stop,
            Bzip2Reading::Fail => symbols_end(
                data@,
                tree_sizes(trees@),
                selectors@,
                count as nat,
                last as int,
                position as int,
                selectors@[0] as int,
                0,
                0,
            ) is Fail,
        },
{
    let end: usize = 50 * (count + 1);
    let mut after: u64 = position;
    let mut tree: usize = selectors[0] as usize;
    let mut run: usize = 0;
    let mut index: usize = 0;
    while index < end
        invariant
            data@.len() < BZIP2_SIZE_LIMIT,
            after <= 8 * data@.len(),
            count < selectors@.len() <= BZIP2_SELECTORS,
            forall|i: int| 0 <= i < trees@.len() ==> (#[trigger] trees@[i]).is_sound(),
            end == 50 * (count + 1),
            index <= end,
            run <= index,
            symbols_end(
                data@,
                tree_sizes(trees@),
                selectors@,
                count as nat,
                last as int,
                position as int,
                selectors@[0] as int,
                0,
                0,
            ) == symbols_end(
                data@,
                tree_sizes(trees@),
                selectors@,
                count as nat,
                last as int,
                after as int,
                tree as int,
                run as nat,
                index as nat,
            ),
        decreases end - index,
    {
        if tree >= trees.len() {
            return Bzip2Reading::Stop;
        }
        assert(tree_sizes(trees@)[tree as int] == trees@[tree as int].sizes@);
        match trees[tree].read(data, after) {
            None => return Bzip2Reading::Stop,
            Some((symbol, next)) => {
                if run >= 64 && (symbol > 1 || symbol != last) {
                    return Bzip2Reading::Fail;
                }
                if symbol == last {
                    return Bzip2Reading::Done(next);
                }
                run = if symbol <= 1 {
                    run + 1
                } else {
                    0
                };
                after = next;
                index += 1;
                if index == end {
                    assert(symbols_end(
                        data@,
                        tree_sizes(trees@),
                        selectors@,
                        count as nat,
                        last as int,
                        after as int,
                        selectors@[index as int / 50] as int,
                        run as nat,
                        index as nat,
                    ) is Stop);
                    return Bzip2Reading::Stop;
                }
                if index % 50 == 0 {
                    tree = selectors[index / 50] as usize;
                }
            },
        }
    }
    Bzip2Reading::Stop
}

/// Reads a block.
fn skip_block(data: &[u8], position: u64, selectors: &mut Vec<u8>) -> (result: Bzip2Reading<u64>)
    requires
        data@.len() < BZIP2_SIZE_LIMIT,
        position <= 8 * data@.len(),
        old(selectors)@.len() == BZIP2_SELECTORS,
    ensures
        match result {
            Bzip2Reading::Done(after) => {
                &&& read_block(data@, position as int, old(selectors)@) == Bzip2Reading::Done(
                    (final(selectors)@, after as int),
                )
                &&& after <= 8 * data@.len()
                &&& final(selectors)@.len() == BZIP2_SELECTORS
            },
            Bzip2Reading::Stop => read_block(data@, position as int, old(selectors)@) is Stop,
            Bzip2Reading::Fail => read_block(data@, position as int, old(selectors)@) is Fail,
        },
{
    if read_bits(data, position, 48) != BZIP2_BLOCK_SIGNATURE {
        return Bzip2Reading::Stop;
    }
    let groups: u64 = skip_bits(data, position, 105);
    let (used, after) = read_used_bytes(data, groups, skip_bits(data, groups, 16));
    let trees: u64 = read_bits(data, after, 3);
    let count: u64 = read_bits(data, after + 3, 15);
    proof {
        lemma2_to64();
    }
    let start: u64 = match load_selectors(
        data,
        skip_bits(data, after, 18),
        trees as usize,
        count as usize,
        selectors,
    ) {
        None => return Bzip2Reading::Stop,
        Some(start) => start,
    };
    match load_trees(data, start, trees as usize, used + 2) {
        Bzip2Reading::Stop => Bzip2Reading::Stop,
        Bzip2Reading::Fail => Bzip2Reading::Fail,
        Bzip2Reading::Done((trees, start)) => skip_symbols(
            data,
            start,
            &trees,
            selectors,
            count as usize,
            used + 1,
        ),
    }
}

/// Determines whether no block holds a value that is out of bounds.
pub fn check_blocks(data: &[u8]) -> (sound: bool)
    ensures
        sound == blocks_sound(data@),
{
    if data.len() as u64 >= BZIP2_SIZE_LIMIT {
        return false;
    }
    let length: u64 = data.len() as u64;
    let mut selectors: Vec<u8> = vec![0; BZIP2_SELECTORS];
    let mut position: u64 = 32;
    proof {
        assert(selectors@ =~= Seq::new(BZIP2_SELECTORS as nat, |i: int| 0u8));
    }
    while (position + 7) / 8 < length
        invariant
            length == data@.len(),
            length < BZIP2_SIZE_LIMIT,
            position <= 8 * length || position == 32,
            selectors@.len() == BZIP2_SELECTORS,
            blocks_sound(data@) == blocks_sound_from(data@, position as int, selectors@),
        decreases 8 * length - position,
    {
        match skip_block(data, position, &mut selectors) {
            Bzip2Reading::Stop => return true,
            Bzip2Reading::Fail => return false,
            Bzip2Reading::Done(end) => {
                if end <= position {
                    return false;
                }
                position = end;
            },
        }
    }
    true
}

} // verus!
