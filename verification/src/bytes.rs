//! Fixed-size integers stored in byte sequences.

use vstd::prelude::*;

verus! {

/// The 16-bit little-endian integer at `offset`.
pub open spec fn u16_le(data: Seq<u8>, offset: int) -> u16 {
    (data[offset] + 0x100 * data[offset + 1]) as u16
}

/// The 32-bit little-endian integer at `offset`.
pub open spec fn u32_le(data: Seq<u8>, offset: int) -> u32 {
    (u16_le(data, offset) + 0x1_0000 * u16_le(data, offset + 2)) as u32
}

/// The 64-bit little-endian integer at `offset`.
pub open spec fn u64_le(data: Seq<u8>, offset: int) -> u64 {
    (u32_le(data, offset) + 0x1_0000_0000 * u32_le(data, offset + 4)) as u64
}

/// The 16-bit big-endian integer at `offset`.
pub open spec fn u16_be(data: Seq<u8>, offset: int) -> u16 {
    (0x100 * data[offset] + data[offset + 1]) as u16
}

/// The 32-bit big-endian integer at `offset`.
pub open spec fn u32_be(data: Seq<u8>, offset: int) -> u32 {
    (0x1_0000 * u16_be(data, offset) + u16_be(data, offset + 2)) as u32
}

/// The 64-bit big-endian integer at `offset`.
pub open spec fn u64_be(data: Seq<u8>, offset: int) -> u64 {
    (0x1_0000_0000 * u32_be(data, offset) + u32_be(data, offset + 4)) as u64
}

/// Whether a number of bytes at an offset hold a value, the lowest byte first.
pub open spec fn holds_le(data: Seq<u8>, offset: int, size: nat, value: int) -> bool
    decreases size,
{
    if size == 0 {
        value == 0
    } else {
        data[offset] == value % 256 && holds_le(data, offset + 1, (size - 1) as nat, value / 256)
    }
}

/// Whether a number of bytes at an offset hold a value, the highest byte first.
pub open spec fn holds_be(data: Seq<u8>, offset: int, size: nat, value: int) -> bool
    decreases size,
{
    if size == 0 {
        value == 0
    } else {
        &&& data[offset + size - 1] == value % 256
        &&& holds_be(data, offset, (size - 1) as nat, value / 256)
    }
}

/// A little-endian integer is the value that its bytes hold.
pub broadcast proof fn lemma_holds_le(data: Seq<u8>, offset: int, size: nat, value: int)
    requires
        #[trigger] holds_le(data, offset, size, value),
    ensures
        size == 1 ==> data[offset] == value,
        size == 2 ==> u16_le(data, offset) == value,
        size == 4 ==> u32_le(data, offset) == value,
        size == 8 ==> u64_le(data, offset) == value,
{
    reveal_with_fuel(holds_le, 9);
}

/// A big-endian integer is the value that its bytes hold.
pub broadcast proof fn lemma_holds_be(data: Seq<u8>, offset: int, size: nat, value: int)
    requires
        #[trigger] holds_be(data, offset, size, value),
    ensures
        size == 1 ==> data[offset] == value,
        size == 2 ==> u16_be(data, offset) == value,
        size == 4 ==> u32_be(data, offset) == value,
        size == 8 ==> u64_be(data, offset) == value,
{
    reveal_with_fuel(holds_be, 9);
}

/// Every value that fits in the bytes is held by those that little-endian order gives: they tell
/// two values apart.
pub proof fn lemma_holds_le_unique(data: Seq<u8>, offset: int, size: nat, first: int, second: int)
    requires
        holds_le(data, offset, size, first),
        holds_le(data, offset, size, second),
    ensures
        first == second,
    decreases size,
{
    if size > 0 {
        lemma_holds_le_unique(data, offset + 1, (size - 1) as nat, first / 256, second / 256);
    }
}

/// Big-endian bytes are little-endian bytes in the reverse order.
pub proof fn lemma_holds_reversed(data: Seq<u8>, offset: int, size: nat, value: int)
    requires
        0 <= offset,
        offset + size <= data.len(),
    ensures
        holds_be(data, offset, size, value) == holds_le(
            data.subrange(offset, offset + size).reverse(),
            0,
            size,
            value,
        ),
{
    let bytes = data.subrange(offset, offset + size).reverse();
    lemma_reversed_from(data, offset, size, value, bytes, 0);
}

proof fn lemma_reversed_from(
    data: Seq<u8>,
    offset: int,
    size: nat,
    value: int,
    bytes: Seq<u8>,
    at: int,
)
    requires
        forall|k: int| 0 <= k < size ==> #[trigger] bytes[at + k] == data[offset + size - 1 - k],
    ensures
        holds_be(data, offset, size, value) == holds_le(bytes, at, size, value),
    decreases size,
{
    if size > 0 {
        assert(bytes[at + 0] == data[offset + size - 1]);
        let rest = (size - 1) as nat;
        assert forall|k: int| 0 <= k < rest implies #[trigger] bytes[at + 1 + k] == data[offset
            + rest - 1 - k] by {
            assert(bytes[at + (k + 1)] == data[offset + size - 1 - (k + 1)]);
        }
        lemma_reversed_from(data, offset, rest, value / 256, bytes, at + 1);
    }
}

/// The data before the first zero.
pub open spec fn before_zero_byte(data: Seq<u8>) -> Seq<u8>
    decreases data.len(),
{
    if data.len() == 0 || data[0] == 0 {
        Seq::empty()
    } else {
        seq![data[0]] + before_zero_byte(data.skip(1))
    }
}

/// The data before the first zero is the part in which there is no zero.
pub proof fn lemma_before_zero_byte(data: Seq<u8>, count: int)
    requires
        0 <= count <= data.len(),
        forall|i: int| 0 <= i < count ==> data[i] != 0,
        count == data.len() || data[count] == 0,
    ensures
        before_zero_byte(data) == data.take(count),
    decreases data.len(),
{
    if count > 0 {
        lemma_before_zero_byte(data.skip(1), count - 1);
        assert(data.take(count) =~= seq![data[0]] + data.skip(1).take(count - 1));
    } else {
        assert(data.take(0) =~= Seq::<u8>::empty());
    }
}

/// Determines the size of the data before the first zero.
pub fn find_zero_byte(data: &[u8]) -> (count: usize)
    ensures
        count <= data@.len(),
        before_zero_byte(data@) == data@.take(count as int),
{
    let mut count: usize = 0;
    while count < data.len() && data[count] != 0
        invariant
            count <= data@.len(),
            forall|i: int| 0 <= i < count ==> data@[i] != 0,
        decreases data@.len() - count,
    {
        count += 1;
    }
    proof {
        lemma_before_zero_byte(data@, count as int);
    }
    count
}

/// Reads a 16-bit little-endian integer.
pub fn read_u16_le(data: &[u8], offset: usize) -> (value: u16)
    requires
        offset + 2 <= data.len(),
    ensures
        value == u16_le(data@, offset as int),
{
    data[offset] as u16 + 0x100 * (data[offset + 1] as u16)
}

/// Reads a 32-bit little-endian integer.
pub fn read_u32_le(data: &[u8], offset: usize) -> (value: u32)
    requires
        offset + 4 <= data.len(),
    ensures
        value == u32_le(data@, offset as int),
{
    read_u16_le(data, offset) as u32 + 0x1_0000 * (read_u16_le(data, offset + 2) as u32)
}

/// Reads a 64-bit little-endian integer.
pub fn read_u64_le(data: &[u8], offset: usize) -> (value: u64)
    requires
        offset + 8 <= data.len(),
    ensures
        value == u64_le(data@, offset as int),
{
    read_u32_le(data, offset) as u64 + 0x1_0000_0000 * (read_u32_le(data, offset + 4) as u64)
}

/// Reads a 16-bit big-endian integer.
pub fn read_u16_be(data: &[u8], offset: usize) -> (value: u16)
    requires
        offset + 2 <= data.len(),
    ensures
        value == u16_be(data@, offset as int),
{
    0x100 * (data[offset] as u16) + data[offset + 1] as u16
}

/// Reads a 32-bit big-endian integer.
pub fn read_u32_be(data: &[u8], offset: usize) -> (value: u32)
    requires
        offset + 4 <= data.len(),
    ensures
        value == u32_be(data@, offset as int),
{
    0x1_0000 * (read_u16_be(data, offset) as u32) + read_u16_be(data, offset + 2) as u32
}

/// Reads a 64-bit big-endian integer.
pub fn read_u64_be(data: &[u8], offset: usize) -> (value: u64)
    requires
        offset + 8 <= data.len(),
    ensures
        value == u64_be(data@, offset as int),
{
    0x1_0000_0000 * (read_u32_be(data, offset) as u64) + read_u32_be(data, offset + 4) as u64
}

} // verus!
