//! Blocks of LZFSE compressed data.

use vstd::prelude::*;

use crate::bytes::{read_u16_le, read_u32_le, read_u64_le, u16_le, u32_le, u64_le};

verus! {

/// Marker of an uncompressed block.
pub const LZFSE_UNCOMPRESSED_MARKER: u32 = 0x2d787662;

/// Marker of a compressed block of which the frequencies are stored as they are.
pub const LZFSE_COMPRESSED_V1_MARKER: u32 = 0x31787662;

/// Marker of a compressed block of which the frequencies are encoded.
pub const LZFSE_COMPRESSED_V2_MARKER: u32 = 0x32787662;

/// Marker of a LZVN compressed block.
pub const LZFSE_LZVN_MARKER: u32 = 0x6e787662;

/// Largest frequency that can be added to the number of states in 16 bits.
pub const LZFSE_LARGEST_FREQUENCY: u16 = 31743;

/// Whether a bit of the data between `start` and `end` is set. There is none after the end.
pub open spec fn is_bit_set(data: Seq<u8>, start: int, end: int, position: int) -> bool {
    &&& start + position / 8 < end
    &&& (data[start + position / 8] >> ((position % 8) as u8)) & 1 == 1
}

/// The number of bits of the encoded frequency at a position, of which the first bits tell.
pub open spec fn frequency_bits(data: Seq<u8>, start: int, end: int, position: int) -> int {
    if !is_bit_set(data, start, end, position) {
        2
    } else if !is_bit_set(data, start, end, position + 1) {
        3
    } else if !is_bit_set(data, start, end, position + 2) {
        5
    } else if !is_bit_set(data, start, end, position + 3) {
        8
    } else {
        14
    }
}

/// The position of the last one of `count` encoded frequencies that start at a position, if all of
/// them end before the data does.
pub open spec fn last_frequency(
    data: Seq<u8>,
    start: int,
    end: int,
    position: int,
    count: nat,
) -> Option<int>
    decreases count,
{
    let next = position + frequency_bits(data, start, end, position);
    if next > 8 * (end - start) {
        None
    } else if count <= 1 {
        Some(position)
    } else {
        last_frequency(data, start, end, next, (count - 1) as nat)
    }
}

/// Whether no frequency of a block whose frequencies are stored as they are is too large. They are
/// always looked for at the same place.
pub open spec fn has_small_frequencies(data: Seq<u8>) -> bool {
    forall|i: int|
        0 <= i < 360 ==> #[trigger] u16_le(data, 42 + 2 * i) <= LZFSE_LARGEST_FREQUENCY
}

/// The size of the literals of a block whose frequencies are encoded.
pub open spec fn encoded_literals_size(data: Seq<u8>, offset: int) -> int {
    (u64_le(data, offset + 8) / 0x10_0000) as int % 0x10_0000
}

/// The size of the values of a block whose frequencies are encoded.
pub open spec fn encoded_values_size(data: Seq<u8>, offset: int) -> int {
    (u64_le(data, offset + 16) / 0x100_0000_0000) as int % 0x10_0000
}

/// Where the frequencies of a block that are encoded end, if they do. Up to four bytes from the
/// last one on are taken for it.
pub open spec fn encoded_frequencies_end(data: Seq<u8>, offset: int) -> Option<int> {
    let start = offset + 32;
    let end = offset + u32_le(data, offset + 24);
    if end == start {
        Some(start)
    } else {
        match last_frequency(data, start, end, 0, 360) {
            None => None,
            Some(position) => Some(
                if start + position / 8 + 4 < end {
                    start + position / 8 + 4
                } else {
                    end
                },
            ),
        }
    }
}

/// Where a block leads to.
pub enum LzfseStep {
    /// Nowhere: the data ends, or cannot be decompressed.
    Stop,
    /// To a block at an offset.
    Next(int),
    /// To a value that is out of bounds, or back.
    Fail,
}

/// Where the data goes on that follows a block, if it is large enough.
pub open spec fn step_to(data: Seq<u8>, next: int) -> LzfseStep {
    if next > data.len() {
        LzfseStep::Stop
    } else {
        LzfseStep::Next(next)
    }
}

/// Where the block at an offset leads to.
pub open spec fn block_step(data: Seq<u8>, offset: int) -> LzfseStep {
    let marker = u32_le(data, offset);
    if offset + 8 > data.len() {
        LzfseStep::Stop
    } else if marker == LZFSE_UNCOMPRESSED_MARKER {
        step_to(data, offset + 8 + u32_le(data, offset + 4))
    } else if marker == LZFSE_LZVN_MARKER {
        if offset + 12 > data.len() {
            LzfseStep::Stop
        } else {
            step_to(data, offset + 12 + u32_le(data, offset + 8))
        }
    } else if marker == LZFSE_COMPRESSED_V1_MARKER {
        let next = 762 + u32_le(data, offset + 20) + u32_le(data, offset + 24);
        if offset + 770 > data.len() {
            LzfseStep::Stop
        } else if next <= offset || !has_small_frequencies(data) {
            LzfseStep::Fail
        } else {
            step_to(data, next)
        }
    } else if marker == LZFSE_COMPRESSED_V2_MARKER {
        let header_size = u32_le(data, offset + 24);
        if offset + 32 > data.len() || header_size < 32 || header_size > 720 || offset + 8
            + header_size > data.len() {
            LzfseStep::Stop
        } else {
            match encoded_frequencies_end(data, offset) {
                None => LzfseStep::Fail,
                Some(end) => step_to(
                    data,
                    end + encoded_literals_size(data, offset) + encoded_values_size(data, offset),
                ),
            }
        }
    } else {
        LzfseStep::Stop
    }
}

/// The offset of the first block, from the one at an offset on, that holds a value that is out of
/// bounds or leads back, or the end of the data if there is none.
pub open spec fn sound_end(data: Seq<u8>, offset: int) -> int
    decreases data.len() - offset,
{
    match block_step(data, offset) {
        LzfseStep::Stop => data.len() as int,
        LzfseStep::Fail => offset,
        LzfseStep::Next(next) => if offset < next <= data.len() {
            sound_end(data, next)
        } else {
            offset
        },
    }
}

/// Whether no block holds a value that is out of bounds or leads back.
pub open spec fn blocks_sound(data: Seq<u8>) -> bool {
    sound_end(data, 0) == data.len()
}

fn check_bit(data: &[u8], start: usize, end: usize, position: usize) -> (set: bool)
    requires
        start <= end <= data@.len(),
    ensures
        set == is_bit_set(data@, start as int, end as int, position as int),
{
    let shift: u8 = (position % 8) as u8;
    position / 8 < end - start && (data[start + position / 8] >> shift) & 1 == 1
}

fn find_last_frequency(data: &[u8], start: usize, end: usize) -> (position: Option<usize>)
    requires
        start < end <= data@.len(),
        end - start <= 1000,
    ensures
        match position {
            Some(position) => {
                &&& last_frequency(data@, start as int, end as int, 0, 360) == Some(position as int)
                &&& position <= 8 * (end - start)
            },
            None => last_frequency(data@, start as int, end as int, 0, 360) is None,
        },
{
    let available: usize = 8 * (end - start);
    let mut position: usize = 0;
    let mut count: usize = 360;
    loop
        invariant
            start < end <= data@.len(),
            end - start <= 1000,
                available == 8 * (end - start),
            position <= available,
            1 <= count <= 360,
            last_frequency(data@, start as int, end as int, 0, 360) == last_frequency(
                data@,
                start as int,
                end as int,
                position as int,
                count as nat,
            ),
        decreases count,
    {
        let bits: usize = if !check_bit(data, start, end, position) {
            2
        } else if !check_bit(data, start, end, position + 1) {
            3
        } else if !check_bit(data, start, end, position + 2) {
            5
        } else if !check_bit(data, start, end, position + 3) {
            8
        } else {
            14
        };
        if position + bits > available {
            return None;
        }
        if count == 1 {
            return Some(position);
        }
        position += bits;
        count -= 1;
    }
}

fn check_frequencies(data: &[u8]) -> (small: bool)
    requires
        770 <= data@.len(),
    ensures
        small == has_small_frequencies(data@),
{
    let mut index: usize = 0;
    while index < 360
        invariant
            index <= 360,
            770 <= data@.len(),
            forall|i: int|
                0 <= i < index ==> #[trigger] u16_le(data@, 42 + 2 * i) <= LZFSE_LARGEST_FREQUENCY,
        decreases 360 - index,
    {
        if read_u16_le(data, 42 + 2 * index) > LZFSE_LARGEST_FREQUENCY {
            assert(u16_le(data@, 42 + 2 * index as int) > LZFSE_LARGEST_FREQUENCY);
            return false;
        }
        index += 1;
    }
    true
}

/// Determines the offset of the first block that holds a value that is out of bounds or leads back.
pub fn find_sound_end(data: &[u8]) -> (end: usize)
    ensures
        end == sound_end(data@, 0),
        end <= data@.len(),
{
    let length: usize = data.len();
    let mut offset: usize = 0;
    while length - offset >= 8
        invariant
            length == data@.len(),
            offset <= length,
            sound_end(data@, 0) == sound_end(data@, offset as int),
        decreases length - offset,
    {
        let marker: u32 = read_u32_le(data, offset);
        let available: u64 = (length - offset) as u64;
        let size: u64;
        if marker == LZFSE_UNCOMPRESSED_MARKER {
            size = 8 + read_u32_le(data, offset + 4) as u64;
        } else if marker == LZFSE_LZVN_MARKER {
            if available < 12 {
                return length;
            }
            size = 12 + read_u32_le(data, offset + 8) as u64;
        } else if marker == LZFSE_COMPRESSED_V1_MARKER {
            if available < 770 {
                return length;
            }
            let next: u64 = 762 + read_u32_le(data, offset + 20) as u64 + read_u32_le(
                data,
                offset + 24,
            ) as u64;
            if next <= offset as u64 || !check_frequencies(data) {
                return offset;
            }
            size = next - offset as u64;
        } else if marker == LZFSE_COMPRESSED_V2_MARKER {
            if available < 32 {
                return length;
            }
            let header_size: u32 = read_u32_le(data, offset + 24);
            if header_size < 32 || header_size > 720 || available < 8 + header_size as u64 {
                return length;
            }
            let start: usize = offset + 32;
            let end: usize = offset + header_size as usize;
            let frequencies_end: usize = if end == start {
                start
            } else {
                match find_last_frequency(data, start, end) {
                    None => return offset,
                    Some(position) => if position / 8 + 4 < end - start {
                        start + position / 8 + 4
                    } else {
                        end
                    },
                }
            };
            let literals_size: u64 = read_u64_le(data, offset + 8) / 0x10_0000 % 0x10_0000;
            let values_size: u64 = read_u64_le(data, offset + 16) / 0x100_0000_0000 % 0x10_0000;
            size = (frequencies_end - offset) as u64 + literals_size + values_size;
        } else {
            return length;
        }
        if size > available {
            return length;
        }
        offset += size as usize;
    }
    length
}

} // verus!
