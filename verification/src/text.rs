//! Text decoding.

use vstd::prelude::*;
use vstd::utf8::{decode_utf8, encode_utf8, valid_utf8};

use crate::bytes::{
    before_zero_byte, find_zero_byte, holds_be, holds_le, read_u16_be, read_u16_le, u16_be, u16_le,
};

verus! {

/// The text that is made of the valid parts of UTF-8 data, with a replacement character for each
/// part that is not valid.
pub uninterp spec fn lossy_utf8_text(data: Seq<u8>) -> Seq<char>;

/// Appends a character with `String::push`.
pub assume_specification[ String::push ](text: &mut String, c: char)
    ensures
        final(text)@ == old(text)@.push(c),
;

/// Converts a number with `char::from_u32`: it is the code point of a character unless it is a
/// surrogate or above the highest code point.
pub assume_specification[ char::from_u32 ](value: u32) -> (c: Option<char>)
    ensures
        c == code_point_char(value),
;

/// Decodes UTF-8 with `String::from_utf8`: the text results exactly where the data is valid UTF-8.
#[verifier::external_body]
pub(crate) fn utf8_text(data: Vec<u8>) -> (text: Option<String>)
    ensures
        match text {
            Some(text) => valid_utf8(data@) && text@ == decode_utf8(data@),
            None => !valid_utf8(data@),
        },
{
    String::from_utf8(data).ok()
}

/// The text that is encoded in data, or what is made of data that is not valid UTF-8.
pub open spec fn stored_utf8_text(data: Seq<u8>) -> Seq<char> {
    if valid_utf8(data) {
        decode_utf8(data)
    } else {
        lossy_utf8_text(data)
    }
}

/// Decodes UTF-8 with `String::from_utf8_lossy`. The text depends on the data alone, and is the one
/// that is encoded where the data is valid UTF-8.
#[verifier::external_body]
pub(crate) fn utf8_text_lossy(data: &[u8]) -> (text: String)
    ensures
        valid_utf8(data@) ==> text@ == decode_utf8(data@),
        !valid_utf8(data@) ==> text@ == lossy_utf8_text(data@),
{
    String::from_utf8_lossy(data).into_owned()
}

/// What `str::to_lowercase` makes of a text.
pub uninterp spec fn lowercase_of(text: Seq<char>) -> Seq<char>;

/// Converts a text to lower case with `str::to_lowercase`, which follows the Unicode properties of
/// the characters. The result depends on the text alone.
#[verifier::external_body]
pub(crate) fn to_lowercase(text: &str) -> (lower: String)
    ensures
        lower@ == lowercase_of(text@),
{
    text.to_lowercase()
}

/// The text in a part of data, up to the first zero.
pub open spec fn stored_text(data: Seq<u8>, start: int, end: int) -> Seq<char> {
    stored_utf8_text(before_zero_byte(data.subrange(start, end)))
}

/// A text that is encoded in UTF-8 is read back.
pub broadcast proof fn lemma_stored_utf8_text(text: Seq<char>)
    ensures
        #[trigger] stored_utf8_text(encode_utf8(text)) == text,
{
    broadcast use vstd::utf8::encode_utf8_decode_utf8, vstd::utf8::encode_utf8_valid_utf8;
}

/// Whether a text is stored at the start of a part of data, in UTF-8: it fills the part, or a zero
/// follows.
pub open spec fn holds_text(data: Seq<u8>, start: int, end: int, text: Seq<char>) -> bool {
    let bytes = encode_utf8(text);
    &&& 0 <= start
    &&& start + bytes.len() <= end <= data.len()
    &&& forall|k: int| 0 <= k < bytes.len() ==> data[start + k] == #[trigger] bytes[k] && bytes[k] != 0
    &&& start + bytes.len() == end || data[start + bytes.len()] == 0
}

/// A text that is stored in a part of data is read back.
pub broadcast proof fn lemma_stored_text(data: Seq<u8>, start: int, end: int, text: Seq<char>)
    requires
        #[trigger] holds_text(data, start, end, text),
    ensures
        stored_text(data, start, end) == text,
{
    let bytes = encode_utf8(text);
    let part = data.subrange(start, end);
    let count = bytes.len() as int;
    assert forall|i: int| 0 <= i < count implies part[i] != 0 && part[i] == bytes[i] by {
        assert(data[start + i] == bytes[i]);
    }
    crate::bytes::lemma_before_zero_byte(part, count);
    assert(part.take(count) =~= bytes);
    lemma_stored_utf8_text(text);
}

/// The UTF-16 units of a text: one for each character below 0x10000, and a pair for every other one,
/// of which each gives ten bits.
pub open spec fn encode_utf16(text: Seq<char>) -> Seq<u16>
    decreases text.len(),
{
    if text.len() == 0 {
        Seq::empty()
    } else {
        let value = text[0] as u32;
        (if value < 0x1_0000 {
            seq![value as u16]
        } else {
            seq![
                (0xd800 + (value - 0x1_0000) / 0x400) as u16,
                (0xdc00 + (value - 0x1_0000) % 0x400) as u16,
            ]
        }) + encode_utf16(text.skip(1))
    }
}

/// A text that is encoded in UTF-16 is read back.
pub broadcast proof fn lemma_utf16_text(text: Seq<char>)
    ensures
        #[trigger] utf16_text(encode_utf16(text)) == Some(text),
    decreases text.len(),
{
    if text.len() > 0 {
        let c = text[0];
        let value = c as u32;
        let rest = encode_utf16(text.skip(1));
        let units = encode_utf16(text);
        vstd::utf8::char_is_scalar(c);
        assert(value < 0xd800 || 0xe000 <= value <= 0x10ffff);
        lemma_utf16_text(text.skip(1));
        if value < 0x1_0000 {
            assert(units.skip(1) =~= rest);
            vstd::utf8::char_u32_cast(c, value);
            assert((value as u16) as u32 == value);
            assert((value as u16) as char == value as char);
            assert(seq![c] + text.skip(1) =~= text);
        } else {
            let more = value - 0x1_0000;
            assert(units.skip(2) =~= rest);
            assert(units[0] == 0xd800 + more / 0x400 && units[1] == 0xdc00 + more % 0x400);
            assert(0x400 * (more / 0x400) + more % 0x400 == more);
            vstd::utf8::char_u32_cast(c, value);
            assert(0x1_0000 + 0x400 * (units[0] - 0xd800) + (units[1] - 0xdc00) == value);
            assert(surrogate_pair_char(units[0], units[1]) == value as char);
            assert(seq![c] + text.skip(1) =~= text);
        }
    } else {
        assert(text =~= Seq::<char>::empty());
    }
}

/// Whether UTF-16 units are stored at an offset, in little-endian order.
pub open spec fn holds_units_le(data: Seq<u8>, offset: int, units: Seq<u16>) -> bool {
    forall|i: int|
        0 <= i < units.len() ==> holds_le(data, offset + 2 * i, 2, #[trigger] units[i] as int)
}

/// Whether UTF-16 units are stored at an offset, in big-endian order.
pub open spec fn holds_units_be(data: Seq<u8>, offset: int, units: Seq<u16>) -> bool {
    forall|i: int|
        0 <= i < units.len() ==> holds_be(data, offset + 2 * i, 2, #[trigger] units[i] as int)
}

/// Units that are stored in little-endian order are read back.
pub proof fn lemma_units_le(data: Seq<u8>, start: int, end: int, units: Seq<u16>)
    requires
        0 <= start,
        end == start + 2 * units.len(),
        end <= data.len(),
        holds_units_le(data, start, units),
    ensures
        units_le(data.subrange(start, end)) == units,
{
    let part = data.subrange(start, end);
    assert forall|i: int| 0 <= i < units.len() implies #[trigger] units_le(part)[i] == units[i] by {
        assert(holds_le(data, start + 2 * i, 2, units[i] as int));
        reveal_with_fuel(holds_le, 3);
        assert(part[2 * i] == data[start + 2 * i] && part[2 * i + 1] == data[start + 2 * i + 1]);
    }
    assert(units_le(part) =~= units);
}

/// Units that are stored in big-endian order are read back.
pub proof fn lemma_units_be(data: Seq<u8>, start: int, end: int, units: Seq<u16>)
    requires
        0 <= start,
        end == start + 2 * units.len(),
        end <= data.len(),
        holds_units_be(data, start, units),
    ensures
        units_be(data.subrange(start, end)) == units,
{
    let part = data.subrange(start, end);
    assert forall|i: int| 0 <= i < units.len() implies #[trigger] units_be(part)[i] == units[i] by {
        assert(holds_be(data, start + 2 * i, 2, units[i] as int));
        reveal_with_fuel(holds_be, 3);
        assert(part[2 * i] == data[start + 2 * i] && part[2 * i + 1] == data[start + 2 * i + 1]);
    }
    assert(units_be(part) =~= units);
}

/// Reads the text in a part of data, up to the first zero.
pub(crate) fn read_stored_text(data: &[u8], start: usize, end: usize) -> (text: String)
    requires
        start <= end <= data@.len(),
    ensures
        text@ == stored_text(data@, start as int, end as int),
{
    let part: &[u8] = vstd::slice::slice_subrange(data, start, end);
    let count: usize = find_zero_byte(part);
    let used: &[u8] = vstd::slice::slice_subrange(part, 0, count);
    assert(used@ =~= part@.take(count as int));
    utf8_text_lossy(used)
}

/// The character with a code point.
pub open spec fn code_point_char(value: u32) -> Option<char> {
    if value < 0xd800 || 0xe000 <= value <= 0x10ffff {
        Some(value as char)
    } else {
        None
    }
}

/// Whether a UTF-16 unit is the first of a pair.
pub open spec fn is_high_surrogate(unit: u16) -> bool {
    0xd800 <= unit < 0xdc00
}

/// Whether a UTF-16 unit is the second of a pair.
pub open spec fn is_low_surrogate(unit: u16) -> bool {
    0xdc00 <= unit < 0xe000
}

/// The character that a pair of UTF-16 units stands for.
pub open spec fn surrogate_pair_char(high: u16, low: u16) -> char {
    (0x1_0000 + 0x400 * (high - 0xd800) + (low - 0xdc00)) as char
}

/// The text that UTF-16 units stand for, where they are valid.
pub open spec fn utf16_text(units: Seq<u16>) -> Option<Seq<char>>
    decreases units.len(),
{
    if units.len() == 0 {
        Some(Seq::empty())
    } else if is_high_surrogate(units[0]) {
        if units.len() >= 2 && is_low_surrogate(units[1]) {
            match utf16_text(units.skip(2)) {
                Some(rest) => Some(seq![surrogate_pair_char(units[0], units[1])] + rest),
                None => None,
            }
        } else {
            None
        }
    } else if is_low_surrogate(units[0]) {
        None
    } else {
        match utf16_text(units.skip(1)) {
            Some(rest) => Some(seq![units[0] as char] + rest),
            None => None,
        }
    }
}

/// The 16-bit little-endian units of a byte sequence, where it has an even size.
pub open spec fn units_le(data: Seq<u8>) -> Seq<u16> {
    Seq::new(data.len() / 2, |i: int| u16_le(data, 2 * i))
}

/// The 16-bit big-endian units of a byte sequence, where it has an even size.
pub open spec fn units_be(data: Seq<u8>) -> Seq<u16> {
    Seq::new(data.len() / 2, |i: int| u16_be(data, 2 * i))
}

/// The units before the first zero.
pub open spec fn before_zero(units: Seq<u16>) -> Seq<u16>
    decreases units.len(),
{
    if units.len() == 0 || units[0] == 0 {
        Seq::empty()
    } else {
        seq![units[0]] + before_zero(units.skip(1))
    }
}

/// The units before the first zero are those of a prefix without a zero which a zero or the end
/// follows.
pub proof fn lemma_before_zero(units: Seq<u16>, count: int)
    requires
        0 <= count <= units.len(),
        forall|i: int| 0 <= i < count ==> units[i] != 0,
        count == units.len() || units[count] == 0,
    ensures
        before_zero(units) == units.take(count),
    decreases units.len(),
{
    if count > 0 {
        lemma_before_zero(units.skip(1), count - 1);
        assert(units.take(count) =~= seq![units[0]] + units.skip(1).take(count - 1));
    } else {
        assert(units.take(0) =~= Seq::<u16>::empty());
    }
}

/// Reads the 16-bit little-endian units of a byte sequence, up to the first zero if `terminated`.
pub fn read_units_le(data: &[u8], terminated: bool) -> (units: Vec<u16>)
    ensures
        units@ == (if terminated {
            before_zero(units_le(data@))
        } else {
            units_le(data@)
        }),
{
    let mut units: Vec<u16> = Vec::new();
    let count: usize = data.len() / 2;
    let mut index: usize = 0;
    while index < count
        invariant
            count == data.len() / 2,
            index <= count,
            units@ == units_le(data@).take(index as int),
            terminated ==> forall|i: int| 0 <= i < index ==> units_le(data@)[i] != 0,
        decreases count - index,
    {
        let unit: u16 = read_u16_le(data, 2 * index);
        if terminated && unit == 0 {
            proof {
                lemma_before_zero(units_le(data@), index as int);
            }
            return units;
        }
        assert(units_le(data@).take(index + 1) =~= units_le(data@).take(index as int).push(unit));
        units.push(unit);
        index += 1;
    }
    assert(units_le(data@).take(count as int) =~= units_le(data@));
    proof {
        if terminated {
            lemma_before_zero(units_le(data@), count as int);
        }
    }
    units
}

/// Reads the 16-bit big-endian units of a byte sequence, up to the first zero if `terminated`.
pub fn read_units_be(data: &[u8], terminated: bool) -> (units: Vec<u16>)
    ensures
        units@ == (if terminated {
            before_zero(units_be(data@))
        } else {
            units_be(data@)
        }),
{
    let mut units: Vec<u16> = Vec::new();
    let count: usize = data.len() / 2;
    let mut index: usize = 0;
    while index < count
        invariant
            count == data.len() / 2,
            index <= count,
            units@ == units_be(data@).take(index as int),
            terminated ==> forall|i: int| 0 <= i < index ==> units_be(data@)[i] != 0,
        decreases count - index,
    {
        let unit: u16 = read_u16_be(data, 2 * index);
        if terminated && unit == 0 {
            proof {
                lemma_before_zero(units_be(data@), index as int);
            }
            return units;
        }
        assert(units_be(data@).take(index + 1) =~= units_be(data@).take(index as int).push(unit));
        units.push(unit);
        index += 1;
    }
    assert(units_be(data@).take(count as int) =~= units_be(data@));
    proof {
        if terminated {
            lemma_before_zero(units_be(data@), count as int);
        }
    }
    units
}

/// Decodes UTF-16 units.
pub fn decode_utf16(units: &[u16]) -> (text: Option<String>)
    ensures
        match text {
            Some(text) => utf16_text(units@) == Some(text@),
            None => utf16_text(units@) is None,
        },
{
    let mut text: String = String::new();
    let mut index: usize = 0;
    assert(units@.skip(0) =~= units@);
    while index < units.len()
        invariant
            index <= units@.len(),
            match utf16_text(units@.skip(index as int)) {
                Some(rest) => utf16_text(units@) == Some(text@ + rest),
                None => utf16_text(units@) is None,
            },
        decreases units@.len() - index,
    {
        let ghost rest = units@.skip(index as int);
        let ghost before = text@;
        let unit: u16 = units[index];
        assert(rest[0] == unit);
        if 0xd800 <= unit && unit < 0xdc00 {
            if units.len() - index < 2 {
                return None;
            }
            let low: u16 = units[index + 1];
            assert(rest[1] == low);
            if low < 0xdc00 || low >= 0xe000 {
                return None;
            }
            let value: u32 = 0x1_0000 + 0x400 * (unit as u32 - 0xd800) + (low as u32 - 0xdc00);
            match char::from_u32(value) {
                Some(c) => {
                    text.push(c);
                    proof {
                        assert(rest.skip(2) =~= units@.skip(index + 2));
                        assert forall|tail: Seq<char>|
                            before + (seq![c] + tail) =~= #[trigger] (before.push(c) + tail) by {}
                    }
                },
                None => return None,
            }
            index += 2;
        } else {
            match char::from_u32(unit as u32) {
                Some(c) => {
                    text.push(c);
                    proof {
                        assert(rest.skip(1) =~= units@.skip(index + 1));
                        assert forall|tail: Seq<char>|
                            before + (seq![c] + tail) =~= #[trigger] (before.push(c) + tail) by {}
                    }
                },
                None => return None,
            }
            index += 1;
        }
    }
    assert(text@ + Seq::<char>::empty() =~= text@);
    Some(text)
}

/// Whether a character is white space.
pub open spec fn is_whitespace(c: char) -> bool {
    let value = c as u32;
    ||| 0x09 <= value <= 0x0d
    ||| value == 0x20
    ||| value == 0x85
    ||| value == 0xa0
    ||| value == 0x1680
    ||| 0x2000 <= value <= 0x200a
    ||| value == 0x2028
    ||| value == 0x2029
    ||| value == 0x202f
    ||| value == 0x205f
    ||| value == 0x3000
}

/// The characters of a text.
pub fn text_chars(text: &str) -> (chars: Vec<char>)
    ensures
        chars@ == text@,
{
    broadcast use vstd::string::axiom_spec_iter;

    let mut chars: Vec<char> = Vec::new();
    for c in iter: text.chars()
        invariant
            chars@ == text@.take(iter.index()),
            iter.seq() == text@,
    {
        chars.push(c);
    }
    chars
}

/// The text made of characters.
pub fn chars_text(chars: &[char]) -> (text: String)
    ensures
        text@ == chars@,
{
    let mut text: String = String::new();
    let mut index: usize = 0;
    while index < chars.len()
        invariant
            index <= chars@.len(),
            text@ == chars@.take(index as int),
        decreases chars@.len() - index,
    {
        assert(chars@.take(index + 1) =~= chars@.take(index as int).push(chars@[index as int]));
        text.push(chars[index]);
        index += 1;
    }
    assert(chars@.take(chars@.len() as int) =~= chars@);
    text
}

} // verus!
