//! Universally unique identifiers.

use vstd::prelude::*;

use crate::bytes::{
    holds_be, holds_le, lemma_holds_be, lemma_holds_le, u16_be, u16_le, u32_be, u32_le,
};
use crate::error::DriverError;
use crate::scan::{
    digit_value, digits_value, lemma_digits_read_back, lemma_first_digit, number_value,
    significant_digits,
};

verus! {

/// Universally unique identifier (UUID).
#[derive(Clone, Copy, Debug, PartialEq, Eq, PartialOrd, Ord, Hash, Structural)]
pub struct Uuid {
    pub part1: u32,
    pub part2: u16,
    pub part3: u16,
    pub part4: u16,
    pub part5: u64,
}

/// The UUID stored in big-endian byte order at an offset.
pub open spec fn uuid_be(data: Seq<u8>, offset: int) -> Uuid {
    Uuid {
        part1: u32_be(data, offset),
        part2: u16_be(data, offset + 4),
        part3: u16_be(data, offset + 6),
        part4: u16_be(data, offset + 8),
        part5: (0x1_0000_0000 * u16_be(data, offset + 10) + u32_be(data, offset + 12)) as u64,
    }
}

/// The UUID stored in little-endian byte order at an offset: its first three parts are
/// little-endian, the others big-endian.
pub open spec fn uuid_le(data: Seq<u8>, offset: int) -> Uuid {
    Uuid {
        part1: u32_le(data, offset),
        part2: u16_le(data, offset + 4),
        part3: u16_le(data, offset + 6),
        part4: u16_be(data, offset + 8),
        part5: (0x1_0000_0000 * u16_be(data, offset + 10) + u32_be(data, offset + 12)) as u64,
    }
}

/// Whether a UUID is stored at an offset, its first three parts in little-endian order and the others
/// in big-endian order.
pub open spec fn holds_uuid_le(data: Seq<u8>, offset: int, uuid: Uuid) -> bool {
    &&& holds_le(data, offset, 4, uuid.part1 as int)
    &&& holds_le(data, offset + 4, 2, uuid.part2 as int)
    &&& holds_le(data, offset + 6, 2, uuid.part3 as int)
    &&& holds_be(data, offset + 8, 2, uuid.part4 as int)
    &&& holds_be(data, offset + 10, 6, uuid.part5 as int)
}

/// Whether a UUID is stored at an offset in big-endian order.
pub open spec fn holds_uuid_be(data: Seq<u8>, offset: int, uuid: Uuid) -> bool {
    &&& holds_be(data, offset, 4, uuid.part1 as int)
    &&& holds_be(data, offset + 4, 2, uuid.part2 as int)
    &&& holds_be(data, offset + 6, 2, uuid.part3 as int)
    &&& holds_be(data, offset + 8, 2, uuid.part4 as int)
    &&& holds_be(data, offset + 10, 6, uuid.part5 as int)
}

/// A UUID that is stored is read back.
pub proof fn lemma_uuid_stored(data: Seq<u8>, offset: int, uuid: Uuid)
    ensures
        holds_uuid_le(data, offset, uuid) ==> uuid_le(data, offset) == uuid,
        holds_uuid_be(data, offset, uuid) ==> uuid_be(data, offset) == uuid,
{
    broadcast use lemma_holds_le, lemma_holds_be;

    if holds_be(data, offset + 10, 6, uuid.part5 as int) {
        reveal_with_fuel(holds_be, 7);
    }
}

/// The UUID that has only zeros.
pub open spec fn nil_uuid() -> Uuid {
    Uuid { part1: 0, part2: 0, part3: 0, part4: 0, part5: 0 }
}

/// A text without the curly brackets around it.
pub open spec fn without_brackets(text: Seq<char>) -> Seq<char> {
    if text.len() >= 2 && text[0] == '{' && text.last() == '}' {
        text.subrange(1, text.len() - 1)
    } else {
        text
    }
}

/// The UUID that an ASCII text stands for, if it stands for one: hexadecimal numbers of 8, 4, 4, 4
/// and 12 characters with hyphens between them, which may stand in curly brackets.
pub open spec fn parsed_uuid(text: Seq<char>) -> Option<Uuid> {
    let inner = without_brackets(text);
    if inner.len() != 36 || inner[8] != '-' || inner[13] != '-' || inner[18] != '-' || inner[23]
        != '-' {
        None
    } else {
        match (
            number_value(inner.subrange(0, 8), 16, u32::MAX as int),
            number_value(inner.subrange(9, 13), 16, u16::MAX as int),
            number_value(inner.subrange(14, 18), 16, u16::MAX as int),
            number_value(inner.subrange(19, 23), 16, u16::MAX as int),
            number_value(inner.subrange(24, 36), 16, u64::MAX as int),
        ) {
            (Some(part1), Some(part2), Some(part3), Some(part4), Some(part5)) => Some(
                Uuid {
                    part1: part1 as u32,
                    part2: part2 as u16,
                    part3: part3 as u16,
                    part4: part4 as u16,
                    part5,
                },
            ),
            _ => None,
        }
    }
}

/// A number in hexadecimal digits, with zeros in front where it has less than `size` of them.
pub open spec fn hexadecimal(value: u64, size: nat) -> Seq<char> {
    let digits = significant_digits(value as nat, 16);
    if digits.len() >= size {
        digits
    } else {
        Seq::new((size - digits.len()) as nat, |i: int| '0') + digits
    }
}

/// The text of the UUID that has the given parts.
pub open spec fn uuid_text(
    part1: u32,
    part2: u16,
    part3: u16,
    part4: u16,
    part5: u64,
) -> Seq<char> {
    hexadecimal(part1 as u64, 8) + seq!['-'] + hexadecimal(part2 as u64, 4) + seq!['-']
        + hexadecimal(part3 as u64, 4) + seq!['-'] + hexadecimal(part4 as u64, 4) + seq!['-']
        + hexadecimal(part5, 12)
}

proof fn lemma_hexadecimal(value: u64, size: nat, max: int)
    requires
        value <= max <= u64::MAX,
        significant_digits(value as nat, 16).len() <= size,
        0 < size,
    ensures
        hexadecimal(value, size).len() == size,
        number_value(hexadecimal(value, size), 16, max) == Some(value),
{
    let digits = significant_digits(value as nat, 16);
    let zeros = Seq::new((size - digits.len()) as nat, |i: int| '0');
    lemma_digits_read_back(value as nat, 16, zeros);
    assert(zeros + digits =~= hexadecimal(value, size));
    if zeros.len() > 0 {
        assert(hexadecimal(value, size)[0] == '0');
    } else {
        lemma_first_digit(value as nat, 16);
    }
}

/// The text of a UUID stands for the UUID, with and without curly brackets around it.
pub proof fn lemma_uuid_text_parsed(uuid: Uuid)
    requires
        uuid.part5 < 0x1_0000_0000_0000,
    ensures
        ({
            let text = uuid_text(uuid.part1, uuid.part2, uuid.part3, uuid.part4, uuid.part5);
            &&& text.len() == 36
            &&& parsed_uuid(text) == Some(uuid)
            &&& parsed_uuid(seq!['{'] + text + seq!['}']) == Some(uuid)
        }),
{
    let text = uuid_text(uuid.part1, uuid.part2, uuid.part3, uuid.part4, uuid.part5);
    lemma_digit_counts(uuid.part1 as nat);
    lemma_digit_counts(uuid.part2 as nat);
    lemma_digit_counts(uuid.part3 as nat);
    lemma_digit_counts(uuid.part4 as nat);
    lemma_digit_counts(uuid.part5 as nat);
    lemma_hexadecimal(uuid.part1 as u64, 8, u32::MAX as int);
    lemma_hexadecimal(uuid.part2 as u64, 4, u16::MAX as int);
    lemma_hexadecimal(uuid.part3 as u64, 4, u16::MAX as int);
    lemma_hexadecimal(uuid.part4 as u64, 4, u16::MAX as int);
    lemma_hexadecimal(uuid.part5, 12, u64::MAX as int);
    assert(text.subrange(0, 8) =~= hexadecimal(uuid.part1 as u64, 8));
    assert(text.subrange(9, 13) =~= hexadecimal(uuid.part2 as u64, 4));
    assert(text.subrange(14, 18) =~= hexadecimal(uuid.part3 as u64, 4));
    assert(text.subrange(19, 23) =~= hexadecimal(uuid.part4 as u64, 4));
    assert(text.subrange(24, 36) =~= hexadecimal(uuid.part5, 12));
    lemma_digit_mark(uuid);
    let bracketed = seq!['{'] + text + seq!['}'];
    assert(bracketed.subrange(1, bracketed.len() - 1) =~= text);
    assert(without_brackets(bracketed) == text);
    assert(without_brackets(text) == text);
}

proof fn lemma_digit_counts(value: nat)
    ensures
        value < 0x1_0000 ==> significant_digits(value, 16).len() <= 4,
        value < 0x1_0000_0000 ==> significant_digits(value, 16).len() <= 8,
        value < 0x1_0000_0000_0000 ==> significant_digits(value, 16).len() <= 12,
{
    let short = value / 0x1_0000;
    lemma_four_digits(value);
    lemma_four_digits(short);
    lemma_four_digits(short / 0x1_0000);
    assert(significant_digits(0, 16).len() == 0);
}

proof fn lemma_four_digits(value: nat)
    ensures
        significant_digits(value, 16).len() <= 4 + significant_digits(value / 0x1_0000, 16).len(),
{
    let a = value / 16;
    let b = a / 16;
    let c = b / 16;
    let d = c / 16;
    assert(d == value / 0x1_0000);
    assert(significant_digits(c, 16).len() <= 1 + significant_digits(d, 16).len());
    assert(significant_digits(b, 16).len() <= 1 + significant_digits(c, 16).len());
    assert(significant_digits(a, 16).len() <= 1 + significant_digits(b, 16).len());
    assert(significant_digits(value, 16).len() <= 1 + significant_digits(a, 16).len());
}

proof fn lemma_digit_mark(uuid: Uuid)
    requires
        hexadecimal(uuid.part1 as u64, 8).len() == 8,
        number_value(hexadecimal(uuid.part1 as u64, 8), 16, u32::MAX as int) is Some,
    ensures
        uuid_text(uuid.part1, uuid.part2, uuid.part3, uuid.part4, uuid.part5)[0] != '{',
{
    let first = hexadecimal(uuid.part1 as u64, 8);
    let text = uuid_text(uuid.part1, uuid.part2, uuid.part3, uuid.part4, uuid.part5);
    assert(text[0] == first[0]);
    if first[0] == '{' {
        lemma_all_digits(first, 16, 0);
        assert(digit_value('{', 16) is None);
    }
}

proof fn lemma_all_digits(digits: Seq<char>, radix: int, i: int)
    requires
        digits_value(digits, radix) is Some,
        0 <= i < digits.len(),
    ensures
        digit_value(digits[i], radix) is Some,
    decreases digits.len(),
{
    if i < digits.len() - 1 {
        lemma_all_digits(digits.drop_last(), radix, i);
    }
}

/// Reads a UUID with `keramics_types::Uuid::from_be_bytes`. Its parts are the big-endian integers
/// of 4, 2, 2, 2 and 6 bytes at the start of the data.
#[verifier::external_body]
fn uuid_from_be_bytes(data: &[u8]) -> (uuid: Uuid)
    requires
        data@.len() >= 16,
    ensures
        uuid == uuid_be(data@, 0),
{
    let uuid = keramics_types::Uuid::from_be_bytes(data);
    Uuid {
        part1: uuid.part1,
        part2: uuid.part2,
        part3: uuid.part3,
        part4: uuid.part4,
        part5: uuid.part5,
    }
}

/// Reads a UUID with `keramics_types::Uuid::from_le_bytes`. Its first three parts are the
/// little-endian integers of 4, 2 and 2 bytes at the start of the data, the others the big-endian
/// integers of 2 and 6 bytes that follow.
#[verifier::external_body]
fn uuid_from_le_bytes(data: &[u8]) -> (uuid: Uuid)
    requires
        data@.len() >= 16,
    ensures
        uuid == uuid_le(data@, 0),
{
    let uuid = keramics_types::Uuid::from_le_bytes(data);
    Uuid {
        part1: uuid.part1,
        part2: uuid.part2,
        part3: uuid.part3,
        part4: uuid.part4,
        part5: uuid.part5,
    }
}

/// Parses a UUID with `keramics_types::Uuid::from_string`: hexadecimal numbers with hyphens between
/// them, each of which may start with a plus sign. The function slices the text at fixed positions,
/// so the text has to be ASCII.
#[verifier::external_body]
fn uuid_from_string(text: &str) -> (uuid: Option<Uuid>)
    requires
        vstd::string::is_ascii(text),
    ensures
        uuid == parsed_uuid(text@),
{
    match keramics_types::Uuid::from_string(text) {
        Ok(uuid) => Some(
            Uuid {
                part1: uuid.part1,
                part2: uuid.part2,
                part3: uuid.part3,
                part4: uuid.part4,
                part5: uuid.part5,
            },
        ),
        Err(_) => None,
    }
}

/// Formats a UUID with the `Display` of `keramics_types::Uuid`: its parts in at least 8, 4, 4, 4 and
/// 12 hexadecimal digits in lower case, with hyphens between them.
#[verifier::external_body]
fn uuid_to_string(part1: u32, part2: u16, part3: u16, part4: u16, part5: u64) -> (text: String)
    ensures
        text@ == uuid_text(part1, part2, part3, part4, part5),
{
    keramics_types::Uuid { part1, part2, part3, part4, part5 }.to_string()
}

impl Uuid {
    /// Creates a UUID from the big-endian byte sequence at an offset.
    pub fn from_be_bytes(data: &[u8], offset: usize) -> (uuid: Self)
        requires
            offset + 16 <= data.len(),
        ensures
            uuid == uuid_be(data@, offset as int),
    {
        let part = vstd::slice::slice_subrange(data, offset, offset + 16);
        uuid_from_be_bytes(part)
    }

    /// Creates a UUID from the little-endian byte sequence at an offset.
    pub fn from_le_bytes(data: &[u8], offset: usize) -> (uuid: Self)
        requires
            offset + 16 <= data.len(),
        ensures
            uuid == uuid_le(data@, offset as int),
    {
        let part = vstd::slice::slice_subrange(data, offset, offset + 16);
        uuid_from_le_bytes(part)
    }

    /// Creates a UUID from a text, which has to be ASCII.
    pub fn from_string(text: &str) -> (result: Result<Self, DriverError>)
        ensures
            result == text_uuid(text@),
    {
        if !text.is_ascii() {
            return Err(DriverError::Encoding);
        }
        match uuid_from_string(text) {
            Some(uuid) => Ok(uuid),
            None => Err(DriverError::Invalid),
        }
    }

    /// Determines if the UUID is the nil UUID.
    pub fn is_nil(&self) -> (nil: bool)
        ensures
            nil == (*self == nil_uuid()),
    {
        self.part1 == 0 && self.part2 == 0 && self.part3 == 0 && self.part4 == 0 && self.part5 == 0
    }

    /// Formats the UUID.
    pub fn to_string(&self) -> (text: String)
        ensures
            text@ == uuid_text(self.part1, self.part2, self.part3, self.part4, self.part5),
    {
        uuid_to_string(self.part1, self.part2, self.part3, self.part4, self.part5)
    }
}

/// The UUID that a text stands for.
pub open spec fn text_uuid(text: Seq<char>) -> Result<Uuid, DriverError> {
    if !vstd::utf8::is_ascii_chars(text) {
        Err(DriverError::Encoding)
    } else {
        match parsed_uuid(text) {
            Some(uuid) => Ok(uuid),
            None => Err(DriverError::Invalid),
        }
    }
}

} // verus!
