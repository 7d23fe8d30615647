//! Names of EWF segment files.

use vstd::prelude::*;

use crate::error::DriverError;
use crate::scan::{copy_text, find_back, find_last_pattern};
use crate::text::{chars_text, text_chars};

verus! {

/// How the segment files of an image are named.
#[derive(Clone, Copy, Debug, PartialEq, Eq, Structural)]
pub enum EwfNamingSchema {
    E01Lower,
    E01Upper,
    S01Lower,
    S01Upper,
}

/// The letter with which the extension of the first segment file starts.
pub open spec fn first_letter(schema: EwfNamingSchema) -> int {
    match schema {
        EwfNamingSchema::E01Lower => 'e' as int,
        EwfNamingSchema::E01Upper => 'E' as int,
        EwfNamingSchema::S01Lower => 's' as int,
        EwfNamingSchema::S01Upper => 'S' as int,
    }
}

/// The letter `A` in the case that a schema uses.
pub open spec fn base_letter(schema: EwfNamingSchema) -> int {
    match schema {
        EwfNamingSchema::E01Lower | EwfNamingSchema::S01Lower => 'a' as int,
        EwfNamingSchema::E01Upper | EwfNamingSchema::S01Upper => 'A' as int,
    }
}

/// The extension of the segment file with a number: a letter and two digits up to 99, and three
/// letters from there on.
pub open spec fn segment_extension(number: u16, schema: EwfNamingSchema) -> Result<
    Seq<char>,
    DriverError,
> {
    let rest = number - 100;
    if number == 0 {
        Err(DriverError::Invalid)
    } else if number < 100 {
        Ok(
            seq![
                first_letter(schema) as char,
                ('0' as int + number as int / 10) as char,
                ('0' as int + number as int % 10) as char,
            ],
        )
    } else if first_letter(schema) + rest / 676 > base_letter(schema) + 25 {
        Err(DriverError::OutOfBounds)
    } else {
        Ok(
            seq![
                (first_letter(schema) + rest / 676) as char,
                (base_letter(schema) + (rest / 26) % 26) as char,
                (base_letter(schema) + rest % 26) as char,
            ],
        )
    }
}

/// The name of the segment file with a number.
pub open spec fn segment_file_name(
    name: Seq<char>,
    number: u16,
    schema: EwfNamingSchema,
) -> Result<Seq<char>, DriverError> {
    match segment_extension(number, schema) {
        Err(error) => Err(error),
        Ok(extension) => Ok(name.push('.') + extension),
    }
}

/// The position of the dot before the extension of a file name. A dot at the start does not count.
pub open spec fn extension_dot(file_name: Seq<char>) -> Option<int> {
    match find_back(file_name, seq!['.'], file_name.len() as int) {
        Some(at) => if at == 0 {
            None
        } else {
            Some(at)
        },
        None => None,
    }
}

/// How the segment files are named of which the first has a name.
pub open spec fn naming_schema(file_name: Seq<char>) -> Result<EwfNamingSchema, DriverError> {
    match extension_dot(file_name) {
        None => Err(DriverError::Missing),
        Some(at) => {
            let extension = file_name.skip(at + 1);
            if extension == seq!['E', '0', '1'] {
                Ok(EwfNamingSchema::E01Upper)
            } else if extension == seq!['S', '0', '1'] {
                Ok(EwfNamingSchema::S01Upper)
            } else if extension == seq!['e', '0', '1'] {
                Ok(EwfNamingSchema::E01Lower)
            } else if extension == seq!['s', '0', '1'] {
                Ok(EwfNamingSchema::S01Lower)
            } else {
                Err(DriverError::Unsupported)
            }
        },
    }
}

/// The file name without its extension.
pub open spec fn file_stem(file_name: Seq<char>) -> Seq<char> {
    match extension_dot(file_name) {
        Some(at) => file_name.take(at),
        None => file_name,
    }
}

/// The extensions are counted: two digits up to 99, and then letters, of which the last one counts up
/// first, and the one in front of it every 26 files. The first letter starts with that of the schema.
pub proof fn lemma_extension(
    number: u16,
    schema: EwfNamingSchema,
    first: int,
    second: int,
    third: int,
)
    requires
        if number < 100 {
            first == 0 && number == 10 * second + third && 0 < number && 0 <= second && 0 <= third
                < 10
        } else {
            &&& number == 100 + 676 * first + 26 * second + third
            &&& 0 <= first
            &&& 0 <= second < 26
            &&& 0 <= third < 26
        },
    ensures
        ({
            let start = match schema {
                EwfNamingSchema::E01Lower => 'e',
                EwfNamingSchema::E01Upper => 'E',
                EwfNamingSchema::S01Lower => 's',
                EwfNamingSchema::S01Upper => 'S',
            };
            let (a, z) = match schema {
                EwfNamingSchema::E01Lower => ('a', 'z'),
                EwfNamingSchema::E01Upper => ('A', 'Z'),
                EwfNamingSchema::S01Lower => ('a', 'z'),
                EwfNamingSchema::S01Upper => ('A', 'Z'),
            };
            let result = segment_extension(number, schema);
            let extension = result->Ok_0;
            &&& result is Ok <==> start as int + first <= z as int
            &&& result is Ok ==> {
                &&& extension.len() == 3
                &&& extension[0] as int == start as int + first
                &&& number < 100 ==> extension[1] as int == '0' as int + second && extension[2] as int
                    == '0' as int + third
                &&& number >= 100 ==> extension[1] as int == a as int + second && extension[2] as int
                    == a as int + third
            }
        }),
{
    let rest = number - 100;
    if number >= 100 {
        assert(rest / 676 == first && rest % 26 == third);
        assert(rest / 26 == 26 * first + second);
        assert((26 * first + second) % 26 == second);
    } else {
        assert(number as int / 10 == second && number as int % 10 == third);
    }
    let extension = segment_extension(number, schema);
    if let Ok(extension) = extension {
        if number < 100 {
            lemma_character(first_letter(schema));
            lemma_character('0' as int + second);
            lemma_character('0' as int + third);
        } else {
            lemma_character(first_letter(schema) + first);
            lemma_character(base_letter(schema) + second);
            lemma_character(base_letter(schema) + third);
        }
    }
}

proof fn lemma_character(code: int)
    requires
        0 <= code < 0x80,
    ensures
        (code as char) as int == code,
{
    vstd::utf8::char_u32_cast(code as char, code as u32);
}

/// The first segment file of an image has the name with which the image was opened.
pub proof fn lemma_first_segment_file_name(file_name: Seq<char>)
    requires
        naming_schema(file_name) is Ok,
    ensures
        segment_file_name(file_stem(file_name), 1, naming_schema(file_name)->Ok_0) == Ok::<
            Seq<char>,
            DriverError,
        >(file_name),
{
    let at = extension_dot(file_name)->0;
    lemma_find_back(file_name, seq!['.'], file_name.len() as int);
    let extension = file_name.skip(at + 1);
    assert(file_name[at] == file_name.subrange(at, at + 1)[0]);
    assert(file_name =~= file_name.take(at).push('.') + extension);
    assert(1int / 10 == 0 && 1int % 10 == 1);
}

/// The schema is told by the extension behind the last dot of the name, and the stem is what stands in
/// front of the dot.
pub proof fn lemma_naming(stem: Seq<char>, schema: EwfNamingSchema, letter: char)
    requires
        stem.len() > 0,
        letter == (match schema {
            EwfNamingSchema::E01Lower => 'e',
            EwfNamingSchema::E01Upper => 'E',
            EwfNamingSchema::S01Lower => 's',
            EwfNamingSchema::S01Upper => 'S',
        }),
    ensures
        naming_schema(stem + seq!['.', letter, '0', '1']) == Ok::<EwfNamingSchema, DriverError>(
            schema,
        ),
        file_stem(stem + seq!['.', letter, '0', '1']) == stem,
{
    let name = stem + seq!['.', letter, '0', '1'];
    let at = stem.len() as int;
    let dot = seq!['.'];
    crate::scan::lemma_find_back(name, dot, name.len() as int);
    assert(name.subrange(at, at + 1) =~= dot);
    assert(crate::scan::matches_at(name, dot, at));
    assert forall|i: int| at < i <= name.len() implies !#[trigger] crate::scan::matches_at(
        name,
        dot,
        i,
    ) by {
        if i < name.len() {
            assert(name.subrange(i, i + 1)[0] == name[i]);
        }
    }
    assert(extension_dot(name) == Some(at));
    let extension = name.skip(at + 1);
    assert(extension =~= seq![letter, '0', '1']);
    assert(extension[0] == letter);
    assert(seq!['E', '0', '1'][0] == 'E' && seq!['S', '0', '1'][0] == 'S');
    assert(seq!['e', '0', '1'][0] == 'e' && seq!['s', '0', '1'][0] == 's');
    assert(name.take(at) =~= stem);
}

proof fn lemma_find_back(text: Seq<char>, pattern: Seq<char>, to: int)
    ensures
        find_back(text, pattern, to) matches Some(at) ==> crate::scan::matches_at(text, pattern, at),
    decreases to + 1,
{
    if to >= 0 {
        lemma_find_back(text, pattern, to - 1);
    }
}

/// Determines the extension of the segment file with a number.
pub fn get_segment_file_extension(segment_number: u16, naming_schema: EwfNamingSchema) -> (result:
    Result<Vec<char>, DriverError>)
    ensures
        match result {
            Ok(extension) => segment_extension(segment_number, naming_schema) == Ok::<
                Seq<char>,
                DriverError,
            >(extension@),
            Err(error) => segment_extension(segment_number, naming_schema) == Err::<
                Seq<char>,
                DriverError,
            >(error),
        },
{
    if segment_number == 0 {
        return Err(DriverError::Invalid);
    }
    let first: u8 = match naming_schema {
        EwfNamingSchema::E01Lower => 0x65,
        EwfNamingSchema::E01Upper => 0x45,
        EwfNamingSchema::S01Lower => 0x73,
        EwfNamingSchema::S01Upper => 0x53,
    };
    let base: u8 = match naming_schema {
        EwfNamingSchema::E01Lower | EwfNamingSchema::S01Lower => 0x61,
        EwfNamingSchema::E01Upper | EwfNamingSchema::S01Upper => 0x41,
    };
    let mut extension: Vec<char> = Vec::new();
    if segment_number < 100 {
        extension.push(first as char);
        extension.push((0x30 + (segment_number / 10) as u8) as char);
        extension.push((0x30 + (segment_number % 10) as u8) as char);
        assert(extension@ =~= segment_extension(segment_number, naming_schema)->Ok_0);
        return Ok(extension);
    }
    let rest: u16 = segment_number - 100;
    if first as u16 + rest / 676 > base as u16 + 25 {
        return Err(DriverError::OutOfBounds);
    }
    extension.push((first + (rest / 676) as u8) as char);
    extension.push((base + ((rest / 26) % 26) as u8) as char);
    extension.push((base + (rest % 26) as u8) as char);
    assert(extension@ =~= segment_extension(segment_number, naming_schema)->Ok_0);
    Ok(extension)
}

/// Determines the name of the segment file with a number.
pub fn get_segment_file_name(
    name: &[char],
    segment_number: u16,
    naming_schema: EwfNamingSchema,
) -> (result: Result<String, DriverError>)
    ensures
        match result {
            Ok(file_name) => segment_file_name(name@, segment_number, naming_schema) == Ok::<
                Seq<char>,
                DriverError,
            >(file_name@),
            Err(error) => segment_file_name(name@, segment_number, naming_schema) == Err::<
                Seq<char>,
                DriverError,
            >(error),
        },
{
    let extension: Vec<char> = get_segment_file_extension(segment_number, naming_schema)?;
    let mut text: Vec<char> = copy_text(name);
    text.push('.');
    let mut index: usize = 0;
    while index < extension.len()
        invariant
            index <= extension@.len(),
            text@ == name@.push('.') + extension@.take(index as int),
        decreases extension@.len() - index,
    {
        text.push(extension[index]);
        index += 1;
        assert(text@ =~= name@.push('.') + extension@.take(index as int));
    }
    assert(extension@.take(index as int) =~= extension@);
    Ok(chars_text(text.as_slice()))
}

/// Determines where the extension of a file name starts.
fn find_extension_dot(file_name: &[char]) -> (at: Option<usize>)
    ensures
        match at {
            Some(at) => extension_dot(file_name@) == Some(at as int) && at < file_name@.len(),
            None => extension_dot(file_name@) is None,
        },
{
    let mut dot: Vec<char> = Vec::new();
    dot.push('.');
    assert(dot@ =~= seq!['.']);
    match find_last_pattern(file_name, dot.as_slice()) {
        Some(at) => {
            if at == 0 {
                None
            } else {
                Some(at)
            }
        },
        None => None,
    }
}

/// Determines how the segment files are named of which the first has a name.
pub fn get_segment_file_naming_schema(file_name: &str) -> (result: Result<
    EwfNamingSchema,
    DriverError,
>)
    ensures
        result == naming_schema(file_name@),
{
    let chars: Vec<char> = text_chars(file_name);
    let at: usize = find_extension_dot(chars.as_slice()).ok_or(DriverError::Missing)?;
    let length: usize = chars.len();
    let extension: &[char] = vstd::slice::slice_subrange(chars.as_slice(), at + 1, length);
    assert(extension@ =~= file_name@.skip(at + 1));
    proof {
        assert(forall|c: char|
            extension@ == seq![c, '0', '1'] <==> extension@.len() == 3 && extension@[0] == c
                && extension@[1] == '0' && extension@[2] == '1') by {
            assert forall|c: char|
                extension@.len() == 3 && extension@[0] == c && extension@[1] == '0'
                    && extension@[2] == '1' implies extension@ == seq![c, '0', '1'] by {
                assert(extension@ =~= seq![c, '0', '1']);
            }
        }
    }
    if extension.len() != 3 || extension[1] != '0' || extension[2] != '1' {
        return Err(DriverError::Unsupported);
    }
    let c: char = extension[0];
    if c == 'E' {
        Ok(EwfNamingSchema::E01Upper)
    } else if c == 'S' {
        Ok(EwfNamingSchema::S01Upper)
    } else if c == 'e' {
        Ok(EwfNamingSchema::E01Lower)
    } else if c == 's' {
        Ok(EwfNamingSchema::S01Lower)
    } else {
        Err(DriverError::Unsupported)
    }
}

/// Determines the file name without its extension.
pub(crate) fn get_file_stem(file_name: &str) -> (stem: Vec<char>)
    ensures
        stem@ == file_stem(file_name@),
{
    let chars: Vec<char> = text_chars(file_name);
    match find_extension_dot(chars.as_slice()) {
        Some(at) => {
            let stem: &[char] = vstd::slice::slice_subrange(chars.as_slice(), 0, at);
            assert(stem@ =~= file_name@.take(at as int));
            copy_text(stem)
        },
        None => chars,
    }
}

} // verus!
