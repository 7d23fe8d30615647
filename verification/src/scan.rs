//! Finding the parts of a text.

use vstd::prelude::*;

use crate::error::DriverError;
use crate::text::is_whitespace;

verus! {

/// Whether a text has a pattern at a position.
pub open spec fn matches_at(text: Seq<char>, pattern: Seq<char>, at: int) -> bool {
    &&& 0 <= at
    &&& at + pattern.len() <= text.len()
    &&& text.subrange(at, at + pattern.len()) == pattern
}

/// The first position from `from` on at which a text has a pattern.
pub open spec fn find_from(text: Seq<char>, pattern: Seq<char>, from: int) -> Option<int>
    decreases text.len() + 1 - from,
{
    if from < 0 || from + pattern.len() > text.len() {
        None
    } else if matches_at(text, pattern, from) {
        Some(from)
    } else {
        find_from(text, pattern, from + 1)
    }
}

/// The last position up to `to` at which a text has a pattern.
pub open spec fn find_back(text: Seq<char>, pattern: Seq<char>, to: int) -> Option<int>
    decreases to + 1,
{
    if to < 0 {
        None
    } else if matches_at(text, pattern, to) {
        Some(to)
    } else {
        find_back(text, pattern, to - 1)
    }
}

/// A text without the white space at its start.
pub open spec fn trimmed_start(text: Seq<char>) -> Seq<char>
    decreases text.len(),
{
    if text.len() > 0 && is_whitespace(text[0]) {
        trimmed_start(text.skip(1))
    } else {
        text
    }
}

/// A text without the white space at its end.
pub open spec fn trimmed_end(text: Seq<char>) -> Seq<char>
    decreases text.len(),
{
    if text.len() > 0 && is_whitespace(text.last()) {
        trimmed_end(text.drop_last())
    } else {
        text
    }
}

/// A text without the white space around it.
pub open spec fn trimmed(text: Seq<char>) -> Seq<char> {
    trimmed_end(trimmed_start(text))
}

/// The lower-case form of an ASCII letter; another character itself.
pub open spec fn lower_char(c: char) -> char {
    if 'A' <= c && c <= 'Z' {
        (c as u32 + 32) as char
    } else {
        c
    }
}

/// A text with its ASCII letters in lower case.
pub open spec fn lowercase(text: Seq<char>) -> Seq<char> {
    Seq::new(text.len(), |i: int| lower_char(text[i]))
}

/// The value of a digit.
pub open spec fn digit_value(c: char, radix: int) -> Option<int> {
    let value = if '0' <= c && c <= '9' {
        c as int - '0' as int
    } else if 'a' <= c && c <= 'z' {
        c as int - 'a' as int + 10
    } else if 'A' <= c && c <= 'Z' {
        c as int - 'A' as int + 10
    } else {
        radix
    };
    if value < radix {
        Some(value)
    } else {
        None
    }
}

/// The value of a sequence of digits.
pub open spec fn digits_value(digits: Seq<char>, radix: int) -> Option<int>
    decreases digits.len(),
{
    if digits.len() == 0 {
        Some(0)
    } else {
        match (digits_value(digits.drop_last(), radix), digit_value(digits.last(), radix)) {
            (Some(high), Some(low)) => Some(high * radix + low),
            _ => None,
        }
    }
}

/// The number that a text stands for, if it is at most `max`: at least one digit, which a plus
/// sign may precede.
pub open spec fn number_value(text: Seq<char>, radix: int, max: int) -> Option<u64> {
    let digits = if text.len() > 0 && text[0] == '+' {
        text.skip(1)
    } else {
        text
    };
    match digits_value(digits, radix) {
        Some(value) => if digits.len() > 0 && value <= max {
            Some(value as u64)
        } else {
            None
        },
        None => None,
    }
}

/// The number of characters before the first white space.
pub open spec fn word_length(text: Seq<char>) -> int
    decreases text.len(),
{
    if text.len() == 0 || is_whitespace(text[0]) {
        0
    } else {
        1 + word_length(text.skip(1))
    }
}

/// The word with an index, of those that white space separates. A text with fewer words has an
/// empty one there.
pub open spec fn nth_word(text: Seq<char>, index: nat) -> Seq<char>
    decreases index,
{
    let rest = trimmed_start(text);
    if index == 0 {
        rest.take(word_length(rest))
    } else {
        nth_word(rest.skip(word_length(rest)), (index - 1) as nat)
    }
}

/// The parts of a text from `from` on that stand between an opening and a closing mark.
pub open spec fn sections_from(
    text: Seq<char>,
    open_mark: Seq<char>,
    close_mark: Seq<char>,
    from: int,
) -> Result<Seq<Seq<char>>, DriverError>
    decreases text.len() - from,
    when 0 < open_mark.len()
{
    match find_from(text, open_mark, from) {
        None => Ok(Seq::empty()),
        Some(at) => {
            let start = at + open_mark.len();
            match find_from(text, close_mark, start) {
                None => Err(DriverError::Invalid),
                Some(end) => if end + close_mark.len() <= from || end + close_mark.len()
                    > text.len() {
                    Ok(Seq::empty())
                } else {
                    match sections_from(text, open_mark, close_mark, end + close_mark.len()) {
                        Err(error) => Err(error),
                        Ok(rest) => Ok(seq![text.subrange(start, end)] + rest),
                    }
                },
            }
        },
    }
}

/// The parts of a text that stand between an opening and a closing mark.
pub open spec fn sections(
    text: Seq<char>,
    open_mark: Seq<char>,
    close_mark: Seq<char>,
) -> Result<Seq<Seq<char>>, DriverError> {
    sections_from(text, open_mark, close_mark, 0)
}

/// The first part of a text that stands between an opening and a closing mark.
pub open spec fn first_section(
    text: Seq<char>,
    open_mark: Seq<char>,
    close_mark: Seq<char>,
) -> Result<Seq<char>, DriverError> {
    match sections(text, open_mark, close_mark) {
        Err(error) => Err(error),
        Ok(parts) => if parts.len() == 0 {
            Err(DriverError::Missing)
        } else {
            Ok(parts[0])
        },
    }
}

/// The last digit of a number.
pub open spec fn last_digit(value: nat, radix: nat) -> char {
    let digit = value % radix;
    if digit < 10 {
        ('0' as int + digit) as char
    } else {
        ('a' as int + digit - 10) as char
    }
}

/// The digits of a number, of which zero has none.
pub open spec fn significant_digits(value: nat, radix: nat) -> Seq<char>
    decreases value,
{
    if value == 0 || radix < 2 {
        Seq::empty()
    } else {
        proof {
            assert(value / radix < value) by (nonlinear_arith)
                requires
                    0 < value,
                    2 <= radix,
            ;
        }
        significant_digits(value / radix, radix).push(last_digit(value, radix))
    }
}

/// The digits of a number.
pub open spec fn number_text(value: nat, radix: nat) -> Seq<char> {
    if value == 0 {
        seq!['0']
    } else {
        significant_digits(value, radix)
    }
}

/// A found position lies in the text.
pub proof fn lemma_find_from(text: Seq<char>, pattern: Seq<char>, from: int)
    requires
        0 <= from,
    ensures
        match find_from(text, pattern, from) {
            Some(at) => from <= at && matches_at(text, pattern, at) && forall|i: int|
                from <= i < at ==> !#[trigger] matches_at(text, pattern, i),
            None => forall|i: int| from <= i ==> !#[trigger] matches_at(text, pattern, i),
        },
    decreases text.len() + 1 - from,
{
    if from + pattern.len() <= text.len() && !matches_at(text, pattern, from) {
        lemma_find_from(text, pattern, from + 1);
    }
}

/// A pattern that is searched for backwards is found where it stands last.
pub proof fn lemma_find_back(text: Seq<char>, pattern: Seq<char>, to: int)
    ensures
        match find_back(text, pattern, to) {
            Some(at) => at <= to && matches_at(text, pattern, at) && forall|i: int|
                at < i <= to ==> !#[trigger] matches_at(text, pattern, i),
            None => forall|i: int| i <= to ==> !#[trigger] matches_at(text, pattern, i),
        },
    decreases to + 1,
{
    if to >= 0 && !matches_at(text, pattern, to) {
        lemma_find_back(text, pattern, to - 1);
    }
}

/// A pattern that stands at a position, and at none from `from` on before it, is found there.
pub proof fn lemma_found_at(text: Seq<char>, pattern: Seq<char>, from: int, at: int)
    requires
        0 <= from <= at,
        matches_at(text, pattern, at),
        forall|i: int| from <= i < at ==> !#[trigger] matches_at(text, pattern, i),
    ensures
        find_from(text, pattern, from) == Some(at),
{
    lemma_find_from(text, pattern, from);
    if let Some(found) = find_from(text, pattern, from) {
        if found < at {
            assert(!matches_at(text, pattern, found));
        }
    }
}

/// Whether a text is made up of white space.
pub open spec fn is_space(text: Seq<char>) -> bool {
    forall|i: int| 0 <= i < text.len() ==> is_whitespace(#[trigger] text[i])
}

/// Whether a text neither starts nor ends with white space.
pub open spec fn is_trimmed(text: Seq<char>) -> bool {
    text.len() > 0 ==> !is_whitespace(text[0]) && !is_whitespace(text.last())
}

/// White space around a text is left out, and only that.
pub proof fn lemma_trimmed(before: Seq<char>, text: Seq<char>, after: Seq<char>)
    requires
        is_space(before),
        is_space(after),
        is_trimmed(text),
    ensures
        trimmed(before + text + after) == text,
{
    lemma_trimmed_start(before, text + after);
    assert(before + (text + after) =~= before + text + after);
    if text.len() > 0 {
        assert((text + after)[0] == text[0]);
        assert(trimmed_start(text + after) == text + after);
        lemma_trimmed_end(text, after);
        assert(trimmed_end(text) == text);
    } else {
        assert(text + after =~= after);
        assert(after + Seq::<char>::empty() =~= after);
        lemma_trimmed_start(after, Seq::empty());
        assert(text =~= Seq::<char>::empty());
    }
}

proof fn lemma_trimmed_start(before: Seq<char>, text: Seq<char>)
    requires
        is_space(before),
    ensures
        trimmed_start(before + text) == trimmed_start(text),
    decreases before.len(),
{
    if before.len() > 0 {
        assert((before + text)[0] == before[0]);
        assert(is_whitespace(before[0]));
        assert((before + text).skip(1) =~= before.skip(1) + text);
        assert forall|i: int| 0 <= i < before.skip(1).len() implies is_whitespace(
            #[trigger] before.skip(1)[i],
        ) by {
            assert(is_whitespace(before[i + 1]));
        }
        lemma_trimmed_start(before.skip(1), text);
    } else {
        assert(before + text =~= text);
    }
}

proof fn lemma_trimmed_end(text: Seq<char>, after: Seq<char>)
    requires
        is_space(after),
    ensures
        trimmed_end(text + after) == trimmed_end(text),
    decreases after.len(),
{
    if after.len() > 0 {
        assert((text + after).last() == after.last());
        assert(is_whitespace(after[after.len() - 1]));
        assert((text + after).drop_last() =~= text + after.drop_last());
        assert forall|i: int| 0 <= i < after.drop_last().len() implies is_whitespace(
            #[trigger] after.drop_last()[i],
        ) by {
            assert(is_whitespace(after[i]));
        }
        lemma_trimmed_end(text, after.drop_last());
    } else {
        assert(text + after =~= text);
    }
}

/// The digits of a number, with any number of zeros in front of them, stand for the number.
#[verifier::spinoff_prover]
pub proof fn lemma_digits_read_back(value: nat, radix: nat, zeros: Seq<char>)
    requires
        2 <= radix <= 36,
        forall|i: int| 0 <= i < zeros.len() ==> #[trigger] zeros[i] == '0',
    ensures
        digits_value(zeros + significant_digits(value, radix), radix as int) == Some(value as int),
    decreases value + zeros.len(),
{
    if value == 0 {
        assert(zeros + significant_digits(value, radix) =~= zeros);
        if zeros.len() > 0 {
            let front = zeros.drop_last();
            assert forall|i: int| 0 <= i < front.len() implies #[trigger] front[i] == '0' by {
                assert(zeros[i] == '0');
            }
            lemma_digits_read_back(value, radix, front);
            assert(front + significant_digits(value, radix) =~= front);
            assert(zeros[zeros.len() - 1] == '0');
            assert(digit_value('0', radix as int) == Some(0int));
            assert(0 * (radix as int) + 0 == 0);
        }
    } else {
        let high = value / radix;
        assert(high < value && value == high * radix + value % radix) by (nonlinear_arith)
            requires
                0 < value,
                2 <= radix,
                high == value / radix,
        ;
        lemma_digits_read_back(high, radix, zeros);
        let digits = zeros + significant_digits(value, radix);
        assert(significant_digits(value, radix) == significant_digits(high, radix).push(
            last_digit(value, radix),
        ));
        assert(digits.drop_last() =~= zeros + significant_digits(high, radix));
        assert(digits.last() == last_digit(value, radix));
        lemma_last_digit(value, radix);
        assert(high as int * radix as int + (value % radix) as int == value as int);
    }
}

proof fn lemma_last_digit(value: nat, radix: nat)
    requires
        2 <= radix <= 36,
    ensures
        digit_value(last_digit(value, radix), radix as int) == Some((value % radix) as int),
{
    let digit = value % radix;
    assert(digit < radix);
    if digit < 10 {
        let code = ('0' as int + digit) as u32;
        vstd::utf8::char_u32_cast(last_digit(value, radix), code);
    } else {
        let code = ('a' as int + digit - 10) as u32;
        vstd::utf8::char_u32_cast(last_digit(value, radix), code);
    }
}

/// The text of a number stands for the number, as long as it is not too large.
pub proof fn lemma_number_read_back(value: nat, radix: nat, max: int)
    requires
        2 <= radix <= 36,
        max <= u64::MAX,
    ensures
        number_value(number_text(value, radix), radix as int, max) == (if value <= max {
            Some(value as u64)
        } else {
            None
        }),
{
    let none = Seq::<char>::empty();
    let zero = seq!['0'];
    lemma_digits_read_back(value, radix, none);
    assert(none + significant_digits(value, radix) =~= significant_digits(value, radix));
    if value == 0 {
        lemma_digits_read_back(value, radix, zero);
        assert(zero + significant_digits(value, radix) =~= zero);
    } else {
        lemma_first_digit(value, radix);
    }
}

/// The digits of a number that is not zero do not start with a sign.
pub proof fn lemma_first_digit(value: nat, radix: nat)
    requires
        0 < value,
        2 <= radix <= 36,
    ensures
        significant_digits(value, radix).len() > 0,
        significant_digits(value, radix)[0] != '+',
    decreases value,
{
    let high = value / radix;
    assert(high < value) by (nonlinear_arith)
        requires
            0 < value,
            2 <= radix,
            high == value / radix,
    ;
    lemma_last_digit(value, radix);
    assert(digit_value('+', radix as int) is None);
    let digits = significant_digits(high, radix);
    assert(significant_digits(value, radix) == digits.push(last_digit(value, radix)));
    if high > 0 {
        lemma_first_digit(high, radix);
        assert(significant_digits(value, radix)[0] == digits[0]);
    } else {
        assert(significant_digits(value, radix)[0] == last_digit(value, radix));
    }
}

/// Whether a text has no white space.
pub open spec fn is_word(text: Seq<char>) -> bool {
    text.len() > 0 && forall|i: int| 0 <= i < text.len() ==> !is_whitespace(#[trigger] text[i])
}

proof fn lemma_word_length(word: Seq<char>, rest: Seq<char>)
    requires
        forall|i: int| 0 <= i < word.len() ==> !is_whitespace(#[trigger] word[i]),
        rest.len() > 0 ==> is_whitespace(rest[0]),
    ensures
        word_length(word + rest) == word.len(),
    decreases word.len(),
{
    if word.len() > 0 {
        assert((word + rest)[0] == word[0]);
        assert((word + rest).skip(1) =~= word.skip(1) + rest);
        assert forall|i: int| 0 <= i < word.skip(1).len() implies !is_whitespace(
            #[trigger] word.skip(1)[i],
        ) by {
            assert(!is_whitespace(word[i + 1]));
        }
        lemma_word_length(word.skip(1), rest);
    } else {
        assert(word + rest =~= rest);
    }
}

/// The digits of a number are a word.
pub proof fn lemma_number_word(value: nat)
    ensures
        is_word(number_text(value, 10)),
        forall|i: int|
            0 <= i < number_text(value, 10).len() ==> '0' <= (#[trigger] number_text(value, 10)[i])
                <= '9',
    decreases value,
{
    assert forall|c: char| '0' <= c <= '9' implies !#[trigger] is_whitespace(c) by {}
    if value > 0 {
        lemma_number_word(value / 10);
        reveal_with_fuel(significant_digits, 2);
        let digit = value % 10;
        let code = ('0' as int + digit) as u32;
        vstd::utf8::char_u32_cast(last_digit(value, 10), code);
        let text = number_text(value, 10);
        let front = significant_digits(value / 10, 10);
        assert(text == front.push(last_digit(value, 10)));
        assert forall|i: int| 0 <= i < text.len() implies '0' <= (#[trigger] text[i]) <= '9' by {
            if i < front.len() {
                assert(front[i] == number_text(value / 10, 10)[i]);
            }
        }
        assert forall|i: int| 0 <= i < text.len() implies !is_whitespace(#[trigger] text[i]) by {
            assert('0' <= text[i] <= '9');
        }
    }
}

/// The first word of a text is the one behind the white space at its start, and the words behind it are
/// those of the text behind it.
pub proof fn lemma_words(before: Seq<char>, word: Seq<char>, rest: Seq<char>, index: nat)
    requires
        is_space(before),
        is_word(word),
        rest.len() > 0 ==> is_whitespace(rest[0]),
    ensures
        nth_word(before + word + rest, 0) == word,
        nth_word(before + word + rest, index + 1) == nth_word(rest, index),
{
    let text = before + word + rest;
    assert(before + (word + rest) =~= text);
    lemma_trimmed_start(before, word + rest);
    assert(!is_whitespace(word[0]));
    assert((word + rest)[0] == word[0]);
    lemma_word_length(word, rest);
    assert((word + rest).take(word.len() as int) =~= word);
    assert((word + rest).skip(word.len() as int) =~= rest);
}

/// The parts between marks are those of the first pair of marks, and then those of what follows the
/// pair. A text without an opening mark has none.
pub proof fn lemma_sections(
    text: Seq<char>,
    open_mark: Seq<char>,
    close_mark: Seq<char>,
    from: int,
    at: int,
    end: int,
)
    requires
        0 < open_mark.len(),
        0 < close_mark.len(),
        0 <= from <= at,
        matches_at(text, open_mark, at),
        forall|i: int| from <= i < at ==> !#[trigger] matches_at(text, open_mark, i),
        at + open_mark.len() <= end,
        matches_at(text, close_mark, end),
        forall|i: int|
            at + open_mark.len() <= i < end ==> !#[trigger] matches_at(text, close_mark, i),
    ensures
        sections_from(text, open_mark, close_mark, from) == (match sections_from(
            text,
            open_mark,
            close_mark,
            end + close_mark.len(),
        ) {
            Err(error) => Err(error),
            Ok(rest) => Ok::<Seq<Seq<char>>, DriverError>(
                seq![text.subrange(at + open_mark.len(), end)] + rest,
            ),
        }),
{
    lemma_found_at(text, open_mark, from, at);
    lemma_found_at(text, close_mark, at + open_mark.len(), end);
}

/// A text that has no opening mark from a position on has no parts there.
pub proof fn lemma_no_sections(
    text: Seq<char>,
    open_mark: Seq<char>,
    close_mark: Seq<char>,
    from: int,
)
    requires
        0 < open_mark.len(),
        0 <= from,
        forall|i: int| from <= i ==> !#[trigger] matches_at(text, open_mark, i),
    ensures
        sections_from(text, open_mark, close_mark, from) == Ok::<Seq<Seq<char>>, DriverError>(
            Seq::empty(),
        ),
{
    lemma_find_from(text, open_mark, from);
}

/// The ASCII letters of a text are in lower case, each other character is as it was.
pub proof fn lemma_lowercase(text: Seq<char>, i: int)
    requires
        0 <= i < text.len(),
    ensures
        lowercase(text).len() == text.len(),
        'A' <= text[i] && text[i] <= 'Z' ==> 'a' <= lowercase(text)[i] && lowercase(text)[i] <= 'z'
            && lowercase(text)[i] as int - 'a' as int == text[i] as int - 'A' as int,
        !('A' <= text[i] && text[i] <= 'Z') ==> lowercase(text)[i] == text[i],
        lowercase(lowercase(text)) == lowercase(text),
{
    assert forall|k: int| 0 <= k < text.len() implies #[trigger] lower_char(lower_char(text[k]))
        == lower_char(text[k]) && ('A' <= text[k] && text[k] <= 'Z' ==> lower_char(text[k]) as int
        == text[k] as int + 32) by {
        if 'A' <= text[k] && text[k] <= 'Z' {
            let code = (text[k] as u32 + 32) as u32;
            vstd::utf8::char_u32_cast(lower_char(text[k]), code);
        }
    }
    assert(lower_char(lower_char(text[i])) == lower_char(text[i]));
    assert(lowercase(lowercase(text)) =~= lowercase(text));
}

/// Determines if a text has a pattern at a position.
pub fn has_pattern_at(text: &[char], pattern: &[char], at: usize) -> (found: bool)
    requires
        at <= text@.len(),
    ensures
        found == matches_at(text@, pattern@, at as int),
{
    if pattern.len() > text.len() - at {
        return false;
    }
    let mut index: usize = 0;
    while index < pattern.len()
        invariant
            index <= pattern@.len(),
            at + pattern@.len() <= text@.len(),
            at + pattern@.len() <= usize::MAX,
            forall|i: int| 0 <= i < index ==> text@[at + i] == pattern@[i],
        decreases pattern@.len() - index,
    {
        if text[at + index] != pattern[index] {
            assert(text@.subrange(at as int, at + pattern@.len())[index as int]
                != pattern@[index as int]);
            return false;
        }
        index += 1;
    }
    assert(text@.subrange(at as int, at + pattern@.len()) =~= pattern@);
    true
}

/// Finds the first position from `from` on at which a text has a pattern.
pub fn find_pattern(text: &[char], pattern: &[char], from: usize) -> (position: Option<usize>)
    requires
        from <= text@.len(),
    ensures
        match position {
            Some(at) => find_from(text@, pattern@, from as int) == Some(at as int) && from <= at
                && at + pattern@.len() <= text@.len(),
            None => find_from(text@, pattern@, from as int) is None,
        },
{
    let mut at: usize = from;
    while at < text.len() && pattern.len() <= text.len() - at
        invariant
            from <= at <= text@.len(),
            find_from(text@, pattern@, from as int) == find_from(text@, pattern@, at as int),
        decreases text@.len() - at,
    {
        if has_pattern_at(text, pattern, at) {
            return Some(at);
        }
        at += 1;
    }
    if pattern.len() <= text.len() - at {
        assert(at == text@.len());
        assert(text@.subrange(at as int, at + pattern@.len()) =~= pattern@);
        return Some(at);
    }
    None
}

/// Finds the last position at which a text has a pattern.
pub fn find_last_pattern(text: &[char], pattern: &[char]) -> (position: Option<usize>)
    ensures
        match position {
            Some(at) => find_back(text@, pattern@, text@.len() as int) == Some(at as int) && at
                + pattern@.len() <= text@.len(),
            None => find_back(text@, pattern@, text@.len() as int) is None,
        },
{
    let mut at: usize = text.len();
    loop
        invariant
            at <= text@.len(),
            find_back(text@, pattern@, text@.len() as int) == find_back(text@, pattern@, at as int),
        decreases at,
    {
        if has_pattern_at(text, pattern, at) {
            return Some(at);
        }
        if at == 0 {
            assert(find_back(text@, pattern@, -1) is None);
            return None;
        }
        at = at - 1;
    }
}

/// Removes the white space around a text.
pub fn trim_text(text: &[char]) -> (part: &[char])
    ensures
        part@ == trimmed(text@),
        part@.len() <= text@.len(),
{
    let mut start: usize = 0;
    assert(text@.skip(0) =~= text@);
    while start < text.len() && is_whitespace_char(text[start])
        invariant
            start <= text@.len(),
            trimmed_start(text@) == trimmed_start(text@.skip(start as int)),
        decreases text@.len() - start,
    {
        assert(text@.skip(start as int).skip(1) =~= text@.skip(start + 1));
        start += 1;
    }
    let ghost rest = text@.skip(start as int);
    assert(trimmed_start(text@) == rest);
    let mut end: usize = text.len();
    assert(text@.subrange(start as int, end as int) =~= rest);
    while start < end && is_whitespace_char(text[end - 1])
        invariant
            start <= end <= text@.len(),
            trimmed_end(rest) == trimmed_end(text@.subrange(start as int, end as int)),
        decreases end,
    {
        assert(text@.subrange(start as int, end as int).drop_last() =~= text@.subrange(
            start as int,
            end - 1,
        ));
        end -= 1;
    }
    vstd::slice::slice_subrange(text, start, end)
}

/// Determines if a character is white space.
pub fn is_whitespace_char(c: char) -> (whitespace: bool)
    ensures
        whitespace == is_whitespace(c),
{
    let value: u32 = c as u32;
    (0x09 <= value && value <= 0x0d) || value == 0x20 || value == 0x85 || value == 0xa0 || value
        == 0x1680 || (0x2000 <= value && value <= 0x200a) || value == 0x2028 || value == 0x2029
        || value == 0x202f || value == 0x205f || value == 0x3000
}

/// Converts the ASCII letters of a text to lower case.
pub fn lowercase_text(text: &[char]) -> (lower: Vec<char>)
    ensures
        lower@ == lowercase(text@),
{
    let mut lower: Vec<char> = Vec::new();
    let mut index: usize = 0;
    while index < text.len()
        invariant
            index <= text@.len(),
            lower@ == lowercase(text@).take(index as int),
        decreases text@.len() - index,
    {
        let c: char = text[index];
        let lower_c: char = if 'A' <= c && c <= 'Z' {
            (c as u8 + 32) as char
        } else {
            c
        };
        assert(lowercase(text@).take(index + 1) =~= lowercase(text@).take(index as int).push(
            lower_c,
        ));
        lower.push(lower_c);
        index += 1;
    }
    assert(lowercase(text@).take(index as int) =~= lowercase(text@));
    lower
}

/// Determines if two texts are the same.
pub fn same_text(text: &[char], other: &[char]) -> (same: bool)
    ensures
        same == (text@ == other@),
{
    if text.len() != other.len() {
        return false;
    }
    let same: bool = has_pattern_at(text, other, 0);
    assert(text@.subrange(0, other@.len() as int) =~= text@);
    same
}

/// Copies a part of a text.
pub fn copy_text(text: &[char]) -> (copy: Vec<char>)
    ensures
        copy@ == text@,
{
    let mut copy: Vec<char> = Vec::new();
    let mut index: usize = 0;
    while index < text.len()
        invariant
            index <= text@.len(),
            copy@ == text@.take(index as int),
        decreases text@.len() - index,
    {
        assert(text@.take(index + 1) =~= text@.take(index as int).push(text@[index as int]));
        copy.push(text[index]);
        index += 1;
    }
    assert(text@.take(index as int) =~= text@);
    copy
}

proof fn lemma_digits_prefix(digits: Seq<char>, radix: int, count: int)
    requires
        0 <= count <= digits.len(),
        1 <= radix,
        digits_value(digits, radix) is Some,
    ensures
        digits_value(digits.take(count), radix) is Some,
        0 <= digits_value(digits.take(count), radix)->0 <= digits_value(digits, radix)->0,
    decreases digits.len(),
{
    if count == digits.len() {
        assert(digits.take(count) =~= digits);
        if digits.len() > 0 {
            lemma_digits_prefix(digits.drop_last(), radix, count - 1);
            let high = digits_value(digits.drop_last(), radix)->0;
            assert(0 <= high * radix) by (nonlinear_arith)
                requires
                    0 <= high,
                    1 <= radix,
            ;
        }
    } else {
        lemma_digits_prefix(digits.drop_last(), radix, count);
        assert(digits.drop_last().take(count) =~= digits.take(count));
        let high = digits_value(digits.drop_last(), radix)->0;
        assert(high <= high * radix) by (nonlinear_arith)
            requires
                0 <= high,
                1 <= radix,
        ;
    }
}

fn parse_digit(c: char, radix: u64) -> (value: Option<u64>)
    requires
        2 <= radix <= 36,
    ensures
        match value {
            Some(value) => digit_value(c, radix as int) == Some(value as int) && value < radix,
            None => digit_value(c, radix as int) is None,
        },
{
    let code: u64 = c as u32 as u64;
    let value: u64 = if '0' <= c && c <= '9' {
        code - '0' as u32 as u64
    } else if 'a' <= c && c <= 'z' {
        code - 'a' as u32 as u64 + 10
    } else if 'A' <= c && c <= 'Z' {
        code - 'A' as u32 as u64 + 10
    } else {
        radix
    };
    if value < radix {
        Some(value)
    } else {
        None
    }
}

/// Parses a number.
pub fn parse_number(text: &[char], radix: u64, max: u64) -> (number: Option<u64>)
    requires
        2 <= radix <= 36,
    ensures
        number == number_value(text@, radix as int, max as int),
        number matches Some(value) ==> value <= max,
{
    let start: usize = if text.len() > 0 && text[0] == '+' {
        1
    } else {
        0
    };
    let ghost digits = if text@.len() > 0 && text@[0] == '+' {
        text@.skip(1)
    } else {
        text@
    };
    assert(digits =~= text@.skip(start as int));
    if start == text.len() {
        return None;
    }
    let mut value: u64 = 0;
    let mut index: usize = start;
    while index < text.len()
        invariant
            2 <= radix <= 36,
            start <= index <= text@.len(),
            start < text@.len(),
            digits == text@.skip(start as int),
            digits == (if text@.len() > 0 && text@[0] == '+' {
                text@.skip(1)
            } else {
                text@
            }),
            digits_value(digits.take(index - start), radix as int) == Some(value as int),
            value <= max,
        decreases text@.len() - index,
    {
        let ghost count = index - start;
        proof {
            assert(digits.take(count + 1).drop_last() =~= digits.take(count));
            assert(digits.take(count + 1).last() == text@[index as int]);
            if digits_value(digits, radix as int) is Some {
                lemma_digits_prefix(digits, radix as int, count + 1);
            }
        }
        let digit: u64 = match parse_digit(text[index], radix) {
            Some(digit) => digit,
            None => return None,
        };
        let shifted: u64 = match value.checked_mul(radix) {
            Some(shifted) => shifted,
            None => return None,
        };
        let next: u64 = match shifted.checked_add(digit) {
            Some(next) => next,
            None => return None,
        };
        if next > max {
            return None;
        }
        value = next;
        index += 1;
    }
    assert(digits.take(digits.len() as int) =~= digits);
    Some(value)
}

/// Retrieves the word with an index, of those that white space separates.
pub fn find_word(text: &[char], index: usize) -> (word: &[char])
    ensures
        word@ == nth_word(text@, index as nat),
    decreases index,
{
    let mut start: usize = 0;
    assert(text@.skip(0) =~= text@);
    while start < text.len() && is_whitespace_char(text[start])
        invariant
            start <= text@.len(),
            trimmed_start(text@) == trimmed_start(text@.skip(start as int)),
        decreases text@.len() - start,
    {
        assert(text@.skip(start as int).skip(1) =~= text@.skip(start + 1));
        start += 1;
    }
    let ghost rest = text@.skip(start as int);
    let mut end: usize = start;
    while end < text.len() && !is_whitespace_char(text[end])
        invariant
            start <= end <= text@.len(),
            word_length(rest) == end - start + word_length(text@.skip(end as int)),
            rest == text@.skip(start as int),
        decreases text@.len() - end,
    {
        assert(text@.skip(end as int).skip(1) =~= text@.skip(end + 1));
        end += 1;
    }
    assert(word_length(rest) == end - start);
    if index == 0 {
        assert(rest.take(end - start) =~= text@.subrange(start as int, end as int));
        vstd::slice::slice_subrange(text, start, end)
    } else {
        assert(rest.skip(end - start) =~= text@.subrange(end as int, text@.len() as int));
        find_word(vstd::slice::slice_subrange(text, end, text.len()), index - 1)
    }
}

/// Retrieves the parts of a text that stand between an opening and a closing mark.
pub fn find_sections(text: &[char], open_mark: &[char], close_mark: &[char]) -> (result: Result<
    Vec<Vec<char>>,
    DriverError,
>)
    requires
        0 < open_mark@.len(),
    ensures
        match result {
            Ok(parts) => sections(text@, open_mark@, close_mark@) == Ok::<
                Seq<Seq<char>>,
                DriverError,
            >(texts_view(parts@)),
            Err(error) => sections(text@, open_mark@, close_mark@) == Err::<
                Seq<Seq<char>>,
                DriverError,
            >(error),
        },
{
    let mut parts: Vec<Vec<char>> = Vec::new();
    let mut from: usize = 0;
    let length: usize = text.len();
    let ghost whole = sections(text@, open_mark@, close_mark@);
    proof {
        if whole is Ok {
            assert(texts_view(parts@) + whole->Ok_0 =~= whole->Ok_0);
        }
    }
    loop
        invariant
            from <= text@.len(),
            length == text@.len(),
            0 < open_mark@.len(),
            whole == sections(text@, open_mark@, close_mark@),
            match sections_from(text@, open_mark@, close_mark@, from as int) {
                Ok(rest) => whole == Ok::<Seq<Seq<char>>, DriverError>(texts_view(parts@) + rest),
                Err(error) => whole == Err::<Seq<Seq<char>>, DriverError>(error),
            },
        decreases text@.len() - from,
    {
        let at: usize = match find_pattern(text, open_mark, from) {
            Some(at) => at,
            None => {
                assert(texts_view(parts@) + Seq::<Seq<char>>::empty() =~= texts_view(parts@));
                return Ok(parts);
            },
        };
        let start: usize = at + open_mark.len();
        let end: usize = match find_pattern(text, close_mark, start) {
            Some(end) => end,
            None => return Err(DriverError::Invalid),
        };
        let part: Vec<char> = copy_text(vstd::slice::slice_subrange(text, start, end));
        let ghost before = texts_view(parts@);
        parts.push(part);
        proof {
            assert(texts_view(parts@) =~= before.push(text@.subrange(start as int, end as int)));
            let next = sections_from(text@, open_mark@, close_mark@, end + close_mark@.len());
            if next is Ok {
                let rest = next->Ok_0;
                let section = text@.subrange(start as int, end as int);
                assert(before + (seq![section] + rest) =~= before.push(section) + rest);
            }
        }
        from = end + close_mark.len();
    }
}

/// The characters of each of a list of texts.
pub open spec fn texts_view(texts: Seq<Vec<char>>) -> Seq<Seq<char>> {
    Seq::new(texts.len(), |i: int| texts[i]@)
}

/// Retrieves the first part of a text that stands between an opening and a closing mark.
pub fn find_first_section(text: &[char], open_mark: &[char], close_mark: &[char]) -> (result:
    Result<Vec<char>, DriverError>)
    requires
        0 < open_mark@.len(),
    ensures
        match result {
            Ok(part) => first_section(text@, open_mark@, close_mark@) == Ok::<
                Seq<char>,
                DriverError,
            >(part@),
            Err(error) => first_section(text@, open_mark@, close_mark@) == Err::<
                Seq<char>,
                DriverError,
            >(error),
        },
{
    let parts: Vec<Vec<char>> = find_sections(text, open_mark, close_mark)?;
    if parts.len() == 0 {
        return Err(DriverError::Missing);
    }
    Ok(copy_text(parts[0].as_slice()))
}

/// Appends the digits of a number to a text.
pub fn append_number(text: &mut Vec<char>, value: u64, radix: u64)
    requires
        2 <= radix <= 36,
    ensures
        final(text)@ == old(text)@ + number_text(value as nat, radix as nat),
{
    if value == 0 {
        text.push('0');
        assert(text@ =~= old(text)@ + seq!['0']);
    } else {
        append_significant_digits(text, value, radix);
    }
}

/// Appends the digits of a number to a text, of which zero has none.
pub fn append_significant_digits(text: &mut Vec<char>, value: u64, radix: u64)
    requires
        2 <= radix <= 36,
    ensures
        final(text)@ == old(text)@ + significant_digits(value as nat, radix as nat),
    decreases value,
{
    if value == 0 {
        assert(text@ =~= old(text)@ + Seq::<char>::empty());
        return;
    }
    proof {
        assert(value / radix < value) by (nonlinear_arith)
            requires
                0 < value,
                2 <= radix,
        ;
    }
    append_significant_digits(text, value / radix, radix);
    let digit: u8 = (value % radix) as u8;
    let c: char = if digit < 10 {
        (0x30 + digit) as char
    } else {
        (0x61 + (digit - 10)) as char
    };
    let ghost before = text@;
    text.push(c);
    assert(text@ =~= old(text)@ + significant_digits(value as nat, radix as nat));
}

} // verus!
