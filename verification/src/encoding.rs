//! Encoded data.

use keramics_encodings::Base64Stream;
use vstd::prelude::*;

verus! {

/// The stream of the values of Base64 text of the `keramics_encodings` crate.
#[verifier::external_type_specification]
#[verifier::external_body]
pub struct ExBase64Stream<'a>(keramics_encodings::Base64Stream<'a>);

/// The values that a stream gives yet, and whether it ends after them. Where it does not, what
/// follows is not valid.
pub uninterp spec fn stream_values(stream: keramics_encodings::Base64Stream) -> (Seq<u8>, bool);

/// The six bits that a character of Base64 text stands for, if it stands for any.
pub open spec fn base64_bits(c: u8) -> Option<int> {
    if 0x41 <= c <= 0x5a {
        Some(c - 0x41)
    } else if 0x61 <= c <= 0x7a {
        Some(c - 0x61 + 26)
    } else if 0x30 <= c <= 0x39 {
        Some(c - 0x30 + 52)
    } else if c == 0x2b {
        Some(62)
    } else if c == 0x2f {
        Some(63)
    } else {
        None
    }
}

/// Whether a character of Base64 text is white space.
pub open spec fn is_base64_space(c: u8) -> bool {
    c == 0x09 || c == 0x0a || c == 0x0b || c == 0x0d || c == 0x20
}

/// The values that Base64 text from an offset on gives, and whether it ends after them. The last
/// `count` bits of the text before, which are `bits`, are not part of a value yet: there are none,
/// six, four or two.
pub open spec fn base64_from(text: Seq<u8>, offset: int, bits: int, count: int) -> (Seq<u8>, bool)
    decreases text.len() - offset,
{
    if offset < 0 || offset >= text.len() || text[offset] == 0x3d {
        (Seq::empty(), true)
    } else if is_base64_space(text[offset]) {
        base64_from(text, offset + 1, bits, count)
    } else {
        match base64_bits(text[offset]) {
            None => (Seq::empty(), false),
            Some(more) => {
                let all = 64 * bits + more;
                if count == 0 {
                    base64_from(text, offset + 1, more, 6)
                } else {
                    let (value, rest, left) = if count == 6 {
                        (all / 16, all % 16, 4int)
                    } else if count == 4 {
                        (all / 4, all % 4, 2int)
                    } else {
                        (all, 0int, 0int)
                    };
                    let (values, ends) = base64_from(text, offset + 1, rest, left);
                    (seq![value as u8] + values, ends)
                }
            },
        }
    }
}

/// The values that Base64 text gives, and whether it ends after them. White space in the text does
/// not count, and padding ends it. Bits that are left over do not count either.
pub open spec fn base64_values(text: Seq<u8>) -> (Seq<u8>, bool) {
    base64_from(text, 0, 0, 0)
}

/// The data that Base64 text stands for, if it is valid.
pub open spec fn base64_decoded(text: Seq<u8>) -> Option<Seq<u8>> {
    if base64_values(text).1 {
        Some(base64_values(text).0)
    } else {
        None
    }
}

/// The character that stands for six bits.
pub open spec fn base64_character(bits: int) -> u8 {
    if bits < 26 {
        (0x41 + bits) as u8
    } else if bits < 52 {
        (0x61 + bits - 26) as u8
    } else if bits < 62 {
        (0x30 + bits - 52) as u8
    } else if bits == 62 {
        0x2b
    } else {
        0x2f
    }
}

/// Data as Base64 text: four characters for every three bytes, from the highest bits on. Fewer bytes at
/// the end are filled up with zeros, and padding stands for what is missing.
pub open spec fn base64_encoded(data: Seq<u8>) -> Seq<u8>
    decreases data.len(),
{
    if data.len() == 0 {
        Seq::empty()
    } else if data.len() == 1 {
        seq![
            base64_character(data[0] as int / 4),
            base64_character(data[0] % 4 * 16),
            0x3du8,
            0x3du8,
        ]
    } else if data.len() == 2 {
        seq![
            base64_character(data[0] as int / 4),
            base64_character(data[0] % 4 * 16 + data[1] / 16),
            base64_character(data[1] % 16 * 4),
            0x3du8,
        ]
    } else {
        seq![
            base64_character(data[0] as int / 4),
            base64_character(data[0] % 4 * 16 + data[1] / 16),
            base64_character(data[1] % 16 * 4 + data[2] / 64),
            base64_character(data[2] as int % 64),
        ] + base64_encoded(data.skip(3))
    }
}

proof fn lemma_base64_character(bits: int)
    requires
        0 <= bits < 64,
    ensures
        base64_bits(base64_character(bits)) == Some(bits),
        base64_character(bits) != 0x3d,
        !is_base64_space(base64_character(bits)),
{
}

/// Data that is encoded as Base64 text is decoded to what it was.
pub proof fn lemma_base64_decoded(data: Seq<u8>)
    ensures
        base64_decoded(base64_encoded(data)) == Some(data),
{
    let text = base64_encoded(data);
    assert(Seq::<u8>::empty() + text =~= text);
    lemma_base64_from(Seq::empty(), data);
}

proof fn lemma_base64_from(before: Seq<u8>, data: Seq<u8>)
    ensures
        base64_from(before + base64_encoded(data), before.len() as int, 0, 0) == (data, true),
    decreases data.len(),
{
    let text = before + base64_encoded(data);
    let at = before.len() as int;
    if data.len() == 0 {
        assert(data =~= Seq::empty());
    } else {
        let first = data[0] / 4;
        let group = base64_encoded(data);
        assert(text[at] == group[0] && text[at + 1] == group[1]);
        assert(text[at + 2] == group[2] && text[at + 3] == group[3]);
        lemma_base64_character(first as int);
        if data.len() == 1 {
            let second = data[0] % 4 * 16;
            lemma_base64_character(second);
            assert(base64_from(text, at + 2, 0, 4) == (Seq::<u8>::empty(), true));
            assert(64 * first + second == 16 * data[0]);
            assert(base64_from(text, at + 1, first as int, 6) == (seq![data[0]] + Seq::empty(), true));
            assert(seq![data[0]] + Seq::empty() =~= data);
        } else {
            let second = data[0] % 4 * 16 + data[1] / 16;
            lemma_base64_character(second);
            assert(64 * first + second == 16 * data[0] + data[1] / 16);
            if data.len() == 2 {
                let third = data[1] % 16 * 4;
                lemma_base64_character(third);
                assert(base64_from(text, at + 3, 0, 2) == (Seq::<u8>::empty(), true));
                assert(64 * (data[1] / 16) + third == 4 * data[1]);
                assert(base64_from(text, at + 2, (data[1] / 16) as int, 4) == (
                    seq![data[1]] + Seq::empty(),
                    true,
                ));
                assert(seq![data[0]] + (seq![data[1]] + Seq::empty()) =~= data);
            } else {
                let third = data[1] % 16 * 4 + data[2] / 64;
                let fourth = data[2] % 64;
                lemma_base64_character(third);
                lemma_base64_character(fourth as int);
                let rest = data.skip(3);
                let more = before + group.take(4);
                assert(more + base64_encoded(rest) =~= text);
                lemma_base64_from(more, rest);
                assert(base64_from(text, at + 4, 0, 0) == (rest, true));
                assert(64 * (data[2] / 64) + fourth == data[2]);
                assert(base64_from(text, at + 3, (data[2] / 64) as int, 2) == (
                    seq![data[2]] + rest,
                    true,
                ));
                assert(64 * (data[1] / 16) + third == 4 * data[1] + data[2] / 64);
                assert(base64_from(text, at + 2, (data[1] / 16) as int, 4) == (
                    seq![data[1]] + (seq![data[2]] + rest),
                    true,
                ));
                assert(base64_from(text, at + 1, first as int, 6) == (
                    seq![data[0]] + (seq![data[1]] + (seq![data[2]] + rest)),
                    true,
                ));
                assert(seq![data[0]] + (seq![data[1]] + (seq![data[2]] + rest)) =~= data);
            }
        }
    }
}

/// White space in Base64 text does not count.
pub proof fn lemma_base64_space(text: Seq<u8>, at: int, bits: int, count: int)
    requires
        0 <= at < text.len(),
        text[at] == 0x20 || text[at] == 0x0a || text[at] == 0x0d || text[at] == 0x09,
    ensures
        base64_from(text, at, bits, count) == base64_from(text, at + 1, bits, count),
{
}

/// Creates a stream that skips white space with `Base64Stream::new`. It gives the values that the
/// text stands for, up to padding, the end or a character that is not valid.
#[verifier::external_body]
fn new_base64_stream(text: &[u8]) -> (stream: Base64Stream)
    ensures
        stream_values(stream) == base64_values(text@),
{
    Base64Stream::new(text, 0, true)
}

/// Retrieves a value with `Base64Stream::get_value`: the next one while there is one, nothing at the
/// end of the stream, and an error, which is `None`, where what follows is not valid.
#[verifier::external_body]
fn get_base64_value(stream: &mut Base64Stream) -> (result: Option<Option<u8>>)
    ensures
        ({
            let (values, ends) = stream_values(*old(stream));
            if values.len() > 0 {
                &&& result == Some(Some(values[0]))
                &&& stream_values(*final(stream)) == (values.skip(1), ends)
            } else if ends {
                result == Some(None::<u8>)
            } else {
                result is None
            }
        }),
{
    stream.get_value().ok()
}

/// Decodes Base64 text.
pub fn base64_decode(text: &[u8]) -> (result: Option<Vec<u8>>)
    ensures
        match result {
            Some(data) => base64_decoded(text@) == Some(data@),
            None => base64_decoded(text@) is None,
        },
{
    let mut stream = new_base64_stream(text);
    let mut data: Vec<u8> = Vec::new();
    let ghost (all, ends) = base64_values(text@);
    assert(all.skip(0) =~= all);
    loop
        invariant
            (all, ends) == base64_values(text@),
            data@.len() <= all.len(),
            data@ == all.take(data@.len() as int),
            stream_values(stream) == (all.skip(data@.len() as int), ends),
        decreases all.len() - data@.len(),
    {
        let count: usize = data.len();
        match get_base64_value(&mut stream) {
            None => {
                return None;
            },
            Some(None) => {
                assert(data@ =~= all);
                return Some(data);
            },
            Some(Some(value)) => {
                data.push(value);
                assert(all.skip(count as int).skip(1) =~= all.skip(count + 1));
                assert(data@ =~= all.take(count + 1));
            },
        }
    }
}

} // verus!
