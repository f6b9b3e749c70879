//! The parts of HTTP that a request and a response are made of.

use vstd::prelude::*;

verus! {

/// A character that a method may be written with.
pub open spec fn is_method_char(c: char) -> bool {
    ||| 'a' <= c <= 'z'
    ||| 'A' <= c <= 'Z'
    ||| '0' <= c <= '9'
    ||| c == '!' || c == '#' || c == '$' || c == '%' || c == '&' || c == '\'' || c == '*' || c == '+'
    ||| c == '-' || c == '.' || c == '^' || c == '_' || c == '`' || c == '|' || c == '~'
}

/// A text that names a method: any number of such characters, but not none.
pub open spec fn is_method(text: Seq<char>) -> bool {
    text.len() > 0 && forall|i: int| 0 <= i < text.len() ==> is_method_char(#[trigger] text[i])
}

/// Calls `reqwest::Method::from_bytes` with the bytes of the text: it takes a text that
/// is not empty and holds only the characters of a token, and refuses any other.
#[verifier::external_body]
pub(crate) fn method_is_known(method: &str) -> (r: bool)
    ensures
        r == is_method(method@),
{
    reqwest::Method::from_bytes(method.as_bytes()).is_ok()
}

/// The reason phrase that `reqwest::StatusCode::canonical_reason` has for a status.
pub uninterp spec fn reason_phrase(status: u16) -> Option<Seq<char>>;

/// Calls `reqwest::StatusCode::from_u16` and `reqwest::StatusCode::canonical_reason`:
/// the standard reason phrase of the status, named by [`reason_phrase`], or `None` where
/// there is none or the number is no status.
#[verifier::external_body]
pub(crate) fn canonical_reason(status: u16) -> (r: Option<String>)
    ensures
        match r {
            Some(text) => reason_phrase(status) == Some(text@),
            None => reason_phrase(status) is None,
        },
{
    match reqwest::StatusCode::from_u16(status) {
        Ok(code) => match code.canonical_reason() {
            Some(text) => Some(text.to_string()),
            None => None,
        },
        Err(_) => None,
    }
}

/// A byte that may stand in the text of a header: a visible character of ASCII, a
/// space, or a tab.
pub open spec fn is_header_byte(b: u8) -> bool {
    32 <= b < 127 || b == 9
}

/// The text of a header's bytes, if they are all such bytes.
pub open spec fn header_text(bytes: Seq<u8>) -> Option<Seq<char>> {
    if forall|i: int| 0 <= i < bytes.len() ==> is_header_byte(#[trigger] bytes[i]) {
        Some(bytes.map_values(|b: u8| b as char))
    } else {
        None
    }
}

/// The text of a header's bytes, if they are all of visible ASCII.
pub fn header_text_of(bytes: &Vec<u8>) -> (r: Option<String>)
    ensures
        match r {
            Some(text) => header_text(bytes@) == Some(text@),
            None => header_text(bytes@) is None,
        },
{
    let ghost all = bytes@.map_values(|b: u8| b as char);
    let mut out = String::new();
    for i in 0..bytes.len()
        invariant
            all == bytes@.map_values(|b: u8| b as char),
            out@ == all.take(i as int),
            forall|j: int| 0 <= j < i ==> is_header_byte(#[trigger] bytes@[j]),
    {
        let b = bytes[i];
        if !((32 <= b && b < 127) || b == 9) {
            assert(!is_header_byte(bytes@[i as int]));
            return None;
        }
        out.push(b as char);
        assert(all.take(i + 1) == all.take(i as int).push(all[i as int]));
    }
    assert(all.take(all.len() as int) == all);
    Some(out)
}

/// A header's value is text if and only if each of its bytes is a tab or lies between a
/// space and a tilde; the text is then those bytes, character by character.
pub proof fn a_header_value_is_read_byte_by_byte(bytes: Seq<u8>)
    ensures
        header_text(bytes) is Some <==> forall|i: int|
            0 <= i < bytes.len() ==> 0x20 <= #[trigger] bytes[i] <= 0x7e || bytes[i] == 0x09,
        header_text(bytes) matches Some(text) ==> text.len() == bytes.len() && forall|i: int|
            0 <= i < bytes.len() ==> #[trigger] text[i] as int == bytes[i] as int,
{
    assert forall|i: int| 0 <= i < bytes.len() implies is_header_byte(#[trigger] bytes[i]) == (0x20
        <= bytes[i] <= 0x7e || bytes[i] == 0x09) by {}
    if forall|i: int|
        0 <= i < bytes.len() ==> 0x20 <= #[trigger] bytes[i] <= 0x7e || bytes[i] == 0x09 {
        assert forall|i: int| 0 <= i < bytes.len() implies is_header_byte(#[trigger] bytes[i]) by {}
    }
    if header_text(bytes) is Some {
        assert forall|i: int| 0 <= i < bytes.len() implies 0x20 <= #[trigger] bytes[i] <= 0x7e
            || bytes[i] == 0x09 by {
            assert(is_header_byte(bytes[i]));
        }
    }
}

/// A method is written with at least one character, and each is a letter or a digit of
/// ASCII or one of fifteen marks.
pub proof fn a_method_is_a_token(text: Seq<char>)
    ensures
        is_method(text) <==> text.len() > 0 && forall|i: int|
            0 <= i < text.len() ==> {
                ||| 'a' <= #[trigger] text[i] <= 'z'
                ||| 'A' <= text[i] <= 'Z'
                ||| '0' <= text[i] <= '9'
                ||| "!#$%&'*+-.^_`|~"@.contains(text[i])
            },
{
    reveal_strlit("!#$%&'*+-.^_`|~");
    let marks = "!#$%&'*+-.^_`|~"@;
    assert(marks == seq![
        '!',
        '#',
        '$',
        '%',
        '&',
        '\'',
        '*',
        '+',
        '-',
        '.',
        '^',
        '_',
        '`',
        '|',
        '~',
    ]);
    assert forall|c: char| #[trigger] is_method_char(c) <==> {
        ||| 'a' <= c <= 'z'
        ||| 'A' <= c <= 'Z'
        ||| '0' <= c <= '9'
        ||| marks.contains(c)
    } by {
        assert(marks.contains(marks[0]) && marks.contains(marks[1]) && marks.contains(marks[2]));
        assert(marks.contains(marks[3]) && marks.contains(marks[4]) && marks.contains(marks[5]));
        assert(marks.contains(marks[6]) && marks.contains(marks[7]) && marks.contains(marks[8]));
        assert(marks.contains(marks[9]) && marks.contains(marks[10]) && marks.contains(marks[11]));
        assert(marks.contains(marks[12]) && marks.contains(marks[13]) && marks.contains(marks[14]));
    }
    if is_method(text) {
        assert forall|i: int| 0 <= i < text.len() implies {
            ||| 'a' <= #[trigger] text[i] <= 'z'
            ||| 'A' <= text[i] <= 'Z'
            ||| '0' <= text[i] <= '9'
            ||| marks.contains(text[i])
        } by {
            assert(is_method_char(text[i]));
        }
    }
}

} // verus!
