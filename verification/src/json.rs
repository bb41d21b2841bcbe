use vstd::prelude::*;

use crate::error::{storage, MemoryError, Result};
use crate::hash::hex_digit;
use crate::text::texts;

verus! {

/// `serde_json::Error`, carried through unread.
#[verifier::external_type_specification]
#[verifier::external_body]
pub struct ExJsonError(serde_json::Error);

/// A character as it stands in a JSON string.
pub open spec fn json_char(c: char) -> Seq<char> {
    if c == '"' || c == '\\' {
        seq!['\\', c]
    } else if c as u32 == 0x08 {
        seq!['\\', 'b']
    } else if c as u32 == 0x09 {
        seq!['\\', 't']
    } else if c as u32 == 0x0a {
        seq!['\\', 'n']
    } else if c as u32 == 0x0c {
        seq!['\\', 'f']
    } else if c as u32 == 0x0d {
        seq!['\\', 'r']
    } else if (c as u32) < 0x20 {
        seq!['\\', 'u', '0', '0', hex_digit(c as int / 16), hex_digit(c as int % 16)]
    } else {
        seq![c]
    }
}

/// The characters of a text as they stand in a JSON string.
pub open spec fn json_chars(s: Seq<char>) -> Seq<char>
    decreases s.len(),
{
    if s.len() == 0 {
        Seq::empty()
    } else {
        json_chars(s.drop_last()) + json_char(s.last())
    }
}

/// Texts as JSON strings, with commas between them.
pub open spec fn json_items(values: Seq<Seq<char>>) -> Seq<char>
    decreases values.len(),
{
    if values.len() == 0 {
        Seq::empty()
    } else {
        let item = seq!['"'] + json_chars(values.last()) + seq!['"'];
        if values.len() == 1 {
            item
        } else {
            json_items(values.drop_last()) + seq![','] + item
        }
    }
}

/// Texts as a JSON array of strings.
pub open spec fn json_array(values: Seq<Seq<char>>) -> Seq<char> {
    seq!['['] + json_items(values) + seq![']']
}

/// The strings that a text lists as a JSON array of strings, if it is one.
pub uninterp spec fn json_strings(text: Seq<char>) -> Option<Seq<Seq<char>>>;

/// `serde_json::to_string` writes a list of strings as a compact JSON array; it cannot fail on
/// one, and `serde_json::from_str` reads the same list back.
#[verifier::external_body]
fn json_of(values: &Vec<String>) -> (r: std::result::Result<String, serde_json::Error>)
    ensures
        r is Ok,
        r->Ok_0@ == json_array(texts(values@)),
        json_strings(r->Ok_0@) == Some(texts(values@)),
{
    serde_json::to_string(values)
}

/// `serde_json::from_str` into a list of strings depends on the text alone; it fails on a text
/// that is no JSON array of strings.
#[verifier::external_body]
fn strings_of(text: &str) -> (r: std::result::Result<Vec<String>, serde_json::Error>)
    ensures
        match r {
            Ok(values) => json_strings(text@) == Some(texts(values@)),
            Err(_) => json_strings(text@) is None,
        },
{
    serde_json::from_str(text)
}

/// The text of a `serde_json::Error` (`Display`): nothing is said of it.
#[verifier::external_body]
fn json_error_text(error: &serde_json::Error) -> String {
    error.to_string()
}

/// A failure to write JSON counts as a failure of the storage layer, with the text of the error.
fn json_storage(error: serde_json::Error) -> (r: MemoryError)
    ensures
        exists|text: String|
            #[trigger] call_ensures(json_error_text, (&error,), text) && r == MemoryError::Storage(
                text,
            ),
{
    storage(json_error_text(&error))
}

/// The form in which a list of strings is stored.
pub fn encode_strings(values: &Vec<String>) -> (r: Result<String>)
    ensures
        r matches Ok(text) && text@ == json_array(texts(values@)) && json_strings(text@) == Some(
            texts(values@),
        ),
{
    match json_of(values) {
        Ok(text) => Ok(text),
        Err(error) => Err(json_storage(error)),
    }
}

/// The stored list of strings; what cannot be read counts as empty.
pub open spec fn stored_strings(text: Seq<char>) -> Seq<Seq<char>> {
    match json_strings(text) {
        Some(values) => values,
        None => Seq::empty(),
    }
}

/// The list of strings that a stored text holds.
pub fn decode_strings(text: &str) -> (r: Vec<String>)
    ensures
        texts(r@) == stored_strings(text@),
{
    match strings_of(text) {
        Ok(values) => values,
        Err(_) => {
            let none: Vec<String> = Vec::new();
            assert(texts(none@) =~= Seq::<Seq<char>>::empty());
            none
        },
    }
}

} // verus!
