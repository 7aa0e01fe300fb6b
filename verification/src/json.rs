//! JSON that other programs give and take.

use crate::power::{digits_value, lemma_value_grows};
use crate::strings::strings;
use crate::text::{same_str, to_chars};
use vstd::prelude::*;

verus! {

/// A JSON value. The values in a list or an object come as JSON texts.
#[derive(Debug)]
pub enum JsonValue {
    Null,
    Flag(bool),
    Number(String),
    Text(String),
    List(Vec<String>),
    Object(Vec<(String, String)>),
}

/// A JSON value, in texts.
pub enum JsonModel {
    Null,
    Flag(bool),
    Number(Seq<char>),
    Text(Seq<char>),
    List(Seq<Seq<char>>),
    Object(Seq<(Seq<char>, Seq<char>)>),
}

pub open spec fn members(list: Seq<(String, String)>) -> Seq<(Seq<char>, Seq<char>)> {
    list.map_values(|e: (String, String)| (e.0@, e.1@))
}

pub open spec fn json_model(v: JsonValue) -> JsonModel {
    match v {
        JsonValue::Null => JsonModel::Null,
        JsonValue::Flag(b) => JsonModel::Flag(b),
        JsonValue::Number(n) => JsonModel::Number(n@),
        JsonValue::Text(t) => JsonModel::Text(t@),
        JsonValue::List(l) => JsonModel::List(strings(l@)),
        JsonValue::Object(o) => JsonModel::Object(members(o@)),
    }
}

pub open spec fn json_found(v: Option<JsonValue>) -> Option<JsonModel> {
    match v {
        Some(v) => Some(json_model(v)),
        None => None,
    }
}

/// What `serde_json::from_str` reads from a text; none if the text is not JSON.
pub uninterp spec fn json_document(text: Seq<char>) -> Option<JsonModel>;

/// `serde_json::from_str` for `serde_json::Value`: the value that a JSON text gives, or
/// none if it is not JSON. The result is named; values within it come as texts.
#[verifier::external_body]
pub(crate) fn read_json(text: &str) -> (found: Option<JsonValue>)
    ensures
        json_found(found) == json_document(text@),
{
    Some(match serde_json::from_str::<serde_json::Value>(text).ok()? {
        serde_json::Value::Null => JsonValue::Null,
        serde_json::Value::Bool(b) => JsonValue::Flag(b),
        serde_json::Value::Number(n) => JsonValue::Number(n.to_string()),
        serde_json::Value::String(t) => JsonValue::Text(t),
        serde_json::Value::Array(a) => JsonValue::List(a.iter().map(|v| v.to_string()).collect()),
        serde_json::Value::Object(o) => JsonValue::Object(
            o.into_iter().map(|(k, v)| (k, v.to_string())).collect(),
        ),
    })
}

/// A digit of a number to base sixteen.
pub open spec fn hex_digit(n: int) -> char {
    if n < 10 {
        ('0' as int + n) as char
    } else {
        ('a' as int + n - 10) as char
    }
}

/// How a character stands in a JSON string: quotation marks, backslashes and what is
/// below the space are escaped.
pub open spec fn in_json(c: char) -> Seq<char> {
    if c == '"' || c == '\\' {
        seq!['\\', c]
    } else if c == '\u{8}' {
        seq!['\\', 'b']
    } else if c == '\t' {
        seq!['\\', 't']
    } else if c == '\n' {
        seq!['\\', 'n']
    } else if c == '\u{c}' {
        seq!['\\', 'f']
    } else if c == '\r' {
        seq!['\\', 'r']
    } else if 0x20 > c as int {
        seq!['\\', 'u', '0', '0', hex_digit(c as int / 16), hex_digit(c as int % 16)]
    } else {
        seq![c]
    }
}

/// How characters stand in a JSON string.
pub open spec fn all_in_json(text: Seq<char>) -> Seq<char>
    decreases text.len(),
{
    if text.len() == 0 {
        Seq::empty()
    } else {
        all_in_json(text.drop_last()) + in_json(text.last())
    }
}

/// A text as a JSON string, in quotation marks.
pub open spec fn json_literal(text: Seq<char>) -> Seq<char> {
    seq!['"'] + all_in_json(text) + seq!['"']
}

/// `serde_json::Value`'s `Display` for a string: the string in quotation marks, with
/// what cannot stand there escaped.
#[verifier::external_body]
pub(crate) fn write_literal(text: &str) -> (out: String)
    ensures
        out@ == json_literal(text@),
{
    serde_json::Value::String(text.to_string()).to_string()
}

/// The first member of an object with a key, from a place on.
pub open spec fn member_from(list: Seq<(Seq<char>, Seq<char>)>, key: Seq<char>, from: int) -> Option<
    Seq<char>,
>
    decreases list.len() - from,
{
    if from < 0 || from >= list.len() {
        None
    } else if list[from].0 == key {
        Some(list[from].1)
    } else {
        member_from(list, key, from + 1)
    }
}

/// The member of an object with a key; none if there is none, or no object.
pub open spec fn member(v: Option<JsonModel>, key: Seq<char>) -> Option<Seq<char>> {
    match v {
        Some(JsonModel::Object(o)) => member_from(o, key, 0),
        _ => None,
    }
}

pub open spec fn opt_text(t: Option<String>) -> Option<Seq<char>> {
    match t {
        Some(t) => Some(t@),
        None => None,
    }
}

/// The member of an object with a key.
pub fn get_member(v: &Option<JsonValue>, key: &str) -> (out: Option<String>)
    ensures
        opt_text(out) == member(json_found(*v), key@),
{
    match v {
        Some(JsonValue::Object(o)) => {
            let mut i: usize = 0;
            while i < o.len()
                invariant
                    i <= o@.len(),
                    member(json_found(*v), key@) == member_from(members(o@), key@, 0),
                    member_from(members(o@), key@, 0) == member_from(members(o@), key@, i as int),
                decreases o@.len() - i,
            {
                assert(members(o@)[i as int] == (o@[i as int].0@, o@[i as int].1@));
                if same_str(o[i].0.as_str(), key) {
                    return Some(o[i].1.clone());
                }
                i += 1;
            }
            None
        },
        _ => None,
    }
}

/// What a JSON text says of a key.
pub open spec fn said_of(text: Seq<char>, key: Seq<char>) -> Option<JsonModel> {
    match member(json_document(text), key) {
        Some(t) => json_document(t),
        None => None,
    }
}

/// What a JSON text says of a key.
pub fn read_said(text: &str, key: &str) -> (out: Option<JsonValue>)
    ensures
        json_found(out) == said_of(text@, key@),
{
    let whole = read_json(text);
    match get_member(&whole, key) {
        Some(t) => read_json(t.as_str()),
        None => None,
    }
}

/// The text that a value is, or another.
pub open spec fn text_or(v: Option<JsonModel>, other: Seq<char>) -> Seq<char> {
    match v {
        Some(JsonModel::Text(t)) => t,
        _ => other,
    }
}

/// The text that a value is, or another.
pub fn as_text_or(v: Option<JsonValue>, other: &str) -> (out: String)
    ensures
        out@ == text_or(json_found(v), other@),
{
    match v {
        Some(JsonValue::Text(t)) => t,
        _ => other.to_string(),
    }
}

/// The items that a value holds; none if it is no list.
pub open spec fn items_of(v: Option<JsonModel>) -> Option<Seq<Seq<char>>> {
    match v {
        Some(JsonModel::List(l)) => Some(l),
        _ => None,
    }
}

/// The items that a value holds.
pub fn as_items(v: Option<JsonValue>) -> (out: Option<Vec<String>>)
    ensures
        (match out {
            Some(l) => Some(strings(l@)),
            None => None,
        }) == items_of(json_found(v)),
{
    match v {
        Some(JsonValue::List(l)) => Some(l),
        _ => None,
    }
}

/// Whether a text is digits alone, and at least one.
pub open spec fn all_digits(text: Seq<char>) -> bool {
    &&& text.len() > 0
    &&& forall|i: int| 0 <= i < text.len() ==> '0' <= #[trigger] text[i] <= '9'
}

/// The whole number that a value is; zero if it is none, or one that takes more than 64
/// bits.
pub open spec fn count_or_zero(v: Option<JsonModel>) -> nat {
    match v {
        Some(JsonModel::Number(n)) => if all_digits(n) && digits_value(n, 0, n.len() as int)
            <= u64::MAX {
            digits_value(n, 0, n.len() as int)
        } else {
            0
        },
        _ => 0,
    }
}

fn read_digits(text: &[char]) -> (n: u64)
    ensures
        n == if all_digits(text@) && digits_value(text@, 0, text@.len() as int) <= u64::MAX {
            digits_value(text@, 0, text@.len() as int)
        } else {
            0
        },
{
    let mut value: u128 = 0;
    let mut i: usize = 0;
    while i < text.len()
        invariant
            i <= text@.len(),
            forall|j: int| 0 <= j < i ==> '0' <= #[trigger] text@[j] <= '9',
            value == digits_value(text@, 0, i as int),
            value <= 0xffff_ffff_ffff_ffff,
        decreases text@.len() - i,
    {
        let c: char = text[i];
        if !('0' <= c && c <= '9') {
            return 0;
        }
        value = value * 10 + (c as u128 - '0' as u128);
        i += 1;
        if value > 0xffff_ffff_ffff_ffff {
            proof {
                if all_digits(text@) {
                    lemma_value_grows(text@, 0, i as int, text@.len() as int);
                }
            }
            return 0;
        }
    }
    value as u64
}

/// The whole number that a value is, or zero.
pub fn as_count(v: &Option<JsonValue>) -> (n: u64)
    ensures
        n == count_or_zero(json_found(*v)),
{
    match v {
        Some(JsonValue::Number(t)) => {
            let chars = to_chars(t.as_str());
            read_digits(chars.as_slice())
        },
        _ => 0,
    }
}

} // verus!
