//! JSON values.
//!
//! A `serde_json::Value` is opaque to the proofs. [`contents`] names what it holds, and
//! each function of `serde_json` that the library calls is given a contract over that
//! name. Nothing of `serde_json` is proved: these contracts are what the library
//! relies on.
use serde_json::Value;
use vstd::prelude::*;
use crate::chars;

verus! {

/// What a JSON value holds.
pub enum Json {
    Null,
    Bool(bool),
    /// A number, as the text that it is written as.
    Number(Seq<char>),
    Text(Seq<char>),
    Array(Seq<Json>),
    /// The members, in their order.
    Object(Seq<(Seq<char>, Json)>),
}

/// The value of the first member with the key.
pub open spec fn lookup(members: Seq<(Seq<char>, Json)>, key: Seq<char>) -> Option<Json>
    decreases members.len(),
{
    if members.len() == 0 {
        None
    } else if members[0].0 == key {
        Some(members[0].1)
    } else {
        lookup(members.skip(1), key)
    }
}

/// The member of an object with the key; nothing of a value that is no object.
pub open spec fn member_of(json: Json, key: Seq<char>) -> Option<Json> {
    match json {
        Json::Object(members) => lookup(members, key),
        _ => None,
    }
}

/// The text that the member of an object with the key holds, where it holds one.
pub open spec fn member_text(json: Json, key: Seq<char>) -> Option<Seq<char>> {
    match member_of(json, key) {
        Some(Json::Text(text)) => Some(text),
        _ => None,
    }
}

/// `text` is a whole number of 64 bits, in decimal notation.
pub open spec fn is_integer(text: Seq<char>) -> bool {
    ||| exists|n: nat| n <= u64::MAX && text == #[trigger] chars::decimal(n)
    ||| exists|n: nat|
        0 < n <= 0x8000_0000_0000_0000 && text == seq!['-'] + #[trigger] chars::decimal(n)
}

/// Every number in the value is a whole number, and arrays and objects are nested at
/// most `depth` deep.
pub open spec fn settled(json: Json, depth: nat) -> bool
    decreases json,
{
    match json {
        Json::Number(text) => is_integer(text),
        Json::Array(items) => depth > 0 && forall|i: int|
            0 <= i < items.len() ==> settled(#[trigger] items[i], (depth - 1) as nat),
        Json::Object(members) => depth > 0 && forall|i: int|
            0 <= i < members.len() ==> settled((#[trigger] members[i]).1, (depth - 1) as nat),
        _ => true,
    }
}

/// How deep `serde_json` reads nested arrays and objects.
pub const MAX_DEPTH: usize = 127;

// ---- what is taken from `serde_json` ----

/// `serde_json::Value`.
#[verifier::external_type_specification]
#[verifier::external_body]
pub struct ExValue(serde_json::Value);

/// `serde_json::Error`.
#[verifier::external_type_specification]
#[verifier::external_body]
pub struct ExError(serde_json::Error);

/// What a value holds.
pub uninterp spec fn contents(value: Value) -> Json;

/// What `serde_json::from_str` reads a text as; `None` where it gives an error.
pub uninterp spec fn parsed(text: Seq<char>) -> Option<Json>;

/// What `serde_json::from_slice` reads bytes as; `None` where it gives an error.
pub uninterp spec fn parsed_bytes(bytes: Seq<u8>) -> Option<Json>;

/// What `serde_json::to_string` writes of a value.
pub uninterp spec fn written(json: Json) -> Seq<char>;

/// What `serde_json::to_vec` writes of a value.
pub uninterp spec fn written_bytes(json: Json) -> Seq<u8>;

/// `Value::as_str` gives the text of a value that is a text, and nothing of any other.
pub assume_specification[ serde_json::Value::as_str ](value: &Value) -> (r: Option<&str>)
    ensures
        match r {
            Some(text) => contents(*value) == Json::Text(text@),
            None => !(contents(*value) is Text),
        },
;

/// `Value::as_bool` gives what a boolean value holds, and nothing of any other value.
pub assume_specification[ serde_json::Value::as_bool ](value: &Value) -> (r: Option<bool>)
    ensures
        match r {
            Some(b) => contents(*value) == Json::Bool(b),
            None => !(contents(*value) is Bool),
        },
;

/// `Value::is_null` tells whether a value is null.
pub assume_specification[ serde_json::Value::is_null ](value: &Value) -> (r: bool)
    ensures
        r == (contents(*value) is Null),
;

/// `Value::as_array` gives the items of a value that is an array, and nothing of any
/// other.
pub assume_specification[ serde_json::Value::as_array ](value: &Value) -> (r: Option<&Vec<Value>>)
    ensures
        match r {
            Some(items) => contents(*value) == Json::Array(
                items@.map_values(|item: Value| contents(item)),
            ),
            None => !(contents(*value) is Array),
        },
;

/// The text that the number of a value is displayed as: `Value::as_number`, which gives
/// the number of a value that is one and nothing of any other, and `Number::to_string`.
/// The contents of a number are, by definition, this text.
#[verifier::external_body]
pub(crate) fn number_text(value: &Value) -> (r: Option<String>)
    ensures
        match r {
            Some(text) => contents(*value) == Json::Number(text@),
            None => !(contents(*value) is Number),
        },
{
    match value.as_number() {
        Some(number) => Some(number.to_string()),
        None => None,
    }
}

/// The members of a value that is an object, in order, and nothing of any other:
/// `Value::as_object`, and `Map::iter`, which goes through the members in their order.
/// No two members of a map share a key.
#[verifier::external_body]
pub(crate) fn members<'a>(value: &'a Value) -> (r: Option<Vec<(&'a String, &'a Value)>>)
    ensures
        match r {
            Some(found) => contents(*value) == Json::Object(
                found@.map_values(|m: (&'a String, &'a Value)| (m.0@, contents(*m.1))),
            ) && forall|i: int, j: int|
                0 <= i < j < found@.len() ==> (#[trigger] found@[i]).0@ != (
                #[trigger] found@[j]).0@,
            None => !(contents(*value) is Object),
        },
{
    match value.as_object() {
        Some(map) => Some(map.iter().collect()),
        None => None,
    }
}

/// The member of a value with the key: `Value::get` with a string, which gives nothing of
/// a value that is no object or has no such member. No two members of an object share a
/// key, so it is the first one.
#[verifier::external_body]
pub(crate) fn member<'a>(value: &'a Value, key: &str) -> (r: Option<&'a Value>)
    ensures
        match r {
            Some(found) => member_of(contents(*value), key@) == Some(contents(*found)),
            None => member_of(contents(*value), key@) is None,
        },
{
    value.get(key)
}

/// Reads a JSON text with `serde_json::from_str`. What it gives depends on the text alone.
#[verifier::external_body]
pub(crate) fn parse(text: &str) -> (r: Option<Value>)
    ensures
        match r {
            Some(value) => parsed(text@) == Some(contents(value)),
            None => parsed(text@) is None,
        },
{
    serde_json::from_str(text).ok()
}

/// Reads JSON bytes with `serde_json::from_slice`. What it gives depends on the bytes
/// alone.
#[verifier::external_body]
pub(crate) fn parse_bytes(bytes: &[u8]) -> (r: Result<Value, serde_json::Error>)
    ensures
        match r {
            Ok(value) => parsed_bytes(bytes@) == Some(contents(value)),
            Err(_) => parsed_bytes(bytes@) is None,
        },
{
    serde_json::from_slice(bytes)
}

/// Writes a value as a JSON text with `serde_json::to_string`. What it gives depends on
/// the contents alone. It does not fail: every key of a value's maps is a string, and
/// writing to memory does not fail.
#[verifier::external_body]
pub(crate) fn write(value: &Value) -> (r: String)
    ensures
        r@ == written(contents(*value)),
{
    serde_json::to_string(value).unwrap_or_default()
}

/// Writes a value as JSON bytes with `serde_json::to_vec`. What it gives depends on the
/// contents alone, and it does not fail, as [`write()`] does not. `serde_json::from_slice`
/// reads it back as the same value where every number is a whole number of 64 bits (it may
/// read another as the next representable one) and nothing is nested deeper than it reads.
#[verifier::external_body]
pub(crate) fn write_bytes(value: &Value) -> (r: Result<Vec<u8>, serde_json::Error>)
    ensures
        r is Ok,
        (r->Ok_0)@ == written_bytes(contents(*value)),
        settled(contents(*value), MAX_DEPTH as nat) ==> parsed_bytes((r->Ok_0)@) == Some(
            contents(*value),
        ),
{
    serde_json::to_vec(value)
}

/// A copy of a value, by `Value::clone`.
#[verifier::external_body]
pub(crate) fn copy(value: &Value) -> (r: Value)
    ensures
        contents(r) == contents(*value),
{
    value.clone()
}

/// The value null, `Value::Null`.
#[verifier::external_body]
pub(crate) fn null() -> (r: Value)
    ensures
        contents(r) == Json::Null,
{
    Value::Null
}

/// A text as a value, by `Value::from`.
#[verifier::external_body]
pub(crate) fn text(s: &str) -> (r: Value)
    ensures
        contents(r) == Json::Text(s@),
{
    Value::from(s)
}

/// A boolean as a value, by `Value::from`.
#[verifier::external_body]
pub(crate) fn boolean(b: bool) -> (r: Value)
    ensures
        contents(r) == Json::Bool(b),
{
    Value::from(b)
}

/// A whole number as a value, by `Value::from`: it is displayed in decimal notation.
#[verifier::external_body]
pub(crate) fn number(n: u64) -> (r: Value)
    ensures
        contents(r) == Json::Number(chars::decimal(n as nat)),
{
    Value::from(n)
}

/// An array of the items, by `Value::from`, which keeps their order.
#[verifier::external_body]
pub(crate) fn array(items: Vec<Value>) -> (r: Value)
    ensures
        contents(r) == Json::Array(items@.map_values(|item: Value| contents(item))),
{
    Value::from(items)
}

/// No two members share a key.
pub open spec fn distinct_keys(members: Seq<(String, Value)>) -> bool {
    forall|i: int, j: int|
        0 <= i < j < members.len() ==> (#[trigger] members[i]).0@ != (#[trigger] members[j]).0@
}

/// An object of the members, by `Map::from_iter`, which keeps their order.
#[verifier::external_body]
pub(crate) fn object(members: Vec<(String, Value)>) -> (r: Value)
    requires
        distinct_keys(members@),
    ensures
        contents(r) == Json::Object(
            members@.map_values(|m: (String, Value)| (m.0@, contents(m.1))),
        ),
{
    Value::Object(members.into_iter().collect())
}

// ---- objects ----

/// An object of one member.
pub fn object_of_one(first: (&str, Value)) -> (r: Value)
    ensures
        contents(r) == Json::Object(seq![(first.0@, contents(first.1))]),
{
    let mut members: Vec<(String, Value)> = Vec::new();
    members.push((chars::owned(first.0), first.1));
    proof {
        assert(members@.map_values(|m: (String, Value)| (m.0@, contents(m.1))) =~= seq![
            (first.0@, contents(first.1)),
        ]);
    }
    object(members)
}

/// An object of two members.
pub fn object_of_two(first: (&str, Value), second: (&str, Value)) -> (r: Value)
    requires
        first.0@ != second.0@,
    ensures
        contents(r) == Json::Object(
            seq![(first.0@, contents(first.1)), (second.0@, contents(second.1))],
        ),
{
    let mut members: Vec<(String, Value)> = Vec::new();
    members.push((chars::owned(first.0), first.1));
    members.push((chars::owned(second.0), second.1));
    proof {
        assert(members@.map_values(|m: (String, Value)| (m.0@, contents(m.1))) =~= seq![
            (first.0@, contents(first.1)),
            (second.0@, contents(second.1)),
        ]);
    }
    object(members)
}

/// An object of three members.
pub fn object_of_three(first: (&str, Value), second: (&str, Value), third: (&str, Value)) -> (r:
    Value)
    requires
        first.0@ != second.0@,
        first.0@ != third.0@,
        second.0@ != third.0@,
    ensures
        contents(r) == Json::Object(
            seq![
                (first.0@, contents(first.1)),
                (second.0@, contents(second.1)),
                (third.0@, contents(third.1)),
            ],
        ),
{
    let mut members: Vec<(String, Value)> = Vec::new();
    members.push((chars::owned(first.0), first.1));
    members.push((chars::owned(second.0), second.1));
    members.push((chars::owned(third.0), third.1));
    proof {
        assert(members@.map_values(|m: (String, Value)| (m.0@, contents(m.1))) =~= seq![
            (first.0@, contents(first.1)),
            (second.0@, contents(second.1)),
            (third.0@, contents(third.1)),
        ]);
    }
    object(members)
}

/// An object without members.
pub fn empty_object() -> (r: Value)
    ensures
        contents(r) == Json::Object(Seq::<(Seq<char>, Json)>::empty()),
{
    let members: Vec<(String, Value)> = Vec::new();
    proof {
        assert(members@.map_values(|m: (String, Value)| (m.0@, contents(m.1))) =~= Seq::<
            (Seq<char>, Json),
        >::empty());
    }
    object(members)
}

/// The text that the member of an object with the key holds; empty where it holds none.
pub fn text_or_empty<'a>(value: &'a Value, key: &str) -> (r: &'a str)
    ensures
        r@ == match member_text(contents(*value), key@) {
            Some(text) => text,
            None => Seq::<char>::empty(),
        },
{
    proof {
        reveal_strlit("");
        assert(""@ =~= Seq::<char>::empty());
    }
    match member(value, key) {
        Some(found) => match found.as_str() {
            Some(text) => text,
            None => "",
        },
        None => "",
    }
}

} // verus!
