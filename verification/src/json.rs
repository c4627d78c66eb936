//! A plain model of the JSON values that the League client answers with,
//! and the accessors the client logic reads them by.

use vstd::prelude::*;
use vstd::string::*;

verus! {

/// A JSON value. Numbers that have an `i64` value are `Int`; any other
/// number (a fraction, or an integer beyond the range of `i64`) is
/// `OtherNumber`. An object lists its members in order.
pub enum JsonValue {
    Null,
    Bool(bool),
    Int(i64),
    OtherNumber,
    Str(String),
    Array(Vec<JsonValue>),
    Object(Vec<(String, JsonValue)>),
}

/// The value of the first member named `key`, if any.
pub open spec fn lookup(members: Seq<(String, JsonValue)>, key: Seq<char>) -> Option<JsonValue>
    decreases members.len(),
{
    if members.len() == 0 {
        None
    } else if members[0].0@ == key {
        Some(members[0].1)
    } else {
        lookup(members.drop_first(), key)
    }
}

/// The member `key` of an object; nothing for a missing member, a value
/// that is no object, or no value.
pub open spec fn field(v: Option<JsonValue>, key: Seq<char>) -> Option<JsonValue> {
    match v {
        Some(JsonValue::Object(members)) => lookup(members@, key),
        _ => None,
    }
}

/// The element at position `i` of an array; nothing when out of range, for
/// a value that is no array, or no value.
pub open spec fn element(v: Option<JsonValue>, i: int) -> Option<JsonValue> {
    match v {
        Some(JsonValue::Array(items)) => if 0 <= i < items@.len() {
            Some(items@[i])
        } else {
            None
        },
        _ => None,
    }
}

/// The integer of an `Int` value.
pub open spec fn as_int(v: Option<JsonValue>) -> Option<i64> {
    match v {
        Some(JsonValue::Int(n)) => Some(n),
        _ => None,
    }
}

/// The text of a string value.
pub open spec fn as_text(v: Option<JsonValue>) -> Option<Seq<char>> {
    match v {
        Some(JsonValue::Str(s)) => Some(s@),
        _ => None,
    }
}

/// The elements of an array value.
pub open spec fn as_items(v: Option<JsonValue>) -> Option<Seq<JsonValue>> {
    match v {
        Some(JsonValue::Array(items)) => Some(items@),
        _ => None,
    }
}

/// The integer of an `Int` value, 0 otherwise.
pub open spec fn int_or_zero(v: Option<JsonValue>) -> i64 {
    match as_int(v) {
        Some(n) => n,
        None => 0,
    }
}

/// The text of a string value, `default` otherwise.
pub open spec fn text_or(v: Option<JsonValue>, default: Seq<char>) -> Seq<char> {
    match as_text(v) {
        Some(s) => s,
        None => default,
    }
}

/// The value a reference points to.
pub open spec fn deref_json(v: Option<&JsonValue>) -> Option<JsonValue> {
    match v {
        Some(x) => Some(*x),
        None => None,
    }
}

/// The member `key` of `v` (as `v[key]` reads it).
pub fn get_field<'a>(v: Option<&'a JsonValue>, key: &str) -> (r: Option<&'a JsonValue>)
    ensures
        deref_json(r) == field(deref_json(v), key@),
{
    match v {
        Some(JsonValue::Object(members)) => {
            let name = String::from_str(key);
            let mut i: usize = 0;
            assert(members@.skip(0) =~= members@);
            while i < members.len()
                invariant
                    i <= members@.len(),
                    name@ == key@,
                    field(deref_json(v), key@) == lookup(members@, key@),
                    lookup(members@, key@) == lookup(members@.skip(i as int), key@),
                decreases members@.len() - i,
            {
                assert(members@.skip(i as int).drop_first() =~= members@.skip(i + 1));
                if members[i].0 == name {
                    assert(members@.skip(i as int)[0] == members@[i as int]);
                    return Some(&members[i].1);
                }
                i = i + 1;
            }
            None
        },
        _ => None,
    }
}

/// The element at position `i` of `v` (as `v[i]` reads it).
pub fn get_element<'a>(v: Option<&'a JsonValue>, i: usize) -> (r: Option<&'a JsonValue>)
    ensures
        deref_json(r) == element(deref_json(v), i as int),
{
    match v {
        Some(JsonValue::Array(items)) => {
            if i < items.len() {
                Some(&items[i])
            } else {
                None
            }
        },
        _ => None,
    }
}

/// The integer of `v` (as `as_i64` reads it).
pub fn get_i64(v: Option<&JsonValue>) -> (r: Option<i64>)
    ensures
        r == as_int(deref_json(v)),
{
    match v {
        Some(JsonValue::Int(n)) => Some(*n),
        _ => None,
    }
}

/// The text of `v` (as `as_str` reads it).
pub fn get_str<'a>(v: Option<&'a JsonValue>) -> (r: Option<&'a str>)
    ensures
        r is Some == as_text(deref_json(v)) is Some,
        r matches Some(s) ==> as_text(deref_json(v)) == Some(s@),
{
    match v {
        Some(JsonValue::Str(s)) => Some(s.as_str()),
        _ => None,
    }
}

/// The elements of `v` (as `as_array` reads it).
pub fn get_array<'a>(v: Option<&'a JsonValue>) -> (r: Option<&'a Vec<JsonValue>>)
    ensures
        r is Some == as_items(deref_json(v)) is Some,
        r matches Some(items) ==> as_items(deref_json(v)) == Some(items@),
{
    match v {
        Some(JsonValue::Array(items)) => Some(items),
        _ => None,
    }
}

/// The integer of `v`, 0 when it has none (`as_i64().unwrap_or(0)`).
pub fn get_i64_or_zero(v: Option<&JsonValue>) -> (r: i64)
    ensures
        r == int_or_zero(deref_json(v)),
{
    match get_i64(v) {
        Some(n) => n,
        None => 0,
    }
}

/// The text of `v`, `default` when it has none (`as_str().unwrap_or(default)`).
pub fn get_str_or(v: Option<&JsonValue>, default: &str) -> (r: String)
    ensures
        r@ == text_or(deref_json(v), default@),
{
    match get_str(v) {
        Some(s) => String::from_str(s),
        None => String::from_str(default),
    }
}

/// A member is read by its first occurrence: `lookup` gives the value of
/// the first member named `key`, and nothing exactly when no member has
/// that name.
pub proof fn lemma_lookup_first(members: Seq<(String, JsonValue)>, key: Seq<char>)
    ensures
        lookup(members, key) matches Some(v) ==> exists|i: int|
            0 <= i < members.len() && members[i].0@ == key && members[i].1 == v && forall|j: int|
                0 <= j < i ==> (#[trigger] members[j]).0@ != key,
        lookup(members, key) is None ==> forall|j: int| 0 <= j < members.len() ==> (#[trigger] members[j]).0@ != key,
    decreases members.len(),
{
    if members.len() > 0 {
        let rest = members.drop_first();
        lemma_lookup_first(rest, key);
        if members[0].0@ == key {
            assert(members[0].1 == members[0].1);
        } else if let Some(v) = lookup(rest, key) {
            let i = choose|i: int|
                0 <= i < rest.len() && rest[i].0@ == key && rest[i].1 == v && forall|j: int|
                    0 <= j < i ==> (#[trigger] rest[j]).0@ != key;
            assert(members[i + 1] == rest[i]);
            assert forall|j: int| 0 <= j < i + 1 implies (#[trigger] members[j]).0@ != key by {
                if j > 0 {
                    assert(members[j] == rest[j - 1]);
                }
            }
        } else {
            assert forall|j: int| 0 <= j < members.len() implies (#[trigger] members[j]).0@ != key by {
                if j > 0 {
                    assert(members[j] == rest[j - 1]);
                }
            }
        }
    }
}

} // verus!
