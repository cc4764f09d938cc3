//! JSON documents as plain values.

use serde_json::Value;
use vstd::prelude::*;

use crate::text::same;

verus! {

/// A JSON document. A number that is not an integer is held as it is written.
#[derive(Debug)]
pub enum Json {
    Null,
    Bool(bool),
    Integer(i128),
    Fraction(String),
    Text(String),
    Array(Vec<Json>),
    Object(Vec<(String, Json)>),
}

/// A document as `serde_json` holds it.
#[verifier::external_type_specification]
#[verifier::external_body]
pub struct ExValue(serde_json::Value);

/// What `serde_json::from_str` reads in a text: the document, or nothing if the text is not JSON.
pub uninterp spec fn parsed(text: Seq<char>) -> Option<Json>;

/// The document that a `serde_json::Value` holds: the same tree of the same values. Nothing is
/// claimed of it; `parse` says what it is for.
#[verifier::external_body]
fn from_value(value: Value) -> Json {
    match value {
        Value::Null => Json::Null,
        Value::Bool(b) => Json::Bool(b),
        Value::Number(n) => n.as_i128().map_or_else(
            || Json::Fraction(n.to_string()),
            Json::Integer,
        ),
        Value::String(s) => Json::Text(s),
        Value::Array(items) => Json::Array(items.into_iter().map(from_value).collect()),
        Value::Object(map) => Json::Object(
            map.into_iter().map(|(key, item)| (key, from_value(item))).collect(),
        ),
    }
}

/// Reads a text with `serde_json::from_str`. Claimed: the result is determined by the text. What
/// the grammar of JSON makes of it is named, not described.
#[verifier::external_body]
pub(crate) fn parse(text: &str) -> (r: Option<Json>)
    ensures
        r == parsed(text@),
{
    serde_json::from_str::<Value>(text).ok().map(from_value)
}

/// The first entry with the given key at or after `from`.
pub open spec fn entry(entries: Seq<(String, Json)>, key: Seq<char>, from: int) -> Option<Json>
    decreases entries.len() - from,
{
    if from < 0 || from >= entries.len() {
        None
    } else if entries[from].0@ == key {
        Some(entries[from].1)
    } else {
        entry(entries, key, from + 1)
    }
}

/// The value of a field of an object. Nothing for other documents.
pub open spec fn field(doc: Json, key: Seq<char>) -> Option<Json> {
    match doc {
        Json::Object(entries) => entry(entries@, key, 0),
        _ => None,
    }
}

/// The text of a string. Nothing for other documents.
pub open spec fn text_of(doc: Option<Json>) -> Option<Seq<char>> {
    match doc {
        Some(Json::Text(s)) => Some(s@),
        _ => None,
    }
}

/// The first item of an array. Nothing for other documents.
pub open spec fn first_of(doc: Option<Json>) -> Option<Json> {
    match doc {
        Some(Json::Array(items)) => if items@.len() > 0 {
            Some(items@[0])
        } else {
            None
        },
        _ => None,
    }
}

/// An unsigned number. Nothing for other documents.
pub open spec fn unsigned_of(doc: Option<Json>) -> Option<int> {
    match doc {
        Some(Json::Integer(n)) => if 0 <= n <= u64::MAX {
            Some(n as int)
        } else {
            None
        },
        _ => None,
    }
}

/// What an optional reference refers to.
pub open spec fn target(doc: Option<&Json>) -> Option<Json> {
    match doc {
        Some(d) => Some(*d),
        None => None,
    }
}

impl Json {
    /// The value of a field of an object.
    pub fn get(&self, key: &str) -> (r: Option<&Json>)
        ensures
            target(r) == field(*self, key@),
    {
        match self {
            Json::Object(entries) => {
                let mut i: usize = 0;
                while i < entries.len()
                    invariant
                        *self == Json::Object(*entries),
                        i <= entries@.len(),
                        entry(entries@, key@, 0) == entry(entries@, key@, i as int),
                    decreases entries.len() - i,
                {
                    if same(entries[i].0.as_str(), key) {
                        return Some(&entries[i].1);
                    }
                    i = i + 1;
                }
                None
            },
            _ => None,
        }
    }

    /// The text of a string.
    pub fn as_str(&self) -> (r: Option<&String>)
        ensures
            match r {
                Some(s) => text_of(Some(*self)) == Some(s@),
                None => text_of(Some(*self)) is None,
            },
    {
        match self {
            Json::Text(s) => Some(s),
            _ => None,
        }
    }

    /// The items of an array.
    pub fn as_array(&self) -> (r: Option<&Vec<Json>>)
        ensures
            match r {
                Some(items) => *self == Json::Array(*items),
                None => !(*self is Array),
            },
    {
        match self {
            Json::Array(items) => Some(items),
            _ => None,
        }
    }

    /// The first item of an array.
    pub fn first(&self) -> (r: Option<&Json>)
        ensures
            target(r) == first_of(Some(*self)),
    {
        match self {
            Json::Array(items) => if items.len() > 0 {
                Some(&items[0])
            } else {
                None
            },
            _ => None,
        }
    }

    /// An unsigned number.
    pub fn as_u64(&self) -> (r: Option<u64>)
        ensures
            match r {
                Some(n) => unsigned_of(Some(*self)) == Some(n as int),
                None => unsigned_of(Some(*self)) is None,
            },
    {
        match self {
            Json::Integer(n) => if *n >= 0 && *n <= 0xffff_ffff_ffff_ffff {
                Some(*n as u64)
            } else {
                None
            },
            _ => None,
        }
    }
}

/// The text of a field, if it is a string.
pub fn text_field<'a>(doc: &'a Json, key: &str) -> (r: Option<&'a String>)
    ensures
        match r {
            Some(s) => text_of(field(*doc, key@)) == Some(s@),
            None => text_of(field(*doc, key@)) is None,
        },
{
    match doc.get(key) {
        Some(found) => found.as_str(),
        None => None,
    }
}

proof fn an_entry_is_the_first(entries: Seq<(String, Json)>, key: Seq<char>, from: int, k: int)
    requires
        0 <= from <= k < entries.len(),
        entries[k].0@ == key,
        forall|j: int| from <= j < k ==> (#[trigger] entries[j]).0@ != key,
    ensures
        entry(entries, key, from) == Some(entries[k].1),
    decreases k - from,
{
    if from < k {
        assert(entries[from].0@ != key);
        an_entry_is_the_first(entries, key, from + 1, k);
    }
}

proof fn no_entry_is_none(entries: Seq<(String, Json)>, key: Seq<char>, from: int)
    requires
        0 <= from,
        forall|j: int| from <= j < entries.len() ==> (#[trigger] entries[j]).0@ != key,
    ensures
        entry(entries, key, from) is None,
    decreases entries.len() - from,
{
    if from < entries.len() {
        assert(entries[from].0@ != key);
        no_entry_is_none(entries, key, from + 1);
    }
}

/// A field of an object is the value of the first entry with its name; there is none if no entry has
/// it, and none in what is not an object.
pub proof fn a_field_is_its_first_entry(
    doc: &Json,
    entries: Vec<(String, Json)>,
    key: &str,
    r: Option<&Json>,
    k: int,
)
    requires
        *doc == Json::Object(entries),
        call_ensures(Json::get, (doc, key), r),
    ensures
        0 <= k < entries@.len() && entries@[k].0@ == key@ && (forall|j: int|
            0 <= j < k ==> (#[trigger] entries@[j]).0@ != key@) ==> (r matches Some(v) && *v
            == entries@[k].1),
        (forall|j: int| 0 <= j < entries@.len() ==> (#[trigger] entries@[j]).0@ != key@)
            ==> r is None,
{
    if 0 <= k < entries@.len() && entries@[k].0@ == key@ && (forall|j: int|
        0 <= j < k ==> (#[trigger] entries@[j]).0@ != key@) {
        an_entry_is_the_first(entries@, key@, 0, k);
    }
    if forall|j: int| 0 <= j < entries@.len() ==> (#[trigger] entries@[j]).0@ != key@ {
        no_entry_is_none(entries@, key@, 0);
    }
}

/// What is read from a value is what it is: a text, a list, its first item or a number without a
/// sign, and nothing of any other kind.
pub proof fn a_value_is_read_as_what_it_is(
    doc: &Json,
    s: Option<&String>,
    a: Option<&Vec<Json>>,
    f: Option<&Json>,
    n: Option<u64>,
)
    requires
        call_ensures(Json::as_str, (doc,), s),
        call_ensures(Json::as_array, (doc,), a),
        call_ensures(Json::first, (doc,), f),
        call_ensures(Json::as_u64, (doc,), n),
    ensures
        s is Some <==> doc is Text,
        *doc matches Json::Text(t) ==> (s->0)@ == t@,
        a is Some <==> doc is Array,
        *doc matches Json::Array(items) ==> *(a->0) == items && (f is Some <==> items@.len() > 0)
            && (f matches Some(v) ==> *v == items@[0]),
        !(doc is Array) ==> f is None,
        *doc matches Json::Integer(i) ==> (n is Some <==> 0 <= i <= u64::MAX) && (n matches Some(m)
            ==> m == i),
        !(doc is Integer) ==> n is None,
{
}

} // verus!
