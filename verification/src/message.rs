//! Messages of a conversation with a model, as JSON.

use vstd::prelude::*;

use crate::json::Json;
use crate::text::owned;

verus! {

/// A document that is the given text.
pub open spec fn is_text(doc: Json, s: Seq<char>) -> bool {
    doc matches Json::Text(t) && t@ == s
}

/// An object with one entry.
pub open spec fn is_single(doc: Json, key: Seq<char>, check: spec_fn(Json) -> bool) -> bool {
    doc matches Json::Object(entries) && entries@.len() == 1 && entries@[0].0@ == key && check(
        entries@[0].1,
    )
}

/// An object with two entries.
pub open spec fn is_pair(
    doc: Json,
    first: Seq<char>,
    check_first: spec_fn(Json) -> bool,
    second: Seq<char>,
    check_second: spec_fn(Json) -> bool,
) -> bool {
    doc matches Json::Object(entries) && entries@.len() == 2 && entries@[0].0@ == first
        && check_first(entries@[0].1) && entries@[1].0@ == second && check_second(entries@[1].1)
}

/// A message of a conversation.
pub open spec fn is_message(
    doc: Json,
    role: Seq<char>,
    check_content: spec_fn(Json) -> bool,
) -> bool {
    is_pair(doc, "role"@, |r: Json| is_text(r, role), "content"@, check_content)
}

/// A document that is the given text.
pub fn text(s: &str) -> (doc: Json)
    ensures
        is_text(doc, s@),
{
    Json::Text(owned(s))
}

/// An object with two entries.
pub fn pair(first: &str, a: Json, second: &str, b: Json) -> (doc: Json)
    ensures
        doc matches Json::Object(entries) && entries@.len() == 2 && entries@[0].0@ == first@
            && entries@[0].1 == a && entries@[1].0@ == second@ && entries@[1].1 == b,
{
    let mut entries: Vec<(String, Json)> = Vec::new();
    entries.push((owned(first), a));
    entries.push((owned(second), b));
    Json::Object(entries)
}

/// A conversation of one message by the user.
pub fn single_turn(request: &str) -> (doc: Json)
    ensures
        doc matches Json::Array(messages) && messages@.len() == 1 && is_message(
            messages@[0],
            "user"@,
            |c: Json| is_text(c, request@),
        ),
{
    let mut messages: Vec<Json> = Vec::new();
    messages.push(pair("role", text("user"), "content", text(request)));
    Json::Array(messages)
}

} // verus!
