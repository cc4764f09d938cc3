//! Requests to the niri compositor and what its answers mean.
//!
//! An answer that says something else counts as none: the program also works without a compositor
//! that it can talk to.

use vstd::prelude::*;

use crate::json::{Json, field, parse, parsed, unsigned_of};
use crate::message::text;
use crate::number::{parse_whole_part, whole_part};
use crate::text::{chars_of, cut_blank, decimal, decimal_of, owned, string_of, trim_end, views};

verus! {

/// An object with one entry.
pub open spec fn is_object(doc: Json, key: Seq<char>, value: Json) -> bool {
    doc matches Json::Object(entries) && entries@.len() == 1 && entries@[0].0@ == key
        && entries@[0].1 == value
}

fn object(key: &str, value: Json) -> (doc: Json)
    ensures
        is_object(doc, key@, value),
{
    let mut entries: Vec<(String, Json)> = Vec::new();
    entries.push((owned(key), value));
    Json::Object(entries)
}

/// The request to float the window that has the focus.
pub open spec fn is_float_request(doc: Json) -> bool {
    exists|action: Json, window: Json| #[trigger]
        is_object(doc, "Action"@, action) && #[trigger] is_object(
            action,
            "MoveWindowToFloating"@,
            window,
        ) && is_object(window, "id"@, Json::Null)
}

/// The request to float the window that has the focus.
pub fn float_request() -> (doc: Json)
    ensures
        is_float_request(doc),
{
    let window = object("id", Json::Null);
    let ghost w = window;
    let action = object("MoveWindowToFloating", window);
    let ghost a = action;
    let doc = object("Action", action);
    assert(is_object(doc, "Action"@, a) && is_object(a, "MoveWindowToFloating"@, w));
    doc
}

/// The request to float a certain window.
pub open spec fn is_float_request_for(doc: Json, id: u64) -> bool {
    exists|action: Json, window: Json| #[trigger]
        is_object(doc, "Action"@, action) && #[trigger] is_object(
            action,
            "MoveWindowToFloating"@,
            window,
        ) && is_object(window, "id"@, Json::Integer(id as i128))
}

/// The request to float a certain window.
pub fn float_request_for(id: u64) -> (doc: Json)
    ensures
        is_float_request_for(doc, id),
{
    let window = object("id", Json::Integer(id as i128));
    let ghost w = window;
    let action = object("MoveWindowToFloating", window);
    let ghost a = action;
    let doc = object("Action", action);
    assert(is_object(doc, "Action"@, a) && is_object(a, "MoveWindowToFloating"@, w));
    doc
}

/// The request for the list of windows.
pub fn windows_request() -> (doc: Json)
    ensures
        doc matches Json::Text(s) && s@ == "Windows"@,
{
    text("Windows")
}

/// The request to set one side of a window.
pub open spec fn is_resize_request(doc: Json, name: Seq<char>, id: u64, length: i32) -> bool {
    exists|action: Json, fields: Json, change: Json| #[trigger]
        is_object(doc, "Action"@, action) && #[trigger] is_object(action, name, fields) && (
        fields matches Json::Object(entries) && entries@.len() == 2 && entries@[0].0@ == "id"@
            && entries@[0].1 == Json::Integer(id as i128) && entries@[1].0@ == "change"@
            && entries@[1].1 == change) && #[trigger] is_object(
            change,
            "SetFixed"@,
            Json::Integer(length as i128),
        )
}

fn resize_request(name: &str, id: u64, length: i32) -> (doc: Json)
    ensures
        is_resize_request(doc, name@, id, length),
{
    let change = object("SetFixed", Json::Integer(length as i128));
    let ghost c = change;
    let mut entries: Vec<(String, Json)> = Vec::new();
    entries.push((owned("id"), Json::Integer(id as i128)));
    entries.push((owned("change"), change));
    let fields = Json::Object(entries);
    let ghost f = fields;
    let action = object(name, fields);
    let ghost a = action;
    let doc = object("Action", action);
    assert(is_object(doc, "Action"@, a) && is_object(a, name@, f) && is_object(
        c,
        "SetFixed"@,
        Json::Integer(length as i128),
    ));
    doc
}

/// The request to set the width of a window.
pub fn width_request(id: u64, width: i32) -> (doc: Json)
    ensures
        is_resize_request(doc, "SetWindowWidth"@, id, width),
{
    resize_request("SetWindowWidth", id, width)
}

/// The request to set the height of a window.
pub fn height_request(id: u64, height: i32) -> (doc: Json)
    ensures
        is_resize_request(doc, "SetWindowHeight"@, id, height),
{
    resize_request("SetWindowHeight", id, height)
}

/// The arguments of the command line tool for an action.
pub fn action(name: &str, args: &[String]) -> (out: Vec<String>)
    ensures
        views(out@) == seq!["action"@, name@] + views(args@),
{
    let mut out: Vec<String> = Vec::new();
    out.push(owned("action"));
    out.push(owned(name));
    let mut i: usize = 0;
    assert(views(out@) =~= seq!["action"@, name@] + views(args@).take(0));
    while i < args.len()
        invariant
            i <= args@.len(),
            views(out@) == seq!["action"@, name@] + views(args@).take(i as int),
        decreases args.len() - i,
    {
        let ghost before = views(out@);
        out.push(args[i].clone());
        assert(views(out@) =~= before.push(args@[i as int]@));
        assert(views(out@) =~= seq!["action"@, name@] + views(args@).take(i + 1));
        i = i + 1;
    }
    assert(views(args@).take(args@.len() as int) =~= views(args@));
    out
}

fn signed(n: i32) -> (s: String)
    ensures
        s@ == if n < 0 {
            seq!['-'] + decimal((-n) as nat)
        } else {
            decimal(n as nat)
        },
{
    if n < 0 {
        let mut s = String::new();
        s.push('-');
        let size: i64 = -(n as i64);
        let digits = decimal_of(size as u64);
        s.append(digits.as_str());
        assert(s@ =~= seq!['-'] + decimal((-n) as nat));
        s
    } else {
        decimal_of(n as u64)
    }
}

/// The words of a call of the compositor's command line tool, after its name.
pub fn command(args: &[String], json: bool) -> (out: Vec<String>)
    ensures
        views(out@) == (if json {
            seq!["msg"@, "-j"@]
        } else {
            seq!["msg"@]
        }) + views(args@),
{
    let mut out: Vec<String> = Vec::new();
    out.push(owned("msg"));
    if json {
        out.push(owned("-j"));
    }
    let ghost head = views(out@);
    assert(head =~= if json {
        seq!["msg"@, "-j"@]
    } else {
        seq!["msg"@]
    });
    let mut i: usize = 0;
    assert(views(out@) =~= head + views(args@).take(0));
    while i < args.len()
        invariant
            i <= args@.len(),
            views(out@) == head + views(args@).take(i as int),
        decreases args.len() - i,
    {
        let ghost before = views(out@);
        out.push(args[i].clone());
        proof {
            assert(views(out@) =~= before.push(args@[i as int]@));
            assert(views(out@) =~= head + views(args@).take(i + 1));
        }
        i = i + 1;
    }
    assert(views(args@).take(args@.len() as int) =~= views(args@));
    out
}

/// The arguments of the command line tool to set one side of a window.
pub fn resize_args(name: &str, id: u64, length: i32) -> (out: Vec<String>)
    ensures
        views(out@) == seq![
            "action"@,
            name@,
            "--id"@,
            decimal(id as nat),
            if length < 0 {
                seq!['-'] + decimal((-length) as nat)
            } else {
                decimal(length as nat)
            },
        ],
{
    let mut args: Vec<String> = Vec::new();
    args.push(owned("--id"));
    args.push(decimal_of(id));
    args.push(signed(length));
    let out = action(name, args.as_slice());
    assert(views(out@) =~= seq![
        "action"@,
        name@,
        "--id"@,
        decimal(id as nat),
        if length < 0 {
            seq!['-'] + decimal((-length) as nat)
        } else {
            decimal(length as nat)
        },
    ]);
    out
}

/// The answer to a request, if it was granted. The text is one line of JSON.
pub fn granted(reply: &str) -> (r: Option<Json>)
    ensures
        match parsed(trim_end(reply@)) {
            Some(doc) => r == field(doc, "Ok"@),
            None => r is None,
        },
{
    let chars = chars_of(reply);
    let end: usize = cut_blank(chars.as_slice(), 0, chars.len());
    let line = string_of(chars.as_slice(), 0, end);
    proof {
        assert(chars@.subrange(0, chars@.len() as int) =~= chars@);
        assert(line@ =~= trim_end(reply@));
    }
    match parse(line.as_str()) {
        Some(doc) => payload(doc),
        None => None,
    }
}

/// What an answer grants.
pub fn payload(doc: Json) -> (r: Option<Json>)
    ensures
        r == field(doc, "Ok"@),
{
    match doc {
        Json::Object(entries) => {
            let ghost all = entries@;
            let ghost mut taken: int = 0;
            let mut rest: Vec<(String, Json)> = entries;
            assert(rest@ =~= all.skip(taken));
            while rest.len() > 0
                invariant
                    0 <= taken <= all.len(),
                    rest@ == all.skip(taken),
                    crate::json::entry(all, "Ok"@, 0) == crate::json::entry(all, "Ok"@, taken),
                    doc matches Json::Object(e) && e@ == all,
                decreases rest.len(),
            {
                let first = rest.remove(0);
                assert(first == all[taken]);
                if crate::text::same(first.0.as_str(), "Ok") {
                    return Some(first.1);
                }
                proof {
                    taken = taken + 1;
                    assert(rest@ =~= all.skip(taken));
                }
            }
            None
        },
        _ => None,
    }
}

/// The windows in an answer: the list itself, or the one under its name.
pub open spec fn window_list(doc: Json) -> Option<Seq<Json>> {
    let list = match field(doc, "Windows"@) {
        Some(inner) => inner,
        None => doc,
    };
    match list {
        Json::Array(items) => Some(items@),
        _ => None,
    }
}

/// The windows in an answer: the list itself, or the one under its name.
pub fn windows_in(doc: &Json) -> (r: Option<&Vec<Json>>)
    ensures
        match r {
            Some(items) => window_list(*doc) == Some(items@),
            None => window_list(*doc) is None,
        },
{
    match doc.get("Windows") {
        Some(inner) => inner.as_array(),
        None => doc.as_array(),
    }
}

/// The windows that the command line tool lists: an array.
pub fn listed(out: &str) -> (r: Option<Vec<Json>>)
    ensures
        match parsed(out@) {
            Some(Json::Array(items)) => r == Some(items),
            _ => r is None,
        },
{
    match parse(out) {
        Some(Json::Array(items)) => Some(items),
        _ => None,
    }
}

/// The number of a window that belongs to the given process.
pub open spec fn owned_id(window: Json, pid: int) -> Option<int> {
    if unsigned_of(field(window, "pid"@)) == Some(pid) {
        unsigned_of(field(window, "id"@))
    } else {
        None
    }
}

fn number_at(window: &Json, key: &str) -> (r: Option<u64>)
    ensures
        match r {
            Some(n) => unsigned_of(field(*window, key@)) == Some(n as int),
            None => unsigned_of(field(*window, key@)) is None,
        },
{
    match window.get(key) {
        Some(value) => value.as_u64(),
        None => None,
    }
}

/// The number of the first window that belongs to the given process.
pub fn window_id_for_pid(windows: &Vec<Json>, pid: u32) -> (r: Option<u64>)
    ensures
        match r {
            Some(id) => exists|k: int|
                0 <= k < windows@.len() && owned_id(#[trigger] windows@[k], pid as int) == Some(
                    id as int,
                ) && forall|j: int|
                    0 <= j < k ==> owned_id(#[trigger] windows@[j], pid as int) is None,
            None => forall|j: int|
                0 <= j < windows@.len() ==> owned_id(#[trigger] windows@[j], pid as int) is None,
        },
{
    let mut i: usize = 0;
    while i < windows.len()
        invariant
            i <= windows@.len(),
            forall|j: int| 0 <= j < i ==> owned_id(#[trigger] windows@[j], pid as int) is None,
        decreases windows.len() - i,
    {
        let owner = number_at(&windows[i], "pid");
        let mine: bool = match owner {
            Some(n) => n == pid as u64,
            None => false,
        };
        if mine {
            let id = number_at(&windows[i], "id");
            match id {
                Some(n) => {
                    assert(owned_id(windows@[i as int], pid as int) == Some(n as int));
                    return Some(n);
                },
                None => {},
            }
        }
        i = i + 1;
    }
    None
}

/// A number as a length: its whole part, as far as it can be held.
pub open spec fn length_of(doc: Json) -> Option<int> {
    match doc {
        Json::Integer(n) => Some(
            if n < i32::MIN {
                i32::MIN as int
            } else if n > i32::MAX {
                i32::MAX as int
            } else {
                n as int
            },
        ),
        Json::Fraction(digits) => whole_part(digits@),
        _ => None,
    }
}

fn length(doc: &Json) -> (r: Option<i32>)
    ensures
        match r {
            Some(n) => length_of(*doc) == Some(n as int),
            None => length_of(*doc) is None,
        },
{
    match doc {
        Json::Integer(n) => if *n < -0x8000_0000 {
            Some(i32::MIN)
        } else if *n > 0x7fff_ffff {
            Some(i32::MAX)
        } else {
            Some(*n as i32)
        },
        Json::Fraction(digits) => parse_whole_part(chars_of(digits.as_str()).as_slice()),
        _ => None,
    }
}

/// The size in the description of a window: two lengths above zero.
pub open spec fn size_of(window: Json) -> Option<(int, int)> {
    match field(window, "layout"@) {
        Some(layout) => match field(layout, "window_size"@) {
            Some(Json::Array(items)) => if items@.len() >= 2 {
                match (length_of(items@[0]), length_of(items@[1])) {
                    (Some(w), Some(h)) => if w > 0 && h > 0 {
                        Some((w, h))
                    } else {
                        None
                    },
                    _ => None,
                }
            } else {
                None
            },
            _ => None,
        },
        None => None,
    }
}

fn read_size(window: &Json) -> (r: Option<(i32, i32)>)
    ensures
        match r {
            Some((w, h)) => size_of(*window) == Some((w as int, h as int)),
            None => size_of(*window) is None,
        },
{
    let layout: &Json = match window.get("layout") {
        Some(layout) => layout,
        None => return None,
    };
    let size: &Json = match layout.get("window_size") {
        Some(size) => size,
        None => return None,
    };
    let items: &Vec<Json> = match size.as_array() {
        Some(items) => items,
        None => return None,
    };
    if items.len() < 2 {
        return None;
    }
    match (length(&items[0]), length(&items[1])) {
        (Some(w), Some(h)) => if w > 0 && h > 0 {
            Some((w, h))
        } else {
            None
        },
        _ => None,
    }
}

/// The window has the given number.
pub open spec fn is_numbered(window: Json, id: int) -> bool {
    unsigned_of(field(window, "id"@)) == Some(id)
}

/// The size of the first window with the given number.
pub fn window_size(windows: &Vec<Json>, id: u64) -> (r: Option<(i32, i32)>)
    ensures
        (forall|j: int| 0 <= j < windows@.len() ==> !is_numbered(#[trigger] windows@[j], id as int))
            ==> r is None,
        forall|k: int|
            0 <= k < windows@.len() && is_numbered(#[trigger] windows@[k], id as int) && (forall|
                j: int,
            |
                0 <= j < k ==> !is_numbered(#[trigger] windows@[j], id as int)) ==> match r {
                Some((w, h)) => size_of(windows@[k]) == Some((w as int, h as int)),
                None => size_of(windows@[k]) is None,
            },
{
    let mut i: usize = 0;
    while i < windows.len()
        invariant
            i <= windows@.len(),
            forall|j: int| 0 <= j < i ==> !is_numbered(#[trigger] windows@[j], id as int),
        decreases windows.len() - i,
    {
        let number = number_at(&windows[i], "id");
        let this: bool = match number {
            Some(n) => n == id,
            None => false,
        };
        if this {
            assert(is_numbered(windows@[i as int], id as int));
            return read_size(&windows[i]);
        }
        i = i + 1;
    }
    None
}

/// The window of a process is the first in the list that says so and has a number.
pub proof fn the_first_window_of_a_process_is_found(
    windows: &Vec<Json>,
    pid: u32,
    r: Option<u64>,
    k: int,
    id: u64,
)
    requires
        call_ensures(window_id_for_pid, (windows, pid), r),
        0 <= k < windows@.len(),
    ensures
        unsigned_of(field(windows@[k], "pid"@)) == Some(pid as int) && unsigned_of(
            field(windows@[k], "id"@),
        ) == Some(id as int) && (forall|j: int|
            0 <= j < k ==> unsigned_of(field(#[trigger] windows@[j], "pid"@)) != Some(pid as int))
            ==> r == Some(id),
        (forall|j: int|
            0 <= j < windows@.len() ==> unsigned_of(field(#[trigger] windows@[j], "pid"@)) != Some(
                pid as int,
            )) ==> r is None,
{
    if unsigned_of(field(windows@[k], "pid"@)) == Some(pid as int) && unsigned_of(
        field(windows@[k], "id"@),
    ) == Some(id as int) && (forall|j: int|
        0 <= j < k ==> unsigned_of(field(#[trigger] windows@[j], "pid"@)) != Some(pid as int)) {
        assert(owned_id(windows@[k], pid as int) == Some(id as int));
        if let Some(found) = r {
            let n = choose|n: int|
                0 <= n < windows@.len() && owned_id(#[trigger] windows@[n], pid as int) == Some(
                    found as int,
                ) && forall|j: int|
                    0 <= j < n ==> owned_id(#[trigger] windows@[j], pid as int) is None;
            if n < k {
                assert(owned_id(windows@[n], pid as int) is None);
            } else if k < n {
                assert(owned_id(windows@[k], pid as int) is None);
            }
        }
    }
}

/// Arguments follow the words of a command in their order, and none is lost.
pub proof fn arguments_keep_their_order(
    name: &str,
    args: &[String],
    json: bool,
    a: Vec<String>,
    c: Vec<String>,
    i: int,
)
    requires
        call_ensures(action, (name, args), a),
        call_ensures(command, (args, json), c),
        0 <= i < args@.len(),
    ensures
        a@.len() == args@.len() + 2,
        a@[0]@ == "action"@ && a@[1]@ == name@,
        a@[i + 2]@ == args@[i]@,
        c@.len() == args@.len() + if json {
            2int
        } else {
            1
        },
        c@[0]@ == "msg"@,
        json ==> c@[1]@ == "-j"@,
        c@[c@.len() - args@.len() + i]@ == args@[i]@,
{
    let (x, y, z) = (views(a@), views(c@), views(args@));
    assert(x.len() == a@.len() && y.len() == c@.len() && z.len() == args@.len());
    assert(x[0] == a@[0]@ && x[1] == a@[1]@ && x[i + 2] == a@[i + 2]@ && z[i] == args@[i]@);
    let n = c@.len() - args@.len();
    assert(y[0] == c@[0]@ && y[n + i] == c@[n + i]@);
    if json {
        assert(y[1] == c@[1]@);
    }
}

/// The size of a window is that of the first with its number, if it has one, and is never empty.
pub proof fn a_size_is_that_of_its_window(
    windows: &Vec<Json>,
    id: u64,
    r: Option<(i32, i32)>,
    k: int,
)
    requires
        call_ensures(window_size, (windows, id), r),
        0 <= k < windows@.len(),
        unsigned_of(field(windows@[k], "id"@)) == Some(id as int),
        forall|j: int|
            0 <= j < k ==> unsigned_of(field(#[trigger] windows@[j], "id"@)) != Some(id as int),
    ensures
        r matches Some((w, h)) ==> w > 0 && h > 0,
        field(windows@[k], "layout"@) is None ==> r is None,
        (field(windows@[k], "layout"@) is Some && (field(
            field(windows@[k], "layout"@)->0,
            "window_size"@,
        ) matches Some(Json::Array(items)) && items@.len() >= 2 && (
        items@[0] matches Json::Integer(w) && 0 < w <= i32::MAX) && (
        items@[1] matches Json::Integer(h) && 0 < h <= i32::MAX))) ==> {
            let items = field(field(windows@[k], "layout"@)->0, "window_size"@)->0->Array_0@;
            r is Some && (r->0).0 == items[0]->Integer_0 && (r->0).1 == items[1]->Integer_0
        },
{
    assert(is_numbered(windows@[k], id as int));
    assert forall|j: int| 0 <= j < k implies !is_numbered(#[trigger] windows@[j], id as int) by {}
}

/// A request to resize names the window and the new length, which may be negative.
pub proof fn a_resize_names_its_window(name: &str, id: u64, length: i32, out: Vec<String>)
    requires
        call_ensures(resize_args, (name, id, length), out),
    ensures
        out@.len() == 5,
        out@[1]@ == name@,
        out@[2]@ == "--id"@ && out@[3]@ == decimal(id as nat),
        length >= 0 ==> out@[4]@ == decimal(length as nat),
        length < 0 ==> out@[4]@.len() > 0 && out@[4]@[0] == '-' && out@[4]@.skip(1) == decimal(
            (-length) as nat,
        ),
{
    let v = views(out@);
    assert(v.len() == out@.len());
    assert(v[1] == out@[1]@ && v[2] == out@[2]@ && v[3] == out@[3]@ && v[4] == out@[4]@);
    if length < 0 {
        assert(out@[4]@.skip(1) =~= decimal((-length) as nat));
    }
}

/// A request for a width sets the width of the window with the number, and one for a height its
/// height, each to the length that is given.
pub proof fn a_request_sets_its_length(id: u64, length: i32, w: Json, h: Json)
    requires
        call_ensures(width_request, (id, length), w),
        call_ensures(height_request, (id, length), h),
    ensures
        field(w, "Action"@) is Some,
        field(field(w, "Action"@)->0, "SetWindowWidth"@) is Some,
        field(field(h, "Action"@)->0, "SetWindowHeight"@) is Some,
        unsigned_of(
            field(field(field(w, "Action"@)->0, "SetWindowWidth"@)->0, "id"@),
        ) == Some(id as int),
        unsigned_of(
            field(field(field(h, "Action"@)->0, "SetWindowHeight"@)->0, "id"@),
        ) == Some(id as int),
        field(
            field(field(field(w, "Action"@)->0, "SetWindowWidth"@)->0, "change"@)->0,
            "SetFixed"@,
        ) == Some(Json::Integer(length as i128)),
        field(
            field(field(field(h, "Action"@)->0, "SetWindowHeight"@)->0, "change"@)->0,
            "SetFixed"@,
        ) == Some(Json::Integer(length as i128)),
{
    reveal_strlit("id");
    reveal_strlit("change");
    assert("id"@.len() != "change"@.len());
    a_resize_is_read(w, "SetWindowWidth"@, id, length);
    a_resize_is_read(h, "SetWindowHeight"@, id, length);
}

proof fn a_resize_is_read(doc: Json, name: Seq<char>, id: u64, length: i32)
    requires
        is_resize_request(doc, name, id, length),
        "id"@ != "change"@,
    ensures
        field(doc, "Action"@) is Some,
        field(field(doc, "Action"@)->0, name) is Some,
        field(field(field(doc, "Action"@)->0, name)->0, "id"@) == Some(Json::Integer(id as i128)),
        field(
            field(field(field(doc, "Action"@)->0, name)->0, "change"@)->0,
            "SetFixed"@,
        ) == Some(Json::Integer(length as i128)),
{
    let (action, fields, change) = choose|action: Json, fields: Json, change: Json| #[trigger]
        is_object(doc, "Action"@, action) && #[trigger] is_object(action, name, fields) && (
        fields matches Json::Object(entries) && entries@.len() == 2 && entries@[0].0@ == "id"@
            && entries@[0].1 == Json::Integer(id as i128) && entries@[1].0@ == "change"@
            && entries@[1].1 == change) && #[trigger] is_object(
            change,
            "SetFixed"@,
            Json::Integer(length as i128),
        );
    assert(field(doc, "Action"@) == Some(action));
    assert(field(action, name) == Some(fields));
    let entries = fields->Object_0@;
    assert(crate::json::entry(entries, "change"@, 1) == Some(change));
    assert(field(fields, "id"@) == Some(Json::Integer(id as i128)));
    assert(field(fields, "change"@) == Some(change));
}

/// A request to float names the window with the number, or the one that has the focus.
pub proof fn a_request_floats_its_window(id: u64, one: Json, focused: Json)
    requires
        call_ensures(float_request_for, (id,), one),
        call_ensures(float_request, (), focused),
    ensures
        field(field(field(one, "Action"@)->0, "MoveWindowToFloating"@)->0, "id"@) == Some(
            Json::Integer(id as i128),
        ),
        field(field(field(focused, "Action"@)->0, "MoveWindowToFloating"@)->0, "id"@) == Some(
            Json::Null,
        ),
{
    let (a, w) = choose|a: Json, w: Json| #[trigger]
        is_object(one, "Action"@, a) && #[trigger] is_object(a, "MoveWindowToFloating"@, w)
            && is_object(w, "id"@, Json::Integer(id as i128));
    assert(field(one, "Action"@) == Some(a));
    assert(field(a, "MoveWindowToFloating"@) == Some(w));
    assert(field(w, "id"@) == Some(Json::Integer(id as i128)));
    let (b, v) = choose|b: Json, v: Json| #[trigger]
        is_object(focused, "Action"@, b) && #[trigger] is_object(b, "MoveWindowToFloating"@, v)
            && is_object(v, "id"@, Json::Null);
    assert(field(focused, "Action"@) == Some(b));
    assert(field(b, "MoveWindowToFloating"@) == Some(v));
    assert(field(v, "id"@) == Some(Json::Null));
}

} // verus!
