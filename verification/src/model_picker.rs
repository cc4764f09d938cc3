//! The list under a model field: the models that the endpoint reports, a search and a cursor.

use vstd::prelude::*;

use crate::llm::{lowercase, to_lowercase};
use crate::text::{chars_of, decimal, decimal_of, owned, same, string_of, trim, trimmed, view_of,
    views};

verus! {

/// A name longer than this is cut in a row of the list.
pub const MAX_DISPLAY_CHARS: usize = 64;

/// What the button says before any models were fetched.
pub const BUTTON_TOOLTIP: &'static str = "选择模型";

/// Said in place of a list before any models were fetched.
pub const UNFETCHED_HINT: &'static str = "先点「获取模型」";

/// Said in place of a list if nothing matches the search.
pub const UNMATCHED_HINT: &'static str = "没有匹配的模型";

/// `needle` stands somewhere in `s`.
pub open spec fn occurs(s: Seq<char>, needle: Seq<char>) -> bool {
    exists|i: int|
        0 <= i <= s.len() - needle.len() && #[trigger] s.subrange(i, i + needle.len()) == needle
}

fn occurs_in(s: &[char], needle: &[char]) -> (r: bool)
    ensures
        r == occurs(s@, needle@),
{
    if needle.len() > s.len() {
        return false;
    }
    let total: usize = s.len();
    let last: usize = total - needle.len();
    let mut i: usize = 0;
    loop
        invariant
            total == s@.len(),
            last == s@.len() - needle@.len(),
            i <= last,
            forall|k: int|
                0 <= k < i ==> #[trigger] s@.subrange(k, k + needle@.len()) != needle@,
        decreases last - i,
    {
        let mut j: usize = 0;
        while j < needle.len() && s[i + j] == needle[j]
            invariant
                total == s@.len(),
                i <= last,
                last == s@.len() - needle@.len(),
                j <= needle@.len(),
                forall|k: int| 0 <= k < j ==> s@[i + k] == #[trigger] needle@[k],
            decreases needle.len() - j,
        {
            j = j + 1;
        }
        if j == needle.len() {
            assert(s@.subrange(i as int, i + needle@.len()) =~= needle@);
            return true;
        }
        assert(s@.subrange(i as int, i + needle@.len())[j as int] != needle@[j as int]);
        if i == last {
            assert forall|k: int| 0 <= k <= last implies #[trigger] s@.subrange(
                k,
                k + needle@.len(),
            ) != needle@ by {}
            return false;
        }
        i = i + 1;
    }
}

/// The items whose key holds the needle, in their order.
pub open spec fn matching(items: Seq<Seq<char>>, keys: Seq<Seq<char>>, needle: Seq<char>) -> Seq<
    Seq<char>,
>
    decreases items.len(),
{
    if items.len() == 0 {
        Seq::empty()
    } else {
        let rest = matching(items.drop_last(), keys, needle);
        if occurs(keys[items.len() - 1], needle) {
            rest.push(items.last())
        } else {
            rest
        }
    }
}

/// The items whose key holds the needle, in their order.
pub fn matching_models(items: &[String], keys: &[String], needle: &str) -> (out: Vec<String>)
    requires
        keys@.len() == items@.len(),
    ensures
        views(out@) == matching(views(items@), views(keys@), needle@),
{
    let wanted = chars_of(needle);
    let mut out: Vec<String> = Vec::new();
    let mut i: usize = 0;
    assert(views(out@) =~= matching(views(items@).take(0), views(keys@), needle@));
    while i < items.len()
        invariant
            wanted@ == needle@,
            keys@.len() == items@.len(),
            i <= items@.len(),
            views(out@) == matching(views(items@).take(i as int), views(keys@), needle@),
        decreases items.len() - i,
    {
        let key = chars_of(keys[i].as_str());
        let ghost before = views(out@);
        proof {
            assert(views(items@).take(i + 1).drop_last() =~= views(items@).take(i as int));
            assert(key@ == views(keys@)[i as int]);
        }
        if occurs_in(key.as_slice(), wanted.as_slice()) {
            out.push(items[i].clone());
            assert(views(out@) =~= before.push(items@[i as int]@));
        }
        i = i + 1;
    }
    assert(views(items@).take(items@.len() as int) =~= views(items@));
    out
}

/// Each text in small letters.
pub open spec fn lowered(items: Seq<Seq<char>>) -> Seq<Seq<char>> {
    items.map_values(|s: Seq<char>| lowercase(s))
}

fn lower_all(items: &[String]) -> (out: Vec<String>)
    ensures
        views(out@) == lowered(views(items@)),
{
    let mut out: Vec<String> = Vec::new();
    let mut i: usize = 0;
    while i < items.len()
        invariant
            i <= items@.len(),
            views(out@) == lowered(views(items@).take(i as int)),
        decreases items.len() - i,
    {
        let ghost before = views(out@);
        out.push(to_lowercase(items[i].as_str()));
        proof {
            assert(views(out@) =~= before.push(lowercase(items@[i as int]@)));
            assert(views(out@) =~= lowered(views(items@).take(i + 1)));
        }
        i = i + 1;
    }
    assert(views(items@).take(items@.len() as int) =~= views(items@));
    out
}

fn copied(items: &[String]) -> (out: Vec<String>)
    ensures
        views(out@) == views(items@),
{
    let mut out: Vec<String> = Vec::new();
    let mut i: usize = 0;
    while i < items.len()
        invariant
            i <= items@.len(),
            views(out@) == views(items@).take(i as int),
        decreases items.len() - i,
    {
        let ghost before = views(out@);
        out.push(items[i].clone());
        proof {
            assert(views(out@) =~= before.push(items@[i as int]@));
            assert(views(out@) =~= views(items@).take(i + 1));
        }
        i = i + 1;
    }
    assert(views(items@).take(items@.len() as int) =~= views(items@));
    out
}

/// What a search finds: the models that hold the query, whatever the case of either. An empty
/// query finds everything.
pub open spec fn found(models: Seq<Seq<char>>, query: Seq<char>) -> Seq<Seq<char>> {
    let needle = lowercase(trim(query));
    if needle.len() == 0 {
        models
    } else {
        matching(models, lowered(models), needle)
    }
}

/// What a search finds.
pub fn filter_models(models: &[String], query: &str) -> (out: Vec<String>)
    ensures
        views(out@) == found(views(models@), query@),
{
    let asked = trimmed(query);
    let needle = to_lowercase(asked.as_str());
    if chars_of(needle.as_str()).len() == 0 {
        return copied(models);
    }
    let keys = lower_all(models);
    assert(views(keys@).len() == views(models@).len());
    matching_models(models, keys.as_slice(), needle.as_str())
}

/// The name is not empty, and no name before it has its key.
pub open spec fn is_new(names: Seq<Seq<char>>, keys: Seq<Seq<char>>, i: int) -> bool {
    names[i].len() > 0 && forall|j: int|
        0 <= j < i && (#[trigger] names[j]).len() > 0 ==> keys[j] != keys[i]
}

/// The names without the empty ones and without those that repeat a key, in their order.
pub open spec fn unique(names: Seq<Seq<char>>, keys: Seq<Seq<char>>) -> Seq<Seq<char>>
    decreases names.len(),
{
    if names.len() == 0 {
        Seq::empty()
    } else {
        let rest = unique(names.drop_last(), keys);
        if is_new(names, keys, names.len() - 1) {
            rest.push(names.last())
        } else {
            rest
        }
    }
}

/// The names without the empty ones and without those that repeat a key, in their order.
pub fn unique_models(names: &[String], keys: &[String]) -> (out: Vec<String>)
    requires
        keys@.len() == names@.len(),
    ensures
        views(out@) == unique(views(names@), views(keys@)),
{
    let ghost all = views(names@);
    let ghost by = views(keys@);
    let mut out: Vec<String> = Vec::new();
    let mut i: usize = 0;
    assert(views(out@) =~= unique(all.take(0), by));
    while i < names.len()
        invariant
            keys@.len() == names@.len(),
            all == views(names@),
            by == views(keys@),
            i <= names@.len(),
            views(out@) == unique(all.take(i as int), by),
        decreases names.len() - i,
    {
        let ghost before = views(out@);
        let ghost here = all.take(i + 1);
        let mut fresh: bool = chars_of(names[i].as_str()).len() > 0;
        assert(here.drop_last() =~= all.take(i as int));
        assert(here[i as int] == names@[i as int]@);
        let mut j: usize = 0;
        while fresh && j < i
            invariant
                keys@.len() == names@.len(),
                all == views(names@),
                by == views(keys@),
                here == all.take(i + 1),
                i < names@.len(),
                j <= i,
                fresh ==> here[i as int].len() > 0 && forall|k: int|
                    0 <= k < j && (#[trigger] here[k]).len() > 0 ==> by[k] != by[i as int],
                !fresh ==> !is_new(here, by, i as int),
            decreases i - j,
        {
            let named: bool = chars_of(names[j].as_str()).len() > 0;
            assert(here[j as int] == names@[j as int]@);
            assert(by[j as int] == keys@[j as int]@ && by[i as int] == keys@[i as int]@);
            if named && same(keys[j].as_str(), keys[i].as_str()) {
                fresh = false;
            }
            j = j + 1;
        }
        if fresh {
            assert(is_new(here, by, i as int));
            out.push(names[i].clone());
            assert(views(out@) =~= before.push(names@[i as int]@));
        }
        assert(views(out@) =~= unique(here, by));
        i = i + 1;
    }
    assert(all.take(names@.len() as int) =~= all);
    out
}

/// Each text without white space at its ends.
pub open spec fn bare(items: Seq<Seq<char>>) -> Seq<Seq<char>> {
    items.map_values(|s: Seq<char>| trim(s))
}

/// The list that is offered of the models that an endpoint reports: none is blank, and of those
/// that differ in case alone there is the first.
pub open spec fn offered(models: Seq<Seq<char>>) -> Seq<Seq<char>> {
    unique(bare(models), lowered(bare(models)))
}

/// The list that is offered of the models that an endpoint reports.
pub fn dedupe_models(models: &[String]) -> (out: Vec<String>)
    ensures
        views(out@) == offered(views(models@)),
{
    let mut names: Vec<String> = Vec::new();
    let mut i: usize = 0;
    while i < models.len()
        invariant
            i <= models@.len(),
            views(names@) == bare(views(models@).take(i as int)),
        decreases models.len() - i,
    {
        let ghost before = views(names@);
        names.push(trimmed(models[i].as_str()));
        proof {
            assert(views(names@) =~= before.push(trim(models@[i as int]@)));
            assert(views(names@) =~= bare(views(models@).take(i + 1)));
        }
        i = i + 1;
    }
    assert(views(models@).take(models@.len() as int) =~= views(models@));
    let keys = lower_all(names.as_slice());
    assert(views(keys@).len() == views(names@).len());
    unique_models(names.as_slice(), keys.as_slice())
}

proof fn unique_comes_from(names: Seq<Seq<char>>, i: int) -> (k: int)
    requires
        0 <= i < unique(names, lowered(names)).len(),
    ensures
        0 <= k < names.len(),
        names[k] == unique(names, lowered(names))[i],
        names[k].len() > 0,
    decreases names.len(),
{
    let n = names.len() - 1;
    keys_do_not_matter(names, lowered(names), lowered(names.drop_last()), n);
    if i < unique(names.drop_last(), lowered(names.drop_last())).len() {
        unique_comes_from(names.drop_last(), i)
    } else {
        n
    }
}

proof fn keys_do_not_matter(
    names: Seq<Seq<char>>,
    keys: Seq<Seq<char>>,
    others: Seq<Seq<char>>,
    n: int,
)
    requires
        0 <= n <= names.len(),
        forall|i: int| 0 <= i < n ==> keys[i] == others[i],
    ensures
        unique(names.take(n), keys) == unique(names.take(n), others),
        n == names.len() - 1 ==> unique(names.drop_last(), keys) == unique(names.drop_last(), others),
    decreases n,
{
    if n > 0 {
        let here = names.take(n);
        keys_do_not_matter(names, keys, others, n - 1);
        assert(here.drop_last() =~= names.take(n - 1));
        assert(is_new(here, keys, n - 1) == is_new(here, others, n - 1));
    }
    if n == names.len() - 1 {
        assert(names.drop_last() =~= names.take(n));
    }
}

/// No two of the models that are offered differ in case alone, and none is empty.
pub proof fn offered_models_differ(models: Seq<Seq<char>>, i: int, j: int)
    requires
        0 <= i < j < offered(models).len(),
    ensures
        lowercase(offered(models)[i]) != lowercase(offered(models)[j]),
        offered(models)[i].len() > 0,
        offered(models)[j].len() > 0,
{
    unique_differ(bare(models), i, j);
}

proof fn unique_differ(names: Seq<Seq<char>>, i: int, j: int)
    requires
        0 <= i < j < unique(names, lowered(names)).len(),
    ensures
        lowercase(unique(names, lowered(names))[i]) != lowercase(
            unique(names, lowered(names))[j],
        ),
        unique(names, lowered(names))[i].len() > 0,
        unique(names, lowered(names))[j].len() > 0,
    decreases names.len(),
{
    let n = names.len() - 1;
    let before = names.drop_last();
    keys_do_not_matter(names, lowered(names), lowered(before), n);
    if j < unique(before, lowered(before)).len() {
        unique_differ(before, i, j);
    } else {
        let k = unique_comes_from(before, i);
        assert(names[k] == before[k]);
        assert(lowered(names)[k] == lowercase(names[k]));
        assert(lowered(names)[n] == lowercase(names[n]));
    }
}

/// Every model that an endpoint reports is offered in some spelling, unless it is blank.
pub proof fn every_model_is_offered(models: Seq<Seq<char>>, k: int)
    requires
        0 <= k < models.len(),
        trim(models[k]).len() > 0,
    ensures
        exists|i: int|
            0 <= i < offered(models).len() && lowercase(#[trigger] offered(models)[i])
                == lowercase(trim(models[k])),
{
    let names = bare(models);
    unique_covers(names, k);
    let i = choose|i: int|
        0 <= i < unique(names, lowered(names)).len() && lowercase(
            #[trigger] unique(names, lowered(names))[i],
        ) == lowercase(names[k]);
    assert(lowercase(offered(models)[i]) == lowercase(trim(models[k])));
}

proof fn unique_covers(names: Seq<Seq<char>>, k: int)
    requires
        0 <= k < names.len(),
        names[k].len() > 0,
    ensures
        exists|i: int|
            0 <= i < unique(names, lowered(names)).len() && lowercase(
                #[trigger] unique(names, lowered(names))[i],
            ) == lowercase(names[k]),
    decreases names.len(),
{
    let n = names.len() - 1;
    let before = names.drop_last();
    let out = unique(names, lowered(names));
    keys_do_not_matter(names, lowered(names), lowered(before), n);
    let rest = unique(before, lowered(before));
    assert(forall|i: int| 0 <= i < rest.len() ==> out[i] == #[trigger] rest[i]);
    if k < n {
        unique_covers(before, k);
        let i = choose|i: int|
            0 <= i < rest.len() && lowercase(#[trigger] rest[i]) == lowercase(before[k]);
        assert(out[i] == rest[i]);
    } else if is_new(names, lowered(names), n) {
        assert(out[out.len() - 1] == names[n]);
    } else {
        let j = choose|j: int|
            0 <= j < n && (#[trigger] names[j]).len() > 0 && lowered(names)[j] == lowered(names)[n];
        assert(lowered(names)[j] == lowercase(names[j]));
        assert(lowered(names)[n] == lowercase(names[n]));
        assert(before[j] == names[j]);
        unique_covers(before, j);
        let i = choose|i: int|
            0 <= i < rest.len() && lowercase(#[trigger] rest[i]) == lowercase(before[j]);
        assert(out[i] == rest[i]);
    }
}

/// A text of at most so many characters. The mark at the cut counts.
pub open spec fn shortened(s: Seq<char>, max: nat) -> Seq<char> {
    if s.len() <= max {
        s
    } else if max == 0 {
        Seq::empty()
    } else {
        s.take(max - 1).push('…')
    }
}

/// A text of at most so many characters.
pub fn truncate_chars(text: &str, max: usize) -> (s: String)
    ensures
        s@ == shortened(text@, max as nat),
{
    let chars = chars_of(text);
    if chars.len() <= max {
        return owned(text);
    }
    if max == 0 {
        return String::new();
    }
    let mut s = string_of(chars.as_slice(), 0, max - 1);
    assert(s@ =~= text@.take(max - 1));
    s.push('…');
    s
}

/// A cut text keeps to its budget, and what is left of it stands at its beginning.
pub proof fn a_cut_keeps_to_its_budget(s: Seq<char>, max: nat)
    ensures
        shortened(s, max).len() <= max,
        s.len() > max > 0 ==> shortened(s, max).drop_last() == s.take(max - 1),
{
    if s.len() > max > 0 {
        assert(shortened(s, max).drop_last() =~= s.take(max - 1));
    }
}

/// A name without the path that some endpoints put before every name.
pub open spec fn unprefixed(model: Seq<char>) -> Seq<char> {
    let prefix = seq!['m', 'o', 'd', 'e', 'l', 's', '/'];
    if model.len() >= 7 && model.take(7) == prefix {
        model.skip(7)
    } else {
        model
    }
}

/// What a row of the list shows for a model.
pub fn display_name(model: &str) -> (s: String)
    ensures
        s@ == shortened(unprefixed(model@), MAX_DISPLAY_CHARS as nat),
{
    let chars = chars_of(model);
    let prefixed: bool = chars.len() >= 7 && chars[0] == 'm' && chars[1] == 'o' && chars[2] == 'd'
        && chars[3] == 'e' && chars[4] == 'l' && chars[5] == 's' && chars[6] == '/';
    if prefixed {
        assert(model@.take(7) =~= seq!['m', 'o', 'd', 'e', 'l', 's', '/']);
        let rest = string_of(chars.as_slice(), 7, chars.len());
        assert(rest@ =~= model@.skip(7));
        truncate_chars(rest.as_str(), MAX_DISPLAY_CHARS)
    } else {
        proof {
            if model@.len() >= 7 && model@.take(7) == seq!['m', 'o', 'd', 'e', 'l', 's', '/'] {
                assert(forall|i: int| 0 <= i < 7 ==> model@.take(7)[i] == model@[i]);
                assert(model@.take(7)[0] == 'm' && model@.take(7)[1] == 'o' && model@.take(7)[2]
                    == 'd' && model@.take(7)[3] == 'e' && model@.take(7)[4] == 'l'
                    && model@.take(7)[5] == 's' && model@.take(7)[6] == '/');
            }
        }
        truncate_chars(model, MAX_DISPLAY_CHARS)
    }
}

/// Where a step leaves the cursor: no further than the ends. Without a cursor the step enters
/// from the end that it comes from.
pub open spec fn stepped(current: Option<int>, delta: int, count: int) -> Option<int> {
    if count == 0 {
        None
    } else {
        match current {
            Some(index) => Some(
                if index + delta < 0 {
                    0
                } else if index + delta > count - 1 {
                    count - 1
                } else {
                    index + delta
                },
            ),
            None => Some(
                if delta > 0 {
                    0
                } else {
                    count - 1
                },
            ),
        }
    }
}

/// The index in an option, as a number.
pub open spec fn index_of(cursor: Option<usize>) -> Option<int> {
    match cursor {
        Some(i) => Some(i as int),
        None => None,
    }
}

/// Where a step leaves the cursor.
pub fn next_cursor(current: Option<usize>, delta: i32, count: usize) -> (next: Option<usize>)
    requires
        count <= i32::MAX,
        current matches Some(index) ==> i32::MIN <= index + delta <= i32::MAX && index <= i32::MAX,
    ensures
        index_of(next) == stepped(index_of(current), delta as int, count as int),
{
    if count == 0 {
        return None;
    }
    let last: i32 = count as i32 - 1;
    match current {
        Some(index) => {
            let moved: i32 = index as i32 + delta;
            if moved < 0 {
                Some(0)
            } else if moved > last {
                Some(last as usize)
            } else {
                Some(moved as usize)
            }
        },
        None => if delta > 0 {
            Some(0)
        } else {
            Some(last as usize)
        },
    }
}

/// A letter of the English alphabet in its small form, any other character as it is.
pub open spec fn small(c: char) -> char {
    if 'A' <= c <= 'Z' {
        (c as u8 + 32) as char
    } else {
        c
    }
}

/// The texts are equal but for the case of letters of the English alphabet.
pub open spec fn same_letters(a: Seq<char>, b: Seq<char>) -> bool {
    a.len() == b.len() && forall|i: int| 0 <= i < a.len() ==> small(#[trigger] a[i]) == small(b[i])
}

fn to_small(c: char) -> (r: char)
    ensures
        r == small(c),
{
    if 'A' <= c && c <= 'Z' {
        (c as u8 + 32) as char
    } else {
        c
    }
}

fn eq_letters(a: &str, b: &str) -> (r: bool)
    ensures
        r == same_letters(a@, b@),
{
    let x = chars_of(a);
    let y = chars_of(b);
    if x.len() != y.len() {
        return false;
    }
    let mut i: usize = 0;
    while i < x.len()
        invariant
            x@ == a@,
            y@ == b@,
            x@.len() == y@.len(),
            i <= x@.len(),
            forall|k: int| 0 <= k < i ==> small(#[trigger] a@[k]) == small(b@[k]),
        decreases x.len() - i,
    {
        if to_small(x[i]) != to_small(y[i]) {
            assert(small(a@[i as int]) != small(b@[i as int]));
            return false;
        }
        i = i + 1;
    }
    true
}

/// The first item from `from` on that equals the text but for case, or the length.
pub open spec fn place(items: Seq<Seq<char>>, text: Seq<char>, from: int) -> int
    decreases items.len() - from,
{
    if from >= items.len() || from < 0 {
        items.len() as int
    } else if same_letters(items[from], text) {
        from
    } else {
        place(items, text, from + 1)
    }
}

/// What the list shows and where its cursor is.
#[derive(Debug)]
pub struct ListState {
    /// The models that are offered.
    pub models: Vec<String>,
    /// The models that the rows stand for.
    pub displayed: Vec<String>,
    /// The row under the cursor.
    pub cursor: Option<usize>,
}

/// The cursor on the first of so many rows.
pub open spec fn first_row(count: int) -> Option<int> {
    if count > 0 {
        Some(0)
    } else {
        None
    }
}

impl ListState {
    /// The cursor stands on a row, and rows can be counted in 32 bits.
    pub open spec fn wf(self) -> bool {
        self.models@.len() <= i32::MAX && self.displayed@.len() < i32::MAX && (self.cursor matches Some(
            i,
        ) ==> i < self.displayed@.len())
    }

    /// A list of nothing.
    pub fn new() -> (s: ListState)
        ensures
            s.wf(),
            s.models@.len() == 0,
            s.displayed@.len() == 0,
            s.cursor is None,
    {
        ListState { models: Vec::new(), displayed: Vec::new(), cursor: None }
    }

    /// Takes over the models that an endpoint reports. The rows stay until they are filled anew.
    pub fn set_models(&mut self, models: &[String])
        requires
            old(self).wf(),
            models@.len() < i32::MAX,
        ensures
            final(self).wf(),
            views(final(self).models@) == offered(views(models@)),
            final(self).displayed@ == old(self).displayed@,
            final(self).cursor == old(self).cursor,
    {
        let list = dedupe_models(models);
        proof {
            unique_is_short(bare(views(models@)), lowered(bare(views(models@))));
            assert(views(list@).len() == list@.len());
            assert(views(models@).len() == models@.len());
        }
        self.models = list;
    }

    /// How many models are offered.
    pub fn count(&self) -> (n: usize)
        ensures
            n == self.models@.len(),
    {
        self.models.len()
    }

    /// Fills the rows with what the query finds. The cursor goes to the first row.
    pub fn refill(&mut self, query: &str)
        requires
            old(self).models@.len() < i32::MAX,
        ensures
            final(self).wf(),
            final(self).models@ == old(self).models@,
            views(final(self).displayed@) == found(views(old(self).models@), query@),
            index_of(final(self).cursor) == first_row(final(self).displayed@.len() as int),
    {
        let rows = filter_models(self.models.as_slice(), query);
        proof {
            found_is_short(views(self.models@), query@);
            assert(views(rows@).len() == rows@.len());
            assert(views(self.models@).len() == self.models@.len());
        }
        self.cursor = if rows.len() > 0 {
            Some(0)
        } else {
            None
        };
        self.displayed = rows;
    }

    /// Moves the cursor.
    pub fn step(&mut self, delta: i32)
        requires
            old(self).wf(),
            old(self).cursor matches Some(i) ==> i32::MIN <= i + delta <= i32::MAX,
        ensures
            final(self).wf(),
            final(self).models@ == old(self).models@,
            final(self).displayed@ == old(self).displayed@,
            index_of(final(self).cursor) == stepped(
                index_of(old(self).cursor),
                delta as int,
                old(self).displayed@.len() as int,
            ),
    {
        self.cursor = next_cursor(self.cursor, delta, self.displayed.len());
    }

    /// The model that a row stands for.
    pub fn model_at(&self, index: i32) -> (r: Option<String>)
        ensures
            view_of(r) == if 0 <= index < self.displayed@.len() {
                Some(self.displayed@[index as int]@)
            } else {
                None
            },
    {
        if index < 0 || index as usize >= self.displayed.len() {
            return None;
        }
        Some(self.displayed[index as usize].clone())
    }

    /// The model under the cursor.
    pub fn selected(&self) -> (r: Option<String>)
        requires
            self.wf(),
        ensures
            view_of(r) == match self.cursor {
                Some(i) => Some(self.displayed@[i as int]@),
                None => None,
            },
    {
        match self.cursor {
            Some(i) => self.model_at(i as i32),
            None => None,
        }
    }

    /// Puts the cursor on the row that the field holds, or else on the first one.
    pub fn highlight_current(&mut self, current: &str)
        requires
            old(self).wf(),
        ensures
            final(self).wf(),
            final(self).models@ == old(self).models@,
            final(self).displayed@ == old(self).displayed@,
            ({
                let rows = views(old(self).displayed@);
                let at = place(rows, trim(current@), 0);
                index_of(final(self).cursor) == if at < rows.len() {
                    Some(at)
                } else {
                    first_row(rows.len() as int)
                }
            }),
    {
        let wanted = trimmed(current);
        let ghost rows = views(self.displayed@);
        let mut i: usize = 0;
        while i < self.displayed.len() && !eq_letters(
            self.displayed[i].as_str(),
            wanted.as_str(),
        )
            invariant
                wanted@ == trim(current@),
                rows == views(self.displayed@),
                i <= self.displayed@.len(),
                self.displayed@ == old(self).displayed@,
                self.models@ == old(self).models@,
                old(self).wf(),
                place(rows, wanted@, 0) == place(rows, wanted@, i as int),
            decreases self.displayed.len() - i,
        {
            assert(rows[i as int] == self.displayed@[i as int]@);
            i = i + 1;
        }
        if i < self.displayed.len() {
            assert(rows[i as int] == self.displayed@[i as int]@);
            self.cursor = Some(i);
        } else if self.displayed.len() > 0 {
            self.cursor = Some(0);
        } else {
            self.cursor = None;
        }
    }

    /// What stands in place of the rows if there are none.
    pub fn hint(&self) -> (r: Option<&'static str>)
        ensures
            r == if self.displayed@.len() > 0 {
                None
            } else if self.models@.len() == 0 {
                Some(UNFETCHED_HINT)
            } else {
                Some(UNMATCHED_HINT)
            },
    {
        if self.displayed.len() > 0 {
            None
        } else if self.models.len() == 0 {
            Some(UNFETCHED_HINT)
        } else {
            Some(UNMATCHED_HINT)
        }
    }

    /// What the button says: how many models there are, once some were fetched.
    pub fn tooltip(&self) -> (s: String)
        ensures
            s@ == if self.models@.len() == 0 {
                BUTTON_TOOLTIP@
            } else {
                "选择模型（接口返回 "@ + decimal(self.models@.len()) + " 个）"@
            },
    {
        let count: usize = self.models.len();
        if count == 0 {
            return owned(BUTTON_TOOLTIP);
        }
        let mut s = owned("选择模型（接口返回 ");
        let digits = decimal_of(count as u64);
        s.append(digits.as_str());
        s.append(" 个）");
        assert(s@ =~= "选择模型（接口返回 "@ + decimal(self.models@.len()) + " 个）"@);
        s
    }
}

proof fn unique_is_short(names: Seq<Seq<char>>, keys: Seq<Seq<char>>)
    ensures
        unique(names, keys).len() <= names.len(),
    decreases names.len(),
{
    if names.len() > 0 {
        unique_is_short(names.drop_last(), keys);
    }
}

proof fn matching_is_short(items: Seq<Seq<char>>, keys: Seq<Seq<char>>, needle: Seq<char>)
    ensures
        matching(items, keys, needle).len() <= items.len(),
    decreases items.len(),
{
    if items.len() > 0 {
        matching_is_short(items.drop_last(), keys, needle);
    }
}

proof fn found_is_short(models: Seq<Seq<char>>, query: Seq<char>)
    ensures
        found(models, query).len() <= models.len(),
{
    matching_is_short(models, lowered(models), lowercase(trim(query)));
}

/// A search only ever finds models of the list.
pub proof fn a_search_finds_models(models: Seq<Seq<char>>, query: Seq<char>, i: int)
    requires
        0 <= i < found(models, query).len(),
    ensures
        models.contains(found(models, query)[i]),
{
    if lowercase(trim(query)).len() > 0 {
        matching_comes_from(models, lowered(models), lowercase(trim(query)), i);
    }
}

proof fn matching_comes_from(
    items: Seq<Seq<char>>,
    keys: Seq<Seq<char>>,
    needle: Seq<char>,
    i: int,
)
    requires
        0 <= i < matching(items, keys, needle).len(),
    ensures
        items.contains(matching(items, keys, needle)[i]),
    decreases items.len(),
{
    let rest = matching(items.drop_last(), keys, needle);
    if i < rest.len() {
        matching_comes_from(items.drop_last(), keys, needle, i);
        let k = choose|k: int| 0 <= k < items.len() - 1 && items.drop_last()[k] == rest[i];
        assert(items[k] == rest[i]);
    } else {
        assert(items[items.len() - 1] == items.last());
    }
}

/// A key in the list.
#[derive(Debug, Clone, Copy, PartialEq, Eq, Structural)]
pub enum PickerKey {
    Escape,
    Up,
    Down,
    Return,
    Space,
    Other,
}

/// What a key does in the list.
#[derive(Debug, Clone, Copy, PartialEq, Eq, Structural)]
pub enum PickerAction {
    Close,
    Previous,
    Next,
    Commit,
}

/// What a key does in the list. While the search field has the focus a space is a character.
pub fn picker_action(key: PickerKey, searching: bool) -> (r: Option<PickerAction>)
    ensures
        r == match key {
            PickerKey::Escape => Some(PickerAction::Close),
            PickerKey::Up => Some(PickerAction::Previous),
            PickerKey::Down => Some(PickerAction::Next),
            PickerKey::Return => Some(PickerAction::Commit),
            PickerKey::Space => if searching {
                None
            } else {
                Some(PickerAction::Commit)
            },
            PickerKey::Other => None,
        },
{
    match key {
        PickerKey::Escape => Some(PickerAction::Close),
        PickerKey::Up => Some(PickerAction::Previous),
        PickerKey::Down => Some(PickerAction::Next),
        PickerKey::Return => Some(PickerAction::Commit),
        PickerKey::Space => if searching {
            None
        } else {
            Some(PickerAction::Commit)
        },
        PickerKey::Other => None,
    }
}

proof fn a_match_is_a_model(
    items: Seq<Seq<char>>,
    keys: Seq<Seq<char>>,
    needle: Seq<char>,
    i: int,
) -> (k: int)
    requires
        keys.len() >= items.len(),
        0 <= i < matching(items, keys, needle).len(),
    ensures
        0 <= k < items.len(),
        matching(items, keys, needle)[i] == items[k],
        occurs(keys[k], needle),
    decreases items.len(),
{
    let front = items.drop_last();
    let rest = matching(front, keys, needle);
    if i < rest.len() {
        a_match_is_a_model(front, keys, needle, i)
    } else {
        items.len() - 1
    }
}

proof fn a_model_is_matched(
    items: Seq<Seq<char>>,
    keys: Seq<Seq<char>>,
    needle: Seq<char>,
    k: int,
) -> (i: int)
    requires
        keys.len() >= items.len(),
        0 <= k < items.len(),
        occurs(keys[k], needle),
    ensures
        0 <= i < matching(items, keys, needle).len(),
        matching(items, keys, needle)[i] == items[k],
    decreases items.len(),
{
    let front = items.drop_last();
    if k < front.len() {
        a_model_is_matched(front, keys, needle, k)
    } else {
        matching(front, keys, needle).len() as int
    }
}

/// A search lists exactly the models whose name holds what was typed, in whatever case and without
/// white space around it. A blank search lists them all.
pub proof fn a_search_lists_what_was_typed(
    models: &[String],
    query: &str,
    out: Vec<String>,
    k: int,
    j: int,
)
    requires
        call_ensures(filter_models, (models, query), out),
        0 <= k < models@.len(),
    ensures
        lowercase(trim(query@)).len() == 0 ==> views(out@) == views(models@),
        occurs(lowercase(models@[k]@), lowercase(trim(query@))) ==> views(out@).contains(
            models@[k]@,
        ),
        0 <= j < out@.len() ==> views(models@).contains(out@[j]@) && (lowercase(
            trim(query@),
        ).len() > 0 ==> occurs(lowercase(out@[j]@), lowercase(trim(query@)))),
{
    let m = views(models@);
    let o = views(out@);
    assert(m.len() == models@.len() && o.len() == out@.len());
    let needle = lowercase(trim(query@));
    let keys = lowered(m);
    assert(m[k] == models@[k]@ && keys[k] == lowercase(m[k]));
    if needle.len() == 0 {
        assert(o[k] == m[k]);
    } else if occurs(keys[k], needle) {
        let i = a_model_is_matched(m, keys, needle, k);
        assert(o[i] == m[k]);
    }
    if 0 <= j < out@.len() {
        assert(o[j] == out@[j]@);
        if needle.len() == 0 {
            assert(m[j] == o[j]);
        } else {
            let i = a_match_is_a_model(m, keys, needle, j);
            assert(keys[i] == lowercase(m[i]));
            assert(m[i] == o[j]);
        }
    }
}

/// What occurs in a text is a part of it.
pub proof fn what_occurs_is_a_part(s: Seq<char>, needle: Seq<char>)
    ensures
        occurs(s, needle) <==> exists|before: Seq<char>, after: Seq<char>|
            s == #[trigger] (before + needle + after),
{
    if occurs(s, needle) {
        let i = choose|i: int|
            0 <= i <= s.len() - needle.len() && #[trigger] s.subrange(i, i + needle.len()) == needle;
        let (before, after) = (s.take(i), s.skip(i + needle.len()));
        assert forall|k: int| 0 <= k < needle.len() implies s[i + k] == needle[k] by {
            assert(s.subrange(i, i + needle.len())[k] == needle[k]);
        }
        assert(s =~= before + needle + after);
    }
    if exists|before: Seq<char>, after: Seq<char>| s == #[trigger] (before + needle + after) {
        let (before, after) = choose|before: Seq<char>, after: Seq<char>|
            s == #[trigger] (before + needle + after);
        let i = before.len() as int;
        assert(s.subrange(i, i + needle.len()) =~= needle);
    }
}

/// A step moves the cursor by as many rows, stops at the first and at the last row, and starts at the
/// end it comes from. An empty list has no cursor.
pub proof fn a_step_moves_the_cursor(
    current: Option<usize>,
    delta: i32,
    count: usize,
    next: Option<usize>,
)
    requires
        call_ensures(next_cursor, (current, delta, count), next),
        current matches Some(i) ==> i < count,
    ensures
        next is None <==> count == 0,
        next matches Some(i) ==> i < count,
        current is Some && 0 <= current->0 + delta < count ==> next is Some && next->0
            == current->0 + delta,
        current is Some && current->0 + delta < 0 ==> next is Some && next->0 == 0,
        current is Some && current->0 + delta >= count ==> next is Some && next->0 == count - 1,
        current is None && count > 0 && delta > 0 ==> next is Some && next->0 == 0,
        current is None && count > 0 && delta <= 0 ==> next is Some && next->0 == count - 1,
{
}

/// A cut text is the start of the text with an ellipsis, as long as allowed; a text that fits is left
/// as it is.
pub proof fn a_cut_text_is_its_start(text: &str, max: usize, s: String)
    requires
        call_ensures(truncate_chars, (text, max), s),
    ensures
        s@.len() <= max,
        text@.len() <= max ==> s@ == text@,
        text@.len() > max > 0 ==> s@.len() == max && s@.last() == '…' && s@.take(max - 1)
            == text@.take(max - 1),
{
    if text@.len() > max > 0 {
        assert(s@.take(max - 1) =~= text@.take(max - 1));
    }
}

/// A model is shown by its name, without the prefix that some interfaces put before it, cut to 64
/// characters.
pub proof fn a_model_is_shown_by_its_name(model: &str, s: String)
    requires
        call_ensures(display_name, (model,), s),
    ensures
        s@.len() <= 64,
        model@.len() >= 7 && model@.take(7) == seq!['m', 'o', 'd', 'e', 'l', 's', '/']
            && model@.len() <= 71 ==> s@ == model@.skip(7),
        model@.len() <= 64 && model@.take(7) != seq!['m', 'o', 'd', 'e', 'l', 's', '/'] ==> s@
            == model@,
{
}

proof fn place_is_the_first(items: Seq<Seq<char>>, text: Seq<char>, from: int)
    requires
        0 <= from,
    ensures
        from <= items.len() ==> from <= place(items, text, from) <= items.len(),
        place(items, text, from) < items.len() ==> same_letters(
            items[place(items, text, from)],
            text,
        ),
        forall|k: int|
            from <= k < place(items, text, from) && k < items.len() ==> !same_letters(
                #[trigger] items[k],
                text,
            ),
    decreases items.len() - from,
{
    if from < items.len() && !same_letters(items[from], text) {
        place_is_the_first(items, text, from + 1);
    }
}

/// The list opens at the current model, whatever its case, or at its first row.
pub proof fn the_list_opens_at_the_current_model(
    s: &mut ListState,
    current: &str,
    r: Option<String>,
    k: int,
)
    requires
        old(s).wf(),
        call_ensures(ListState::highlight_current, (s, current), ()),
        call_ensures(ListState::selected, (&*final(s),), r),
        0 <= k < old(s).displayed@.len(),
        old(s).displayed@[k]@ == trim(current@),
    ensures
        r is Some,
        (r->0)@.len() == trim(current@).len(),
        forall|i: int|
            0 <= i < (r->0)@.len() && !('A' <= trim(current@)[i] <= 'Z') && !('a' <= trim(
                current@,
            )[i] <= 'z') ==> #[trigger] (r->0)@[i] == trim(current@)[i],
        final(s).cursor matches Some(i) && i <= k,
{
    let rows = views(old(s).displayed@);
    let text = trim(current@);
    assert(rows[k] == old(s).displayed@[k]@);
    assert(same_letters(rows[k], text));
    place_is_the_first(rows, text, 0);
    let at = place(rows, text, 0);
    assert(at <= k);
    assert(rows[at] == old(s).displayed@[at]@);
    assert forall|i: int|
        0 <= i < rows[at].len() && !('A' <= text[i] <= 'Z') && !('a' <= text[i]
            <= 'z') implies #[trigger] rows[at][i] == text[i] by {
        assert(small(rows[at][i]) == small(text[i]));
        let c = rows[at][i];
        if 'A' <= c <= 'Z' {
            assert('a' <= (c as u8 + 32) as char <= 'z');
        }
    }
}

/// After a search the first row is chosen, and the model that a row shows is the one that it gives.
pub proof fn a_search_chooses_its_first_row(
    s: &mut ListState,
    query: &str,
    r: Option<String>,
    index: i32,
    at: Option<String>,
)
    requires
        old(s).models@.len() < i32::MAX,
        call_ensures(ListState::refill, (s, query), ()),
        call_ensures(ListState::selected, (&*final(s),), r),
        call_ensures(ListState::model_at, (&*final(s), index), at),
    ensures
        r is None <==> final(s).displayed@.len() == 0,
        r is Some ==> (r->0)@ == final(s).displayed@[0]@,
        at is Some <==> 0 <= index < final(s).displayed@.len(),
        at is Some ==> (at->0)@ == final(s).displayed@[index as int]@,
        final(s).models@ == old(s).models@,
{
}

/// Models that are offered differ in more than case, none is blank, and each that was returned is
/// among them.
pub proof fn each_model_is_offered_once(models: &[String], out: Vec<String>, k: int, i: int, j: int)
    requires
        call_ensures(dedupe_models, (models,), out),
        0 <= k < models@.len(),
        0 <= i < j < out@.len(),
    ensures
        lowercase(out@[i]@) != lowercase(out@[j]@),
        out@[i]@.len() > 0 && out@[j]@.len() > 0,
        trim(models@[k]@).len() > 0 ==> exists|l: int|
            0 <= l < out@.len() && lowercase((#[trigger] out@[l])@) == lowercase(
                trim(models@[k]@),
            ),
{
    let (m, o) = (views(models@), views(out@));
    assert(m[k] == models@[k]@ && o[i] == out@[i]@ && o[j] == out@[j]@);
    offered_models_differ(m, i, j);
    if trim(m[k]).len() > 0 {
        every_model_is_offered(m, k);
        let l = choose|l: int|
            0 <= l < o.len() && lowercase(#[trigger] o[l]) == lowercase(trim(m[k]));
        assert(o[l] == out@[l]@);
    }
}

/// Escape always closes the list, the arrows move in it, and the space bar chooses only outside of
/// the search.
pub proof fn keys_act_on_the_list(searching: bool, key: PickerKey, r: Option<PickerAction>)
    requires
        call_ensures(picker_action, (key, searching), r),
    ensures
        r == Some(PickerAction::Close) <==> key is Escape,
        r == Some(PickerAction::Previous) <==> key is Up,
        r == Some(PickerAction::Next) <==> key is Down,
        r == Some(PickerAction::Commit) <==> key is Return || (key is Space && !searching),
{
}

} // verus!
