//! Strings as sequences of characters: trimming, splitting, joining and decimal
//! numbers. Everything that reads or builds text in this crate goes through here.

use vstd::prelude::*;

verus! {

/// `String::push` appends one character.
pub assume_specification[ String::push ](s: &mut String, c: char)
    ensures
        final(s)@ == old(s)@.push(c),
;

/// The characters of `s`, in order.
pub fn chars_of(s: &str) -> (v: Vec<char>)
    ensures
        v@ == s@,
{
    let mut v: Vec<char> = Vec::new();
    for c in it: s.chars()
        invariant
            v@ == it.seq().take(it.index() as int),
            it.seq() == s@,
    {
        v.push(c);
    }
    v
}

/// The string made of `v[from..to]`.
pub fn string_of(v: &[char], from: usize, to: usize) -> (s: String)
    requires
        from <= to <= v@.len(),
    ensures
        s@ == v@.subrange(from as int, to as int),
{
    let mut s = String::new();
    let mut i: usize = from;
    while i < to
        invariant
            from <= i <= to <= v@.len(),
            s@ == v@.subrange(from as int, i as int),
        decreases to - i,
    {
        s.push(v[i]);
        i = i + 1;
    }
    s
}

/// A fresh copy of a string slice.
pub fn owned(s: &str) -> (r: String)
    ensures
        r@ == s@,
{
    let mut r = String::new();
    r.append(s);
    assert(r@ =~= s@);
    r
}

/// Whether two character sequences are equal.
pub fn same_chars(a: &[char], b: &[char]) -> (r: bool)
    ensures
        r == (a@ == b@),
{
    if a.len() != b.len() {
        return false;
    }
    let mut i: usize = 0;
    while i < a.len()
        invariant
            i <= a@.len(),
            a@.len() == b@.len(),
            forall|k: int| 0 <= k < i ==> a@[k] == b@[k],
        decreases a.len() - i,
    {
        if a[i] != b[i] {
            return false;
        }
        i = i + 1;
    }
    assert(a@ =~= b@);
    true
}

/// Whether two strings hold the same characters.
pub fn same(a: &str, b: &str) -> (r: bool)
    ensures
        r == (a@ == b@),
{
    let left = chars_of(a);
    let right = chars_of(b);
    same_chars(left.as_slice(), right.as_slice())
}

/// The characters with the Unicode property `White_Space`.
pub open spec fn is_blank(c: char) -> bool {
    ||| '\u{9}' <= c <= '\u{d}'
    ||| c == ' '
    ||| c == '\u{85}'
    ||| c == '\u{a0}'
    ||| c == '\u{1680}'
    ||| '\u{2000}' <= c <= '\u{200a}'
    ||| c == '\u{2028}'
    ||| c == '\u{2029}'
    ||| c == '\u{202f}'
    ||| c == '\u{205f}'
    ||| c == '\u{3000}'
}

/// Whether `c` is white space.
pub fn blank(c: char) -> (r: bool)
    ensures
        r == is_blank(c),
{
    (c >= '\u{9}' && c <= '\u{d}') || c == ' ' || c == '\u{85}' || c == '\u{a0}' || c == '\u{1680}'
        || (c >= '\u{2000}' && c <= '\u{200a}') || c == '\u{2028}' || c == '\u{2029}' || c
        == '\u{202f}' || c == '\u{205f}' || c == '\u{3000}'
}

/// `s` without its leading white space.
pub open spec fn trim_start(s: Seq<char>) -> Seq<char>
    decreases s.len(),
{
    if s.len() > 0 && is_blank(s[0]) {
        trim_start(s.drop_first())
    } else {
        s
    }
}

/// `s` without its trailing white space.
pub open spec fn trim_end(s: Seq<char>) -> Seq<char>
    decreases s.len(),
{
    if s.len() > 0 && is_blank(s.last()) {
        trim_end(s.drop_last())
    } else {
        s
    }
}

/// `s` without white space at either end.
pub open spec fn trim(s: Seq<char>) -> Seq<char> {
    trim_end(trim_start(s))
}

/// Index of the first character of `v[from..to]` that is not white space, or `to`.
pub fn skip_blank(v: &[char], from: usize, to: usize) -> (i: usize)
    requires
        from <= to <= v@.len(),
    ensures
        from <= i <= to,
        trim_start(v@.subrange(from as int, to as int)) == v@.subrange(i as int, to as int),
{
    let mut i: usize = from;
    while i < to && blank(v[i])
        invariant
            from <= i <= to <= v@.len(),
            trim_start(v@.subrange(from as int, to as int)) == trim_start(
                v@.subrange(i as int, to as int),
            ),
        decreases to - i,
    {
        proof {
            let rest = v@.subrange(i as int, to as int);
            assert(rest[0] == v@[i as int]);
            assert(rest.drop_first() =~= v@.subrange(i + 1, to as int));
        }
        i = i + 1;
    }
    proof {
        let rest = v@.subrange(i as int, to as int);
        if i < to {
            assert(rest[0] == v@[i as int]);
        }
    }
    i
}

/// End of `v[from..to]` once its trailing white space is cut away.
pub fn cut_blank(v: &[char], from: usize, to: usize) -> (i: usize)
    requires
        from <= to <= v@.len(),
    ensures
        from <= i <= to,
        trim_end(v@.subrange(from as int, to as int)) == v@.subrange(from as int, i as int),
{
    let mut i: usize = to;
    while i > from && blank(v[i - 1])
        invariant
            from <= i <= to <= v@.len(),
            trim_end(v@.subrange(from as int, to as int)) == trim_end(
                v@.subrange(from as int, i as int),
            ),
        decreases i,
    {
        proof {
            let rest = v@.subrange(from as int, i as int);
            assert(rest.last() == v@[i - 1]);
            assert(rest.drop_last() =~= v@.subrange(from as int, i - 1));
        }
        i = i - 1;
    }
    proof {
        let rest = v@.subrange(from as int, i as int);
        if i > from {
            assert(rest.last() == v@[i - 1]);
        }
    }
    i
}

/// `s` without white space at either end.
pub fn trimmed(s: &str) -> (r: String)
    ensures
        r@ == trim(s@),
{
    let v = chars_of(s);
    assert(v@.subrange(0, v@.len() as int) =~= s@);
    let from: usize = skip_blank(v.as_slice(), 0, v.len());
    let to: usize = cut_blank(v.as_slice(), from, v.len());
    string_of(v.as_slice(), from, to)
}

/// Trimming keeps a contiguous part of the text whose ends are not white space.
pub proof fn trim_is_a_part(s: Seq<char>)
    ensures
        exists|i: int, j: int|
            0 <= i <= j <= s.len() && trim(s) == #[trigger] s.subrange(i, j),
        trim(s).len() > 0 ==> !is_blank(trim(s)[0]) && !is_blank(trim(s).last()),
{
    trim_start_is_a_suffix(s);
    let i = choose|i: int| 0 <= i <= s.len() && trim_start(s) == #[trigger] s.subrange(
        i,
        s.len() as int,
    );
    let t = trim_start(s);
    trim_end_is_a_prefix(t);
    let j = choose|j: int| 0 <= j <= t.len() && trim_end(t) == #[trigger] t.subrange(0, j);
    assert(t.subrange(0, j) =~= s.subrange(i, i + j));
    if trim(s).len() > 0 {
        assert(trim(s)[0] == t[0]);
    }
}

proof fn trim_start_is_a_suffix(s: Seq<char>)
    ensures
        exists|i: int|
            0 <= i <= s.len() && trim_start(s) == #[trigger] s.subrange(i, s.len() as int),
        trim_start(s).len() > 0 ==> !is_blank(trim_start(s)[0]),
    decreases s.len(),
{
    if s.len() > 0 && is_blank(s[0]) {
        let t = s.drop_first();
        trim_start_is_a_suffix(t);
        let i = choose|i: int| 0 <= i <= t.len() && trim_start(t) == #[trigger] t.subrange(
            i,
            t.len() as int,
        );
        assert(t.subrange(i, t.len() as int) =~= s.subrange(i + 1, s.len() as int));
    } else {
        assert(s.subrange(0, s.len() as int) =~= s);
    }
}

proof fn trim_end_is_a_prefix(s: Seq<char>)
    ensures
        exists|j: int| 0 <= j <= s.len() && trim_end(s) == #[trigger] s.subrange(0, j),
        trim_end(s).len() > 0 ==> !is_blank(trim_end(s).last()),
    decreases s.len(),
{
    if s.len() > 0 && is_blank(s.last()) {
        let t = s.drop_last();
        trim_end_is_a_prefix(t);
        let j = choose|j: int| 0 <= j <= t.len() && trim_end(t) == #[trigger] t.subrange(0, j);
        assert(t.subrange(0, j) =~= s.subrange(0, j));
    } else {
        assert(s.subrange(0, s.len() as int) =~= s);
    }
}

/// The decimal digit of a value below ten.
pub open spec fn digit_char(d: nat) -> char {
    (d + 48) as char
}

/// A number in decimal, without leading zeros.
pub open spec fn decimal(n: nat) -> Seq<char>
    decreases n,
{
    if n < 10 {
        seq![digit_char(n)]
    } else {
        decimal(n / 10).push(digit_char(n % 10))
    }
}

fn digit(d: u64) -> (c: char)
    requires
        d < 10,
    ensures
        c == digit_char(d as nat),
{
    (d as u8 + 48) as char
}

/// `n` in decimal.
pub fn decimal_of(n: u64) -> (s: String)
    ensures
        s@ == decimal(n as nat),
    decreases n,
{
    if n < 10 {
        let mut s = String::new();
        s.push(digit(n));
        assert(s@ =~= decimal(n as nat));
        s
    } else {
        let mut s = decimal_of(n / 10);
        s.push(digit(n % 10));
        s
    }
}

/// Position of the first `c` in `s` at or after `from`, or the end of `s`.
pub open spec fn find_from(s: Seq<char>, c: char, from: int) -> int
    decreases s.len() - from,
{
    if from >= s.len() {
        s.len() as int
    } else if s[from] == c {
        from
    } else {
        find_from(s, c, from + 1)
    }
}

pub fn find(v: &[char], c: char, from: usize) -> (i: usize)
    requires
        from <= v@.len(),
    ensures
        i == find_from(v@, c, from as int),
        from <= i <= v@.len(),
        i < v@.len() ==> v@[i as int] == c,
        forall|k: int| from <= k < i ==> v@[k] != c,
{
    let mut i: usize = from;
    while i < v.len() && v[i] != c
        invariant
            from <= i <= v@.len(),
            find_from(v@, c, from as int) == find_from(v@, c, i as int),
            forall|k: int| from <= k < i ==> v@[k] != c,
        decreases v.len() - i,
    {
        i = i + 1;
    }
    i
}

pub proof fn find_from_bounds(s: Seq<char>, c: char, from: int)
    requires
        0 <= from <= s.len(),
    ensures
        from <= find_from(s, c, from) <= s.len(),
        find_from(s, c, from) < s.len() ==> s[find_from(s, c, from)] == c,
        forall|k: int| from <= k < find_from(s, c, from) ==> s[k] != c,
    decreases s.len() - from,
{
    if from < s.len() && s[from] != c {
        find_from_bounds(s, c, from + 1);
    }
}

/// The pieces of `s[from..]` between occurrences of `c`. There is always at least one.
pub open spec fn split_from(s: Seq<char>, c: char, from: int) -> Seq<Seq<char>>
    decreases s.len() - from,
{
    let end = find_from(s, c, from);
    if from < 0 || end < from || end >= s.len() {
        seq![s.subrange(from, s.len() as int)]
    } else {
        seq![s.subrange(from, end)] + split_from(s, c, end + 1)
    }
}

/// The pieces of `s` between occurrences of `c`.
pub open spec fn split(s: Seq<char>, c: char) -> Seq<Seq<char>> {
    split_from(s, c, 0)
}

/// What an optional string holds.
pub open spec fn view_of(s: Option<String>) -> Option<Seq<char>> {
    match s {
        Some(s) => Some(s@),
        None => None,
    }
}

/// What a vector of strings holds, as a sequence of character sequences.
pub open spec fn views(v: Seq<String>) -> Seq<Seq<char>> {
    v.map_values(|s: String| s@)
}

/// The pieces of `v` between occurrences of `c`.
pub fn split_at(v: &[char], c: char) -> (pieces: Vec<String>)
    ensures
        views(pieces@) == split(v@, c),
        pieces@.len() > 0,
{
    let mut pieces: Vec<String> = Vec::new();
    let mut from: usize = 0;
    assert(views(pieces@) + split_from(v@, c, 0) =~= split(v@, c));
    loop
        invariant
            from <= v@.len(),
            views(pieces@) + split_from(v@, c, from as int) == split(v@, c),
        decreases v@.len() - from,
    {
        let end: usize = find(v, c, from);
        let ghost before = pieces@;
        if end >= v.len() {
            pieces.push(string_of(v, from, v.len()));
            assert(views(pieces@) =~= views(before) + split_from(v@, c, from as int));
            return pieces;
        }
        pieces.push(string_of(v, from, end));
        proof {
            assert(views(pieces@) =~= views(before) + seq![v@.subrange(from as int, end as int)]);
            assert(split_from(v@, c, from as int) == seq![v@.subrange(from as int, end as int)]
                + split_from(v@, c, end + 1));
            assert(views(pieces@) + split_from(v@, c, end + 1) =~= views(before) + split_from(
                v@,
                c,
                from as int,
            ));
        }
        from = end + 1;
    }
}

/// `s` without one trailing carriage return.
pub open spec fn strip_return(s: Seq<char>) -> Seq<char> {
    if s.len() > 0 && s.last() == '\r' {
        s.drop_last()
    } else {
        s
    }
}

/// The lines of a text: pieces between line feeds, each without a trailing carriage
/// return, and no line after a final line feed.
pub open spec fn lines(s: Seq<char>) -> Seq<Seq<char>> {
    let pieces = split(s, '\n');
    let kept = if pieces.last().len() == 0 {
        pieces.drop_last()
    } else {
        pieces
    };
    Seq::new(
        kept.len(),
        |i: int|
            if i < pieces.len() - 1 {
                strip_return(kept[i])
            } else {
                kept[i]
            },
    )
}

/// The lines of a text.
pub fn lines_of(s: &str) -> (out: Vec<String>)
    ensures
        views(out@) == lines(s@),
{
    let v = chars_of(s);
    let pieces = split_at(v.as_slice(), '\n');
    let count: usize = pieces.len();
    let last_chars = chars_of(pieces[count - 1].as_str());
    assert(last_chars@ == views(pieces@).last());
    let kept: usize = if last_chars.len() == 0 {
        count - 1
    } else {
        count
    };
    let mut out: Vec<String> = Vec::new();
    let mut i: usize = 0;
    while i < kept
        invariant
            i <= kept <= count,
            count == pieces@.len(),
            views(pieces@) == split(s@, '\n'),
            kept == lines(s@).len(),
            out@.len() == i,
            forall|k: int| 0 <= k < i ==> (#[trigger] out@[k])@ == lines(s@)[k],
        decreases kept - i,
    {
        let piece = chars_of(pieces[i].as_str());
        assert(piece@ == views(pieces@)[i as int]);
        let n: usize = piece.len();
        let end: usize = if i + 1 < count && n > 0 && piece[n - 1] == '\r' {
            n - 1
        } else {
            n
        };
        let line = string_of(piece.as_slice(), 0, end);
        proof {
            assert(piece@.subrange(0, n as int) =~= piece@);
            if n > 0 {
                assert(piece@.subrange(0, n - 1) =~= piece@.drop_last());
            }
        }
        out.push(line);
        i = i + 1;
    }
    assert(views(out@) =~= lines(s@));
    out
}

/// The strings of `parts`, one after another, with `glue` between neighbours.
pub open spec fn join(parts: Seq<Seq<char>>, glue: Seq<char>) -> Seq<char>
    decreases parts.len(),
{
    if parts.len() == 0 {
        Seq::empty()
    } else if parts.len() == 1 {
        parts[0]
    } else {
        join(parts.drop_last(), glue) + glue + parts.last()
    }
}

/// The strings of `parts`, one after another, with `glue` between neighbours.
pub fn join_with(parts: &[String], glue: &str) -> (out: String)
    ensures
        out@ == join(views(parts@), glue@),
{
    let mut out = String::new();
    let mut i: usize = 0;
    assert(views(parts@).take(0) =~= Seq::<Seq<char>>::empty());
    while i < parts.len()
        invariant
            i <= parts@.len(),
            out@ == join(views(parts@).take(i as int), glue@),
        decreases parts.len() - i,
    {
        let ghost prefix = views(parts@).take(i + 1);
        proof {
            assert(prefix.drop_last() =~= views(parts@).take(i as int));
            assert(prefix.last() == parts@[i as int]@);
        }
        if i > 0 {
            out.append(glue);
        }
        out.append(parts[i].as_str());
        assert(out@ =~= join(prefix, glue@));
        i = i + 1;
    }
    assert(views(parts@).take(parts@.len() as int) =~= views(parts@));
    out
}

/// The pieces without white space around them, without empty ones, each once, in the order in which
/// they first occur.
pub open spec fn distinct(pieces: Seq<Seq<char>>) -> Seq<Seq<char>>
    decreases pieces.len(),
{
    if pieces.len() == 0 {
        Seq::empty()
    } else {
        let before = distinct(pieces.drop_last());
        let piece = trim(pieces.last());
        if piece.len() == 0 || before.contains(piece) {
            before
        } else {
            before.push(piece)
        }
    }
}

/// Whether some string of the list holds the same characters.
pub fn holds(list: &[String], s: &str) -> (r: bool)
    ensures
        r == views(list@).contains(s@),
{
    let mut i: usize = 0;
    while i < list.len()
        invariant
            i <= list@.len(),
            forall|k: int| 0 <= k < i ==> views(list@)[k] != s@,
        decreases list.len() - i,
    {
        if same(list[i].as_str(), s) {
            assert(views(list@)[i as int] == s@);
            return true;
        }
        i = i + 1;
    }
    false
}

/// The pieces without white space around them, without empty ones, each once.
pub fn distinct_of(pieces: &[String]) -> (out: Vec<String>)
    ensures
        views(out@) == distinct(views(pieces@)),
{
    let ghost all = views(pieces@);
    let mut out: Vec<String> = Vec::new();
    let mut i: usize = 0;
    assert(all.take(0) =~= Seq::<Seq<char>>::empty());
    while i < pieces.len()
        invariant
            all == views(pieces@),
            i <= pieces@.len(),
            views(out@) == distinct(all.take(i as int)),
        decreases pieces.len() - i,
    {
        let ghost next = all.take(i + 1);
        let ghost before = out@;
        proof {
            assert(next.drop_last() =~= all.take(i as int));
            assert(next.last() == pieces@[i as int]@);
        }
        let piece = trimmed(pieces[i].as_str());
        if chars_of(piece.as_str()).len() > 0 && !holds(out.as_slice(), piece.as_str()) {
            out.push(piece);
            assert(views(out@) =~= views(before).push(trim(next.last())));
        }
        i = i + 1;
    }
    assert(all.take(all.len() as int) =~= all);
    out
}

/// No piece is listed twice, none is empty, and each is one of the pieces without white space
/// around it.
pub proof fn distinct_pieces_differ(pieces: Seq<Seq<char>>)
    ensures
        distinct(pieces).no_duplicates(),
        forall|i: int| 0 <= i < distinct(pieces).len() ==> (#[trigger] distinct(pieces)[i]).len()
            > 0,
        forall|i: int|
            0 <= i < distinct(pieces).len() ==> exists|k: int|
                0 <= k < pieces.len() && #[trigger] distinct(pieces)[i] == trim(
                    #[trigger] pieces[k],
                ),
    decreases pieces.len(),
{
    if pieces.len() > 0 {
        let front = pieces.drop_last();
        distinct_pieces_differ(front);
        let before = distinct(front);
        let piece = trim(pieces.last());
        let all = distinct(pieces);
        assert forall|i: int| 0 <= i < all.len() implies exists|k: int|
            0 <= k < pieces.len() && #[trigger] all[i] == trim(#[trigger] pieces[k]) by {
            if i < before.len() {
                assert(all[i] == before[i]);
                let k = choose|k: int|
                    0 <= k < front.len() && #[trigger] before[i] == trim(#[trigger] front[k]);
                assert(front[k] == pieces[k]);
            } else {
                assert(all[i] == trim(pieces[pieces.len() - 1]));
            }
        }
    }
}

/// Every piece that is not blank is listed.
pub proof fn distinct_lists_every_piece(pieces: Seq<Seq<char>>, k: int)
    requires
        0 <= k < pieces.len(),
        trim(pieces[k]).len() > 0,
    ensures
        distinct(pieces).contains(trim(pieces[k])),
    decreases pieces.len(),
{
    let front = pieces.drop_last();
    let before = distinct(front);
    if k < front.len() {
        assert(front[k] == pieces[k]);
        distinct_lists_every_piece(front, k);
        let i = choose|i: int| 0 <= i < before.len() && before[i] == trim(pieces[k]);
        assert(distinct(pieces)[i] == before[i]);
    } else if !before.contains(trim(pieces[k])) {
        assert(distinct(pieces)[before.len() as int] == trim(pieces[k]));
    }
}

/// The first piece, if it is not blank, stays first.
pub proof fn distinct_keeps_the_first(pieces: Seq<Seq<char>>)
    requires
        pieces.len() > 0,
        trim(pieces[0]).len() > 0,
    ensures
        distinct(pieces).len() > 0,
        distinct(pieces)[0] == trim(pieces[0]),
    decreases pieces.len(),
{
    if pieces.len() > 1 {
        distinct_keeps_the_first(pieces.drop_last());
    } else {
        assert(pieces.drop_last() =~= Seq::<Seq<char>>::empty());
        assert(distinct(pieces.drop_last()) =~= Seq::<Seq<char>>::empty());
    }
}

/// The first `n` characters of a text, marked with an ellipsis if something was cut.
pub open spec fn clipped(s: Seq<char>, n: int) -> Seq<char> {
    if s.len() <= n {
        s
    } else {
        s.take(n).push('…')
    }
}

proof fn trimming_drops_blanks(s: Seq<char>)
    ensures
        exists|i: int, j: int|
            0 <= i <= j <= s.len() && trim(s) == #[trigger] s.subrange(i, j) && (forall|k: int|
                0 <= k < i || j <= k < s.len() ==> is_blank(#[trigger] s[k])),
        trim(s).len() > 0 ==> !is_blank(trim(s)[0]) && !is_blank(trim(s).last()),
{
    start_drops_blanks(s);
    let i = choose|i: int|
        0 <= i <= s.len() && trim_start(s) == #[trigger] s.subrange(i, s.len() as int) && (forall|
            k: int,
        |
            0 <= k < i ==> is_blank(#[trigger] s[k]));
    let t = trim_start(s);
    end_drops_blanks(t);
    let j = choose|j: int|
        0 <= j <= t.len() && trim_end(t) == #[trigger] t.subrange(0, j) && (forall|k: int|
            j <= k < t.len() ==> is_blank(#[trigger] t[k]));
    assert(t.subrange(0, j) =~= s.subrange(i, i + j));
    assert forall|k: int| 0 <= k < i || i + j <= k < s.len() implies is_blank(#[trigger] s[k]) by {
        if k >= i + j {
            assert(t[k - i] == s[k]);
        }
    }
    trim_is_a_part(s);
}

proof fn start_drops_blanks(s: Seq<char>)
    ensures
        exists|i: int|
            0 <= i <= s.len() && trim_start(s) == #[trigger] s.subrange(i, s.len() as int) && (
            forall|k: int| 0 <= k < i ==> is_blank(#[trigger] s[k])),
    decreases s.len(),
{
    if s.len() > 0 && is_blank(s[0]) {
        let t = s.drop_first();
        start_drops_blanks(t);
        let i = choose|i: int|
            0 <= i <= t.len() && trim_start(t) == #[trigger] t.subrange(i, t.len() as int) && (
            forall|k: int| 0 <= k < i ==> is_blank(#[trigger] t[k]));
        assert(t.subrange(i, t.len() as int) =~= s.subrange(i + 1, s.len() as int));
        assert forall|k: int| 0 <= k < i + 1 implies is_blank(#[trigger] s[k]) by {
            if k > 0 {
                assert(t[k - 1] == s[k]);
            }
        }
    } else {
        assert(s.subrange(0, s.len() as int) =~= s);
    }
}

proof fn end_drops_blanks(s: Seq<char>)
    ensures
        exists|j: int|
            0 <= j <= s.len() && trim_end(s) == #[trigger] s.subrange(0, j) && (forall|k: int|
                j <= k < s.len() ==> is_blank(#[trigger] s[k])),
    decreases s.len(),
{
    if s.len() > 0 && is_blank(s.last()) {
        let t = s.drop_last();
        end_drops_blanks(t);
        let j = choose|j: int|
            0 <= j <= t.len() && trim_end(t) == #[trigger] t.subrange(0, j) && (forall|k: int|
                j <= k < t.len() ==> is_blank(#[trigger] t[k]));
        assert(t.subrange(0, j) =~= s.subrange(0, j));
        assert forall|k: int| j <= k < s.len() implies is_blank(#[trigger] s[k]) by {
            if k < t.len() {
                assert(t[k] == s[k]);
            }
        }
    } else {
        assert(s.subrange(0, s.len() as int) =~= s);
    }
}

/// A trimmed text is the part of the text from its first to its last character that is not white
/// space: only white space is dropped, and neither end of what is left is white space.
pub proof fn trimming_drops_only_white_space(s: &str, r: String)
    requires
        call_ensures(trimmed, (s,), r),
    ensures
        exists|i: int, j: int|
            0 <= i <= j <= s@.len() && r@ == #[trigger] s@.subrange(i, j) && (forall|k: int|
                0 <= k < i || j <= k < s@.len() ==> is_blank(#[trigger] s@[k])),
        r@.len() > 0 ==> !is_blank(r@[0]) && !is_blank(r@[r@.len() - 1]),
{
    trimming_drops_blanks(s@);
}

/// White space is what Unicode takes for it: space, tab, line feed, carriage return, the wide space
/// of East Asian text and the like, but no letter, no digit, no punctuation and no zero-width mark.
pub proof fn white_space_is_blank(c: char, r: bool)
    requires
        call_ensures(blank, (c,), r),
    ensures
        c == ' ' || c == '\t' || c == '\n' || c == '\r' || c == '\u{b}' || c == '\u{c}' ==> r,
        c == '\u{3000}' || c == '\u{a0}' || c == '\u{2003}' || c == '\u{2028}' ==> r,
        '!' <= c <= '~' ==> !r,
        c < '\t' || '\u{e}' <= c <= '\u{1f}' ==> !r,
        '\u{a1}' <= c <= '\u{167f}' || '\u{200b}' <= c <= '\u{2027}' || '\u{3001}' <= c ==> !r,
{
}

proof fn pieces_make_the_text(s: Seq<char>, c: char, from: int)
    requires
        0 <= from <= s.len(),
    ensures
        split_from(s, c, from).len() > 0,
        glued(split_from(s, c, from), c) == s.skip(from),
        forall|i: int|
            0 <= i < split_from(s, c, from).len() ==> !(#[trigger] split_from(s, c, from)[i]).contains(
                c,
            ),
    decreases s.len() - from,
{
    find_from_bounds(s, c, from);
    let end = find_from(s, c, from);
    let pieces = split_from(s, c, from);
    if end >= s.len() {
        let piece = s.subrange(from, s.len() as int);
        assert(piece =~= s.skip(from));
        assert(pieces.skip(1).len() == 0);
        assert(!piece.contains(c)) by {
            assert forall|k: int| 0 <= k < piece.len() implies piece[k] != c by {
                assert(piece[k] == s[from + k]);
            }
        }
    } else {
        pieces_make_the_text(s, c, end + 1);
        let rest = split_from(s, c, end + 1);
        let piece = s.subrange(from, end);
        assert(pieces.skip(1) =~= rest);
        assert(piece + seq![c] + s.skip(end + 1) =~= s.skip(from));
        assert(!piece.contains(c)) by {
            assert forall|k: int| 0 <= k < piece.len() implies piece[k] != c by {
                assert(piece[k] == s[from + k]);
            }
        }
        assert forall|i: int| 0 <= i < pieces.len() implies !(#[trigger] pieces[i]).contains(c) by {
            if i > 0 {
                assert(pieces[i] == rest[i - 1]);
            }
        }
    }
}

/// The pieces one after the other, with the character between them.
pub open spec fn glued(pieces: Seq<Seq<char>>, c: char) -> Seq<char>
    decreases pieces.len(),
{
    if pieces.len() == 0 {
        Seq::empty()
    } else if pieces.len() == 1 {
        pieces[0]
    } else {
        pieces[0] + seq![c] + glued(pieces.skip(1), c)
    }
}

/// Splitting loses nothing but the separators: the pieces, put together with the separator between
/// them, are the text again, and no piece holds a separator.
pub proof fn the_pieces_make_up_the_text(v: &[char], c: char, pieces: Vec<String>)
    requires
        call_ensures(split_at, (v, c), pieces),
    ensures
        glued(views(pieces@), c) == v@,
        forall|i: int| 0 <= i < pieces@.len() ==> !(#[trigger] pieces@[i])@.contains(c),
{
    pieces_make_the_text(v@, c, 0);
    assert(v@.skip(0) =~= v@);
    assert forall|i: int| 0 <= i < pieces@.len() implies !(#[trigger] pieces@[i])@.contains(c) by {
        assert(views(pieces@)[i] == pieces@[i]@);
    }
}

proof fn lines_make_the_text(s: Seq<char>)
    ensures
        !s.contains('\r') ==> glued(lines(s), '\n') + (if s.len() > 0 && s.last() == '\n' {
            seq!['\n']
        } else {
            Seq::empty()
        }) == s || s.len() == 0,
        forall|i: int| 0 <= i < lines(s).len() ==> !(#[trigger] lines(s)[i]).contains('\n'),
        s.len() == 0 ==> lines(s).len() == 0,
{
    let pieces = split(s, '\n');
    pieces_make_the_text(s, '\n', 0);
    assert(s.skip(0) =~= s);
    let n = pieces.len() as int;
    let kept = if pieces.last().len() == 0 {
        pieces.drop_last()
    } else {
        pieces
    };
    assert forall|i: int| 0 <= i < lines(s).len() implies !(#[trigger] lines(s)[i]).contains(
        '\n',
    ) by {
        let l = lines(s)[i];
        assert(kept[i] == pieces[i]);
        assert forall|k: int| 0 <= k < l.len() implies l[k] != '\n' by {
            assert(pieces[i][k] == l[k]);
        }
    }
    if s.len() == 0 {
        assert(n == 1) by {
            if n > 1 {
                assert(glued(pieces, '\n').len() >= 1);
            }
        }
        assert(pieces[0].len() == 0);
    }
    if !s.contains('\r') && s.len() > 0 {
        parts_are_in_the_whole(pieces, '\n', '\r');
        assert forall|i: int| 0 <= i < kept.len() implies lines(s)[i] == #[trigger] kept[i] by {
            assert(kept[i] == pieces[i]);
            if kept[i].len() > 0 && kept[i].last() == '\r' {
                assert(pieces[i].contains('\r'));
            }
        }
        assert(lines(s) =~= kept);
        last_piece_ends_the_text(pieces, '\n');
        if pieces.last().len() == 0 {
            if n == 1 {
                assert(s =~= pieces[0]);
            } else {
                assert(glued(pieces.drop_last(), '\n') + seq!['\n'] == s);
                assert(s.last() == '\n');
            }
        } else {
            assert(s.last() == pieces.last().last());
            assert(!pieces[n - 1].contains('\n'));
            assert(pieces[n - 1][pieces[n - 1].len() - 1] == s.last());
            assert(glued(kept, '\n') + Seq::<char>::empty() =~= s);
        }
    }
}

proof fn last_piece_ends_the_text(pieces: Seq<Seq<char>>, c: char)
    requires
        pieces.len() > 0,
    ensures
        pieces.len() > 1 ==> glued(pieces, c) == glued(pieces.drop_last(), c) + seq![c]
            + pieces.last(),
        pieces.last().len() > 0 ==> glued(pieces, c).len() > 0 && glued(pieces, c).last()
            == pieces.last().last(),
    decreases pieces.len(),
{
    if pieces.len() > 1 {
        let rest = pieces.skip(1);
        last_piece_ends_the_text(rest, c);
        assert(rest.last() == pieces.last());
        if rest.len() > 1 {
            assert(pieces.drop_last().skip(1) =~= rest.drop_last());
            assert(pieces[0] + seq![c] + (glued(rest.drop_last(), c) + seq![c] + rest.last())
                =~= (pieces[0] + seq![c] + glued(rest.drop_last(), c)) + seq![c] + rest.last());
        } else {
            assert(pieces.drop_last() =~= seq![pieces[0]]);
            assert(glued(rest, c) == rest[0]);
        }
    }
}

proof fn parts_are_in_the_whole(pieces: Seq<Seq<char>>, c: char, d: char)
    ensures
        forall|i: int|
            0 <= i < pieces.len() && (#[trigger] pieces[i]).contains(d) ==> glued(
                pieces,
                c,
            ).contains(d),
    decreases pieces.len(),
{
    if pieces.len() > 1 {
        let rest = pieces.skip(1);
        parts_are_in_the_whole(rest, c, d);
        let all = glued(pieces, c);
        assert forall|i: int| 0 <= i < pieces.len() && (#[trigger] pieces[i]).contains(d) implies all.contains(
            d,
        ) by {
            if i == 0 {
                let k = choose|k: int| 0 <= k < pieces[0].len() && pieces[0][k] == d;
                assert(all[k] == d);
            } else {
                assert(rest[i - 1] == pieces[i]);
                let k = choose|k: int| 0 <= k < glued(rest, c).len() && glued(rest, c)[k] == d;
                assert(all[pieces[0].len() + 1 + k] == d);
            }
        }
    }
}

/// No line holds a line feed, and where there are no carriage returns, the lines make up the text
/// but for a last line feed. An empty text has no lines.
pub proof fn the_lines_make_up_the_text(s: &str, out: Vec<String>)
    requires
        call_ensures(lines_of, (s,), out),
    ensures
        forall|i: int| 0 <= i < out@.len() ==> !(#[trigger] out@[i])@.contains('\n'),
        s@.len() == 0 ==> out@.len() == 0,
        s@.len() > 0 && !s@.contains('\r') && s@.last() != '\n' ==> glued(views(out@), '\n')
            == s@,
        s@.len() > 0 && !s@.contains('\r') && s@.last() == '\n' ==> glued(views(out@), '\n').push(
            '\n',
        ) == s@,
{
    lines_make_the_text(s@);
    assert(views(out@).len() == out@.len());
    assert forall|i: int| 0 <= i < out@.len() implies !(#[trigger] out@[i])@.contains('\n') by {
        assert(views(out@)[i] == out@[i]@);
    }
    let g = glued(views(out@), '\n');
    assert(g + Seq::<char>::empty() =~= g);
    assert(g + seq!['\n'] =~= g.push('\n'));
}

/// Joining puts the glue between each two parts and nowhere else.
pub proof fn joining_glues_the_parts(parts: &[String], glue: &str, out: String)
    requires
        call_ensures(join_with, (parts, glue), out),
    ensures
        parts@.len() == 0 ==> out@.len() == 0,
        parts@.len() == 1 ==> out@ == parts@[0]@,
        parts@.len() == 2 ==> out@ == parts@[0]@ + glue@ + parts@[1]@,
        glue@.len() == 1 ==> out@ == glued(views(parts@), glue@[0]),
{
    let v = views(parts@);
    assert(v.len() == parts@.len());
    if parts@.len() == 2 {
        assert(v.drop_last().len() == 1);
        assert(join(v.drop_last(), glue@) == v.drop_last()[0]);
        assert(v[0] == parts@[0]@ && v[1] == parts@[1]@);
    }
    if glue@.len() == 1 {
        assert(glue@ =~= seq![glue@[0]]);
        joined_is_glued(v, glue@[0]);
    }
}

proof fn joined_is_glued(parts: Seq<Seq<char>>, c: char)
    ensures
        join(parts, seq![c]) == glued(parts, c),
    decreases parts.len(),
{
    if parts.len() > 1 {
        joined_is_glued(parts.drop_last(), c);
        last_piece_ends_the_text(parts, c);
    }
}

proof fn decimal_has_its_value(n: nat)
    ensures
        decimal(n).len() > 0,
        forall|i: int| 0 <= i < decimal(n).len() ==> '0' <= #[trigger] decimal(n)[i] <= '9',
        decimal(n).fold_left(0int, |a: int, c: char| 10 * a + (c as int - '0' as int)) == n,
        n > 0 ==> decimal(n)[0] != '0',
        n < 10 ==> decimal(n).len() == 1,
    decreases n,
{
    let f = |a: int, c: char| 10 * a + (c as int - '0' as int);
    if n < 10 {
        let s = decimal(n);
        assert(s.drop_last() =~= Seq::empty());
        assert(s.drop_last().fold_left(0int, f) == 0);
        assert(s.fold_left(0int, f) == f(0, s.last()));
    } else {
        decimal_has_its_value(n / 10);
        let s = decimal(n);
        assert(s.drop_last() =~= decimal(n / 10));
        assert(s.fold_left(0int, f) == f(decimal(n / 10).fold_left(0int, f), s.last()));
    }
}

/// A number is written with digits alone, without leading zeros, and its digits have its value.
pub proof fn digits_have_the_value(n: u64, s: String)
    requires
        call_ensures(decimal_of, (n,), s),
    ensures
        s@.len() > 0,
        forall|i: int| 0 <= i < s@.len() ==> '0' <= #[trigger] s@[i] <= '9',
        s@.fold_left(0int, |a: int, c: char| 10 * a + (c as int - '0' as int)) == n,
        s@.len() > 1 ==> s@[0] != '0',
{
    decimal_has_its_value(n as nat);
}

/// A list of distinct pieces holds each piece that is not blank once, without white space around it,
/// and nothing else. The first such piece comes first.
pub proof fn a_distinct_list_holds_each_piece_once(pieces: &[String], out: Vec<String>)
    requires
        call_ensures(distinct_of, (pieces,), out),
    ensures
        views(out@).no_duplicates(),
        forall|i: int| 0 <= i < out@.len() ==> (#[trigger] out@[i])@.len() > 0,
        forall|i: int|
            0 <= i < out@.len() ==> exists|k: int|
                0 <= k < pieces@.len() && (#[trigger] out@[i])@ == trim((#[trigger] pieces@[k])@),
        forall|k: int|
            0 <= k < pieces@.len() && trim((#[trigger] pieces@[k])@).len() > 0 ==> views(
                out@,
            ).contains(trim(pieces@[k]@)),
        pieces@.len() > 0 && trim(pieces@[0]@).len() > 0 ==> out@.len() > 0 && out@[0]@ == trim(
            pieces@[0]@,
        ),
{
    let (p, o) = (views(pieces@), views(out@));
    assert(p.len() == pieces@.len() && o.len() == out@.len());
    distinct_pieces_differ(p);
    assert forall|i: int| 0 <= i < out@.len() implies (#[trigger] out@[i])@.len() > 0 && exists|
        k: int,
    |
        0 <= k < pieces@.len() && out@[i]@ == trim((#[trigger] pieces@[k])@) by {
        assert(o[i] == out@[i]@ && o[i] == distinct(p)[i]);
        let k = choose|k: int|
            0 <= k < p.len() && #[trigger] distinct(p)[i] == trim(#[trigger] p[k]);
        assert(p[k] == pieces@[k]@);
    }
    assert forall|k: int|
        0 <= k < pieces@.len() && trim((#[trigger] pieces@[k])@).len() > 0 implies o.contains(
        trim(pieces@[k]@),
    ) by {
        assert(p[k] == pieces@[k]@);
        distinct_lists_every_piece(p, k);
    }
    if pieces@.len() > 0 && trim(pieces@[0]@).len() > 0 {
        assert(p[0] == pieces@[0]@);
        distinct_keeps_the_first(p);
        assert(o[0] == out@[0]@);
    }
}

/// No piece of a split text holds the separator, and each character of a piece is in the text.
pub proof fn split_holds_no_separator(s: Seq<char>, c: char)
    ensures
        forall|i: int| 0 <= i < split(s, c).len() ==> !(#[trigger] split(s, c)[i]).contains(c),
        forall|i: int, d: char|
            0 <= i < split(s, c).len() && #[trigger] split(s, c)[i].contains(d) ==> s.contains(d),
{
    pieces_make_the_text(s, c, 0);
    assert(s.skip(0) =~= s);
    assert forall|i: int, d: char|
        0 <= i < split(s, c).len() && #[trigger] split(s, c)[i].contains(d) implies s.contains(d) by {
        parts_are_in_the_whole(split(s, c), c, d);
    }
}

/// A text without the separator is one piece.
pub proof fn split_without_separator(s: Seq<char>, c: char)
    requires
        !s.contains(c),
    ensures
        split(s, c) == seq![s],
{
    find_from_bounds(s, c, 0);
    if find_from(s, c, 0) < s.len() {
        assert(s.contains(s[find_from(s, c, 0)]));
    }
    assert(s.subrange(0, s.len() as int) =~= s);
}

/// Pieces without the separator are given back by what they make up.
pub proof fn pieces_are_unique(a: Seq<Seq<char>>, b: Seq<Seq<char>>, c: char)
    requires
        a.len() > 0,
        b.len() > 0,
        glued(a, c) == glued(b, c),
        forall|i: int| 0 <= i < a.len() ==> !(#[trigger] a[i]).contains(c),
        forall|i: int| 0 <= i < b.len() ==> !(#[trigger] b[i]).contains(c),
    ensures
        a == b,
    decreases a.len(),
{
    let s = glued(a, c);
    let (p, q) = (a[0], b[0]);
    assert(forall|k: int| 0 <= k < p.len() ==> s[k] == p[k]);
    assert(forall|k: int| 0 <= k < q.len() ==> s[k] == q[k]);
    assert(a.len() > 1 ==> s.len() > p.len() && s[p.len() as int] == c);
    assert(b.len() > 1 ==> s.len() > q.len() && s[q.len() as int] == c);
    assert(a.len() == 1 ==> s.len() == p.len());
    assert(b.len() == 1 ==> s.len() == q.len());
    if p.len() < q.len() {
        assert(q[p.len() as int] == c);
        assert(q.contains(c));
    }
    if q.len() < p.len() {
        assert(p[q.len() as int] == c);
        assert(p.contains(c));
    }
    assert(p =~= q);
    if a.len() > 1 {
        assert(b.len() > 1);
        let (x, y) = (a.skip(1), b.skip(1));
        assert(s.skip(p.len() + 1int) =~= glued(x, c));
        assert(s.skip(p.len() + 1int) =~= glued(y, c));
        assert forall|i: int| 0 <= i < x.len() implies !(#[trigger] x[i]).contains(c) by {
            assert(x[i] == a[i + 1]);
        }
        assert forall|i: int| 0 <= i < y.len() implies !(#[trigger] y[i]).contains(c) by {
            assert(y[i] == b[i + 1]);
        }
        pieces_are_unique(x, y, c);
        assert forall|i: int| 0 <= i < a.len() implies a[i] == b[i] by {
            if i > 0 {
                assert(a[i] == x[i - 1] && b[i] == y[i - 1]);
            }
        }
        assert(x.len() == y.len());
        assert(a =~= b);
    } else {
        assert(a =~= b);
    }
}

/// What was put together with a separator is split into its pieces again.
pub proof fn splitting_undoes_gluing(pieces: Seq<Seq<char>>, c: char)
    requires
        pieces.len() > 0,
        forall|i: int| 0 <= i < pieces.len() ==> !(#[trigger] pieces[i]).contains(c),
    ensures
        split(glued(pieces, c), c) == pieces,
{
    let s = glued(pieces, c);
    pieces_make_the_text(s, c, 0);
    assert(s.skip(0) =~= s);
    pieces_are_unique(split(s, c), pieces, c);
}

/// What is found is the first place of the character, from the given place on, or the end.
pub proof fn the_first_place_is_found(v: &[char], c: char, from: usize, i: usize, k: int)
    requires
        from <= v@.len(),
        call_ensures(find, (v, c, from), i),
    ensures
        from <= i <= v@.len(),
        i < v@.len() ==> v@[i as int] == c,
        from <= k < v@.len() && v@[k] == c ==> i <= k,
{
}

/// Splitting loses nothing but the separators.
pub proof fn splitting_loses_nothing(s: Seq<char>, c: char)
    ensures
        split(s, c).len() > 0,
        glued(split(s, c), c) == s,
{
    pieces_make_the_text(s, c, 0);
    assert(s.skip(0) =~= s);
}

} // verus!
