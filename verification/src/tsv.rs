//! The table that the recogniser prints: one row per word, put together into lines.

use vstd::prelude::*;

use crate::number::{confidence, parse_confidence, parse_i32, parse_u32, signed, unsigned};
use crate::single::{Single, one, product, small_integers_are_exact, sum, whole};
use crate::text::{
    chars_of, find, find_from, find_from_bounds, glued, lines, lines_of, same_chars, split,
    split_from, string_of, trim, trimmed, views,
};

verus! {

/// Words from this confidence on are trusted.
pub const TRUSTED_CONFIDENCE: u64 = 50;

/// Words below this confidence count against their line.
pub const LOW_CONFIDENCE: u64 = 35;

/// What `char::is_alphanumeric` says of a character: that it is a letter or a numeral by its
/// Unicode properties.
pub uninterp spec fn alphanumeric(c: char) -> bool;

/// Calls `char::is_alphanumeric`. Its result is named, not described: the tables of letters and
/// numerals fill pages.
#[verifier::external_body]
fn is_alphanumeric(c: char) -> (r: bool)
    ensures
        r == alphanumeric(c),
{
    c.is_alphanumeric()
}

/// Characters that carry text, as opposed to the dashes and dots that edges are mistaken for.
pub open spec fn is_meaningful(c: char) -> bool {
    alphanumeric(c) || '\u{3400}' <= c <= '\u{9fff}'
}

/// How many characters of a text carry meaning.
pub open spec fn meaningful(s: Seq<char>) -> nat
    decreases s.len(),
{
    if s.len() == 0 {
        0
    } else {
        meaningful(s.drop_last()) + if is_meaningful(s.last()) {
            1nat
        } else {
            0
        }
    }
}

/// No text has more characters with meaning than characters.
pub proof fn meaningful_bound(s: Seq<char>)
    ensures
        meaningful(s) <= s.len(),
    decreases s.len(),
{
    if s.len() > 0 {
        meaningful_bound(s.drop_last());
    }
}

/// How many characters of a text carry meaning.
pub fn meaningful_count(text: &str) -> (n: usize)
    ensures
        n == meaningful(text@),
{
    let chars = chars_of(text);
    let mut n: usize = 0;
    let mut i: usize = 0;
    while i < chars.len()
        invariant
            i <= chars@.len(),
            n == meaningful(chars@.take(i as int)),
            n <= i,
        decreases chars.len() - i,
    {
        assert(chars@.take(i + 1).drop_last() =~= chars@.take(i as int));
        let c: char = chars[i];
        if is_alphanumeric(c) || (c >= '\u{3400}' && c <= '\u{9fff}') {
            n = n + 1;
        }
        i = i + 1;
    }
    assert(chars@.take(chars@.len() as int) =~= chars@);
    n
}

/// A line of recognised text: its words, how sure the recogniser was of them, and the box around
/// them. Each word counts once per meaningful character, at least once.
pub struct ParsedLine {
    pub text: String,
    pub confidence_sum: Single,
    pub confidence_weight: u64,
    pub meaningful_chars: u64,
    pub trusted_chars: u64,
    pub low_confidence_chars: u64,
    pub left: i64,
    pub top: i64,
    pub right: i64,
    pub bottom: i64,
}

/// What a line holds.
#[verifier::ext_equal]
pub struct LineModel {
    pub text: Seq<char>,
    pub confidence_sum: nat,
    pub confidence_weight: int,
    pub meaningful_chars: int,
    pub trusted_chars: int,
    pub low_confidence_chars: int,
    pub left: int,
    pub top: int,
    pub right: int,
    pub bottom: int,
}

impl View for ParsedLine {
    type V = LineModel;

    open spec fn view(&self) -> LineModel {
        LineModel {
            text: self.text@,
            confidence_sum: self.confidence_sum@,
            confidence_weight: self.confidence_weight as int,
            meaningful_chars: self.meaningful_chars as int,
            trusted_chars: self.trusted_chars as int,
            low_confidence_chars: self.low_confidence_chars as int,
            left: self.left as int,
            top: self.top as int,
            right: self.right as int,
            bottom: self.bottom as int,
        }
    }
}

/// What a sequence of lines holds.
pub open spec fn models(lines: Seq<ParsedLine>) -> Seq<LineModel> {
    lines.map_values(|l: ParsedLine| l@)
}

/// The counters of a line agree with each other and are small enough to be added up.
pub open spec fn line_wf(l: LineModel) -> bool {
    &&& 0 <= l.confidence_weight <= u32::MAX
    &&& 0 <= l.trusted_chars <= l.meaningful_chars <= l.confidence_weight
    &&& 0 <= l.low_confidence_chars <= l.confidence_weight
    &&& -0x8000_0000 <= l.left <= 0x8000_0000
    &&& -0x8000_0000 <= l.top <= 0x8000_0000
    &&& -0x8000_0000 <= l.right <= 0x1_0000_0000
    &&& -0x8000_0000 <= l.bottom <= 0x1_0000_0000
}

/// All lines are well formed.
pub open spec fn lines_wf(lines: Seq<LineModel>) -> bool {
    forall|i: int| 0 <= i < lines.len() ==> line_wf(#[trigger] lines[i])
}

impl ParsedLine {
    /// An equal line.
    pub fn copy(&self) -> (r: ParsedLine)
        ensures
            r@ == self@,
    {
        ParsedLine {
            text: self.text.clone(),
            confidence_sum: self.confidence_sum,
            confidence_weight: self.confidence_weight,
            meaningful_chars: self.meaningful_chars,
            trusted_chars: self.trusted_chars,
            low_confidence_chars: self.low_confidence_chars,
            left: self.left,
            top: self.top,
            right: self.right,
            bottom: self.bottom,
        }
    }
}

/// A word of the table: the page, block, paragraph and line it belongs to, how sure the
/// recogniser is of it, its text and its box.
#[verifier::ext_equal]
pub struct WordModel {
    pub key: (int, int, int, int),
    pub confidence: nat,
    pub text: Seq<char>,
    pub left: int,
    pub top: int,
    pub right: int,
    pub bottom: int,
}

/// What a row of the table says.
pub enum RowModel {
    /// Not a word.
    Skip,
    /// A word whose numbers cannot be read.
    Bad,
    Word(WordModel),
}

struct Word {
    key: (u32, u32, u32, u32),
    confidence: Single,
    text: String,
    left: i64,
    top: i64,
    right: i64,
    bottom: i64,
}

impl View for Word {
    type V = WordModel;

    closed spec fn view(&self) -> WordModel {
        WordModel {
            key: (
                self.key.0 as int,
                self.key.1 as int,
                self.key.2 as int,
                self.key.3 as int,
            ),
            confidence: self.confidence@,
            text: self.text@,
            left: self.left as int,
            top: self.top as int,
            right: self.right as int,
            bottom: self.bottom as int,
        }
    }
}

enum Row {
    Skip,
    Bad,
    Word(Word),
}

/// `s` without the carriage returns at its end.
pub open spec fn strip_returns(s: Seq<char>) -> Seq<char>
    decreases s.len(),
{
    if s.len() > 0 && s.last() == '\r' {
        strip_returns(s.drop_last())
    } else {
        s
    }
}

/// The first `n - 1` pieces of `s[from..]` before occurrences of `c`, and the rest as one piece.
pub open spec fn split_n(s: Seq<char>, c: char, from: int, n: int) -> Seq<Seq<char>>
    decreases n,
{
    let end = find_from(s, c, from);
    if n <= 1 || end >= s.len() {
        seq![s.subrange(from, s.len() as int)]
    } else {
        seq![s.subrange(from, end)] + split_n(s, c, end + 1, n - 1)
    }
}

fn split_first(v: &[char], c: char, n: usize) -> (pieces: Vec<Vec<char>>)
    requires
        n > 0,
    ensures
        pieces@.len() == split_n(v@, c, 0, n as int).len(),
        forall|i: int|
            0 <= i < pieces@.len() ==> (#[trigger] pieces@[i])@ == split_n(v@, c, 0, n as int)[i],
        forall|i: int| 0 <= i < pieces@.len() ==> (#[trigger] pieces@[i])@.len() <= v@.len(),
{
    let mut pieces: Vec<Vec<char>> = Vec::new();
    let mut from: usize = 0;
    let mut left: usize = n;
    let ghost all = split_n(v@, c, 0, n as int);
    loop
        invariant
            from <= v@.len(),
            0 < left <= n,
            all == split_n(v@, c, 0, n as int),
            all.len() == pieces@.len() + split_n(v@, c, from as int, left as int).len(),
            forall|i: int|
                0 <= i < split_n(v@, c, from as int, left as int).len() ==> all[pieces@.len() + i]
                    == #[trigger] split_n(v@, c, from as int, left as int)[i],
            forall|i: int| 0 <= i < pieces@.len() ==> (#[trigger] pieces@[i])@ == all[i],
            forall|i: int| 0 <= i < pieces@.len() ==> (#[trigger] pieces@[i])@.len() <= v@.len(),
        decreases left,
    {
        let end: usize = find(v, c, from);
        let ghost rest = split_n(v@, c, from as int, left as int);
        if left <= 1 || end >= v.len() {
            let piece = part(v, from, v.len());
            proof {
                assert(rest =~= seq![v@.subrange(from as int, v@.len() as int)]);
                assert(all[pieces@.len() + 0int] == rest[0]);
            }
            pieces.push(piece);
            return pieces;
        }
        let piece = part(v, from, end);
        proof {
            let tail = split_n(v@, c, end + 1, left - 1);
            assert(rest =~= seq![v@.subrange(from as int, end as int)] + tail);
            assert(all[pieces@.len() + 0int] == rest[0]);
            assert forall|i: int| 0 <= i < tail.len() implies all[pieces@.len() + 1 + i]
                == #[trigger] tail[i] by {
                assert(rest[i + 1] == tail[i]);
                assert(all[pieces@.len() + (i + 1)] == rest[i + 1]);
            }
        }
        pieces.push(piece);
        from = end + 1;
        left = left - 1;
    }
}

fn part(v: &[char], from: usize, to: usize) -> (r: Vec<char>)
    requires
        from <= to <= v@.len(),
    ensures
        r@ == v@.subrange(from as int, to as int),
{
    let mut r: Vec<char> = Vec::new();
    let mut i: usize = from;
    while i < to
        invariant
            from <= i <= to <= v@.len(),
            r@ == v@.subrange(from as int, i as int),
        decreases to - i,
    {
        r.push(v[i]);
        assert(r@ =~= v@.subrange(from as int, i + 1));
        i = i + 1;
    }
    r
}

/// What a row says. Words are the rows of twelve columns whose level is five; their line keys,
/// confidence and box must be numbers. Rows without text are skipped.
pub open spec fn row(raw: Seq<char>) -> RowModel {
    let f = split_n(strip_returns(raw), '\t', 0, 12);
    if f.len() != 12 || f[0] != seq!['5'] {
        RowModel::Skip
    } else {
        match (unsigned(f[1]), unsigned(f[2]), unsigned(f[3]), unsigned(f[4]), confidence(f[10])) {
            (Some(page), Some(block), Some(paragraph), Some(line), Some(conf)) => {
                let text = trim(f[11]);
                if text.len() == 0 {
                    RowModel::Skip
                } else {
                    match (signed(f[6]), signed(f[7]), signed(f[8]), signed(f[9])) {
                        (Some(left), Some(top), Some(width), Some(height)) => RowModel::Word(
                            WordModel {
                                key: (page as int, block as int, paragraph as int, line as int),
                                confidence: conf,
                                text,
                                left,
                                top,
                                right: left + if width < 0 {
                                    0
                                } else {
                                    width
                                },
                                bottom: top + if height < 0 {
                                    0
                                } else {
                                    height
                                },
                            },
                        ),
                        _ => RowModel::Bad,
                    }
                }
            },
            _ => RowModel::Bad,
        }
    }
}

spec fn row_model(r: Row) -> RowModel {
    match r {
        Row::Skip => RowModel::Skip,
        Row::Bad => RowModel::Bad,
        Row::Word(w) => RowModel::Word(w@),
    }
}

/// A word is sane when its numbers are in range and its text is not longer than its row.
spec fn word_wf(w: WordModel, row_len: nat) -> bool {
    &&& 0 < w.text.len() <= row_len
    &&& -0x8000_0000 <= w.left <= 0x7fff_ffff
    &&& -0x8000_0000 <= w.top <= 0x7fff_ffff
    &&& w.left <= w.right <= w.left + 0x7fff_ffff
    &&& w.top <= w.bottom <= w.top + 0x7fff_ffff
}

fn read_row(raw: &str) -> (r: Row)
    ensures
        row_model(r) == row(raw@),
        match r {
            Row::Word(w) => word_wf(w@, raw@.len()),
            _ => true,
        },
{
    let mut line = chars_of(raw);
    let ghost whole = line@;
    while line.len() > 0 && line[line.len() - 1] == '\r'
        invariant
            strip_returns(line@) == strip_returns(raw@),
            line@.len() <= raw@.len(),
        decreases line.len(),
    {
        let _ = line.pop();
    }
    assert(line@ == strip_returns(raw@));
    let fields = split_first(line.as_slice(), '\t', 12);
    let ghost f = split_n(line@, '\t', 0, 12);
    let mut five: Vec<char> = Vec::new();
    five.push('5');
    assert(five@ =~= seq!['5']);
    if fields.len() != 12 || !same_chars(fields[0].as_slice(), five.as_slice()) {
        return Row::Skip;
    }
    let page = parse_u32(fields[1].as_slice());
    let block = parse_u32(fields[2].as_slice());
    let paragraph = parse_u32(fields[3].as_slice());
    let number = parse_u32(fields[4].as_slice());
    let conf = parse_confidence(fields[10].as_slice());
    let (p, b, g, n, c) = match (page, block, paragraph, number, conf) {
        (Some(p), Some(b), Some(g), Some(n), Some(c)) => (p, b, g, n, c),
        _ => {
            return Row::Bad;
        },
    };
    let raw_text = string_of(fields[11].as_slice(), 0, fields[11].len());
    proof {
        assert(fields@[11]@.subrange(0, fields@[11]@.len() as int) =~= f[11]);
        crate::text::trim_is_a_part(f[11]);
    }
    let text = trimmed(raw_text.as_str());
    if chars_of(text.as_str()).len() == 0 {
        return Row::Skip;
    }
    let left = parse_i32(fields[6].as_slice());
    let top = parse_i32(fields[7].as_slice());
    let width = parse_i32(fields[8].as_slice());
    let height = parse_i32(fields[9].as_slice());
    match (left, top, width, height) {
        (Some(l), Some(t), Some(w), Some(h)) => Row::Word(
            Word {
                key: (p, b, g, n),
                confidence: c,
                text,
                left: l as i64,
                top: t as i64,
                right: l as i64 + if w < 0 {
                    0
                } else {
                    w as i64
                },
                bottom: t as i64 + if h < 0 {
                    0
                } else {
                    h as i64
                },
            },
        ),
        _ => Row::Bad,
    }
}

/// The words of the rows, in order.
pub open spec fn words_of(rows: Seq<Seq<char>>) -> Seq<WordModel>
    decreases rows.len(),
{
    if rows.len() == 0 {
        Seq::empty()
    } else {
        let before = words_of(rows.drop_last());
        match row(rows.last()) {
            RowModel::Word(w) => before.push(w),
            _ => before,
        }
    }
}

/// Every row that is a word can be read.
pub open spec fn readable(rows: Seq<Seq<char>>) -> bool {
    forall|i: int| 0 <= i < rows.len() ==> !(#[trigger] row(rows[i]) is Bad)
}

/// A line with no words yet, around the box of its first word.
pub open spec fn blank_line(w: WordModel) -> LineModel {
    LineModel {
        text: Seq::empty(),
        confidence_sum: 0,
        confidence_weight: 0,
        meaningful_chars: 0,
        trusted_chars: 0,
        low_confidence_chars: 0,
        left: w.left,
        top: w.top,
        right: w.right,
        bottom: w.bottom,
    }
}

pub open spec fn smaller(a: int, b: int) -> int {
    if a < b {
        a
    } else {
        b
    }
}

pub open spec fn larger(a: int, b: int) -> int {
    if a > b {
        a
    } else {
        b
    }
}

/// A line with one more word.
pub open spec fn with_word(l: LineModel, w: WordModel) -> LineModel {
    let chars = meaningful(w.text) as int;
    let weight = larger(chars, 1);
    LineModel {
        text: (if l.text.len() > 0 {
            l.text.push(' ')
        } else {
            l.text
        }) + w.text,
        confidence_sum: sum(l.confidence_sum, product(w.confidence, whole(weight as nat))),
        confidence_weight: l.confidence_weight + weight,
        meaningful_chars: l.meaningful_chars + chars,
        trusted_chars: l.trusted_chars + if w.confidence >= whole(TRUSTED_CONFIDENCE as nat) {
            chars
        } else {
            0
        },
        low_confidence_chars: l.low_confidence_chars + if w.confidence < whole(
            LOW_CONFIDENCE as nat,
        ) {
            weight
        } else {
            0
        },
        left: smaller(l.left, w.left),
        top: smaller(l.top, w.top),
        right: larger(l.right, w.right),
        bottom: larger(l.bottom, w.bottom),
    }
}

/// The lines that the words form: neighbours with the same key share a line.
pub open spec fn grouped(words: Seq<WordModel>) -> Seq<LineModel>
    decreases words.len(),
{
    if words.len() == 0 {
        Seq::empty()
    } else {
        let before = grouped(words.drop_last());
        let w = words.last();
        if words.len() > 1 && words[words.len() - 2].key == w.key {
            before.drop_last().push(with_word(before.last(), w))
        } else {
            before.push(with_word(blank_line(w), w))
        }
    }
}

/// Words form at least one line.
proof fn grouped_is_not_empty(words: Seq<WordModel>)
    ensures
        words.len() > 0 ==> grouped(words).len() > 0,
{
}

fn min_i64(a: i64, b: i64) -> (r: i64)
    ensures
        r == smaller(a as int, b as int),
{
    if a < b {
        a
    } else {
        b
    }
}

fn max_i64(a: i64, b: i64) -> (r: i64)
    ensures
        r == larger(a as int, b as int),
{
    if a > b {
        a
    } else {
        b
    }
}

/// Adds a word to a line.
fn add_word(line: ParsedLine, word: &Word, Ghost(used): Ghost<nat>, Ghost(row_len): Ghost<nat>) -> (r:
    ParsedLine)
    requires
        line_wf(line@),
        line@.confidence_weight <= used,
        used + row_len <= u32::MAX,
        word_wf(word@, row_len),
    ensures
        r@ == with_word(line@, word@),
        line_wf(r@),
        r@.confidence_weight <= used + row_len,
{
    proof {
        meaningful_bound(word@.text);
    }
    let chars: u64 = meaningful_count(word.text.as_str()) as u64;
    let weight: u64 = if chars > 1 {
        chars
    } else {
        1
    };
    let mut text = line.text;
    if chars_of(text.as_str()).len() > 0 {
        text.push(' ');
    }
    text.append(word.text.as_str());
    let share = word.confidence.times(Single::whole(weight));
    let trusted: bool = !word.confidence.less(Single::whole(TRUSTED_CONFIDENCE));
    let doubted: bool = word.confidence.less(Single::whole(LOW_CONFIDENCE));
    ParsedLine {
        text,
        confidence_sum: line.confidence_sum.plus(share),
        confidence_weight: line.confidence_weight + weight,
        meaningful_chars: line.meaningful_chars + chars,
        trusted_chars: line.trusted_chars + if trusted {
            chars
        } else {
            0
        },
        low_confidence_chars: line.low_confidence_chars + if doubted {
            weight
        } else {
            0
        },
        left: min_i64(line.left, word.left),
        top: min_i64(line.top, word.top),
        right: max_i64(line.right, word.right),
        bottom: max_i64(line.bottom, word.bottom),
    }
}

/// Characters in a sequence of texts.
pub open spec fn total_len(s: Seq<Seq<char>>) -> nat
    decreases s.len(),
{
    if s.len() == 0 {
        0
    } else {
        total_len(s.drop_last()) + s.last().len()
    }
}

proof fn total_len_front(s: Seq<Seq<char>>)
    requires
        s.len() > 0,
    ensures
        total_len(s) == s[0].len() + total_len(s.drop_first()),
    decreases s.len(),
{
    if s.len() > 1 {
        total_len_front(s.drop_last());
        assert(s.drop_last().drop_first() =~= s.drop_first().drop_last());
        assert(s.drop_first().last() == s.last());
    } else {
        assert(s.drop_last() =~= Seq::<Seq<char>>::empty());
        assert(s.drop_first() =~= Seq::<Seq<char>>::empty());
    }
}

proof fn split_len(s: Seq<char>, c: char, from: int)
    requires
        0 <= from <= s.len(),
    ensures
        total_len(split_from(s, c, from)) <= s.len() - from,
    decreases s.len() - from,
{
    find_from_bounds(s, c, from);
    let end = find_from(s, c, from);
    let all = split_from(s, c, from);
    if end >= s.len() {
        assert(all.drop_last() =~= Seq::<Seq<char>>::empty());
        assert(total_len(Seq::<Seq<char>>::empty()) == 0);
        assert(all.last().len() == s.len() - from);
    } else {
        split_len(s, c, end + 1);
        total_len_front(all);
        assert(all.drop_first() =~= split_from(s, c, end + 1));
    }
}

/// Cutting texts short makes them no longer.
proof fn total_len_shrinks(a: Seq<Seq<char>>, b: Seq<Seq<char>>)
    requires
        a.len() <= b.len(),
        forall|i: int| 0 <= i < a.len() ==> (#[trigger] a[i]).len() <= b[i].len(),
    ensures
        total_len(a) <= total_len(b),
    decreases b.len(),
{
    if b.len() > 0 {
        if a.len() == b.len() {
            total_len_shrinks(a.drop_last(), b.drop_last());
        } else {
            total_len_shrinks(a, b.drop_last());
        }
    }
}

/// The lines of a text are together no longer than the text.
pub proof fn lines_len(s: Seq<char>)
    ensures
        total_len(lines(s)) <= s.len(),
{
    split_len(s, '\n', 0);
    total_len_shrinks(lines(s), split(s, '\n'));
}

/// `s` without the byte order marks at its start.
pub open spec fn strip_marks(s: Seq<char>) -> Seq<char>
    decreases s.len(),
{
    if s.len() > 0 && s[0] == '\u{feff}' {
        strip_marks(s.drop_first())
    } else {
        s
    }
}

/// The table begins with its header.
pub open spec fn has_header(rows: Seq<Seq<char>>) -> bool {
    rows.len() > 0 && seq!['l', 'e', 'v', 'e', 'l', '\t'].is_prefix_of(
        strip_marks(strip_returns(rows[0])),
    )
}

fn is_header(raw: &str) -> (r: bool)
    ensures
        r == has_header(seq![raw@]),
{
    let v = chars_of(raw);
    let mut end: usize = v.len();
    assert(v@.take(end as int) =~= raw@);
    while end > 0 && v[end - 1] == '\r'
        invariant
            end <= v@.len(),
            strip_returns(v@.take(end as int)) == strip_returns(raw@),
        decreases end,
    {
        assert(v@.take(end as int).drop_last() =~= v@.take(end - 1));
        end = end - 1;
    }
    let ghost line = strip_returns(raw@);
    proof {
        if end > 0 {
            assert(v@.take(end as int).last() == v@[end - 1]);
        }
        assert(line == v@.take(end as int));
    }
    let mut from: usize = 0;
    assert(line.skip(0) =~= line);
    while from < end && v[from] == '\u{feff}'
        invariant
            from <= end <= v@.len(),
            line == v@.take(end as int),
            strip_marks(line.skip(from as int)) == strip_marks(line),
        decreases end - from,
    {
        assert(line.skip(from as int).drop_first() =~= line.skip(from + 1));
        from = from + 1;
    }
    let ghost rest = line.skip(from as int);
    proof {
        if from < end {
            assert(rest[0] == v@[from as int]);
        }
        assert(strip_marks(line) == rest);
    }
    let r: bool = end - from >= 6 && v[from] == 'l' && v[from + 1] == 'e' && v[from + 2] == 'v'
        && v[from + 3] == 'e' && v[from + 4] == 'l' && v[from + 5] == '\t';
    proof {
        let head = seq!['l', 'e', 'v', 'e', 'l', '\t'];
        if rest.len() >= 6 {
            assert(rest[0] == v@[from as int] && rest[1] == v@[from + 1] && rest[2] == v@[from + 2]
                && rest[3] == v@[from + 3] && rest[4] == v@[from + 4] && rest[5] == v@[from + 5]);
            if r {
                assert(head =~= rest.subrange(0, 6));
            } else if head.is_prefix_of(rest) {
                assert(rest.subrange(0, 6)[0] == 'l' && rest.subrange(0, 6)[1] == 'e'
                    && rest.subrange(0, 6)[2] == 'v' && rest.subrange(0, 6)[3] == 'e'
                    && rest.subrange(0, 6)[4] == 'l' && rest.subrange(0, 6)[5] == '\t');
            }
        }
    }
    r
}

/// The lines of the table, if it has its header and all its words can be read.
pub open spec fn table_lines(tsv: Seq<char>) -> Option<Seq<LineModel>> {
    let rows = lines(tsv);
    if has_header(rows) && readable(rows.skip(1)) {
        Some(grouped(words_of(rows.skip(1))))
    } else {
        None
    }
}

/// Reads the table into lines.
#[verifier::rlimit(60)]
pub fn read_table(tsv: &str) -> (r: Option<Vec<ParsedLine>>)
    requires
        tsv@.len() <= u32::MAX,
    ensures
        match r {
            Some(found) => table_lines(tsv@) == Some(models(found@)) && lines_wf(models(found@))
                && found@.len() <= u32::MAX,
            None => table_lines(tsv@) is None,
        },
{
    let rows = lines_of(tsv);
    let ghost all = lines(tsv@);
    proof {
        lines_len(tsv@);
    }
    if rows.len() == 0 {
        return None;
    }
    proof {
        assert(rows@[0]@ == views(rows@)[0]);
        assert(has_header(seq![rows@[0]@]) == has_header(all));
    }
    let header: bool = is_header(rows[0].as_str());
    let ghost body = all.skip(1);
    proof {
        total_len_front(all);
        assert(all.drop_first() =~= body);
    }
    let mut found: Vec<ParsedLine> = Vec::new();
    let mut previous: Option<(u32, u32, u32, u32)> = None;
    let mut i: usize = 1;
    assert(body.take(0) =~= Seq::<Seq<char>>::empty());
    while i < rows.len()
        invariant
            1 <= i <= rows@.len(),
            views(rows@) == all,
            all == lines(tsv@),
            body == all.skip(1),
            header == has_header(all),
            total_len(body) <= u32::MAX,
            models(found@) == grouped(words_of(body.take(i - 1))),
            lines_wf(models(found@)),
            found@.len() <= total_len(body.take(i - 1)),
            forall|k: int|
                0 <= k < found@.len() ==> (#[trigger] found@[k])@.confidence_weight <= total_len(
                    body.take(i - 1),
                ),
            readable(body.take(i - 1)),
            match previous {
                None => words_of(body.take(i - 1)).len() == 0,
                Some(key) => words_of(body.take(i - 1)).len() > 0 && words_of(
                    body.take(i - 1),
                ).last().key == (key.0 as int, key.1 as int, key.2 as int, key.3 as int),
            },
        decreases rows.len() - i,
    {
        let ghost seen = body.take(i - 1);
        let ghost next = body.take(i as int);
        let ghost before = words_of(seen);
        proof {
            assert(next.drop_last() =~= seen);
            assert(next.last() == views(rows@)[i as int]);
            assert(next.last() == rows@[i as int]@);
            let rest = body.skip(i as int);
            assert(body =~= next + rest);
            total_len_concat(next, rest);
        }
        let current = read_row(rows[i].as_str());
        match current {
            Row::Bad => {
                proof {
                    assert(row(body[i - 1]) is Bad);
                }
                return None;
            },
            Row::Skip => {
                proof {
                    assert forall|k: int| 0 <= k < next.len() implies !(#[trigger] row(
                        next[k],
                    ) is Bad) by {
                        if k < seen.len() {
                            assert(next[k] == seen[k]);
                        }
                    }
                }
            },
            Row::Word(word) => {
                let same: bool = match previous {
                    None => false,
                    Some(key) => key.0 == word.key.0 && key.1 == word.key.1 && key.2 == word.key.2
                        && key.3 == word.key.3,
                };
                let ghost words = words_of(next);
                let ghost lines_before = models(found@);
                proof {
                    assert(words == before.push(word@));
                    assert(words.drop_last() =~= before);
                    grouped_is_not_empty(before);
                    assert forall|k: int| 0 <= k < next.len() implies !(#[trigger] row(
                        next[k],
                    ) is Bad) by {
                        if k < seen.len() {
                            assert(next[k] == seen[k]);
                        }
                    }
                }
                if same {
                    let ghost held = found@;
                    let last = found.pop().unwrap();
                    proof {
                        assert(models(held)[held.len() - 1] == last@);
                        assert(models(found@) =~= lines_before.drop_last());
                    }
                    let grown = add_word(
                        last,
                        &word,
                        Ghost(total_len(seen)),
                        Ghost(rows@[i as int]@.len()),
                    );
                    found.push(grown);
                    assert(models(found@) =~= lines_before.drop_last().push(
                        with_word(lines_before.last(), word@),
                    ));
                } else {
                    let fresh = ParsedLine {
                        text: String::new(),
                        confidence_sum: Single::zero(),
                        confidence_weight: 0,
                        meaningful_chars: 0,
                        trusted_chars: 0,
                        low_confidence_chars: 0,
                        left: word.left,
                        top: word.top,
                        right: word.right,
                        bottom: word.bottom,
                    };
                    assert(fresh@ =~= blank_line(word@));
                    let grown = add_word(
                        fresh,
                        &word,
                        Ghost(total_len(seen)),
                        Ghost(rows@[i as int]@.len()),
                    );
                    found.push(grown);
                    assert(models(found@) =~= lines_before.push(
                        with_word(blank_line(word@), word@),
                    ));
                }
                proof {
                    assert(models(found@) == grouped(words));
                    assert forall|k: int| 0 <= k < models(found@).len() implies line_wf(
                        #[trigger] models(found@)[k],
                    ) by {
                        if k < found@.len() - 1 {
                            assert(models(found@)[k] == lines_before[k]);
                        }
                    }
                    assert forall|k: int| 0 <= k < found@.len() implies (
                    #[trigger] found@[k])@.confidence_weight <= total_len(next) by {
                        if k < found@.len() - 1 {
                            assert(found@[k]@ == models(found@)[k]);
                            assert(models(found@)[k] == lines_before[k]);
                        }
                    }
                }
                previous = Some(word.key);
            },
        }
        i = i + 1;
    }
    assert(body.take(rows@.len() - 1) =~= body);
    if header {
        Some(found)
    } else {
        None
    }
}

proof fn total_len_concat(a: Seq<Seq<char>>, b: Seq<Seq<char>>)
    ensures
        total_len(a + b) == total_len(a) + total_len(b),
    decreases b.len(),
{
    if b.len() == 0 {
        assert(a + b =~= a);
    } else {
        total_len_concat(a, b.drop_last());
        assert((a + b).drop_last() =~= a + b.drop_last());
        assert((a + b).last() == b.last());
    }
}

/// Whether a line holds a word: the text of the word is part of its text, and the place of the word
/// lies in its place.
#[verifier::opaque]
pub open spec fn holds(l: LineModel, w: WordModel) -> bool {
    &&& exists|k: int|
        0 <= k <= l.text.len() - w.text.len() && #[trigger] l.text.skip(k).take(w.text.len() as int)
            == w.text
    &&& l.left <= w.left && w.right <= l.right
    &&& l.top <= w.top && w.bottom <= l.bottom
}

proof fn a_word_is_held(l: LineModel, w: WordModel)
    ensures
        holds(with_word(l, w), w),
{
    reveal(holds);
    let m = with_word(l, w);
    let k = m.text.len() - w.text.len();
    assert(m.text.skip(k).take(w.text.len() as int) =~= w.text);
}

proof fn a_held_word_stays(l: LineModel, v: WordModel, w: WordModel)
    requires
        holds(l, v),
    ensures
        holds(with_word(l, w), v),
{
    reveal(holds);
    let m = with_word(l, w);
    let k = choose|k: int|
        0 <= k <= l.text.len() - v.text.len() && #[trigger] l.text.skip(k).take(
            v.text.len() as int,
        ) == v.text;
    let n = v.text.len() as int;
    assert forall|i: int| 0 <= i < n implies m.text.skip(k).take(n)[i] == v.text[i] by {
        assert(l.text.skip(k).take(n)[i] == v.text[i]);
        assert(m.text[k + i] == l.text[k + i]);
    }
    assert(m.text.skip(k).take(n) =~= v.text);
}

proof fn words_are_held(words: Seq<WordModel>, i: int)
    requires
        0 <= i < words.len(),
    ensures
        grouped(words).len() > 0,
        holds(grouped(words).last(), words.last()),
        exists|j: int| 0 <= j < grouped(words).len() && holds(#[trigger] grouped(words)[j], words[i]),
    decreases words.len(),
{
    let front = words.drop_last();
    let w = words.last();
    let n = words.len() as int;
    let (before, after) = (grouped(front), grouped(words));
    if n == 1 {
        a_word_is_held(blank_line(w), w);
        assert(after.last() == after[after.len() - 1]);
    } else {
        let at = if i < n - 1 {
            i
        } else {
            0
        };
        words_are_held(front, at);
        let j = choose|j: int| 0 <= j < before.len() && holds(#[trigger] before[j], front[at]);
        a_word_is_held(before.last(), w);
        a_word_is_held(blank_line(w), w);
        assert(after.last() == after[after.len() - 1]);
        if i < n - 1 {
            if j < before.len() - 1 {
                assert(after[j] == before[j]);
            } else if words[n - 2].key == w.key {
                assert(before[j] == before.last());
                a_held_word_stays(before.last(), words[i], w);
                assert(holds(after[after.len() - 1], words[i]));
            } else {
                assert(after[j] == before[j]);
            }
        }
    }
}

proof fn a_read_row_is_a_word(rows: Seq<Seq<char>>, i: int)
    requires
        0 <= i < rows.len(),
        row(rows[i]) is Word,
    ensures
        words_of(rows).contains(row(rows[i])->Word_0),
    decreases rows.len(),
{
    let front = rows.drop_last();
    let w = row(rows[i])->Word_0;
    if i < front.len() {
        a_read_row_is_a_word(front, i);
        let k = choose|k: int| 0 <= k < words_of(front).len() && words_of(front)[k] == w;
        assert(words_of(rows)[k] == w);
    } else {
        assert(words_of(rows).last() == w);
        assert(words_of(rows)[words_of(rows).len() - 1] == w);
    }
}

/// No word of a table is lost: each is on a line, with its text, and within the place of that line.
pub proof fn every_word_is_on_a_line(tsv: &str, found: Vec<ParsedLine>, i: int)
    requires
        call_ensures(read_table, (tsv,), Some(found)),
        0 < i < lines(tsv@).len(),
        row(lines(tsv@)[i]) is Word,
    ensures
        exists|j: int|
            0 <= j < found@.len() && {
                let (l, w) = ((#[trigger] found@[j])@, row(lines(tsv@)[i])->Word_0);
                &&& exists|k: int|
                    0 <= k <= l.text.len() - w.text.len() && #[trigger] l.text.skip(k).take(
                        w.text.len() as int,
                    ) == w.text
                &&& l.left <= w.left && w.right <= l.right
                &&& l.top <= w.top && w.bottom <= l.bottom
            },
{
    reveal(holds);
    let rows = lines(tsv@).skip(1);
    assert(rows[i - 1] == lines(tsv@)[i]);
    let w = row(rows[i - 1])->Word_0;
    a_read_row_is_a_word(rows, i - 1);
    let words = words_of(rows);
    let k = choose|k: int| 0 <= k < words.len() && words[k] == w;
    words_are_held(words, k);
    let j = choose|j: int| 0 <= j < grouped(words).len() && holds(#[trigger] grouped(words)[j], w);
    assert(models(found@)[j] == found@[j]@);
}

proof fn lines_follow_the_words(words: Seq<WordModel>)
    ensures
        grouped(words).len() <= words.len(),
        words.len() > 0 ==> grouped(words).len() > 0,
        (forall|i: int| 0 <= i < words.len() - 1 ==> (#[trigger] words[i]).key == words[i + 1].key)
            ==> grouped(words).len() <= 1,
        (forall|i: int| 0 <= i < words.len() - 1 ==> (#[trigger] words[i]).key != words[i + 1].key)
            ==> grouped(words).len() == words.len(),
    decreases words.len(),
{
    if words.len() > 0 {
        let front = words.drop_last();
        lines_follow_the_words(front);
        if forall|i: int| 0 <= i < words.len() - 1 ==> (#[trigger] words[i]).key == words[i + 1].key {
            assert forall|i: int| 0 <= i < front.len() - 1 implies (#[trigger] front[i]).key
                == front[i + 1].key by {
                assert(words[i].key == words[i + 1].key);
            }
            if words.len() > 1 {
                assert(words[words.len() - 2].key == words[words.len() - 2 + 1].key);
            }
        }
        if forall|i: int| 0 <= i < words.len() - 1 ==> (#[trigger] words[i]).key != words[i + 1].key {
            assert forall|i: int| 0 <= i < front.len() - 1 implies (#[trigger] front[i]).key
                != front[i + 1].key by {
                assert(words[i].key != words[i + 1].key);
            }
            if words.len() > 1 {
                assert(words[words.len() - 2].key != words[words.len() - 2 + 1].key);
            }
        }
    }
}

/// Words of one line of the page make one line, and words of which no two neighbours are on one line
/// make a line each.
pub proof fn words_of_a_line_stay_together(tsv: &str, found: Vec<ParsedLine>)
    requires
        call_ensures(read_table, (tsv,), Some(found)),
    ensures
        ({
            let words = words_of(lines(tsv@).skip(1));
            &&& found@.len() <= words.len()
            &&& words.len() > 0 ==> found@.len() > 0
            &&& (forall|i: int|
                0 <= i < words.len() - 1 ==> (#[trigger] words[i]).key == words[i + 1].key)
                ==> found@.len() <= 1
            &&& (forall|i: int|
                0 <= i < words.len() - 1 ==> (#[trigger] words[i]).key != words[i + 1].key)
                ==> found@.len() == words.len()
        }),
{
    lines_follow_the_words(words_of(lines(tsv@).skip(1)));
    assert(models(found@).len() == found@.len());
}

/// A line that holds one word has its text, its characters and its place; they are trusted from 50 of
/// confidence on and doubted below 35.
pub proof fn a_lone_word_is_its_line(tsv: &str, found: Vec<ParsedLine>, w: WordModel)
    requires
        call_ensures(read_table, (tsv,), Some(found)),
        words_of(lines(tsv@).skip(1)) == seq![w],
    ensures
        found@.len() == 1,
        found@[0].text@ == w.text,
        found@[0].left == w.left && found@[0].top == w.top && found@[0].right == w.right
            && found@[0].bottom == w.bottom,
        found@[0].meaningful_chars == meaningful(w.text),
        found@[0].trusted_chars == if w.confidence >= 50 * one() {
            meaningful(w.text)
        } else {
            0
        },
        w.confidence >= 35 * one() ==> found@[0].low_confidence_chars == 0,
        w.confidence < 35 * one() ==> found@[0].low_confidence_chars > 0,
{
    small_integers_are_exact(50);
    small_integers_are_exact(35);
    let words = seq![w];
    assert(words.drop_last() =~= Seq::empty());
    assert(grouped(words.drop_last()).len() == 0);
    assert(grouped(words) =~= seq![with_word(blank_line(w), w)]);
    assert(models(found@)[0] == found@[0]@);
    assert(models(found@).len() == found@.len());
    assert(Seq::<char>::empty() + w.text =~= w.text);
}

proof fn meaningful_is_a_count(s: Seq<char>)
    ensures
        meaningful(s) == s.filter(|c: char| alphanumeric(c) || '\u{3400}' <= c <= '\u{9fff}').len(),
    decreases s.len(),
{
    reveal(Seq::filter);
    if s.len() > 0 {
        meaningful_is_a_count(s.drop_last());
    }
}

/// The characters that count are the letters, the digits and the Han characters.
pub proof fn letters_and_digits_count(text: &str, n: usize)
    requires
        call_ensures(meaningful_count, (text,), n),
    ensures
        n == text@.filter(|c: char| alphanumeric(c) || '\u{3400}' <= c <= '\u{9fff}').len(),
{
    meaningful_is_a_count(text@);
}

proof fn fields_are_split(s: Seq<char>, fields: Seq<Seq<char>>, from: int, n: int)
    requires
        0 <= from <= s.len(),
        0 < fields.len() == n,
        s.skip(from) == glued(fields, '\t'),
        forall|i: int| 0 <= i < fields.len() ==> !(#[trigger] fields[i]).contains('\t'),
    ensures
        split_n(s, '\t', from, n) == fields,
    decreases n,
{
    find_from_bounds(s, '\t', from);
    let end = find_from(s, '\t', from);
    let first = fields[0];
    let rest = s.skip(from);
    if n > 1 {
        assert(rest == first + seq!['\t'] + glued(fields.skip(1), '\t'));
    } else {
        assert(rest == first);
    }
    assert(rest.len() == s.len() - from && first.len() <= rest.len());
    assert(forall|k: int| 0 <= k < first.len() ==> rest[k] == first[k]);
    assert forall|k: int| from <= k < from + first.len() implies s[k] != '\t' by {
        assert(s[k] == rest[k - from]);
        assert(first.contains(first[k - from]));
    }
    if n == 1 {
        assert(s.subrange(from, s.len() as int) =~= rest);
        assert(fields =~= seq![rest]);
    } else {
        assert(rest[first.len() as int] == '\t');
        assert(s[from + first.len()] == '\t');
        assert(end == from + first.len());
        assert(s.subrange(from, end) =~= first);
        let more = fields.skip(1);
        assert(s.skip(end + 1) =~= glued(more, '\t')) by {
            assert(rest =~= first + seq!['\t'] + glued(more, '\t'));
            assert(s.skip(end + 1) =~= rest.skip(first.len() + 1int));
        }
        assert forall|i: int| 0 <= i < more.len() implies !(#[trigger] more[i]).contains(
            '\t',
        ) by {
            assert(more[i] == fields[i + 1]);
        }
        fields_are_split(s, more, end + 1, n - 1);
        assert(seq![first] + more =~= fields);
    }
}

/// A row of a table is read by its fields: the first says whether it is a word, the next four which
/// line of the page it is on, the seventh to the tenth where it is and how large, the eleventh how
/// sure it is and the last what it says. A word of no width or no height ends where it starts.
pub proof fn a_row_is_read_by_its_fields(
    raw: Seq<char>,
    fields: Seq<Seq<char>>,
    page: nat,
    block: nat,
    paragraph: nat,
    line: nat,
    left: int,
    top: int,
    width: int,
    height: int,
    sure: nat,
)
    requires
        fields.len() == 12,
        forall|i: int| 0 <= i < 12 ==> !(#[trigger] fields[i]).contains('\t'),
        raw == glued(fields, '\t'),
        raw.last() != '\r',
        fields[0] == seq!['5'],
        unsigned(fields[1]) == Some(page),
        unsigned(fields[2]) == Some(block),
        unsigned(fields[3]) == Some(paragraph),
        unsigned(fields[4]) == Some(line),
        signed(fields[6]) == Some(left),
        signed(fields[7]) == Some(top),
        signed(fields[8]) == Some(width),
        signed(fields[9]) == Some(height),
        confidence(fields[10]) == Some(sure),
        trim(fields[11]).len() > 0,
    ensures
        row(raw) is Word,
        ({
            let w = row(raw)->Word_0;
            &&& w.text == trim(fields[11])
            &&& w.confidence == sure
            &&& w.left == left && w.top == top
            &&& width >= 0 ==> w.right - w.left == width
            &&& width < 0 ==> w.right == w.left
            &&& height >= 0 ==> w.bottom - w.top == height
            &&& height < 0 ==> w.bottom == w.top
            &&& w.key == (page as int, block as int, paragraph as int, line as int)
        }),
{
    assert(raw.skip(0) =~= raw);
    fields_are_split(raw, fields, 0, 12);
    assert(strip_returns(raw) == raw);
}

/// A row that is not of a word, or whose word is blank, is passed over.
pub proof fn other_rows_are_passed_over(raw: Seq<char>, fields: Seq<Seq<char>>)
    requires
        fields.len() == 12,
        forall|i: int| 0 <= i < 12 ==> !(#[trigger] fields[i]).contains('\t'),
        raw == glued(fields, '\t'),
        raw.len() == 0 || raw.last() != '\r',
        fields[0] != seq!['5'],
    ensures
        row(raw) is Skip,
{
    assert(raw.skip(0) =~= raw);
    fields_are_split(raw, fields, 0, 12);
    assert(strip_returns(raw) == raw);
}

/// A table is refused without a header or with a row that cannot be read, and not otherwise.
pub proof fn only_a_readable_table_is_read(tsv: &str, r: Option<Vec<ParsedLine>>, i: int)
    requires
        tsv@.len() <= u32::MAX,
        call_ensures(read_table, (tsv,), r),
    ensures
        lines(tsv@).len() == 0 ==> r is None,
        0 < i < lines(tsv@).len() && row(lines(tsv@)[i]) is Bad ==> r is None,
        lines(tsv@).len() > 0 && (lines(tsv@)[0].len() < 6 || (lines(tsv@)[0][0] != 'l'
            && lines(tsv@)[0][0] != '\u{feff}')) ==> r is None,
        lines(tsv@).len() > 0 && lines(tsv@)[0].len() > 6 && lines(tsv@)[0].last() != '\r'
            && lines(tsv@)[0].take(6) == seq!['l', 'e', 'v', 'e', 'l', '\t'] && (forall|k: int|
            0 < k < lines(tsv@).len() ==> !(row(#[trigger] lines(tsv@)[k]) is Bad)) ==> r is Some,
{
    let rows = lines(tsv@);
    let body = rows.skip(1);
    let head = seq!['l', 'e', 'v', 'e', 'l', '\t'];
    if 0 < i < rows.len() && row(rows[i]) is Bad {
        assert(body[i - 1] == rows[i]);
        assert(row(body[i - 1]) is Bad);
    }
    if rows.len() > 0 {
        let first = rows[0];
        returns_are_at_the_end(first);
        let bare = strip_returns(first);
        if first.len() < 6 || (first[0] != 'l' && first[0] != '\u{feff}') {
            marks_are_at_the_start(bare);
            if has_header(rows) {
                assert(strip_marks(bare).len() >= 6);
                assert(bare[0] == first[0]);
                assert(strip_marks(bare) == bare);
                assert(bare[0] == head[0]);
            }
        }
        if first.len() > 6 && first.last() != '\r' && first.take(6) == head {
            assert(bare == first);
            assert(first[0] == first.take(6)[0]);
            assert(strip_marks(first) == first);
            assert(head.is_prefix_of(first));
            if forall|k: int| 0 < k < rows.len() ==> !(row(#[trigger] rows[k]) is Bad) {
                assert forall|k: int| 0 <= k < body.len() implies !(#[trigger] row(
                    body[k],
                ) is Bad) by {
                    assert(body[k] == rows[k + 1]);
                }
            }
        }
    }
}

proof fn returns_are_at_the_end(s: Seq<char>)
    ensures
        strip_returns(s).len() <= s.len(),
        strip_returns(s).len() > 0 ==> strip_returns(s)[0] == s[0],
    decreases s.len(),
{
    if s.len() > 0 && s.last() == '\r' {
        returns_are_at_the_end(s.drop_last());
    }
}

proof fn marks_are_at_the_start(s: Seq<char>)
    ensures
        strip_marks(s).len() <= s.len(),
    decreases s.len(),
{
    if s.len() > 0 && s[0] == '\u{feff}' {
        marks_are_at_the_start(s.drop_first());
    }
}

} // verus!
