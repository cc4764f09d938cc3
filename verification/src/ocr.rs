//! Text recognition: how the crop is laid out, how recognised text is cleaned, and which of
//! several recognitions is the answer.

use vstd::prelude::*;

use crate::clean::{label_texts, strip_leading_label, unlabelled};
use crate::fusion::{
    BLOCK_LAYOUT, LINE_LAYOUT, ResultModel, SPARSE_LAYOUT, TesseractResult, better, is_better,
    is_merged, merge_language_results, result_score, result_wf, retries_layout, score_result,
    score_value, should_retry_layout,
};
use crate::gray::{Rgb8, row_bounds};
use crate::prep::CandidateKind;
use crate::single::{Balance, Single, one, small_integers_are_exact, whole};
use crate::text::{
    blank, chars_of, cut_blank, glued, is_blank, join, join_with, lines, lines_of, owned, same, split,
    split_at, string_of, trim, trim_end, trimmed, views,
};

verus! {

/// Chinese characters, kana and hangul: scripts written without spaces between glyphs.
pub open spec fn cjk(c: char) -> bool {
    ||| '\u{4e00}' <= c <= '\u{9fff}'
    ||| '\u{3400}' <= c <= '\u{4dbf}'
    ||| '\u{3040}' <= c <= '\u{30ff}'
    ||| '\u{ac00}' <= c <= '\u{d7af}'
}

/// Whether `c` belongs to a script written without spaces.
pub fn is_cjk(c: char) -> (r: bool)
    ensures
        r == cjk(c),
{
    (c >= '\u{4e00}' && c <= '\u{9fff}') || (c >= '\u{3400}' && c <= '\u{4dbf}') || (c
        >= '\u{3040}' && c <= '\u{30ff}') || (c >= '\u{ac00}' && c <= '\u{d7af}')
}

/// Whether position `p` is white space with nothing but white space between two glyphs around it.
pub open spec fn between_glyphs(s: Seq<char>, p: int) -> bool {
    is_blank(s[p]) && exists|a: int, b: int|
        0 <= a < p < b < s.len() && cjk(#[trigger] s[a]) && cjk(#[trigger] s[b]) && all_blank(
            s,
            a + 1,
            b,
        )
}

/// Whether `s[from..to]` is nothing but white space.
pub open spec fn all_blank(s: Seq<char>, from: int, to: int) -> bool {
    forall|k: int| from <= k < to ==> is_blank(#[trigger] s[k])
}

/// The first `n` characters of `s` without the white space between glyphs.
pub open spec fn despaced(s: Seq<char>, n: int) -> Seq<char>
    decreases n,
{
    if n <= 0 {
        Seq::empty()
    } else if between_glyphs(s, n - 1) {
        despaced(s, n - 1)
    } else {
        despaced(s, n - 1).push(s[n - 1])
    }
}

/// White space of a run that begins after `i - 1` and ends before `j` stands between glyphs exactly
/// if the run does.
proof fn run_between_glyphs(s: Seq<char>, i: int, j: int, p: int)
    requires
        0 <= i <= p < j <= s.len(),
        all_blank(s, i, j),
        i > 0 ==> !is_blank(s[i - 1]),
        j < s.len() ==> !is_blank(s[j]),
    ensures
        between_glyphs(s, p) == (i > 0 && j < s.len() && cjk(s[i - 1]) && cjk(s[j])),
{
    assert(is_blank(s[p]));
    if i > 0 && j < s.len() && cjk(s[i - 1]) && cjk(s[j]) {
        assert(all_blank(s, (i - 1) + 1, j));
    }
    if between_glyphs(s, p) {
        let (a, b) = choose|a: int, b: int|
            0 <= a < p < b < s.len() && cjk(#[trigger] s[a]) && cjk(#[trigger] s[b]) && all_blank(
                s,
                a + 1,
                b,
            );
        assert(!is_blank(s[a]) && !is_blank(s[b]));
        if a >= i {
            assert(is_blank(s[a]));
        }
        if a < i - 1 {
            assert(is_blank(s[i - 1]));
        }
        if b < j {
            assert(is_blank(s[b]));
        }
        if b > j {
            assert(is_blank(s[j]));
        }
    }
}

/// A line without the white space that stands between two glyphs of a script written without
/// spaces. White space between words of other scripts stays.
pub fn drop_cjk_spaces(line: &str) -> (out: String)
    ensures
        out@ == despaced(line@, line@.len() as int),
{
    let chars = chars_of(line);
    let n: usize = chars.len();
    let ghost s = chars@;
    let mut out = String::new();
    let mut i: usize = 0;
    while i < n
        invariant
            n == chars@.len(),
            s == chars@,
            i <= n,
            out@ == despaced(s, i as int),
            0 < i < n ==> !(is_blank(s[i - 1]) && is_blank(s[i as int])),
        decreases n - i,
    {
        if blank(chars[i]) {
            let mut j: usize = i;
            while j < n && blank(chars[j])
                invariant
                    n == chars@.len(),
                    s == chars@,
                    i <= j <= n,
                    all_blank(s, i as int, j as int),
                decreases n - j,
            {
                j = j + 1;
            }
            let joins: bool = i > 0 && j < n && is_cjk(chars[i - 1]) && is_cjk(chars[j]);
            let mut p: usize = i;
            while p < j
                invariant
                    n == chars@.len(),
                    s == chars@,
                    i <= p <= j <= n,
                    all_blank(s, i as int, j as int),
                    i > 0 ==> !is_blank(s[i - 1]),
                    j < n ==> !is_blank(s[j as int]),
                    joins == (i > 0 && j < n && cjk(s[i - 1]) && cjk(s[j as int])),
                    out@ == despaced(s, p as int),
                decreases j - p,
            {
                proof {
                    run_between_glyphs(s, i as int, j as int, p as int);
                }
                if !joins {
                    out.push(chars[p]);
                }
                p = p + 1;
            }
            assert(j > i);
            i = j;
        } else {
            assert(!between_glyphs(s, i as int));
            out.push(chars[i]);
            i = i + 1;
        }
    }
    out
}

proof fn despaced_grows(s: Seq<char>, m: int, n: int)
    requires
        0 <= m <= n,
    ensures
        despaced(s, m).len() <= despaced(s, n).len(),
        forall|q: int|
            0 <= q < despaced(s, m).len() ==> despaced(s, n)[q] == #[trigger] despaced(s, m)[q],
    decreases n - m,
{
    if m < n {
        despaced_grows(s, m, n - 1);
    }
}

proof fn kept_character(s: Seq<char>, n: int, q: int) -> (k: int)
    requires
        0 <= q < despaced(s, n).len(),
        0 <= n,
    ensures
        0 <= k < n,
        !between_glyphs(s, k),
        s[k] == despaced(s, n)[q],
        despaced(s, k).len() == q,
    decreases n,
{
    if between_glyphs(s, n - 1) || q < despaced(s, n - 1).len() {
        kept_character(s, n - 1, q)
    } else {
        n - 1
    }
}

/// One pass over a line is enough: a second one finds nothing to drop.
pub proof fn one_pass_is_enough(s: Seq<char>)
    ensures
        ({
            let once = despaced(s, s.len() as int);
            despaced(once, once.len() as int) == once
        }),
{
    let n = s.len() as int;
    let once = despaced(s, n);
    assert forall|p: int| 0 <= p < once.len() implies !#[trigger] between_glyphs(once, p) by {
        if between_glyphs(once, p) {
            let (a, b) = choose|a: int, b: int|
                0 <= a < p < b < once.len() && cjk(#[trigger] once[a]) && cjk(#[trigger] once[b])
                    && all_blank(once, a + 1, b);
            let ka = kept_character(s, n, a);
            let kp = kept_character(s, n, p);
            let kb = kept_character(s, n, b);
            if kp <= ka {
                despaced_grows(s, kp, ka);
            }
            if kb <= kp {
                despaced_grows(s, kb, kp);
            }
            assert forall|j: int| ka + 1 <= j < kb implies is_blank(#[trigger] s[j]) by {
                if !between_glyphs(s, j) {
                    let q = despaced(s, j).len() as int;
                    despaced_grows(s, ka + 1, j);
                    despaced_grows(s, j + 1, kb);
                    despaced_grows(s, j + 1, n);
                    assert(despaced(s, ka + 1).len() == a + 1);
                    assert(despaced(s, j + 1) == despaced(s, j).push(s[j]));
                    assert(despaced(s, j + 1)[q] == s[j]);
                    assert(once[q] == s[j]);
                    assert(a + 1 <= q < b);
                }
            }
            assert(cjk(s[ka]) && cjk(s[kb]));
            assert(all_blank(s, ka + 1, kb));
            assert(between_glyphs(s, kp));
        }
    }
    nothing_to_drop(once, once.len() as int);
}

proof fn nothing_to_drop(s: Seq<char>, n: int)
    requires
        0 <= n <= s.len(),
        forall|p: int| 0 <= p < s.len() ==> !#[trigger] between_glyphs(s, p),
    ensures
        despaced(s, n) == s.take(n),
        n == s.len() ==> despaced(s, n) == s,
    decreases n,
{
    if n > 0 {
        nothing_to_drop(s, n - 1);
        assert(!between_glyphs(s, n - 1));
        assert(s.take(n - 1).push(s[n - 1]) =~= s.take(n));
    } else {
        assert(s.take(0) =~= Seq::<char>::empty());
    }
    assert(s.take(s.len() as int) =~= s);
}

/// Nothing but white space is dropped: any other character occurs as often as before.
pub proof fn despacing_drops_only_blanks(s: Seq<char>, n: int, c: char)
    requires
        0 <= n <= s.len(),
        !is_blank(c),
    ensures
        occurs(despaced(s, n), c) == occurs(s.take(n), c),
    decreases n,
{
    if n > 0 {
        despacing_drops_only_blanks(s, n - 1, c);
        assert(s.take(n).drop_last() =~= s.take(n - 1));
        assert(s.take(n).last() == s[n - 1]);
        let before = despaced(s, n - 1);
        if !between_glyphs(s, n - 1) {
            assert(before.push(s[n - 1]).drop_last() =~= before);
        }
    } else {
        assert(s.take(0) =~= Seq::<char>::empty());
    }
}

/// How often a character occurs.
pub open spec fn occurs(s: Seq<char>, c: char) -> nat
    decreases s.len(),
{
    if s.len() == 0 {
        0
    } else {
        occurs(s.drop_last(), c) + if s.last() == c {
            1nat
        } else {
            0
        }
    }
}

/// Labels that a model puts in front of recognised text.
pub open spec fn ocr_labels() -> Seq<Seq<char>> {
    seq![
        "以下是图片中的文字："@,
        "识别结果："@,
        "识别结果:"@,
        "识别出的文字："@,
        "文字内容："@,
        "文字内容:"@,
        "图片中的文字："@,
        "OCR result:"@,
        "Recognised text:"@,
        "Recognized text:"@,
    ]
}

fn label_list() -> (labels: Vec<&'static str>)
    ensures
        label_texts(labels@) == ocr_labels(),
{
    let labels: Vec<&'static str> = vec![
        "以下是图片中的文字：",
        "识别结果：",
        "识别结果:",
        "识别出的文字：",
        "文字内容：",
        "文字内容:",
        "图片中的文字：",
        "OCR result:",
        "Recognised text:",
        "Recognized text:",
    ];
    assert(label_texts(labels@) =~= ocr_labels());
    labels
}

/// Lines as they are shown: without spaces between glyphs and without trailing white space.
pub open spec fn shown_lines(s: Seq<char>) -> Seq<Seq<char>> {
    lines(s).map_values(|l: Seq<char>| trim_end(despaced(l, l.len() as int)))
}

/// The lines from the first that is not empty on.
pub open spec fn drop_empty_front(ls: Seq<Seq<char>>) -> Seq<Seq<char>>
    decreases ls.len(),
{
    if ls.len() > 0 && ls[0].len() == 0 {
        drop_empty_front(ls.drop_first())
    } else {
        ls
    }
}

/// The lines up to the last that is not empty.
pub open spec fn drop_empty_back(ls: Seq<Seq<char>>) -> Seq<Seq<char>>
    decreases ls.len(),
{
    if ls.len() > 0 && ls.last().len() == 0 {
        drop_empty_back(ls.drop_last())
    } else {
        ls
    }
}

/// The lines of recognised text as it is shown.
pub open spec fn cleaned_lines(text: Seq<char>) -> Seq<Seq<char>> {
    drop_empty_back(drop_empty_front(shown_lines(unlabelled(trim(text), ocr_labels()))))
}

/// Recognised text as it is shown.
pub open spec fn cleaned(text: Seq<char>) -> Seq<char> {
    join(cleaned_lines(text), seq!['\n'])
}

proof fn front_is_tidy(ls: Seq<Seq<char>>)
    ensures
        drop_empty_front(ls).len() <= ls.len(),
        drop_empty_front(ls) == ls.skip(ls.len() - drop_empty_front(ls).len()),
        drop_empty_front(ls).len() > 0 ==> drop_empty_front(ls)[0].len() > 0,
    decreases ls.len(),
{
    if ls.len() > 0 && ls[0].len() == 0 {
        let rest = ls.drop_first();
        front_is_tidy(rest);
        let gone = rest.len() - drop_empty_front(rest).len();
        assert(rest.skip(gone) =~= ls.skip(gone + 1));
    } else {
        assert(ls.skip(0) =~= ls);
    }
}

proof fn back_is_tidy(ls: Seq<Seq<char>>)
    ensures
        drop_empty_back(ls).len() <= ls.len(),
        drop_empty_back(ls) == ls.take(drop_empty_back(ls).len() as int),
        drop_empty_back(ls).len() > 0 ==> drop_empty_back(ls).last().len() > 0,
    decreases ls.len(),
{
    if ls.len() > 0 && ls.last().len() == 0 {
        let rest = ls.drop_last();
        back_is_tidy(rest);
        let left = drop_empty_back(rest).len() as int;
        assert(rest.take(left) =~= ls.take(left));
    } else {
        assert(ls.take(ls.len() as int) =~= ls);
    }
}

proof fn trimmed_end_is_not_blank(s: Seq<char>)
    ensures
        trim_end(s).len() > 0 ==> !is_blank(trim_end(s).last()),
    decreases s.len(),
{
    if s.len() > 0 && is_blank(s.last()) {
        trimmed_end_is_not_blank(s.drop_last());
    }
}

/// Recognised text as it is shown begins and ends with a line that is not empty, and none of its
/// lines ends in white space.
pub proof fn shown_text_is_tidy(text: Seq<char>)
    ensures
        ({
            let ls = cleaned_lines(text);
            &&& ls.len() > 0 ==> ls[0].len() > 0 && ls.last().len() > 0
            &&& forall|i: int|
                0 <= i < ls.len() && (#[trigger] ls[i]).len() > 0 ==> !is_blank(ls[i].last())
        }),
{
    let raw = lines(unlabelled(trim(text), ocr_labels()));
    let all = shown_lines(unlabelled(trim(text), ocr_labels()));
    let front = drop_empty_front(all);
    let ls = drop_empty_back(front);
    front_is_tidy(all);
    back_is_tidy(front);
    assert forall|i: int| 0 <= i < ls.len() && (#[trigger] ls[i]).len() > 0 implies !is_blank(
        ls[i].last(),
    ) by {
        let k = all.len() - front.len() + i;
        assert(front[i] == all[k]);
        assert(ls[i] == front[i]);
        assert(all[k] == trim_end(despaced(raw[k], raw[k].len() as int)));
        trimmed_end_is_not_blank(despaced(raw[k], raw[k].len() as int));
    }
    if ls.len() > 0 {
        assert(ls[0] == front[0]);
    }
}

/// Recognised text as it is shown: without a leading label, without spaces between glyphs, without
/// trailing white space and without empty lines at either end.
pub fn cleanup(text: &str) -> (out: String)
    ensures
        out@ == cleaned(text@),
{
    let labels = label_list();
    let body = strip_leading_label(text, labels.as_slice());
    let raw = lines_of(body.as_str());
    let ghost want = shown_lines(body@);
    let mut shown: Vec<String> = Vec::new();
    let mut i: usize = 0;
    while i < raw.len()
        invariant
            views(raw@) == lines(body@),
            want == shown_lines(body@),
            i <= raw@.len(),
            shown@.len() == i,
            forall|k: int| 0 <= k < i ==> (#[trigger] shown@[k])@ == want[k],
        decreases raw.len() - i,
    {
        proof {
            assert(raw@[i as int]@ == views(raw@)[i as int]);
        }
        let glyphs = drop_cjk_spaces(raw[i].as_str());
        let v = chars_of(glyphs.as_str());
        assert(v@.subrange(0, v@.len() as int) =~= glyphs@);
        let end: usize = cut_blank(v.as_slice(), 0, v.len());
        shown.push(string_of(v.as_slice(), 0, end));
        i = i + 1;
    }
    assert(views(shown@) =~= want);
    let n: usize = shown.len();
    let mut from: usize = 0;
    assert(want.skip(0) =~= want);
    while from < n && chars_of(shown[from].as_str()).len() == 0
        invariant
            n == shown@.len(),
            views(shown@) == want,
            from <= n,
            drop_empty_front(want) == drop_empty_front(want.skip(from as int)),
        decreases n - from,
    {
        proof {
            assert(want.skip(from as int)[0] == shown@[from as int]@);
            assert(want.skip(from as int).drop_first() =~= want.skip(from + 1));
        }
        from = from + 1;
    }
    let ghost front = want.skip(from as int);
    proof {
        if from < n {
            assert(front[0] == shown@[from as int]@);
        }
        assert(drop_empty_front(want) == front);
    }
    let mut to: usize = n;
    assert(want.subrange(from as int, n as int) =~= front);
    while to > from && chars_of(shown[to - 1].as_str()).len() == 0
        invariant
            n == shown@.len(),
            views(shown@) == want,
            from <= to <= n,
            drop_empty_back(front) == drop_empty_back(want.subrange(from as int, to as int)),
        decreases to,
    {
        proof {
            let part = want.subrange(from as int, to as int);
            assert(part.last() == shown@[to - 1]@);
            assert(part.drop_last() =~= want.subrange(from as int, to - 1));
        }
        to = to - 1;
    }
    let ghost kept = want.subrange(from as int, to as int);
    proof {
        if to > from {
            assert(kept.last() == shown@[to - 1]@);
        }
        assert(drop_empty_back(front) == kept);
    }
    let part = vstd::slice::slice_subrange(shown.as_slice(), from, to);
    proof {
        assert(views(part@) =~= kept);
        reveal_strlit("\n");
        assert("\n"@ =~= seq!['\n']);
    }
    join_with(part, "\n")
}

/// The pieces that are not blank, without white space around them.
pub open spec fn nonblank(pieces: Seq<Seq<char>>) -> Seq<Seq<char>>
    decreases pieces.len(),
{
    if pieces.len() == 0 {
        Seq::empty()
    } else {
        let before = nonblank(pieces.drop_last());
        let piece = trim(pieces.last());
        if piece.len() == 0 {
            before
        } else {
            before.push(piece)
        }
    }
}

/// The languages of a list in reverse order, if that is another list of at least two.
pub open spec fn alternate_order(langs: Seq<char>) -> Option<Seq<char>> {
    let parts = nonblank(split(langs, '+'));
    let reversed = join(parts.reverse(), seq!['+']);
    if parts.len() < 2 || reversed == langs {
        None
    } else {
        Some(reversed)
    }
}

/// The languages in reverse order, where that is worth a second recognition.
pub fn alternate_language_order(langs: &str) -> (r: Option<String>)
    ensures
        match r {
            Some(s) => alternate_order(langs@) == Some(s@),
            None => alternate_order(langs@) is None,
        },
{
    let chars = chars_of(langs);
    let pieces = split_at(chars.as_slice(), '+');
    let ghost all = views(pieces@);
    let mut parts: Vec<String> = Vec::new();
    let mut i: usize = 0;
    assert(all.take(0) =~= Seq::<Seq<char>>::empty());
    while i < pieces.len()
        invariant
            all == views(pieces@),
            i <= pieces@.len(),
            views(parts@) == nonblank(all.take(i as int)),
        decreases pieces.len() - i,
    {
        let ghost next = all.take(i + 1);
        let ghost before = parts@;
        proof {
            assert(next.drop_last() =~= all.take(i as int));
            assert(next.last() == pieces@[i as int]@);
        }
        let piece = trimmed(pieces[i].as_str());
        if chars_of(piece.as_str()).len() > 0 {
            parts.push(piece);
            assert(views(parts@) =~= views(before).push(trim(next.last())));
        }
        i = i + 1;
    }
    assert(all.take(all.len() as int) =~= all);
    if parts.len() < 2 {
        return None;
    }
    let mut back: Vec<String> = Vec::new();
    let mut k: usize = parts.len();
    while k > 0
        invariant
            k <= parts@.len(),
            back@.len() == parts@.len() - k,
            forall|x: int|
                0 <= x < back@.len() ==> (#[trigger] back@[x])@ == views(parts@).reverse()[x],
        decreases k,
    {
        k = k - 1;
        back.push(parts[k].clone());
    }
    proof {
        assert(views(back@) =~= views(parts@).reverse());
        reveal_strlit("+");
        assert("+"@ =~= seq!['+']);
    }
    let reversed = join_with(back.as_slice(), "+");
    if same(reversed.as_str(), langs) {
        None
    } else {
        Some(reversed)
    }
}

/// Luma of a pixel, in integers.
pub open spec fn luma_of(r: u8, g: u8, b: u8) -> int {
    (77 * r + 150 * g + 29 * b) / 256
}

/// Luma of a pixel.
pub fn luma(r: u8, g: u8, b: u8) -> (v: u8)
    ensures
        v == luma_of(r, g, b),
{
    ((77 * r as u32 + 150 * g as u32 + 29 * b as u32) / 256) as u8
}

/// The luma of the pixel in column `x` of row `y`.
pub open spec fn luma_at(image: Rgb8, x: int, y: int) -> int {
    let i = y * image.width + x;
    luma_of(image.channel(i, 0), image.channel(i, 1), image.channel(i, 2))
}

/// How many of the pixels in even columns below `n` of row `y` have a luma in `lo..hi`.
pub open spec fn row_count(image: Rgb8, y: int, lo: int, hi: int, n: int) -> nat
    decreases n,
{
    if n <= 0 {
        0
    } else {
        row_count(image, y, lo, hi, n - 1) + if (n - 1) % 2 == 0 && lo <= luma_at(image, n - 1, y)
            < hi {
            1nat
        } else {
            0
        }
    }
}

/// The same, over the rows above `rows`.
pub open spec fn rows_count(image: Rgb8, lo: int, hi: int, rows: int) -> nat
    decreases rows,
{
    if rows <= 0 {
        0
    } else {
        rows_count(image, lo, hi, rows - 1) + row_count(
            image,
            rows - 1,
            lo,
            hi,
            image.width as int,
        )
    }
}

/// How many sampled pixels fall into bucket `b` of 64.
pub open spec fn bucket_count(image: Rgb8, b: int) -> nat {
    rows_count(image, 4 * b, 4 * b + 4, image.height as int)
}

/// The fullest bucket, the last of them if several are equally full.
pub open spec fn is_background(image: Rgb8, b: int) -> bool {
    &&& 0 <= b < 64
    &&& forall|c: int|
        0 <= c < 64 ==> #[trigger] bucket_count(image, c) <= bucket_count(image, b)
    &&& forall|c: int| b < c < 64 ==> #[trigger] bucket_count(image, c) < bucket_count(image, b)
}

/// How many sampled pixels of row `y` stand out from a background of luma `level`.
pub open spec fn ink(image: Rgb8, y: int, level: int) -> nat {
    row_count(image, y, 0, level - 47, image.width as int) + row_count(
        image,
        y,
        level + 48,
        256,
        image.width as int,
    )
}

/// Whether row `y` is written on.
pub open spec fn is_ink_row(image: Rgb8, y: int, level: int) -> bool {
    ink(image, y, level) >= crate::tsv::larger(image.width as int / 50, 2)
}

/// Whether row `y` is the third of a run of written rows.
pub open spec fn third_of_run(image: Rgb8, y: int, level: int) -> bool {
    y >= 2 && is_ink_row(image, y, level) && is_ink_row(image, y - 1, level) && is_ink_row(
        image,
        y - 2,
        level,
    ) && (y == 2 || !is_ink_row(image, y - 3, level))
}

/// How many runs of at least three written rows reach their third row above row `n`.
pub open spec fn bands(image: Rgb8, level: int, n: int) -> nat
    decreases n,
{
    if n <= 0 {
        0
    } else {
        bands(image, level, n - 1) + if third_of_run(image, n - 1, level) {
            1nat
        } else {
            0
        }
    }
}

proof fn row_count_bound(image: Rgb8, y: int, lo: int, hi: int, n: int)
    requires
        0 <= n,
    ensures
        row_count(image, y, lo, hi, n) <= n,
    decreases n,
{
    if n > 0 {
        row_count_bound(image, y, lo, hi, n - 1);
    }
}

/// The luma of a pixel.
fn read_luma(image: &Rgb8, x: usize, y: usize) -> (v: u8)
    requires
        image.wf(),
        x < image.width,
        y < image.height,
    ensures
        v == luma_at(*image, x as int, y as int),
{
    let total: usize = image.data.len();
    proof {
        row_bounds(y as int, image.width as int, image.height as int);
    }
    let i: usize = y * image.width + x;
    luma(image.data[i * 3], image.data[i * 3 + 1], image.data[i * 3 + 2])
}

/// How many sampled pixels of a row have a luma in `lo..hi`.
fn count_row(image: &Rgb8, y: usize, lo: i32, hi: i32) -> (n: usize)
    requires
        image.wf(),
        y < image.height,
    ensures
        n == row_count(*image, y as int, lo as int, hi as int, image.width as int),
        n <= image.width,
{
    let mut n: usize = 0;
    let mut x: usize = 0;
    while x < image.width
        invariant
            image.wf(),
            y < image.height,
            x <= image.width,
            n == row_count(*image, y as int, lo as int, hi as int, x as int),
            n <= x,
        decreases image.width - x,
    {
        if x % 2 == 0 {
            let v: i32 = read_luma(image, x, y) as i32;
            if lo <= v && v < hi {
                n = n + 1;
            }
        }
        x = x + 1;
    }
    n
}

/// How many sampled pixels fall into a bucket.
fn count_bucket(image: &Rgb8, b: i32) -> (n: u128)
    requires
        image.wf(),
        0 <= b < 64,
    ensures
        n == bucket_count(*image, b as int),
{
    let mut n: u128 = 0;
    let mut y: usize = 0;
    while y < image.height
        invariant
            image.wf(),
            0 <= b < 64,
            y <= image.height,
            n == rows_count(*image, 4 * b, 4 * b + 4, y as int),
            n <= y * image.width,
        decreases image.height - y,
    {
        let row: usize = count_row(image, y, 4 * b, 4 * b + 4);
        proof {
            assert(y * image.width + image.width == (y + 1) * image.width) by (nonlinear_arith);
            assert((y + 1) * image.width <= u64::MAX * u64::MAX) by (nonlinear_arith)
                requires
                    0 <= y + 1 <= u64::MAX,
                    0 <= image.width <= u64::MAX,
            ;
        }
        n = n + row as u128;
        y = y + 1;
    }
    n
}

/// Coarse count of the rows of text in a crop: runs of at least three rows of pixels that stand out
/// from the most common luma. Frames and underlines are too thin to count.
pub fn text_row_bands(image: &Rgb8) -> (n: usize)
    requires
        image.wf(),
    ensures
        image.width < 8 || image.height < 8 ==> n == 0,
        image.width >= 8 && image.height >= 8 ==> exists|b: int| #[trigger]
            is_background(*image, b) && n == bands(*image, 4 * b + 2, image.height as int),
{
    if image.width < 8 || image.height < 8 {
        return 0;
    }
    let mut best: i32 = 0;
    let mut most: u128 = count_bucket(image, 0);
    let mut b: i32 = 1;
    while b < 64
        invariant
            image.wf(),
            1 <= b <= 64,
            0 <= best < b,
            most == bucket_count(*image, best as int),
            forall|c: int|
                0 <= c < b ==> #[trigger] bucket_count(*image, c) <= bucket_count(
                    *image,
                    best as int,
                ),
            forall|c: int|
                best < c < b ==> #[trigger] bucket_count(*image, c) < bucket_count(
                    *image,
                    best as int,
                ),
        decreases 64 - b,
    {
        let count: u128 = count_bucket(image, b);
        if count >= most {
            most = count;
            best = b;
        }
        b = b + 1;
    }
    assert(is_background(*image, best as int));
    let level: i32 = 4 * best + 2;
    let ghost l = level as int;
    let floor: usize = if image.width / 50 > 2 {
        image.width / 50
    } else {
        2
    };
    let mut n: usize = 0;
    let mut run: usize = 0;
    let mut y: usize = 0;
    while y < image.height
        invariant
            image.wf(),
            l == level,
            2 <= level <= 254,
            floor == crate::tsv::larger(image.width as int / 50, 2),
            y <= image.height,
            n == bands(*image, l, y as int),
            n <= y,
            run <= y,
            forall|k: int| y - run <= k < y ==> is_ink_row(*image, k, l),
            run < y ==> !is_ink_row(*image, y - run - 1, l),
        decreases image.height - y,
    {
        let dark: usize = count_row(image, y, 0, level - 47);
        let light: usize = count_row(image, y, level + 48, 256);
        let inked: bool = if dark >= floor {
            true
        } else {
            light >= floor - dark
        };
        assert(inked == is_ink_row(*image, y as int, l));
        if inked {
            run = run + 1;
            proof {
                if run == 3 {
                    assert(third_of_run(*image, y as int, l));
                } else if run > 3 {
                    assert(is_ink_row(*image, y - 3, l));
                } else if run == 2 && y >= 2 {
                    assert(!is_ink_row(*image, y - 2, l));
                } else if run == 1 && y >= 1 {
                    assert(!is_ink_row(*image, y - 1, l));
                }
            }
            if run == 3 {
                n = n + 1;
            }
        } else {
            run = 0;
        }
        y = y + 1;
    }
    n
}

/// Whether the crop is at least `num / den` times as wide as it is high.
pub open spec fn as_wide_as(image: Rgb8, num: int, den: int) -> bool {
    den * image.width >= num * image.height
}

/// The layout for a crop: a wide and low one is a single line unless several rows of text show, a
/// very wide one is scattered text, and anything else is a block.
pub fn layout_psm(image: &Rgb8) -> (psm: u8)
    requires
        image.wf(),
    ensures
        image.width == 0 || image.height == 0 ==> psm == BLOCK_LAYOUT,
        image.width > 0 && image.height > 0 ==> {
            if as_wide_as(*image, 12, 5) && image.height <= 96 {
                if image.height < 8 {
                    psm == LINE_LAYOUT
                } else {
                    exists|b: int| #[trigger]
                        is_background(*image, b) && psm == if bands(
                            *image,
                            4 * b + 2,
                            image.height as int,
                        ) > 1 {
                            BLOCK_LAYOUT
                        } else {
                            LINE_LAYOUT
                        }
                }
            } else {
                psm == if as_wide_as(*image, 18, 5) {
                    SPARSE_LAYOUT
                } else {
                    BLOCK_LAYOUT
                }
            }
        },
{
    if image.width == 0 || image.height == 0 {
        return BLOCK_LAYOUT;
    }
    let width: u128 = image.width as u128;
    let height: u128 = image.height as u128;
    if 5 * width >= 12 * height && image.height <= 96 {
        if text_row_bands(image) > 1 {
            BLOCK_LAYOUT
        } else {
            LINE_LAYOUT
        }
    } else if 5 * width >= 18 * height {
        SPARSE_LAYOUT
    } else {
        BLOCK_LAYOUT
    }
}

/// Why no text was recognised.
#[derive(Debug)]
pub enum OcrError {
    /// Something that has to be installed or configured is not there.
    Missing(String),
    Timeout(String),
    Failed(String),
    /// The recogniser answered with no text.
    Empty(String),
}

impl OcrError {
    /// The message of the error.
    pub open spec fn message(self) -> Seq<char> {
        match self {
            OcrError::Missing(m) => m@,
            OcrError::Timeout(m) => m@,
            OcrError::Failed(m) => m@,
            OcrError::Empty(m) => m@,
        }
    }

    /// The message of the error.
    pub fn to_string(&self) -> (s: String)
        ensures
            s@ == self.message(),
    {
        match self {
            OcrError::Missing(m) => m.clone(),
            OcrError::Timeout(m) => m.clone(),
            OcrError::Failed(m) => m.clone(),
            OcrError::Empty(m) => m.clone(),
        }
    }
}

/// One recognised crop and the engine that read it.
#[derive(Debug)]
pub struct Recognized {
    pub text: String,
    pub engine: &'static str,
}

/// Whether two recognitions confirm each other: both have text, and it reads the same.
pub open spec fn agree(a: ResultModel, b: ResultModel) -> bool {
    a.meaningful_chars >= 3 && b.meaningful_chars >= 3 && cleaned(a.text) == cleaned(b.text)
}

/// Whether two recognitions confirm each other.
pub fn results_agree(a: &TesseractResult, b: &TesseractResult) -> (r: bool)
    ensures
        r == agree(a@, b@),
{
    if a.meaningful_chars < 3 || b.meaningful_chars < 3 {
        return false;
    }
    let left = cleanup(a.text.as_str());
    let right = cleanup(b.text.as_str());
    same(left.as_str(), right.as_str())
}

/// A recognition that needs no second opinion.
pub open spec fn is_strong(r: ResultModel) -> bool {
    r.confidence >= whole(88) && r.meaningful_chars >= 3 && r.low_confidence_chars == 0
        && r.isolated_noise_lines == 0
}

/// What to do once a candidate has been recognised.
#[derive(Debug, Clone, Copy, PartialEq, Eq, Structural)]
pub enum Verdict {
    /// Try the next candidate.
    Continue,
    /// The best recognition so far is the answer.
    Stop,
}

/// The better of two recognitions of a candidate, the first if neither is.
pub open spec fn preferred(kind: CandidateKind, a: ResultModel, b: ResultModel) -> ResultModel {
    if better(result_score(b, kind), result_score(a, kind)) {
        b
    } else {
        a
    }
}

/// `out` is the fusion of two recognitions where that is better than the first.
pub open spec fn is_fused(
    kind: CandidateKind,
    a: ResultModel,
    b: ResultModel,
    out: ResultModel,
) -> bool {
    exists|merged: ResultModel| #[trigger]
        is_merged(a, b, merged) && out == preferred(kind, a, merged)
}

/// `out` is what a candidate yields: the recognition, or the one in another layout if that is
/// better, fused with the one in another order of languages if that is better still.
pub open spec fn is_attempt(
    kind: CandidateKind,
    primary: ResultModel,
    relaid: Option<ResultModel>,
    reordered: Option<ResultModel>,
    out: ResultModel,
) -> bool {
    let laid = match relaid {
        Some(other) => preferred(kind, primary, other),
        None => primary,
    };
    match reordered {
        Some(other) => is_fused(kind, laid, other, out),
        None => out == laid,
    }
}

fn prefer(kind: CandidateKind, a: TesseractResult, b: TesseractResult) -> (r: TesseractResult)
    ensures
        r@ == preferred(kind, a@, b@),
        r@ == a@ || r@ == b@,
{
    let sa = score_result(&a, kind);
    let sb = score_result(&b, kind);
    if is_better(sb, sa) {
        b
    } else {
        a
    }
}

/// What a candidate yields, from its recognition, the one in another layout and the one in another
/// order of languages, where those were made and succeeded.
pub fn best_attempt(
    kind: CandidateKind,
    primary: TesseractResult,
    relaid: Option<TesseractResult>,
    reordered: Option<TesseractResult>,
) -> (out: TesseractResult)
    requires
        result_wf(primary@),
        relaid is Some ==> result_wf(relaid->0@),
        reordered is Some ==> result_wf(reordered->0@),
    ensures
        result_wf(out@),
        is_attempt(
            kind,
            primary@,
            match relaid {
                Some(r) => Some(r@),
                None => None,
            },
            match reordered {
                Some(r) => Some(r@),
                None => None,
            },
            out@,
        ),
{
    let laid = match relaid {
        Some(other) => prefer(kind, primary, other),
        None => primary,
    };
    match reordered {
        Some(other) => {
            let merged = merge_language_results(&laid, &other);
            let ghost parts = (laid@, other@, merged@);
            let out = prefer(kind, laid, merged);
            assert(is_fused(kind, parts.0, parts.1, out@)) by {
                assert(is_merged(parts.0, parts.1, parts.2));
            }
            out
        },
        None => laid,
    }
}

/// The search for the best recognition over the candidates of a preparation.
pub struct Search {
    /// Whether the plan holds a candidate for faint strokes.
    pub checks_local_contrast: bool,
    pub best: Option<TesseractResult>,
    pub best_score: Option<Balance>,
    pub best_kind: Option<CandidateKind>,
    pub first_error: Option<OcrError>,
}

/// The best recognition so far and how good it is.
pub struct Known {
    pub result: ResultModel,
    pub score: Option<int>,
}

/// What a search knows.
pub open spec fn best_of(s: Search) -> Option<Known> {
    match s.best {
        Some(r) => Some(
            Known {
                result: r@,
                score: score_value(s.best_score),
            },
        ),
        None => None,
    }
}

/// The better of what is known and a new recognition. What is known stays if they are equal.
pub open spec fn improved(
    known: Option<Known>,
    kind: CandidateKind,
    attempt: ResultModel,
) -> Option<Known> {
    let fresh = Known { result: attempt, score: result_score(attempt, kind) };
    match known {
        Some(k) => if better(fresh.score, k.score) {
            Some(fresh)
        } else {
            Some(k)
        },
        None => Some(fresh),
    }
}

impl Search {
    /// A search over the given candidates.
    pub fn new(kinds: &Vec<CandidateKind>) -> (s: Search)
        ensures
            s.checks_local_contrast == kinds@.contains(CandidateKind::LocalContrast),
            s.best is None,
            s.best_kind is None,
            s.first_error is None,
    {
        let mut found: bool = false;
        let mut i: usize = 0;
        while i < kinds.len()
            invariant
                i <= kinds@.len(),
                found == exists|k: int|
                    0 <= k < i && #[trigger] kinds@[k] == CandidateKind::LocalContrast,
            decreases kinds.len() - i,
        {
            match kinds[i] {
                CandidateKind::LocalContrast => {
                    assert(kinds@[i as int] == CandidateKind::LocalContrast);
                    found = true;
                },
                _ => {},
            }
            i = i + 1;
        }
        Search {
            checks_local_contrast: found,
            best: None,
            best_score: None,
            best_kind: None,
            first_error: None,
        }
    }

    /// The layout to try again after a recognition, if another is worth it: scattered for a block,
    /// a block for anything else.
    pub fn retry_layout(attempt: &TesseractResult, psm: u8) -> (r: Option<u8>)
        ensures
            r == if retries_layout(attempt@, psm) {
                Some(
                    if psm == BLOCK_LAYOUT {
                        SPARSE_LAYOUT
                    } else {
                        BLOCK_LAYOUT
                    },
                )
            } else {
                None
            },
    {
        if should_retry_layout(attempt, psm) {
            Some(
                if psm == BLOCK_LAYOUT {
                    SPARSE_LAYOUT
                } else {
                    BLOCK_LAYOUT
                },
            )
        } else {
            None
        }
    }

    /// The order of languages to try beside the configured one: only faint strokes get it.
    pub fn second_order(kind: CandidateKind, langs: &str) -> (r: Option<String>)
        ensures
            match r {
                Some(s) => kind == CandidateKind::LocalContrast && alternate_order(langs@) == Some(
                    s@,
                ),
                None => kind != CandidateKind::LocalContrast || alternate_order(langs@) is None,
            },
    {
        match kind {
            CandidateKind::LocalContrast => alternate_language_order(langs),
            _ => None,
        }
    }

    /// A candidate could not be recognised. The first such error is kept, in case nothing else is
    /// found. If something has to be installed first, the search ends, whatever was found before.
    pub fn fail(&mut self, error: OcrError) -> (v: Verdict)
        ensures
            v == Verdict::Stop <==> error is Missing,
            final(self).first_error == if error is Missing {
                Some(error)
            } else {
                match old(self).first_error {
                    Some(e) => Some(e),
                    None => Some(error),
                }
            },
            final(self).best == old(self).best,
            final(self).best_score == old(self).best_score,
            final(self).best_kind == old(self).best_kind,
            final(self).checks_local_contrast == old(self).checks_local_contrast,
    {
        match error {
            OcrError::Missing(m) => {
                self.first_error = Some(OcrError::Missing(m));
                Verdict::Stop
            },
            other => {
                if self.first_error.is_none() {
                    self.first_error = Some(other);
                }
                Verdict::Continue
            },
        }
    }

    /// Takes the recognition of a candidate into account and says whether to go on. A strong or a
    /// confirmed answer ends the search, except that a strong baseline still waits for the
    /// candidate for faint strokes if there is one.
    pub fn settle(&mut self, kind: CandidateKind, attempt: TesseractResult) -> (v: Verdict)
        ensures
            best_of(*final(self)) == improved(best_of(*old(self)), kind, attempt@),
            final(self).best_kind == if best_of(*old(self)) is None || better(
                result_score(attempt@, kind),
                (best_of(*old(self))->0).score,
            ) {
                Some(kind)
            } else {
                old(self).best_kind
            },
            final(self).first_error == old(self).first_error,
            final(self).checks_local_contrast == old(self).checks_local_contrast,
            v == Verdict::Stop <==> (is_strong((best_of(*final(self))->0).result) || (best_of(
                *old(self),
            ) is Some && agree((best_of(*old(self))->0).result, attempt@))) && !(kind
                == CandidateKind::Baseline && old(self).checks_local_contrast),
    {
        let confirms: bool = match &self.best {
            Some(current) => results_agree(current, &attempt),
            None => false,
        };
        let score = score_result(&attempt, kind);
        let first: bool = self.best.is_none();
        if first || is_better(score, self.best_score) {
            self.best_kind = Some(kind);
            self.best_score = score;
            self.best = Some(attempt);
        }
        let strong: bool = match &self.best {
            Some(r) => !r.confidence.less(Single::whole(88)) && r.meaningful_chars >= 3
                && r.low_confidence_chars == 0 && r.isolated_noise_lines == 0,
            None => false,
        };
        let baseline: bool = match kind {
            CandidateKind::Baseline => true,
            _ => false,
        };
        if (strong || confirms) && !(baseline && self.checks_local_contrast) {
            Verdict::Stop
        } else {
            Verdict::Continue
        }
    }

    /// The answer of the search. `timed_out` says whether its time is up. That something has to be
    /// installed is the answer even if a candidate was read before.
    pub fn finish(self, timed_out: bool) -> (r: Result<String, OcrError>)
        ensures
            if self.first_error is Some && self.first_error->0 is Missing {
                r == Err::<String, OcrError>(self.first_error->0)
            } else {
                match self.best {
                    Some(found) => if trim(found.text@).len() > 0 {
                        r matches Ok(text) && text@ == cleaned(found.text@)
                    } else {
                        r matches Err(OcrError::Empty(m)) && m@ == "tesseract returned no text"@
                    },
                    None => match self.first_error {
                        Some(e) => r == Err::<String, OcrError>(e),
                        None => if timed_out {
                            r matches Err(OcrError::Timeout(m)) && m@ == "tesseract timed out"@
                        } else {
                            r matches Err(OcrError::Empty(m)) && m@ == "tesseract returned no text"@
                        },
                    },
                }
            },
    {
        let first_error: Option<OcrError> = match self.first_error {
            Some(OcrError::Missing(m)) => {
                return Err(OcrError::Missing(m));
            },
            other => other,
        };
        match self.best {
            Some(found) => {
                let text = trimmed(found.text.as_str());
                if chars_of(text.as_str()).len() > 0 {
                    Ok(cleanup(found.text.as_str()))
                } else {
                    Err(OcrError::Empty(owned("tesseract returned no text")))
                }
            },
            None => match first_error {
                Some(e) => Err(e),
                None => if timed_out {
                    Err(OcrError::Timeout(owned("tesseract timed out")))
                } else {
                    Err(OcrError::Empty(owned("tesseract returned no text")))
                },
            },
        }
    }
}

/// The search keeps the recognition with the highest score: what it knows afterwards scores exactly
/// as much as the better of what it knew and the new one, and is that one. An equal score changes
/// nothing.
pub proof fn the_highest_score_is_kept(
    s: &mut Search,
    kind: CandidateKind,
    attempt: TesseractResult,
    v: Verdict,
)
    requires
        call_ensures(Search::settle, (s, kind, attempt), v),
    ensures
        final(s).best is Some,
        old(s).best is None ==> (final(s).best->0)@ == attempt@ && score_value(final(s).best_score)
            == result_score(attempt@, kind),
        old(s).best is Some ==> match (score_value(old(s).best_score), result_score(attempt@, kind)) {
            (Some(x), Some(y)) => {
                &&& score_value(final(s).best_score) == Some(
                    if x >= y {
                        x
                    } else {
                        y
                    },
                )
                &&& (final(s).best->0)@ == if x >= y {
                    (old(s).best->0)@
                } else {
                    attempt@
                }
            },
            (None, Some(y)) => score_value(final(s).best_score) == Some(y) && (final(s).best->0)@
                == attempt@,
            (_, None) => score_value(final(s).best_score) == score_value(old(s).best_score) && (
            final(s).best->0)@ == (old(s).best->0)@,
        },
{
}

/// What a candidate yields scores no less than its recognition, and no less than the one in another
/// layout. Without a recognition in another order of languages it is one of those two.
pub proof fn an_attempt_is_never_worse(
    kind: CandidateKind,
    primary: TesseractResult,
    relaid: Option<TesseractResult>,
    reordered: Option<TesseractResult>,
    out: TesseractResult,
)
    requires
        call_ensures(best_attempt, (kind, primary, relaid, reordered), out),
    ensures
        result_score(primary@, kind) matches Some(x) ==> (result_score(out@, kind) matches Some(y)
            && y >= x),
        relaid is Some ==> (result_score((relaid->0)@, kind) matches Some(x) ==> (result_score(
            out@,
            kind,
        ) matches Some(y) && y >= x)),
        reordered is None ==> out@ == primary@ || (relaid is Some && out@ == (relaid->0)@),
{
}

/// A search ends early only on a recognition that is sure, or that says the same as the best one
/// before; and on such a one it does end, unless the candidate for faint strokes is still to come.
pub proof fn a_search_ends_on_a_sure_recognition(
    s: &mut Search,
    kind: CandidateKind,
    attempt: TesseractResult,
    v: Verdict,
)
    requires
        call_ensures(Search::settle, (s, kind, attempt), v),
    ensures
        v == Verdict::Stop && old(s).best is None ==> attempt.confidence@ >= 88 * one()
            && attempt.meaningful_chars >= 3 && attempt.low_confidence_chars == 0
            && attempt.isolated_noise_lines == 0,
        v == Verdict::Stop && kind == CandidateKind::Baseline ==> !old(s).checks_local_contrast,
        old(s).best is None && attempt.confidence@ >= 88 * one() && attempt.meaningful_chars >= 3
            && attempt.low_confidence_chars == 0 && attempt.isolated_noise_lines == 0 && (kind
            != CandidateKind::Baseline || !old(s).checks_local_contrast) ==> v == Verdict::Stop,
        old(s).best is Some && (old(s).best->0).text@ == attempt.text@ && (
        old(s).best->0).meaningful_chars >= 3 && attempt.meaningful_chars >= 3 && kind
            != CandidateKind::Baseline ==> v == Verdict::Stop,
{
    small_integers_are_exact(88);
}

/// The text of the best recognition is the answer, cleaned. Without any recognition the first error
/// is, and one that says that something is missing stands before everything else.
pub proof fn a_search_answers_with_what_it_found(
    s: Search,
    timed_out: bool,
    r: Result<String, OcrError>,
    source: &str,
    text: String,
)
    requires
        call_ensures(Search::finish, (s, timed_out), r),
        s.best is Some ==> source@ == (s.best->0).text@,
        call_ensures(cleanup, (source,), text),
    ensures
        r is Ok ==> s.best is Some && trim((s.best->0).text@).len() > 0 && (r->Ok_0)@ == text@,
        s.best is Some && trim((s.best->0).text@).len() > 0 && !(s.first_error is Some
            && s.first_error->0 is Missing) ==> r is Ok,
        s.first_error is Some && s.first_error->0 is Missing ==> r == Err::<String, OcrError>(
            s.first_error->0,
        ),
        s.best is None && s.first_error is Some ==> r == Err::<String, OcrError>(s.first_error->0),
        s.best is None && s.first_error is None ==> r is Err && (r->Err_0 is Timeout <==> timed_out),
{
}

/// The first error of a search is the one that is kept.
pub proof fn the_first_error_is_kept(s: &mut Search, error: OcrError, v: Verdict)
    requires
        call_ensures(Search::fail, (s, error), v),
    ensures
        final(s).best == old(s).best,
        error is Missing ==> v == Verdict::Stop && final(s).first_error == Some(error),
        !(error is Missing) ==> v == Verdict::Continue && final(s).first_error == if old(
            s,
        ).first_error is Some {
            old(s).first_error
        } else {
            Some(error)
        },
{
}

/// Another layout is tried where a recognition is unsure, and it is another one: scattered text after
/// a block, a block after anything else.
pub proof fn another_layout_is_another_one(attempt: TesseractResult, psm: u8, r: Option<u8>)
    requires
        call_ensures(Search::retry_layout, (&attempt, psm), r),
    ensures
        r is Some ==> r->0 != psm && (r->0 == 6 || r->0 == 11),
        r is Some ==> attempt.confidence@ < 82 * one() || attempt.meaningful_chars < 3,
        attempt.confidence@ < 82 * one() && psm != 11 ==> r is Some,
        attempt.meaningful_chars < 3 && attempt.isolated_noise_lines <= 2 ==> r is Some,
        psm == 11 && attempt.isolated_noise_lines > 2 ==> r is None,
{
    small_integers_are_exact(82);
}

/// Text in scripts that are written with spaces keeps them all.
pub proof fn words_keep_their_spaces(line: &str, out: String)
    requires
        call_ensures(drop_cjk_spaces, (line,), out),
        forall|i: int| 0 <= i < line@.len() ==> (#[trigger] line@[i]) < '\u{3040}',
    ensures
        out@ == line@,
{
    assert forall|p: int| 0 <= p < line@.len() implies !#[trigger] between_glyphs(line@, p) by {
        if between_glyphs(line@, p) {
            let (a, b) = choose|a: int, b: int|
                0 <= a < p < b < line@.len() && cjk(#[trigger] line@[a]) && cjk(
                    #[trigger] line@[b],
                ) && all_blank(line@, a + 1, b);
            assert(cjk(line@[a]));
        }
    }
    nothing_to_drop(line@, line@.len() as int);
}

/// Two Chinese, Japanese or Korean glyphs with nothing but white space between them stand next to
/// each other afterwards.
pub proof fn glyphs_stand_together(line: &str, out: String, a: int, b: int)
    requires
        call_ensures(drop_cjk_spaces, (line,), out),
        0 <= a < b < out@.len(),
        '\u{4e00}' <= out@[a] <= '\u{9fff}' || '\u{3040}' <= out@[a] <= '\u{30ff}' || '\u{ac00}'
            <= out@[a] <= '\u{d7af}' || '\u{3400}' <= out@[a] <= '\u{4dbf}',
        '\u{4e00}' <= out@[b] <= '\u{9fff}' || '\u{3040}' <= out@[b] <= '\u{30ff}' || '\u{ac00}'
            <= out@[b] <= '\u{d7af}' || '\u{3400}' <= out@[b] <= '\u{4dbf}',
        forall|k: int| a < k < b ==> is_blank(#[trigger] out@[k]),
    ensures
        b == a + 1,
{
    if b > a + 1 {
        let s = line@;
        let n = s.len() as int;
        let once = out@;
        let ka = kept_character(s, n, a);
        let kp = kept_character(s, n, a + 1);
        let kb = kept_character(s, n, b);
        if kp <= ka {
            despaced_grows(s, kp, ka);
        }
        if kb <= kp {
            despaced_grows(s, kb, kp);
        }
        assert forall|j: int| ka + 1 <= j < kb implies is_blank(#[trigger] s[j]) by {
            if !between_glyphs(s, j) {
                let q = despaced(s, j).len() as int;
                despaced_grows(s, ka + 1, j);
                despaced_grows(s, j + 1, kb);
                despaced_grows(s, j + 1, n);
                assert(despaced(s, ka + 1).len() == a + 1);
                assert(despaced(s, j + 1) == despaced(s, j).push(s[j]));
                assert(despaced(s, j + 1)[q] == s[j]);
                assert(once[q] == s[j]);
                assert(a + 1 <= q < b);
            }
        }
        assert(is_blank(once[a + 1]));
        assert(cjk(s[ka]) && cjk(s[kb]));
        assert(all_blank(s, ka + 1, kb));
        assert(between_glyphs(s, kp));
    }
}

/// A narrow crop is a block; a wide one is a single line only if it is low, and scattered text only
/// if it is not.
pub proof fn the_layout_follows_the_shape(image: &Rgb8, psm: u8)
    requires
        call_ensures(layout_psm, (image,), psm),
    ensures
        psm == 6 || psm == 7 || psm == 11,
        image.width == 0 || image.height == 0 ==> psm == 6,
        5 * image.width < 12 * image.height ==> psm == 6,
        psm == 7 ==> image.height <= 96 && 5 * image.width >= 12 * image.height,
        psm == 11 ==> image.height > 96 && 5 * image.width >= 18 * image.height,
        image.height > 96 && 5 * image.width >= 18 * image.height ==> psm == 11,
        0 < image.height < 8 && 5 * image.width >= 12 * image.height ==> psm == 7,
{
}

/// Only the candidate for faint strokes is read in a second order of languages.
pub proof fn only_faint_strokes_are_read_twice(kind: CandidateKind, langs: &str, r: Option<String>)
    requires
        call_ensures(Search::second_order, (kind, langs), r),
    ensures
        r is Some ==> kind == CandidateKind::LocalContrast && (r->0)@ != langs@,
{
}

proof fn occurs_adds(a: Seq<char>, b: Seq<char>, c: char)
    ensures
        occurs(a + b, c) == occurs(a, c) + occurs(b, c),
    decreases b.len(),
{
    if b.len() == 0 {
        assert(a + b =~= a);
    } else {
        occurs_adds(a, b.drop_last(), c);
        assert((a + b).drop_last() =~= a + b.drop_last());
    }
}

/// How often a character occurs in all of the lines.
pub open spec fn occurs_in(ls: Seq<Seq<char>>, c: char) -> nat
    decreases ls.len(),
{
    if ls.len() == 0 {
        0
    } else {
        occurs_in(ls.drop_last(), c) + occurs(ls.last(), c)
    }
}

proof fn occurs_in_first(ls: Seq<Seq<char>>, c: char)
    requires
        ls.len() > 0,
    ensures
        occurs_in(ls, c) == occurs(ls[0], c) + occurs_in(ls.drop_first(), c),
    decreases ls.len(),
{
    if ls.len() > 1 {
        occurs_in_first(ls.drop_last(), c);
        assert(ls.drop_last().drop_first() =~= ls.drop_first().drop_last());
    } else {
        assert(ls.drop_last().len() == 0 && ls.drop_first().len() == 0);
        assert(occurs_in(ls.drop_last(), c) == 0);
    }
}

proof fn joined_lines_hold_their_characters(ls: Seq<Seq<char>>, c: char)
    requires
        c != '\n',
    ensures
        occurs(join(ls, seq!['\n']), c) == occurs_in(ls, c),
    decreases ls.len(),
{
    let glue = seq!['\n'];
    assert(occurs(glue, c) == 0) by {
        assert(glue.drop_last().len() == 0);
        assert(occurs(glue.drop_last(), c) == 0);
    }
    if ls.len() == 1 {
        assert(occurs_in(ls.drop_last(), c) == 0);
    } else if ls.len() > 1 {
        joined_lines_hold_their_characters(ls.drop_last(), c);
        occurs_adds(join(ls.drop_last(), glue) + glue, ls.last(), c);
        occurs_adds(join(ls.drop_last(), glue), glue, c);
    }
}

proof fn glued_lines_hold_their_characters(ls: Seq<Seq<char>>, c: char)
    requires
        c != '\n',
    ensures
        occurs(glued(ls, '\n'), c) == occurs_in(ls, c),
    decreases ls.len(),
{
    let glue = seq!['\n'];
    assert(occurs(glue, c) == 0) by {
        assert(glue.drop_last().len() == 0);
        assert(occurs(glue.drop_last(), c) == 0);
    }
    if ls.len() == 1 {
        assert(occurs_in(ls.drop_last(), c) == 0);
    } else if ls.len() > 1 {
        occurs_in_first(ls, c);
        assert(ls.skip(1) =~= ls.drop_first());
        glued_lines_hold_their_characters(ls.skip(1), c);
        occurs_adds(ls[0] + glue, glued(ls.skip(1), '\n'), c);
        occurs_adds(ls[0], glue, c);
    }
}

proof fn trimming_keeps_characters(s: Seq<char>, c: char)
    requires
        !is_blank(c),
    ensures
        occurs(trim_end(s), c) == occurs(s, c),
        occurs(crate::text::trim_start(s), c) == occurs(s, c),
        occurs(trim(s), c) == occurs(s, c),
{
    end_keeps_characters(s, c);
    start_keeps_characters(s, c);
    end_keeps_characters(crate::text::trim_start(s), c);
}

proof fn end_keeps_characters(s: Seq<char>, c: char)
    requires
        !is_blank(c),
    ensures
        occurs(trim_end(s), c) == occurs(s, c),
    decreases s.len(),
{
    if s.len() > 0 && is_blank(s.last()) {
        end_keeps_characters(s.drop_last(), c);
    }
}

proof fn start_keeps_characters(s: Seq<char>, c: char)
    requires
        !is_blank(c),
    ensures
        occurs(crate::text::trim_start(s), c) == occurs(s, c),
    decreases s.len(),
{
    if s.len() > 0 && is_blank(s[0]) {
        start_keeps_characters(s.drop_first(), c);
        let head = seq![s[0]];
        assert(head + s.drop_first() =~= s);
        occurs_adds(head, s.drop_first(), c);
        assert(head.drop_last().len() == 0);
        assert(occurs(head.drop_last(), c) == 0);
    }
}

proof fn empty_lines_hold_nothing(ls: Seq<Seq<char>>, c: char)
    ensures
        occurs_in(drop_empty_front(ls), c) == occurs_in(ls, c),
        occurs_in(drop_empty_back(ls), c) == occurs_in(ls, c),
    decreases ls.len(),
{
    if ls.len() > 0 {
        if ls[0].len() == 0 {
            empty_lines_hold_nothing(ls.drop_first(), c);
            occurs_in_first(ls, c);
        }
        if ls.last().len() == 0 {
            empty_lines_hold_nothing(ls.drop_last(), c);
        }
    }
}

proof fn mapped_lines_hold_their_characters(a: Seq<Seq<char>>, b: Seq<Seq<char>>, c: char)
    requires
        a.len() == b.len(),
        forall|i: int| 0 <= i < a.len() ==> occurs(#[trigger] a[i], c) == occurs(b[i], c),
    ensures
        occurs_in(a, c) == occurs_in(b, c),
    decreases a.len(),
{
    if a.len() > 0 {
        let (x, y) = (a.drop_last(), b.drop_last());
        assert forall|i: int| 0 <= i < x.len() implies occurs(#[trigger] x[i], c) == occurs(
            y[i],
            c,
        ) by {
            assert(a[i] == x[i] && b[i] == y[i]);
        }
        mapped_lines_hold_their_characters(x, y, c);
        assert(occurs(a[a.len() - 1], c) == occurs(b[a.len() - 1], c));
    }
}

proof fn lines_hold_the_characters(s: Seq<char>, c: char)
    requires
        !is_blank(c),
    ensures
        occurs_in(lines(s), c) == occurs(s, c),
{
    let pieces = split(s, '\n');
    crate::text::splitting_loses_nothing(s, '\n');
    glued_lines_hold_their_characters(pieces, c);
    let kept = if pieces.last().len() == 0 {
        pieces.drop_last()
    } else {
        pieces
    };
    assert(occurs_in(kept, c) == occurs_in(pieces, c)) by {
        if pieces.last().len() == 0 {
            assert(occurs(pieces.last(), c) == 0);
        }
    }
    let ls = lines(s);
    assert forall|i: int| 0 <= i < ls.len() implies occurs(#[trigger] ls[i], c) == occurs(
        kept[i],
        c,
    ) by {
        let l = kept[i];
        if l.len() > 0 && l.last() == '\r' {
            assert(occurs(l, c) == occurs(l.drop_last(), c));
        }
    }
    mapped_lines_hold_their_characters(ls, kept, c);
}

/// Tidying a text without a label loses no character but white space: each occurs as often as before.
pub proof fn tidying_keeps_the_characters(text: &str, out: String, c: char)
    requires
        call_ensures(cleanup, (text,), out),
        !is_blank(c),
        forall|i: int|
            0 <= i < ocr_labels().len() ==> !(#[trigger] ocr_labels()[i]).is_prefix_of(trim(text@)),
    ensures
        occurs(out@, c) == occurs(text@, c),
{
    let s = trim(text@);
    crate::clean::unlabelled_text_is_untouched(s, ocr_labels());
    trimming_keeps_characters(text@, c);
    lines_hold_the_characters(s, c);
    let (a, b) = (lines(s), shown_lines(s));
    assert forall|i: int| 0 <= i < b.len() implies occurs(#[trigger] b[i], c) == occurs(a[i], c) by {
        let l = a[i];
        despacing_drops_only_blanks(l, l.len() as int, c);
        assert(l.take(l.len() as int) =~= l);
        trimming_keeps_characters(despaced(l, l.len() as int), c);
    }
    mapped_lines_hold_their_characters(b, a, c);
    empty_lines_hold_nothing(b, c);
    empty_lines_hold_nothing(drop_empty_front(b), c);
    joined_lines_hold_their_characters(cleaned_lines(text@), c);
}

/// The characters that are written without spaces between them are the Han characters, the kana and
/// the hangul, and no letter, digit or sign of ASCII.
pub proof fn glyphs_are_east_asian(c: char, r: bool)
    requires
        call_ensures(is_cjk, (c,), r),
    ensures
        '\u{4e00}' <= c <= '\u{9fff}' || '\u{3400}' <= c <= '\u{4dbf}' ==> r,
        '\u{3040}' <= c <= '\u{30ff}' || '\u{ac00}' <= c <= '\u{d7af}' ==> r,
        c < '\u{3040}' ==> !r,
        '\u{ff01}' <= c <= '\u{ff5e}' ==> !r,
{
}

/// A gray pixel has its own brightness, a brighter pixel is no darker, and green counts more than red
/// and red more than blue.
pub proof fn brightness_follows_the_channels(
    r: u8,
    g: u8,
    b: u8,
    v: u8,
    s: u8,
    h: u8,
    c: u8,
    w: u8,
)
    requires
        call_ensures(luma, (r, g, b), v),
        call_ensures(luma, (s, h, c), w),
    ensures
        r == g && g == b ==> v == r,
        r <= s && g <= h && b <= c ==> v <= w,
        r == h && g == s && b == c && r <= g ==> w <= v,
        r == c && g == h && b == s && b <= r ==> w <= v,
{
}

/// Two recognitions agree only if both have at least three characters and the same text when tidied,
/// and whichever is asked first.
pub proof fn agreement_is_mutual(
    a: &TesseractResult,
    b: &TesseractResult,
    r: bool,
    s: bool,
    ta: &str,
    tb: &str,
    x: String,
    y: String,
)
    requires
        call_ensures(results_agree, (a, b), r),
        call_ensures(results_agree, (b, a), s),
        ta@ == a.text@,
        tb@ == b.text@,
        call_ensures(cleanup, (ta,), x),
        call_ensures(cleanup, (tb,), y),
    ensures
        r == s,
        r <==> a.meaningful_chars >= 3 && b.meaningful_chars >= 3 && x@ == y@,
{
}

/// Two languages are tried in the other order; a single one has no other order.
pub proof fn two_languages_change_places(langs: &str, a: Seq<char>, b: Seq<char>, r: Option<String>)
    requires
        call_ensures(alternate_language_order, (langs,), r),
        a.len() > 0 && trim(a) == a && !a.contains('+'),
        b.len() > 0 && trim(b) == b && !b.contains('+'),
    ensures
        langs@ == a + seq!['+'] + b && a != b ==> r is Some && (r->0)@ == b + seq!['+'] + a,
        langs@ == a + seq!['+'] + b && a == b ==> r is None,
        langs@ == a ==> r is None,
{
    if langs@ == a {
        let pieces = seq![a];
        assert(glued(pieces, '+') == a);
        crate::text::splitting_undoes_gluing(pieces, '+');
        assert(pieces.drop_last() =~= Seq::empty());
        assert(nonblank(pieces.drop_last()).len() == 0);
        assert(nonblank(pieces) =~= seq![a]);
    } else if langs@ == a + seq!['+'] + b {
        let pieces = seq![a, b];
        assert(pieces.skip(1) =~= seq![b]);
        assert(glued(pieces.skip(1), '+') == b);
        assert(glued(pieces, '+') == langs@);
        crate::text::splitting_undoes_gluing(pieces, '+');
        let one = pieces.drop_last();
        assert(one =~= seq![a]);
        assert(one.drop_last() =~= Seq::empty());
        assert(nonblank(one.drop_last()).len() == 0);
        assert(nonblank(one) =~= seq![a]);
        assert(nonblank(pieces) =~= seq![a, b]);
        let turned = seq![a, b].reverse();
        assert(turned =~= seq![b, a]);
        assert(turned.drop_last() =~= seq![b]);
        assert(join(turned.drop_last(), seq!['+']) == b);
        assert(join(turned, seq!['+']) == b + seq!['+'] + a);
        if a == b {
            assert(b + seq!['+'] + a == langs@);
        } else {
            places_differ(a, b);
        }
    }
}

proof fn places_differ(a: Seq<char>, b: Seq<char>)
    requires
        a != b,
        !a.contains('+'),
        !b.contains('+'),
    ensures
        a + seq!['+'] + b != b + seq!['+'] + a,
{
    if a + seq!['+'] + b == b + seq!['+'] + a {
        let (p, q) = (seq![a, b], seq![b, a]);
        assert(p.skip(1) =~= seq![b] && q.skip(1) =~= seq![a]);
        assert(glued(p.skip(1), '+') == b && glued(q.skip(1), '+') == a);
        assert(glued(p, '+') == glued(q, '+'));
        crate::text::pieces_are_unique(p, q, '+');
        assert(p[0] == q[0]);
    }
}

proof fn no_row_counts(image: Rgb8, y: int, lo: int, hi: int, n: int)
    requires
        0 <= n <= image.width,
        forall|x: int| 0 <= x < image.width ==> !(lo <= #[trigger] luma_at(image, x, y) < hi),
    ensures
        row_count(image, y, lo, hi, n) == 0,
    decreases n,
{
    if n > 0 {
        no_row_counts(image, y, lo, hi, n - 1);
        assert(!(lo <= luma_at(image, n - 1, y) < hi));
    }
}

proof fn no_rows_count(image: Rgb8, lo: int, hi: int, rows: int)
    requires
        0 <= rows <= image.height,
        forall|x: int, y: int|
            0 <= x < image.width && 0 <= y < image.height ==> !(lo <= #[trigger] luma_at(image, x, y)
                < hi),
    ensures
        rows_count(image, lo, hi, rows) == 0,
    decreases rows,
{
    if rows > 0 {
        no_rows_count(image, lo, hi, rows - 1);
        no_row_counts(image, rows - 1, lo, hi, image.width as int);
    }
}

proof fn rows_counts_grow(image: Rgb8, lo: int, hi: int, m: int, n: int)
    requires
        m <= n,
    ensures
        rows_count(image, lo, hi, m) <= rows_count(image, lo, hi, n),
    decreases n - m,
{
    if m < n && n > 0 {
        rows_counts_grow(image, lo, hi, m, n - 1);
    }
}

proof fn row_counts_grow(image: Rgb8, y: int, lo: int, hi: int, m: int, n: int)
    requires
        m <= n,
    ensures
        row_count(image, y, lo, hi, m) <= row_count(image, y, lo, hi, n),
    decreases n - m,
{
    if m < n && n > 0 {
        row_counts_grow(image, y, lo, hi, m, n - 1);
    }
}

proof fn no_bands(image: Rgb8, level: int, n: int)
    requires
        0 <= n <= image.height,
        forall|x: int, y: int|
            0 <= x < image.width && 0 <= y < image.height ==> level - 47 <= #[trigger] luma_at(
                image,
                x,
                y,
            ) < level + 48,
    ensures
        bands(image, level, n) == 0,
    decreases n,
{
    if n > 0 {
        no_bands(image, level, n - 1);
        no_row_counts(image, n - 1, 0, level - 47, image.width as int);
        no_row_counts(image, n - 1, level + 48, 256, image.width as int);
        assert(!is_ink_row(image, n - 1, level));
    }
}

/// A picture of one brightness has no rows of text.
pub proof fn an_empty_picture_has_no_text(image: &Rgb8, n: usize, shade: int)
    requires
        image.wf(),
        call_ensures(text_row_bands, (image,), n),
        0 <= shade < 256,
        forall|x: int, y: int|
            0 <= x < image.width && 0 <= y < image.height ==> #[trigger] luma_at(*image, x, y)
                == shade,
    ensures
        n == 0,
{
    if image.width >= 8 && image.height >= 8 {
        let b = choose|b: int| #[trigger]
            is_background(*image, b) && n == bands(*image, 4 * b + 2, image.height as int);
        let c = shade / 4;
        assert(luma_at(*image, 0, 0) == shade);
        assert(row_count(*image, 0, 4 * c, 4 * c + 4, 0) == 0);
        assert(row_count(*image, 0, 4 * c, 4 * c + 4, 1) == 1);
        row_counts_grow(*image, 0, 4 * c, 4 * c + 4, 1, image.width as int);
        assert(rows_count(*image, 4 * c, 4 * c + 4, 0) == 0);
        assert(rows_count(*image, 4 * c, 4 * c + 4, 1) >= 1);
        rows_counts_grow(*image, 4 * c, 4 * c + 4, 1, image.height as int);
        if b != c {
            no_rows_count(*image, 4 * b, 4 * b + 4, image.height as int);
            assert(bucket_count(*image, c) <= bucket_count(*image, b));
        }
        no_bands(*image, 4 * b + 2, image.height as int);
    }
}

} // verus!
