//! What the lines of a recognition add up to, which of them to keep, and how two recognitions of
//! the same image are fused.

use vstd::prelude::*;

use crate::prep::CandidateKind;
use crate::single::{
    Balance, Single, a_thousand_is_finite, arithmetic_keeps_the_order, differences_keep_the_order,
    fraction, half, nothing_stays_nothing, one, one_changes_nothing, product, quotient, quotients_are_close, rounded,
    rounding_is_close, rounding_keeps_the_order, signed, small_integers_are_exact, sum, whole,
    whole_is_finite,
};
use crate::text::{chars_of, trim, trimmed};
use crate::tsv::{
    LineModel, ParsedLine, larger, line_wf, lines_wf, models, read_table, smaller, table_lines,
};

verus! {

/// Confidence below which another layout is worth trying.
pub const RETRY_CONFIDENCE: u64 = 82;

/// The layout of scattered text.
pub const SPARSE_LAYOUT: u8 = 11;

/// The layout of a block of text.
pub const BLOCK_LAYOUT: u8 = 6;

/// The layout of a single line.
pub const LINE_LAYOUT: u8 = 7;

/// The mean of confidences that were added up, in single precision.
pub open spec fn mean_confidence(sum: nat, weight: int) -> nat {
    if weight == 0 {
        0
    } else {
        quotient(sum, whole(weight as nat))
    }
}

/// The confidence of a line: the mean over its characters.
pub open spec fn line_confidence(l: LineModel) -> nat {
    mean_confidence(l.confidence_sum, l.confidence_weight)
}

fn mean(sum: Single, weight: u64) -> (c: Single)
    ensures
        c@ == mean_confidence(sum@, weight as int),
{
    if weight == 0 {
        Single::zero()
    } else {
        sum.over(Single::whole(weight))
    }
}

/// The width of the box of a line, at least one.
pub open spec fn line_width(l: LineModel) -> int {
    larger(l.right - l.left, 1)
}

/// The height of the box of a line, at least one.
pub open spec fn line_height(l: LineModel) -> int {
    larger(l.bottom - l.top, 1)
}

impl ParsedLine {
    /// The confidence of the line.
    pub fn confidence(&self) -> (c: Single)
        ensures
            c@ == line_confidence(self@),
    {
        mean(self.confidence_sum, self.confidence_weight)
    }

    /// The width of its box.
    pub fn width(&self) -> (w: i64)
        requires
            line_wf(self@),
        ensures
            w == line_width(self@),
            1 <= w <= 0x2_0000_0000,
    {
        let w: i64 = self.right - self.left;
        if w > 1 {
            w
        } else {
            1
        }
    }

    /// The height of its box.
    pub fn height(&self) -> (h: i64)
        requires
            line_wf(self@),
        ensures
            h == line_height(self@),
            1 <= h <= 0x2_0000_0000,
    {
        let h: i64 = self.bottom - self.top;
        if h > 1 {
            h
        } else {
            1
        }
    }
}

/// A lone character that the recogniser is not sure of.
pub open spec fn is_noise(l: LineModel) -> bool {
    l.meaningful_chars <= 1 && line_confidence(l) < whole(65)
}

/// The lines under one another.
pub open spec fn stacked(lines: Seq<LineModel>) -> Seq<char>
    decreases lines.len(),
{
    if lines.len() == 0 {
        Seq::empty()
    } else {
        let above = stacked(lines.drop_last());
        (if above.len() > 0 {
            above.push('\n')
        } else {
            above
        }) + lines.last().text
    }
}

/// The counters of all lines, added up.
pub struct Totals {
    pub sum: nat,
    pub weight: int,
    pub meaningful: int,
    pub trusted: int,
    pub low: int,
    pub noise: int,
}

pub open spec fn totals(lines: Seq<LineModel>) -> Totals
    decreases lines.len(),
{
    if lines.len() == 0 {
        Totals { sum: 0, weight: 0, meaningful: 0, trusted: 0, low: 0, noise: 0 }
    } else {
        let t = totals(lines.drop_last());
        let l = lines.last();
        Totals {
            sum: sum(t.sum, l.confidence_sum),
            weight: t.weight + l.confidence_weight,
            meaningful: t.meaningful + l.meaningful_chars,
            trusted: t.trusted + l.trusted_chars,
            low: t.low + l.low_confidence_chars,
            noise: t.noise + if is_noise(l) {
                1int
            } else {
                0
            },
        }
    }
}

/// What a recognition found.
pub struct TesseractResult {
    pub text: String,
    pub confidence: Single,
    pub meaningful_chars: u64,
    pub trusted_chars: u64,
    pub low_confidence_chars: u64,
    pub isolated_noise_lines: u64,
    pub lines: Vec<ParsedLine>,
}

/// What a recognition holds.
#[verifier::ext_equal]
pub struct ResultModel {
    pub text: Seq<char>,
    pub confidence: nat,
    pub meaningful_chars: int,
    pub trusted_chars: int,
    pub low_confidence_chars: int,
    pub isolated_noise_lines: int,
    pub lines: Seq<LineModel>,
}

impl View for TesseractResult {
    type V = ResultModel;

    open spec fn view(&self) -> ResultModel {
        ResultModel {
            text: self.text@,
            confidence: self.confidence@,
            meaningful_chars: self.meaningful_chars as int,
            trusted_chars: self.trusted_chars as int,
            low_confidence_chars: self.low_confidence_chars as int,
            isolated_noise_lines: self.isolated_noise_lines as int,
            lines: models(self.lines@),
        }
    }
}

/// The recognition that the lines make up.
pub open spec fn result_of(lines: Seq<LineModel>) -> ResultModel {
    let t = totals(lines);
    ResultModel {
        text: stacked(lines),
        confidence: mean_confidence(t.sum, t.weight),
        meaningful_chars: t.meaningful,
        trusted_chars: t.trusted,
        low_confidence_chars: t.low,
        isolated_noise_lines: t.noise,
        lines,
    }
}

/// The lines of a recognition are well formed and few enough to count.
pub open spec fn result_wf(r: ResultModel) -> bool {
    lines_wf(r.lines) && r.lines.len() <= u32::MAX
}

proof fn totals_bounds(lines: Seq<LineModel>)
    requires
        lines_wf(lines),
    ensures
        0 <= totals(lines).weight <= lines.len() * u32::MAX,
        0 <= totals(lines).trusted <= totals(lines).meaningful <= totals(lines).weight,
        0 <= totals(lines).low <= totals(lines).weight,
        0 <= totals(lines).noise <= lines.len(),
    decreases lines.len(),
{
    if lines.len() > 0 {
        let front = lines.drop_last();
        assert forall|i: int| 0 <= i < front.len() implies line_wf(#[trigger] front[i]) by {
            assert(front[i] == lines[i]);
        }
        totals_bounds(front);
        assert(line_wf(lines[lines.len() - 1]));
        let n = lines.len() as int;
        assert((n - 1) * u32::MAX + u32::MAX == n * u32::MAX) by (nonlinear_arith);
    }
}

/// Adds up the lines.
pub fn result_from_lines(lines: Vec<ParsedLine>) -> (r: TesseractResult)
    requires
        lines_wf(models(lines@)),
        lines@.len() <= u32::MAX,
    ensures
        r@ == result_of(models(lines@)),
        result_wf(r@),
{
    let ghost all = models(lines@);
    let mut text = String::new();
    let mut empty: bool = true;
    let mut total = Single::zero();
    let mut weight: u64 = 0;
    let mut meaningful: u64 = 0;
    let mut trusted: u64 = 0;
    let mut low: u64 = 0;
    let mut noise: u64 = 0;
    let mut i: usize = 0;
    assert(all.take(0) =~= Seq::<LineModel>::empty());
    while i < lines.len()
        invariant
            i <= lines@.len() <= u32::MAX,
            all == models(lines@),
            lines_wf(all),
            text@ == stacked(all.take(i as int)),
            empty == (text@.len() == 0),
            total@ == totals(all.take(i as int)).sum,
            weight == totals(all.take(i as int)).weight,
            meaningful == totals(all.take(i as int)).meaningful,
            trusted == totals(all.take(i as int)).trusted,
            low == totals(all.take(i as int)).low,
            noise == totals(all.take(i as int)).noise,
        decreases lines.len() - i,
    {
        let ghost next = all.take(i + 1);
        proof {
            assert(next.drop_last() =~= all.take(i as int));
            assert(next.last() == all[i as int]);
            assert(line_wf(all[i as int]));
            assert(all[i as int] == lines@[i as int]@);
            assert forall|k: int| 0 <= k < next.len() implies line_wf(#[trigger] next[k]) by {
                assert(next[k] == all[k]);
            }
            totals_bounds(next);
            assert((i + 1) * u32::MAX <= u32::MAX * u32::MAX) by (nonlinear_arith)
                requires
                    0 <= i + 1 <= u32::MAX,
            ;
        }
        if !empty {
            text.push('\n');
        }
        text.append(lines[i].text.as_str());
        if empty {
            empty = chars_of(lines[i].text.as_str()).len() == 0;
        }
        total = total.plus(lines[i].confidence_sum);
        weight = weight + lines[i].confidence_weight;
        meaningful = meaningful + lines[i].meaningful_chars;
        trusted = trusted + lines[i].trusted_chars;
        low = low + lines[i].low_confidence_chars;
        if lines[i].meaningful_chars <= 1 && lines[i].confidence().less(Single::whole(65)) {
            noise = noise + 1;
        }
        assert(text@ =~= stacked(next));
        i = i + 1;
    }
    proof {
        assert(all.take(all.len() as int) =~= all);
        totals_bounds(all);
    }
    let confidence = mean(total, weight);
    TesseractResult {
        text,
        confidence,
        meaningful_chars: meaningful,
        trusted_chars: trusted,
        low_confidence_chars: low,
        isolated_noise_lines: noise,
        lines,
    }
}

/// The share that `part` is of `all`, in single precision. Nothing at all counts as one.
pub open spec fn share(part: int, all: int) -> nat {
    quotient(whole(part as nat), whole(larger(all, 1) as nat))
}

fn share_of(part: u64, all: u64) -> (r: Single)
    ensures
        r@ == share(part as int, all as int),
{
    let base: u64 = if all > 1 {
        all
    } else {
        1
    };
    Single::whole(part).over(Single::whole(base))
}

/// So many hundredths for each of `n` characters, of which no more than `most` count.
pub open spec fn bonus(n: int, most: int, hundredths: nat) -> nat {
    product(whole(smaller(n, most) as nat), fraction(hundredths, 100))
}

fn bonus_of(n: u64, most: u64, hundredths: u32) -> (r: Single)
    ensures
        r@ == bonus(n as int, most as int, hundredths as nat),
{
    let count: u64 = if n < most {
        n
    } else {
        most
    };
    Single::whole(count).times(Single::fraction(hundredths, 100))
}

/// How good a line is: its confidence, a bonus for its length and a penalty for the share of its
/// characters that the recogniser doubts.
pub open spec fn line_score(l: LineModel) -> int {
    signed(
        sum(line_confidence(l), bonus(l.meaningful_chars, 24, 15)) - product(
            share(l.low_confidence_chars, l.confidence_weight),
            whole(15),
        ),
    )
}

fn score_line(l: &ParsedLine) -> (s: Balance)
    ensures
        s@ == line_score(l@),
{
    let gain = l.confidence().plus(bonus_of(l.meaningful_chars, 24, 15));
    let doubt = share_of(l.low_confidence_chars, l.confidence_weight).times(Single::whole(15));
    Balance::between(gain, doubt)
}

/// What speaks for a recognition: its confidence, the characters that it found and a little for the
/// candidate that is made for faint strokes.
pub open spec fn merit(r: ResultModel, kind: CandidateKind) -> nat {
    sum(
        sum(
            r.confidence,
            sum(bonus(r.trusted_chars, 40, 35), bonus(r.meaningful_chars, 64, 12)),
        ),
        if kind == CandidateKind::LocalContrast {
            whole(2)
        } else {
            0
        },
    )
}

/// How good a recognition is: its merit without the characters that the recogniser doubts and the
/// lines that are noise. One without text is worse than any other.
pub open spec fn result_score(r: ResultModel, kind: CandidateKind) -> Option<int> {
    if trim(r.text).len() == 0 {
        None
    } else {
        Some(
            signed(
                signed(
                    merit(r, kind) - product(
                        share(r.low_confidence_chars, r.meaningful_chars),
                        whole(22),
                    ),
                ) - product(whole(r.isolated_noise_lines as nat), fraction(5, 2)),
            ),
        )
    }
}

/// Whether the first score is the better one.
pub open spec fn better(a: Option<int>, b: Option<int>) -> bool {
    match (a, b) {
        (Some(x), Some(y)) => x > y,
        (Some(_), None) => true,
        _ => false,
    }
}

/// A score as a value.
pub open spec fn score_value(s: Option<Balance>) -> Option<int> {
    match s {
        Some(v) => Some(v@),
        None => None,
    }
}

/// How good a recognition is.
pub fn score_result(r: &TesseractResult, kind: CandidateKind) -> (s: Option<Balance>)
    ensures
        score_value(s) == result_score(r@, kind),
{
    let text = trimmed(r.text.as_str());
    if chars_of(text.as_str()).len() == 0 {
        return None;
    }
    let coverage = bonus_of(r.trusted_chars, 40, 35).plus(bonus_of(r.meaningful_chars, 64, 12));
    let prior = match kind {
        CandidateKind::LocalContrast => Single::whole(2),
        _ => Single::zero(),
    };
    let gain = r.confidence.plus(coverage).plus(prior);
    let doubt = share_of(r.low_confidence_chars, r.meaningful_chars).times(Single::whole(22));
    let noise = Single::whole(r.isolated_noise_lines).times(Single::fraction(5, 2));
    Some(Balance::between(gain, doubt).less_by(noise))
}

/// Whether the first score is the better one.
pub fn is_better(a: Option<Balance>, b: Option<Balance>) -> (r: bool)
    ensures
        r == better(score_value(a), score_value(b)),
{
    match (a, b) {
        (Some(x), Some(y)) => x.more_than(y),
        (Some(_), None) => true,
        _ => false,
    }
}

/// Whether another layout is worth trying: the recognition is unsure or nearly empty. Scattered
/// text dominated by clutter is not read again as a block, which would only merge the clutter.
pub open spec fn retries_layout(r: ResultModel, psm: u8) -> bool {
    (r.confidence < whole(RETRY_CONFIDENCE as nat) || r.meaningful_chars < 3) && !(psm
        == SPARSE_LAYOUT && r.isolated_noise_lines > 2)
}

/// Whether another layout is worth trying.
pub fn should_retry_layout(r: &TesseractResult, psm: u8) -> (b: bool)
    ensures
        b == retries_layout(r@, psm),
{
    (r.confidence.less(Single::whole(RETRY_CONFIDENCE)) || r.meaningful_chars < 3) && !(psm
        == SPARSE_LAYOUT && r.isolated_noise_lines > 2)
}

/// A line that the recogniser is sure of.
pub open spec fn is_anchor(l: LineModel) -> bool {
    line_confidence(l) >= whole(75) && l.meaningful_chars >= 3
}

pub open spec fn distance(a: int, b: int) -> int {
    if a > b {
        a - b
    } else {
        b - a
    }
}

/// Two sure lines of similar width that begin at about the same column.
pub open spec fn is_pair(lines: Seq<LineModel>, a: int, b: int) -> bool {
    let wa = line_width(lines[a]);
    let wb = line_width(lines[b]);
    &&& 0 <= a < b < lines.len()
    &&& is_anchor(lines[a])
    &&& is_anchor(lines[b])
    &&& share(smaller(wa, wb), larger(wa, wb)) >= fraction(6, 10)
    &&& whole(distance(lines[a].left, lines[b].left) as nat) <= product(
        whole(larger(wa, wb) as nat),
        fraction(3, 10),
    )
}

/// How strongly a pair establishes a block of text.
pub open spec fn pair_score(lines: Seq<LineModel>, a: int, b: int) -> nat {
    sum(
        sum(line_confidence(lines[a]), line_confidence(lines[b])),
        bonus(lines[a].meaningful_chars + lines[b].meaningful_chars, 40, 20),
    )
}

/// The strongest pair, the first of them if several are equally strong.
pub open spec fn is_best_pair(lines: Seq<LineModel>, a: int, b: int) -> bool {
    &&& is_pair(lines, a, b)
    &&& forall|c: int, d: int| #[trigger]
        is_pair(lines, c, d) ==> pair_score(lines, c, d) <= pair_score(lines, a, b) && ((c < a || (c
            == a && d < b)) ==> pair_score(lines, c, d) < pair_score(lines, a, b))
}

/// The number nearest to an integer that may be negative.
pub open spec fn whole_signed(n: int) -> int {
    if n < 0 {
        -whole((-n) as nat)
    } else {
        whole(n as nat) as int
    }
}

/// Half of the number nearest to an integer that may be negative.
pub open spec fn half_signed(n: int) -> int {
    if n < 0 {
        -half((-n) as nat)
    } else {
        half(n as nat) as int
    }
}

/// How far a column is from the middle between two others whose sum is given.
pub open spec fn off_middle(column: int, sum_of_two: int) -> nat {
    rounded(distance(whole_signed(column), half_signed(sum_of_two)) as nat, 1)
}

/// A length as a multiple of half of `sum_of_two`.
pub open spec fn relative(length: int, sum_of_two: int) -> nat {
    quotient(
        whole(length as nat),
        if half(sum_of_two as nat) < whole(1) {
            whole(1)
        } else {
            half(sum_of_two as nat)
        },
    )
}

/// Whether a line belongs to the block that the pair establishes, or is sure enough by itself.
pub open spec fn is_kept(lines: Seq<LineModel>, a: int, b: int, l: LineModel) -> bool {
    let widths = line_width(lines[a]) + line_width(lines[b]);
    let heights = line_height(lines[a]) + line_height(lines[b]);
    let lefts = lines[a].left + lines[b].left;
    let top = larger(line_confidence(lines[a]) as int, line_confidence(lines[b]) as int);
    let floor = larger(signed(top - whole(40)), whole(55) as int);
    let w = relative(line_width(l), widths);
    let h = relative(line_height(l), heights);
    let aligned = off_middle(l.left, lefts) <= product(half(widths as nat), fraction(35, 100))
        && fraction(45, 100) <= w <= fraction(18, 10);
    let body = fraction(25, 100) <= w <= fraction(18, 10) && fraction(65, 100) <= h <= fraction(
        155,
        100,
    ) && l.meaningful_chars >= 2;
    line_confidence(l) >= whole(70) || (line_confidence(l) >= floor && aligned
        && l.meaningful_chars >= 2) || body
}

/// Which lines to keep: all of them, unless there are at least six and a pair establishes a block.
pub open spec fn is_dominant(lines: Seq<LineModel>, keep: Seq<bool>) -> bool {
    &&& keep.len() == lines.len()
    &&& if lines.len() >= 6 && exists|a: int, b: int| is_pair(lines, a, b) {
        exists|a: int, b: int| #[trigger]
            is_best_pair(lines, a, b) && forall|i: int|
                0 <= i < lines.len() ==> #[trigger] keep[i] == is_kept(lines, a, b, lines[i])
    } else {
        forall|i: int| 0 <= i < lines.len() ==> #[trigger] keep[i]
    }
}

/// There is one strongest pair.
pub proof fn best_pair_is_unique(lines: Seq<LineModel>, a: int, b: int, c: int, d: int)
    requires
        is_best_pair(lines, a, b),
        is_best_pair(lines, c, d),
    ensures
        a == c && b == d,
{
    assert(is_pair(lines, c, d));
    assert(is_pair(lines, a, b));
}

fn distance_of(a: i64, b: i64) -> (d: i64)
    requires
        -0x4_0000_0000 <= a <= 0x4_0000_0000,
        -0x4_0000_0000 <= b <= 0x4_0000_0000,
    ensures
        d == distance(a as int, b as int),
{
    if a > b {
        a - b
    } else {
        b - a
    }
}

fn check_pair(lines: &Vec<ParsedLine>, a: usize, b: usize) -> (r: bool)
    requires
        lines_wf(models(lines@)),
        a < b < lines@.len(),
    ensures
        r == is_pair(models(lines@), a as int, b as int),
{
    proof {
        assert(models(lines@)[a as int] == lines@[a as int]@);
        assert(models(lines@)[b as int] == lines@[b as int]@);
        assert(line_wf(models(lines@)[a as int]) && line_wf(models(lines@)[b as int]));
    }
    let wa: i64 = lines[a].width();
    let wb: i64 = lines[b].width();
    let small: i64 = if wa < wb {
        wa
    } else {
        wb
    };
    let large: i64 = if wa > wb {
        wa
    } else {
        wb
    };
    let sure = Single::whole(75);
    let gap = Single::whole(distance_of(lines[a].left, lines[b].left) as u64);
    !lines[a].confidence().less(sure) && lines[a].meaningful_chars >= 3
        && !lines[b].confidence().less(sure) && lines[b].meaningful_chars >= 3 && !share_of(
        small as u64,
        large as u64,
    ).less(Single::fraction(6, 10)) && !Single::whole(large as u64).times(
        Single::fraction(3, 10),
    ).less(gap)
}

fn score_pair(lines: &Vec<ParsedLine>, a: usize, b: usize) -> (s: Single)
    requires
        lines_wf(models(lines@)),
        a < lines@.len(),
        b < lines@.len(),
    ensures
        s@ == pair_score(models(lines@), a as int, b as int),
{
    proof {
        assert(models(lines@)[a as int] == lines@[a as int]@);
        assert(models(lines@)[b as int] == lines@[b as int]@);
        assert(line_wf(models(lines@)[a as int]) && line_wf(models(lines@)[b as int]));
    }
    let chars: u64 = lines[a].meaningful_chars + lines[b].meaningful_chars;
    lines[a].confidence().plus(lines[b].confidence()).plus(bonus_of(chars, 40, 20))
}

/// The best pair among those that come before `(a, b)`.
spec fn best_before(lines: Seq<LineModel>, a: int, b: int, best: Option<(usize, usize)>) -> bool {
    match best {
        None => forall|c: int, d: int|
            c < a || (c == a && d < b) ==> !#[trigger] is_pair(lines, c, d),
        Some((p, q)) => {
            &&& is_pair(lines, p as int, q as int)
            &&& p < a || (p == a && q < b)
            &&& forall|c: int, d: int| #[trigger]
                is_pair(lines, c, d) && (c < a || (c == a && d < b)) ==> pair_score(lines, c, d)
                    <= pair_score(lines, p as int, q as int) && ((c < p || (c == p && d < q))
                    ==> pair_score(lines, c, d) < pair_score(lines, p as int, q as int))
        },
    }
}

fn find_best_pair(lines: &Vec<ParsedLine>) -> (best: Option<(usize, usize)>)
    requires
        lines_wf(models(lines@)),
    ensures
        match best {
            None => forall|c: int, d: int| !#[trigger] is_pair(models(lines@), c, d),
            Some((a, b)) => is_best_pair(models(lines@), a as int, b as int),
        },
{
    let ghost all = models(lines@);
    let mut best: Option<(usize, usize)> = None;
    let mut a: usize = 0;
    while a < lines.len()
        invariant
            all == models(lines@),
            lines_wf(all),
            a <= lines@.len(),
            best_before(all, a as int, 0, best),
        decreases lines.len() - a,
    {
        let mut b: usize = a + 1;
        assert(best_before(all, a as int, b as int, best));
        while b < lines.len()
            invariant
                all == models(lines@),
                lines_wf(all),
                a < b <= lines@.len(),
                best_before(all, a as int, b as int, best),
            decreases lines.len() - b,
        {
            if check_pair(lines, a, b) {
                let better: bool = match best {
                    None => true,
                    Some((p, q)) => score_pair(lines, p, q).less(score_pair(lines, a, b)),
                };
                if better {
                    best = Some((a, b));
                }
            }
            b = b + 1;
        }
        assert(best_before(all, a + 1, 0, best));
        a = a + 1;
    }
    best
}

fn keeps(lines: &Vec<ParsedLine>, a: usize, b: usize, i: usize) -> (r: bool)
    requires
        lines_wf(models(lines@)),
        a < lines@.len(),
        b < lines@.len(),
        i < lines@.len(),
    ensures
        r == is_kept(models(lines@), a as int, b as int, models(lines@)[i as int]),
{
    proof {
        assert(models(lines@)[a as int] == lines@[a as int]@);
        assert(models(lines@)[b as int] == lines@[b as int]@);
        assert(models(lines@)[i as int] == lines@[i as int]@);
        assert(line_wf(models(lines@)[a as int]) && line_wf(models(lines@)[b as int]) && line_wf(
            models(lines@)[i as int],
        ));
    }
    let widths: i64 = lines[a].width() + lines[b].width();
    let heights: i64 = lines[a].height() + lines[b].height();
    let lefts: i64 = lines[a].left + lines[b].left;
    let top = lines[a].confidence().at_least(lines[b].confidence());
    let c = lines[i].confidence();
    let w = relative_to(lines[i].width() as u64, widths as u64);
    let h = relative_to(lines[i].height() as u64, heights as u64);
    let wide = Single::fraction(18, 10);
    let reach = Single::half(widths as u64).times(Single::fraction(35, 100));
    let aligned: bool = !reach.less(off_middle_of(lines[i].left, lefts)) && !w.less(
        Single::fraction(45, 100),
    ) && !wide.less(w);
    let body: bool = !w.less(Single::fraction(25, 100)) && !wide.less(w) && !h.less(
        Single::fraction(65, 100),
    ) && !Single::fraction(155, 100).less(h) && lines[i].meaningful_chars >= 2;
    let medium: bool = !c.less(Single::whole(55)) && !reduced(top).more_than(Balance::of(c));
    !c.less(Single::whole(70)) || (medium && aligned && lines[i].meaningful_chars >= 2) || body
}

/// A confidence without forty.
fn reduced(top: Single) -> (r: Balance)
    ensures
        r@ == signed(top@ - whole(40)),
{
    Balance::between(top, Single::whole(40))
}

fn relative_to(length: u64, sum_of_two: u64) -> (r: Single)
    ensures
        r@ == relative(length as int, sum_of_two as int),
{
    let base = Single::half(sum_of_two).at_least(Single::whole(1));
    Single::whole(length).over(base)
}

fn off_middle_of(column: i64, sum_of_two: i64) -> (r: Single)
    requires
        -0x4_0000_0000 <= column <= 0x4_0000_0000,
        -0x4_0000_0000 <= sum_of_two <= 0x4_0000_0000,
    ensures
        r@ == off_middle(column as int, sum_of_two as int),
{
    let x = Single::whole(
        (if column < 0 {
            -column
        } else {
            column
        }) as u64,
    );
    let y = Single::half(
        (if sum_of_two < 0 {
            -sum_of_two
        } else {
            sum_of_two
        }) as u64,
    );
    if (column < 0) == (sum_of_two < 0) {
        x.apart(y)
    } else {
        x.plus(y)
    }
}

/// Which lines of scattered text to keep. Two sure lines of similar shape establish the block of
/// text; weak lines that do not fit it are edges mistaken for text.
pub fn dominant_text_lines(lines: &Vec<ParsedLine>) -> (keep: Vec<bool>)
    requires
        lines_wf(models(lines@)),
    ensures
        is_dominant(models(lines@), keep@),
{
    let ghost all = models(lines@);
    let best: Option<(usize, usize)> = if lines.len() < 6 {
        None
    } else {
        find_best_pair(lines)
    };
    let mut keep: Vec<bool> = Vec::with_capacity(lines.len());
    let mut i: usize = 0;
    while i < lines.len()
        invariant
            all == models(lines@),
            lines_wf(all),
            i <= lines@.len(),
            keep@.len() == i,
            match best {
                None => true,
                Some((a, b)) => is_pair(all, a as int, b as int),
            },
            forall|k: int|
                0 <= k < i ==> #[trigger] keep@[k] == match best {
                    None => true,
                    Some((a, b)) => is_kept(all, a as int, b as int, all[k]),
                },
        decreases lines.len() - i,
    {
        let kept: bool = match best {
            None => true,
            Some((a, b)) => keeps(lines, a, b, i),
        };
        keep.push(kept);
        i = i + 1;
    }
    keep
}

/// The lines whose flag is set.
pub open spec fn chosen(lines: Seq<LineModel>, keep: Seq<bool>) -> Seq<LineModel>
    decreases lines.len(),
{
    if lines.len() == 0 {
        Seq::empty()
    } else {
        let before = chosen(lines.drop_last(), keep);
        if keep[lines.len() - 1] {
            before.push(lines.last())
        } else {
            before
        }
    }
}

/// `selected` are the lines that count: for scattered text the dominant ones, otherwise all.
pub open spec fn is_selection(lines: Seq<LineModel>, psm: u8, selected: Seq<LineModel>) -> bool {
    if psm == SPARSE_LAYOUT {
        exists|keep: Seq<bool>| #[trigger]
            is_dominant(lines, keep) && selected == chosen(lines, keep)
    } else {
        selected == lines
    }
}

fn choose_lines(lines: Vec<ParsedLine>, keep: &Vec<bool>) -> (r: Vec<ParsedLine>)
    requires
        lines_wf(models(lines@)),
        keep@.len() == lines@.len(),
        lines@.len() <= u32::MAX,
    ensures
        models(r@) == chosen(models(lines@), keep@),
        lines_wf(models(r@)),
        r@.len() <= u32::MAX,
{
    let ghost all = models(lines@);
    let mut r: Vec<ParsedLine> = Vec::new();
    let mut i: usize = 0;
    assert(all.take(0) =~= Seq::<LineModel>::empty());
    while i < lines.len()
        invariant
            all == models(lines@),
            lines_wf(all),
            i <= lines@.len() <= u32::MAX,
            keep@.len() == lines@.len(),
            models(r@) == chosen(all.take(i as int), keep@),
            lines_wf(models(r@)),
            r@.len() <= i,
        decreases lines.len() - i,
    {
        let ghost next = all.take(i + 1);
        let ghost before = models(r@);
        proof {
            assert(next.drop_last() =~= all.take(i as int));
            assert(next.last() == lines@[i as int]@);
            assert(line_wf(all[i as int]));
        }
        if keep[i] {
            r.push(lines[i].copy());
            proof {
                assert(models(r@) =~= before.push(next.last()));
                assert forall|k: int| 0 <= k < models(r@).len() implies line_wf(
                    #[trigger] models(r@)[k],
                ) by {
                    if k < before.len() {
                        assert(models(r@)[k] == before[k]);
                    }
                }
            }
        }
        i = i + 1;
    }
    assert(all.take(all.len() as int) =~= all);
    r
}

/// Reads the table that the recogniser printed for the layout `psm`. Nothing if it is not such a
/// table.
pub fn parse_tsv(tsv: &str, psm: u8) -> (r: Option<TesseractResult>)
    requires
        tsv@.len() <= u32::MAX,
    ensures
        match r {
            Some(result) => result_wf(result@) && table_lines(tsv@) is Some && is_selection(
                table_lines(tsv@)->0,
                psm,
                result@.lines,
            ) && result@ == result_of(result@.lines),
            None => table_lines(tsv@) is None,
        },
{
    match read_table(tsv) {
        None => None,
        Some(lines) => {
            if psm == SPARSE_LAYOUT {
                let keep = dominant_text_lines(&lines);
                let selected = choose_lines(lines, &keep);
                Some(result_from_lines(selected))
            } else {
                Some(result_from_lines(lines))
            }
        },
    }
}

/// How far two boxes overlap from top to bottom.
pub open spec fn v_overlap(a: LineModel, b: LineModel) -> int {
    larger(smaller(a.bottom, b.bottom) - larger(a.top, b.top), 0)
}

/// How far two boxes overlap from left to right.
pub open spec fn h_overlap(a: LineModel, b: LineModel) -> int {
    larger(smaller(a.right, b.right) - larger(a.left, b.left), 0)
}

/// The smaller height of two boxes.
pub open spec fn v_scale(a: LineModel, b: LineModel) -> int {
    smaller(line_height(a), line_height(b))
}

/// The smaller width of two boxes.
pub open spec fn h_scale(a: LineModel, b: LineModel) -> int {
    smaller(line_width(a), line_width(b))
}

/// The share of the smaller height that overlaps.
pub open spec fn v_share(a: LineModel, b: LineModel) -> nat {
    share(v_overlap(a, b), v_scale(a, b))
}

/// The share of the smaller width that overlaps.
pub open spec fn h_share(a: LineModel, b: LineModel) -> nat {
    share(h_overlap(a, b), h_scale(a, b))
}

/// Twice the distance of the centres from top to bottom.
pub open spec fn v_gap(a: LineModel, b: LineModel) -> int {
    distance(a.top + a.bottom, b.top + b.bottom)
}

/// Twice the distance of the centres from left to right.
pub open spec fn h_gap(a: LineModel, b: LineModel) -> int {
    distance(a.left + a.right, b.left + b.right)
}

/// Whether two boxes can be the same line: they overlap by 45 percent of the smaller height and a
/// quarter of the smaller width.
pub open spec fn overlaps(a: LineModel, b: LineModel) -> bool {
    v_share(a, b) >= fraction(45, 100) && h_share(a, b) >= fraction(25, 100)
}

/// A line of the one recognition and a line of the other that can be the same.
#[derive(Clone, Copy)]
pub struct Correspondence {
    pub primary: usize,
    pub alternate: usize,
}

/// Whether the correspondence of line `i` with line `j` comes before that of `k` with `l`: by the
/// share of the height that overlaps, then by the share of the width, then by how near the centres
/// are, then by position.
pub open spec fn precedes(
    p: Seq<LineModel>,
    q: Seq<LineModel>,
    i: int,
    j: int,
    k: int,
    l: int,
) -> bool {
    let v1 = v_share(p[i], q[j]);
    let v2 = v_share(p[k], q[l]);
    let h1 = h_share(p[i], q[j]);
    let h2 = h_share(p[k], q[l]);
    v1 > v2 || (v1 == v2 && (h1 > h2 || (h1 == h2 && (v_gap(p[i], q[j]) < v_gap(p[k], q[l]) || (
    v_gap(p[i], q[j]) == v_gap(p[k], q[l]) && (h_gap(p[i], q[j]) < h_gap(p[k], q[l]) || (h_gap(
        p[i],
        q[j],
    ) == h_gap(p[k], q[l]) && (i < k || (i == k && j < l)))))))))
}

/// The order of correspondences is transitive.
proof fn precedes_is_transitive(
    p: Seq<LineModel>,
    q: Seq<LineModel>,
    i: int,
    j: int,
    k: int,
    l: int,
    m: int,
    n: int,
)
    requires
        precedes(p, q, i, j, k, l),
        precedes(p, q, k, l, m, n),
    ensures
        precedes(p, q, i, j, m, n),
{
}

/// Which line of the alternate recognition each line of the primary one corresponds to.
pub open spec fn is_matching(
    p: Seq<LineModel>,
    q: Seq<LineModel>,
    matches: Seq<Option<usize>>,
) -> bool {
    &&& matches.len() == p.len()
    &&& forall|i: int|
        0 <= i < p.len() && (#[trigger] matches[i]) is Some ==> matches[i]->0 < q.len() && overlaps(
            p[i],
            q[matches[i]->0 as int],
        )
    &&& forall|i: int, k: int|
        0 <= i < k < p.len() && (#[trigger] matches[i]) is Some && (#[trigger] matches[k]) is Some
            ==> matches[i]->0 != matches[k]->0
}

/// A match that takes one side of the correspondence of `i` with `j` and comes before it.
pub open spec fn outranked(
    p: Seq<LineModel>,
    q: Seq<LineModel>,
    matches: Seq<Option<usize>>,
    i: int,
    j: int,
) -> bool {
    exists|k: int|
        0 <= k < p.len() && (#[trigger] matches[k]) is Some && (k == i || matches[k]->0 == j)
            && precedes(p, q, k, matches[k]->0 as int, i, j)
}

/// The matching in which the best correspondence is taken first: whatever is not matched although
/// it overlaps is outranked by a match.
pub open spec fn is_greedy(
    p: Seq<LineModel>,
    q: Seq<LineModel>,
    matches: Seq<Option<usize>>,
) -> bool {
    &&& is_matching(p, q, matches)
    &&& forall|i: int, j: int|
        0 <= i < p.len() && 0 <= j < q.len() && #[trigger] overlaps(p[i], q[j]) ==> matches[i]
            == Some(j as usize) || outranked(p, q, matches, i, j)
}

/// Whether the first correspondence comes before the second.
fn comes_before(
    p: &Vec<ParsedLine>,
    q: &Vec<ParsedLine>,
    c: Correspondence,
    d: Correspondence,
) -> (r: bool)
    requires
        lines_wf(models(p@)),
        lines_wf(models(q@)),
        c.primary < p@.len(),
        d.primary < p@.len(),
        c.alternate < q@.len(),
        d.alternate < q@.len(),
    ensures
        r == precedes(
            models(p@),
            models(q@),
            c.primary as int,
            c.alternate as int,
            d.primary as int,
            d.alternate as int,
        ),
{
    let (v1, h1, vg1, hg1) = measures(p, q, c);
    let (v2, h2, vg2, hg2) = measures(p, q, d);
    if v2.less(v1) {
        return true;
    }
    if v1.less(v2) {
        return false;
    }
    if h2.less(h1) {
        return true;
    }
    if h1.less(h2) {
        return false;
    }
    if vg1 != vg2 {
        return vg1 < vg2;
    }
    if hg1 != hg2 {
        return hg1 < hg2;
    }
    if c.primary != d.primary {
        return c.primary < d.primary;
    }
    c.alternate < d.alternate
}

/// Shares and gaps of a correspondence.
fn measures(p: &Vec<ParsedLine>, q: &Vec<ParsedLine>, c: Correspondence) -> (r: (
    Single,
    Single,
    i64,
    i64,
))
    requires
        lines_wf(models(p@)),
        lines_wf(models(q@)),
        c.primary < p@.len(),
        c.alternate < q@.len(),
    ensures
        ({
            let a = models(p@)[c.primary as int];
            let b = models(q@)[c.alternate as int];
            &&& r.0@ == v_share(a, b)
            &&& r.1@ == h_share(a, b)
            &&& r.2 == v_gap(a, b)
            &&& r.3 == h_gap(a, b)
        }),
{
    let a = &p[c.primary];
    let b = &q[c.alternate];
    proof {
        assert(models(p@)[c.primary as int] == a@);
        assert(models(q@)[c.alternate as int] == b@);
        assert(line_wf(a@) && line_wf(b@));
    }
    let vo: i64 = positive_part(lesser(a.bottom, b.bottom) - greater(a.top, b.top));
    let ho: i64 = positive_part(lesser(a.right, b.right) - greater(a.left, b.left));
    (
        share_of(vo as u64, lesser(a.height(), b.height()) as u64),
        share_of(ho as u64, lesser(a.width(), b.width()) as u64),
        distance_of(a.top + a.bottom, b.top + b.bottom),
        distance_of(a.left + a.right, b.left + b.right),
    )
}

fn lesser(a: i64, b: i64) -> (r: i64)
    ensures
        r == smaller(a as int, b as int),
{
    if a < b {
        a
    } else {
        b
    }
}

fn greater(a: i64, b: i64) -> (r: i64)
    ensures
        r == larger(a as int, b as int),
{
    if a > b {
        a
    } else {
        b
    }
}

fn positive_part(a: i64) -> (r: i64)
    ensures
        r == larger(a as int, 0),
{
    if a > 0 {
        a
    } else {
        0
    }
}

/// The correspondences are inside the recognitions, overlap, and come in order.
spec fn in_order(p: Seq<LineModel>, q: Seq<LineModel>, cs: Seq<Correspondence>) -> bool {
    &&& forall|x: int|
        0 <= x < cs.len() ==> (#[trigger] cs[x]).primary < p.len() && cs[x].alternate < q.len()
            && overlaps(p[cs[x].primary as int], q[cs[x].alternate as int])
    &&& forall|x: int, y: int|
        0 <= x < y < cs.len() ==> precedes(
            p,
            q,
            (#[trigger] cs[x]).primary as int,
            cs[x].alternate as int,
            (#[trigger] cs[y]).primary as int,
            cs[y].alternate as int,
        )
}

/// Puts a correspondence into its place.
fn insert_in_order(
    p: &Vec<ParsedLine>,
    q: &Vec<ParsedLine>,
    cs: &mut Vec<Correspondence>,
    c: Correspondence,
)
    requires
        lines_wf(models(p@)),
        lines_wf(models(q@)),
        c.primary < p@.len(),
        c.alternate < q@.len(),
        overlaps(models(p@)[c.primary as int], models(q@)[c.alternate as int]),
        in_order(models(p@), models(q@), old(cs)@),
        forall|x: int|
            0 <= x < old(cs)@.len() ==> (#[trigger] old(cs)@[x]).primary != c.primary || old(
                cs,
            )@[x].alternate != c.alternate,
    ensures
        in_order(models(p@), models(q@), final(cs)@),
        exists|at: int|
            0 <= at <= old(cs)@.len() && final(cs)@ == #[trigger] old(cs)@.insert(at, c),
{
    let ghost a = models(p@);
    let ghost b = models(q@);
    let mut at: usize = 0;
    while at < cs.len() && comes_before(p, q, cs[at], c)
        invariant
            lines_wf(models(p@)),
            lines_wf(models(q@)),
            a == models(p@),
            b == models(q@),
            c.primary < p@.len(),
            c.alternate < q@.len(),
            cs@ == old(cs)@,
            in_order(a, b, cs@),
            at <= cs@.len(),
            forall|x: int|
                0 <= x < at ==> precedes(
                    a,
                    b,
                    (#[trigger] cs@[x]).primary as int,
                    cs@[x].alternate as int,
                    c.primary as int,
                    c.alternate as int,
                ),
        decreases cs.len() - at,
    {
        at = at + 1;
    }
    let ghost before = cs@;
    proof {
        if at < before.len() {
            let d = before[at as int];
            // Distinct correspondences are ordered one way or the other.
            assert(precedes(
                a,
                b,
                c.primary as int,
                c.alternate as int,
                d.primary as int,
                d.alternate as int,
            ));
        }
    }
    cs.insert(at, c);
    proof {
        let after = cs@;
        assert(after == before.insert(at as int, c));
        assert forall|x: int, y: int| 0 <= x < y < after.len() implies precedes(
            a,
            b,
            (#[trigger] after[x]).primary as int,
            after[x].alternate as int,
            (#[trigger] after[y]).primary as int,
            after[y].alternate as int,
        ) by {
            if x == at && y > at {
                let d = before[y - 1];
                let first = before[at as int];
                if y - 1 > at {
                    precedes_is_transitive(
                        a,
                        b,
                        c.primary as int,
                        c.alternate as int,
                        first.primary as int,
                        first.alternate as int,
                        d.primary as int,
                        d.alternate as int,
                    );
                }
            } else if x < at && y < at {
                assert(after[x] == before[x] && after[y] == before[y]);
            } else if x < at && y == at {
                assert(after[x] == before[x]);
            } else if x < at && y > at {
                assert(after[x] == before[x] && after[y] == before[y - 1]);
            } else {
                assert(after[x] == before[x - 1] && after[y] == before[y - 1]);
            }
        }
        assert forall|x: int| 0 <= x < after.len() implies (#[trigger] after[x]).primary < a.len()
            && after[x].alternate < b.len() && overlaps(
            a[after[x].primary as int],
            b[after[x].alternate as int],
        ) by {
            if x < at {
                assert(after[x] == before[x]);
            } else if x > at {
                assert(after[x] == before[x - 1]);
            }
        }
    }
}

/// Every overlapping pair up to line `i` of the one recognition and line `j` of the other is listed,
/// and no pair after that.
spec fn lists_up_to(
    p: Seq<LineModel>,
    q: Seq<LineModel>,
    cs: Seq<Correspondence>,
    i: int,
    j: int,
) -> bool {
    &&& forall|k: int, l: int|
        0 <= k < p.len() && 0 <= l < q.len() && (k < i || (k == i && l < j)) && #[trigger] overlaps(
            p[k],
            q[l],
        ) ==> lists(cs, k, l)
    &&& forall|x: int|
        0 <= x < cs.len() ==> (#[trigger] cs[x]).primary < i || (cs[x].primary == i
            && cs[x].alternate < j)
}

/// The pair is among the correspondences.
spec fn lists(cs: Seq<Correspondence>, k: int, l: int) -> bool {
    exists|x: int| 0 <= x < cs.len() && (#[trigger] cs[x]).primary == k && cs[x].alternate == l
}

/// All pairs that can be the same line, the best first.
fn correspondences(p: &Vec<ParsedLine>, q: &Vec<ParsedLine>) -> (cs: Vec<Correspondence>)
    requires
        lines_wf(models(p@)),
        lines_wf(models(q@)),
    ensures
        in_order(models(p@), models(q@), cs@),
        lists_up_to(models(p@), models(q@), cs@, p@.len() as int, 0),
{
    let ghost a = models(p@);
    let ghost b = models(q@);
    let mut cs: Vec<Correspondence> = Vec::new();
    let mut i: usize = 0;
    while i < p.len()
        invariant
            lines_wf(models(p@)),
            lines_wf(models(q@)),
            a == models(p@),
            b == models(q@),
            i <= p@.len(),
            in_order(a, b, cs@),
            lists_up_to(a, b, cs@, i as int, 0),
        decreases p.len() - i,
    {
        let mut j: usize = 0;
        while j < q.len()
            invariant
                lines_wf(models(p@)),
                lines_wf(models(q@)),
                a == models(p@),
                b == models(q@),
                i < p@.len(),
                j <= q@.len(),
                in_order(a, b, cs@),
                lists_up_to(a, b, cs@, i as int, j as int),
            decreases q.len() - j,
        {
            let c = Correspondence { primary: i, alternate: j };
            let (v, h, _, _) = measures(p, q, c);
            if !v.less(Single::fraction(45, 100)) && !h.less(Single::fraction(25, 100)) {
                let ghost before = cs@;
                insert_in_order(p, q, &mut cs, c);
                proof {
                    let at = choose|at: int|
                        0 <= at <= before.len() && cs@ == #[trigger] before.insert(at, c);
                    assert(cs@[at] == c);
                    assert forall|k: int, l: int|
                        0 <= k < a.len() && 0 <= l < b.len() && (k < i || (k == i && l < j + 1))
                            && #[trigger] overlaps(a[k], b[l]) implies lists(cs@, k, l) by {
                        if !(k == i && l == j) {
                            assert(lists(before, k, l));
                            let x = choose|x: int|
                                0 <= x < before.len() && (#[trigger] before[x]).primary == k
                                    && before[x].alternate == l;
                            if x < at {
                                assert(cs@[x] == before[x]);
                            } else {
                                assert(cs@[x + 1] == before[x]);
                            }
                        }
                    }
                    assert forall|x: int| 0 <= x < cs@.len() implies (#[trigger] cs@[x]).primary < i
                        || (cs@[x].primary == i && cs@[x].alternate < j + 1) by {
                        if x < at {
                            assert(cs@[x] == before[x]);
                        } else if x > at {
                            assert(cs@[x] == before[x - 1]);
                        }
                    }
                }
            }
            j = j + 1;
        }
        i = i + 1;
    }
    cs
}

/// The matching after the first `n` correspondences have had their turn.
spec fn matched_up_to(
    p: Seq<LineModel>,
    q: Seq<LineModel>,
    cs: Seq<Correspondence>,
    n: int,
    matches: Seq<Option<usize>>,
    used: Seq<bool>,
) -> bool {
    &&& is_matching(p, q, matches)
    &&& used.len() == q.len()
    &&& forall|i: int|
        0 <= i < p.len() && (#[trigger] matches[i]) is Some ==> used[matches[i]->0 as int]
            && exists|x: int|
            0 <= x < n && (#[trigger] cs[x]).primary == i && cs[x].alternate == matches[i]->0
    &&& forall|j: int| 0 <= j < q.len() && #[trigger] used[j] ==> taken(matches, j)
    &&& forall|x: int|
        0 <= x < n ==> matches[(#[trigger] cs[x]).primary as int] == Some(cs[x].alternate)
            || outranked(p, q, matches, cs[x].primary as int, cs[x].alternate as int)
}

/// Some line corresponds to line `j`.
spec fn taken(matches: Seq<Option<usize>>, j: int) -> bool {
    exists|i: int| 0 <= i < matches.len() && (#[trigger] matches[i]) == Some(j as usize)
}

/// Takes the best correspondences first.
#[verifier::rlimit(40)]
fn match_lines(p: &Vec<ParsedLine>, q: &Vec<ParsedLine>) -> (matches: Vec<Option<usize>>)
    requires
        lines_wf(models(p@)),
        lines_wf(models(q@)),
    ensures
        is_greedy(models(p@), models(q@), matches@),
{
    let ghost a = models(p@);
    let ghost b = models(q@);
    let cs = correspondences(p, q);
    let mut matches: Vec<Option<usize>> = Vec::new();
    let mut i: usize = 0;
    while i < p.len()
        invariant
            i <= p@.len(),
            matches@.len() == i,
            forall|k: int| 0 <= k < i ==> (#[trigger] matches@[k]) is None,
        decreases p.len() - i,
    {
        matches.push(None);
        i = i + 1;
    }
    let mut used: Vec<bool> = Vec::new();
    let mut j: usize = 0;
    while j < q.len()
        invariant
            j <= q@.len(),
            used@.len() == j,
            forall|k: int| 0 <= k < j ==> !#[trigger] used@[k],
        decreases q.len() - j,
    {
        used.push(false);
        j = j + 1;
    }
    let mut n: usize = 0;
    while n < cs.len()
        invariant
            a == models(p@),
            b == models(q@),
            in_order(a, b, cs@),
            n <= cs@.len(),
            matched_up_to(a, b, cs@, n as int, matches@, used@),
        decreases cs.len() - n,
    {
        let c = cs[n];
        let ghost before = matches@;
        let ghost flags = used@;
        let i: usize = c.primary;
        let j: usize = c.alternate;
        assert(cs@[n as int] == c);
        let free: bool = match matches[i] {
            None => true,
            Some(_) => false,
        };
        if free && !used[j] {
            matches.set(i, Some(j));
            used.set(j, true);
            proof {
                take_match(a, b, cs@, n as int, before, flags);
            }
        } else {
            proof {
                refuse_match(a, b, cs@, n as int, before, flags);
            }
        }
        n = n + 1;
    }
    proof {
        assert forall|i: int, j: int|
            0 <= i < a.len() && 0 <= j < b.len() && #[trigger] overlaps(a[i], b[j]) implies matches@[i]
            == Some(j as usize) || outranked(a, b, matches@, i, j) by {
            assert(lists(cs@, i, j));
            let x = choose|x: int|
                0 <= x < cs@.len() && (#[trigger] cs@[x]).primary == i && cs@[x].alternate == j;
            assert(cs@[x].alternate == j as usize);
        }
    }
    matches
}

/// A correspondence whose lines are both free is taken.
proof fn take_match(
    p: Seq<LineModel>,
    q: Seq<LineModel>,
    cs: Seq<Correspondence>,
    n: int,
    matches: Seq<Option<usize>>,
    used: Seq<bool>,
)
    requires
        in_order(p, q, cs),
        0 <= n < cs.len(),
        matched_up_to(p, q, cs, n, matches, used),
        matches[cs[n].primary as int] is None,
        !used[cs[n].alternate as int],
    ensures
        matched_up_to(
            p,
            q,
            cs,
            n + 1,
            matches.update(cs[n].primary as int, Some(cs[n].alternate)),
            used.update(cs[n].alternate as int, true),
        ),
{
    let c = cs[n];
    let i0 = c.primary as int;
    let after = matches.update(i0, Some(c.alternate));
    let flags = used.update(c.alternate as int, true);
    assert forall|i: int, k: int|
        0 <= i < k < p.len() && (#[trigger] after[i]) is Some && (
        #[trigger] after[k]) is Some implies after[i]->0 != after[k]->0 by {
        if i == i0 {
            assert(after[k] == matches[k]);
            assert(used[matches[k]->0 as int]);
        } else if k == i0 {
            assert(after[i] == matches[i]);
            assert(used[matches[i]->0 as int]);
        } else {
            assert(after[i] == matches[i] && after[k] == matches[k]);
        }
    }
    assert forall|i: int| 0 <= i < p.len() && (#[trigger] after[i]) is Some implies after[i]->0
        < q.len() && overlaps(p[i], q[after[i]->0 as int]) by {
        if i != i0 {
            assert(after[i] == matches[i]);
        }
    }
    assert(is_matching(p, q, after));
    assert forall|i: int| 0 <= i < p.len() && (
    #[trigger] after[i]) is Some implies flags[after[i]->0 as int] && exists|x: int|
        0 <= x < n + 1 && (#[trigger] cs[x]).primary == i && cs[x].alternate == after[i]->0 by {
        if i == i0 {
            assert(cs[n].primary == i && cs[n].alternate == after[i]->0);
        } else {
            assert(after[i] == matches[i]);
            let x = choose|x: int|
                0 <= x < n && (#[trigger] cs[x]).primary == i && cs[x].alternate == matches[i]->0;
            assert(cs[x].primary == i);
        }
    }
    assert forall|j: int| 0 <= j < q.len() && #[trigger] flags[j] implies taken(after, j) by {
        if j == c.alternate {
            assert(after[i0] == Some(j as usize));
        } else {
            assert(used[j]);
            assert(taken(matches, j));
            let i = choose|i: int| 0 <= i < matches.len() && (#[trigger] matches[i]) == Some(
                j as usize,
            );
            assert(after[i] == Some(j as usize));
        }
    }
    assert forall|x: int| 0 <= x < n + 1 implies after[(#[trigger] cs[x]).primary as int] == Some(
        cs[x].alternate,
    ) || outranked(p, q, after, cs[x].primary as int, cs[x].alternate as int) by {
        if x < n {
            let i = cs[x].primary as int;
            let j = cs[x].alternate as int;
            if matches[i] == Some(cs[x].alternate) {
                assert(after[i] == matches[i]);
            } else {
                assert(outranked(p, q, matches, i, j));
                let k = choose|k: int|
                    0 <= k < p.len() && (#[trigger] matches[k]) is Some && (k == i || matches[k]->0
                        == j) && precedes(p, q, k, matches[k]->0 as int, i, j);
                assert(after[k] == matches[k]);
                assert(outranked(p, q, after, i, j));
            }
        }
    }
}

/// A correspondence one of whose lines is taken is outranked by that match.
proof fn refuse_match(
    p: Seq<LineModel>,
    q: Seq<LineModel>,
    cs: Seq<Correspondence>,
    n: int,
    matches: Seq<Option<usize>>,
    used: Seq<bool>,
)
    requires
        in_order(p, q, cs),
        0 <= n < cs.len(),
        matched_up_to(p, q, cs, n, matches, used),
        matches[cs[n].primary as int] is Some || used[cs[n].alternate as int],
    ensures
        matched_up_to(p, q, cs, n + 1, matches, used),
{
    let i = cs[n].primary as int;
    let j = cs[n].alternate as int;
    let k = if matches[i] is Some {
        i
    } else {
        assert(taken(matches, j));
        choose|k: int| 0 <= k < matches.len() && (#[trigger] matches[k]) == Some(j as usize)
    };
    assert(matches[k] is Some);
    let x = choose|x: int|
        0 <= x < n && (#[trigger] cs[x]).primary == k && cs[x].alternate == matches[k]->0;
    assert(precedes(
        p,
        q,
        cs[x].primary as int,
        cs[x].alternate as int,
        cs[n].primary as int,
        cs[n].alternate as int,
    ));
    assert(outranked(p, q, matches, i, j));
    assert forall|i: int| 0 <= i < p.len() && (
    #[trigger] matches[i]) is Some implies used[matches[i]->0 as int] && exists|x: int|
        0 <= x < n + 1 && (#[trigger] cs[x]).primary == i && cs[x].alternate == matches[i]->0 by {
        let x = choose|x: int|
            0 <= x < n && (#[trigger] cs[x]).primary == i && cs[x].alternate == matches[i]->0;
        assert(cs[x].primary == i);
    }
}

/// How many lines have a match.
pub open spec fn matched(matches: Seq<Option<usize>>) -> nat
    decreases matches.len(),
{
    if matches.len() == 0 {
        0
    } else {
        matched(matches.drop_last()) + if matches.last() is Some {
            1nat
        } else {
            0
        }
    }
}

/// Line `i` of the fused recognition: the matching line of the other recognition if it is better.
pub open spec fn fused_line(
    p: Seq<LineModel>,
    q: Seq<LineModel>,
    matches: Seq<Option<usize>>,
    i: int,
) -> LineModel {
    match matches[i] {
        Some(j) => if line_score(q[j as int]) > line_score(p[i]) {
            q[j as int]
        } else {
            p[i]
        },
        None => p[i],
    }
}

/// The fused lines.
pub open spec fn fused(
    p: Seq<LineModel>,
    q: Seq<LineModel>,
    matches: Seq<Option<usize>>,
) -> Seq<LineModel> {
    Seq::new(p.len(), |i: int| fused_line(p, q, matches, i))
}

/// `out` is the fusion of two recognitions: the primary one where too few lines correspond.
pub open spec fn is_merged(p: ResultModel, q: ResultModel, out: ResultModel) -> bool {
    if p.lines.len() == 0 || q.lines.len() == 0 {
        out == p
    } else {
        exists|matches: Seq<Option<usize>>| #[trigger]
            is_greedy(p.lines, q.lines, matches) && out == if matched(matches) * 2 < p.lines.len() {
                p
            } else {
                result_of(fused(p.lines, q.lines, matches))
            }
    }
}

impl TesseractResult {
    /// An equal recognition.
    pub fn copy(&self) -> (r: TesseractResult)
        ensures
            r@ == self@,
    {
        let mut lines: Vec<ParsedLine> = Vec::new();
        let mut i: usize = 0;
        while i < self.lines.len()
            invariant
                i <= self.lines@.len(),
                lines@.len() == i,
                forall|k: int| 0 <= k < i ==> (#[trigger] lines@[k])@ == self.lines@[k]@,
            decreases self.lines.len() - i,
        {
            lines.push(self.lines[i].copy());
            i = i + 1;
        }
        assert(models(lines@) =~= models(self.lines@));
        TesseractResult {
            text: self.text.clone(),
            confidence: self.confidence,
            meaningful_chars: self.meaningful_chars,
            trusted_chars: self.trusted_chars,
            low_confidence_chars: self.low_confidence_chars,
            isolated_noise_lines: self.isolated_noise_lines,
            lines,
        }
    }
}

/// Fuses two recognitions of the same image line by line. No line of the alternate recognition is
/// used twice.
pub fn merge_language_results(primary: &TesseractResult, alternate: &TesseractResult) -> (out:
    TesseractResult)
    requires
        result_wf(primary@),
        result_wf(alternate@),
    ensures
        is_merged(primary@, alternate@, out@),
        result_wf(out@),
{
    if primary.lines.len() == 0 || alternate.lines.len() == 0 {
        return primary.copy();
    }
    let ghost p = primary@.lines;
    let ghost q = alternate@.lines;
    let matches = match_lines(&primary.lines, &alternate.lines);
    let mut count: usize = 0;
    let mut merged: Vec<ParsedLine> = Vec::new();
    let mut i: usize = 0;
    assert(matches@.take(0) =~= Seq::<Option<usize>>::empty());
    while i < primary.lines.len()
        invariant
            p == models(primary.lines@),
            q == models(alternate.lines@),
            lines_wf(p),
            lines_wf(q),
            is_matching(p, q, matches@),
            i <= primary.lines@.len(),
            count == matched(matches@.take(i as int)),
            count <= i,
            merged@.len() == i,
            forall|k: int|
                0 <= k < i ==> (#[trigger] merged@[k])@ == fused_line(p, q, matches@, k),
        decreases primary.lines.len() - i,
    {
        proof {
            assert(matches@.take(i + 1).drop_last() =~= matches@.take(i as int));
            assert(p[i as int] == primary.lines@[i as int]@);
            assert(line_wf(p[i as int]));
        }
        match matches[i] {
            None => {
                merged.push(primary.lines[i].copy());
            },
            Some(j) => {
                count = count + 1;
                proof {
                    assert(matches@[i as int] is Some);
                    assert(q[j as int] == alternate.lines@[j as int]@);
                    assert(line_wf(q[j as int]));
                }
                if score_line(&alternate.lines[j]).more_than(score_line(&primary.lines[i])) {
                    merged.push(alternate.lines[j].copy());
                } else {
                    merged.push(primary.lines[i].copy());
                }
            },
        }
        i = i + 1;
    }
    assert(matches@.take(matches@.len() as int) =~= matches@);
    if count < primary.lines.len() - count {
        return primary.copy();
    }
    proof {
        assert(models(merged@) =~= fused(p, q, matches@));
        assert forall|k: int| 0 <= k < models(merged@).len() implies line_wf(
            #[trigger] models(merged@)[k],
        ) by {
            assert(models(merged@)[k] == fused_line(p, q, matches@, k));
            assert(line_wf(p[k]));
            if matches@[k] is Some {
                assert(line_wf(q[matches@[k]->0 as int]));
            }
        }
    }
    result_from_lines(merged)
}

/// How many correspondences of line `a` with the first `n` lines come before that of `i` with `j`.
spec fn earlier_in_row(p: Seq<LineModel>, q: Seq<LineModel>, a: int, n: int, i: int, j: int) -> nat
    decreases n,
{
    if n <= 0 {
        0
    } else {
        earlier_in_row(p, q, a, n - 1, i, j) + if precedes(p, q, a, n - 1, i, j) {
            1nat
        } else {
            0
        }
    }
}

/// How many correspondences of the first `m` lines come before that of `i` with `j`.
spec fn earlier(p: Seq<LineModel>, q: Seq<LineModel>, m: int, i: int, j: int) -> nat
    decreases m,
{
    if m <= 0 {
        0
    } else {
        earlier(p, q, m - 1, i, j) + earlier_in_row(p, q, m - 1, q.len() as int, i, j)
    }
}

proof fn earlier_row_grows(
    p: Seq<LineModel>,
    q: Seq<LineModel>,
    a: int,
    n: int,
    k: int,
    l: int,
    i: int,
    j: int,
)
    requires
        precedes(p, q, k, l, i, j),
    ensures
        earlier_in_row(p, q, a, n, k, l) <= earlier_in_row(p, q, a, n, i, j),
        a == k && 0 <= l < n ==> earlier_in_row(p, q, a, n, k, l) < earlier_in_row(
            p,
            q,
            a,
            n,
            i,
            j,
        ),
    decreases n,
{
    if n > 0 {
        earlier_row_grows(p, q, a, n - 1, k, l, i, j);
        if precedes(p, q, a, n - 1, k, l) {
            precedes_is_transitive(p, q, a, n - 1, k, l, i, j);
        }
    }
}

proof fn earlier_grows(
    p: Seq<LineModel>,
    q: Seq<LineModel>,
    m: int,
    k: int,
    l: int,
    i: int,
    j: int,
)
    requires
        precedes(p, q, k, l, i, j),
        0 <= l < q.len(),
    ensures
        earlier(p, q, m, k, l) <= earlier(p, q, m, i, j),
        0 <= k < m ==> earlier(p, q, m, k, l) < earlier(p, q, m, i, j),
    decreases m,
{
    if m > 0 {
        earlier_grows(p, q, m - 1, k, l, i, j);
        earlier_row_grows(p, q, m - 1, q.len() as int, k, l, i, j);
    }
}

/// A match of one greedy matching is a match of any other.
proof fn greedy_matches_agree(
    p: Seq<LineModel>,
    q: Seq<LineModel>,
    m1: Seq<Option<usize>>,
    m2: Seq<Option<usize>>,
    i: int,
)
    requires
        is_greedy(p, q, m1),
        is_greedy(p, q, m2),
        0 <= i < p.len(),
        m1[i] is Some,
    ensures
        m2[i] == m1[i],
    decreases earlier(p, q, p.len() as int, i, m1[i]->0 as int),
{
    let j = m1[i]->0 as int;
    assert(overlaps(p[i], q[j]));
    if m2[i] != Some(j as usize) {
        assert(outranked(p, q, m2, i, j));
        let k = choose|k: int|
            0 <= k < p.len() && (#[trigger] m2[k]) is Some && (k == i || m2[k]->0 == j)
                && precedes(p, q, k, m2[k]->0 as int, i, j);
        let l = m2[k]->0 as int;
        earlier_grows(p, q, p.len() as int, k, l, i, j);
        greedy_matches_agree(p, q, m2, m1, k);
        assert(m1[k] == m2[k]);
        if k < i {
            assert(m1[k]->0 != m1[i]->0);
        } else if i < k {
            assert(m1[i]->0 != m1[k]->0);
        }
    }
}

/// Two sets of lines have one greedy matching.
pub proof fn a_greedy_matching_is_unique(
    p: Seq<LineModel>,
    q: Seq<LineModel>,
    m1: Seq<Option<usize>>,
    m2: Seq<Option<usize>>,
)
    requires
        is_greedy(p, q, m1),
        is_greedy(p, q, m2),
    ensures
        m1 == m2,
{
    assert forall|i: int| 0 <= i < p.len() implies m1[i] == m2[i] by {
        if m1[i] is Some {
            greedy_matches_agree(p, q, m1, m2, i);
        } else if m2[i] is Some {
            greedy_matches_agree(p, q, m2, m1, i);
        }
    }
    assert(m1 =~= m2);
}

/// Two recognitions have one fusion.
pub proof fn a_fusion_is_unique(p: ResultModel, q: ResultModel, a: ResultModel, b: ResultModel)
    requires
        is_merged(p, q, a),
        is_merged(p, q, b),
    ensures
        a == b,
{
    if p.lines.len() > 0 && q.lines.len() > 0 {
        let m1 = choose|m: Seq<Option<usize>>| #[trigger]
            is_greedy(p.lines, q.lines, m) && a == if matched(m) * 2 < p.lines.len() {
                p
            } else {
                result_of(fused(p.lines, q.lines, m))
            };
        let m2 = choose|m: Seq<Option<usize>>| #[trigger]
            is_greedy(p.lines, q.lines, m) && b == if matched(m) * 2 < p.lines.len() {
                p
            } else {
                result_of(fused(p.lines, q.lines, m))
            };
        a_greedy_matching_is_unique(p.lines, q.lines, m1, m2);
    }
}

/// Two layouts of the same length need no rounding to be told apart: a bonus of at most one per
/// character is no more than the characters that count.
proof fn bonus_bound(n: int, most: int, hundredths: nat)
    requires
        0 <= n,
        0 <= most <= 100,
        hundredths <= 100,
    ensures
        bonus(n, most, hundredths) <= most * one(),
{
    let c = smaller(n, most) as nat;
    a_thousand_is_finite();
    small_integers_are_exact(c);
    small_integers_are_exact(most as nat);
    small_integers_are_exact(1);
    let f = fraction(hundredths, 100);
    assert((hundredths * one()) * 1 <= (1 * one()) * 100) by (nonlinear_arith)
        requires
            hundredths <= 100,
            one() > 0,
    ;
    rounding_keeps_the_order(hundredths * one(), 100, 1 * one(), 1);
    arithmetic_keeps_the_order(f, one(), whole(c));
    assert(c * one() <= most * one()) by (nonlinear_arith)
        requires
            c <= most,
            one() > 0,
    ;
    assert(most * one() <= 100 * one()) by (nonlinear_arith)
        requires
            most <= 100,
            one() > 0,
    ;
    one_changes_nothing(whole(c));
}

/// More characters never give a smaller bonus.
proof fn bonus_grows(a: int, b: int, most: int, hundredths: nat)
    requires
        0 <= a <= b,
        0 <= most,
    ensures
        bonus(a, most, hundredths) <= bonus(b, most, hundredths),
{
    let (x, y) = (smaller(a, most) as nat, smaller(b, most) as nat);
    a_thousand_is_finite();
    assert(x * one() <= y * one()) by (nonlinear_arith)
        requires
            x <= y,
            one() > 0,
    ;
    rounding_keeps_the_order(x * one(), 1, y * one(), 1);
    arithmetic_keeps_the_order(whole(x), whole(y), fraction(hundredths, 100));
}

/// A larger part is never a smaller share.
proof fn share_grows(a: int, b: int, all: int)
    requires
        0 <= a <= b,
        all <= u64::MAX,
    ensures
        share(a, all) <= share(b, all),
{
    a_thousand_is_finite();
    assert(a * one() <= b * one()) by (nonlinear_arith)
        requires
            a <= b,
            one() > 0,
    ;
    rounding_keeps_the_order((a * one()) as nat, 1, (b * one()) as nat, 1);
    let base = larger(all, 1) as nat;
    whole_is_finite(base);
    arithmetic_keeps_the_order(whole(a as nat), whole(b as nat), whole(base));
}

/// As good in every respect.
spec fn no_worse(p: ResultModel, q: ResultModel) -> bool {
    &&& trim(p.text).len() > 0
    &&& trim(q.text).len() > 0
    &&& 0 <= p.meaningful_chars == q.meaningful_chars <= u64::MAX
    &&& p.confidence <= q.confidence
    &&& 0 <= p.trusted_chars <= q.trusted_chars
    &&& p.low_confidence_chars >= q.low_confidence_chars >= 0
    &&& p.isolated_noise_lines >= q.isolated_noise_lines >= 0
}

proof fn merit_keeps_the_order(p: ResultModel, q: ResultModel, kind: CandidateKind)
    requires
        no_worse(p, q),
    ensures
        merit(p, kind) <= merit(q, kind),
{
    bonus_grows(p.trusted_chars, q.trusted_chars, 40, 35);
    let chars = bonus(p.meaningful_chars, 64, 12);
    let (x, y) = (bonus(p.trusted_chars, 40, 35), bonus(q.trusted_chars, 40, 35));
    arithmetic_keeps_the_order(x, y, chars);
    let (cp, cq) = (sum(x, chars), sum(y, chars));
    arithmetic_keeps_the_order(p.confidence, q.confidence, cp);
    arithmetic_keeps_the_order(cp, cq, q.confidence);
    let prior = if kind == CandidateKind::LocalContrast {
        whole(2)
    } else {
        0
    };
    arithmetic_keeps_the_order(sum(p.confidence, cp), sum(q.confidence, cq), prior);
}

spec fn doubt(p: ResultModel) -> nat {
    product(share(p.low_confidence_chars, p.meaningful_chars), whole(22))
}

spec fn clutter(p: ResultModel) -> nat {
    product(whole(p.isolated_noise_lines as nat), fraction(5, 2))
}

proof fn penalties_keep_the_order(p: ResultModel, q: ResultModel)
    requires
        no_worse(p, q),
    ensures
        doubt(p) >= doubt(q),
        clutter(p) >= clutter(q),
{
    share_grows(q.low_confidence_chars, p.low_confidence_chars, p.meaningful_chars);
    arithmetic_keeps_the_order(
        share(q.low_confidence_chars, q.meaningful_chars),
        share(p.low_confidence_chars, p.meaningful_chars),
        whole(22),
    );
    a_thousand_is_finite();
    let (x, y) = (q.isolated_noise_lines as nat, p.isolated_noise_lines as nat);
    assert(x * one() <= y * one()) by (nonlinear_arith)
        requires
            x <= y,
            one() > 0,
    ;
    rounding_keeps_the_order(x * one(), 1, y * one(), 1);
    arithmetic_keeps_the_order(whole(x), whole(y), fraction(5, 2));
}

proof fn scores_keep_the_order(p: ResultModel, q: ResultModel, kind: CandidateKind)
    requires
        no_worse(p, q),
    ensures
        result_score(p, kind) is Some && result_score(q, kind) is Some,
        result_score(p, kind)->0 <= result_score(q, kind)->0,
{
    merit_keeps_the_order(p, q, kind);
    penalties_keep_the_order(p, q);
    let (x, y) = (merit(p, kind) - doubt(p), merit(q, kind) - doubt(q));
    differences_keep_the_order(x, y);
    differences_keep_the_order(signed(x) - clutter(p), signed(y) - clutter(q));
    assert(result_score(p, kind) == Some(signed(signed(x) - clutter(p))));
    assert(result_score(q, kind) == Some(signed(signed(y) - clutter(q))));
}

/// One more of something is not lost by adding and rounding twice.
proof fn one_more_stays(c: nat, d: nat, cov: nat, prior: nat)
    requires
        c + one() <= d <= 100 * one(),
        cov <= 210 * one(),
        prior <= 2 * one(),
    ensures
        rounded(rounded(sum(sum(c, cov), prior), 1), 1) < rounded(
            rounded(sum(sum(d, cov), prior), 1),
            1,
        ),
        sum(sum(c, cov), prior) >= 0,
{
    a_thousand_is_finite();
    let (p1, q1) = (c + cov, d + cov);
    rounding_is_close(p1);
    rounding_is_close(q1);
    let (p2, q2) = (rounded(p1, 1) + prior, rounded(q1, 1) + prior);
    rounding_is_close(p2);
    rounding_is_close(q2);
    let (p3, q3) = (rounded(p2, 1), rounded(q2, 1));
    rounding_is_close(p3);
    rounding_is_close(q3);
    let (p4, q4) = (rounded(p3, 1), rounded(q3, 1));
    rounding_is_close(p4);
    rounding_is_close(q4);
}

proof fn clear_scores_differ(p: ResultModel, q: ResultModel, kind: CandidateKind)
    requires
        no_worse(p, q),
        p.confidence + one() <= q.confidence <= 100 * one(),
        p.trusted_chars == q.trusted_chars,
        p.low_confidence_chars == 0,
        p.isolated_noise_lines == 0,
    ensures
        result_score(p, kind) is Some && result_score(q, kind) is Some,
        result_score(p, kind)->0 < result_score(q, kind)->0,
{
    a_thousand_is_finite();
    whole_is_finite(larger(p.meaningful_chars, 1) as nat);
    nothing_stays_nothing(whole(larger(p.meaningful_chars, 1) as nat));
    nothing_stays_nothing(whole(22));
    nothing_stays_nothing(fraction(5, 2));
    assert(doubt(p) == 0 && doubt(q) == 0 && clutter(p) == 0 && clutter(q) == 0);
    bonus_bound(p.trusted_chars, 40, 35);
    bonus_bound(p.meaningful_chars, 64, 12);
    small_integers_are_exact(2);
    let cov = sum(bonus(p.trusted_chars, 40, 35), bonus(p.meaningful_chars, 64, 12));
    rounding_is_close(bonus(p.trusted_chars, 40, 35) + bonus(p.meaningful_chars, 64, 12));
    let prior = if kind == CandidateKind::LocalContrast {
        whole(2)
    } else {
        0
    };
    one_more_stays(p.confidence, q.confidence, cov, prior);
    let (x, y) = (merit(p, kind), merit(q, kind));
    assert(x == sum(sum(p.confidence, cov), prior));
    assert(y == sum(sum(q.confidence, cov), prior));
    assert(result_score(p, kind) == Some(signed(signed(x - doubt(p)) - clutter(p))));
    assert(result_score(q, kind) == Some(signed(signed(y - doubt(q)) - clutter(q))));
}

/// Of two recognitions with equally many characters, the one that is as good as the other in every
/// respect never scores lower: its confidence and its trusted characters are no less, its doubted
/// characters and its lines of noise no more. Where nothing is doubted and nothing is noise, one
/// more of confidence scores higher.
pub proof fn a_better_recognition_scores_higher(
    a: TesseractResult,
    b: TesseractResult,
    kind: CandidateKind,
    s: Option<Balance>,
    t: Option<Balance>,
)
    requires
        call_ensures(score_result, (&a, kind), s),
        call_ensures(score_result, (&b, kind), t),
        trim(a.text@).len() > 0,
        trim(b.text@).len() > 0,
        a.meaningful_chars == b.meaningful_chars,
        a.confidence@ <= b.confidence@,
        a.trusted_chars <= b.trusted_chars,
        a.low_confidence_chars >= b.low_confidence_chars,
        a.isolated_noise_lines >= b.isolated_noise_lines,
    ensures
        s is Some && t is Some,
        (s->0)@ <= (t->0)@,
        a.confidence@ + one() <= b.confidence@ <= 100 * one() && a.trusted_chars == b.trusted_chars
            && a.low_confidence_chars == 0 && a.isolated_noise_lines == 0 ==> (s->0)@ < (t->0)@,
{
    scores_keep_the_order(a@, b@, kind);
    if a.confidence@ + one() <= b.confidence@ <= 100 * one() && a.trusted_chars == b.trusted_chars
        && a.low_confidence_chars == 0 && a.isolated_noise_lines == 0 {
        clear_scores_differ(a@, b@, kind);
    }
}

/// A recognition without text has no score, and any other is better. Of two scores the larger one is
/// better.
pub proof fn the_larger_score_is_better(a: Option<Balance>, b: Option<Balance>, r: bool)
    requires
        call_ensures(is_better, (a, b), r),
    ensures
        a is None ==> !r,
        a is Some && b is None ==> r,
        a is Some && b is Some ==> (r <==> (a->0)@ > (b->0)@),
{
}

/// Only a recognition without text has no score.
pub proof fn only_text_scores(a: TesseractResult, kind: CandidateKind, s: Option<Balance>)
    requires
        call_ensures(score_result, (&a, kind), s),
    ensures
        s is None <==> trim(a.text@).len() == 0,
{
}

proof fn line_scores_keep_the_order(p: LineModel, q: LineModel)
    requires
        line_wf(p),
        line_wf(q),
        p.meaningful_chars == q.meaningful_chars,
        p.low_confidence_chars == q.low_confidence_chars,
        p.confidence_weight == q.confidence_weight,
    ensures
        line_confidence(p) <= line_confidence(q) ==> line_score(p) <= line_score(q),
        line_confidence(p) + one() <= line_confidence(q) <= 100 * one() && p.low_confidence_chars
            == 0 ==> line_score(p) < line_score(q),
{
    let b = bonus(p.meaningful_chars, 24, 15);
    let (x, y) = (line_confidence(p), line_confidence(q));
    let d = product(share(p.low_confidence_chars, p.confidence_weight), whole(15));
    if x <= y {
        arithmetic_keeps_the_order(x, y, b);
        differences_keep_the_order(sum(x, b) - d, sum(y, b) - d);
    }
    if x + one() <= y <= 100 * one() && p.low_confidence_chars == 0 {
        a_thousand_is_finite();
        whole_is_finite(larger(p.confidence_weight, 1) as nat);
        nothing_stays_nothing(whole(larger(p.confidence_weight, 1) as nat));
        nothing_stays_nothing(whole(15));
        assert(d == 0);
        bonus_bound(p.meaningful_chars, 24, 15);
        rounding_is_close(x + b);
        rounding_is_close(y + b);
        rounding_is_close(sum(x, b));
        rounding_is_close(sum(y, b));
    }
}

proof fn overlapping_boxes_meet(a: LineModel, b: LineModel)
    requires
        overlaps(a, b),
        line_wf(a),
        line_wf(b),
    ensures
        smaller(a.bottom, b.bottom) > larger(a.top, b.top),
        smaller(a.right, b.right) > larger(a.left, b.left),
{
    a_thousand_is_finite();
    nothing_stays_nothing(whole(larger(v_scale(a, b), 1) as nat));
    nothing_stays_nothing(whole(larger(h_scale(a, b), 1) as nat));
    whole_is_finite(larger(v_scale(a, b), 1) as nat);
    whole_is_finite(larger(h_scale(a, b), 1) as nat);
    assert(fraction(25, 100) > 0 && fraction(45, 100) > 0) by {
        quarter_is_something();
    }
}

proof fn quarter_is_something()
    ensures
        fraction(25, 100) > 0,
        fraction(45, 100) > 0,
        fraction(45, 100) <= one(),
        fraction(25, 100) <= one(),
        one() > 0,
{
    a_thousand_is_finite();
    let o = one();
    assert(o >= 4) by {
        vstd::arithmetic::power2::lemma_pow2_strictly_increases(2, 149);
        vstd::arithmetic::power2::lemma2_to64();
    }
    rounding_keeps_the_order(1, 1, 25 * o, 100);
    rounding_keeps_the_order(1, 1, 45 * o, 100);
    rounding_is_close(1);
    small_integers_are_exact(1);
    rounding_keeps_the_order(45 * o, 100, 1 * o, 1);
    rounding_keeps_the_order(25 * o, 100, 1 * o, 1);
}

/// A merged recognition has the lines of the first one, in their order. Each is the line of the first
/// one or one of the second in the same place, and of two lines that are equally long and equally
/// doubted it is one with no less confidence. Without lines in the same place nothing changes.
pub proof fn merging_replaces_lines_in_place(
    primary: &TesseractResult,
    alternate: &TesseractResult,
    out: TesseractResult,
    i: int,
)
    requires
        result_wf(primary@),
        result_wf(alternate@),
        call_ensures(merge_language_results, (primary, alternate), out),
        0 <= i < primary.lines@.len(),
    ensures
        out.lines@.len() == primary.lines@.len(),
        ({
            let (p, l) = (primary.lines@[i]@, out.lines@[i]@);
            ||| l == p
            ||| exists|j: int|
                0 <= j < alternate.lines@.len() && l == (#[trigger] alternate.lines@[j])@
                    && l.top < p.bottom && p.top < l.bottom && l.left < p.right && p.left < l.right
                    && (l.meaningful_chars == p.meaningful_chars && l.confidence_weight
                    == p.confidence_weight && l.low_confidence_chars == p.low_confidence_chars
                    ==> line_confidence(l) > line_confidence(p))
        }),
        (forall|k: int, j: int|
            0 <= k < primary.lines@.len() && 0 <= j < alternate.lines@.len() ==> {
                let (a, b) = (#[trigger] primary.lines@[k], #[trigger] alternate.lines@[j]);
                a.bottom <= b.top || b.bottom <= a.top || a.right <= b.left || b.right <= a.left
            }) ==> out@ == primary@,
{
    let (p, q) = (primary@, alternate@);
    assert(p.lines == models(primary.lines@) && q.lines == models(alternate.lines@));
    assert(out@.lines == models(out.lines@));
    assert(out@.lines.len() == out.lines@.len());
    assert(p.lines[i] == primary.lines@[i]@);
    if p.lines.len() > 0 && q.lines.len() > 0 {
        let matches = choose|matches: Seq<Option<usize>>| #[trigger]
            is_greedy(p.lines, q.lines, matches) && out@ == if matched(matches) * 2
                < p.lines.len() {
                p
            } else {
                result_of(fused(p.lines, q.lines, matches))
            };
        if matched(matches) * 2 >= p.lines.len() {
            assert(out@.lines == fused(p.lines, q.lines, matches));
            assert(out@.lines[i] == out.lines@[i]@);
            if let Some(j) = matches[i] {
                assert(overlaps(p.lines[i], q.lines[j as int]));
                overlapping_boxes_meet(p.lines[i], q.lines[j as int]);
                assert(q.lines[j as int] == alternate.lines@[j as int]@);
                if out.lines@[i]@ != p.lines[i] {
                    let l = alternate.lines@[j as int]@;
                    if l.meaningful_chars == p.lines[i].meaningful_chars && l.confidence_weight
                        == p.lines[i].confidence_weight && l.low_confidence_chars
                        == p.lines[i].low_confidence_chars {
                        line_scores_keep_the_order(l, p.lines[i]);
                    }
                }
            }
        }
        if forall|k: int, j: int|
            0 <= k < primary.lines@.len() && 0 <= j < alternate.lines@.len() ==> {
                let (a, b) = (#[trigger] primary.lines@[k], #[trigger] alternate.lines@[j]);
                a.bottom <= b.top || b.bottom <= a.top || a.right <= b.left || b.right <= a.left
            } {
            assert forall|k: int| 0 <= k < matches.len() implies #[trigger] matches[k] is None by {
                if let Some(j) = matches[k] {
                    assert(overlaps(p.lines[k], q.lines[j as int]));
                    overlapping_boxes_meet(p.lines[k], q.lines[j as int]);
                    let (a, b) = (primary.lines@[k], alternate.lines@[j as int]);
                    assert(p.lines[k] == a@ && q.lines[j as int] == b@);
                }
            }
            none_matched(matches);
        }
    }
}

proof fn none_matched(matches: Seq<Option<usize>>)
    requires
        forall|k: int| 0 <= k < matches.len() ==> #[trigger] matches[k] is None,
    ensures
        matched(matches) == 0,
    decreases matches.len(),
{
    if matches.len() > 0 {
        assert(matches.last() == matches[matches.len() - 1]);
        assert forall|k: int| 0 <= k < matches.drop_last().len() implies (
        #[trigger] matches.drop_last()[k]) is None by {
            assert(matches.drop_last()[k] == matches[k]);
        }
        none_matched(matches.drop_last());
    }
}

/// Of two recognitions of one line in one place, the merged one has the line with clearly more
/// confidence, whichever recognition it comes from.
pub proof fn the_surer_line_wins(
    primary: &TesseractResult,
    alternate: &TesseractResult,
    out: TesseractResult,
    a: ParsedLine,
    b: ParsedLine,
    c: Single,
    d: Single,
)
    requires
        result_wf(primary@),
        result_wf(alternate@),
        call_ensures(merge_language_results, (primary, alternate), out),
        primary.lines@ == seq![a],
        alternate.lines@ == seq![b],
        call_ensures(ParsedLine::confidence, (&a,), c),
        call_ensures(ParsedLine::confidence, (&b,), d),
        a.left == b.left && a.right == b.right && a.left < a.right,
        a.top == b.top && a.bottom == b.bottom && a.top < a.bottom,
        a.meaningful_chars == b.meaningful_chars,
        a.confidence_weight == b.confidence_weight,
        a.low_confidence_chars == 0,
        b.low_confidence_chars == 0,
        c@ <= 100 * one(),
        d@ <= 100 * one(),
    ensures
        c@ + one() <= d@ ==> out@.lines == seq![b@],
        d@ <= c@ ==> out@.lines == seq![a@],
{
    let (p, q) = (primary@, alternate@);
    assert(p.lines =~= seq![a@] && q.lines =~= seq![b@]);
    assert(line_wf(p.lines[0]) && line_wf(q.lines[0]));
    let (x, y) = (a@, b@);
    quarter_is_something();
    let (w, h) = (line_width(x) as nat, line_height(x) as nat);
    whole_is_finite(w);
    whole_is_finite(h);
    assert(larger(w as int, 1) == w && larger(h as int, 1) == h);
    full_share(w as int);
    full_share(h as int);
    assert(overlaps(p.lines[0], q.lines[0]));
    let matches = choose|matches: Seq<Option<usize>>| #[trigger]
        is_greedy(p.lines, q.lines, matches) && out@ == if matched(matches) * 2 < p.lines.len() {
            p
        } else {
            result_of(fused(p.lines, q.lines, matches))
        };
    if outranked(p.lines, q.lines, matches, 0, 0) {
        let k = choose|k: int|
            0 <= k < p.lines.len() && (#[trigger] matches[k]) is Some && (k == 0 || matches[k]->0
                == 0) && precedes(p.lines, q.lines, k, matches[k]->0 as int, 0, 0);
        assert(k == 0 && matches[0]->0 < q.lines.len());
    }
    assert(matches[0] == Some(0usize));
    assert(matches.last() == matches[0]);
    assert(matched(matches) == 1) by {
        assert(matches.drop_last().len() == 0);
        assert(matched(matches.drop_last()) == 0);
    }
    line_scores_keep_the_order(x, y);
    line_scores_keep_the_order(y, x);
    assert(out@.lines =~= seq![fused_line(p.lines, q.lines, matches, 0)]);
}

proof fn full_share(n: int)
    requires
        1 <= n <= u64::MAX,
    ensures
        share(n, n) == one(),
{
    let a = whole(n as nat);
    whole_is_finite(n as nat);
    a_thousand_is_finite();
    small_integers_are_exact(1);
    let o = one();
    assert((a * o) * 1 == (1 * o) * a) by (nonlinear_arith);
    rounding_keeps_the_order(a * o, a, 1 * o, 1);
    rounding_keeps_the_order(1 * o, 1, a * o, a);
    assert(larger(n, 1) == n);
}

/// A recognition adds up its lines: one more line adds its counts, a line of its text, and one line
/// of noise if it holds at most one character and less than 65 of confidence.
pub proof fn one_more_line_adds_up(
    before: Vec<ParsedLine>,
    line: ParsedLine,
    after: Vec<ParsedLine>,
    r: TesseractResult,
    s: TesseractResult,
    c: Single,
)
    requires
        after@ == before@.push(line),
        call_ensures(result_from_lines, (before,), r),
        call_ensures(result_from_lines, (after,), s),
        call_ensures(ParsedLine::confidence, (&line,), c),
    ensures
        s.meaningful_chars == r.meaningful_chars + line.meaningful_chars,
        s.trusted_chars == r.trusted_chars + line.trusted_chars,
        s.low_confidence_chars == r.low_confidence_chars + line.low_confidence_chars,
        s.isolated_noise_lines == r.isolated_noise_lines + if line.meaningful_chars <= 1 && c@ < 65
            * one() {
            1int
        } else {
            0
        },
        s.text@ == if r.text@.len() == 0 {
            line.text@
        } else {
            r.text@ + seq!['\n'] + line.text@
        },
        s@.lines == r@.lines.push(line@),
{
    small_integers_are_exact(65);
    let (a, b) = (models(before@), models(after@));
    assert(b =~= a.push(line@));
    assert(b.drop_last() =~= a);
    assert(r.text@.push('\n') =~= r.text@ + seq!['\n']);
    assert(Seq::<char>::empty() + line.text@ =~= line.text@);
    assert(r.text@.len() == 0 ==> r.text@ + line.text@ =~= line.text@);
}

/// An empty recognition holds nothing.
pub proof fn no_lines_hold_nothing(lines: Vec<ParsedLine>, r: TesseractResult)
    requires
        call_ensures(result_from_lines, (lines,), r),
        lines@.len() == 0,
    ensures
        r.text@.len() == 0,
        r.meaningful_chars == 0 && r.trusted_chars == 0 && r.low_confidence_chars == 0
            && r.isolated_noise_lines == 0,
        r.confidence@ == 0,
{
}

/// Another layout is tried where the confidence is below 82 or fewer than three characters were
/// read, unless scattered text has more than two lines of noise already. Less confidence and fewer
/// characters never make it less worth trying.
pub proof fn a_poor_recognition_is_tried_again(
    a: &TesseractResult,
    b: &TesseractResult,
    psm: u8,
    r: bool,
    s: bool,
)
    requires
        call_ensures(should_retry_layout, (a, psm), r),
        call_ensures(should_retry_layout, (b, psm), s),
        a.isolated_noise_lines == b.isolated_noise_lines,
    ensures
        psm != 11 ==> (r <==> a.confidence@ < 82 * one() || a.meaningful_chars < 3),
        psm == 11 ==> (r <==> (a.confidence@ < 82 * one() || a.meaningful_chars < 3)
            && a.isolated_noise_lines <= 2),
        r && b.confidence@ <= a.confidence@ && b.meaningful_chars <= a.meaningful_chars ==> s,
{
    small_integers_are_exact(82);
}

/// Of scattered text every line is kept that has at least 70 of confidence, and of fewer than six
/// lines every one. Where no two lines have 75 of confidence and three characters, all are kept.
pub proof fn sure_lines_are_kept(lines: &Vec<ParsedLine>, keep: Vec<bool>, i: int, c: Single)
    requires
        call_ensures(dominant_text_lines, (lines,), keep),
        0 <= i < lines@.len(),
        call_ensures(ParsedLine::confidence, (&lines@[i],), c),
    ensures
        keep@.len() == lines@.len(),
        c@ >= 70 * one() ==> keep@[i],
        lines@.len() < 6 ==> keep@[i],
        (forall|k: int|
            0 <= k < lines@.len() && k != i ==> line_confidence((#[trigger] lines@[k])@) < 75
                * one() || lines@[k].meaningful_chars < 3) ==> keep@[i],
{
    small_integers_are_exact(70);
    small_integers_are_exact(75);
    let m = models(lines@);
    assert(m[i] == lines@[i]@);
    if forall|k: int|
        0 <= k < lines@.len() && k != i ==> line_confidence((#[trigger] lines@[k])@) < 75 * one()
            || lines@[k].meaningful_chars < 3 {
        assert forall|a: int, b: int| !is_pair(m, a, b) by {
            if is_pair(m, a, b) {
                let k = if a == i {
                    b
                } else {
                    a
                };
                assert(m[k] == lines@[k]@);
            }
        }
    }
}

/// A table is read as it stands unless it is scattered text, of which only some lines are kept: each
/// line of the recognition is one of the table.
pub proof fn a_recognition_holds_lines_of_its_table(
    tsv: &str,
    psm: u8,
    r: Option<TesseractResult>,
    t: Option<Vec<ParsedLine>>,
)
    requires
        call_ensures(parse_tsv, (tsv, psm), r),
        call_ensures(read_table, (tsv,), t),
    ensures
        r is Some <==> t is Some,
        r is Some && psm != 11 ==> r->0@.lines == models(t->0@),
        r is Some ==> forall|i: int|
            0 <= i < r->0@.lines.len() ==> models(t->0@).contains(#[trigger] r->0@.lines[i]),
        r is Some ==> r->0@.lines.len() <= t->0@.len(),
{
    if r is Some {
        let all = models(t->0@);
        let some = r->0@.lines;
        if psm == 11 {
            let keep = choose|keep: Seq<bool>| #[trigger]
                is_dominant(all, keep) && some == chosen(all, keep);
            chosen_are_among(all, keep);
        } else {
            assert forall|i: int| 0 <= i < some.len() implies all.contains(#[trigger] some[i]) by {
                assert(all[i] == some[i]);
            }
        }
    }
}

proof fn chosen_are_among(lines: Seq<LineModel>, keep: Seq<bool>)
    ensures
        chosen(lines, keep).len() <= lines.len(),
        forall|i: int|
            0 <= i < chosen(lines, keep).len() ==> lines.contains(
                #[trigger] chosen(lines, keep)[i],
            ),
    decreases lines.len(),
{
    if lines.len() > 0 {
        let front = lines.drop_last();
        chosen_are_among(front, keep);
        let (c, d) = (chosen(lines, keep), chosen(front, keep));
        assert forall|i: int| 0 <= i < c.len() implies lines.contains(#[trigger] c[i]) by {
            if i < d.len() {
                assert(c[i] == d[i]);
                let k = choose|k: int| 0 <= k < front.len() && front[k] == d[i];
                assert(lines[k] == c[i]);
            } else {
                assert(c[i] == lines[lines.len() - 1]);
            }
        }
    }
}

proof fn a_bonus_is_its_part(n: int, most: int, hundredths: nat)
    requires
        0 <= n,
        0 <= most <= 100,
        hundredths <= 100,
    ensures
        -one() <= 100 * (100 * bonus(n, most, hundredths) - smaller(n, most) * hundredths * one())
            <= one(),
{
    let c = smaller(n, most) as nat;
    let o = one();
    a_thousand_is_finite();
    assert(o >= 0x10_0000_0000) by {
        vstd::arithmetic::power2::lemma_pow2_strictly_increases(36, 149);
        vstd::arithmetic::power2::lemma2_to64_rest();
    }
    small_integers_are_exact(c);
    let f = fraction(hundredths, 100);
    assert(hundredths * o <= 0x100 * o * 100) by (nonlinear_arith)
        requires
            hundredths <= 100,
    ;
    quotients_are_close(hundredths * o, 100);
    let g = hundredths * o;
    // The product, with the fraction as it was rounded.
    assert((c * o) * f * 1 == (c * f) * o) by (nonlinear_arith);
    rounding_keeps_the_order((c * o) * f, o, c * f, 1);
    rounding_keeps_the_order(c * f, 1, (c * o) * f, o);
    let b = bonus(n, most, hundredths);
    assert(b == rounded(c * f, 1));
    assert(g <= 100 * o) by (nonlinear_arith)
        requires
            g == hundredths * o,
            hundredths <= 100,
    ;
    assert(f <= 2 * o);
    let p = c * f;
    assert(p <= 100 * f) by (nonlinear_arith)
        requires
            p == c * f,
            c <= 100,
    ;
    rounding_is_close(p);
    let cg = c * g;
    assert(0x100_0000 * (100 * p) <= 0x100_0001 * (cg + 100 * c)) by (nonlinear_arith)
        requires
            0x100_0000 * (f * 100) <= 0x100_0001 * (g + 100),
            p == c * f,
            cg == c * g,
            c >= 0,
    ;
    assert(0x100_0000 * (100 * p) >= 0xff_ffff * (cg - 100 * c)) by (nonlinear_arith)
        requires
            0x100_0000 * (f * 100) >= 0xff_ffff * (g - 100),
            p == c * f,
            cg == c * g,
            c >= 0,
    ;
    assert(cg <= 10_000 * o) by (nonlinear_arith)
        requires
            cg == c * g,
            g <= 100 * o,
            0 <= c <= 100,
            o >= 0,
            g >= 0,
    ;
    assert(cg == c * hundredths * o) by (nonlinear_arith)
        requires
            cg == c * g,
            g == hundredths * o,
    ;
}

proof fn a_clutter_is_its_part(n: int)
    requires
        0 <= n <= 20,
    ensures
        -one() <= 1000 * (2 * product(whole(n as nat), fraction(5, 2)) - 5 * n * one()) <= one(),
        product(whole(n as nat), fraction(5, 2)) <= 60 * one(),
{
    let c = n as nat;
    let o = one();
    a_thousand_is_finite();
    assert(o >= 0x10_0000_0000) by {
        vstd::arithmetic::power2::lemma_pow2_strictly_increases(36, 149);
        vstd::arithmetic::power2::lemma2_to64_rest();
    }
    small_integers_are_exact(c);
    let f = fraction(5, 2);
    quotients_are_close(5 * o, 2);
    assert((c * o) * f * 1 == (c * f) * o) by (nonlinear_arith);
    rounding_keeps_the_order((c * o) * f, o, c * f, 1);
    rounding_keeps_the_order(c * f, 1, (c * o) * f, o);
    let p = c * f;
    assert(f <= 3 * o);
    assert(p <= 20 * f) by (nonlinear_arith)
        requires
            p == c * f,
            c <= 20,
    ;
    rounding_is_close(p);
    let co = c * o;
    assert(0x100_0000 * (2 * p) <= 0x100_0001 * (5 * co + 2 * c)) by (nonlinear_arith)
        requires
            0x100_0000 * (f * 2) <= 0x100_0001 * (5 * o + 2),
            p == c * f,
            co == c * o,
    ;
    assert(0x100_0000 * (2 * p) >= 0xff_ffff * (5 * co - 2 * c)) by (nonlinear_arith)
        requires
            0x100_0000 * (f * 2) >= 0xff_ffff * (5 * o - 2),
            p == c * f,
            co == c * o,
            c >= 0,
    ;
    assert(co <= 20 * o) by (nonlinear_arith)
        requires
            co == c * o,
            c <= 20,
    ;
    assert(5 * n * one() == 5 * co) by (nonlinear_arith)
        requires
            co == n * o,
            o == one(),
    ;
}

proof fn differences_are_close(n: int)
    requires
        -0x180 * one() <= n <= 0x180 * one(),
    ensures
        -one() <= 10_000 * (signed(n) - n) <= one(),
{
    a_thousand_is_finite();
    if n >= 0 {
        rounding_is_close(n as nat);
    } else {
        rounding_is_close((-n) as nat);
    }
}

/// A score adds up: the confidence, 0.35 for each trusted character up to forty, 0.12 for each
/// character up to sixty-four, two for the candidate for faint strokes, less twenty-two where every
/// character is doubted and two and a half for each line of noise. It is exact to a fiftieth.
pub proof fn a_score_adds_up(a: TesseractResult, kind: CandidateKind, s: Option<Balance>)
    requires
        call_ensures(score_result, (&a, kind), s),
        trim(a.text@).len() > 0,
        a.confidence@ <= 100 * one(),
        a.low_confidence_chars == 0 || (a.low_confidence_chars == a.meaningful_chars
            && a.meaningful_chars >= 1),
        a.isolated_noise_lines <= 20,
    ensures
        s is Some,
        ({
            let trusted = if a.trusted_chars <= 40 {
                a.trusted_chars as int
            } else {
                40
            };
            let chars = if a.meaningful_chars <= 64 {
                a.meaningful_chars as int
            } else {
                64
            };
            let local = if kind is LocalContrast {
                200int
            } else {
                0
            };
            let doubted = if a.low_confidence_chars > 0 {
                2200int
            } else {
                0
            };
            let hundredths = 35 * trusted + 12 * chars + local - doubted - 250
                * a.isolated_noise_lines;
            -2 * one() <= 100 * ((s->0)@ - a.confidence@) - hundredths * one() <= 2 * one()
        }),
{
    let r = a@;
    let o = one();
    a_thousand_is_finite();
    let (b1, b2) = (bonus(r.trusted_chars, 40, 35), bonus(r.meaningful_chars, 64, 12));
    a_bonus_is_its_part(r.trusted_chars, 40, 35);
    a_bonus_is_its_part(r.meaningful_chars, 64, 12);
    bonus_bound(r.trusted_chars, 40, 35);
    bonus_bound(r.meaningful_chars, 64, 12);
    small_integers_are_exact(2);
    let prior: nat = if kind == CandidateKind::LocalContrast {
        whole(2)
    } else {
        0
    };
    let d = product(share(r.low_confidence_chars, r.meaningful_chars), whole(22));
    a_doubt_is_whole(r);
    let n = r.isolated_noise_lines;
    let k = product(whole(n as nat), fraction(5, 2));
    a_clutter_is_its_part(n);
    let v = signed(signed(sum(sum(r.confidence, sum(b1, b2)), prior) - d) - k);
    sums_are_close(r.confidence, b1, b2, prior, d, k);
    assert(score_value(s) == Some(v));
    let (t, c) = (smaller(r.trusted_chars, 40), smaller(r.meaningful_chars, 64));
    let local = if kind is LocalContrast {
        200int
    } else {
        0
    };
    let doubted = if a.low_confidence_chars > 0 {
        2200int
    } else {
        0
    };
    hundredths_add_up(t, c, local, doubted, n, o as int);
}

proof fn hundredths_add_up(t: int, c: int, local: int, doubted: int, n: int, o: int)
    ensures
        (35 * t + 12 * c + local - doubted - 250 * n) * o == t * 35 * o + c * 12 * o + local * o
            - doubted * o - 50 * (5 * n * o),
{
    let (to, co, no) = (t * o, c * o, n * o);
    assert(t * 35 * o == 35 * to && c * 12 * o == 12 * co && 5 * n * o == 5 * no)
        by (nonlinear_arith)
        requires
            to == t * o,
            co == c * o,
            no == n * o,
    ;
    assert((35 * t + 12 * c + local - doubted - 250 * n) * o == 35 * to + 12 * co + local * o
        - doubted * o - 250 * no) by (nonlinear_arith)
        requires
            to == t * o,
            co == c * o,
            no == n * o,
    ;
}

proof fn a_doubt_is_whole(r: ResultModel)
    requires
        r.low_confidence_chars == 0 || (r.low_confidence_chars == r.meaningful_chars
            && r.meaningful_chars >= 1),
        0 <= r.meaningful_chars <= u64::MAX,
    ensures
        product(share(r.low_confidence_chars, r.meaningful_chars), whole(22)) == if r.low_confidence_chars
            > 0 {
            22 * one()
        } else {
            0
        },
{
    let o = one();
    a_thousand_is_finite();
    small_integers_are_exact(22);
    if r.low_confidence_chars == 0 {
        whole_is_finite(larger(r.meaningful_chars, 1) as nat);
        nothing_stays_nothing(whole(larger(r.meaningful_chars, 1) as nat));
        nothing_stays_nothing(whole(22));
    } else {
        full_share(r.meaningful_chars);
        one_changes_nothing(whole(22));
    }
}

proof fn sums_are_close(conf: nat, b1: nat, b2: nat, prior: nat, d: nat, k: nat)
    requires
        conf <= 100 * one(),
        b1 <= 40 * one(),
        b2 <= 64 * one(),
        prior <= 2 * one(),
        d <= 22 * one(),
        k <= 60 * one(),
    ensures
        -one() <= 1000 * (signed(signed(sum(sum(conf, sum(b1, b2)), prior) - d) - k) - (conf + b1
            + b2 + prior - d - k)) <= one(),
{
    a_thousand_is_finite();
    let x = sum(b1, b2);
    differences_are_close((b1 + b2) as int);
    assert(signed((b1 + b2) as int) == x);
    let y = sum(conf, x);
    differences_are_close((conf + x) as int);
    assert(signed((conf + x) as int) == y);
    let z = sum(y, prior);
    differences_are_close((y + prior) as int);
    assert(signed((y + prior) as int) == z);
    differences_are_close(z - d);
    let u = signed(z - d);
    differences_are_close(u - k);
}

/// The score of a line adds up in the same way: its confidence and 0.15 for each character up to
/// twenty-four, less fifteen where everything in it is doubted.
pub proof fn a_line_score_adds_up(l: LineModel)
    requires
        line_wf(l),
        line_confidence(l) <= 100 * one(),
        l.low_confidence_chars == 0 || (l.low_confidence_chars == l.confidence_weight
            && l.confidence_weight >= 1),
    ensures
        ({
            let chars = smaller(l.meaningful_chars, 24);
            let doubted = if l.low_confidence_chars > 0 {
                1500int
            } else {
                0
            };
            -2 * one() <= 100 * (line_score(l) - line_confidence(l)) - (15 * chars - doubted)
                * one() <= 2 * one()
        }),
{
    let o = one();
    a_thousand_is_finite();
    let b = bonus(l.meaningful_chars, 24, 15);
    a_bonus_is_its_part(l.meaningful_chars, 24, 15);
    bonus_bound(l.meaningful_chars, 24, 15);
    small_integers_are_exact(15);
    let d = product(share(l.low_confidence_chars, l.confidence_weight), whole(15));
    if l.low_confidence_chars == 0 {
        whole_is_finite(larger(l.confidence_weight, 1) as nat);
        nothing_stays_nothing(whole(larger(l.confidence_weight, 1) as nat));
        nothing_stays_nothing(whole(15));
        assert(d == 0);
    } else {
        full_share(l.confidence_weight);
        one_changes_nothing(whole(15));
        assert(d == 15 * o);
    }
    let y = sum(line_confidence(l), b);
    differences_are_close((line_confidence(l) + b) as int);
    assert(signed((line_confidence(l) + b) as int) == y);
    differences_are_close(y - d);
    let c = smaller(l.meaningful_chars, 24);
    let co = c * o;
    assert(c * 15 * o == 15 * co) by (nonlinear_arith)
        requires
            co == c * o,
    ;
    let doubted = if l.low_confidence_chars > 0 {
        1500int
    } else {
        0
    };
    assert((15 * c - doubted) * o == 15 * co - doubted * o) by (nonlinear_arith)
        requires
            co == c * o,
    ;
}

proof fn a_part_is_less_than_all(part: int, all: int)
    requires
        0 <= part < all <= 0x10_0000,
    ensures
        share(part, all) < one(),
{
    let o = one();
    a_thousand_is_finite();
    assert(o >= 0x10_0000_0000) by {
        vstd::arithmetic::power2::lemma_pow2_strictly_increases(36, 149);
        vstd::arithmetic::power2::lemma2_to64_rest();
    }
    let (p, a) = (part as nat, all as nat);
    small_integers_are_exact(p);
    small_integers_are_exact(a);
    whole_is_finite(p);
    let r = share(part, all);
    let d = a * o;
    assert(d > 0) by (nonlinear_arith)
        requires
            d == a * o,
            a > 0,
            o > 0,
    ;
    let n = (p * o) * o;
    assert(n <= 0x100 * o * d) by (nonlinear_arith)
        requires
            n == (p * o) * o,
            d == a * o,
            p <= a,
            o > 0,
    ;
    quotients_are_close(n, d);
    assert(r == rounded(n, d));
    if r >= o {
        assert(r * d >= o * d) by (nonlinear_arith)
            requires
                r >= o,
                d > 0,
        ;
        assert(0x100_0000 * (o * d) <= 0x100_0001 * (n + d));
        assert(false) by (nonlinear_arith)
            requires
                0x100_0000 * (o * d) <= 0x100_0001 * (n + d),
                n == (p * o) * o,
                d == a * o,
                p + 1 <= a <= 0x10_0000,
                o >= 0x10_0000_0000,
        {
            assert(0x100_0000 * (o * a) <= 0x100_0001 * (p * o + a));
            assert(p * o <= a * o - o);
            assert(0x100_0000 * (o * a) <= 0x100_0001 * (a * o - o + a));
            assert(a * o <= 0x10_0000 * o);
        }
    }
}

/// A line is compared with the one in its own place: where one line of the other recognition has
/// exactly its place and every other one lies further up or down, no other one can take its place.
pub proof fn a_line_is_compared_in_its_place(
    primary: &TesseractResult,
    alternate: &TesseractResult,
    out: TesseractResult,
    a: ParsedLine,
    j: int,
)
    requires
        result_wf(primary@),
        result_wf(alternate@),
        call_ensures(merge_language_results, (primary, alternate), out),
        primary.lines@ == seq![a],
        0 <= j < alternate.lines@.len(),
        alternate.lines@[j].left == a.left && alternate.lines@[j].right == a.right,
        alternate.lines@[j].top == a.top && alternate.lines@[j].bottom == a.bottom,
        0 < a.right - a.left <= 0x10_0000,
        0 < a.bottom - a.top <= 0x10_0000,
        forall|k: int|
            0 <= k < alternate.lines@.len() && k != j ==> {
                let l = #[trigger] alternate.lines@[k];
                &&& a.bottom - a.top <= l.bottom - l.top
                &&& l.bottom < a.bottom || a.top < l.top
            },
    ensures
        out@.lines == seq![a@] || out@.lines == seq![alternate.lines@[j]@],
{
    let (p, q) = (primary@, alternate@);
    assert(p.lines =~= seq![a@]);
    assert(q.lines[j] == alternate.lines@[j]@);
    assert(line_wf(p.lines[0]) && line_wf(q.lines[j]));
    let (x, y) = (a@, q.lines[j]);
    quarter_is_something();
    full_share(line_width(x));
    full_share(line_height(x));
    assert(overlaps(p.lines[0], q.lines[j]));
    assert(v_share(p.lines[0], q.lines[j]) == one());
    let matches = choose|matches: Seq<Option<usize>>| #[trigger]
        is_greedy(p.lines, q.lines, matches) && out@ == if matched(matches) * 2 < p.lines.len() {
            p
        } else {
            result_of(fused(p.lines, q.lines, matches))
        };
    if matches[0] != Some(j as usize) {
        assert(outranked(p.lines, q.lines, matches, 0, j));
        let k = choose|k: int|
            0 <= k < p.lines.len() && (#[trigger] matches[k]) is Some && (k == 0 || matches[k]->0
                == j) && precedes(p.lines, q.lines, k, matches[k]->0 as int, 0, j);
        assert(k == 0);
        let m = matches[0]->0 as int;
        assert(m != j);
        assert(q.lines[m] == alternate.lines@[m]@);
        let l = q.lines[m];
        assert(v_scale(x, l) == line_height(x));
        assert(v_overlap(x, l) < line_height(x));
        a_part_is_less_than_all(v_overlap(x, l), line_height(x));
        assert(v_share(p.lines[0], q.lines[m]) < one());
    }
    assert(matches[0] == Some(j as usize));
    assert(out@.lines =~= seq![fused_line(p.lines, q.lines, matches, 0)] || out@.lines =~= p.lines);
}

} // verus!
