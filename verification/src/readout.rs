//! The words and numbers on the panel of a long shot.

use vstd::prelude::*;

use crate::binary64::{large, spacing, tenths, tenths_of, whole};
use crate::text::{chars_of, decimal, decimal_of, owned};

verus! {

/// What the stitcher made of a frame.
#[derive(Debug, Clone, Copy, PartialEq, Eq, Structural)]
pub enum StitchDecision {
    Seed,
    Stationary,
    Accepted,
    Revisit,
    Reanchored,
    Rejected,
}

/// What the panel tells the user.
#[derive(Debug, Clone, Copy, PartialEq, Eq, Structural)]
pub enum Hint {
    Sampling,
    Recovering,
    Recovered,
    SlowDown,
    NoMove,
    CaptureRetry,
    CaptureResumed,
}

impl Hint {
    /// The short form and the sentence.
    pub open spec fn words(self) -> (Seq<char>, Seq<char>) {
        match self {
            Hint::Sampling => ("采集中"@, "平稳滚动；再次按长截图快捷键即可完成"@),
            Hint::Recovering => ("校准中"@, "正在自动寻找重叠，可继续滚动"@),
            Hint::Recovered => ("已恢复"@, "已自动接回画面，继续滚动即可"@),
            Hint::SlowDown => ("请慢一些"@, "减慢滚动即可，程序会继续寻找重叠"@),
            Hint::NoMove => ("等待滚动"@, "向上或向下滚动目标窗口"@),
            Hint::CaptureRetry => ("采集重连中"@, "截屏后端暂时无响应，正在自动重试"@),
            Hint::CaptureResumed => ("采集已恢复"@, "画面采集恢复，可继续滚动"@),
        }
    }

    /// The short form and the sentence.
    pub fn text(self) -> (r: (&'static str, &'static str))
        ensures
            (r.0@, r.1@) == self.words(),
    {
        match self {
            Hint::Sampling => ("采集中", "平稳滚动；再次按长截图快捷键即可完成"),
            Hint::Recovering => ("校准中", "正在自动寻找重叠，可继续滚动"),
            Hint::Recovered => ("已恢复", "已自动接回画面，继续滚动即可"),
            Hint::SlowDown => ("请慢一些", "减慢滚动即可，程序会继续寻找重叠"),
            Hint::NoMove => ("等待滚动", "向上或向下滚动目标窗口"),
            Hint::CaptureRetry => ("采集重连中", "截屏后端暂时无响应，正在自动重试"),
            Hint::CaptureResumed => ("采集已恢复", "画面采集恢复，可继续滚动"),
        }
    }
}

/// The hint to show. How the session was started makes no difference: failures of the capture are
/// always shown.
pub fn displayed_hint(_daemon_managed: bool, hint: Option<Hint>) -> (r: Hint)
    ensures
        r == match hint {
            Some(h) => h,
            None => Hint::Sampling,
        },
{
    match hint {
        Some(h) => h,
        None => Hint::Sampling,
    }
}

/// The title of the panel. Without the daemon only the panel can end the session.
pub fn panel_title(daemon_managed: bool) -> (r: &'static str)
    ensures
        r@ == if daemon_managed {
            "长截图"@
        } else {
            "长截图 · 仅面板完成"@
        },
{
    if daemon_managed {
        "长截图"
    } else {
        "长截图 · 仅面板完成"
    }
}

/// How the picture moved.
pub open spec fn motion(decision: StitchDecision, shift: int) -> Seq<char> {
    match decision {
        StitchDecision::Seed => "首帧已就绪"@,
        StitchDecision::Stationary => "画面静止"@,
        StitchDecision::Revisit => "回访已捕获区域"@,
        StitchDecision::Reanchored => "已重新定位"@,
        StitchDecision::Rejected => "正在寻找重叠"@,
        StitchDecision::Accepted => if shift > 0 {
            "↓ "@ + decimal(shift as nat) + " px"@
        } else if shift < 0 {
            "↑ "@ + decimal((-shift) as nat) + " px"@
        } else {
            "画面已更新"@
        },
    }
}

fn pixels(arrow: &str, n: u64) -> (s: String)
    ensures
        s@ == arrow@ + decimal(n as nat) + " px"@,
{
    let mut s = owned(arrow);
    let digits = decimal_of(n);
    s.append(digits.as_str());
    s.append(" px");
    s
}

/// How the picture moved.
pub fn motion_text(decision: StitchDecision, shift: i32) -> (s: String)
    ensures
        s@ == motion(decision, shift as int),
{
    match decision {
        StitchDecision::Seed => owned("首帧已就绪"),
        StitchDecision::Stationary => owned("画面静止"),
        StitchDecision::Revisit => owned("回访已捕获区域"),
        StitchDecision::Reanchored => owned("已重新定位"),
        StitchDecision::Rejected => owned("正在寻找重叠"),
        StitchDecision::Accepted => if shift > 0 {
            pixels("↓ ", shift as u64)
        } else if shift < 0 {
            let up: i64 = -(shift as i64);
            pixels("↑ ", up as u64)
        } else {
            owned("画面已更新")
        },
    }
}

/// Digits with a comma before every third one, counted from the end.
pub open spec fn grouped(digits: Seq<char>) -> Seq<char>
    decreases digits.len(),
{
    if digits.len() <= 3 {
        digits
    } else {
        grouped(digits.take(digits.len() - 3)) + seq![','] + digits.skip(digits.len() - 3)
    }
}

/// The digits before the given one, as they stand in the grouped number.
spec fn grouped_before(digits: Seq<char>, i: int) -> Seq<char>
    decreases i,
{
    if i <= 0 {
        Seq::empty()
    } else {
        let before = grouped_before(digits, i - 1);
        if i - 1 > 0 && (digits.len() - (i - 1)) % 3 == 0 {
            before.push(',').push(digits[i - 1])
        } else {
            before.push(digits[i - 1])
        }
    }
}

proof fn shorter_before(digits: Seq<char>, i: int)
    requires
        digits.len() > 3,
        0 <= i <= digits.len() - 3,
    ensures
        grouped_before(digits, i) == grouped_before(digits.take(digits.len() - 3), i),
    decreases i,
{
    if i > 0 {
        shorter_before(digits, i - 1);
    }
}

proof fn grouping_is_done(digits: Seq<char>)
    ensures
        grouped_before(digits, digits.len() as int) == grouped(digits),
    decreases digits.len(),
{
    let n = digits.len() as int;
    reveal_with_fuel(grouped_before, 5);
    if n <= 3 {
        assert(grouped_before(digits, n) =~= digits);
    } else {
        let head = digits.take(n - 3);
        grouping_is_done(head);
        shorter_before(digits, n - 3);
        assert(grouped_before(digits, n) =~= grouped_before(digits, n - 3).push(',').push(
            digits[n - 3],
        ).push(digits[n - 2]).push(digits[n - 1]));
        assert(digits.skip(n - 3) =~= seq![digits[n - 3], digits[n - 2], digits[n - 1]]);
        assert(grouped_before(digits, n) =~= grouped(head) + seq![','] + digits.skip(n - 3));
    }
}

/// A number with a comma before every third digit, counted from the end.
pub fn group_digits(value: usize) -> (s: String)
    ensures
        s@ == grouped(decimal(value as nat)),
{
    let text = decimal_of(value as u64);
    let digits = chars_of(text.as_str());
    let mut out = String::new();
    let mut i: usize = 0;
    assert(out@ =~= grouped_before(digits@, 0));
    while i < digits.len()
        invariant
            i <= digits@.len(),
            out@ == grouped_before(digits@, i as int),
        decreases digits.len() - i,
    {
        if i > 0 && (digits.len() - i) % 3 == 0 {
            out.push(',');
        }
        out.push(digits[i]);
        i = i + 1;
    }
    proof {
        grouping_is_done(digits@);
    }
    out
}

/// Commas are all that grouping adds.
pub proof fn grouping_keeps_the_digits(digits: Seq<char>)
    requires
        !digits.contains(','),
    ensures
        grouped(digits).filter(|c: char| c != ',') == digits,
    decreases digits.len(),
{
    let keep = |c: char| c != ',';
    if digits.len() <= 3 {
        assert forall|i: int| 0 <= i < digits.len() implies keep(#[trigger] digits[i]) by {
            assert(digits.contains(digits[i]));
        }
        keeps_all(digits, keep);
    } else {
        let n = digits.len() as int;
        let head = digits.take(n - 3);
        let tail = digits.skip(n - 3);
        assert forall|i: int| 0 <= i < head.len() implies #[trigger] head[i] != ',' by {
            assert(digits.contains(digits[i]));
        }
        grouping_keeps_the_digits(head);
        assert forall|i: int| 0 <= i < tail.len() implies keep(#[trigger] tail[i]) by {
            assert(digits.contains(digits[n - 3 + i]));
        }
        keeps_all(tail, keep);
        Seq::filter_distributes_over_add(grouped(head) + seq![','], tail, keep);
        Seq::filter_distributes_over_add(grouped(head), seq![','], keep);
        let comma = seq![','];
        assert(comma.filter(keep) =~= Seq::<char>::empty()) by {
            reveal_with_fuel(Seq::filter, 2);
            assert(!keep(comma.last()));
            assert(comma.drop_last() =~= Seq::<char>::empty());
        }
        assert(head + tail =~= digits);
    }
}

proof fn keeps_all(s: Seq<char>, keep: spec_fn(char) -> bool)
    requires
        forall|i: int| 0 <= i < s.len() ==> keep(#[trigger] s[i]),
    ensures
        s.filter(keep) == s,
    decreases s.len(),
{
    reveal(Seq::filter);
    if s.len() > 0 {
        let front = s.drop_last();
        assert forall|i: int| 0 <= i < front.len() implies keep(#[trigger] front[i]) by {
            assert(front[i] == s[i]);
        }
        keeps_all(front, keep);
        assert(front.push(s.last()) =~= s);
    }
}

/// A number of tenths with its decimal point.
pub open spec fn with_point(t: nat) -> Seq<char> {
    decimal(t / 10) + "."@ + decimal(t % 10)
}

/// The tenths of `value / d`, where both are first taken as doubles.
pub open spec fn ratio_tenths(value: nat, d: nat) -> nat {
    tenths(whole(value), d)
}

fn ratio_text(value: usize, d: u32) -> (s: String)
    requires
        d > 0,
    ensures
        s@ == with_point(ratio_tenths(value as nat, d as nat)),
{
    let n: u128 = large(value as u128, 1);
    proof {
        assert((1 * spacing(value as nat, 1)) as nat == spacing(value as nat, 1));
        assert(n == whole(value as nat));
    }
    let t: u128 = tenths_of(n, d as u128);
    let mut s = digits_of(t / 10);
    s.append(".");
    let last = digits_of(t % 10);
    s.append(last.as_str());
    s
}

/// The decimal digits of a number.
fn digits_of(n: u128) -> (s: String)
    ensures
        s@ == decimal(n as nat),
    decreases n,
{
    if n <= 0xffff_ffff_ffff_ffff {
        return decimal_of(n as u64);
    }
    let mut s = digits_of(n / 10);
    let last = decimal_of((n % 10) as u64);
    s.append(last.as_str());
    assert(s@ =~= decimal(n as nat));
    s
}

/// A height, in few characters.
pub open spec fn short_count(value: nat) -> Seq<char> {
    if value < 10_000 {
        grouped(decimal(value)) + " px"@
    } else if value < 1_000_000 {
        with_point(ratio_tenths(value, 1_000)) + "k"@
    } else {
        with_point(ratio_tenths(value, 1_000_000)) + "M"@
    }
}

/// A height, in few characters.
pub fn short_pixel_count(value: usize) -> (s: String)
    ensures
        s@ == short_count(value as nat),
{
    if value < 10_000 {
        let mut s = group_digits(value);
        s.append(" px");
        s
    } else if value < 1_000_000 {
        let mut s = ratio_text(value, 1_000);
        s.append("k");
        s
    } else {
        let mut s = ratio_text(value, 1_000_000);
        s.append("M");
        s
    }
}

/// The height of the canvas, in pixels and in heights of the selection.
pub fn metrics_text(captured_height: usize, selection_height: i32) -> (s: String)
    ensures
        s@ == grouped(decimal(captured_height as nat)) + " px · "@ + with_point(
            ratio_tenths(
                captured_height as nat,
                if selection_height < 1 {
                    1
                } else {
                    selection_height as nat
                },
            ),
        ) + " 屏"@,
{
    let height: u32 = if selection_height < 1 {
        1
    } else {
        selection_height as u32
    };
    let mut s = group_digits(captured_height);
    s.append(" px · ");
    let count = ratio_text(captured_height, height);
    s.append(count.as_str());
    s.append(" 屏");
    s
}

/// How many frames were looked at, used, and seen again.
pub fn details_text(processed: u64, used: u64, revisited: u64) -> (s: String)
    ensures
        s@ == decimal(processed as nat) + " 帧处理 · "@ + decimal(used as nat) + " 帧对齐 · "@
            + decimal(revisited as nat) + " 次回访"@,
{
    let mut s = decimal_of(processed);
    s.append(" 帧处理 · ");
    let n = decimal_of(used);
    s.append(n.as_str());
    s.append(" 帧对齐 · ");
    let m = decimal_of(revisited);
    s.append(m.as_str());
    s.append(" 次回访");
    s
}

proof fn commas_stand_between_threes(digits: Seq<char>, i: int)
    requires
        digits.len() > 0,
        !digits.contains(','),
        0 <= i < grouped(digits).len(),
    ensures
        grouped(digits).len() == digits.len() + (digits.len() - 1) / 3,
        grouped(digits)[grouped(digits).len() - 1 - i] == ',' <==> i % 4 == 3,
    decreases digits.len(),
{
    let n = digits.len() as int;
    let g = grouped(digits);
    if n <= 3 {
        assert(digits.contains(g[g.len() - 1 - i]));
    } else {
        let (front, back) = (digits.take(n - 3), digits.skip(n - 3));
        assert(!front.contains(',')) by {
            if front.contains(',') {
                let k = choose|k: int| 0 <= k < front.len() && front[k] == ',';
                assert(digits[k] == ',');
            }
        }
        let h = grouped(front);
        if i >= 4 {
            commas_stand_between_threes(front, i - 4);
            assert(g[g.len() - 1 - i] == h[h.len() - 1 - (i - 4)]);
        } else {
            if h.len() > 0 {
                commas_stand_between_threes(front, 0);
            }
            if i < 3 {
                assert(g[g.len() - 1 - i] == back[2 - i]);
                assert(back[2 - i] == digits[n - 1 - i]);
                assert(digits.contains(digits[n - 1 - i]));
            } else {
                assert(g[g.len() - 1 - i] == ',');
            }
        }
    }
}

/// A large number is written with its digits and a comma before each three of them from the end.
pub proof fn commas_part_the_thousands(value: usize, s: String, i: int)
    requires
        call_ensures(group_digits, (value,), s),
        0 <= i < s@.len(),
    ensures
        s@[s@.len() - 1 - i] == ',' <==> i % 4 == 3,
        s@.filter(|c: char| c != ',') == decimal(value as nat),
{
    let digits = decimal(value as nat);
    digits_are_no_commas(value as nat);
    commas_stand_between_threes(digits, i);
    grouping_keeps_the_digits(digits);
}

proof fn digits_are_no_commas(n: nat)
    ensures
        decimal(n).len() > 0,
        !decimal(n).contains(','),
    decreases n,
{
    if n >= 10 {
        digits_are_no_commas(n / 10);
        let (s, t) = (decimal(n), decimal(n / 10));
        if s.contains(',') {
            let k = choose|k: int| 0 <= k < s.len() && s[k] == ',';
            if k < t.len() {
                assert(t[k] == ',');
            }
        }
    }
}

/// A shift is told with its direction and its size, and only where a frame was taken on.
pub proof fn a_shift_is_told_with_its_direction(
    decision: StitchDecision,
    shift: i32,
    s: String,
)
    requires
        call_ensures(motion_text, (decision, shift), s),
    ensures
        decision is Accepted && shift > 0 ==> s@ == "↓ "@ + decimal(shift as nat) + " px"@,
        decision is Accepted && shift < 0 ==> s@ == "↑ "@ + decimal((-shift) as nat) + " px"@,
{
}

/// The hint that is shown is the one there is, and otherwise that sampling goes on.
pub proof fn a_hint_is_shown(daemon_managed: bool, hint: Option<Hint>, r: Hint)
    requires
        call_ensures(displayed_hint, (daemon_managed, hint), r),
    ensures
        hint matches Some(h) ==> r == h,
        hint is None ==> r is Sampling,
{
}

/// A count below ten thousand is told in full. A larger one is told in thousands or millions, to the
/// nearest tenth.
pub proof fn a_count_is_told_to_the_tenth(value: usize, s: String, full: String)
    requires
        call_ensures(short_pixel_count, (value,), s),
        call_ensures(group_digits, (value,), full),
        value <= 0x400_0000_0000,
    ensures
        value < 10_000 ==> s@ == full@ + " px"@,
        10_000 <= value < 1_000_000 ==> exists|t: nat|
            s@ == #[trigger] decimal(t / 10) + "."@ + decimal(t % 10) + "k"@ && -51 <= 100 * t
                - value <= 51,
        value >= 1_000_000 ==> exists|t: nat|
            s@ == #[trigger] decimal(t / 10) + "."@ + decimal(t % 10) + "M"@ && -50_977 <= 100_000
                * t - value <= 50_977,
{
    let v = value as nat;
    crate::binary64::an_integer_is_itself(v);
    if 10_000 <= value < 1_000_000 {
        crate::binary64::tenths_are_close(v, 1_000);
        let t = tenths(v, 1_000);
        assert(s@ == decimal(t / 10) + "."@ + decimal(t % 10) + "k"@);
        assert(-51 <= 100 * t - value <= 51);
    }
    if value >= 1_000_000 {
        crate::binary64::tenths_are_close(v, 1_000_000);
        let t = tenths(v, 1_000_000);
        assert(s@ == decimal(t / 10) + "."@ + decimal(t % 10) + "M"@);
    }
}

/// The height is told in pixels and in screens, to the nearest tenth of one.
pub proof fn a_height_is_told_in_screens(height: usize, screen: i32, s: String, full: String)
    requires
        call_ensures(metrics_text, (height, screen), s),
        call_ensures(group_digits, (height,), full),
        0 < height <= 0x400_0000_0000,
        screen >= 1,
    ensures
        exists|t: nat|
            s@ == full@ + " px · "@ + (#[trigger] decimal(t / 10) + "."@ + decimal(t % 10)) + " 屏"@
                && -522 * screen <= 1024 * (t * screen - 10 * height) <= 522 * screen,
{
    let v = height as nat;
    crate::binary64::an_integer_is_itself(v);
    crate::binary64::tenths_are_close(v, screen as nat);
    let t = tenths(v, screen as nat);
    assert(s@ == full@ + " px · "@ + (decimal(t / 10) + "."@ + decimal(t % 10)) + " 屏"@);
}

} // verus!
