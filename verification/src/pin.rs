//! The window that keeps a picture on the screen: its sizes, its keys and what it says.
//!
//! Sizes are scaled in double-precision arithmetic, which is written out here in integers.

use vstd::prelude::*;

use crate::binary64::{double, large, mantissa, spacing, unit, unit_is_a_power, whole};
use crate::preview::{a_length_is_scaled, ratio, scaled_within, times, times_ratio};
use crate::text::{decimal, decimal_of, owned, same};

verus! {

/// The least width of the window.
pub const MIN_WIDTH: i32 = 80;

/// The least height of the window.
pub const MIN_HEIGHT: i32 = 60;

/// The greatest width of the window at first, if the monitor is not known.
pub const UNKNOWN_WIDTH: i32 = 1600;

/// The greatest height of the window at first, if the monitor is not known.
pub const UNKNOWN_HEIGHT: i32 = 900;

/// A length times a fraction, in double-precision arithmetic, cut to an integer.
pub open spec fn cut(side: nat, n: nat, d: nat) -> nat {
    if n == 0 {
        0
    } else {
        whole(side * mantissa(n, d)) / unit(n, d)
    }
}

/// At least so much.
pub open spec fn at_least(n: int, least: int) -> int {
    if n < least {
        least
    } else {
        n
    }
}

/// The fraction by which a picture of `w` by `h` is shrunk into a box of `mw` by `mh`: the lesser
/// of the fractions of its sides. A side without length has none.
pub open spec fn shrinking(w: nat, h: nat, mw: nat, mh: nat) -> (nat, nat) {
    if w == 0 || (h > 0 && mw * h > mh * w) {
        (mh, h)
    } else {
        (mw, w)
    }
}

/// The size of a window for a picture of `w` by `h` that may be as large as `mw` by `mh`: that of
/// the picture if it fits, or else smaller in the same shape; but never less than the least.
pub open spec fn opening_size(w: nat, h: nat, mw: nat, mh: nat) -> (int, int) {
    if w <= mw && h <= mh {
        (at_least(w as int, MIN_WIDTH as int), at_least(h as int, MIN_HEIGHT as int))
    } else {
        let (n, d) = shrinking(w, h, mw, mh);
        (
            at_least(cut(w, n, d) as int, MIN_WIDTH as int),
            at_least(cut(h, n, d) as int, MIN_HEIGHT as int),
        )
    }
}

/// How large the window may be at first: nine tenths of the monitor.
pub open spec fn room(monitor: Option<(i32, i32)>) -> (nat, nat) {
    match monitor {
        Some((w, h)) => (cut(w as nat, 9, 10), cut(h as nat, 9, 10)),
        None => (UNKNOWN_WIDTH as nat, UNKNOWN_HEIGHT as nat),
    }
}

proof fn cut_within(side: nat, n: nat, d: nat, bound: nat)
    requires
        side <= 0xffff_ffff,
        0 < n <= d,
        side * n <= bound * d,
    ensures
        cut(side, n, d) <= bound,
{
    scaled_within(side, n, d, bound);
    let x = whole(side * mantissa(n, d));
    let u = unit(n, d);
    unit_is_a_power(n, d);
    assert(x / u <= (2 * x + u) / (2 * u)) by (nonlinear_arith)
        requires
            u > 0,
    ;
}

proof fn cut_is_less(side: nat, n: nat, d: nat)
    requires
        side <= 0xffff_ffff,
        n <= d,
    ensures
        cut(side, n, d) <= side,
{
    if n > 0 {
        assert(side * n <= side * d) by (nonlinear_arith)
            requires
                n <= d,
        ;
        cut_within(side, n, d, side);
    }
}

fn cut_of(side: i32, n: i32, d: i32) -> (r: i32)
    requires
        0 <= side,
        0 <= n <= d,
        0 < d,
    ensures
        r == cut(side as nat, n as nat, d as nat),
        0 <= r <= side,
{
    proof {
        cut_is_less(side as nat, n as nat, d as nat);
    }
    if n == 0 {
        return 0;
    }
    let r = ratio(n as usize, d as usize);
    assert(side * r.mantissa <= 0x7fff_ffff * 9007199254740992) by (nonlinear_arith)
        requires
            side <= 0x7fff_ffff,
            r.mantissa <= 9007199254740992,
    ;
    let product: u128 = side as u128 * r.mantissa;
    let rounded: u128 = large(product, 1);
    assert((1 * spacing(product as nat, 1)) as nat == spacing(product as nat, 1));
    (rounded / r.unit) as i32
}

fn larger(n: i32, least: i32) -> (r: i32)
    ensures
        r == at_least(n as int, least as int),
{
    if n < least {
        least
    } else {
        n
    }
}

/// The size of the window at first: that of the picture if it fits on the monitor, or else smaller
/// in the same shape.
pub fn initial_window_size(width: usize, height: usize, monitor: Option<(i32, i32)>) -> (r: (
    i32,
    i32,
))
    requires
        width <= i32::MAX,
        height <= i32::MAX,
        monitor matches Some((w, h)) ==> w >= 0 && h >= 0,
    ensures
        (r.0 as int, r.1 as int) == opening_size(
            width as nat,
            height as nat,
            room(monitor).0,
            room(monitor).1,
        ),
{
    let (mw, mh): (i32, i32) = match monitor {
        Some((w, h)) => (cut_of(w, 9, 10), cut_of(h, 9, 10)),
        None => (UNKNOWN_WIDTH, UNKNOWN_HEIGHT),
    };
    let w: i32 = width as i32;
    let h: i32 = height as i32;
    if w <= mw && h <= mh {
        return (larger(w, MIN_WIDTH), larger(h, MIN_HEIGHT));
    }
    assert(mw * h <= 0x7fff_ffff * 0x7fff_ffff && mh * w <= 0x7fff_ffff * 0x7fff_ffff)
        by (nonlinear_arith)
        requires
            0 <= mw <= 0x7fff_ffff,
            0 <= mh <= 0x7fff_ffff,
            0 <= w <= 0x7fff_ffff,
            0 <= h <= 0x7fff_ffff,
    ;
    let tall: bool = w == 0 || (h > 0 && mw as i64 * h as i64 > mh as i64 * w as i64);
    let (n, d): (i32, i32) = if tall {
        (mh, h)
    } else {
        (mw, w)
    };
    proof {
        shrinking_shrinks(w as nat, h as nat, mw as nat, mh as nat);
    }
    (larger(cut_of(w, n, d), MIN_WIDTH), larger(cut_of(h, n, d), MIN_HEIGHT))
}

proof fn shrinking_shrinks(w: nat, h: nat, mw: nat, mh: nat)
    requires
        w > mw || h > mh,
    ensures
        shrinking(w, h, mw, mh).0 < shrinking(w, h, mw, mh).1,
{
    if !(w == 0 || (h > 0 && mw * h > mh * w)) {
        if w <= mw {
            assert(mw * h > mh * w) by (nonlinear_arith)
                requires
                    w <= mw,
                    0 < w,
                    h > mh,
            ;
        }
    } else if w > 0 && h <= mh {
        assert(mw * h <= mh * w) by (nonlinear_arith)
            requires
                w > mw,
                h <= mh,
        ;
    }
}

/// The window at first keeps to its room, unless that is less than the least window.
pub proof fn the_window_keeps_to_its_room(w: nat, h: nat, mw: nat, mh: nat)
    requires
        w <= i32::MAX,
        h <= i32::MAX,
    ensures
        opening_size(w, h, mw, mh).0 <= at_least(mw as int, MIN_WIDTH as int),
        opening_size(w, h, mw, mh).1 <= at_least(mh as int, MIN_HEIGHT as int),
        opening_size(w, h, mw, mh).0 >= MIN_WIDTH,
        opening_size(w, h, mw, mh).1 >= MIN_HEIGHT,
{
    if w > mw || h > mh {
        shrinking_shrinks(w, h, mw, mh);
        let (n, d) = shrinking(w, h, mw, mh);
        if n > 0 {
            assert(w * n <= mw * d && h * n <= mh * d) by (nonlinear_arith)
                requires
                    (n == mh && d == h && (w == 0 || mw * h > mh * w)) || (n == mw && d == w && (h
                        == 0 || mw * h <= mh * w)),
            ;
            cut_within(w, n, d, mw);
            cut_within(h, n, d, mh);
        }
    }
}

/// A picture that fits opens as it is.
pub proof fn a_fitting_picture_opens_as_it_is(w: nat, h: nat, mw: nat, mh: nat)
    requires
        MIN_WIDTH <= w <= mw,
        MIN_HEIGHT <= h <= mh,
    ensures
        opening_size(w, h, mw, mh) == (w as int, h as int),
{
}

/// A length of the window one step larger or smaller: eleven tenths of it, or that part of it whose
/// eleven tenths it is.
pub open spec fn stepped(side: nat, up: bool) -> nat {
    if up {
        times_ratio(side, 11, 10)
    } else {
        times_ratio(side, unit(11, 10), mantissa(11, 10))
    }
}

/// At most what 31 bits hold.
pub open spec fn held(n: nat) -> int {
    if n > i32::MAX {
        i32::MAX as int
    } else {
        n as int
    }
}

fn step_by(side: i32, up: bool) -> (r: i32)
    requires
        0 <= side,
    ensures
        r == held(stepped(side as nat, up)),
{
    let tenths = ratio(11, 10);
    let factor = if up {
        tenths
    } else {
        let u: u128 = tenths.unit;
        let m: u128 = tenths.mantissa;
        assert(4000000000000000 <= u <= 9007199254740992) by (nonlinear_arith)
            requires
                10 * 4503599627370496 <= u * 11,
                u * 11 < 10 * 4503599627370496 * 2,
        ;
        let inverse = double(u, m);
        proof {
            unit_is_a_power(u as nat, m as nat);
            let v = inverse.unit;
            assert(v < 0x20_0000_0000_0000_0000_0000) by (nonlinear_arith)
                requires
                    v * u < m * 4503599627370496 * 2,
                    4000000000000000 <= u,
                    m <= 9007199254740992,
            ;
        }
        inverse
    };
    let p: u128 = times(side as usize, &factor);
    if p > 0x7fff_ffff {
        i32::MAX
    } else {
        p as i32
    }
}

/// The size of the window one step larger or smaller.
pub fn zoom_window(width: i32, height: i32, up: bool) -> (r: (i32, i32))
    requires
        0 <= width,
        0 <= height,
    ensures
        r.0 == at_least(held(stepped(width as nat, up)), MIN_WIDTH as int),
        r.1 == at_least(held(stepped(height as nat, up)), MIN_HEIGHT as int),
{
    (larger(step_by(width, up), MIN_WIDTH), larger(step_by(height, up), MIN_HEIGHT))
}

/// What can be done with the picture.
#[derive(Debug, Clone, Copy, PartialEq, Eq, Structural)]
pub enum PinAction {
    Copy,
    Save,
    Reset,
    Close,
}

/// What a key does.
pub fn key_action(key: &str) -> (r: Option<PinAction>)
    ensures
        r == if key@ == "Escape"@ || key@ == "q"@ {
            Some(PinAction::Close)
        } else if key@ == "c"@ {
            Some(PinAction::Copy)
        } else if key@ == "s"@ {
            Some(PinAction::Save)
        } else if key@ == "0"@ {
            Some(PinAction::Reset)
        } else {
            None
        },
{
    if same(key, "Escape") || same(key, "q") {
        Some(PinAction::Close)
    } else if same(key, "c") {
        Some(PinAction::Copy)
    } else if same(key, "s") {
        Some(PinAction::Save)
    } else if same(key, "0") {
        Some(PinAction::Reset)
    } else {
        None
    }
}

impl PinAction {
    /// The entry of the menu.
    pub fn label(self) -> (s: &'static str)
        ensures
            s@ == match self {
                PinAction::Copy => "复制"@,
                PinAction::Save => "保存"@,
                PinAction::Reset => "重置缩放"@,
                PinAction::Close => "关闭"@,
            },
    {
        match self {
            PinAction::Copy => "复制",
            PinAction::Save => "保存",
            PinAction::Reset => "重置缩放",
            PinAction::Close => "关闭",
        }
    }
}

/// What is said of the scale of the picture, in percent.
pub fn scale_toast(percent: u64) -> (s: String)
    ensures
        s@ == "缩放  "@ + decimal(percent as nat) + "%"@,
{
    let mut s = owned("缩放  ");
    let digits = decimal_of(percent);
    s.append(digits.as_str());
    s.append("%");
    s
}

/// What is said of the size of the window.
pub fn window_toast(width: u32, height: u32) -> (s: String)
    ensures
        s@ == "窗口  "@ + decimal(width as nat) + " × "@ + decimal(height as nat),
{
    let mut s = owned("窗口  ");
    let w = decimal_of(width as u64);
    let h = decimal_of(height as u64);
    s.append(w.as_str());
    s.append(" × ");
    s.append(h.as_str());
    s
}

/// What is said after the picture was copied or could not be, and whether it is an error.
pub fn copy_toast(result: Result<(), String>) -> (r: (String, bool))
    ensures
        match result {
            Ok(_) => r.0@ == "已复制到剪贴板"@ && !r.1,
            Err(error) => r.0@ == "复制失败："@ + error@ && r.1,
        },
{
    match result {
        Ok(_) => (owned("已复制到剪贴板"), false),
        Err(error) => {
            let mut s = owned("复制失败：");
            s.append(error.as_str());
            (s, true)
        },
    }
}

/// What is said after the picture was saved under a name or could not be, and whether it is an
/// error.
pub fn save_toast(result: Result<String, String>) -> (r: (String, bool))
    ensures
        match result {
            Ok(name) => r.0@ == "已保存  "@ + name@ && !r.1,
            Err(error) => r.0@ == "保存失败："@ + error@ && r.1,
        },
{
    match result {
        Ok(name) => {
            let mut s = owned("已保存  ");
            s.append(name.as_str());
            (s, false)
        },
        Err(error) => {
            let mut s = owned("保存失败：");
            s.append(error.as_str());
            (s, true)
        },
    }
}

proof fn a_cut_length_is_close(side: nat, n: nat, d: nat)
    requires
        side <= 0xffff_ffff,
        0 < n <= 2 * d,
    ensures
        -1025 * d < 1024 * (cut(side, n, d) * d - side * n) <= d,
{
    a_length_is_scaled(side, n, d);
    let u = unit(n, d) as int;
    let x = whole(side * mantissa(n, d)) as int;
    let c = cut(side, n, d) as int;
    assert(c * u <= x < c * u + u) by (nonlinear_arith)
        requires
            c == x / u,
            u > 0,
    ;
    let cu = c * u;
    let sn = side * n;
    let gap = c * d - sn;
    assert(1024 * (cu * d - sn * u) <= d * u && 1024 * (cu * d - sn * u) > -(1025 * (d * u)))
        by (nonlinear_arith)
        requires
            cu <= x < cu + u,
            -(d * u) <= 1024 * (x * d - sn * u) <= d * u,
            d > 0,
            u > 0,
    ;
    assert(gap * u == cu * d - sn * u) by (nonlinear_arith)
        requires
            gap == c * d - sn,
            cu == c * u,
    ;
    assert(-1025 * d < 1024 * gap <= d) by (nonlinear_arith)
        requires
            1024 * (gap * u) <= d * u,
            1024 * (gap * u) > -(1025 * (d * u)),
            u > 0,
    ;
}

/// The window opens within nine tenths of the screen, or at its least size, and a picture that fits
/// there opens as it is. A larger one keeps its proportions, to a pixel each way, unless that would be
/// less than the least size.
pub proof fn a_window_opens_within_the_screen(
    width: usize,
    height: usize,
    monitor: (i32, i32),
    r: (i32, i32),
)
    requires
        call_ensures(initial_window_size, (width, height, Some(monitor)), r),
        0 < width <= i32::MAX,
        0 < height <= i32::MAX,
        2 <= monitor.0 && 2 <= monitor.1,
    ensures
        r.0 >= 80 && r.1 >= 60,
        10 * r.0 <= 9 * monitor.0 || r.0 == 80,
        10 * r.1 <= 9 * monitor.1 || r.1 == 60,
        10 * width + 10 <= 9 * monitor.0 && 10 * height + 10 <= 9 * monitor.1 ==> (r.0 == width
            || (r.0 == 80 && width < 80)) && (r.1 == height || (r.1 == 60 && height < 60)),
        r.0 <= width || r.0 == 80,
        r.1 <= height || r.1 == 60,
        r.0 > 80 && r.1 > 60 ==> -1026 * (width + height) <= 1024 * (r.0 * height - r.1 * width)
            <= 1026 * (width + height),
        10 * width > 9 * monitor.0 || 10 * height > 9 * monitor.1 ==> r.0 == 80 || r.1 == 60 || 10
            * r.0 + 21 >= 9 * monitor.0 || 10 * r.1 + 21 >= 9 * monitor.1,
{
    let (w, h) = (width as nat, height as nat);
    let (sw, sh) = (monitor.0 as nat, monitor.1 as nat);
    a_cut_length_is_close(sw, 9, 10);
    a_cut_length_is_close(sh, 9, 10);
    let (mw, mh) = (room(Some(monitor)).0, room(Some(monitor)).1);
    assert(mw >= 1 && mh >= 1);
    the_window_keeps_to_its_room(w, h, mw, mh);
    if !(w <= mw && h <= mh) {
        let (n, d) = shrinking(w, h, mw, mh);
        shrinking_shrinks(w, h, mw, mh);
        cut_is_less(w, n, d);
        cut_is_less(h, n, d);
        a_cut_length_is_close(w, n, d);
        a_cut_length_is_close(h, n, d);
        let (x, y) = (cut(w, n, d) as int, cut(h, n, d) as int);
        let e = 1024 * (x * d - w * n);
        let f = 1024 * (y * d - h * n);
        let diff = 1024 * (x * h - y * w);
        assert(diff * d == e * h - f * w) by (nonlinear_arith)
            requires
                e == 1024 * (x * d - w * n),
                f == 1024 * (y * d - h * n),
                diff == 1024 * (x * h - y * w),
        ;
        assert(-1026 * (w + h) <= diff <= 1026 * (w + h)) by (nonlinear_arith)
            requires
                diff * d == e * h - f * w,
                -1025 * d < e <= d,
                -1025 * d < f <= d,
                d > 0,
                w > 0,
                h > 0,
        ;
        a_side_fills_its_room(w, h, mw, mh);
        if r.0 > 80 && r.1 > 60 {
            assert(r.0 == x && r.1 == y);
            assert(r.0 * height == x * h && r.1 * width == y * w);
        }
    } else {
        if r.0 > 80 && r.1 > 60 {
            assert(r.0 == w && r.1 == h);
            assert(r.0 * height == r.1 * width) by (nonlinear_arith)
                requires
                    r.0 == width,
                    r.1 == height,
            ;
        }
    }
}

proof fn a_side_fills_its_room(w: nat, h: nat, mw: nat, mh: nat)
    requires
        0 < w <= i32::MAX,
        0 < h <= i32::MAX,
        0 < mw,
        0 < mh,
        w > mw || h > mh,
    ensures
        ({
            let (n, d) = shrinking(w, h, mw, mh);
            cut(w, n, d) + 1 >= mw || cut(h, n, d) + 1 >= mh
        }),
{
    let (n, d) = shrinking(w, h, mw, mh);
    shrinking_shrinks(w, h, mw, mh);
    if w == 0 || (h > 0 && mw * h > mh * w) {
        a_cut_length_is_close(h, n, d);
        let c = cut(h, n, d) as int;
        assert(c + 1 >= n) by (nonlinear_arith)
            requires
                -1025 * d < 1024 * (c * d - h * n),
                d == h,
                h > 0,
        ;
    } else {
        a_cut_length_is_close(w, n, d);
        let c = cut(w, n, d) as int;
        assert(c + 1 >= n) by (nonlinear_arith)
            requires
                -1025 * d < 1024 * (c * d - w * n),
                d == w,
                w > 0,
        ;
    }
}

/// A step up makes the window a tenth larger, and a step down that much smaller, to the nearest
/// pixel. It stays at least as large as it must be.
pub proof fn a_zoom_step_is_a_tenth(width: i32, height: i32, up: (i32, i32), down: (i32, i32))
    requires
        call_ensures(zoom_window, (width, height, true), up),
        call_ensures(zoom_window, (width, height, false), down),
        0 <= width <= 1_000_000_000,
        0 <= height <= 1_000_000_000,
    ensures
        up.0 >= 80 && up.1 >= 60 && down.0 >= 80 && down.1 >= 60,
        up.0 == 80 || -6 <= 10 * up.0 - 11 * width <= 6,
        up.1 == 60 || -6 <= 10 * up.1 - 11 * height <= 6,
        down.0 == 80 || -6 <= 11 * down.0 - 10 * width <= 6,
        down.1 == 60 || -6 <= 11 * down.1 - 10 * height <= 6,
        width >= 80 ==> up.0 > width,
        height >= 60 ==> up.1 > height,
        width > 88 ==> down.0 < width,
        height > 66 ==> down.1 < height,
{
    a_step_is_a_tenth(width as nat);
    a_step_is_a_tenth(height as nat);
}

proof fn a_step_is_a_tenth(side: nat)
    requires
        side <= 1_000_000_000,
    ensures
        -6 < 10 * stepped(side, true) - 11 * side < 6,
        -6 < 11 * stepped(side, false) - 10 * side < 6,
{
    a_length_is_scaled(side, 11, 10);
    let (m, u) = (mantissa(11, 10) as int, unit(11, 10) as int);
    crate::binary64::a_number_is_close(11, 10);
    crate::binary64::a_unit_is_small(11, 10);
    assert(-10 <= 2 * (m * 10) - 2 * (11 * u) <= 10);
    assert(11 * u >= 10 * 4503599627370496);
    assert(u <= m <= 2 * u);
    a_length_is_scaled(side, u as nat, m as nat);
    let t = stepped(side, false) as int;
    let s = side as int;
    let gap = 11 * t - 10 * s;
    // In units of eleven tenths the step back is exact but for the rounding.
    assert(10 * (t * m - s * u) == u * gap + t * (10 * m - 11 * u)) by (nonlinear_arith)
        requires
            gap == 11 * t - 10 * s,
    ;
    let e = 10 * m - 11 * u;
    assert(-5 <= e <= 5);
    assert(0 <= t <= 2 * s + 2) by (nonlinear_arith)
        requires
            1024 * (t * m - s * u) <= 513 * m,
            u <= m,
            m > 0,
            t >= 0,
            s >= 0,
    ;
    assert(-5 * t <= t * e <= 5 * t) by (nonlinear_arith)
        requires
            -5 <= e <= 5,
            t >= 0,
    ;
    let k = t * m - s * u;
    assert(-513 * m <= 1024 * k <= 513 * m);
    assert(-6 < gap < 6) by (nonlinear_arith)
        requires
            10 * k == u * gap + t * e,
            -513 * m <= 1024 * k <= 513 * m,
            -5 * t <= t * e <= 5 * t,
            t <= 2_000_000_002,
            10 * m <= 11 * u + 5,
            11 * u >= 10 * 4503599627370496,
    ;
}

/// Each key does one thing: Escape and q close, c copies, s saves, 0 resets.
pub proof fn keys_act_on_the_picture(key: &str, r: Option<PinAction>)
    requires
        call_ensures(key_action, (key,), r),
    ensures
        key@ == "Escape"@ || key@ == "q"@ ==> r == Some(PinAction::Close),
        key@ == "c"@ ==> r == Some(PinAction::Copy),
        key@ == "s"@ ==> r == Some(PinAction::Save),
        key@ == "0"@ ==> r == Some(PinAction::Reset),
        r is Some ==> key@ == "Escape"@ || key@ == "q"@ || key@ == "c"@ || key@ == "s"@ || key@
            == "0"@,
{
    reveal_strlit("Escape");
    reveal_strlit("q");
    reveal_strlit("c");
    reveal_strlit("s");
    reveal_strlit("0");
    assert("Escape"@.len() == 6 && "q"@.len() == 1 && "c"@.len() == 1);
    assert("q"@[0] == 'q' && "c"@[0] == 'c' && "s"@[0] == 's' && "0"@[0] == '0');
}

/// A failed copy or save is told as an error with its reason, and one that succeeded is not.
pub proof fn failures_are_told(
    copied: Result<(), String>,
    c: (String, bool),
    saved: Result<String, String>,
    s: (String, bool),
)
    requires
        call_ensures(copy_toast, (copied,), c),
        call_ensures(save_toast, (saved,), s),
    ensures
        c.1 <==> copied is Err,
        s.1 <==> saved is Err,
        copied matches Err(e) ==> c.0@.len() >= e@.len() && c.0@.skip(c.0@.len() - e@.len())
            == e@,
        saved matches Err(e) ==> s.0@.len() >= e@.len() && s.0@.skip(s.0@.len() - e@.len()) == e@,
        saved matches Ok(n) ==> s.0@.len() >= n@.len() && s.0@.skip(s.0@.len() - n@.len()) == n@,
{
    if let Err(e) = copied {
        assert(c.0@.skip(c.0@.len() - e@.len()) =~= e@);
    }
    match saved {
        Ok(n) => {
            assert(s.0@.skip(s.0@.len() - n@.len()) =~= n@);
        },
        Err(e) => {
            assert(s.0@.skip(s.0@.len() - e@.len()) =~= e@);
        },
    }
}

} // verus!
