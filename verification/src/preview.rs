//! The live picture on the panel of a long shot: which part of a frame it shows, how large, and how
//! often.

use vstd::prelude::*;

use crate::binary64::{
    Double, HIDDEN_BIT, double, half_up, is_power, large, mantissa, nearest_even, power_doubles,
    powers_are_apart, round_half_up, spacing, unit, unit_is_a_power, whole,
};
use crate::gray::Rgb8;

verus! {

/// The width of the live picture.
pub const PREVIEW_W: usize = 240;

/// The height of the live picture.
pub const PREVIEW_H: usize = 86;

/// The least time between two live pictures, in nanoseconds.
pub const LIVE_PREVIEW_INTERVAL: u64 = 80_000_000;

/// The least of `mw / w`, `mh / h` and one, as a fraction.
pub open spec fn least_ratio(w: nat, h: nat, mw: nat, mh: nat) -> (nat, nat) {
    let r = if mw * h <= mh * w {
        (mw, w)
    } else {
        (mh, h)
    };
    if r.0 < r.1 {
        r
    } else {
        (1, 1)
    }
}

/// A length times a fraction, in double-precision arithmetic, as the nearest integer.
pub open spec fn times_ratio(side: nat, n: nat, d: nat) -> nat {
    half_up(whole(side * mantissa(n, d)), unit(n, d))
}

/// A length divided by a fraction, in double-precision arithmetic, as the nearest integer.
pub open spec fn over_ratio(side: nat, n: nat, d: nat) -> nat {
    let num = side * unit(n, d);
    let den = mantissa(n, d);
    half_up(mantissa(num, den), unit(num, den))
}

/// At least one.
pub open spec fn positive(n: nat) -> nat {
    if n < 1 {
        1
    } else {
        n
    }
}

/// The size of a picture that fits into a box with its shape kept, and is never enlarged.
pub open spec fn preview_size(w: nat, h: nat, mw: nat, mh: nat) -> (nat, nat) {
    let (n, d) = least_ratio(w, h, mw, mh);
    (positive(times_ratio(w, n, d)), positive(times_ratio(h, n, d)))
}

proof fn unit_bounds(n: nat, d: nat, u: int)
    requires
        0 < n <= 0xffff_ffff,
        0 < d <= 0xffff_ffff,
        d * HIDDEN_BIT <= u * n < d * HIDDEN_BIT * 2,
    ensures
        2 <= u,
        u < 0x20_0000_0000_0000_0000_0000,
{
    assert(2 <= u) by (nonlinear_arith)
        requires
            0 < n <= 0xffff_ffff,
            1 <= d,
            d * 4503599627370496 <= u * n,
    ;
    assert(u < 0x20_0000_0000_0000_0000_0000) by (nonlinear_arith)
        requires
            1 <= n,
            d <= 0xffff_ffff,
            u * n < d * 4503599627370496 * 2,
            0 < u,
    ;
}

/// The double nearest to a fraction of two lengths.
pub fn ratio(n: usize, d: usize) -> (r: Double)
    requires
        0 < n <= 0xffff_ffff,
        0 < d <= 0xffff_ffff,
    ensures
        r.is_nearest(n as nat, d as nat),
        r.normal(),
        d * HIDDEN_BIT <= r.unit * n < d * HIDDEN_BIT * 2,
        2 <= r.unit < 0x20_0000_0000_0000_0000_0000,
{
    assert(n < d * HIDDEN_BIT * 2) by (nonlinear_arith)
        requires
            n <= 0xffff_ffff,
            1 <= d,
            HIDDEN_BIT == 4503599627370496,
    ;
    assert(d <= n * HIDDEN_BIT) by (nonlinear_arith)
        requires
            d <= 0xffff_ffff,
            1 <= n,
            HIDDEN_BIT == 4503599627370496,
    ;
    let r = double(n as u128, d as u128);
    proof {
        unit_is_a_power(n as nat, d as nat);
        unit_bounds(n as nat, d as nat, r.unit as int);
    }
    r
}

/// A length times a double, as the nearest integer.
pub fn times(side: usize, r: &Double) -> (p: u128)
    requires
        side <= 0xffff_ffff,
        r.normal(),
        r.unit < 0x20_0000_0000_0000_0000_0000,
    ensures
        p == half_up(whole((side * r.mantissa) as nat), r.unit as nat),
{
    assert(side * r.mantissa <= 0xffff_ffff * 9007199254740992) by (nonlinear_arith)
        requires
            side <= 0xffff_ffff,
            r.mantissa <= 9007199254740992,
    ;
    let product: u128 = side as u128 * r.mantissa;
    let rounded: u128 = large(product, 1);
    assert((1 * spacing(product as nat, 1)) as nat == spacing(product as nat, 1));
    round_half_up(rounded, r.unit)
}

fn at_least_one(n: u128) -> (r: u128)
    ensures
        r == positive(n as nat),
{
    if n < 1 {
        1
    } else {
        n
    }
}

/// The size of a frame on the panel: within the given bounds, with its shape kept, and never
/// enlarged.
pub fn live_preview_size(frame: &Rgb8, max_width: usize, max_height: usize) -> (r: Option<
    (usize, usize),
>)
    requires
        frame.width <= 0xffff_ffff,
        frame.height <= 0xffff_ffff,
        max_width <= 0xffff_ffff,
        max_height <= 0xffff_ffff,
    ensures
        match r {
            None => frame.width == 0 || frame.height == 0 || max_width == 0 || max_height == 0,
            Some((w, h)) => {
                &&& frame.width > 0 && frame.height > 0 && max_width > 0 && max_height > 0
                &&& (w as nat, h as nat) == preview_size(
                    frame.width as nat,
                    frame.height as nat,
                    max_width as nat,
                    max_height as nat,
                )
                &&& 1 <= w <= frame.width
                &&& 1 <= h <= frame.height
            },
        },
{
    if frame.is_empty() || max_width == 0 || max_height == 0 {
        return None;
    }
    let w: usize = frame.width;
    let h: usize = frame.height;
    assert(max_width * h <= 0xffff_ffff * 0xffff_ffff) by (nonlinear_arith)
        requires
            max_width <= 0xffff_ffff,
            h <= 0xffff_ffff,
    ;
    assert(max_height * w <= 0xffff_ffff * 0xffff_ffff) by (nonlinear_arith)
        requires
            max_height <= 0xffff_ffff,
            w <= 0xffff_ffff,
    ;
    let wide: bool = max_width as u128 * h as u128 <= max_height as u128 * w as u128;
    let n: usize = if wide {
        max_width
    } else {
        max_height
    };
    let d: usize = if wide {
        w
    } else {
        h
    };
    let (n, d): (usize, usize) = if n < d {
        (n, d)
    } else {
        (1, 1)
    };
    let scale = ratio(n, d);
    let across: u128 = at_least_one(times(w, &scale));
    let down: u128 = at_least_one(times(h, &scale));
    proof {
        assert((n as nat, d as nat) == least_ratio(
            w as nat,
            h as nat,
            max_width as nat,
            max_height as nat,
        ));
        scaling_never_enlarges(w as nat, n as nat, d as nat);
        scaling_never_enlarges(h as nat, n as nat, d as nat);
    }
    Some((across as usize, down as usize))
}

proof fn spacing_is_a_power(n: nat, d: nat)
    requires
        d > 0,
    ensures
        is_power(spacing(n, d)),
        spacing(n, d) == 1 || n >= d * spacing(n, d) * HIDDEN_BIT,
        n < d * spacing(n, d) * HIDDEN_BIT * 2,
    decreases n - d,
{
    if n >= d * HIDDEN_BIT * 2 {
        spacing_is_a_power(n, 2 * d);
        let s = spacing(n, 2 * d);
        power_doubles(s);
        assert(d * (2 * s) * HIDDEN_BIT == (2 * d) * s * HIDDEN_BIT) by (nonlinear_arith);
        assert(s == 1 ==> d * (2 * s) * HIDDEN_BIT == d * HIDDEN_BIT * 2) by (nonlinear_arith);
    }
}

proof fn smaller_power_divides(a: nat, b: nat)
    requires
        is_power(a),
        is_power(b),
        a <= b,
    ensures
        b % a == 0,
    decreases b,
{
    if a < b {
        powers_are_apart(a, b);
        smaller_power_divides(a, b / 2);
        assert(b % a == 0) by (nonlinear_arith)
            requires
                (b / 2) % a == 0,
                b % 2 == 0,
                a > 0,
        {
            let k = (b / 2) / a;
            assert(b / 2 == k * a);
            assert(b == (2 * k) * a);
            vstd::arithmetic::div_mod::lemma_mod_multiples_basic(2 * k as int, a as int);
        }
    } else {
        vstd::arithmetic::div_mod::lemma_mod_self_0(a as int);
    }
}

proof fn rounding_stays_below(p: nat, q: nat, s: nat)
    requires
        s > 0,
        p <= q,
        q % s == 0,
    ensures
        nearest_even(p, s) * s <= q,
{
    let k = q / s;
    assert(q == k * s) by (nonlinear_arith)
        requires
            k == q / s,
            q % s == 0,
            s > 0,
    ;
    let f = p / s;
    let r = p % s;
    assert(p == f * s + r && 0 <= r < s) by (nonlinear_arith)
        requires
            f == p / s,
            r == p % s,
            s > 0,
    ;
    assert(f <= k && (f == k ==> r == 0)) by (nonlinear_arith)
        requires
            p == f * s + r,
            0 <= r < s,
            p <= k * s,
            s > 0,
    ;
    let e = nearest_even(p, s);
    assert(e <= k);
    assert(e * s <= k * s) by (nonlinear_arith)
        requires
            e <= k,
            s > 0,
    ;
}

/// A fraction that is at most one never makes a length longer.
pub proof fn scaling_never_enlarges(side: nat, n: nat, d: nat)
    requires
        side <= 0xffff_ffff,
        0 < n <= d,
    ensures
        times_ratio(side, n, d) <= side,
{
    let u = unit(n, d);
    let m = mantissa(n, d);
    unit_is_a_power(n, d);
    assert(u > 0);
    assert(m <= u) by {
        assert(n * u <= d * u) by (nonlinear_arith)
            requires
                n <= d,
        ;
        assert((d * u) % d == 0 && (d * u) / d == u) by (nonlinear_arith)
            requires
                d > 0,
        ;
        rounding_stays_below(n * u, d * u, d);
        assert(m <= u) by (nonlinear_arith)
            requires
                m * d <= d * u,
                d > 0,
        ;
    }
    let p = side * m;
    let q = side * u;
    assert(p <= q) by (nonlinear_arith)
        requires
            p == side * m,
            q == side * u,
            m <= u,
    ;
    let s = spacing(p, 1);
    spacing_is_a_power(p, 1);
    if s > u {
        powers_are_apart(u, s);
        assert(p >= s * HIDDEN_BIT);
        assert(false) by (nonlinear_arith)
            requires
                p >= s * 4503599627370496,
                s >= 2 * u,
                p <= side * u,
                side <= 0xffff_ffff,
                u > 0,
        ;
    }
    smaller_power_divides(s, u);
    assert(q % s == 0) by (nonlinear_arith)
        requires
            q == side * u,
            u % s == 0,
            s > 0,
    {
        let k = u / s;
        assert(u == k * s);
        assert(q == (side * k) * s);
        vstd::arithmetic::div_mod::lemma_mod_multiples_basic(side * k as int, s as int);
    }
    rounding_stays_below(p, q, s);
    let rounded = whole(p);
    assert(half_up(rounded, u) <= side) by (nonlinear_arith)
        requires
            rounded <= side * u,
            half_up(rounded, u) == (2 * rounded + u) / (2 * u),
            u > 0,
    ;
}

/// A length that a fraction shortens to a bound is not rounded above it.
pub proof fn scaled_within(side: nat, n: nat, d: nat, bound: nat)
    requires
        side <= 0xffff_ffff,
        0 < n <= d,
        side * n <= bound * d,
    ensures
        times_ratio(side, n, d) <= bound,
{
    let u = unit(n, d);
    let m = mantissa(n, d);
    unit_lower_bound(n, d);
    unit_is_a_power(n, d);
    let f = (n * u) / d;
    let r = (n * u) % d;
    assert(n * u == f * d + r) by (nonlinear_arith)
        requires
            f == (n * u) / d,
            r == (n * u) % d,
            d > 0,
    ;
    assert(2 * (d * m) <= 2 * (n * u) + d) by (nonlinear_arith)
        requires
            n * u == f * d + r,
            0 <= r < d,
            m == f || (m == f + 1 && 2 * r >= d),
    ;
    assert(n * u < d * HIDDEN_BIT * 2) by {
        unit_upper_bound(n, d);
    }
    assert(m <= 2 * HIDDEN_BIT) by (nonlinear_arith)
        requires
            2 * (d * m) <= 2 * (n * u) + d,
            n * u < d * HIDDEN_BIT * 2,
            d > 0,
    ;
    let p = side * m;
    assert(p <= 0xffff_ffff * 9007199254740992) by (nonlinear_arith)
        requires
            p == side * m,
            side <= 0xffff_ffff,
            m <= 9007199254740992,
    ;
    assert(2 * p <= 2 * (bound * u) + side) by (nonlinear_arith)
        requires
            p == side * m,
            2 * (d * m) <= 2 * (n * u) + d,
            side * n <= bound * d,
            d > 0,
    {
        assert(side * (2 * (d * m)) <= side * (2 * (n * u) + d));
        assert(side * (2 * (d * m)) == d * (2 * p));
        assert(side * (2 * (n * u) + d) == 2 * u * (side * n) + side * d);
        assert(2 * u * (side * n) <= 2 * u * (bound * d));
        assert(d * (2 * p) <= d * (2 * (bound * u) + side));
    }
    let s = spacing(p, 1);
    spacing_is_a_power(p, 1);
    assert(s <= 0x2_0000_0000);
    let g = p / s;
    let t = p % s;
    assert(p == g * s + t) by (nonlinear_arith)
        requires
            g == p / s,
            t == p % s,
            s > 0,
    ;
    let e = nearest_even(p, s);
    assert(2 * (e * s) <= 2 * p + s) by (nonlinear_arith)
        requires
            p == g * s + t,
            0 <= t < s,
            e == g || (e == g + 1 && 2 * t >= s),
    ;
    let rounded = whole(p);
    assert(half_up(rounded, u) <= bound) by (nonlinear_arith)
        requires
            2 * rounded < 2 * (bound * u) + u,
            half_up(rounded, u) == (2 * rounded + u) / (2 * u),
            u > 0,
    ;
}

proof fn unit_lower_bound(n: nat, d: nat)
    requires
        0 < n,
        0 < d,
    ensures
        unit(n, d) * n >= d * HIDDEN_BIT,
        n <= d ==> unit(n, d) >= HIDDEN_BIT,
    decreases 2 * (d * HIDDEN_BIT) - n,
{
    if n < d * HIDDEN_BIT {
        unit_lower_bound(2 * n, d);
        let v = unit(2 * n, d);
        assert((2 * v) * n == v * (2 * n)) by (nonlinear_arith);
    } else {
        assert(1 * n == n);
    }
    let u = unit(n, d);
    assert(n <= d ==> u >= HIDDEN_BIT) by (nonlinear_arith)
        requires
            u * n >= d * HIDDEN_BIT,
            n > 0,
    ;
}

proof fn unit_upper_bound(n: nat, d: nat)
    requires
        0 < n < d * HIDDEN_BIT * 2,
    ensures
        n * unit(n, d) < d * HIDDEN_BIT * 2,
    decreases 2 * (d * HIDDEN_BIT) - n,
{
    if n < d * HIDDEN_BIT {
        unit_upper_bound(2 * n, d);
        let v = unit(2 * n, d);
        assert(n * (2 * v) == (2 * n) * v) by (nonlinear_arith);
    } else {
        assert(n * 1 == n);
    }
}

/// The picture on the panel stays within its bounds.
pub proof fn the_preview_stays_within_its_bounds(w: nat, h: nat, mw: nat, mh: nat)
    requires
        0 < w <= 0xffff_ffff,
        0 < h <= 0xffff_ffff,
        0 < mw <= 0xffff_ffff,
        0 < mh <= 0xffff_ffff,
    ensures
        preview_size(w, h, mw, mh).0 <= mw,
        preview_size(w, h, mw, mh).1 <= mh,
{
    let (n, d) = least_ratio(w, h, mw, mh);
    assert(w * n <= mw * d && h * n <= mh * d) by (nonlinear_arith)
        requires
            0 < w,
            0 < h,
            0 < mw,
            0 < mh,
            (mw * h <= mh * w && ((n == mw && d == w) || (n == 1 && d == 1 && mw >= w))) || (mw * h
                > mh * w && ((n == mh && d == h) || (n == 1 && d == 1 && mh >= h))),
    ;
    scaled_within(w, n, d, mw);
    scaled_within(h, n, d, mh);
}

/// A picture that is no larger than the bounds is shown as it is.
pub proof fn a_small_picture_keeps_its_size(w: nat, h: nat, mw: nat, mh: nat)
    requires
        0 < w <= mw,
        0 < h <= mh,
        mw <= 0xffff_ffff,
        mh <= 0xffff_ffff,
    ensures
        preview_size(w, h, mw, mh) == (w, h),
{
    assert(least_ratio(w, h, mw, mh) == (1nat, 1nat));
    scaled_by_one(w);
    scaled_by_one(h);
}

proof fn unit_of_one(k: nat, n: nat)
    requires
        n > 0,
        n * k == HIDDEN_BIT,
        is_power(k),
    ensures
        unit(n, 1) == k,
    decreases k,
{
    if k > 1 {
        assert(2 * n * (k / 2) == n * k) by (nonlinear_arith)
            requires
                k % 2 == 0,
        ;
        assert(n < HIDDEN_BIT) by (nonlinear_arith)
            requires
                n * k == HIDDEN_BIT,
                k > 1,
                n > 0,
        ;
        unit_of_one(k / 2, 2 * n);
    } else {
        assert(n == HIDDEN_BIT) by (nonlinear_arith)
            requires
                n * k == HIDDEN_BIT,
                k == 1,
        ;
    }
}

proof fn hidden_bit_is_a_power()
    ensures
        is_power(HIDDEN_BIT as nat),
{
    reveal_with_fuel(is_power, 54);
}

proof fn scaled_by_one(side: nat)
    requires
        0 < side <= 0xffff_ffff,
    ensures
        times_ratio(side, 1, 1) == side,
{
    let u = HIDDEN_BIT as nat;
    hidden_bit_is_a_power();
    unit_of_one(u, 1);
    assert((1 * u) as nat / 1 == u && (1 * u) as nat % 1 == 0);
    assert(mantissa(1, 1) == u);
    let p = side * u;
    let s = spacing(p, 1);
    spacing_is_a_power(p, 1);
    if s > u {
        powers_are_apart(u, s);
        assert(false) by (nonlinear_arith)
            requires
                p >= s * 4503599627370496,
                s >= 2 * u,
                p == side * u,
                side <= 0xffff_ffff,
                u == 4503599627370496,
        ;
    }
    smaller_power_divides(s, u);
    let k = u / s;
    assert(u == k * s) by (nonlinear_arith)
        requires
            k == u / s,
            u % s == 0,
            s > 0,
    ;
    assert(p == (side * k) * s) by (nonlinear_arith)
        requires
            p == side * u,
            u == k * s,
    ;
    assert(p / s == side * k && p % s == 0) by {
        vstd::arithmetic::div_mod::lemma_div_multiples_vanish((side * k) as int, s as int);
        vstd::arithmetic::div_mod::lemma_mod_multiples_basic((side * k) as int, s as int);
        assert((side * k) * s == s * (side * k)) by (nonlinear_arith);
    }
    assert(whole(p) == p);
    assert((2 * p + u) / (2 * u) == side) by (nonlinear_arith)
        requires
            p == side * u,
            u > 0,
    ;
}

/// The part of a frame that has the shape of the live picture: its middle, as wide or as high as
/// the frame.
pub open spec fn thumbnail_part(w: nat, h: nat, mw: nat, mh: nat) -> (nat, nat, nat, nat) {
    let wider = mantissa(w, h) * unit(mw, mh) > mantissa(mw, mh) * unit(w, h);
    if wider {
        let wanted = positive(times_ratio(h, mw, mh));
        let cw = if wanted < w {
            wanted
        } else {
            w
        };
        (((w - cw) / 2) as nat, 0, cw, h)
    } else {
        let wanted = positive(over_ratio(w, mw, mh));
        let ch = if wanted < h {
            wanted
        } else {
            h
        };
        (0, ((h - ch) / 2) as nat, w, ch)
    }
}

fn over(side: usize, frame: &Double, target: &Double, h: usize) -> (p: u128)
    requires
        0 < side <= 0xffff_ffff,
        0 < h <= 0xffff_ffff,
        frame.is_nearest(side as nat, h as nat),
        frame.normal(),
        target.normal(),
        h * HIDDEN_BIT <= frame.unit * side,
        2 <= target.unit < 0x20_0000_0000_0000_0000_0000,
        !frame.is_above(*target),
    ensures
        p == half_up(
            mantissa((side * target.unit) as nat, target.mantissa as nat),
            unit((side * target.unit) as nat, target.mantissa as nat),
        ),
{
    let ghost w = side as int;
    let ghost m1 = frame.mantissa as int;
    let ghost u1 = frame.unit as int;
    let ghost m2 = target.mantissa as int;
    let ghost u2 = target.unit as int;
    proof {
        let q = (side as nat * frame.unit as nat) / (h as nat);
        assert(m1 >= q);
        assert(w * u1 < (q + 1) * h) by (nonlinear_arith)
            requires
                q == (w * u1) / (h as int),
                h > 0,
        ;
        assert(w * u1 <= 2 * h * m1) by (nonlinear_arith)
            requires
                w * u1 < (q + 1) * h,
                m1 >= q,
                m1 >= 1,
                h > 0,
        ;
        assert(w * u2 <= 2 * h * m2) by (nonlinear_arith)
            requires
                w * u1 <= 2 * h * m1,
                m1 * u2 <= m2 * u1,
                u1 > 0,
                u2 > 0,
                h > 0,
        ;
        assert(w * u2 < m2 * 4503599627370496 * 2) by (nonlinear_arith)
            requires
                w * u2 <= 2 * h * m2,
                h <= 0xffff_ffff,
                m2 > 0,
        ;
        assert(m2 <= (w * u2) * 4503599627370496) by (nonlinear_arith)
            requires
                m2 <= 2 * 4503599627370496,
                w >= 1,
                u2 >= 2,
        ;
        assert(w * u2 < 0xffff_ffff * 0x20_0000_0000_0000_0000_0000) by (nonlinear_arith)
            requires
                w <= 0xffff_ffff,
                u2 < 0x20_0000_0000_0000_0000_0000,
                w >= 1,
                u2 >= 2,
        ;
        assert(0 < w * u2) by (nonlinear_arith)
            requires
                w >= 1,
                u2 >= 2,
        ;
    }
    let n: u128 = side as u128 * target.unit;
    let x = double(n, target.mantissa);
    round_half_up(x.mantissa, x.unit)
}

/// The part of a frame that the live picture shows, and the size in which it shows it.
pub struct Thumbnail {
    pub part: Rgb8,
    pub width: usize,
    pub height: usize,
}

/// Cuts out the part of a frame that the live picture shows, and says in which size.
pub fn live_preview_thumbnail(frame: &Rgb8, max_width: usize, max_height: usize) -> (r: Option<
    Thumbnail,
>)
    requires
        frame.wf(),
        frame.width <= 0xffff_ffff,
        frame.height <= 0xffff_ffff,
        max_width <= 0xffff_ffff,
        max_height <= 0xffff_ffff,
    ensures
        match r {
            None => frame.width == 0 || frame.height == 0 || max_width == 0 || max_height == 0,
            Some(t) => {
                let (x, y, w, h) = thumbnail_part(
                    frame.width as nat,
                    frame.height as nat,
                    max_width as nat,
                    max_height as nat,
                );
                &&& frame.width > 0 && frame.height > 0 && max_width > 0 && max_height > 0
                &&& t.part.wf()
                &&& t.part.width == w
                &&& t.part.height == h
                &&& t.part.data@ == frame.part(x as int, y as int, w as int, h as int)
                &&& (t.width as nat, t.height as nat) == preview_size(
                    w,
                    h,
                    max_width as nat,
                    max_height as nat,
                )
            },
        },
{
    if frame.is_empty() || max_width == 0 || max_height == 0 {
        return None;
    }
    let w: usize = frame.width;
    let h: usize = frame.height;
    let target = ratio(max_width, max_height);
    let shape = ratio(w, h);
    let part = if shape.above(&target) {
        let wanted: u128 = at_least_one(times(h, &target));
        let cw: usize = if wanted < w as u128 {
            wanted as usize
        } else {
            w
        };
        frame.crop((w - cw) / 2, 0, cw, h)
    } else {
        let wanted: u128 = at_least_one(over(w, &shape, &target, h));
        let ch: usize = if wanted < h as u128 {
            wanted as usize
        } else {
            h
        };
        frame.crop(0, (h - ch) / 2, w, ch)
    };
    match live_preview_size(&part, max_width, max_height) {
        Some((width, height)) => Some(Thumbnail { part, width, height }),
        None => None,
    }
}

/// What to do with a new frame.
pub enum PreviewPlan {
    /// Show it now.
    Render(Rgb8),
    /// Show it after so many nanoseconds.
    Schedule(u64),
    /// It will be shown by the timer that is running.
    Coalesced,
}

/// The live picture is renewed only so often. What comes between waits, and only the newest.
pub struct PreviewThrottle {
    pub last_rendered: Option<u64>,
    pub pending: Option<Rgb8>,
    pub timer_scheduled: bool,
}

/// The time that passed.
pub open spec fn elapsed(since: u64, now: u64) -> u64 {
    if now < since {
        0
    } else {
        (now - since) as u64
    }
}

impl PreviewThrottle {
    /// Nothing was shown yet.
    pub fn new() -> (t: PreviewThrottle)
        ensures
            t.last_rendered is None,
            t.pending is None,
            !t.timer_scheduled,
    {
        PreviewThrottle { last_rendered: None, pending: None, timer_scheduled: false }
    }

    /// Takes a new frame at the given time, in nanoseconds.
    pub fn submit(&mut self, frame: Rgb8, now: u64) -> (plan: PreviewPlan)
        ensures
            final(self).last_rendered == old(self).last_rendered,
            if old(self).timer_scheduled {
                &&& plan is Coalesced
                &&& final(self).pending == Some(frame)
                &&& final(self).timer_scheduled
            } else if old(self).last_rendered matches Some(last) && elapsed(last, now)
                < LIVE_PREVIEW_INTERVAL {
                &&& plan == PreviewPlan::Schedule(
                    (LIVE_PREVIEW_INTERVAL - elapsed((old(self).last_rendered)->0, now)) as u64,
                )
                &&& final(self).pending == Some(frame)
                &&& final(self).timer_scheduled
            } else {
                &&& plan == PreviewPlan::Render(frame)
                &&& final(self).pending == old(self).pending
                &&& !final(self).timer_scheduled
            },
    {
        if self.timer_scheduled {
            self.pending = Some(frame);
            return PreviewPlan::Coalesced;
        }
        match self.last_rendered {
            Some(last) => {
                let passed: u64 = if now < last {
                    0
                } else {
                    now - last
                };
                if passed < LIVE_PREVIEW_INTERVAL {
                    self.pending = Some(frame);
                    self.timer_scheduled = true;
                    return PreviewPlan::Schedule(LIVE_PREVIEW_INTERVAL - passed);
                }
            },
            None => {},
        }
        PreviewPlan::Render(frame)
    }

    /// The timer ran out: the newest frame that waits is shown.
    pub fn take_scheduled(&mut self) -> (r: Option<Rgb8>)
        ensures
            r == old(self).pending,
            final(self).pending is None,
            !final(self).timer_scheduled,
            final(self).last_rendered == old(self).last_rendered,
    {
        self.timer_scheduled = false;
        self.pending.take()
    }

    /// A frame was shown at the given time.
    pub fn note_rendered(&mut self, now: u64)
        ensures
            final(self).last_rendered == Some(now),
            final(self).pending == old(self).pending,
            final(self).timer_scheduled == old(self).timer_scheduled,
    {
        self.last_rendered = Some(now);
    }
}

/// A preview is not drawn again within 80 milliseconds of the last one: what comes earlier waits for
/// the rest of them.
pub proof fn previews_keep_their_distance(
    t: &mut PreviewThrottle,
    frame: Rgb8,
    now: u64,
    plan: PreviewPlan,
)
    requires
        call_ensures(PreviewThrottle::submit, (t, frame, now), plan),
    ensures
        plan is Render ==> !old(t).timer_scheduled && (old(t).last_rendered matches Some(last)
            ==> now >= last + 80_000_000),
        !old(t).timer_scheduled && old(t).last_rendered is None ==> plan == PreviewPlan::Render(
            frame,
        ),
        !old(t).timer_scheduled && old(t).last_rendered is Some && now >= (old(
            t,
        ).last_rendered->0) + 80_000_000 ==> plan == PreviewPlan::Render(frame),
        plan matches PreviewPlan::Schedule(wait) ==> old(t).last_rendered is Some && (now >= (old(
            t,
        ).last_rendered->0) ==> now + wait == (old(t).last_rendered->0) + 80_000_000),
        old(t).timer_scheduled ==> plan is Coalesced,
{
}

/// Of the frames that wait the newest is drawn, and only once.
pub proof fn the_newest_waiting_frame_is_drawn(
    t: &mut PreviewThrottle,
    frame: Rgb8,
    now: u64,
    plan: PreviewPlan,
    u: &mut PreviewThrottle,
    r: Option<Rgb8>,
    v: &mut PreviewThrottle,
    again: Option<Rgb8>,
)
    requires
        call_ensures(PreviewThrottle::submit, (t, frame, now), plan),
        !(plan is Render),
        *old(u) == *final(t),
        call_ensures(PreviewThrottle::take_scheduled, (u,), r),
        *old(v) == *final(u),
        call_ensures(PreviewThrottle::take_scheduled, (v,), again),
    ensures
        r == Some(frame),
        again is None,
        !final(u).timer_scheduled,
{
}

/// A preview fits its bounds and is never enlarged; a picture that fits them keeps its size.
pub proof fn a_preview_fits(
    frame: &Rgb8,
    max_width: usize,
    max_height: usize,
    r: Option<(usize, usize)>,
)
    requires
        call_ensures(live_preview_size, (frame, max_width, max_height), r),
        frame.width <= 0xffff_ffff,
        frame.height <= 0xffff_ffff,
        max_width <= 0xffff_ffff,
        max_height <= 0xffff_ffff,
    ensures
        r is None <==> frame.width == 0 || frame.height == 0 || max_width == 0 || max_height == 0,
        r matches Some((w, h)) ==> 1 <= w <= max_width && 1 <= h <= max_height && w <= frame.width
            && h <= frame.height,
        r is Some && frame.width <= max_width && frame.height <= max_height ==> r == Some(
            (frame.width, frame.height),
        ),
{
    if r is Some {
        let (w, h) = (frame.width as nat, frame.height as nat);
        let (a, b) = (max_width as nat, max_height as nat);
        the_preview_stays_within_its_bounds(w, h, a, b);
        if w <= a && h <= b {
            a_small_picture_keeps_its_size(w, h, a, b);
        }
    }
}

/// A thumbnail is cut out of the middle of the frame, as wide or as high as the frame, and shows its
/// pixels.
pub proof fn a_thumbnail_is_the_middle(
    frame: &Rgb8,
    max_width: usize,
    max_height: usize,
    t: Thumbnail,
    i: int,
    j: int,
    c: int,
)
    requires
        frame.wf(),
        call_ensures(live_preview_thumbnail, (frame, max_width, max_height), Some(t)),
        0 <= i < t.part.width,
        0 <= j < t.part.height,
        0 <= c < 3,
    ensures
        t.part.width <= frame.width && t.part.height <= frame.height,
        t.part.width == frame.width || t.part.height == frame.height,
        ({
            let x = (frame.width - t.part.width) / 2;
            let y = (frame.height - t.part.height) / 2;
            t.part.data@[3 * (j * t.part.width + i) + c] == frame.data@[3 * ((y + j) * frame.width
                + x + i) + c]
        }),
{
    let (x, y, w, h) = thumbnail_part(
        frame.width as nat,
        frame.height as nat,
        max_width as nat,
        max_height as nat,
    );
    crate::gray::a_part_shows_its_pixels(
        *frame,
        x as int,
        y as int,
        w as int,
        h as int,
        i,
        j,
        c,
    );
}

/// A length times a fraction, rounded in double precision before it is rounded to pixels, is within
/// little more than half a pixel of the exact product. Before that it is within a thousandth of one.
pub proof fn a_length_is_scaled(side: nat, n: nat, d: nat)
    requires
        side <= 0xffff_ffff,
        0 < n <= 2 * d,
    ensures
        -513 * d <= 1024 * (times_ratio(side, n, d) * d - side * n) <= 513 * d,
        unit(n, d) > 0,
        -(d * unit(n, d)) <= 1024 * (whole(side * mantissa(n, d)) * d - side * n * unit(n, d)) <= d
            * unit(n, d),
{
    let (m, u) = (mantissa(n, d) as int, unit(n, d) as int);
    let h = HIDDEN_BIT as int;
    crate::binary64::a_number_is_close(n, d);
    unit_lower_bound(n, d);
    unit_upper_bound(n, d);
    assert(2 * u >= h) by (nonlinear_arith)
        requires
            u * n >= d * h,
            n <= 2 * d,
            u > 0,
            d > 0,
    ;
    let nu = n * u;
    let md = m * d;
    assert(-(d as int) <= 2 * md - 2 * nu <= d);
    assert(m <= 2 * h) by (nonlinear_arith)
        requires
            md == m * d,
            2 * md - 2 * nu <= d,
            nu < d * h * 2,
            d > 0,
    ;
    let p = side * m;
    assert(0 <= p <= 0xffff_ffff * 9007199254740992) by (nonlinear_arith)
        requires
            p == side * m,
            side <= 0xffff_ffff,
            0 <= m <= 9007199254740992,
    ;
    let s = spacing(p as nat, 1) as int;
    spacing_is_a_power(p as nat, 1);
    assert(s <= 0x2_0000_0000) by (nonlinear_arith)
        requires
            s == 1 || p >= s * h,
            p <= 0xffff_ffff * 9007199254740992,
            h == 4503599627370496,
    ;
    let x = whole(p as nat) as int;
    assert(-s <= 2 * x - 2 * p <= s) by {
        let (g, t) = (p / s, p % s);
        assert(p == g * s + t && 0 <= t < s) by (nonlinear_arith)
            requires
                g == p / s,
                t == p % s,
                s > 0,
        ;
        let e = nearest_even(p as nat, s as nat) as int;
        assert(x == e * s);
        assert(e == g || e == g + 1);
        assert((g + 1) * s == g * s + s) by (nonlinear_arith);
    }
    let a = 2 * x - 2 * p;
    let b = 2 * md - 2 * nu;
    let y = x * d - side * nu;
    assert(2 * y == a * d + side * b) by (nonlinear_arith)
        requires
            y == x * d - side * nu,
            a == 2 * x - 2 * p,
            b == 2 * md - 2 * nu,
            p == side * m,
            md == m * d,
    ;
    assert(-(s * d) <= a * d <= s * d) by (nonlinear_arith)
        requires
            -s <= a <= s,
            d >= 0,
    ;
    assert(-(side * d) <= side * b <= side * d) by (nonlinear_arith)
        requires
            -(d as int) <= b <= d,
            side >= 0,
    ;
    let du = d * u;
    assert(1024 * (s * d + side * d) <= 2 * du) by (nonlinear_arith)
        requires
            du == d * u,
            s <= 0x2_0000_0000,
            side <= 0xffff_ffff,
            2 * u >= 4503599627370496,
            d >= 0,
    ;
    assert(-du <= 1024 * y <= du);
    assert(side * n * u == side * nu) by (nonlinear_arith)
        requires
            nu == n * u,
    ;
    let t = half_up(x as nat, u as nat) as int;
    let w = 2 * x + u;
    assert(2 * (u * t) <= w < 2 * (u * t) + 2 * u) by (nonlinear_arith)
        requires
            t == w / (2 * u),
            u > 0,
    ;
    let ut = u * t;
    let f = 2 * x - 2 * ut;
    assert(-u <= f <= u);
    assert(-du <= d * f <= du) by (nonlinear_arith)
        requires
            -u <= f <= u,
            du == d * u,
            d >= 0,
    ;
    let gap = t * d - side * n;
    assert(2 * (gap * u) == 2 * y - d * f) by (nonlinear_arith)
        requires
            gap == t * d - side * n,
            y == x * d - side * nu,
            nu == n * u,
            f == 2 * x - 2 * ut,
            ut == u * t,
    ;
    let gu = gap * u;
    assert(-(513 * du) <= 1024 * gu <= 513 * du);
    assert(-513 * d <= 1024 * gap <= 513 * d) by (nonlinear_arith)
        requires
            -(513 * du) <= 1024 * gu <= 513 * du,
            gu == gap * u,
            du == d * u,
            u > 0,
    ;
}

/// A preview of a picture that does not fit fills its bounds in one direction and keeps the
/// proportions of the picture in the other, to the nearest pixel.
pub proof fn a_preview_keeps_the_proportions(
    frame: &Rgb8,
    max_width: usize,
    max_height: usize,
    w: usize,
    h: usize,
)
    requires
        call_ensures(live_preview_size, (frame, max_width, max_height), Some((w, h))),
        frame.width <= 0xffff_ffff,
        frame.height <= 0xffff_ffff,
        max_width <= 0xffff_ffff,
        max_height <= 0xffff_ffff,
        frame.width > max_width || frame.height > max_height,
    ensures
        max_width * frame.height <= max_height * frame.width ==> w == max_width && (h == 1 || -513
            * frame.width <= 1024 * (h * frame.width - frame.height * max_width) <= 513
            * frame.width),
        max_width * frame.height > max_height * frame.width ==> h == max_height && (w == 1 || -513
            * frame.height <= 1024 * (w * frame.height - frame.width * max_height) <= 513
            * frame.height),
{
    let (a, b) = (frame.width as nat, frame.height as nat);
    let (m, n) = (max_width as nat, max_height as nat);
    if m * b <= n * a {
        assert(m < a) by (nonlinear_arith)
            requires
                m * b <= n * a,
                a > m || b > n,
                a > 0,
                b > 0,
        ;
        a_length_is_scaled(a, m, a);
        a_length_is_scaled(b, m, a);
        let t = times_ratio(a, m, a) as int;
        assert(t == m) by (nonlinear_arith)
            requires
                -513 * a <= 1024 * (t * a - a * m) <= 513 * a,
                a > 0,
        ;
    } else {
        assert(n < b) by (nonlinear_arith)
            requires
                m * b > n * a,
                a > m || b > n,
                a > 0,
                b > 0,
        ;
        a_length_is_scaled(b, n, b);
        a_length_is_scaled(a, n, b);
        let t = times_ratio(b, n, b) as int;
        assert(t == n) by (nonlinear_arith)
            requires
                -513 * b <= 1024 * (t * b - b * n) <= 513 * b,
                b > 0,
        ;
    }
}

} // verus!
