//! Single-precision arithmetic, in integers.
//!
//! Every single-precision number is a multiple of the smallest positive one. Here such a number is
//! that multiple, and one is the power of two with 149 zeros. A result that falls between two
//! numbers is rounded to the nearer of them, to the one with the even mantissa if both are equally
//! near, and a result beyond the largest number is infinite.

use vstd::arithmetic::div_mod::lemma_fundamental_div_mod;
use vstd::arithmetic::div_mod::lemma_fundamental_div_mod_converse;
use vstd::arithmetic::power2::{
    lemma2_to64, lemma2_to64_rest, lemma_pow2_adds, lemma_pow2_pos, lemma_pow2_strictly_increases,
    lemma_pow2_unfold, pow2,
};
use vstd::prelude::*;

use crate::binary64::{half_up, nearest_even, round_even, round_half_up};

verus! {

/// One.
pub open spec fn one() -> nat {
    pow2(149)
}

/// What lies beyond all numbers.
pub open spec fn infinite() -> nat {
    pow2(277)
}

/// The distance of the numbers around `n / d`: the smallest power of two of which `n / d` has no
/// more than 24 binary digits.
pub open spec fn spacing(n: nat, d: nat) -> nat
    decreases n - d,
{
    if d == 0 || n < d * 0x100_0000 {
        1
    } else {
        2 * spacing(n, 2 * d)
    }
}

/// The number nearest to `n / d`, if there were numbers of any size.
pub open spec fn nearest(n: nat, d: nat) -> nat {
    nearest_even(n, d * spacing(n, d)) * spacing(n, d)
}

/// The number nearest to `n / d`.
pub open spec fn rounded(n: nat, d: nat) -> nat {
    if nearest(n, d) < infinite() {
        nearest(n, d)
    } else {
        infinite()
    }
}

/// The sum of two numbers.
pub open spec fn sum(a: nat, b: nat) -> nat {
    rounded(a + b, 1)
}

/// The product of two numbers that are finite or at least one.
pub open spec fn product(a: nat, b: nat) -> nat {
    rounded(a * b, one())
}

/// The quotient of a number and a finite one.
pub open spec fn quotient(a: nat, b: nat) -> nat {
    if a >= infinite() {
        infinite()
    } else {
        rounded(a * one(), b)
    }
}

/// The number nearest to an integer.
pub open spec fn whole(n: nat) -> nat {
    rounded(n * one(), 1)
}

/// The number nearest to a fraction.
pub open spec fn fraction(n: nat, d: nat) -> nat {
    rounded(n * one(), d)
}

/// Half of the number nearest to an integer.
pub open spec fn half(n: nat) -> nat {
    quotient(whole(n), whole(2))
}

/// The number nearest to an integer multiple of the smallest number, which may be negative.
pub open spec fn signed(n: int) -> int {
    if n < 0 {
        -rounded((-n) as nat, 1)
    } else {
        rounded(n as nat, 1) as int
    }
}

proof fn shrink(a: int, b: int, c: int)
    requires
        a <= b,
        0 <= c,
    ensures
        a * c <= b * c,
        a < b && 0 < c ==> a * c < b * c,
{
    assert(a * c <= b * c) by (nonlinear_arith)
        requires
            a <= b,
            0 <= c,
    ;
    assert(a < b && 0 < c ==> a * c < b * c) by (nonlinear_arith);
}

proof fn spacing_is(n: nat, d: nat, k: nat)
    requires
        d > 0,
        n < d * pow2(k) * 0x100_0000,
        k > 0 ==> n >= d * pow2(k) * 0x80_0000,
    ensures
        spacing(n, d) == pow2(k),
    decreases k,
{
    lemma2_to64();
    assert(d * 1 == d);
    if k > 0 {
        lemma_pow2_unfold(k);
        lemma_pow2_pos((k - 1) as nat);
        let h = pow2((k - 1) as nat);
        assert(d * (2 * h) == (2 * d) * h) by (nonlinear_arith);
        assert(d * (2 * h) * 0x80_0000 >= d * 0x100_0000) by (nonlinear_arith)
            requires
                h >= 1,
                d > 0,
        ;
        spacing_is(n, 2 * d, (k - 1) as nat);
    }
}

proof fn nearest_scales(n: nat, d: nat, c: nat)
    requires
        d > 0,
        c > 0,
    ensures
        d * c > 0,
        nearest_even(n * c, d * c) == nearest_even(n, d),
{
    let q = n as int / d as int;
    let r = n as int % d as int;
    lemma_fundamental_div_mod(n as int, d as int);
    assert(d * c > 0) by (nonlinear_arith)
        requires
            d > 0,
            c > 0,
    ;
    assert(n * c == q * (d * c) + r * c) by (nonlinear_arith)
        requires
            n == d * q + r,
    ;
    assert(0 <= r * c < d * c) by (nonlinear_arith)
        requires
            0 <= r < d,
            c > 0,
    ;
    lemma_fundamental_div_mod_converse((n * c) as int, (d * c) as int, q, r * c);
    assert((2 * (r * c) < d * c) == (2 * r < d)) by (nonlinear_arith)
        requires
            c > 0,
    ;
    assert((2 * (r * c) == d * c) == (2 * r == d)) by (nonlinear_arith)
        requires
            c > 0,
    ;
}

/// What is nearest to a quotient times a power of two, where `k` is the number of its binary digits
/// beyond 24.
pub proof fn nearest_is(n: nat, d: nat, k: nat, e: nat, q: nat)
    requires
        d > 0,
        n < d * pow2(k) * 0x100_0000,
        k > 0 || e > 0 ==> n >= d * pow2(k) * 0x80_0000,
        q == nearest_even(n, d * pow2(k)),
    ensures
        nearest(n * pow2(e), d) == q * pow2(k + e),
{
    let c = pow2(e);
    let dd = d * pow2(k);
    lemma_pow2_pos(e);
    lemma_pow2_pos(k);
    lemma_pow2_adds(k, e);
    assert(dd * c == d * pow2(k + e)) by (nonlinear_arith)
        requires
            dd == d * pow2(k),
            pow2(k) * c == pow2(k + e),
    ;
    assert(dd > 0) by (nonlinear_arith)
        requires
            dd == d * pow2(k),
            d > 0,
            pow2(k) > 0,
    ;
    shrink(n as int, dd * 0x100_0000 - 1, c as int);
    assert((dd * 0x100_0000 - 1) * c < dd * c * 0x100_0000) by (nonlinear_arith)
        requires
            c > 0,
    ;
    if k + e > 0 {
        shrink((dd * 0x80_0000) as int, n as int, c as int);
        assert(dd * 0x80_0000 * c == dd * c * 0x80_0000) by (nonlinear_arith);
    }
    spacing_is(n * c, d, k + e);
    nearest_scales(n, dd, c);
}

/// A number of no more than 24 binary digits times a power of two is held exactly.
proof fn exact(m: nat, e: nat)
    requires
        m < 0x100_0000,
    ensures
        nearest(m * pow2(e), 1) == m * pow2(e),
    decreases e,
{
    lemma2_to64();
    if e > 0 && m < 0x80_0000 {
        lemma_pow2_unfold(e);
        let h = pow2((e - 1) as nat);
        assert(m * (2 * h) == (2 * m) * h) by (nonlinear_arith);
        exact(2 * m, (e - 1) as nat);
    } else {
        assert(1 * pow2(0) == 1);
        assert(nearest_even(m, 1) == m) by {
            assert(m / 1 == m && m % 1 == 0);
        }
        nearest_is(m, 1, 0, e, m);
    }
}

/// Powers of two that are used as numbers.
proof fn powers()
    ensures
        pow2(0) == 1,
        pow2(23) == 0x80_0000,
        pow2(24) == 0x100_0000,
        pow2(60) == 0x1000_0000_0000_0000,
        pow2(80) == 0x1_0000_0000_0000_0000_0000,
        pow2(102) == 0x40_0000_0000_0000_0000_0000_0000,
        pow2(277) == pow2(254) * 0x80_0000,
        pow2(277) == pow2(253) * 0x100_0000,
{
    lemma2_to64();
    lemma2_to64_rest();
    lemma_pow2_adds(20, 60);
    lemma_pow2_adds(22, 80);
    assert(pow2(22) == 0x40_0000);
    lemma_pow2_adds(23, 254);
    lemma_pow2_adds(24, 253);
}

/// A power of two.
fn power(k: u32) -> (p: u128)
    requires
        k <= 102,
    ensures
        p == pow2(k as nat),
        0 < p <= 0x40_0000_0000_0000_0000_0000_0000,
{
    proof {
        powers();
    }
    let mut p: u128 = 1;
    let mut i: u32 = 0;
    while i < k
        invariant
            i <= k <= 102,
            p == pow2(i as nat),
            p <= 0x40_0000_0000_0000_0000_0000_0000,
        decreases k - i,
    {
        proof {
            powers();
            lemma_pow2_unfold((i + 1) as nat);
            if i + 1 < 102 {
                lemma_pow2_strictly_increases((i + 1) as nat, 102);
            }
        }
        p = p * 2;
        i = i + 1;
    }
    proof {
        lemma_pow2_pos(k as nat);
    }
    p
}

/// A number that is not negative.
#[derive(Clone, Copy, Debug, PartialEq, Eq)]
pub struct Single {
    mantissa: u32,
    exponent: u32,
}

impl View for Single {
    type V = nat;

    closed spec fn view(&self) -> nat {
        (self.mantissa * pow2(self.exponent as nat)) as nat
    }
}

impl Single {
    /// There are no more than 24 binary digits, and as many as that unless the number is one of the
    /// smallest. The largest number has a place beyond it, which is infinite.
    #[verifier::type_invariant]
    spec fn well_formed(self) -> bool {
        &&& self.exponent <= 254
        &&& self.exponent == 254 ==> self.mantissa == 0x80_0000
        &&& self.mantissa < 0x100_0000
        &&& self.exponent > 0 ==> self.mantissa >= 0x80_0000
    }
}

proof fn value_is_rounded(m: nat, e: nat)
    requires
        m < 0x100_0000,
        e <= 253 || (e == 254 && m == 0x80_0000),
    ensures
        rounded(m * pow2(e), 1) == m * pow2(e),
        m * pow2(e) <= infinite(),
        m * pow2(e) >= infinite() <==> e == 254,
{
    powers();
    exact(m, e);
    lemma_pow2_pos(253);
    if e <= 253 {
        if e < 253 {
            lemma_pow2_strictly_increases(e, 253);
        }
        lemma_pow2_pos(e);
        shrink(m as int, 0xff_ffff, pow2(e) as int);
        assert(0xff_ffff * pow2(e) < pow2(253) * 0x100_0000) by (nonlinear_arith)
            requires
                0 < pow2(e) <= pow2(253),
        ;
    } else {
        assert(m * pow2(e) == pow2(254) * 0x80_0000) by (nonlinear_arith)
            requires
                m == 0x80_0000,
                e == 254,
        ;
    }
}

/// Integers of no more than 24 binary digits are held exactly.
pub proof fn small_integers_are_exact(n: nat)
    requires
        n < 0x100_0000,
    ensures
        whole(n) == n * one(),
{
    value_is_rounded(n, 149);
}

/// A mantissa times a power of two, as far as numbers reach.
pub(crate) fn held(q: u32, place: u32) -> (r: Single)
    requires
        q <= 0x100_0000,
        place <= 2000,
        place > 0 ==> q >= 0x80_0000,
    ensures
        r@ == if q * pow2(place as nat) < infinite() {
            (q * pow2(place as nat)) as nat
        } else {
            infinite()
        },
{
    proof {
        powers();
        lemma_pow2_pos(place as nat);
        lemma_pow2_unfold((place + 1) as nat);
        if place >= 254 {
            if place > 254 {
                lemma_pow2_strictly_increases(254, place as nat);
            }
            lemma_pow2_pos(254);
            assert(q * pow2(place as nat) >= pow2(254) * 0x80_0000) by (nonlinear_arith)
                requires
                    q >= 0x80_0000,
                    pow2(place as nat) >= pow2(254),
            ;
        } else if q < 0x100_0000 {
            value_is_rounded(q as nat, place as nat);
        } else {
            assert(q * pow2(place as nat) == 0x80_0000 * pow2((place + 1) as nat))
                by (nonlinear_arith)
                requires
                    q == 0x100_0000,
                    pow2((place + 1) as nat) == 2 * pow2(place as nat),
            ;
            value_is_rounded(0x80_0000, (place + 1) as nat);
        }
        value_is_rounded(0x80_0000, 254);
    }
    if place >= 254 {
        Single { mantissa: 0x80_0000, exponent: 254 }
    } else if q < 0x100_0000 {
        Single { mantissa: q, exponent: place }
    } else {
        Single { mantissa: 0x80_0000, exponent: place + 1 }
    }
}

/// The number nearest to `n / d` times a power of two.
fn nearest_single(n: u128, d: u128, e: u32) -> (r: Single)
    requires
        0 < d <= 0x40_0000_0000_0000_0000_0000_0000,
        n < 0x4000_0000_0000_0000_0000_0000_0000_0000,
        e <= 1000,
        e > 0 ==> n >= d * 0x80_0000,
    ensures
        r@ == rounded((n * pow2(e as nat)) as nat, d as nat),
{
    proof {
        powers();
        assert(d * 1 == d);
    }
    let mut k: u32 = 0;
    let mut dd: u128 = d;
    while dd * 0x100_0000 <= n
        invariant
            0 < d <= dd,
            n < 0x4000_0000_0000_0000_0000_0000_0000_0000,
            dd <= 0x80_0000_0000_0000_0000_0000_0000,
            dd == d * pow2(k as nat),
            k > 0 || e > 0 ==> n >= dd * 0x80_0000,
            k <= 103,
        decreases n - dd,
    {
        proof {
            powers();
            lemma_pow2_unfold((k + 1) as nat);
            let h = pow2(k as nat);
            assert(d * (2 * h) == 2 * (d * h)) by (nonlinear_arith);
            if k > 102 {
                lemma_pow2_strictly_increases(102, k as nat);
                assert(d * h >= h) by (nonlinear_arith)
                    requires
                        d >= 1,
                        h >= 0,
                ;
            }
        }
        dd = dd * 2;
        k = k + 1;
    }
    let q: u128 = round_even(n, dd);
    let place: u32 = k + e;
    proof {
        nearest_is(n as nat, d as nat, k as nat, e as nat, q as nat);
        assert(n as int / dd as int <= 0xff_ffff) by (nonlinear_arith)
            requires
                n < dd * 0x100_0000,
                dd > 0,
                0 <= n,
        ;
        if place > 0 {
            assert(n as int / dd as int >= 0x80_0000) by (nonlinear_arith)
                requires
                    n >= dd * 0x80_0000,
                    dd > 0,
            ;
        }
    }
    held(q as u32, place)
}

/// Equal factors above and below make no difference.
proof fn nearest_ratio(n: nat, d: nat, c: nat)
    requires
        d > 0,
        c > 0,
    ensures
        d * c > 0,
        nearest(n * c, d * c) == nearest(n, d),
        rounded(n * c, d * c) == rounded(n, d),
{
    spacing_ratio(n, d, c);
    let p = spacing(n, d);
    spacing_is_positive(n, d);
    assert(d * p > 0) by (nonlinear_arith)
        requires
            d > 0,
            p > 0,
    ;
    nearest_scales(n, d * p, c);
    nearest_scales(n, d, c);
    assert((d * c) * p == (d * p) * c) by (nonlinear_arith);
}

proof fn spacing_is_positive(n: nat, d: nat)
    ensures
        spacing(n, d) > 0,
    decreases n - d,
{
    if !(d == 0 || n < d * 0x100_0000) {
        spacing_is_positive(n, 2 * d);
    }
}

proof fn spacing_ratio(n: nat, d: nat, c: nat)
    requires
        d > 0,
        c > 0,
    ensures
        spacing(n * c, d * c) == spacing(n, d),
    decreases n - d,
{
    assert(d * c > 0) by (nonlinear_arith)
        requires
            d > 0,
            c > 0,
    ;
    assert((n * c < d * c * 0x100_0000) == (n < d * 0x100_0000)) by (nonlinear_arith)
        requires
            c > 0,
    ;
    if n >= d * 0x100_0000 {
        spacing_ratio(n, 2 * d, c);
        assert((2 * d) * c == 2 * (d * c)) by (nonlinear_arith);
    }
}

proof fn half_up_scales(m: nat, u: nat, c: nat)
    requires
        u > 0,
        c > 0,
    ensures
        half_up(m * c, u * c) == half_up(m, u),
{
    let x = (2 * m + u) as int;
    let d = (2 * u) as int;
    let q = x / d;
    let r = x % d;
    lemma_fundamental_div_mod(x, d);
    assert(2 * (m * c) + u * c == x * c) by (nonlinear_arith)
        requires
            x == 2 * m + u,
    ;
    assert(2 * (u * c) == d * c) by (nonlinear_arith)
        requires
            d == 2 * u,
    ;
    assert(x * c == q * (d * c) + r * c) by (nonlinear_arith)
        requires
            x == d * q + r,
    ;
    assert(0 <= r * c < d * c) by (nonlinear_arith)
        requires
            0 <= r < d,
            c > 0,
    ;
    lemma_fundamental_div_mod_converse(x * c, d * c, q, r * c);
}

/// What is nearer to nothing than to the smallest number is nothing.
pub proof fn little_is_nothing(n: nat, d: nat)
    requires
        2 * n < d,
    ensures
        rounded(n, d) == 0,
{
    assert(n / d == 0 && n % d == n) by (nonlinear_arith)
        requires
            n < d,
    ;
    assert(d * 1 == d);
    assert(spacing(n, d) == 1);
    assert(nearest_even(n, d) == 0);
    assert(nearest(n, d) == 0);
    lemma_pow2_pos(277);
}

proof fn spacing_digits(n: nat, d: nat) -> (k: nat)
    requires
        d > 0,
    ensures
        spacing(n, d) == pow2(k),
        n < d * pow2(k) * 0x100_0000,
        k > 0 ==> n >= d * pow2(k) * 0x80_0000,
    decreases n - d,
{
    lemma2_to64();
    assert(d * 1 == d);
    if n < d * 0x100_0000 {
        0
    } else {
        let k = spacing_digits(n, 2 * d);
        lemma_pow2_unfold((k + 1) as nat);
        let p = pow2(k);
        assert((2 * d) * p == d * (2 * p)) by (nonlinear_arith);
        if k == 0 {
            assert(d * (2 * p) == 2 * d) by (nonlinear_arith)
                requires
                    p == 1,
            ;
        }
        k + 1
    }
}

/// What is as large as the first number that is not finite is infinite.
pub proof fn much_is_infinite(n: nat, d: nat)
    requires
        d > 0,
        n >= d * infinite(),
    ensures
        rounded(n, d) == infinite(),
{
    let k = spacing_digits(n, d);
    let p = pow2(k);
    powers();
    lemma_pow2_pos(k);
    lemma_pow2_pos(253);
    if k < 254 {
        if k < 253 {
            lemma_pow2_strictly_increases(k, 253);
        }
        assert(d * p * 0x100_0000 <= d * (pow2(253) * 0x100_0000)) by (nonlinear_arith)
            requires
                p <= pow2(253),
                d > 0,
        ;
    } else {
        if k > 254 {
            lemma_pow2_strictly_increases(254, k);
        }
        let dd = d * p;
        assert(dd > 0) by (nonlinear_arith)
            requires
                dd == d * p,
                d > 0,
                p > 0,
        ;
        assert(n as int / dd as int >= 0x80_0000) by (nonlinear_arith)
            requires
                n >= dd * 0x80_0000,
                dd > 0,
        ;
        let q = nearest_even(n, dd);
        assert(q * p >= pow2(254) * 0x80_0000) by (nonlinear_arith)
            requires
                q >= 0x80_0000,
                p >= pow2(254),
        ;
    }
}

/// Rounding does not even double, and leaves nothing out.
proof fn not_far_from(n: nat, d: nat)
    requires
        d > 0,
    ensures
        nearest(n, d) * d <= 2 * n + d,
        n >= d ==> nearest(n, d) > 0,
{
    let k = spacing_digits(n, d);
    let p = pow2(k);
    lemma_pow2_pos(k);
    lemma2_to64();
    let dd = d * p;
    assert(dd > 0) by (nonlinear_arith)
        requires
            dd == d * p,
            d > 0,
            p > 0,
    ;
    let q = n as int / dd as int;
    lemma_fundamental_div_mod(n as int, dd as int);
    let m = nearest_even(n, dd);
    assert(m * p * d == m * dd) by (nonlinear_arith)
        requires
            dd == d * p,
    ;
    assert(m * dd <= dd * q + dd) by (nonlinear_arith)
        requires
            m <= q + 1,
            dd > 0,
    ;
    if k == 0 {
        assert(dd == d) by (nonlinear_arith)
            requires
                dd == d * p,
                p == 1,
        ;
    }
    if n >= d {
        assert(q >= 1) by (nonlinear_arith)
            requires
                q == n as int / dd as int,
                n >= dd,
                dd > 0,
        ;
        assert(m * p > 0) by (nonlinear_arith)
            requires
                m >= 1,
                p > 0,
        ;
    }
}

/// Integers are finite.
pub proof fn whole_is_finite(n: nat)
    requires
        n <= u64::MAX,
    ensures
        whole(n) <= pow2(215),
        whole(n) < infinite(),
        n > 0 ==> whole(n) > 0,
{
    not_far_from(n * one(), 1);
    lemma2_to64();
    lemma_pow2_pos(149);
    lemma_pow2_adds(66, 149);
    lemma_pow2_adds(2, 64);
    lemma_pow2_strictly_increases(215, 277);
    assert(2 * (n * one()) + 1 <= pow2(66) * one()) by (nonlinear_arith)
        requires
            0 <= n < 0x1_0000_0000_0000_0000,
            pow2(66) == 4 * 0x1_0000_0000_0000_0000,
            one() > 0,
    ;
    if n > 0 {
        assert(n * one() >= 1) by (nonlinear_arith)
            requires
                n >= 1,
                one() >= 1,
        ;
    }
}

proof fn half_is_finite(n: nat)
    requires
        n <= u64::MAX,
    ensures
        half(n) < infinite(),
{
    whole_is_finite(n);
    whole_is_finite(2);
    lemma_pow2_pos(149);
    let a = whole(n);
    let b = whole(2);
    exact(2, 149);
    lemma_pow2_unfold(150);
    lemma_pow2_strictly_increases(150, 277);
    assert(b == 2 * one());
    not_far_from(a * one(), b);
    let r = nearest(a * one(), b);
    assert(r <= a + 1) by (nonlinear_arith)
        requires
            r * b <= 2 * (a * one()) + b,
            b == 2 * one(),
            one() > 0,
    ;
    lemma_pow2_unfold(216);
    lemma_pow2_pos(215);
    lemma_pow2_strictly_increases(216, 277);
}

proof fn nearest_even_grows(n: nat, m: nat, d: nat)
    requires
        n <= m,
        d > 0,
    ensures
        nearest_even(n, d) <= nearest_even(m, d),
{
    let (q, r) = (n as int / d as int, n as int % d as int);
    let (s, t) = (m as int / d as int, m as int % d as int);
    lemma_fundamental_div_mod(n as int, d as int);
    lemma_fundamental_div_mod(m as int, d as int);
    assert(q <= s) by (nonlinear_arith)
        requires
            d * q + r <= d * s + t,
            0 <= r,
            t < d,
            d > 0,
    ;
    if q == s {
        assert(r <= t);
    }
}

/// The larger of two quotients is not rounded to the smaller number.
pub proof fn rounding_keeps_the_order(n: nat, d: nat, m: nat, e: nat)
    requires
        d > 0,
        e > 0,
        n * e <= m * d,
    ensures
        rounded(n, d) <= rounded(m, e),
{
    nearest_ratio(n, d, e);
    nearest_ratio(m, e, d);
    assert(d * e == e * d) by (nonlinear_arith);
    nearest_grows(n * e, m * d, d * e);
}

proof fn nearest_grows(n: nat, m: nat, d: nat)
    requires
        n <= m,
        d > 0,
    ensures
        nearest(n, d) <= nearest(m, d),
        rounded(n, d) <= rounded(m, d),
{
    let k = spacing_digits(n, d);
    let l = spacing_digits(m, d);
    let (p, q) = (pow2(k), pow2(l));
    lemma_pow2_pos(k);
    lemma_pow2_pos(l);
    let (dp, dq) = (d * p, d * q);
    assert(dp > 0 && dq > 0) by (nonlinear_arith)
        requires
            dp == d * p,
            dq == d * q,
            d > 0,
            p > 0,
            q > 0,
    ;
    if k == l {
        nearest_even_grows(n, m, dp);
        shrink(nearest_even(n, dp) as int, nearest_even(m, dq) as int, p as int);
    } else if k < l {
        lemma_pow2_unfold((k + 1) as nat);
        if k + 1 < l {
            lemma_pow2_strictly_increases((k + 1) as nat, l);
        }
        assert(n as int / dp as int <= 0xff_ffff) by (nonlinear_arith)
            requires
                n < dp * 0x100_0000,
                dp > 0,
                0 <= n,
        ;
        assert(m as int / dq as int >= 0x80_0000) by (nonlinear_arith)
            requires
                m >= dq * 0x80_0000,
                dq > 0,
        ;
        let (a, b) = (nearest_even(n, dp), nearest_even(m, dq));
        assert(a * p <= b * q) by (nonlinear_arith)
            requires
                a <= 0x100_0000,
                b >= 0x80_0000,
                q >= 2 * p,
                p > 0,
        ;
    } else {
        lemma_pow2_unfold((l + 1) as nat);
        if l + 1 < k {
            lemma_pow2_strictly_increases((l + 1) as nat, k);
        }
        assert(d * p * 0x80_0000 >= d * q * 0x100_0000) by (nonlinear_arith)
            requires
                p >= 2 * q,
                d > 0,
        ;
    }
}

/// Sums, products and quotients keep the order of what they are made of.
pub proof fn arithmetic_keeps_the_order(a: nat, b: nat, c: nat)
    requires
        a <= b,
    ensures
        sum(a, c) <= sum(b, c),
        sum(c, a) <= sum(c, b),
        product(a, c) <= product(b, c),
        product(c, a) <= product(c, b),
        c > 0 ==> quotient(a, c) <= quotient(b, c),
        a > 0 ==> quotient(c, b) <= quotient(c, a),
{
    lemma_pow2_pos(149);
    assert(a * c <= b * c && c * a == a * c && c * b == b * c) by (nonlinear_arith)
        requires
            a <= b,
    ;
    nearest_grows(a + c, b + c, 1);
    nearest_grows(a * c, b * c, one());
    if c > 0 {
        if b < infinite() {
            shrink(a as int, b as int, one() as int);
            nearest_grows(a * one(), b * one(), c);
        }
    }
    if a > 0 {
        let n = c * one();
        assert(n * a <= n * b) by (nonlinear_arith)
            requires
                a <= b,
        ;
        rounding_keeps_the_order(n, b, n, a);
    }
}

/// Rounding a difference keeps its order, also below zero.
pub proof fn differences_keep_the_order(a: int, b: int)
    requires
        a <= b,
    ensures
        signed(a) <= signed(b),
{
    if a >= 0 {
        nearest_grows(a as nat, b as nat, 1);
    } else if b < 0 {
        nearest_grows((-b) as nat, (-a) as nat, 1);
    }
}

/// Rounding an integer multiple of the smallest number changes it by no more than the part that the
/// last of 24 binary digits is.
pub proof fn rounding_is_close(n: nat)
    requires
        2 * n <= infinite(),
    ensures
        0x100_0000 * rounded(n, 1) <= 0x100_0001 * n,
        0x100_0000 * rounded(n, 1) >= 0xff_ffff * n,
        rounded(n, 1) <= 2 * n,
{
    let k = spacing_digits(n, 1);
    let p = pow2(k);
    lemma_pow2_pos(k);
    lemma2_to64();
    assert(1 * p == p);
    let q = n as int / p as int;
    let r = n as int % p as int;
    lemma_fundamental_div_mod(n as int, p as int);
    let m = nearest_even(n, p);
    assert(p * q == q * p) by (nonlinear_arith);
    assert((q + 1) * p == q * p + p) by (nonlinear_arith);
    if k == 0 {
        assert(r == 0);
        assert(m * p == n) by (nonlinear_arith)
            requires
                m == q,
                p == 1,
                n == p * q,
        ;
    }
}

/// Numbers up to a thousand are far from infinite.
pub proof fn a_thousand_is_finite()
    ensures
        0x400 * one() < infinite(),
        one() > 0,
{
    lemma_pow2_pos(149);
    lemma2_to64();
    lemma_pow2_adds(128, 149);
    lemma_pow2_strictly_increases(10, 128);
    assert(pow2(10) == 0x400);
    assert(0x400 * one() < pow2(128) * one()) by (nonlinear_arith)
        requires
            pow2(128) > 0x400,
            one() > 0,
    ;
}

/// Nothing times or over anything is nothing.
pub proof fn nothing_stays_nothing(a: nat)
    ensures
        product(0, a) == 0,
        product(a, 0) == 0,
        a > 0 ==> quotient(0, a) == 0,
        whole(0) == 0,
        signed(0) == 0,
{
    lemma_pow2_pos(149);
    lemma_pow2_pos(277);
    assert(0 * a == 0 && a * 0 == 0 && 0 * one() == 0);
    little_is_nothing(0, one());
    little_is_nothing(0, 1);
    if a > 0 {
        little_is_nothing(0, a);
    }
}

/// One changes nothing, as a factor and as a divisor, of a number that is held.
pub proof fn one_changes_nothing(a: nat)
    requires
        rounded(a, 1) == a,
        a < infinite(),
    ensures
        product(a, one()) == a,
        product(one(), a) == a,
        quotient(a, one()) == a,
        a > 0 ==> quotient(a, a) == one(),
{
    lemma_pow2_pos(149);
    assert(a * one() == one() * a) by (nonlinear_arith);
    nearest_ratio(a, 1, one());
    assert(1 * one() == one());
    if a > 0 {
        nearest_ratio(one(), 1, a);
        assert(1 * a == a);
        exact(1, 149);
        a_thousand_is_finite();
    }
}

/// A small addition is lost.
proof fn little_more(m: nat, e: nat, b: nat)
    requires
        0x80_0000 <= m < 0x100_0000,
        2 * b < pow2(e),
    ensures
        nearest(m * pow2(e) + b, 1) == m * pow2(e),
{
    let p = pow2(e);
    let x = m * p + b;
    assert(1 * p == p);
    assert(p * 0x80_0000 <= x < p * 0x100_0000) by (nonlinear_arith)
        requires
            0x80_0000 <= m < 0x100_0000,
            0 <= 2 * b < p,
            x == m * p + b,
    ;
    spacing_is(x, 1, e);
    lemma_fundamental_div_mod_converse(x as int, p as int, m as int, b as int);
}

/// A small subtraction is lost.
proof fn little_less(m: nat, e: nat, b: nat)
    requires
        0x80_0000 <= m < 0x100_0000,
        e > 0,
        4 * b < pow2(e),
    ensures
        m * pow2(e) >= b,
        nearest((m * pow2(e) - b) as nat, 1) == m * pow2(e),
{
    let p = pow2(e);
    let h = pow2((e - 1) as nat);
    lemma_pow2_unfold(e);
    lemma_pow2_pos((e - 1) as nat);
    assert(1 * p == p && 1 * h == h);
    assert(m * p >= p) by (nonlinear_arith)
        requires
            m >= 1,
            p >= 0,
    ;
    let x = (m * p - b) as nat;
    if b == 0 {
        exact(m, e);
    } else if m > 0x80_0000 {
        assert(p * 0x80_0000 <= x < p * 0x100_0000 && x == (m - 1) * p + (p - b))
            by (nonlinear_arith)
            requires
                0x80_0000 < m < 0x100_0000,
                0 <= 4 * b < p,
                x == m * p - b,
        ;
        spacing_is(x, 1, e);
        lemma_fundamental_div_mod_converse(x as int, p as int, m - 1, p - b);
    } else {
        assert(m * p == 0x100_0000 * h) by (nonlinear_arith)
            requires
                m == 0x80_0000,
                p == 2 * h,
        ;
        assert(h * 0x80_0000 <= x < h * 0x100_0000 && x == 0xff_ffff * h + (h - b));
        spacing_is(x, 1, (e - 1) as nat);
        lemma_fundamental_div_mod_converse(x as int, h as int, 0xff_ffff, h - b);
    }
}

/// A number that is 80 binary places below another is little.
proof fn far_below(m: nat, low: nat, high: nat)
    requires
        m < 0x100_0000,
        low + 80 < high,
    ensures
        4 * (m * pow2(low)) < pow2(high),
{
    lemma2_to64();
    lemma_pow2_adds(26, low);
    lemma_pow2_pos(low);
    lemma_pow2_strictly_increases(26 + low, high);
    assert(pow2(26) == 0x400_0000);
    assert(4 * (m * pow2(low)) < 0x400_0000 * pow2(low)) by (nonlinear_arith)
        requires
            m < 0x100_0000,
            pow2(low) > 0,
    ;
}

/// The number nearest to an integer times a power of two.
fn placed(n: u128, e: u32) -> (r: Single)
    requires
        n < 0x4000_0000_0000_0000_0000_0000_0000_0000,
        e <= 254,
        n == 0 || n >= 0x80_0000 || e <= 253,
    ensures
        r@ == rounded((n * pow2(e as nat)) as nat, 1),
{
    if n >= 0x80_0000 {
        return nearest_single(n, 1, e);
    }
    if n == 0 {
        proof {
            little_is_nothing(0, 1);
            powers();
            assert(0 * pow2(e as nat) == 0);
        }
        return Single { mantissa: 0, exponent: 0 };
    }
    let mut m: u32 = n as u32;
    let mut place: u32 = e;
    while m < 0x80_0000 && place > 0
        invariant
            0 < m < 0x100_0000,
            place <= 253,
            m * pow2(place as nat) == n * pow2(e as nat),
        decreases place,
    {
        proof {
            lemma_pow2_unfold(place as nat);
            let h = pow2((place - 1) as nat);
            assert(m * (2 * h) == (m * 2) * h) by (nonlinear_arith);
        }
        m = m * 2;
        place = place - 1;
    }
    proof {
        value_is_rounded(m as nat, place as nat);
    }
    Single { mantissa: m, exponent: place }
}

impl Single {
    /// Nothing.
    pub fn zero() -> (r: Single)
        ensures
            r@ == 0,
    {
        proof {
            assert(0 * pow2(0) == 0);
        }
        Single { mantissa: 0, exponent: 0 }
    }

    /// What lies beyond all numbers.
    pub fn infinite() -> (r: Single)
        ensures
            r@ == infinite(),
    {
        proof {
            value_is_rounded(0x80_0000, 254);
        }
        Single { mantissa: 0x80_0000, exponent: 254 }
    }

    /// The number nearest to an integer.
    pub fn whole(n: u64) -> (r: Single)
        ensures
            r@ == whole(n as nat),
            r@ < infinite(),
            n > 0 ==> r@ > 0,
    {
        proof {
            whole_is_finite(n as nat);
        }
        placed(n as u128, 149)
    }

    /// Half of the number nearest to an integer.
    pub fn half(n: u64) -> (r: Single)
        ensures
            r@ == half(n as nat),
            r@ < infinite(),
    {
        proof {
            half_is_finite(n as nat);
        }
        Single::whole(n).over(Single::whole(2))
    }

    /// The number nearest to a fraction.
    pub fn fraction(n: u32, d: u32) -> (r: Single)
        requires
            d > 0,
        ensures
            r@ == fraction(n as nat, d as nat),
    {
        if n == 0 {
            proof {
                assert(0 * one() == 0);
                little_is_nothing(0, d as nat);
            }
            return Single::zero();
        }
        proof {
            powers();
            lemma_pow2_adds(60, 89);
            assert((n * 0x1000_0000_0000_0000) * pow2(89) == n * pow2(149)) by (nonlinear_arith)
                requires
                    pow2(149) == 0x1000_0000_0000_0000 * pow2(89),
            ;
        }
        nearest_single(n as u128 * 0x1000_0000_0000_0000, d as u128, 89)
    }

    /// Whether this number is smaller.
    pub fn less(self, other: Single) -> (r: bool)
        ensures
            r == (self@ < other@),
    {
        proof {
            use_type_invariant(&self);
            use_type_invariant(&other);
            let (a, b) = (self, other);
            if a.exponent == b.exponent {
                lemma_pow2_pos(a.exponent as nat);
                if a.mantissa < b.mantissa {
                    shrink(a.mantissa as int, b.mantissa as int, pow2(a.exponent as nat) as int);
                } else {
                    shrink(b.mantissa as int, a.mantissa as int, pow2(a.exponent as nat) as int);
                }
            } else if a.exponent < b.exponent {
                order(a.mantissa as nat, a.exponent as nat, b.mantissa as nat, b.exponent as nat);
            } else {
                order(b.mantissa as nat, b.exponent as nat, a.mantissa as nat, a.exponent as nat);
            }
        }
        self.exponent < other.exponent || (self.exponent == other.exponent && self.mantissa
            < other.mantissa)
    }

    /// The sum.
    pub fn plus(self, other: Single) -> (r: Single)
        ensures
            r@ == sum(self@, other@),
    {
        let (a, b) = if self.exponent >= other.exponent {
            (self, other)
        } else {
            (other, self)
        };
        proof {
            use_type_invariant(&a);
            use_type_invariant(&b);
        }
        let gap: u32 = a.exponent - b.exponent;
        if gap > 80 {
            proof {
                far_below(b.mantissa as nat, b.exponent as nat, a.exponent as nat);
                little_more(a.mantissa as nat, a.exponent as nat, b@);
                value_is_rounded(a.mantissa as nat, a.exponent as nat);
            }
            return a;
        }
        let p: u128 = power(gap);
        proof {
            apply_gap(a.mantissa as nat, b.mantissa as nat, gap as nat, b.exponent as nat);
        }
        let n: u128 = a.mantissa as u128 * p + b.mantissa as u128;
        placed(n, b.exponent)
    }

    /// How far two numbers are apart.
    pub fn apart(self, other: Single) -> (r: Single)
        ensures
            r@ == signed(self@ - other@) || r@ == -signed(self@ - other@),
            r@ == rounded(
                (if self@ < other@ {
                    other@ - self@
                } else {
                    self@ - other@
                }) as nat,
                1,
            ),
    {
        let (a, b) = if self.less(other) {
            (other, self)
        } else {
            (self, other)
        };
        proof {
            use_type_invariant(&a);
            use_type_invariant(&b);
            if a.exponent < b.exponent {
                order(a.mantissa as nat, a.exponent as nat, b.mantissa as nat, b.exponent as nat);
            }
        }
        let gap: u32 = a.exponent - b.exponent;
        if gap > 80 {
            proof {
                far_below(b.mantissa as nat, b.exponent as nat, a.exponent as nat);
                little_less(a.mantissa as nat, a.exponent as nat, b@);
                value_is_rounded(a.mantissa as nat, a.exponent as nat);
            }
            return a;
        }
        let p: u128 = power(gap);
        proof {
            apply_gap(a.mantissa as nat, b.mantissa as nat, gap as nat, b.exponent as nat);
            let q = pow2(b.exponent as nat);
            lemma_pow2_pos(b.exponent as nat);
            assert(a.mantissa * p >= b.mantissa) by (nonlinear_arith)
                requires
                    a.mantissa * p * q >= b.mantissa * q,
                    q > 0,
            ;
            assert((a.mantissa * p - b.mantissa) * q == a.mantissa * p * q - b.mantissa * q)
                by (nonlinear_arith);
            if b.exponent == 254 {
                assert(pow2(0) == 1) by {
                    powers();
                }
            }
        }
        let n: u128 = a.mantissa as u128 * p - b.mantissa as u128;
        placed(n, b.exponent)
    }
}

proof fn apply_gap(m: nat, l: nat, gap: nat, e: nat)
    requires
        m < 0x100_0000,
        gap <= 80,
    ensures
        m * pow2(gap + e) == m * pow2(gap) * pow2(e),
        (m * pow2(gap) + l) * pow2(e) == m * pow2(gap + e) + l * pow2(e),
        m * pow2(gap) <= 0x100_0000_0000_0000_0000_0000_0000,
{
    powers();
    lemma_pow2_adds(gap, e);
    let p = pow2(gap);
    let q = pow2(e);
    assert(m * (p * q) == m * p * q) by (nonlinear_arith);
    assert((m * p + l) * q == m * p * q + l * q) by (nonlinear_arith);
    if gap < 80 {
        lemma_pow2_strictly_increases(gap, 80);
    }
    assert(m * p <= 0x100_0000 * 0x1_0000_0000_0000_0000_0000) by (nonlinear_arith)
        requires
            m < 0x100_0000,
            0 <= p <= 0x1_0000_0000_0000_0000_0000,
    ;
}

/// Of two numbers the one with the larger exponent is larger.
proof fn order(m: nat, e: nat, l: nat, f: nat)
    requires
        m < 0x100_0000,
        l >= 0x80_0000,
        e < f,
    ensures
        m * pow2(e) < l * pow2(f),
{
    lemma_pow2_pos(e);
    lemma_pow2_unfold((e + 1) as nat);
    if e + 1 < f {
        lemma_pow2_strictly_increases((e + 1) as nat, f);
    }
    assert(m * pow2(e) < l * pow2(f)) by (nonlinear_arith)
        requires
            m < 0x100_0000,
            l >= 0x80_0000,
            pow2(e) > 0,
            pow2(f) >= 2 * pow2(e),
    ;
}

impl Single {
    /// The product.
    pub fn times(self, other: Single) -> (r: Single)
        ensures
            r@ == product(self@, other@),
    {
        proof {
            use_type_invariant(&self);
            use_type_invariant(&other);
        }
        let (m, l) = (self.mantissa as u128, other.mantissa as u128);
        let place: u32 = self.exponent + other.exponent;
        let ghost c = pow2(place as nat);
        proof {
            let (e, f) = (self.exponent as nat, other.exponent as nat);
            lemma_pow2_adds(e, f);
            assert((m * pow2(e)) * (l * pow2(f)) == (m * l) * c) by (nonlinear_arith)
                requires
                    c == pow2(e) * pow2(f),
            ;
            assert(0 <= m * l <= 0xff_ffff * 0xff_ffff) by (nonlinear_arith)
                requires
                    0 <= m <= 0xff_ffff,
                    0 <= l <= 0xff_ffff,
            ;
            lemma_pow2_pos(place as nat);
            lemma_pow2_pos(149);
        }
        let n: u128 = m * l;
        if n == 0 {
            proof {
                assert(0 * c == 0);
                little_is_nothing(0, one());
            }
            return Single::zero();
        }
        if place >= 149 {
            proof {
                let up = (place - 149) as nat;
                lemma_pow2_adds(up, 149);
                lemma_pow2_pos(up);
                assert(n * c == (n * pow2(up)) * one()) by (nonlinear_arith)
                    requires
                        c == pow2(up) * one(),
                ;
                nearest_ratio((n * pow2(up)) as nat, 1, one());
                assert(m * l >= 0x80_0000) by (nonlinear_arith)
                    requires
                        m >= 0x80_0000 || l >= 0x80_0000,
                        m * l != 0,
                        m >= 0,
                        l >= 0,
                ;
            }
            return nearest_single(n, 1, place - 149);
        }
        let down: u32 = 149 - place;
        proof {
            lemma_pow2_adds(down as nat, place as nat);
            lemma_pow2_pos(down as nat);
            nearest_ratio(n as nat, pow2(down as nat), c);
        }
        if down > 89 {
            proof {
                powers();
                lemma2_to64();
                if down > 90 {
                    lemma_pow2_strictly_increases(90, down as nat);
                }
                lemma_pow2_adds(30, 60);
                little_is_nothing(n as nat, pow2(down as nat));
            }
            return Single::zero();
        }
        let d: u128 = power(down);
        proof {
            powers();
            assert(n * 1 == n);
        }
        nearest_single(n, d, 0)
    }

    /// The quotient.
    pub fn over(self, other: Single) -> (r: Single)
        requires
            0 < other@ < infinite(),
        ensures
            r@ == quotient(self@, other@),
    {
        proof {
            use_type_invariant(&self);
            use_type_invariant(&other);
            value_is_rounded(self.mantissa as nat, self.exponent as nat);
            value_is_rounded(other.mantissa as nat, other.exponent as nat);
            lemma_pow2_pos(149);
            lemma_pow2_pos(other.exponent as nat);
            assert(0 * pow2(other.exponent as nat) == 0);
        }
        if self.exponent == 254 {
            return self;
        }
        let (m, l) = (self.mantissa as u128, other.mantissa as u128);
        if m == 0 {
            proof {
                assert(0 * pow2(self.exponent as nat) == 0);
                assert(0 * one() == 0);
                little_is_nothing(0, other@);
            }
            return Single::zero();
        }
        let up: u32 = self.exponent + 149;
        let ghost c = pow2(other.exponent as nat);
        proof {
            let e = self.exponent as nat;
            lemma_pow2_adds(e, 149);
            assert((m * pow2(e)) * one() == m * pow2(up as nat)) by (nonlinear_arith)
                requires
                    pow2(up as nat) == pow2(e) * one(),
            ;
        }
        if up >= other.exponent {
            let rest: u32 = up - other.exponent;
            proof {
                lemma_pow2_adds(rest as nat, other.exponent as nat);
                assert(m * pow2(up as nat) == (m * pow2(rest as nat)) * c) by (nonlinear_arith)
                    requires
                        pow2(up as nat) == pow2(rest as nat) * c,
                ;
                nearest_ratio((m * pow2(rest as nat)) as nat, l as nat, c);
            }
            let near: u32 = if rest < 60 {
                rest
            } else {
                60
            };
            let p: u128 = power(near);
            proof {
                powers();
                if near < 60 {
                    lemma_pow2_strictly_increases(near as nat, 60);
                }
                let far = (rest - near) as nat;
                lemma_pow2_adds(near as nat, far);
                assert((m * p) * pow2(far) == m * pow2(rest as nat)) by (nonlinear_arith)
                    requires
                        pow2(rest as nat) == p * pow2(far),
                ;
                assert(0 <= m * p <= 0xff_ffff * 0x1000_0000_0000_0000) by (nonlinear_arith)
                    requires
                        0 <= m <= 0xff_ffff,
                        0 <= p <= 0x1000_0000_0000_0000,
                ;
                if near == 60 {
                    assert(m * p >= 0x1000_0000_0000_0000) by (nonlinear_arith)
                        requires
                            m >= 1,
                            p == 0x1000_0000_0000_0000,
                    ;
                }
            }
            return nearest_single(m * p, l, rest - near);
        }
        let down: u32 = other.exponent - up;
        let ghost a = pow2(up as nat);
        proof {
            lemma_pow2_adds(down as nat, up as nat);
            lemma_pow2_pos(down as nat);
            lemma_pow2_pos(up as nat);
            assert(l * c == (l * pow2(down as nat)) * a) by (nonlinear_arith)
                requires
                    c == pow2(down as nat) * a,
            ;
            assert(l * pow2(down as nat) > 0) by (nonlinear_arith)
                requires
                    l > 0,
                    pow2(down as nat) > 0,
            ;
            nearest_ratio(m as nat, (l * pow2(down as nat)) as nat, a);
        }
        if down > 60 {
            proof {
                powers();
                lemma_pow2_strictly_increases(60, down as nat);
                assert(2 * m < l * pow2(down as nat)) by (nonlinear_arith)
                    requires
                        m <= 0xff_ffff,
                        l >= 1,
                        pow2(down as nat) > 0x1000_0000_0000_0000,
                ;
                little_is_nothing(m as nat, (l * pow2(down as nat)) as nat);
            }
            return Single::zero();
        }
        let p: u128 = power(down);
        proof {
            powers();
            if down < 60 {
                lemma_pow2_strictly_increases(down as nat, 60);
            }
            assert(0 < l * p <= 0xff_ffff * 0x1000_0000_0000_0000) by (nonlinear_arith)
                requires
                    0 < l <= 0xff_ffff,
                    0 < p <= 0x1000_0000_0000_0000,
            ;
            assert(m * 1 == m);
        }
        nearest_single(m, l * p, 0)
    }

    /// The nearest integer, the larger one if two are equally near. Nothing if that is more than
    /// `most`.
    pub fn nearest_whole(self, most: u32) -> (r: Option<u32>)
        ensures
            match r {
                Some(n) => n == half_up(self@, one()) && n <= most,
                None => half_up(self@, one()) > most,
            },
    {
        proof {
            use_type_invariant(&self);
            lemma_pow2_pos(self.exponent as nat);
            lemma_pow2_pos(149);
        }
        let m: u128 = self.mantissa as u128;
        let n: u128 = if self.exponent >= 149 {
            let up: u32 = self.exponent - 149;
            proof {
                lemma_pow2_adds(up as nat, 149);
                lemma_pow2_pos(up as nat);
                let p = pow2(up as nat);
                assert(m * (p * one()) == (m * p) * one()) by (nonlinear_arith);
                let x = m * p;
                assert(x >= 0) by (nonlinear_arith)
                    requires
                        x == m * p,
                        m >= 0,
                        p >= 0,
                ;
                half_up_scales(x as nat, 1, one());
                assert((2 * x + 1) / 2 == x);
                assert(1 * one() == one());
            }
            if up > 60 {
                proof {
                    powers();
                    lemma_pow2_strictly_increases(60, up as nat);
                    assert(m * pow2(up as nat) > 0xffff_ffff) by (nonlinear_arith)
                        requires
                            m >= 1,
                            pow2(up as nat) > 0x1000_0000_0000_0000,
                    ;
                }
                return None;
            }
            let p: u128 = power(up);
            proof {
                powers();
                if up < 60 {
                    lemma_pow2_strictly_increases(up as nat, 60);
                }
                assert(0 <= m * p <= 0xff_ffff * 0x1000_0000_0000_0000) by (nonlinear_arith)
                    requires
                        0 <= m <= 0xff_ffff,
                        0 <= p <= 0x1000_0000_0000_0000,
                ;
            }
            m * p
        } else {
            let down: u32 = 149 - self.exponent;
            proof {
                lemma_pow2_adds(down as nat, self.exponent as nat);
                lemma_pow2_pos(down as nat);
                half_up_scales(m as nat, pow2(down as nat), pow2(self.exponent as nat));
            }
            if down > 60 {
                proof {
                    powers();
                    lemma_pow2_strictly_increases(60, down as nat);
                    let u = pow2(down as nat);
                    assert((2 * m + u) / (2 * u as int) == 0) by (nonlinear_arith)
                        requires
                            0 <= 2 * m < u,
                    ;
                }
                0
            } else {
                let u: u128 = power(down);
                round_half_up(m, u)
            }
        };
        if n <= most as u128 {
            Some(n as u32)
        } else {
            None
        }
    }

    /// The larger of two numbers.
    pub fn at_least(self, other: Single) -> (r: Single)
        ensures
            r@ == if self@ < other@ {
                other@
            } else {
                self@
            },
    {
        if self.less(other) {
            other
        } else {
            self
        }
    }
}

/// A number that may be negative.
#[derive(Clone, Copy, Debug)]
pub struct Balance {
    minus: bool,
    size: Single,
}

impl View for Balance {
    type V = int;

    closed spec fn view(&self) -> int {
        if self.minus {
            -self.size@
        } else {
            self.size@ as int
        }
    }
}

impl Balance {
    /// A number that is not negative.
    pub fn of(size: Single) -> (r: Balance)
        ensures
            r@ == size@,
    {
        Balance { minus: false, size }
    }

    /// The difference of two numbers.
    pub fn between(a: Single, b: Single) -> (r: Balance)
        ensures
            r@ == signed(a@ - b@),
    {
        let minus: bool = a.less(b);
        Balance { minus, size: a.apart(b) }
    }

    /// What is left of it after something is taken away.
    pub fn less_by(self, b: Single) -> (r: Balance)
        ensures
            r@ == signed(self@ - b@),
    {
        if self.minus {
            proof {
                lemma_pow2_pos(277);
                little_is_nothing(0, 1);
            }
            Balance { minus: true, size: self.size.plus(b) }
        } else {
            Balance::between(self.size, b)
        }
    }

    /// Whether it is more.
    pub fn more_than(self, other: Balance) -> (r: bool)
        ensures
            r == (self@ > other@),
    {
        if self.minus {
            if other.minus {
                self.size.less(other.size)
            } else {
                false
            }
        } else if other.minus {
            Single::zero().less(self.size) || Single::zero().less(other.size)
        } else {
            other.size.less(self.size)
        }
    }
}

/// Whole numbers below 2^24 are calculated with exactly, and compared as they are.
pub proof fn whole_numbers_are_exact(
    a: u64,
    b: u64,
    x: Single,
    y: Single,
    s: Single,
    p: Single,
    less: bool,
)
    requires
        call_ensures(Single::whole, (a,), x),
        call_ensures(Single::whole, (b,), y),
        call_ensures(Single::plus, (x, y), s),
        call_ensures(Single::times, (x, y), p),
        call_ensures(Single::less, (x, y), less),
        a < 0x100_0000,
        b < 0x100_0000,
    ensures
        x@ == a * one(),
        a + b < 0x100_0000 ==> s@ == (a + b) * one(),
        a * b < 0x100_0000 ==> p@ == (a * b) * one(),
        less <==> a < b,
{
    let o = one();
    lemma_pow2_pos(149);
    let (n, m) = (a as nat, b as nat);
    small_integers_are_exact(n);
    small_integers_are_exact(m);
    if n + m < 0x100_0000 {
        small_integers_are_exact(n + m);
        assert(n * o + m * o == (n + m) * o) by (nonlinear_arith);
    }
    if n * m < 0x100_0000 {
        small_integers_are_exact(n * m);
        assert((n * o) * (m * o) * 1 == ((n * m) * o) * o) by (nonlinear_arith);
        rounding_keeps_the_order((n * o) * (m * o), o, (n * m) * o, 1);
        rounding_keeps_the_order((n * m) * o, 1, (n * o) * (m * o), o);
    }
    assert(n * o < m * o <==> n < m) by (nonlinear_arith)
        requires
            o > 0,
    ;
}

/// A quotient of two whole numbers below 2^24 that goes without a rest is exact, and the difference of
/// two numbers does not depend on their order.
pub proof fn whole_quotients_are_exact(
    a: u64,
    b: u64,
    x: Single,
    y: Single,
    z: Single,
    q: Single,
    d: Single,
    e: Single,
)
    requires
        call_ensures(Single::whole, (a,), x),
        call_ensures(Single::whole, (b,), y),
        call_ensures(Single::times, (x, y), z),
        call_ensures(Single::over, (z, y), q),
        call_ensures(Single::apart, (x, y), d),
        call_ensures(Single::apart, (y, x), e),
        0 < b,
        a * b < 0x100_0000,
        a < 0x100_0000,
        b < 0x100_0000,
    ensures
        q@ == x@,
        d@ == e@,
        a >= b ==> d@ == (a - b) * one(),
{
    let o = one();
    lemma_pow2_pos(149);
    a_thousand_is_finite();
    let (n, m) = (a as nat, b as nat);
    small_integers_are_exact(n);
    small_integers_are_exact(m);
    small_integers_are_exact(n * m);
    assert((n * o) * (m * o) * 1 == ((n * m) * o) * o) by (nonlinear_arith);
    rounding_keeps_the_order((n * o) * (m * o), o, (n * m) * o, 1);
    rounding_keeps_the_order((n * m) * o, 1, (n * o) * (m * o), o);
    whole_is_finite(n * m);
    assert(m * o > 0) by (nonlinear_arith)
        requires
            m > 0,
            o > 0,
    ;
    assert((((n * m) * o) * o) * 1 == (n * o) * (m * o)) by (nonlinear_arith);
    rounding_keeps_the_order(((n * m) * o) * o, m * o, n * o, 1);
    rounding_keeps_the_order(n * o, 1, ((n * m) * o) * o, m * o);
    if n >= m {
        small_integers_are_exact((n - m) as nat);
        assert(n * o - m * o == (n - m) * o) by (nonlinear_arith);
        assert(n * o >= m * o) by (nonlinear_arith)
            requires
                n >= m,
                o > 0,
        ;
    }
}

/// A quotient is rounded by no more than the part that the last of 24 binary digits is, and by one of
/// the smallest numbers.
pub proof fn quotients_are_close(n: nat, d: nat)
    requires
        d > 0,
        n <= 0x100 * one() * d,
    ensures
        0x100_0000 * (rounded(n, d) * d) <= 0x100_0001 * (n + d),
        0x100_0000 * (rounded(n, d) * d) >= 0xff_ffff * (n - d),
        rounded(n, d) < infinite(),
{
    let q = n / d;
    a_thousand_is_finite();
    assert(q * d <= n < q * d + d) by (nonlinear_arith)
        requires
            q == n / d,
            d > 0,
    ;
    let o = one();
    assert(q <= 0x100 * o) by (nonlinear_arith)
        requires
            q * d <= n,
            n <= 0x100 * o * d,
            d > 0,
    ;
    assert(o >= 2) by {
        lemma_pow2_strictly_increases(1, 149);
        lemma2_to64();
    }
    rounding_keeps_the_order(q, 1, n, d);
    assert(n * 1 <= (q + 1) * d) by (nonlinear_arith)
        requires
            n < q * d + d,
    ;
    rounding_keeps_the_order(n, d, q + 1, 1);
    rounding_is_close(q);
    rounding_is_close(q + 1);
    let r = rounded(n, d);
    assert(0x100_0000 * (r * d) <= 0x100_0001 * (n + d)) by (nonlinear_arith)
        requires
            0x100_0000 * r <= 0x100_0001 * (q + 1),
            q * d <= n,
            d > 0,
            q >= 0,
    ;
    assert(0x100_0000 * (r * d) >= 0xff_ffff * (n - d)) by (nonlinear_arith)
        requires
            0x100_0000 * r >= 0xff_ffff * q,
            n < q * d + d,
            d > 0,
    ;
}

} // verus!
