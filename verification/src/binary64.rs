//! Positive fractions rounded the way double-precision arithmetic rounds them, in integers.
//!
//! A double of 53 significant bits is held as a mantissa over a power of two.

use vstd::prelude::*;

verus! {

/// The power of two with 52 zeros: mantissas are at least this large.
pub const HIDDEN_BIT: u128 = 4503599627370496;

/// The integer nearest to `n / d`, the even one if two are equally near.
pub open spec fn nearest_even(n: nat, d: nat) -> nat {
    let q = n / d;
    let r = n % d;
    if 2 * r < d || (2 * r == d && q % 2 == 0) {
        q
    } else {
        q + 1
    }
}

/// The power of two that the double nearest to `n / d` has as its denominator.
pub open spec fn unit(n: nat, d: nat) -> nat
    decreases 2 * (d * HIDDEN_BIT) - n,
{
    if n == 0 || n >= d * HIDDEN_BIT {
        1
    } else {
        2 * unit(2 * n, d)
    }
}

/// The numerator, over `unit(n, d)`, of the double nearest to `n / d`, for quotients below the
/// power of two with 53 zeros.
pub open spec fn mantissa(n: nat, d: nat) -> nat {
    nearest_even(n * unit(n, d), d)
}

/// A positive double: `mantissa / unit`.
#[derive(Clone, Copy, Debug)]
pub struct Double {
    pub mantissa: u128,
    pub unit: u128,
}

impl Double {
    /// This is the double nearest to `n / d`.
    pub open spec fn is_nearest(self, n: nat, d: nat) -> bool {
        self.mantissa == mantissa(n, d) && self.unit == unit(n, d)
    }
}

/// The integer nearest to `n / d`, the even one if two are equally near.
pub fn round_even(n: u128, d: u128) -> (q: u128)
    requires
        0 < d <= u128::MAX / 2,
        n < u128::MAX,
    ensures
        q == nearest_even(n as nat, d as nat),
        n / d <= q <= n / d + 1,
{
    let q: u128 = n / d;
    let r: u128 = n % d;
    proof {
        assert(q <= n) by (nonlinear_arith)
            requires
                q == n / d,
                d > 0,
        ;
    }
    if 2 * r < d || (2 * r == d && q % 2 == 0) {
        q
    } else {
        q + 1
    }
}

/// The double nearest to `n / d`.
pub fn double(n: u128, d: u128) -> (r: Double)
    requires
        0 < n,
        0 < d <= 0x1_0000_0000_0000_0000,
        n < d * HIDDEN_BIT * 2,
        d <= n * HIDDEN_BIT,
    ensures
        r.is_nearest(n as nat, d as nat),
        0 < r.unit,
        d * HIDDEN_BIT <= r.unit * n < d * HIDDEN_BIT * 2,
        HIDDEN_BIT <= r.mantissa <= 2 * HIDDEN_BIT,
        1 <= r.unit <= 2 * HIDDEN_BIT * HIDDEN_BIT,
{
    let limit: u128 = d * HIDDEN_BIT;
    let mut scaled: u128 = n;
    let mut two: u128 = 1;
    assert(two * unit(scaled as nat, d as nat) == unit(n as nat, d as nat));
    while scaled < limit
        invariant
            0 < n,
            0 < d <= 0x1_0000_0000_0000_0000,
            limit == d * HIDDEN_BIT,
            0 < scaled,
            scaled < limit * 2,
            scaled == n * two,
            d <= n * HIDDEN_BIT,
            1 <= two,
            two <= 2 * HIDDEN_BIT * HIDDEN_BIT,
            two * unit(scaled as nat, d as nat) == unit(n as nat, d as nat),
        decreases 2 * limit - scaled,
    {
        proof {
            assert(two < HIDDEN_BIT * HIDDEN_BIT) by (nonlinear_arith)
                requires
                    n * two < d * HIDDEN_BIT,
                    d <= n * HIDDEN_BIT,
                    0 < n,
                    0 <= two,
                    HIDDEN_BIT == 4503599627370496,
            ;
            assert(2 * (n * two) == n * (2 * two)) by (nonlinear_arith);
            let u = unit(2 * scaled as nat, d as nat);
            assert(two * (2 * u) == (2 * two) * u) by (nonlinear_arith);
        }
        scaled = scaled * 2;
        two = two * 2;
    }
    let m: u128 = round_even(scaled, d);
    proof {
        let last = unit(scaled as nat, d as nat);
        assert(two * last == two) by (nonlinear_arith)
            requires
                last == 1,
        ;
        assert(two * n == n * two) by (nonlinear_arith);
        let q = scaled as int / d as int;
        assert(HIDDEN_BIT <= q < 2 * HIDDEN_BIT) by (nonlinear_arith)
            requires
                q == scaled as int / d as int,
                d > 0,
                d * HIDDEN_BIT <= scaled,
                scaled < d * HIDDEN_BIT * 2,
        ;
    }
    Double { mantissa: m, unit: two }
}

/// The integer nearest to `m / u`, the larger one if two are equally near.
pub open spec fn half_up(m: nat, u: nat) -> nat {
    (2 * m + u) / (2 * u)
}

/// The integer nearest to `m / u`, the larger one if two are equally near.
pub fn round_half_up(m: u128, u: u128) -> (q: u128)
    requires
        m <= 0x1000_0000_0000_0000_0000_0000_0000_0000,
        0 < u <= 0x1000_0000_0000_0000_0000_0000_0000_0000,
    ensures
        q == half_up(m as nat, u as nat),
{
    (2 * m + u) / (2 * u)
}

/// A power of two.
pub open spec fn is_power(u: nat) -> bool
    decreases u,
{
    u == 1 || (u >= 2 && u % 2 == 0 && is_power(u / 2))
}

/// Twice a power of two is one.
pub proof fn power_doubles(u: nat)
    requires
        is_power(u),
    ensures
        is_power(2 * u),
{
    assert((2 * u) / 2 == u);
}

/// Of two powers of two the larger is at least twice the smaller.
pub proof fn powers_are_apart(a: nat, b: nat)
    requires
        is_power(a),
        is_power(b),
        a < b,
    ensures
        2 * a <= b,
    decreases a,
{
    if a >= 2 {
        powers_are_apart(a / 2, b / 2);
    }
}

/// The denominator of a double is a power of two.
pub proof fn unit_is_a_power(n: nat, d: nat)
    ensures
        is_power(unit(n, d)),
    decreases 2 * (d * HIDDEN_BIT) - n,
{
    if !(n == 0 || n >= d * HIDDEN_BIT) {
        unit_is_a_power(2 * n, d);
        power_doubles(unit(2 * n, d));
    }
}

/// The power of two by whose multiples doubles of the size of `n / d` are apart, for quotients that
/// are too large to have fractions.
pub open spec fn spacing(n: nat, d: nat) -> nat
    decreases n - d,
{
    if d == 0 || n < d * HIDDEN_BIT * 2 {
        1
    } else {
        2 * spacing(n, 2 * d)
    }
}

/// The double nearest to an integer.
pub open spec fn whole(n: nat) -> nat {
    nearest_even(n, spacing(n, 1)) * spacing(n, 1)
}

/// The double nearest to `n / d`, for quotients that are too large to have fractions: a multiple
/// of `spacing(n, d)`.
pub fn large(n: u128, d: u128) -> (r: u128)
    requires
        0 < d <= 0x1_0000_0000_0000_0000,
        n <= 0x1000_0000_0000_0000_0000_0000_0000_0000,
    ensures
        r == nearest_even(n as nat, (d * spacing(n as nat, d as nat)) as nat) * spacing(
            n as nat,
            d as nat,
        ),
        r <= 2 * n + 1,
{
    let mut step: u128 = 1;
    let mut scaled: u128 = d;
    assert(step * spacing(n as nat, scaled as nat) == spacing(n as nat, d as nat));
    while n / 9007199254740992 >= scaled
        invariant
            0 < d <= 0x1_0000_0000_0000_0000,
            n <= 0x1000_0000_0000_0000_0000_0000_0000_0000,
            1 <= step,
            scaled == d * step,
            d <= scaled,
            step == 1 || step <= n,
            step <= scaled <= 0x1_0000_0000_0000_0000 || step <= scaled <= n / 4503599627370496,
            step * spacing(n as nat, scaled as nat) == spacing(n as nat, d as nat),
        decreases n - scaled,
    {
        proof {
            assert(n >= scaled * HIDDEN_BIT * 2);
            let s = spacing(n as nat, 2 * scaled as nat);
            assert(step * (2 * s) == (2 * step) * s) by (nonlinear_arith);
            assert(2 * (d * step) == d * (2 * step)) by (nonlinear_arith);
        }
        step = step * 2;
        scaled = scaled * 2;
    }
    proof {
        assert(n < scaled * HIDDEN_BIT * 2);
        let s = spacing(n as nat, scaled as nat);
        assert(step * s == step) by (nonlinear_arith)
            requires
                s == 1,
        ;
    }
    let q: u128 = round_even(n, scaled);
    proof {
        let floor = n as int / scaled as int;
        assert(floor * step <= n) by (nonlinear_arith)
            requires
                floor == n as int / scaled as int,
                step <= scaled,
                0 < scaled,
                0 <= n,
                0 <= step,
        ;
        assert(q * step <= floor * step + step) by (nonlinear_arith)
            requires
                q <= floor + 1,
                0 <= step,
        ;
    }
    q * step
}

/// The tenths of the double nearest to `n / d`: the nearest number of them, the even one if two
/// are equally near.
pub open spec fn tenths(n: nat, d: nat) -> nat {
    if n == 0 {
        0
    } else if n < d * HIDDEN_BIT * 2 {
        nearest_even(10 * mantissa(n, d), unit(n, d))
    } else {
        10 * (nearest_even(n, (d * spacing(n, d)) as nat) * spacing(n, d))
    }
}

/// The tenths of the double nearest to `n / d`.
pub fn tenths_of(n: u128, d: u128) -> (r: u128)
    requires
        0 < d <= 0x1_0000_0000,
        n <= 0x2_0000_0000_0000_0000,
    ensures
        r == tenths(n as nat, d as nat),
{
    if n == 0 {
        return 0;
    }
    if n < d * 9007199254740992 {
        let x = double(n, d);
        round_even(10 * x.mantissa, x.unit)
    } else {
        10 * large(n, d)
    }
}

impl Double {
    /// The value is larger than that of the other.
    pub open spec fn is_above(self, other: Double) -> bool {
        self.mantissa * other.unit > other.mantissa * self.unit
    }

    /// The mantissa has all its bits, and the unit is a power of two.
    pub open spec fn normal(self) -> bool {
        &&& HIDDEN_BIT <= self.mantissa <= 2 * HIDDEN_BIT
        &&& is_power(self.unit as nat)
        &&& 0 < self.unit
    }

    /// Whether the value is larger than that of the other.
    pub fn above(&self, other: &Double) -> (r: bool)
        requires
            self.normal(),
            other.normal(),
        ensures
            r == self.is_above(*other),
    {
        let a: u128 = self.mantissa;
        let u: u128 = self.unit;
        let b: u128 = other.mantissa;
        let v: u128 = other.unit;
        if u == v {
            assert((a * v > b * u) == (a > b)) by (nonlinear_arith)
                requires
                    u == v,
                    0 < u,
            ;
            return a > b;
        }
        if u < v {
            proof {
                powers_are_apart(u as nat, v as nat);
                assert(a * v >= b * u) by (nonlinear_arith)
                    requires
                        a >= HIDDEN_BIT,
                        b <= 2 * HIDDEN_BIT,
                        v >= 2 * u,
                        0 < u,
                ;
                assert(!(a == HIDDEN_BIT && b == 2 * HIDDEN_BIT && v / 2 == u && v % 2 == 0)
                    ==> a * v > b * u) by (nonlinear_arith)
                    requires
                        a >= HIDDEN_BIT,
                        b <= 2 * HIDDEN_BIT,
                        v >= 2 * u,
                        0 < u,
                ;
                assert((a == HIDDEN_BIT && b == 2 * HIDDEN_BIT && v / 2 == u && v % 2 == 0)
                    ==> a * v == b * u) by (nonlinear_arith)
                    requires
                        v / 2 == u && v % 2 == 0 ==> v == 2 * u,
                ;
            }
            return !(a == HIDDEN_BIT && b == 2 * HIDDEN_BIT && v / 2 == u && v % 2 == 0);
        }
        proof {
            powers_are_apart(v as nat, u as nat);
            assert(a * v <= b * u) by (nonlinear_arith)
                requires
                    b >= HIDDEN_BIT,
                    a <= 2 * HIDDEN_BIT,
                    u >= 2 * v,
                    0 < v,
            ;
        }
        false
    }
}

/// A number differs from the fraction that it is nearest to by at most half a unit.
pub proof fn a_number_is_close(n: nat, d: nat)
    requires
        d > 0,
    ensures
        unit(n, d) > 0,
        -(d as int) <= 2 * (mantissa(n, d) * d) - 2 * (n * unit(n, d)) <= d,
{
    unit_is_a_power(n, d);
    let u = unit(n, d);
    let w = n * u;
    let (q, r) = (w / d, w % d);
    assert(w == d * q + r && 0 <= r < d) by (nonlinear_arith)
        requires
            d > 0,
            q == w / d,
            r == w % d,
    ;
    let m = mantissa(n, d);
    assert(m == q || m == q + 1);
    assert(q * d == d * q && (q + 1) * d == d * q + d) by (nonlinear_arith);
}

/// A unit is small beside the number that is counted in it.
pub proof fn a_unit_is_small(n: nat, d: nat)
    requires
        n > 0,
        d > 0,
    ensures
        n * unit(n, d) >= d * HIDDEN_BIT,
    decreases 2 * (d * HIDDEN_BIT) - n,
{
    if n < d * HIDDEN_BIT {
        a_unit_is_small(2 * n, d);
        let v = unit(2 * n, d);
        assert(unit(n, d) == 2 * v);
        assert(n * (2 * v) == (2 * n) * v) by (nonlinear_arith);
    } else {
        assert(unit(n, d) == 1);
        assert(n * 1 == n);
    }
}

/// The tenths of a fraction are within little more than half a tenth of it.
pub proof fn tenths_are_close(n: nat, d: nat)
    requires
        0 < n <= 0x400_0000_0000,
        0 < d,
    ensures
        -522 * d <= 1024 * (tenths(n, d) * d - 10 * n) <= 522 * d,
{
    let h = HIDDEN_BIT as int;
    assert(n < d * HIDDEN_BIT * 2) by (nonlinear_arith)
        requires
            n <= 0x400_0000_0000,
            d >= 1,
            HIDDEN_BIT == 4503599627370496,
    ;
    a_number_is_close(n, d);
    a_unit_is_small(n, d);
    let (m, u) = (mantissa(n, d) as int, unit(n, d) as int);
    assert(u >= 1024) by (nonlinear_arith)
        requires
            n * u >= d * h,
            n <= 0x400_0000_0000,
            d >= 1,
            h == 4503599627370496,
            u > 0,
    ;
    let t = tenths(n, d) as int;
    let w = 10 * m;
    let (q, r) = (w / u, w % u);
    assert(w == u * q + r && 0 <= r < u) by (nonlinear_arith)
        requires
            u > 0,
            q == w / u,
            r == w % u,
    ;
    assert(t == q || t == q + 1);
    let tu = t * u;
    assert(-u <= 2 * tu - 2 * w <= u) by {
        assert(q * u == u * q && (q + 1) * u == u * q + u) by (nonlinear_arith);
    }
    let (nu, md) = (n * u, m * d);
    let gap = t * d - 10 * n;
    let f = 2 * tu - 2 * w;
    let g = 2 * md - 2 * nu;
    assert(2 * (gap * u) == d * f + 10 * g) by (nonlinear_arith)
        requires
            gap == t * d - 10 * n,
            f == 2 * tu - 2 * w,
            g == 2 * md - 2 * nu,
            tu == t * u,
            w == 10 * m,
            md == m * d,
            nu == n * u,
    ;
    let du = d * u;
    assert(-du <= d * f <= du) by (nonlinear_arith)
        requires
            -u <= f <= u,
            du == d * u,
            d >= 0,
    ;
    assert(1024 * d <= du) by (nonlinear_arith)
        requires
            u >= 1024,
            du == d * u,
            d >= 0,
    ;
    let gu = gap * u;
    assert(-(522 * du) <= 1024 * gu <= 522 * du);
    assert(-522 * d <= 1024 * gap <= 522 * d) by (nonlinear_arith)
        requires
            -(522 * du) <= 1024 * gu <= 522 * du,
            gu == gap * u,
            du == d * u,
            u > 0,
    ;
}

/// Integers below 2^53 are numbers as they are.
pub proof fn an_integer_is_itself(n: nat)
    requires
        n < 2 * HIDDEN_BIT,
    ensures
        whole(n) == n,
{
    assert(spacing(n, 1) == 1);
    assert(n / 1 == n && n % 1 == 0);
}

} // verus!
