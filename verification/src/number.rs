//! Numbers written in decimal.

use vstd::arithmetic::power2::{
    lemma2_to64, lemma_pow2_adds, lemma_pow2_pos, lemma_pow2_strictly_increases, pow2,
};
use vstd::prelude::*;

use crate::big::{Big, single_of};
use crate::single::{Single, infinite, little_is_nothing, much_is_infinite, one, rounded};

verus! {

/// Whether `c` is a decimal digit.
pub open spec fn is_digit(c: char) -> bool {
    '0' <= c <= '9'
}

/// The value of a decimal digit.
pub open spec fn digit_value(c: char) -> nat {
    (c as int - '0' as int) as nat
}

/// Whether every character is a decimal digit.
pub open spec fn all_digits(s: Seq<char>) -> bool {
    forall|i: int| 0 <= i < s.len() ==> is_digit(#[trigger] s[i])
}

/// The number that a sequence of digits writes. The empty sequence writes zero.
pub open spec fn digits_value(s: Seq<char>) -> nat
    decreases s.len(),
{
    if s.len() == 0 {
        0
    } else {
        digits_value(s.drop_last()) * 10 + digit_value(s.last())
    }
}

/// The number that `s[from..to]` writes, if those are digits and it is at most `max`.
fn digits(s: &[char], from: usize, to: usize, max: u64) -> (r: Option<u64>)
    requires
        from <= to <= s@.len(),
        max <= 0x1000_0000_0000,
    ensures
        match r {
            Some(v) => all_digits(s@.subrange(from as int, to as int)) && v == digits_value(
                s@.subrange(from as int, to as int),
            ) && v <= max,
            None => !all_digits(s@.subrange(from as int, to as int)) || digits_value(
                s@.subrange(from as int, to as int),
            ) > max,
        },
{
    let ghost whole = s@.subrange(from as int, to as int);
    let mut value: u64 = 0;
    let mut over: bool = false;
    let mut i: usize = from;
    while i < to
        invariant
            from <= i <= to <= s@.len(),
            max <= 0x1000_0000_0000,
            whole == s@.subrange(from as int, to as int),
            all_digits(whole.take(i - from)),
            over ==> digits_value(whole.take(i - from)) > max,
            !over ==> value == digits_value(whole.take(i - from)) && value <= max,
        decreases to - i,
    {
        let c: char = s[i];
        let ghost seen = whole.take(i - from);
        let ghost next = whole.take(i - from + 1);
        proof {
            assert(next.drop_last() =~= seen);
            assert(next.last() == c);
            assert(c == whole[i - from]);
        }
        if c < '0' || c > '9' {
            proof {
                assert(!is_digit(whole[i - from]));
            }
            return None;
        }
        proof {
            assert forall|k: int| 0 <= k < next.len() implies is_digit(#[trigger] next[k]) by {
                if k < seen.len() {
                    assert(next[k] == seen[k]);
                }
            }
        }
        if !over {
            value = value * 10 + (c as u64 - 48);
            if value > max {
                over = true;
            }
        }
        i = i + 1;
    }
    assert(whole.take(to - from) =~= whole);
    if over {
        None
    } else {
        Some(value)
    }
}

/// The 32-bit number that `s` writes: an optional plus sign and at least one digit.
pub open spec fn unsigned(s: Seq<char>) -> Option<nat> {
    let body = if s.len() > 0 && s[0] == '+' {
        s.drop_first()
    } else {
        s
    };
    if body.len() > 0 && all_digits(body) && digits_value(body) <= u32::MAX {
        Some(digits_value(body))
    } else {
        None
    }
}

/// The 32-bit number that `s` writes.
pub fn parse_u32(s: &[char]) -> (r: Option<u32>)
    ensures
        match r {
            Some(v) => unsigned(s@) == Some(v as nat),
            None => unsigned(s@) is None,
        },
{
    let from: usize = if s.len() > 0 && s[0] == '+' {
        1
    } else {
        0
    };
    proof {
        assert(s@.subrange(0, s@.len() as int) =~= s@);
        if s@.len() > 0 {
            assert(s@.subrange(1, s@.len() as int) =~= s@.drop_first());
        }
    }
    if from == s.len() {
        return None;
    }
    match digits(s, from, s.len(), 0xffff_ffff) {
        Some(v) => Some(v as u32),
        None => None,
    }
}

/// The signed 32-bit number that `s` writes: an optional sign and at least one digit.
pub open spec fn signed(s: Seq<char>) -> Option<int> {
    let minus = s.len() > 0 && s[0] == '-';
    let body = if s.len() > 0 && (s[0] == '+' || s[0] == '-') {
        s.drop_first()
    } else {
        s
    };
    if body.len() > 0 && all_digits(body) && digits_value(body) <= if minus {
        0x8000_0000int
    } else {
        0x7fff_ffff
    } {
        Some(
            if minus {
                -digits_value(body)
            } else {
                digits_value(body) as int
            },
        )
    } else {
        None
    }
}

/// The signed 32-bit number that `s` writes.
pub fn parse_i32(s: &[char]) -> (r: Option<i32>)
    ensures
        match r {
            Some(v) => signed(s@) == Some(v as int),
            None => signed(s@) is None,
        },
{
    let minus: bool = s.len() > 0 && s[0] == '-';
    let from: usize = if s.len() > 0 && (s[0] == '+' || s[0] == '-') {
        1
    } else {
        0
    };
    proof {
        assert(s@.subrange(0, s@.len() as int) =~= s@);
        if s@.len() > 0 {
            assert(s@.subrange(1, s@.len() as int) =~= s@.drop_first());
        }
    }
    if from == s.len() {
        return None;
    }
    let max: u64 = if minus {
        0x8000_0000
    } else {
        0x7fff_ffff
    };
    match digits(s, from, s.len(), max) {
        Some(v) => if minus {
            Some((0 - v as i64) as i32)
        } else {
            Some(v as i32)
        },
        None => None,
    }
}

/// Position of the first full stop, or the end.
pub open spec fn point(s: Seq<char>) -> int {
    crate::text::find_from(s, '.', 0)
}

/// Position of the first letter `e` at or after `from`, in either case, or the end.
pub open spec fn mark_from(s: Seq<char>, from: int) -> int
    decreases s.len() - from,
{
    if from >= s.len() {
        s.len() as int
    } else if s[from] == 'e' || s[from] == 'E' {
        from
    } else {
        mark_from(s, from + 1)
    }
}

/// The power of ten that an exponent writes: an optional sign and at least one digit.
pub open spec fn exponent(s: Seq<char>) -> Option<int> {
    let body = if s.len() > 0 && (s[0] == '+' || s[0] == '-') {
        s.drop_first()
    } else {
        s
    };
    if body.len() > 0 && all_digits(body) {
        Some(
            if s[0] == '-' {
                -digits_value(body)
            } else {
                digits_value(body) as int
            },
        )
    } else {
        None
    }
}

/// The number that the first `n` of the digits write. Where they run out, zeros follow.
pub open spec fn leading_digits(digits: Seq<char>, n: int) -> nat
    decreases n,
{
    if n <= 0 {
        0
    } else {
        leading_digits(digits, n - 1) * 10 + if n <= digits.len() {
            digit_value(digits[n - 1])
        } else {
            0
        }
    }
}

/// A decimal number: its digits, and how many of them stand before its point, which may be more than
/// there are or less than none.
pub struct Decimal {
    pub digits: Seq<char>,
    pub point: int,
}

/// The unsigned decimal number that `s` writes: at least one digit, with an optional fraction and an
/// optional exponent.
pub open spec fn decimal(s: Seq<char>) -> Option<Decimal> {
    let mark = mark_from(s, 0);
    let power = if mark < s.len() {
        exponent(s.skip(mark + 1))
    } else {
        Some(0int)
    };
    let mantissa = s.take(mark);
    let p = point(mantissa);
    let whole = mantissa.take(p);
    let part = if p < mantissa.len() {
        mantissa.skip(p + 1)
    } else {
        Seq::empty()
    };
    if all_digits(whole) && all_digits(part) && whole.len() + part.len() > 0 && power is Some {
        Some(Decimal { digits: whole + part, point: whole.len() + power->0 })
    } else {
        None
    }
}

/// The whole part of an unsigned decimal number.
pub open spec fn floor_of(s: Seq<char>) -> Option<nat> {
    match decimal(s) {
        Some(d) => Some(leading_digits(d.digits, d.point)),
        None => None,
    }
}

/// A power of ten.
pub open spec fn ten(n: nat) -> nat
    decreases n,
{
    if n == 0 {
        1
    } else {
        10 * ten((n - 1) as nat)
    }
}

/// The single-precision number nearest to a decimal one.
pub open spec fn nearest_to(digits: Seq<char>, point: int) -> nat {
    if point >= digits.len() {
        rounded(digits_value(digits) * ten((point - digits.len()) as nat) * one(), 1)
    } else {
        rounded(digits_value(digits) * one(), ten((digits.len() - point) as nat))
    }
}

/// Whether `s` is the word that is given in both cases, in any mixture of the two.
pub open spec fn reads(s: Seq<char>, lower: Seq<char>, upper: Seq<char>) -> bool {
    &&& s.len() == lower.len()
    &&& s.len() == upper.len()
    &&& forall|i: int| 0 <= i < s.len() ==> (#[trigger] s[i] == lower[i] || s[i] == upper[i])
}

/// A number up to a cap.
pub open spec fn capped(value: nat, cap: u64) -> nat {
    if value > cap {
        cap as nat
    } else {
        value
    }
}

/// The whole part of a decimal number with an optional minus sign, as far as 32 bits hold it.
pub open spec fn whole_part(s: Seq<char>) -> Option<int> {
    let minus = s.len() > 0 && s[0] == '-';
    let body = if minus {
        s.drop_first()
    } else {
        s
    };
    match floor_of(body) {
        Some(v) => Some(
            if minus {
                -capped(v, 0x8000_0000)
            } else {
                capped(v, 0x7fff_ffff) as int
            },
        ),
        None => None,
    }
}

/// A confidence: the single-precision number nearest to a decimal one with an optional sign, or a
/// word for a number that is infinite or none. Negative confidences and none at all count as zero.
pub open spec fn confidence(s: Seq<char>) -> Option<nat> {
    let body = if s.len() > 0 && (s[0] == '+' || s[0] == '-') {
        s.drop_first()
    } else {
        s
    };
    let size = if reads(body, "inf"@, "INF"@) || reads(body, "infinity"@, "INFINITY"@) {
        Some(infinite())
    } else if reads(body, "nan"@, "NAN"@) {
        Some(0nat)
    } else {
        match decimal(body) {
            Some(d) => Some(nearest_to(d.digits, d.point)),
            None => None,
        }
    };
    match size {
        Some(v) => Some(
            if s.len() > 0 && s[0] == '-' {
                0
            } else {
                v
            },
        ),
        None => None,
    }
}

/// Exponents beyond this make no difference.
const EXPONENT_CAP: i128 = 0x10_0000_0000_0000_0000_0000_0000;

spec fn bounded(e: int) -> int {
    if e > EXPONENT_CAP {
        EXPONENT_CAP as int
    } else if e < -EXPONENT_CAP {
        -EXPONENT_CAP
    } else {
        e
    }
}

fn find_mark(s: &[char]) -> (r: usize)
    ensures
        r == mark_from(s@, 0),
        r <= s@.len(),
{
    let mut i: usize = 0;
    while i < s.len()
        invariant
            i <= s@.len(),
            mark_from(s@, 0) == mark_from(s@, i as int),
        decreases s.len() - i,
    {
        if s[i] == 'e' || s[i] == 'E' {
            return i;
        }
        i = i + 1;
    }
    i
}

fn are_digits(s: &[char]) -> (r: bool)
    ensures
        r == all_digits(s@),
{
    let mut i: usize = 0;
    while i < s.len()
        invariant
            i <= s@.len(),
            forall|k: int| 0 <= k < i ==> is_digit(#[trigger] s@[k]),
        decreases s.len() - i,
    {
        if s[i] < '0' || s[i] > '9' {
            assert(!is_digit(s@[i as int]));
            return false;
        }
        i = i + 1;
    }
    true
}

/// The number that the digits write, as far as it makes a difference.
fn bounded_digits(s: &[char]) -> (v: i128)
    requires
        all_digits(s@),
    ensures
        v == bounded(digits_value(s@) as int),
        v >= 0,
{
    let mut v: i128 = 0;
    let mut i: usize = 0;
    assert(s@.take(0) =~= Seq::<char>::empty());
    while i < s.len()
        invariant
            i <= s@.len(),
            all_digits(s@),
            v == bounded(digits_value(s@.take(i as int)) as int),
            v >= 0,
        decreases s.len() - i,
    {
        let ghost next = s@.take(i + 1);
        proof {
            assert(next.drop_last() =~= s@.take(i as int));
            assert(is_digit(s@[i as int]));
        }
        v = v * 10 + (s[i] as i128 - 48);
        if v > EXPONENT_CAP {
            v = EXPONENT_CAP;
        }
        i = i + 1;
    }
    assert(s@.take(s@.len() as int) =~= s@);
    v
}

fn parse_exponent(s: &[char]) -> (r: Option<i128>)
    ensures
        match r {
            Some(e) => exponent(s@) is Some && e == bounded(exponent(s@)->0),
            None => exponent(s@) is None,
        },
{
    let from: usize = if s.len() > 0 && (s[0] == '+' || s[0] == '-') {
        1
    } else {
        0
    };
    let body = vstd::slice::slice_subrange(s, from, s.len());
    proof {
        assert(body@ =~= if from == 1 {
            s@.drop_first()
        } else {
            s@
        });
    }
    if body.len() == 0 || !are_digits(body) {
        return None;
    }
    let size: i128 = bounded_digits(body);
    if s[0] == '-' {
        Some(-size)
    } else {
        Some(size)
    }
}

proof fn more_digits(digits: Seq<char>, m: int, n: int)
    requires
        0 <= m <= n,
    ensures
        leading_digits(digits, m) <= leading_digits(digits, n),
        m >= digits.len() && leading_digits(digits, m) == 0 ==> leading_digits(digits, n) == 0,
        m >= digits.len() && leading_digits(digits, m) > 0 && n >= m + 10 ==> leading_digits(
            digits,
            n,
        ) >= 10_000_000_000,
    decreases n,
{
    if m < n {
        more_digits(digits, m, n - 1);
    }
    if m >= digits.len() && leading_digits(digits, m) > 0 && n == m + 10 {
        reveal_with_fuel(leading_digits, 11);
    }
}

/// The number that the first `n` digits write, up to a cap.
fn capped_digits(digits: &[char], n: i128, cap: u64) -> (v: u64)
    requires
        all_digits(digits@),
        cap < 10_000_000_000,
    ensures
        v == capped(leading_digits(digits@, n as int), cap),
{
    let mut v: u64 = 0;
    let mut i: i128 = 0;
    let total: i128 = digits.len() as i128;
    while i < n
        invariant
            all_digits(digits@),
            cap < 10_000_000_000,
            total == digits@.len(),
            0 <= i,
            i <= n || i == 0,
            v == leading_digits(digits@, i as int),
            v <= cap,
        decreases n - i,
    {
        if i >= total && v == 0 {
            proof {
                more_digits(digits@, i as int, n as int);
            }
            return 0;
        }
        let d: u64 = if i < total {
            assert(is_digit(digits@[i as int]));
            digits[i as usize] as u64 - 48
        } else {
            0
        };
        v = v * 10 + d;
        i = i + 1;
        if v > cap {
            proof {
                more_digits(digits@, i as int, n as int);
            }
            return cap;
        }
    }
    v
}

/// The same number, or both are beyond all bounds on the same side.
spec fn alike(exact: int, held: int) -> bool {
    ||| exact == held
    ||| exact > 0x8_0000_0000_0000_0000_0000_0000 && held > 0x8_0000_0000_0000_0000_0000_0000
    ||| exact < -0x8_0000_0000_0000_0000_0000_0000 && held < -0x8_0000_0000_0000_0000_0000_0000
}

/// The digits of an unsigned decimal number and how many stand before its point.
fn parse_decimal(s: &[char]) -> (r: Option<(Vec<char>, i128)>)
    ensures
        match r {
            Some((digits, point)) => {
                &&& decimal(s@) is Some
                &&& digits@ == decimal(s@)->0.digits
                &&& all_digits(digits@)
                &&& digits@.len() > 0
                &&& alike(decimal(s@)->0.point, point as int)
                &&& -0x20_0000_0000_0000_0000_0000_0000 <= point
                    <= 0x20_0000_0000_0000_0000_0000_0000
            },
            None => decimal(s@) is None,
        },
{
    let mark: usize = find_mark(s);
    let power: i128 = if mark < s.len() {
        let tail = vstd::slice::slice_subrange(s, mark + 1, s.len());
        assert(tail@ =~= s@.skip(mark + 1));
        match parse_exponent(tail) {
            Some(e) => e,
            None => {
                return None;
            },
        }
    } else {
        0
    };
    let mantissa = vstd::slice::slice_subrange(s, 0, mark);
    assert(mantissa@ =~= s@.take(mark as int));
    let dot: usize = crate::text::find(mantissa, '.', 0);
    let whole = vstd::slice::slice_subrange(mantissa, 0, dot);
    assert(whole@ =~= mantissa@.take(dot as int));
    let part = if dot < mantissa.len() {
        vstd::slice::slice_subrange(mantissa, dot + 1, mantissa.len())
    } else {
        vstd::slice::slice_subrange(mantissa, dot, dot)
    };
    proof {
        if dot < mantissa@.len() {
            assert(part@ =~= mantissa@.skip(dot + 1));
        } else {
            assert(part@ =~= Seq::<char>::empty());
        }
    }
    if !are_digits(whole) || !are_digits(part) || (whole.len() == 0 && part.len() == 0) {
        return None;
    }
    let mut digits: Vec<char> = Vec::new();
    let mut i: usize = 0;
    while i < whole.len()
        invariant
            i <= whole@.len(),
            digits@ == whole@.take(i as int),
        decreases whole.len() - i,
    {
        digits.push(whole[i]);
        assert(digits@ =~= whole@.take(i + 1));
        i = i + 1;
    }
    let mut j: usize = 0;
    assert(digits@ =~= whole@ + part@.take(0));
    while j < part.len()
        invariant
            j <= part@.len(),
            digits@ == whole@ + part@.take(j as int),
        decreases part.len() - j,
    {
        digits.push(part[j]);
        assert(digits@ =~= whole@ + part@.take(j + 1));
        j = j + 1;
    }
    assert(digits@ =~= whole@ + part@);
    let before: i128 = whole.len() as i128 + power;
    Some((digits, before))
}

/// The whole part of an unsigned decimal number, up to a cap.
fn parse_floor(s: &[char], cap: u64) -> (r: Option<u64>)
    requires
        cap < 10_000_000_000,
    ensures
        match r {
            Some(v) => floor_of(s@) is Some && v == capped(floor_of(s@)->0, cap),
            None => floor_of(s@) is None,
        },
{
    match parse_decimal(s) {
        None => None,
        Some((digits, before)) => {
            let total: usize = digits.len();
            proof {
                let exact = decimal(s@)->0.point;
                if exact != before && exact > 0 {
                    more_digits(digits@, total as int, before as int);
                    more_digits(digits@, total as int, exact);
                }
            }
            Some(capped_digits(digits.as_slice(), before, cap))
        },
    }
}

proof fn digits_bound(s: Seq<char>)
    requires
        all_digits(s),
    ensures
        digits_value(s) < ten(s.len()),
    decreases s.len(),
{
    if s.len() > 0 {
        let front = s.drop_last();
        assert forall|i: int| 0 <= i < front.len() implies is_digit(#[trigger] front[i]) by {
            assert(front[i] == s[i]);
        }
        digits_bound(front);
        assert(is_digit(s[s.len() - 1]));
    }
}

proof fn ten_adds(a: nat, b: nat)
    ensures
        ten(a + b) == ten(a) * ten(b),
        ten(a) > 0,
    decreases a,
{
    if a > 0 {
        ten_adds((a - 1) as nat, b);
        let (x, y) = (ten((a - 1) as nat), ten(b));
        assert(10 * (x * y) == (10 * x) * y) by (nonlinear_arith);
    } else {
        assert(1 * ten(b) == ten(b));
    }
}

proof fn ten_is_large(n: nat)
    ensures
        ten(n) >= pow2(3 * n),
    decreases n,
{
    lemma2_to64();
    if n > 0 {
        ten_is_large((n - 1) as nat);
        lemma_pow2_adds(3, (3 * (n - 1)) as nat);
    }
}

/// A number whose point stands far behind its digits is infinite, unless it is zero.
proof fn far_behind(digits: Seq<char>, point: int)
    requires
        point > digits.len() + 50,
    ensures
        nearest_to(digits, point) == if digits_value(digits) == 0 {
            0
        } else {
            infinite()
        },
{
    let v = digits_value(digits);
    let t = ten((point - digits.len()) as nat);
    if v == 0 {
        assert(v * t * one() == 0) by (nonlinear_arith)
            requires
                v == 0,
        ;
        little_is_nothing(0, 1);
    } else {
        let k = (point - digits.len()) as nat;
        ten_is_large(k);
        lemma_pow2_adds(128, 149);
        lemma_pow2_pos(149);
        lemma_pow2_strictly_increases(128, 3 * k);
        assert(v * t * one() >= pow2(128) * one()) by (nonlinear_arith)
            requires
                v >= 1,
                t >= pow2(128),
                one() > 0,
        ;
        assert(1 * infinite() == infinite());
        much_is_infinite(v * t * one(), 1);
    }
}

/// A number whose point stands far in front of its digits is zero.
proof fn far_in_front(digits: Seq<char>, point: int)
    requires
        all_digits(digits),
        point < -60,
    ensures
        nearest_to(digits, point) == 0,
{
    let v = digits_value(digits);
    let n = digits.len();
    let k = (-point) as nat;
    digits_bound(digits);
    ten_adds(n, k);
    ten_is_large(k);
    lemma2_to64();
    lemma_pow2_adds(1, 149);
    lemma_pow2_pos(149);
    lemma_pow2_strictly_increases(150, 3 * k);
    assert(2 * (v * one()) < ten(n) * ten(k)) by (nonlinear_arith)
        requires
            v < ten(n),
            ten(k) >= 2 * one(),
            one() > 0,
    ;
    little_is_nothing(v * one(), ten((n - point) as nat));
}

fn big_ten(n: u128) -> (r: Big)
    ensures
        r@ == ten(n as nat),
        r@ > 0,
{
    let mut r = Big::zero().times_plus(1, 1);
    let mut i: u128 = 0;
    while i < n
        invariant
            i <= n,
            r@ == ten(i as nat),
        decreases n - i,
    {
        r = r.times_plus(10, 0);
        i = i + 1;
    }
    proof {
        ten_adds(n as nat, 0);
    }
    r
}

/// The single-precision number nearest to a decimal one.
fn round_decimal(digits: &[char], before: i128, Ghost(point): Ghost<int>) -> (r: Single)
    requires
        all_digits(digits@),
        alike(point, before as int),
        -0x20_0000_0000_0000_0000_0000_0000 <= before <= 0x20_0000_0000_0000_0000_0000_0000,
    ensures
        r@ == nearest_to(digits@, point),
{
    let n: i128 = digits.len() as i128;
    let mut v = Big::zero();
    let mut i: usize = 0;
    assert(digits@.take(0) =~= Seq::<char>::empty());
    while i < digits.len()
        invariant
            i <= digits@.len(),
            all_digits(digits@),
            v@ == digits_value(digits@.take(i as int)),
        decreases digits.len() - i,
    {
        proof {
            assert(digits@.take(i + 1).drop_last() =~= digits@.take(i as int));
            assert(is_digit(digits@[i as int]));
        }
        v = v.times_plus(10, digits[i] as u32 - 48);
        i = i + 1;
    }
    assert(digits@.take(digits@.len() as int) =~= digits@);
    if before > n + 50 {
        proof {
            far_behind(digits@, point);
        }
        if Big::zero().less(&v) {
            return Single::infinite();
        }
        return Single::zero();
    }
    if before < -60 {
        proof {
            far_in_front(digits@, point);
        }
        return Single::zero();
    }
    assert(point == before);
    let unit = Big::zero().times_plus(1, 1);
    if before >= n {
        let mut scaled = v.times_plus(1, 0);
        let mut k: i128 = 0;
        assert(v@ * 1 == v@);
        while k < before - n
            invariant
                0 <= k <= before - n <= 50,
                scaled@ == v@ * ten(k as nat),
            decreases before - n - k,
        {
            proof {
                let t = ten(k as nat);
                assert((v@ * t) * 10 == v@ * (10 * t)) by (nonlinear_arith);
            }
            scaled = scaled.times_plus(10, 0);
            k = k + 1;
        }
        return single_of(&scaled.doubled(149), &unit);
    }
    single_of(&v.doubled(149), &big_ten((n - before) as u128))
}

/// The whole part of a decimal number, as far as 32 bits hold it.
pub fn parse_whole_part(s: &[char]) -> (r: Option<i32>)
    ensures
        match r {
            Some(v) => whole_part(s@) == Some(v as int),
            None => whole_part(s@) is None,
        },
{
    let minus: bool = s.len() > 0 && s[0] == '-';
    let from: usize = if minus {
        1
    } else {
        0
    };
    let body = vstd::slice::slice_subrange(s, from, s.len());
    proof {
        assert(body@ =~= if minus {
            s@.drop_first()
        } else {
            s@
        });
    }
    if minus {
        match parse_floor(body, 0x8000_0000) {
            Some(v) => Some((0 - v as i64) as i32),
            None => None,
        }
    } else {
        match parse_floor(body, 0x7fff_ffff) {
            Some(v) => Some(v as i32),
            None => None,
        }
    }
}

fn is_word(s: &[char], lower: &str, upper: &str) -> (r: bool)
    ensures
        r == reads(s@, lower@, upper@),
{
    let small = crate::text::chars_of(lower);
    let large = crate::text::chars_of(upper);
    if s.len() != small.len() || s.len() != large.len() {
        return false;
    }
    let mut i: usize = 0;
    while i < s.len()
        invariant
            i <= s@.len(),
            small@ == lower@,
            large@ == upper@,
            s@.len() == lower@.len(),
            s@.len() == upper@.len(),
            forall|k: int| 0 <= k < i ==> (#[trigger] s@[k] == lower@[k] || s@[k] == upper@[k]),
        decreases s.len() - i,
    {
        if s[i] != small[i] && s[i] != large[i] {
            assert(s@[i as int] != lower@[i as int] && s@[i as int] != upper@[i as int]);
            return false;
        }
        i = i + 1;
    }
    true
}

/// A confidence.
pub fn parse_confidence(s: &[char]) -> (r: Option<Single>)
    ensures
        match r {
            Some(v) => confidence(s@) == Some(v@),
            None => confidence(s@) is None,
        },
{
    let from: usize = if s.len() > 0 && (s[0] == '+' || s[0] == '-') {
        1
    } else {
        0
    };
    let body = vstd::slice::slice_subrange(s, from, s.len());
    proof {
        assert(body@ =~= if from == 1 {
            s@.drop_first()
        } else {
            s@
        });
    }
    let size: Option<Single> = if is_word(body, "inf", "INF") || is_word(
        body,
        "infinity",
        "INFINITY",
    ) {
        Some(Single::infinite())
    } else if is_word(body, "nan", "NAN") {
        Some(Single::zero())
    } else {
        match parse_decimal(body) {
            Some((digits, before)) => Some(
                round_decimal(digits.as_slice(), before, Ghost(decimal(body@)->0.point)),
            ),
            None => None,
        }
    };
    match size {
        Some(v) => if s.len() > 0 && s[0] == '-' {
            Some(Single::zero())
        } else {
            Some(v)
        },
        None => None,
    }
}

proof fn digits_add_up(s: Seq<char>)
    requires
        all_digits(s),
    ensures
        digits_value(s) == s.fold_left(0int, |a: int, c: char| 10 * a + (c as int - '0' as int)),
    decreases s.len(),
{
    let f = |a: int, c: char| 10 * a + (c as int - '0' as int);
    if s.len() > 0 {
        let t = s.drop_last();
        assert forall|i: int| 0 <= i < t.len() implies is_digit(#[trigger] t[i]) by {
            assert(t[i] == s[i]);
        }
        digits_add_up(t);
        assert(is_digit(s[s.len() - 1]));
        assert(s.fold_left(0int, f) == f(t.fold_left(0int, f), s.last()));
    }
}

/// A number of digits alone has the value of its digits, where that fits; a minus sign turns it
/// negative and a plus sign changes nothing. Without a digit, or with anything else in it, it is no
/// number.
pub proof fn digits_are_read_as_their_value(
    s: &[char],
    plus: &[char],
    minus: &[char],
    u: Option<u32>,
    i: Option<i32>,
    v: Option<u32>,
    p: Option<i32>,
    m: Option<i32>,
)
    requires
        s@.len() > 0,
        forall|k: int| 0 <= k < s@.len() ==> '0' <= #[trigger] s@[k] <= '9',
        plus@ == seq!['+'] + s@,
        minus@ == seq!['-'] + s@,
        call_ensures(parse_u32, (s,), u),
        call_ensures(parse_i32, (s,), i),
        call_ensures(parse_u32, (plus,), v),
        call_ensures(parse_i32, (plus,), p),
        call_ensures(parse_i32, (minus,), m),
    ensures
        ({
            let n = s@.fold_left(0int, |a: int, c: char| 10 * a + (c as int - '0' as int));
            &&& n >= 0
            &&& u is Some <==> n <= 0xffff_ffff
            &&& u matches Some(x) ==> x == n
            &&& v == u
            &&& i is Some <==> n <= 0x7fff_ffff
            &&& i matches Some(x) ==> x == n
            &&& p == i
            &&& m is Some <==> n <= 0x8000_0000
            &&& m matches Some(x) ==> x == -n
        }),
{
    assert(all_digits(s@));
    digits_add_up(s@);
    assert('0' <= s@[0] <= '9');
    assert(plus@.drop_first() =~= s@);
    assert(minus@.drop_first() =~= s@);
    assert(plus@[0] == '+' && minus@[0] == '-');
}

/// What holds anything but digits after its sign is no number.
pub proof fn other_characters_are_no_number(s: &[char], u: Option<u32>, i: Option<i32>, k: int)
    requires
        call_ensures(parse_u32, (s,), u),
        call_ensures(parse_i32, (s,), i),
        s@.len() == 0 || (0 < k < s@.len() && !('0' <= s@[k] <= '9')) || (k == 0 && s@.len() > 0
            && !('0' <= s@[0] <= '9') && s@[0] != '+' && s@[0] != '-'),
    ensures
        u is None,
        i is None,
{
    if s@.len() > 0 && k > 0 {
        assert(s@.drop_first()[k - 1] == s@[k]);
    }
}

proof fn plain_digits_are_decimal(s: Seq<char>)
    requires
        s.len() > 0,
        all_digits(s),
    ensures
        decimal(s) == Some(Decimal { digits: s, point: s.len() as int }),
{
    no_mark(s, 0);
    crate::text::find_from_bounds(s, '.', 0);
    let m = s.take(s.len() as int);
    assert(m =~= s);
    if point(s) < s.len() {
        assert(is_digit(s[point(s)]));
    }
    assert(s.take(s.len() as int) =~= s);
    assert(s + Seq::<char>::empty() =~= s);
}

proof fn no_mark(s: Seq<char>, from: int)
    requires
        0 <= from <= s.len(),
        forall|i: int| from <= i < s.len() ==> #[trigger] s[i] != 'e' && s[i] != 'E',
    ensures
        mark_from(s, from) == s.len(),
    decreases s.len() - from,
{
    if from < s.len() {
        assert(s[from] != 'e');
        no_mark(s, from + 1);
    }
}

proof fn a_fraction_is_decimal(w: Seq<char>, f: Seq<char>)
    requires
        w.len() > 0,
        all_digits(w),
        all_digits(f),
    ensures
        decimal(w + seq!['.'] + f) == Some(Decimal { digits: w + f, point: w.len() as int }),
{
    let s = w + seq!['.'] + f;
    assert forall|i: int| 0 <= i < s.len() implies #[trigger] s[i] != 'e' && s[i] != 'E' by {
        if i < w.len() {
            assert(is_digit(w[i]));
        } else if i > w.len() {
            assert(is_digit(f[i - w.len() - 1]));
        }
    }
    no_mark(s, 0);
    let m = s.take(s.len() as int);
    assert(m =~= s);
    crate::text::find_from_bounds(s, '.', 0);
    let p = point(s);
    assert(s[w.len() as int] == '.');
    if p < w.len() {
        assert(s[p] == w[p] && is_digit(w[p]));
    }
    if p > w.len() {
        assert(s[w.len() as int] != '.');
    }
    assert(s.take(p) =~= w);
    assert(s.skip(p + 1) =~= f);
}

proof fn a_number_is_no_word(s: Seq<char>)
    requires
        s.len() > 0,
        is_digit(s[0]),
    ensures
        !reads(s, "inf"@, "INF"@),
        !reads(s, "infinity"@, "INFINITY"@),
        !reads(s, "nan"@, "NAN"@),
{
    reveal_strlit("inf");
    reveal_strlit("INF");
    reveal_strlit("infinity");
    reveal_strlit("INFINITY");
    reveal_strlit("nan");
    reveal_strlit("NAN");
    assert("inf"@[0] == 'i' && "INF"@[0] == 'I');
    assert("infinity"@[0] == 'i' && "INFINITY"@[0] == 'I');
    assert("nan"@[0] == 'n' && "NAN"@[0] == 'N');
    let c = s[0];
    if reads(s, "inf"@, "INF"@) {
        assert(s[0] == 'i' || s[0] == 'I');
    }
    if reads(s, "infinity"@, "INFINITY"@) {
        assert(s[0] == 'i' || s[0] == 'I');
    }
    if reads(s, "nan"@, "NAN"@) {
        assert(s[0] == 'n' || s[0] == 'N');
    }
}

/// A whole confidence is read exactly, and a minus sign makes it nothing.
pub proof fn a_whole_confidence_is_exact(
    s: &[char],
    minus: &[char],
    r: Option<Single>,
    m: Option<Single>,
)
    requires
        s@.len() > 0,
        forall|k: int| 0 <= k < s@.len() ==> '0' <= #[trigger] s@[k] <= '9',
        s@.fold_left(0int, |a: int, c: char| 10 * a + (c as int - '0' as int)) < 0x100_0000,
        minus@ == seq!['-'] + s@,
        call_ensures(parse_confidence, (s,), r),
        call_ensures(parse_confidence, (minus,), m),
    ensures
        r is Some && (r->0)@ == s@.fold_left(
            0int,
            |a: int, c: char| 10 * a + (c as int - '0' as int),
        ) * one(),
        m is Some && (m->0)@ == 0,
{
    assert(all_digits(s@));
    digits_add_up(s@);
    assert(is_digit(s@[0]));
    plain_digits_are_decimal(s@);
    a_number_is_no_word(s@);
    crate::single::small_integers_are_exact(digits_value(s@));
    let n = digits_value(s@);
    assert(ten(0) == 1);
    assert(n * ten(0) * one() == n * one());
    assert(minus@.drop_first() =~= s@);
}

proof fn digits_lie_between(w: Seq<char>, f: Seq<char>)
    requires
        all_digits(w),
        all_digits(f),
    ensures
        digits_value(w) * ten(f.len()) <= digits_value(w + f) < (digits_value(w) + 1) * ten(f.len()),
        ten(f.len()) > 0,
    decreases f.len(),
{
    let v = digits_value(w);
    if f.len() == 0 {
        assert(w + f =~= w);
        assert(ten(0) == 1);
    } else {
        let g = f.drop_last();
        assert forall|i: int| 0 <= i < g.len() implies is_digit(#[trigger] g[i]) by {
            assert(g[i] == f[i]);
        }
        digits_lie_between(w, g);
        assert((w + f).drop_last() =~= w + g);
        assert(is_digit(f[f.len() - 1]));
        let (t, x) = (ten(g.len()), digits_value(w + g));
        assert(ten(f.len()) == 10 * t);
        let d = digit_value(f.last());
        assert(v * (10 * t) <= x * 10 + d < (v + 1) * (10 * t)) by (nonlinear_arith)
            requires
                v * t <= x < (v + 1) * t,
                d < 10,
        ;
    }
}

/// A confidence with a fraction lies between its whole part and the next whole number, and its whole
/// part is what is before the point.
pub proof fn a_fraction_lies_between(
    w: Seq<char>,
    f: Seq<char>,
    s: &[char],
    r: Option<Single>,
    i: Option<i32>,
)
    requires
        w.len() > 0,
        forall|k: int| 0 <= k < w.len() ==> '0' <= #[trigger] w[k] <= '9',
        forall|k: int| 0 <= k < f.len() ==> '0' <= #[trigger] f[k] <= '9',
        s@ == w + seq!['.'] + f,
        w.fold_left(0int, |a: int, c: char| 10 * a + (c as int - '0' as int)) < 0xff_ffff,
        call_ensures(parse_confidence, (s,), r),
        call_ensures(parse_whole_part, (s,), i),
    ensures
        ({
            let n = w.fold_left(0int, |a: int, c: char| 10 * a + (c as int - '0' as int));
            &&& r is Some
            &&& n * one() <= (r->0)@ <= (n + 1) * one()
            &&& i is Some && i->0 == n
        }),
{
    assert(all_digits(w) && all_digits(f));
    digits_add_up(w);
    assert(is_digit(w[0]) && s@[0] == w[0]);
    a_fraction_is_decimal(w, f);
    a_number_is_no_word(s@);
    digits_lie_between(w, f);
    let (n, v, t) = (digits_value(w), digits_value(w + f), ten(f.len()));
    let o = one();
    crate::single::small_integers_are_exact(n);
    crate::single::small_integers_are_exact(n + 1);
    lemma_pow2_pos(149);
    assert((n * o) * t <= (v * o) * 1 && (v * o) * 1 <= ((n + 1) * o) * t) by (nonlinear_arith)
        requires
            n * t <= v < (n + 1) * t,
            o > 0,
    ;
    crate::single::rounding_keeps_the_order(n * o, 1, v * o, t);
    crate::single::rounding_keeps_the_order(v * o, t, (n + 1) * o, 1);
    let d = w + f;
    if f.len() == 0 {
        assert(d =~= w);
        assert(ten(0) == 1);
        assert(v * 1 == v);
        assert(v * ten(0) * o == v * o) by (nonlinear_arith)
            requires
                ten(0) == 1,
        ;
    }
    leading_are_the_first(d, w.len() as int);
    assert(d.take(w.len() as int) =~= w);
}

proof fn leading_are_the_first(digits: Seq<char>, n: int)
    requires
        0 <= n <= digits.len(),
    ensures
        leading_digits(digits, n) == digits_value(digits.take(n)),
    decreases n,
{
    if n > 0 {
        leading_are_the_first(digits, n - 1);
        assert(digits.take(n).drop_last() =~= digits.take(n - 1));
        assert(digits.take(n).last() == digits[n - 1]);
    }
}

} // verus!
