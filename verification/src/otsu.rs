//! Otsu's threshold and the spread of an image.

use vstd::prelude::*;

use crate::gray::Gray;
use crate::tone::{
    counts_shades, darker, darker_bounds, darker_monotone, darker_step, darker_sum, histogram,
    occurrences, total_sum,
};

verus! {

/// The pixels up to shade `v` and those above it are two non-empty classes.
pub open spec fn splits(data: Seq<u8>, v: int) -> bool {
    0 < darker(data, v + 1) < data.len()
}

/// The numerator of the variance between the two classes that `v` splits the pixels into:
/// the square of (pixels) * (sum of the dark class) - (sum of all) * (pixels of the dark class).
pub open spec fn variance_numerator(data: Seq<u8>, v: int) -> int {
    let delta = data.len() * darker_sum(data, v + 1) - total_sum(data) * darker(data, v + 1);
    delta * delta
}

/// The denominator of the variance between the two classes: the product of their sizes.
pub open spec fn variance_denominator(data: Seq<u8>, v: int) -> int {
    darker(data, v + 1) * (data.len() - darker(data, v + 1))
}

/// Shade `v` separates its classes at least as well as shade `u`.
pub open spec fn separates_as_well(data: Seq<u8>, v: int, u: int) -> bool {
    variance_numerator(data, v) * variance_denominator(data, u) >= variance_numerator(data, u)
        * variance_denominator(data, v)
}

/// `v` is the first shade that maximises the variance between the classes, or black if no shade
/// splits the pixels in two.
pub open spec fn is_otsu(data: Seq<u8>, v: int) -> bool {
    if exists|u: int| 0 <= u < 256 && #[trigger] splits(data, u) {
        &&& 0 <= v < 256
        &&& splits(data, v)
        &&& forall|u: int|
            0 <= u < 256 && #[trigger] splits(data, u) ==> separates_as_well(data, v, u)
        &&& forall|u: int|
            0 <= u < v && #[trigger] splits(data, u) ==> !separates_as_well(data, u, v)
    } else {
        v == 0
    }
}

/// The sum of the squared class sums, each over the size of its class, as a fraction.
#[derive(Clone, Copy)]
struct Score {
    numerator: u128,
    denominator: u128,
}

/// The score of splitting `n` pixels of sum `s` into a class of `w` pixels of sum `b` and the rest.
spec fn score_numerator(b: int, w: int, s: int, n: int) -> int {
    b * b * (n - w) + (s - b) * (s - b) * w
}

/// Two splits of the same pixels rank by their scores as they rank by their variances.
proof fn scores_rank_variances(b1: int, w1: int, b2: int, w2: int, s: int, n: int)
    requires
        0 < w1 < n,
        0 < w2 < n,
    ensures
        score_numerator(b1, w1, s, n) * (w2 * (n - w2)) > score_numerator(b2, w2, s, n) * (w1 * (n
            - w1)) <==> ((n * b1 - s * w1) * (n * b1 - s * w1)) * (w2 * (n - w2)) > ((n * b2 - s
            * w2) * (n * b2 - s * w2)) * (w1 * (n - w1)),
{
    score_identity(b1, w1, s, n);
    score_identity(b2, w2, s, n);
    let c1 = score_numerator(b1, w1, s, n);
    let c2 = score_numerator(b2, w2, s, n);
    let d1 = (n * b1 - s * w1) * (n * b1 - s * w1);
    let d2 = (n * b2 - s * w2) * (n * b2 - s * w2);
    let p1 = w1 * (n - w1);
    let p2 = w2 * (n - w2);
    // c * n == d + s * s * p, so c1 * p2 > c2 * p1 exactly when d1 * p2 > d2 * p1.
    assert((c1 * p2) * n == d1 * p2 + s * s * p1 * p2) by (nonlinear_arith)
        requires
            c1 * n == d1 + s * s * p1,
    ;
    assert((c2 * p1) * n == d2 * p1 + s * s * p1 * p2) by (nonlinear_arith)
        requires
            c2 * n == d2 + s * s * p2,
    ;
    let l = c1 * p2;
    let r = c2 * p1;
    assert(l > r <==> l * n > r * n) by (nonlinear_arith)
        requires
            n > 0,
    ;
}

proof fn score_identity(b: int, w: int, s: int, n: int)
    ensures
        score_numerator(b, w, s, n) * n == (n * b - s * w) * (n * b - s * w) + s * s * (w * (n
            - w)),
{
    let a = s - b;
    let v = n - w;
    assert(b * b * v * n + a * a * w * n == b * b * v * (v + w) + a * a * w * (v + w))
        by (nonlinear_arith)
        requires
            n == v + w,
    ;
    assert((b * b * v + a * a * w) * n == b * b * v * n + a * a * w * n) by (nonlinear_arith);
    assert(n * b - s * w == v * b - a * w) by (nonlinear_arith)
        requires
            n == v + w,
            s == a + b,
    ;
    let p = v * b;
    let q = a * w;
    let m = w * v;
    assert((p - q) * (p - q) == p * p - 2 * (p * q) + q * q) by (nonlinear_arith);
    assert((a + b) * (a + b) == a * a + 2 * (a * b) + b * b) by (nonlinear_arith);
    let aa = a * a;
    let bb = b * b;
    let ab = a * b;
    assert((aa + 2 * ab + bb) * m == aa * m + 2 * (ab * m) + bb * m) by (nonlinear_arith);
    assert(p * q == ab * m) by (nonlinear_arith)
        requires
            p == v * b,
            q == a * w,
            ab == a * b,
            m == w * v,
    ;
    assert(p * p == bb * v * v) by (nonlinear_arith)
        requires
            p == v * b,
            bb == b * b,
    ;
    assert(q * q == aa * w * w) by (nonlinear_arith)
        requires
            q == a * w,
            aa == a * a,
    ;
    assert(bb * v * (v + w) == bb * v * v + bb * m) by (nonlinear_arith)
        requires
            m == w * v,
    ;
    assert(aa * w * (v + w) == aa * w * w + aa * m) by (nonlinear_arith)
        requires
            m == w * v,
    ;
}

/// Whether fraction `a` is larger than fraction `b`, without forming the cross products.
fn larger(a: Score, b: Score) -> (r: bool)
    requires
        0 < a.denominator <= u64::MAX,
        0 < b.denominator <= u64::MAX,
    ensures
        r == (a.numerator * b.denominator > b.numerator * a.denominator),
{
    let qa: u128 = a.numerator / a.denominator;
    let qb: u128 = b.numerator / b.denominator;
    let ra: u128 = a.numerator % a.denominator;
    let rb: u128 = b.numerator % b.denominator;
    proof {
        compare_parts(
            a.numerator as int,
            a.denominator as int,
            b.numerator as int,
            b.denominator as int,
        );
        assert(0 <= ra * b.denominator <= u64::MAX * u64::MAX) by (nonlinear_arith)
            requires
                0 <= ra <= u64::MAX,
                0 <= b.denominator <= u64::MAX,
        ;
        assert(0 <= rb * a.denominator <= u64::MAX * u64::MAX) by (nonlinear_arith)
            requires
                0 <= rb <= u64::MAX,
                0 <= a.denominator <= u64::MAX,
        ;
    }
    if qa != qb {
        qa > qb
    } else {
        ra * b.denominator > rb * a.denominator
    }
}

/// Fractions compare by their integer parts and then by what is left.
proof fn compare_parts(a: int, c: int, b: int, d: int)
    requires
        0 <= a,
        0 <= b,
        0 < c,
        0 < d,
    ensures
        a / c > b / d ==> a * d > b * c,
        a / c < b / d ==> a * d < b * c,
        a / c == b / d ==> (a * d > b * c <==> (a % c) * d > (b % d) * c),
{
    let qa = a / c;
    let ra = a % c;
    let qb = b / d;
    let rb = b % d;
    assert(a == qa * c + ra && 0 <= ra < c) by (nonlinear_arith)
        requires
            qa == a / c,
            ra == a % c,
            c > 0,
    ;
    assert(b == qb * d + rb && 0 <= rb < d) by (nonlinear_arith)
        requires
            qb == b / d,
            rb == b % d,
            d > 0,
    ;
    assert(a * d == qa * (c * d) + ra * d) by (nonlinear_arith)
        requires
            a == qa * c + ra,
    ;
    assert(b * c == qb * (c * d) + rb * c) by (nonlinear_arith)
        requires
            b == qb * d + rb,
    ;
    assert(0 <= ra * d < c * d) by (nonlinear_arith)
        requires
            0 <= ra < c,
            d > 0,
    ;
    assert(0 <= rb * c < c * d) by (nonlinear_arith)
        requires
            0 <= rb < d,
            c > 0,
    ;
    let m = c * d;
    if qa > qb {
        assert(qa * m >= qb * m + m) by (nonlinear_arith)
            requires
                qa >= qb + 1,
                m >= 0,
        ;
    }
    if qa < qb {
        assert(qb * m >= qa * m + m) by (nonlinear_arith)
            requires
                qb >= qa + 1,
                m >= 0,
        ;
    }
}

/// The score of a split, and that it fits.
fn score(b: u64, w: u64, s: u64, n: u64) -> (r: Score)
    requires
        0 < w < n <= u32::MAX,
        b <= 255 * w,
        b <= s,
        s - b <= 255 * (n - w),
    ensures
        r.numerator == score_numerator(b as int, w as int, s as int, n as int),
        r.denominator == w * (n - w),
        0 < r.denominator <= u64::MAX,
{
    let a: u128 = (s - b) as u128;
    let below: u128 = b as u128;
    let v: u128 = (n - w) as u128;
    let size: u128 = w as u128;
    proof {
        let sq = 1199499532834403097050625int;
        assert(0 <= below * below <= sq) by (nonlinear_arith)
            requires
                0 <= below <= 1095216660225,
                sq == 1199499532834403097050625int,
        ;
        assert(0 <= a * a <= sq) by (nonlinear_arith)
            requires
                0 <= a <= 1095216660225,
                sq == 1199499532834403097050625int,
        ;
        let bb = below * below;
        let aa = a * a;
        assert(0 <= bb * v <= sq * 0xffff_ffff) by (nonlinear_arith)
            requires
                0 <= bb <= sq,
                0 <= v <= 0xffff_ffff,
        ;
        assert(0 <= aa * size <= sq * 0xffff_ffff) by (nonlinear_arith)
            requires
                0 <= aa <= sq,
                0 <= size <= 0xffff_ffff,
        ;
        assert(0 < size * v <= 0xffff_ffff * 0xffff_ffff) by (nonlinear_arith)
            requires
                0 < size <= 0xffff_ffff,
                0 < v <= 0xffff_ffff,
        ;
    }
    Score { numerator: below * below * v + a * a * size, denominator: size * v }
}


/// What the loop over the shades has found: the best split among the shades below `v`.
spec fn best_so_far(data: Seq<u8>, v: int, found: bool, best: int) -> bool {
    &&& found ==> 0 <= best < v && splits(data, best) && (forall|u: int|
        0 <= u < v && #[trigger] splits(data, u) ==> separates_as_well(data, best, u)) && (forall|
        u: int,
    |
        0 <= u < best && #[trigger] splits(data, u) ==> !separates_as_well(data, u, best))
    &&& !found ==> best == 0 && forall|u: int| 0 <= u < v ==> !#[trigger] splits(data, u)
}

/// Comparing two splits by score compares them by variance.
proof fn compare_splits(data: Seq<u8>, u: int, v: int)
    requires
        splits(data, u),
        splits(data, v),
    ensures
        score_numerator(
            darker_sum(data, v + 1) as int,
            darker(data, v + 1) as int,
            total_sum(data) as int,
            data.len() as int,
        ) * variance_denominator(data, u) > score_numerator(
            darker_sum(data, u + 1) as int,
            darker(data, u + 1) as int,
            total_sum(data) as int,
            data.len() as int,
        ) * variance_denominator(data, v) <==> !separates_as_well(data, u, v),
{
    scores_rank_variances(
        darker_sum(data, v + 1) as int,
        darker(data, v + 1) as int,
        darker_sum(data, u + 1) as int,
        darker(data, u + 1) as int,
        total_sum(data) as int,
        data.len() as int,
    );
}

/// Separating as well is transitive over splits.
proof fn separation_is_transitive(data: Seq<u8>, a: int, b: int, c: int)
    requires
        splits(data, a),
        splits(data, b),
        splits(data, c),
        separates_as_well(data, a, b),
        separates_as_well(data, b, c),
    ensures
        separates_as_well(data, a, c),
{
    let na = variance_numerator(data, a);
    let nb = variance_numerator(data, b);
    let nc = variance_numerator(data, c);
    let da = variance_denominator(data, a);
    let db = variance_denominator(data, b);
    let dc = variance_denominator(data, c);
    assert(da > 0 && db > 0 && dc > 0) by {
        split_is_positive(data, a);
        split_is_positive(data, b);
        split_is_positive(data, c);
    }
    assert(na * dc >= nc * da) by (nonlinear_arith)
        requires
            na * db >= nb * da,
            nb * dc >= nc * db,
            da > 0,
            db > 0,
            dc > 0,
    {
        assert((na * db) * dc >= (nb * da) * dc);
        assert((nb * dc) * da >= (nc * db) * da);
        assert((na * dc) * db >= (nc * da) * db);
    }
}

proof fn split_is_positive(data: Seq<u8>, v: int)
    requires
        splits(data, v),
    ensures
        variance_denominator(data, v) > 0,
{
    let w = darker(data, v + 1) as int;
    let n = data.len() as int;
    assert(w * (n - w) > 0) by (nonlinear_arith)
        requires
            0 < w < n,
    ;
}

/// A split that beats the best so far becomes the best; one that does not leaves it.
proof fn extend_best(data: Seq<u8>, v: int, found: bool, best: int)
    requires
        best_so_far(data, v, found, best),
        0 <= v,
    ensures
        !splits(data, v) ==> best_so_far(data, v + 1, found, best),
        splits(data, v) && (!found || !separates_as_well(data, best, v)) ==> best_so_far(
            data,
            v + 1,
            true,
            v,
        ),
        splits(data, v) && found && separates_as_well(data, best, v) ==> best_so_far(
            data,
            v + 1,
            true,
            best,
        ),
{
    if splits(data, v) && (!found || !separates_as_well(data, best, v)) {
        assert forall|u: int| 0 <= u < v + 1 && #[trigger] splits(data, u) implies
            separates_as_well(data, v, u) by {
            if u < v {
                assert(separates_as_well(data, v, best));
                separation_is_transitive(data, v, best, u);
            }
        }
        assert forall|u: int| 0 <= u < v && #[trigger] splits(data, u) implies !separates_as_well(
            data,
            u,
            v,
        ) by {
            if separates_as_well(data, u, v) {
                separation_is_transitive(data, best, u, v);
            }
        }
    }
}

/// Otsu's threshold: the first shade that maximises the variance between the pixels up to it and
/// those above it. An image without pixels gets the middle shade.
pub fn otsu(gray: &Gray) -> (value: u8)
    requires
        gray.countable(),
    ensures
        gray.data@.len() == 0 ==> value == 127,
        gray.data@.len() > 0 ==> is_otsu(gray.data@, value as int),
{
    let counts = histogram(gray);
    let n: usize = gray.data.len();
    if n == 0 {
        return 127;
    }
    let ghost data = gray.data@;
    let mut sum: u64 = 0;
    let mut v: usize = 0;
    proof {
        darker_bounds(data, 0);
    }
    while v < 256
        invariant
            v <= 256,
            data == gray.data@,
            data.len() <= u32::MAX,
            counts_shades(counts@, data),
            sum == darker_sum(data, v as int),
        decreases 256 - v,
    {
        proof {
            darker_step(data, v as int);
            darker_bounds(data, v + 1);
            let c = occurrences(data, v as int);
            assert(0 <= v * c) by (nonlinear_arith)
                requires
                    0 <= v,
                    0 <= c,
            ;
        }
        sum = sum + v as u64 * counts[v] as u64;
        v = v + 1;
    }
    let mut below: u64 = 0;
    let mut sum_below: u64 = 0;
    let mut best: u8 = 0;
    let mut found: bool = false;
    let mut best_score = Score { numerator: 0, denominator: 1 };
    let mut shade: usize = 0;
    while shade < 256
        invariant
            shade <= 256,
            data == gray.data@,
            n == data.len(),
            data.len() <= u32::MAX,
            counts_shades(counts@, data),
            sum == total_sum(data),
            below == darker(data, shade as int),
            sum_below == darker_sum(data, shade as int),
            best_so_far(data, shade as int, found, best as int),
            found ==> best_score.numerator == score_numerator(
                darker_sum(data, best + 1) as int,
                darker(data, best + 1) as int,
                total_sum(data) as int,
                data.len() as int,
            ) && best_score.denominator == variance_denominator(data, best as int)
                && best_score.denominator <= u64::MAX,
        decreases 256 - shade,
    {
        proof {
            darker_step(data, shade as int);
            darker_bounds(data, shade + 1);
            darker_bounds(data, 256);
            darker_monotone(data, shade + 1, 256);
            bright_sum_bound(data, shade + 1);
            extend_best(data, shade as int, found, best as int);
            let c = occurrences(data, shade as int);
            assert(0 <= shade * c) by (nonlinear_arith)
                requires
                    0 <= shade,
                    0 <= c,
            ;
        }
        below = below + counts[shade] as u64;
        sum_below = sum_below + shade as u64 * counts[shade] as u64;
        if below > 0 && below < n as u64 {
            let candidate = score(sum_below, below, sum, n as u64);
            proof {
                if found {
                    compare_splits(data, best as int, shade as int);
                    split_is_positive(data, best as int);
                }
            }
            if !found || larger(candidate, best_score) {
                found = true;
                best = shade as u8;
                best_score = candidate;
            }
        }
        shade = shade + 1;
    }
    best
}

/// The pixels that are not darker than `v` sum to at most 255 each.
proof fn bright_sum_bound(data: Seq<u8>, v: int)
    requires
        v <= 256,
    ensures
        total_sum(data) - darker_sum(data, v) <= 255 * (data.len() - darker(data, v)),
    decreases data.len(),
{
    if data.len() > 0 {
        bright_sum_bound(data.drop_last(), v);
    }
}

/// The sum of the squares of all pixels.
pub open spec fn square_sum(data: Seq<u8>) -> nat
    decreases data.len(),
{
    if data.len() == 0 {
        0
    } else {
        square_sum(data.drop_last()) + (data.last() * data.last()) as nat
    }
}

/// What the spread of an image is made of: its number of pixels, their sum and the sum of their
/// squares. The standard deviation is `sqrt(count * squares - sum * sum) / count`.
#[derive(Clone, Copy, Debug)]
pub struct Spread {
    pub count: u64,
    pub sum: u64,
    pub squares: u64,
}

impl Spread {
    pub open spec fn of(self, data: Seq<u8>) -> bool {
        self.count == data.len() && self.sum == total_sum(data) && self.squares == square_sum(data)
    }

    /// The standard deviation is larger than `limit`.
    pub open spec fn is_above(self, limit: int) -> bool {
        self.count * self.squares - self.sum * self.sum > (limit * self.count) * (limit
            * self.count)
    }

    pub fn above(&self, limit: u8) -> (r: bool)
        requires
            self.count <= u32::MAX,
            self.sum <= 255 * self.count,
            self.squares <= 65025 * self.count,
        ensures
            r == self.is_above(limit as int),
    {
        proof {
            assert(0 <= limit * self.count <= 255 * 0xffff_ffff) by (nonlinear_arith)
                requires
                    0 <= limit <= 255,
                    0 <= self.count <= 0xffff_ffff,
            ;
        }
        let bound: u128 = limit as u128 * self.count as u128;
        let count: u128 = self.count as u128;
        let sum: u128 = self.sum as u128;
        let squares: u128 = self.squares as u128;
        proof {
            assert(0 <= bound * bound <= 0x1_0000_0000_0000_0000_0000_0000) by (nonlinear_arith)
                requires
                    0 <= bound <= 255 * 0xffff_ffff,
            ;
            assert(0 <= count * squares <= 0x1_0000_0000_0000_0000_0000_0000) by (nonlinear_arith)
                requires
                    0 <= count <= 0xffff_ffff,
                    0 <= squares <= 65025 * 0xffff_ffff,
            ;
            assert(0 <= sum * sum <= 0x1_0000_0000_0000_0000_0000_0000) by (nonlinear_arith)
                requires
                    0 <= sum <= 255 * 0xffff_ffff,
            ;
        }
        count * squares > sum * sum + bound * bound
    }
}

/// Measures the spread of the pixels.
pub fn spread(gray: &Gray) -> (s: Spread)
    requires
        gray.countable(),
    ensures
        s.of(gray.data@),
        s.sum <= 255 * s.count,
        s.squares <= 65025 * s.count,
{
    let mut sum: u64 = 0;
    let mut squares: u64 = 0;
    let mut i: usize = 0;
    while i < gray.data.len()
        invariant
            i <= gray.data@.len() <= u32::MAX,
            sum == total_sum(gray.data@.take(i as int)),
            squares == square_sum(gray.data@.take(i as int)),
            sum <= 255 * i,
            squares <= 65025 * i,
        decreases gray.data.len() - i,
    {
        assert(gray.data@.take(i + 1).drop_last() =~= gray.data@.take(i as int));
        let v: u64 = gray.data[i] as u64;
        assert(0 <= v * v <= 65025) by (nonlinear_arith)
            requires
                0 <= v <= 255,
        ;
        sum = sum + v;
        squares = squares + v * v;
        i = i + 1;
    }
    assert(gray.data@.take(gray.data@.len() as int) =~= gray.data@);
    Spread { count: gray.data.len() as u64, sum, squares }
}

proof fn classes(data: Seq<u8>, v: int)
    ensures
        darker(data, v + 1) == data.filter(|p: u8| p <= v).len(),
        data.len() - darker(data, v + 1) == data.filter(|p: u8| p > v).len(),
        darker_sum(data, v + 1) == data.filter(|p: u8| p <= v).fold_left(0int, |a: int, p: u8| a + p),
        total_sum(data) - darker_sum(data, v + 1) == data.filter(|p: u8| p > v).fold_left(
            0int,
            |a: int, p: u8| a + p,
        ),
    decreases data.len(),
{
    reveal(Seq::filter);
    let add = |a: int, p: u8| a + p;
    if data.len() > 0 {
        let front = data.drop_last();
        classes(front, v);
        let (x, y) = (front.filter(|p: u8| p <= v), front.filter(|p: u8| p > v));
        let last = data.last();
        assert(x.push(last).drop_last() =~= x);
        assert(y.push(last).drop_last() =~= y);
        assert(x.push(last).fold_left(0int, add) == x.fold_left(0int, add) + last);
        assert(y.push(last).fold_left(0int, add) == y.fold_left(0int, add) + last);
    }
}

/// The threshold parts the pixels into dark and bright ones, with some of each where there are two
/// shades at all, and no other threshold parts them better: the square of the distance of the two
/// means, weighted by the sizes of both parts, is the largest one. Of equally good thresholds it is
/// the lowest.
pub proof fn the_threshold_parts_best(gray: &Gray, value: u8, i: int, j: int, other: u8)
    requires
        call_ensures(otsu, (gray,), value),
        0 <= i < gray.data@.len(),
        0 <= j < gray.data@.len(),
        gray.data@[i] <= other < gray.data@[j],
    ensures
        ({
            let data = gray.data@;
            let sum = |s: Seq<u8>| s.fold_left(0int, |a: int, p: u8| a + p);
            let (dark, bright) = (data.filter(|p: u8| p <= value), data.filter(|p: u8| p > value));
            let (low, high) = (data.filter(|p: u8| p <= other), data.filter(|p: u8| p > other));
            let (n, m) = (dark.len() as int, bright.len() as int);
            let (k, l) = (low.len() as int, high.len() as int);
            let best = n * sum(bright) - m * sum(dark);
            let rest = k * sum(high) - l * sum(low);
            &&& n > 0 && m > 0
            &&& (best * best) * (k * l) >= (rest * rest) * (n * m)
            &&& other < value ==> (best * best) * (k * l) > (rest * rest) * (n * m)
        }),
{
    let data = gray.data@;
    let (v, u) = (value as int, other as int);
    classes(data, v);
    classes(data, u);
    crate::tone::darker_pixels_are_counted(data, u + 1);
    assert(data[i] < u + 1 && data[j] >= u + 1);
    assert(splits(data, u));
    assert(separates_as_well(data, v, u));
    if u < v {
        assert(!separates_as_well(data, u, v));
    }
    same_variance(data, v);
    same_variance(data, u);
    assert(data.filter(|p: u8| p <= value) =~= data.filter(|p: u8| p <= v));
    assert(data.filter(|p: u8| p > value) =~= data.filter(|p: u8| p > v));
    assert(data.filter(|p: u8| p <= other) =~= data.filter(|p: u8| p <= u));
    assert(data.filter(|p: u8| p > other) =~= data.filter(|p: u8| p > u));
}

proof fn same_variance(data: Seq<u8>, v: int)
    ensures
        ({
            let (n, s) = (darker(data, v + 1) as int, darker_sum(data, v + 1) as int);
            let (m, t) = (data.len() - n, total_sum(data) - s);
            let d = n * t - m * s;
            variance_numerator(data, v) == d * d && variance_denominator(data, v) == n * m
        }),
{
    let (n, s) = (darker(data, v + 1) as int, darker_sum(data, v + 1) as int);
    let (m, t) = (data.len() - n, total_sum(data) - s);
    let d = n * t - m * s;
    let e = data.len() * s - total_sum(data) * n;
    assert(e == -d) by (nonlinear_arith)
        requires
            data.len() == n + m,
            total_sum(data) == s + t,
            d == n * t - m * s,
            e == data.len() * s - total_sum(data) * n,
    ;
    assert(e * e == d * d) by (nonlinear_arith)
        requires
            e == -d,
    ;
}

/// The squares of the distances from a shade.
proof fn distances(data: Seq<u8>, y: int)
    ensures
        square_sum(data) - 2 * (y * total_sum(data)) + data.len() * (y * y) >= 0,
        (exists|i: int| 0 <= i < data.len() && #[trigger] data[i] != y) ==> square_sum(data) - 2 * (y
            * total_sum(data)) + data.len() * (y * y) > 0,
    decreases data.len(),
{
    let (q, s, n) = (square_sum(data) as int, total_sum(data) as int, data.len() as int);
    if n > 0 {
        let front = data.drop_last();
        let x = data.last() as int;
        distances(front, y);
        let (p, r) = (square_sum(front) as int, total_sum(front) as int);
        assert(q - 2 * (y * s) + n * (y * y) == p - 2 * (y * r) + (n - 1) * (y * y) + (x - y) * (x
            - y)) by (nonlinear_arith)
            requires
                q == p + x * x,
                s == r + x,
        ;
        assert((x - y) * (x - y) >= 0 && (x != y ==> (x - y) * (x - y) > 0)) by (nonlinear_arith);
        if exists|i: int| 0 <= i < data.len() && #[trigger] data[i] != y {
            let i = choose|i: int| 0 <= i < data.len() && #[trigger] data[i] != y;
            if i < n - 1 {
                assert(front[i] != y);
            }
        }
    } else {
        assert(y * s == 0 && n * (y * y) == 0) by (nonlinear_arith)
            requires
                s == 0,
                n == 0,
        ;
    }
}

proof fn spread_of_shades(data: Seq<u8>)
    ensures
        data.len() * square_sum(data) - total_sum(data) * total_sum(data) >= 0,
        data.len() * square_sum(data) - total_sum(data) * total_sum(data) > 0 <==> exists|
            i: int,
            j: int,
        |
            0 <= i < data.len() && 0 <= j < data.len() && #[trigger] data[i] != #[trigger] data[j],
    decreases data.len(),
{
    let (q, s, n) = (square_sum(data) as int, total_sum(data) as int, data.len() as int);
    if n > 0 {
        let front = data.drop_last();
        let y = data.last() as int;
        spread_of_shades(front);
        distances(front, y);
        let (p, r) = (square_sum(front) as int, total_sum(front) as int);
        let d = p - 2 * (y * r) + (n - 1) * (y * y);
        assert(n * q - s * s == ((n - 1) * p - r * r) + d) by (nonlinear_arith)
            requires
                q == p + y * y,
                s == r + y,
                d == p - 2 * (y * r) + (n - 1) * (y * y),
        ;
        if exists|i: int, j: int|
            0 <= i < data.len() && 0 <= j < data.len() && #[trigger] data[i] != #[trigger] data[j] {
            let (i, j) = choose|i: int, j: int|
                0 <= i < data.len() && 0 <= j < data.len() && #[trigger] data[i]
                    != #[trigger] data[j];
            assert(i < n - 1 ==> front[i] == data[i]);
            assert(j < n - 1 ==> front[j] == data[j]);
            assert(data[n - 1] == y);
            if data[i] != y {
                assert(front[i] != y);
            } else {
                assert(front[j] != y);
            }
        } else {
            assert forall|i: int, j: int|
                0 <= i < front.len() && 0 <= j < front.len() implies #[trigger] front[i]
                == #[trigger] front[j] by {
                assert(front[i] == data[i] && front[j] == data[j]);
            }
            all_alike(front, y);
        }
    } else {
        assert(n * q - s * s == 0) by (nonlinear_arith)
            requires
                n == 0,
                s == 0,
        ;
    }
}

proof fn all_alike(data: Seq<u8>, y: int)
    requires
        0 <= y <= 255,
        forall|i: int| 0 <= i < data.len() ==> #[trigger] data[i] == y,
    ensures
        square_sum(data) - 2 * (y * total_sum(data)) + data.len() * (y * y) == 0,
    decreases data.len(),
{
    let (q, s, n) = (square_sum(data) as int, total_sum(data) as int, data.len() as int);
    if n > 0 {
        let front = data.drop_last();
        assert forall|i: int| 0 <= i < front.len() implies #[trigger] front[i] == y by {
            assert(front[i] == data[i]);
        }
        all_alike(front, y);
        assert(data[n - 1] == y);
        let (p, r) = (square_sum(front) as int, total_sum(front) as int);
        assert(q - 2 * (y * s) + n * (y * y) == p - 2 * (y * r) + (n - 1) * (y * y))
            by (nonlinear_arith)
            requires
                q == p + y * y,
                s == r + y,
        ;
    } else {
        assert(y * s == 0 && n * (y * y) == 0) by (nonlinear_arith)
            requires
                s == 0,
                n == 0,
        ;
    }
}

/// Shades spread above nothing exactly if there are two of them. A spread above a limit is above
/// every lower one.
pub proof fn shades_spread_if_they_differ(
    gray: &Gray,
    s: Spread,
    limit: u8,
    r: bool,
    lower: u8,
    t: bool,
)
    requires
        call_ensures(spread, (gray,), s),
        call_ensures(Spread::above, (&s, limit), r),
        call_ensures(Spread::above, (&s, lower), t),
        lower <= limit,
    ensures
        limit == 0 ==> (r <==> exists|i: int, j: int|
            0 <= i < gray.data@.len() && 0 <= j < gray.data@.len() && #[trigger] gray.data@[i]
                != #[trigger] gray.data@[j]),
        r ==> t,
        (forall|i: int, j: int|
            0 <= i < gray.data@.len() && 0 <= j < gray.data@.len() ==> #[trigger] gray.data@[i]
                == #[trigger] gray.data@[j]) ==> !r,
{
    spread_of_shades(gray.data@);
    let (n, a, b) = (s.count as int, limit as int, lower as int);
    assert((0 * n) * (0 * n) == 0 && (a * n) * (a * n) >= (b * n) * (b * n) && (b * n) * (b * n)
        >= 0) by (nonlinear_arith)
        requires
            a >= b >= 0,
            n >= 0,
    ;
}

} // verus!
