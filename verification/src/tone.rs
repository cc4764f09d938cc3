//! The shades of an image: histogram, quantiles, contrast and thresholds.

use vstd::prelude::*;

use crate::binary64::{Double, HIDDEN_BIT, double, half_up, mantissa, round_half_up, unit};
use crate::gray::Gray;

verus! {

/// How many pixels have the shade `v`.
pub open spec fn occurrences(data: Seq<u8>, v: int) -> nat
    decreases data.len(),
{
    if data.len() == 0 {
        0
    } else {
        occurrences(data.drop_last(), v) + if data.last() == v {
            1nat
        } else {
            0
        }
    }
}

/// How many pixels are darker than `v`.
pub open spec fn darker(data: Seq<u8>, v: int) -> nat
    decreases data.len(),
{
    if data.len() == 0 {
        0
    } else {
        darker(data.drop_last(), v) + if data.last() < v {
            1nat
        } else {
            0
        }
    }
}

/// The sum of the pixels darker than `v`.
pub open spec fn darker_sum(data: Seq<u8>, v: int) -> nat
    decreases data.len(),
{
    if data.len() == 0 {
        0
    } else {
        darker_sum(data.drop_last(), v) + if data.last() < v {
            data.last() as nat
        } else {
            0
        }
    }
}

/// The sum of all pixels.
pub open spec fn total_sum(data: Seq<u8>) -> nat {
    darker_sum(data, 256)
}

/// Counting up by one shade adds the pixels of that shade.
pub proof fn darker_step(data: Seq<u8>, v: int)
    ensures
        darker(data, v + 1) == darker(data, v) + occurrences(data, v),
        0 <= v ==> darker_sum(data, v + 1) == darker_sum(data, v) + v * occurrences(data, v),
    decreases data.len(),
{
    if data.len() > 0 {
        let rest = data.drop_last();
        darker_step(rest, v);
        assert(v * (occurrences(rest, v) + 1) == v * occurrences(rest, v) + v)
            by (nonlinear_arith);
    } else {
        assert(v * 0 == 0) by (nonlinear_arith);
    }
}

/// The counts never exceed the number of pixels, and every pixel is darker than 256.
pub proof fn darker_bounds(data: Seq<u8>, v: int)
    ensures
        darker(data, v) <= data.len(),
        occurrences(data, v) <= data.len(),
        darker_sum(data, v) <= 255 * darker(data, v),
        v <= 0 ==> darker(data, v) == 0 && darker_sum(data, v) == 0,
        v >= 256 ==> darker(data, v) == data.len(),
    decreases data.len(),
{
    if data.len() > 0 {
        darker_bounds(data.drop_last(), v);
    }
}

/// A brighter limit leaves no fewer pixels below it.
pub proof fn darker_monotone(data: Seq<u8>, u: int, v: int)
    requires
        u <= v,
    ensures
        darker(data, u) <= darker(data, v),
        darker_sum(data, u) <= darker_sum(data, v),
    decreases data.len(),
{
    if data.len() > 0 {
        darker_monotone(data.drop_last(), u, v);
    }
}

/// `v` is the shade of the pixel that has rank `k` when all pixels are put in order.
pub open spec fn has_rank(data: Seq<u8>, k: int, v: int) -> bool {
    darker(data, v) <= k < darker(data, v + 1)
}

/// A rank belongs to one shade.
pub proof fn rank_is_unique(data: Seq<u8>, k: int, u: int, v: int)
    requires
        has_rank(data, k, u),
        has_rank(data, k, v),
    ensures
        u == v,
{
    if u < v {
        darker_monotone(data, u + 1, v);
    }
    if v < u {
        darker_monotone(data, v + 1, u);
    }
}

/// Ranks keep the order of the shades.
pub proof fn rank_order(data: Seq<u8>, j: int, u: int, k: int, v: int)
    requires
        has_rank(data, j, u),
        has_rank(data, k, v),
        j <= k,
    ensures
        u <= v,
{
    if v < u {
        darker_monotone(data, v + 1, u);
    }
}

/// `counts` holds the number of pixels of each shade.
pub open spec fn counts_shades(counts: Seq<u32>, data: Seq<u8>) -> bool {
    &&& counts.len() == 256
    &&& forall|v: int| 0 <= v < 256 ==> #[trigger] counts[v] == occurrences(data, v)
}

/// How many pixels the image has of each shade.
pub fn histogram(gray: &Gray) -> (counts: Vec<u32>)
    requires
        gray.countable(),
    ensures
        counts_shades(counts@, gray.data@),
{
    let mut counts: Vec<u32> = vec![0u32; 256];
    let mut i: usize = 0;
    while i < gray.data.len()
        invariant
            i <= gray.data@.len() <= u32::MAX,
            counts_shades(counts@, gray.data@.take(i as int)),
        decreases gray.data.len() - i,
    {
        let ghost next = gray.data@.take(i + 1);
        let ghost seen = gray.data@.take(i as int);
        assert(next.drop_last() =~= seen);
        let v: usize = gray.data[i] as usize;
        proof {
            darker_bounds(seen, v as int);
            assert(counts@[v as int] == occurrences(seen, v as int));
        }
        let count: u32 = counts[v];
        counts.set(v, count + 1);
        assert forall|s: int| 0 <= s < 256 implies #[trigger] counts@[s] == occurrences(
            next,
            s,
        ) by {
            assert(occurrences(next, s) == occurrences(seen, s) + if next.last() == s {
                1nat
            } else {
                0
            });
        }
        i = i + 1;
    }
    assert(gray.data@.take(gray.data@.len() as int) =~= gray.data@);
    counts
}

/// The sum of the first `n` counts.
pub open spec fn leading(counts: Seq<u32>, n: int) -> nat
    decreases n,
{
    if n <= 0 {
        0
    } else {
        leading(counts, n - 1) + counts[n - 1] as nat
    }
}

/// The leading counts of a histogram are the numbers of darker pixels.
pub proof fn leading_is_darker(counts: Seq<u32>, data: Seq<u8>, n: int)
    requires
        counts_shades(counts, data),
        0 <= n <= 256,
    ensures
        leading(counts, n) == darker(data, n),
    decreases n,
{
    if n == 0 {
        darker_bounds(data, 0);
    } else {
        leading_is_darker(counts, data, n - 1);
        darker_step(data, n - 1);
    }
}

/// More counts add up to no less.
pub proof fn leading_monotone(counts: Seq<u32>, m: int, n: int)
    requires
        m <= n,
    ensures
        leading(counts, m) <= leading(counts, n),
    decreases n - m,
{
    if m < n {
        leading_monotone(counts, m, n - 1);
    }
}

/// The bin in which the items run past `cut`, counted from the first bin or from the last.
pub fn quantile_from_histogram(counts: &Vec<u32>, cut: usize, from_high: bool) -> (bin: Option<
    usize,
>)
    ensures
        match bin {
            Some(i) => i < counts@.len() && if from_high {
                leading(counts@, counts@.len() as int) - leading(counts@, i + 1) <= cut < leading(
                    counts@,
                    counts@.len() as int,
                ) - leading(counts@, i as int)
            } else {
                leading(counts@, i as int) <= cut < leading(counts@, i + 1)
            },
            None => leading(counts@, counts@.len() as int) <= cut,
        },
{
    let n: usize = counts.len();
    let mut remaining: usize = cut;
    let mut k: usize = 0;
    while k < n
        invariant
            n == counts@.len(),
            k <= n,
            remaining <= cut,
            !from_high ==> remaining == cut - leading(counts@, k as int),
            from_high ==> remaining == cut - (leading(counts@, n as int) - leading(counts@, n - k)),
        decreases n - k,
    {
        let index: usize = if from_high {
            n - 1 - k
        } else {
            k
        };
        let count: u32 = counts[index];
        if count as usize > remaining {
            return Some(index);
        }
        remaining = remaining - count as usize;
        k = k + 1;
    }
    None
}

/// The shades of rank `cut` from either end. None if fewer pixels than that are there.
fn shade_range(counts: &Vec<u32>, cut: usize, Ghost(data): Ghost<Seq<u8>>) -> (range: (usize, usize))
    requires
        counts_shades(counts@, data),
        cut < data.len(),
    ensures
        range.0 < 256 && has_rank(data, cut as int, range.0 as int),
        range.1 < 256 && has_rank(data, data.len() - 1 - cut, range.1 as int),
{
    let low = quantile_from_histogram(counts, cut, false);
    let high = quantile_from_histogram(counts, cut, true);
    proof {
        leading_is_darker(counts@, data, 256);
        darker_bounds(data, 256);
        if let Some(i) = low {
            leading_is_darker(counts@, data, i as int);
            leading_is_darker(counts@, data, i + 1);
        }
        if let Some(i) = high {
            leading_is_darker(counts@, data, i as int);
            leading_is_darker(counts@, data, i + 1);
        }
    }
    match (low, high) {
        (Some(lo), Some(hi)) => (lo, hi),
        _ => (0, 0),
    }
}

/// `range` is the distance between the shades of rank `len / 1000` from either end.
pub open spec fn is_robust_range(data: Seq<u8>, range: int) -> bool {
    let cut = data.len() as int / 1000;
    let last = data.len() - 1 - cut;
    if data.len() == 0 {
        range == 0
    } else {
        exists|lo: int, hi: int|
            #![trigger has_rank(data, cut, lo), has_rank(data, last, hi)]
            has_rank(data, cut, lo) && has_rank(data, last, hi) && range == hi - lo
    }
}

/// Distance between the shades of rank `len / 1000` from either end: the contrast of the image
/// without the pixels that lie outside the bulk of its shades.
pub fn robust_range(gray: &Gray) -> (range: u8)
    requires
        gray.countable(),
    ensures
        is_robust_range(gray.data@, range as int),
{
    if gray.data.len() == 0 {
        return 0;
    }
    let counts = histogram(gray);
    let cut: usize = gray.data.len() / 1000;
    let (lo, hi) = shade_range(&counts, cut, Ghost(gray.data@));
    proof {
        rank_order(
            gray.data@,
            cut as int,
            lo as int,
            gray.data@.len() - 1 - cut,
            hi as int,
        );
    }
    (hi - lo) as u8
}

/// A mean as an exact fraction.
#[derive(Clone, Copy, Debug)]
pub struct Mean {
    pub total: u64,
    pub count: u64,
}

impl Mean {
    /// The mean lies below `limit`. The mean of nothing is zero.
    pub open spec fn is_below(self, limit: int) -> bool {
        if self.count == 0 {
            0 < limit
        } else {
            self.total < limit * self.count
        }
    }

    pub fn below(&self, limit: u8) -> (r: bool)
        ensures
            r == self.is_below(limit as int),
    {
        if self.count == 0 {
            0 < limit
        } else {
            proof {
                assert(0 <= limit * self.count <= 255 * u64::MAX) by (nonlinear_arith)
                    requires
                        0 <= limit <= 255,
                        0 <= self.count <= u64::MAX,
                ;
            }
            (self.total as u128) < limit as u128 * self.count as u128
        }
    }
}

/// The mean shade of the image.
pub fn mean_luminance(gray: &Gray) -> (mean: Mean)
    requires
        gray.countable(),
    ensures
        mean.total == total_sum(gray.data@),
        mean.count == gray.data@.len(),
{
    let mut total: u64 = 0;
    let mut i: usize = 0;
    while i < gray.data.len()
        invariant
            i <= gray.data@.len() <= u32::MAX,
            total == total_sum(gray.data@.take(i as int)),
            total <= 255 * i,
        decreases gray.data.len() - i,
    {
        assert(gray.data@.take(i + 1).drop_last() =~= gray.data@.take(i as int));
        total = total + gray.data[i] as u64;
        i = i + 1;
    }
    assert(gray.data@.take(gray.data@.len() as int) =~= gray.data@);
    Mean { total, count: gray.data.len() as u64 }
}

/// The negative of an image.
pub open spec fn negative(data: Seq<u8>) -> Seq<u8> {
    data.map_values(|v: u8| (255 - v) as u8)
}

/// Turns the image into its negative.
pub fn invert(gray: &mut Gray)
    ensures
        final(gray).width == old(gray).width,
        final(gray).height == old(gray).height,
        final(gray).data@ == negative(old(gray).data@),
{
    let mut i: usize = 0;
    let n: usize = gray.data.len();
    while i < n
        invariant
            i <= n,
            n == gray.data@.len(),
            n == old(gray).data@.len(),
            gray.width == old(gray).width,
            gray.height == old(gray).height,
            forall|k: int| 0 <= k < i ==> gray.data@[k] == 255 - old(gray).data@[k],
            forall|k: int| i <= k < n ==> gray.data@[k] == old(gray).data@[k],
        decreases n - i,
    {
        let value: u8 = gray.data[i];
        gray.data.set(i, 255 - value);
        i = i + 1;
    }
    assert(gray.data@ =~= negative(old(gray).data@));
}

/// The negative of a negative is the image.
pub proof fn inverting_twice_changes_nothing(data: Seq<u8>)
    ensures
        negative(negative(data)) == data,
{
    assert(negative(negative(data)) =~= data);
}

/// What is darker than `v` in the negative is brighter than `255 - v` in the image.
proof fn darker_in_the_negative(data: Seq<u8>, v: int)
    ensures
        darker(negative(data), v) + darker(data, 256 - v) == data.len(),
    decreases data.len(),
{
    if data.len() > 0 {
        assert(negative(data).drop_last() =~= negative(data.drop_last()));
        assert(negative(data).last() == 255 - data.last());
        darker_in_the_negative(data.drop_last(), v);
    }
}

/// An image has one range.
pub proof fn the_range_is_unique(data: Seq<u8>, a: int, b: int)
    requires
        is_robust_range(data, a),
        is_robust_range(data, b),
    ensures
        a == b,
{
    if data.len() > 0 {
        let cut = data.len() as int / 1000;
        let last = data.len() - 1 - cut;
        let (p, q) = choose|p: int, q: int|
            #![trigger has_rank(data, cut, p), has_rank(data, last, q)]
            has_rank(data, cut, p) && has_rank(data, last, q) && a == q - p;
        let (r, t) = choose|r: int, t: int|
            #![trigger has_rank(data, cut, r), has_rank(data, last, t)]
            has_rank(data, cut, r) && has_rank(data, last, t) && b == t - r;
        rank_is_unique(data, cut, p, r);
        rank_is_unique(data, last, q, t);
    }
}

/// The negative of an image has the same range.
pub proof fn the_negative_has_the_same_range(data: Seq<u8>, range: int)
    requires
        is_robust_range(data, range),
    ensures
        is_robust_range(negative(data), range),
{
    if data.len() > 0 {
        let cut = data.len() as int / 1000;
        let last = data.len() - 1 - cut;
        let (lo, hi) = choose|lo: int, hi: int|
            #![trigger has_rank(data, cut, lo), has_rank(data, last, hi)]
            has_rank(data, cut, lo) && has_rank(data, last, hi) && range == hi - lo;
        darker_in_the_negative(data, 255 - lo);
        darker_in_the_negative(data, 256 - lo);
        darker_in_the_negative(data, 255 - hi);
        darker_in_the_negative(data, 256 - hi);
        assert(has_rank(negative(data), cut, 255 - hi));
        assert(has_rank(negative(data), last, 255 - lo));
    }
}

/// Leaving out one pixel leaves out one count.
proof fn darker_without(data: Seq<u8>, i: int, v: int)
    requires
        0 <= i < data.len(),
    ensures
        darker(data, v) == darker(data.remove(i), v) + if data[i] < v {
            1int
        } else {
            0
        },
    decreases data.len(),
{
    let rest = data.remove(i);
    if i == data.len() - 1 {
        assert(rest =~= data.drop_last());
    } else {
        assert(rest.drop_last() =~= data.drop_last().remove(i));
        assert(rest.last() == data.last());
        darker_without(data.drop_last(), i, v);
    }
}

/// The same pixels in another order are as dark.
proof fn darker_in_any_order(data: Seq<u8>, other: Seq<u8>, v: int)
    requires
        data.to_multiset() == other.to_multiset(),
    ensures
        data.len() == other.len(),
        darker(data, v) == darker(other, v),
    decreases data.len(),
{
    vstd::seq_lib::to_multiset_len(data);
    vstd::seq_lib::to_multiset_len(other);
    if data.len() > 0 {
        let n = data.len() - 1;
        let c = data[n];
        vstd::seq_lib::to_multiset_contains(data, c);
        vstd::seq_lib::to_multiset_contains(other, c);
        assert(data.contains(c));
        let i = choose|i: int| 0 <= i < other.len() && other[i] == c;
        vstd::seq_lib::to_multiset_remove(data, n);
        vstd::seq_lib::to_multiset_remove(other, i);
        darker_in_any_order(data.remove(n), other.remove(i), v);
        darker_without(data, n, v);
        darker_without(other, i, v);
    }
}

/// The range does not depend on where the pixels lie.
pub proof fn the_range_is_the_same_in_any_order(data: Seq<u8>, other: Seq<u8>, range: int)
    requires
        data.to_multiset() == other.to_multiset(),
        is_robust_range(data, range),
    ensures
        is_robust_range(other, range),
{
    darker_in_any_order(data, other, 0);
    if data.len() > 0 {
        let cut = data.len() as int / 1000;
        let last = data.len() - 1 - cut;
        let (lo, hi) = choose|lo: int, hi: int|
            #![trigger has_rank(data, cut, lo), has_rank(data, last, hi)]
            has_rank(data, cut, lo) && has_rank(data, last, hi) && range == hi - lo;
        darker_in_any_order(data, other, lo);
        darker_in_any_order(data, other, lo + 1);
        darker_in_any_order(data, other, hi);
        darker_in_any_order(data, other, hi + 1);
        assert(has_rank(other, cut, lo));
        assert(has_rank(other, last, hi));
    }
}

/// A pixel below the limit is counted, and one that is not is left out.
proof fn each_pixel_counts(data: Seq<u8>, i: int, v: int)
    requires
        0 <= i < data.len(),
    ensures
        data[i] < v ==> darker(data, v) > 0,
        data[i] >= v ==> darker(data, v) < data.len(),
{
    darker_without(data, i, v);
    darker_bounds(data.remove(i), v);
}

/// A shade that has a rank occurs.
proof fn a_ranked_shade_occurs(data: Seq<u8>, k: int, v: int) -> (i: int)
    requires
        has_rank(data, k, v),
    ensures
        0 <= i < data.len(),
        data[i] == v,
    decreases data.len(),
{
    darker_step(data, v);
    if data.len() > 0 && data.last() == v {
        data.len() - 1
    } else {
        let rest = data.drop_last();
        darker_step(rest, v);
        a_ranked_shade_occurs(rest, darker(rest, v) as int, v)
    }
}

/// The range is at most the distance between the darkest and the brightest pixel, and exactly that
/// in an image of fewer than a thousand pixels.
pub proof fn the_range_keeps_to_the_extremes(
    data: Seq<u8>,
    range: int,
    darkest: int,
    brightest: int,
)
    requires
        is_robust_range(data, range),
        0 <= darkest < data.len(),
        0 <= brightest < data.len(),
        forall|i: int|
            0 <= i < data.len() ==> data[darkest] <= #[trigger] data[i] <= data[brightest],
    ensures
        range <= data[brightest] - data[darkest],
        data.len() < 1000 ==> range == data[brightest] - data[darkest],
{
    let cut = data.len() as int / 1000;
    let last = data.len() - 1 - cut;
    let (lo, hi) = choose|lo: int, hi: int|
        #![trigger has_rank(data, cut, lo), has_rank(data, last, hi)]
        has_rank(data, cut, lo) && has_rank(data, last, hi) && range == hi - lo;
    let i = a_ranked_shade_occurs(data, cut, lo);
    let j = a_ranked_shade_occurs(data, last, hi);
    assert(data[darkest] <= data[i] && data[j] <= data[brightest]);
    if data.len() < 1000 {
        each_pixel_counts(data, darkest, lo);
        each_pixel_counts(data, brightest, hi + 1);
        darker_bounds(data, hi + 1);
    }
}

/// A shade moved so that `lo` becomes black and `hi` white: its distance from `lo` times
/// `255 / (hi - lo)`, in double precision, to the nearest shade.
pub open spec fn stretch(v: int, lo: int, hi: int) -> u8 {
    if v <= lo {
        0
    } else {
        let span = (hi - lo) as nat;
        let scaled = ((v - lo) * mantissa(255, span)) as nat;
        let u = unit(255, span);
        let shade = half_up(mantissa(scaled, u), unit(scaled, u));
        if shade > 255 {
            255
        } else {
            shade as u8
        }
    }
}

fn stretched(v: u8, lo: u8, hi: u8) -> (shade: u8)
    requires
        lo < hi,
    ensures
        shade == stretch(v as int, lo as int, hi as int),
{
    if v <= lo {
        return 0;
    }
    let span: u128 = (hi - lo) as u128;
    let scale: Double = double(255, span);
    let away: u128 = (v - lo) as u128;
    proof {
        assert(away * scale.mantissa <= 255 * (2 * HIDDEN_BIT)) by (nonlinear_arith)
            requires
                0 <= away <= 255,
                0 <= scale.mantissa <= 2 * HIDDEN_BIT,
        ;
        assert(away * scale.mantissa >= HIDDEN_BIT) by (nonlinear_arith)
            requires
                1 <= away,
                scale.mantissa >= HIDDEN_BIT,
        ;
        assert(scale.unit >= HIDDEN_BIT / 255);
        assert(scale.unit < 2 * HIDDEN_BIT);
    }
    let scaled: u128 = away * scale.mantissa;
    let product: Double = double(scaled, scale.unit);
    let shade: u128 = round_half_up(product.mantissa, product.unit);
    if shade > 255 {
        255
    } else {
        shade as u8
    }
}

/// Stretches the contrast: once the `cutoff_percent` darkest and brightest pixels are set aside,
/// the darkest shade left becomes black and the brightest white. Where at most one shade is left
/// the image stays as it is.
pub fn autocontrast(gray: &mut Gray, cutoff_percent: u32)
    requires
        old(gray).countable(),
        cutoff_percent * old(gray).data@.len() <= u32::MAX,
    ensures
        final(gray).width == old(gray).width,
        final(gray).height == old(gray).height,
        is_autocontrast(old(gray).data@, cutoff_percent as int, final(gray).data@),
{
    let n: usize = gray.data.len();
    if n == 0 {
        return;
    }
    let counts = histogram(gray);
    let cut: usize = cutoff_percent as usize * n / 100;
    if cut >= n || n - cut <= cut {
        return;
    }
    let (lo, hi) = shade_range(&counts, cut, Ghost(gray.data@));
    if hi <= lo {
        proof {
            let data = gray.data@;
            assert forall|a: int, b: int| #[trigger]
                has_rank(data, cut as int, a) && #[trigger] has_rank(
                    data,
                    data.len() - 1 - cut,
                    b,
                ) implies a >= b by {
                rank_is_unique(data, cut as int, a, lo as int);
                rank_is_unique(data, data.len() - 1 - cut, b, hi as int);
            }
        }
        return;
    }
    let mut lut: Vec<u8> = Vec::with_capacity(256);
    let mut v: usize = 0;
    while v < 256
        invariant
            v <= 256,
            lo < hi < 256,
            lut@.len() == v,
            forall|k: int|
                0 <= k < v ==> #[trigger] lut@[k] == stretch(k, lo as int, hi as int),
        decreases 256 - v,
    {
        lut.push(stretched(v as u8, lo as u8, hi as u8));
        v = v + 1;
    }
    let mut i: usize = 0;
    while i < n
        invariant
            i <= n,
            n == gray.data@.len(),
            n == old(gray).data@.len(),
            lut@.len() == 256,
            forall|k: int|
                0 <= k < 256 ==> #[trigger] lut@[k] == stretch(k, lo as int, hi as int),
            gray.width == old(gray).width,
            gray.height == old(gray).height,
            forall|k: int|
                0 <= k < i ==> gray.data@[k] == stretch(
                    old(gray).data@[k] as int,
                    lo as int,
                    hi as int,
                ),
            forall|k: int| i <= k < n ==> gray.data@[k] == old(gray).data@[k],
        decreases n - i,
    {
        let value: usize = gray.data[i] as usize;
        let mapped: u8 = lut[value];
        gray.data.set(i, mapped);
        i = i + 1;
    }
    proof {
        let data = old(gray).data@;
        assert forall|a: int, b: int| #[trigger]
            has_rank(data, cut as int, a) && #[trigger] has_rank(data, data.len() - 1 - cut, b)
                && a < b implies gray.data@ == data.map_values(|v: u8| stretch(v as int, a, b)) by {
            rank_is_unique(data, cut as int, a, lo as int);
            rank_is_unique(data, data.len() - 1 - cut, b, hi as int);
            assert(gray.data@ =~= data.map_values(|v: u8| stretch(v as int, a, b)));
        }
        assert(has_rank(data, cut as int, lo as int));
        assert(has_rank(data, data.len() - 1 - cut, hi as int));
    }
}

/// `out` is `data` with its contrast stretched.
pub open spec fn is_autocontrast(data: Seq<u8>, cutoff_percent: int, out: Seq<u8>) -> bool {
    let cut = cutoff_percent * data.len() / 100;
    if 2 * cut >= data.len() {
        out == data
    } else {
        let last = data.len() - 1 - cut;
        exists|lo: int, hi: int|
            #![trigger has_rank(data, cut, lo), has_rank(data, last, hi)]
            has_rank(data, cut, lo) && has_rank(data, last, hi) && out == if lo < hi {
                data.map_values(|v: u8| stretch(v as int, lo, hi))
            } else {
                data
            }
    }
}

/// A pixel divided by its background, scaled so that an equal background gives white.
pub open spec fn quotient(a: u8, b: u8) -> u8 {
    if b == 0 {
        0
    } else {
        let q = (a * 255 + b as int / 2) / (b as int);
        if q > 255 {
            255
        } else {
            q as u8
        }
    }
}

/// Divides every pixel by the background estimated for it. A black background gives black.
pub fn divide(a: &Gray, b: &Gray) -> (out: Gray)
    requires
        a.data@.len() == b.data@.len(),
    ensures
        out.width == a.width,
        out.height == a.height,
        out.data@.len() == a.data@.len(),
        forall|i: int|
            0 <= i < a.data@.len() ==> #[trigger] out.data@[i] == quotient(
                a.data@[i],
                b.data@[i],
            ),
{
    let n: usize = a.data.len();
    let mut data: Vec<u8> = Vec::with_capacity(n);
    let mut i: usize = 0;
    while i < n
        invariant
            i <= n,
            n == a.data@.len(),
            n == b.data@.len(),
            data@.len() == i,
            forall|k: int|
                0 <= k < i ==> #[trigger] data@[k] == quotient(a.data@[k], b.data@[k]),
        decreases n - i,
    {
        let divisor: u32 = b.data[i] as u32;
        let numerator: u32 = a.data[i] as u32 * 255 + divisor / 2;
        let value: u32 = if divisor == 0 {
            0
        } else {
            numerator / divisor
        };
        data.push(
            if value > 255 {
                255
            } else {
                value as u8
            },
        );
        i = i + 1;
    }
    Gray { width: a.width, height: a.height, data }
}

/// Blackens the pixels up to `value` and whitens the others.
pub fn threshold(gray: &mut Gray, value: u8)
    ensures
        final(gray).width == old(gray).width,
        final(gray).height == old(gray).height,
        final(gray).data@ == old(gray).data@.map_values(
            |v: u8|
                if v > value {
                    255u8
                } else {
                    0u8
                },
        ),
{
    let mut i: usize = 0;
    let n: usize = gray.data.len();
    while i < n
        invariant
            i <= n,
            n == gray.data@.len(),
            n == old(gray).data@.len(),
            gray.width == old(gray).width,
            gray.height == old(gray).height,
            forall|k: int|
                0 <= k < i ==> gray.data@[k] == if old(gray).data@[k] > value {
                    255u8
                } else {
                    0u8
                },
            forall|k: int| i <= k < n ==> gray.data@[k] == old(gray).data@[k],
        decreases n - i,
    {
        let pixel: u8 = gray.data[i];
        gray.data.set(
            i,
            if pixel > value {
                255
            } else {
                0
            },
        );
        i = i + 1;
    }
    assert(gray.data@ =~= old(gray).data@.map_values(
        |v: u8|
            if v > value {
                255u8
            } else {
                0u8
            },
    ));
}

/// There is a darker pixel exactly if one is counted.
pub proof fn darker_pixels_are_counted(data: Seq<u8>, v: int)
    ensures
        darker(data, v) > 0 <==> exists|i: int| 0 <= i < data.len() && #[trigger] data[i] < v,
        darker(data, v) < data.len() <==> exists|i: int|
            0 <= i < data.len() && #[trigger] data[i] >= v,
    decreases data.len(),
{
    darker_bounds(data, v);
    if data.len() > 0 {
        let front = data.drop_last();
        darker_pixels_are_counted(front, v);
        darker_bounds(front, v);
        assert(data.last() == data[data.len() - 1]);
        if exists|i: int| 0 <= i < data.len() && #[trigger] data[i] < v {
            let i = choose|i: int| 0 <= i < data.len() && #[trigger] data[i] < v;
            if i < front.len() {
                assert(front[i] < v);
            }
        }
        if exists|i: int| 0 <= i < data.len() && #[trigger] data[i] >= v {
            let i = choose|i: int| 0 <= i < data.len() && #[trigger] data[i] >= v;
            if i < front.len() {
                assert(front[i] >= v);
            }
        }
        if exists|i: int| 0 <= i < front.len() && #[trigger] front[i] < v {
            let i = choose|i: int| 0 <= i < front.len() && #[trigger] front[i] < v;
            assert(data[i] < v);
        }
        if exists|i: int| 0 <= i < front.len() && #[trigger] front[i] >= v {
            let i = choose|i: int| 0 <= i < front.len() && #[trigger] front[i] >= v;
            assert(data[i] >= v);
        }
    }
}

/// Thresholding leaves two shades, puts no pixel below one that was darker, and turns exactly the
/// pixels above the threshold white.
pub proof fn thresholding_keeps_the_order(gray: &mut Gray, value: u8, i: int, j: int)
    requires
        call_ensures(threshold, (gray, value), ()),
        0 <= i < old(gray).data@.len(),
        0 <= j < old(gray).data@.len(),
    ensures
        final(gray).data@.len() == old(gray).data@.len(),
        final(gray).data@[i] == 0 || final(gray).data@[i] == 255,
        old(gray).data@[i] <= old(gray).data@[j] ==> final(gray).data@[i] <= final(gray).data@[j],
        old(gray).data@[i] > value ==> final(gray).data@[i] == 255,
        old(gray).data@[i] <= value ==> final(gray).data@[i] == 0,
{
}

/// The negative turns the order of the shades around and keeps their distances.
pub proof fn inverting_turns_the_order(gray: &mut Gray, i: int, j: int)
    requires
        call_ensures(invert, (gray,), ()),
        0 <= i < old(gray).data@.len(),
        0 <= j < old(gray).data@.len(),
    ensures
        final(gray).data@.len() == old(gray).data@.len(),
        final(gray).data@[i] - final(gray).data@[j] == old(gray).data@[j] - old(gray).data@[i],
        old(gray).data@[i] == 0 ==> final(gray).data@[i] == 255,
{
}

/// Dividing by the background makes white what is as light as it, keeps black black and keeps the
/// order of the shades over the same background. Over a lighter background a pixel comes out no
/// lighter. White leaves a pixel as it is.
pub proof fn dividing_flattens_the_background(a: &Gray, b: &Gray, out: Gray, i: int, j: int)
    requires
        call_ensures(divide, (a, b), out),
        a.data@.len() == b.data@.len(),
        0 <= i < a.data@.len(),
        0 <= j < a.data@.len(),
    ensures
        out.data@.len() == a.data@.len(),
        b.data@[i] > 0 && a.data@[i] >= b.data@[i] ==> out.data@[i] == 255,
        a.data@[i] == 0 ==> out.data@[i] == 0 || b.data@[i] == 0,
        b.data@[i] == 0 ==> out.data@[i] == 0,
        b.data@[i] == 255 ==> out.data@[i] == a.data@[i],
        b.data@[i] > 0 ==> out.data@[i] >= a.data@[i],
        b.data@[i] == b.data@[j] && a.data@[i] <= a.data@[j] ==> out.data@[i] <= out.data@[j],
        0 < b.data@[i] <= b.data@[j] && a.data@[i] == a.data@[j] ==> out.data@[i] >= out.data@[j],
{
    let (p, q, r) = (a.data@[i] as int, b.data@[i] as int, b.data@[j] as int);
    let s = a.data@[j] as int;
    if q > 0 {
        let n = p * 255 + q / 2;
        assert(p >= q ==> n / q >= 255) by (nonlinear_arith)
            requires
                q > 0,
                n == p * 255 + q / 2,
        ;
        assert(p == 0 ==> n / q == 0) by (nonlinear_arith)
            requires
                q > 0,
                n == p * 255 + q / 2,
        ;
        assert(n / q >= p) by (nonlinear_arith)
            requires
                0 < q <= 255,
                0 <= p,
                n == p * 255 + q / 2,
        ;
        assert(q == 255 ==> n / q == p) by (nonlinear_arith)
            requires
                q > 0,
                n == p * 255 + q / 2,
        ;
        let m = s * 255 + q / 2;
        assert(p <= s ==> n / q <= m / q) by (nonlinear_arith)
            requires
                q > 0,
                n == p * 255 + q / 2,
                m == s * 255 + q / 2,
        ;
        if q <= r && p == s {
            let k = p * 255 + r / 2;
            let (x, y) = (n / q, k / r);
            assert(n - q < x * q <= n) by (nonlinear_arith)
                requires
                    q > 0,
                    x == n / q,
            ;
            assert(k - r < y * r <= k) by (nonlinear_arith)
                requires
                    r > 0,
                    y == k / r,
            ;
            assert(2 * n > 2 * p * 255 + q - 2 && 2 * k <= 2 * p * 255 + r);
            assert(x >= y) by (nonlinear_arith)
                requires
                    0 < q <= r,
                    n - q < x * q,
                    y * r <= k,
                    n == p * 255 + q / 2,
                    k == p * 255 + r / 2,
                    p >= 0,
                    y >= 0,
            ;
        }
    }
}

proof fn sum_between(data: Seq<u8>, low: int, high: int)
    requires
        forall|i: int| 0 <= i < data.len() ==> low <= #[trigger] data[i] <= high,
    ensures
        low * data.len() <= darker_sum(data, 256) <= high * data.len(),
    decreases data.len(),
{
    if data.len() > 0 {
        let front = data.drop_last();
        let n = data.len() as int;
        assert forall|i: int| 0 <= i < front.len() implies low <= #[trigger] front[i] <= high by {
            assert(front[i] == data[i]);
        }
        sum_between(front, low, high);
        assert(low <= data[n - 1] <= high);
        assert(low * (n - 1) + low == low * n && high * (n - 1) + high == high * n)
            by (nonlinear_arith);
    }
}

/// The mean lies between the darkest and the brightest pixel.
pub proof fn the_mean_lies_between(gray: &Gray, mean: Mean, low: int, high: int)
    requires
        call_ensures(mean_luminance, (gray,), mean),
        forall|i: int| 0 <= i < gray.data@.len() ==> low <= #[trigger] gray.data@[i] <= high,
    ensures
        mean.count == gray.data@.len(),
        low * mean.count <= mean.total <= high * mean.count,
{
    sum_between(gray.data@, low, high);
}

/// A mean is below a limit exactly if its total is less than the limit for every one that was
/// counted, and lower limits are harder to stay below.
pub proof fn a_mean_is_below_its_limit(mean: Mean, limit: u8, r: bool, higher: u8, s: bool)
    requires
        call_ensures(Mean::below, (&mean, limit), r),
        call_ensures(Mean::below, (&mean, higher), s),
        limit <= higher,
    ensures
        r ==> s,
        mean.count > 0 ==> (r <==> mean.total < limit * mean.count),
{
    if mean.count > 0 {
        let (n, a, b) = (mean.count as int, limit as int, higher as int);
        assert(a * n <= b * n) by (nonlinear_arith)
            requires
                a <= b,
                n >= 0,
        ;
    }
}

/// The histogram counts every pixel once: the one with the shade `v` more, the others as they were.
pub proof fn one_more_pixel_counts_once(a: &Gray, b: &Gray, v: u8, p: Vec<u32>, q: Vec<u32>)
    requires
        call_ensures(histogram, (a,), p),
        call_ensures(histogram, (b,), q),
        b.data@ == a.data@.push(v),
    ensures
        p@.len() == 256 && q@.len() == 256,
        q@[v as int] == p@[v as int] + 1,
        forall|u: int| 0 <= u < 256 && u != v ==> #[trigger] q@[u] == p@[u],
{
    assert(b.data@.drop_last() =~= a.data@);
    assert forall|u: int| 0 <= u < 256 implies #[trigger] q@[u] == p@[u] + if u == v {
        1int
    } else {
        0
    } by {
        assert(q@[u] == occurrences(b.data@, u));
        assert(p@[u] == occurrences(a.data@, u));
    }
}

proof fn stretch_is_close(k: int, span: int)
    requires
        1 <= k <= 255,
        1 <= span <= 255,
    ensures
        ({
            let scaled = (k * mantissa(255, span as nat)) as nat;
            let u = unit(255, span as nat);
            let shade = half_up(mantissa(scaled, u), unit(scaled, u));
            -513 * span <= 1024 * (shade * span - 255 * k) <= 513 * span
        }),
{
    let d = span as nat;
    let (m, u) = (mantissa(255, d) as int, unit(255, d) as int);
    let h = crate::binary64::HIDDEN_BIT as int;
    crate::binary64::a_number_is_close(255, d);
    crate::binary64::a_unit_is_small(255, d);
    assert(255 * u >= h) by (nonlinear_arith)
        requires
            255 * u >= d * h,
            d >= 1,
            h >= 0,
    ;
    assert(255 * u == u * 255);
    let md = m * d;
    assert(-(d as int) <= 2 * md - 2 * (255 * u) <= d);
    assert(m >= 1 && m <= md) by (nonlinear_arith)
        requires
            md == m * d,
            d >= 1,
            m >= 0,
            md >= 1,
    ;
    let n = k * m;
    assert(n >= 1 && n <= 256 * m && n >= 0) by (nonlinear_arith)
        requires
            n == k * m,
            1 <= k <= 255,
            m >= 1,
    ;
    let scaled = n as nat;
    let (p, v) = (mantissa(scaled, u as nat) as int, unit(scaled, u as nat) as int);
    crate::binary64::a_number_is_close(scaled, u as nat);
    crate::binary64::a_unit_is_small(scaled, u as nat);
    let nv = n * v;
    let pu = p * u;
    assert(-u <= 2 * pu - 2 * nv <= u);
    assert(nv >= u * h);
    assert(n <= 65536 * u);
    assert(65536 * v >= h) by (nonlinear_arith)
        requires
            nv == n * v,
            nv >= u * h,
            n <= 65536 * u,
            u > 0,
            v > 0,
            h >= 0,
    ;
    // Both errors together, over the common denominator.
    let pd = p * d;
    let e = pd - 255 * k * v;
    assert(pd * u == d * pu) by (nonlinear_arith)
        requires
            pd == p * d,
            pu == p * u,
    ;
    assert(d * nv == (k * v) * md) by (nonlinear_arith)
        requires
            nv == (k * m) * v,
            md == m * d,
    ;
    assert((255 * k * v) * u == (k * v) * (255 * u)) by (nonlinear_arith);
    assert(e * u == pd * u - (255 * k * v) * u) by (nonlinear_arith)
        requires
            e == pd - 255 * k * v,
    ;
    assert(d * (2 * pu - 2 * nv) == 2 * (d * pu) - 2 * (d * nv)) by (nonlinear_arith);
    assert((k * v) * (2 * md - 2 * (255 * u)) == 2 * ((k * v) * md) - 2 * ((k * v) * (255 * u)))
        by (nonlinear_arith);
    let kv = k * v;
    let (f, g) = (2 * pu - 2 * nv, 2 * md - 2 * (255 * u));
    assert(-(d * u) <= d * f <= d * u) by (nonlinear_arith)
        requires
            -u <= f <= u,
            d >= 0,
    ;
    assert(-(kv * d) <= kv * g <= kv * d) by (nonlinear_arith)
        requires
            -(d as int) <= g <= d,
            kv >= 0,
    {
        assert(kv >= 0);
    }
    assert(kv <= 255 * v && kv >= 0) by (nonlinear_arith)
        requires
            kv == k * v,
            0 <= k <= 255,
            v > 0,
    ;
    let dv = d * v;
    assert(kv * d <= 255 * dv) by (nonlinear_arith)
        requires
            kv <= 255 * v,
            dv == d * v,
            d >= 0,
    ;
    let du = d * u;
    assert(2048 * du <= dv * u) by (nonlinear_arith)
        requires
            du == d * u,
            dv == d * v,
            v >= 2048,
            d >= 0,
            u >= 0,
    ;
    assert(2048 * (255 * dv) <= dv * u) by (nonlinear_arith)
        requires
            u >= 2048 * 255,
            dv >= 0,
    {
        assert(dv >= 0);
    }
    let eu = e * u;
    assert(-(2 * (dv * u)) <= 2048 * (2 * eu) <= 2 * (dv * u));
    assert(-dv <= 2048 * e <= dv) by (nonlinear_arith)
        requires
            eu == e * u,
            -(2 * (dv * u)) <= 2048 * (2 * eu) <= 2 * (dv * u),
            u > 0,
    ;
    let shade = half_up(p as nat, v as nat) as int;
    let w = 2 * p + v;
    assert(2 * v * shade <= w < 2 * v * shade + 2 * v) by (nonlinear_arith)
        requires
            shade == w / (2 * v),
            v > 0,
    ;
    let sv = v * shade;
    assert(2 * sv <= w < 2 * sv + 2 * v) by (nonlinear_arith)
        requires
            2 * v * shade <= w < 2 * v * shade + 2 * v,
            sv == v * shade,
    ;
    let t = 2 * p - 2 * sv;
    assert(-v <= t <= v);
    assert(-dv <= d * t <= dv) by (nonlinear_arith)
        requires
            -v <= t <= v,
            dv == d * v,
            d >= 0,
    ;
    let gap = shade * d - 255 * k;
    assert(2 * (gap * v) == 2 * e - d * t) by (nonlinear_arith)
        requires
            gap == shade * d - 255 * k,
            e == pd - 255 * k * v,
            pd == p * d,
            t == 2 * p - 2 * sv,
            sv == v * shade,
    ;
    let gv = gap * v;
    assert(-(513 * dv) <= 1024 * gv <= 513 * dv);
    assert(-513 * span <= 1024 * gap <= 513 * span) by (nonlinear_arith)
        requires
            -(513 * dv) <= 1024 * gv <= 513 * dv,
            gv == gap * v,
            dv == span * v,
            v > 0,
    ;
}

proof fn stretch_keeps_the_order(v: int, w: int, lo: int, hi: int)
    requires
        0 <= lo < hi <= 255,
        0 <= v <= w <= 255,
    ensures
        stretch(v, lo, hi) <= stretch(w, lo, hi),
        v <= lo ==> stretch(v, lo, hi) == 0,
        v >= hi ==> stretch(v, lo, hi) == 255,
        lo <= v <= hi ==> -513 * (hi - lo) <= 1024 * (stretch(v, lo, hi) * (hi - lo) - 255 * (v
            - lo)) <= 513 * (hi - lo),
{
    let d = hi - lo;
    if v > lo {
        stretch_is_close(v - lo, d);
        stretch_is_close(w - lo, d);
        let f = |k: int|
            half_up(
                mantissa((k * mantissa(255, d as nat)) as nat, unit(255, d as nat)),
                unit((k * mantissa(255, d as nat)) as nat, unit(255, d as nat)),
            ) as int;
        let (a, b) = (f(v - lo), f(w - lo));
        assert(a <= b) by (nonlinear_arith)
            requires
                v < w || a == b,
                v <= w,
                1 <= d <= 255,
                1024 * (a * d - 255 * (v - lo)) <= 513 * d,
                -513 * d <= 1024 * (b * d - 255 * (w - lo)),
        ;
        if v >= hi {
            assert(a >= 255) by (nonlinear_arith)
                requires
                    v - lo >= d,
                    1 <= d,
                    -513 * d <= 1024 * (a * d - 255 * (v - lo)),
            ;
        }
        if v <= hi {
            assert(a <= 255) by (nonlinear_arith)
                requires
                    v - lo <= d,
                    1 <= d,
                    1024 * (a * d - 255 * (v - lo)) <= 513 * d,
            ;
        }
    } else {
        assert(stretch(v, lo, hi) == 0);
        assert(0 * d == 0);
    }
}

proof fn a_rank_is_a_shade(data: Seq<u8>, k: int, v: int)
    requires
        has_rank(data, k, v),
        0 <= k,
    ensures
        0 <= v <= 255,
{
    darker_bounds(data, v + 1);
    darker_bounds(data, v);
}

/// Stretching the contrast keeps the order of the shades, and where there are few pixels, or nothing
/// to cut off, and at least two shades, the darkest pixel comes out black and the brightest white.
/// In between the shades keep their proportions.
pub proof fn stretching_keeps_the_order(
    gray: &mut Gray,
    cutoff_percent: u32,
    i: int,
    j: int,
    darkest: int,
    brightest: int,
)
    requires
        call_ensures(autocontrast, (gray, cutoff_percent), ()),
        0 <= i < old(gray).data@.len(),
        0 <= j < old(gray).data@.len(),
        0 <= darkest < old(gray).data@.len(),
        0 <= brightest < old(gray).data@.len(),
        forall|k: int|
            0 <= k < old(gray).data@.len() ==> old(gray).data@[darkest] <= #[trigger] old(
                gray,
            ).data@[k] <= old(gray).data@[brightest],
    ensures
        final(gray).data@.len() == old(gray).data@.len(),
        old(gray).data@[i] <= old(gray).data@[j] ==> final(gray).data@[i] <= final(gray).data@[j],
        cutoff_percent * old(gray).data@.len() < 100 && old(gray).data@[darkest] < old(
            gray,
        ).data@[brightest] ==> {
            let low = old(gray).data@[darkest] as int;
            let high = old(gray).data@[brightest] as int;
            &&& final(gray).data@[darkest] == 0
            &&& final(gray).data@[brightest] == 255
            &&& -513 * (high - low) <= 1024 * (final(gray).data@[i] * (high - low) - 255 * (old(
                gray,
            ).data@[i] - low)) <= 513 * (high - low)
        },
        old(gray).data@[darkest] == old(gray).data@[brightest] ==> final(gray).data@ == old(
            gray,
        ).data@,
{
    let data = old(gray).data@;
    let out = final(gray).data@;
    let n = data.len() as int;
    let cut = cutoff_percent * data.len() as int / 100;
    if 2 * cut < n {
        let last = n - 1 - cut;
        let (lo, hi) = choose|lo: int, hi: int|
            #![trigger has_rank(data, cut, lo), has_rank(data, last, hi)]
            has_rank(data, cut, lo) && has_rank(data, last, hi) && out == if lo < hi {
                data.map_values(|v: u8| stretch(v as int, lo, hi))
            } else {
                data
            };
        a_rank_is_a_shade(data, cut, lo);
        a_rank_is_a_shade(data, last, hi);
        let (low, high) = (data[darkest] as int, data[brightest] as int);
        darker_pixels_are_counted(data, lo + 1);
        darker_pixels_are_counted(data, lo);
        darker_pixels_are_counted(data, hi + 1);
        darker_pixels_are_counted(data, hi);
        darker_pixels_are_counted(data, low);
        darker_pixels_are_counted(data, low + 1);
        darker_pixels_are_counted(data, high);
        darker_pixels_are_counted(data, high + 1);
        if cut == 0 {
            assert(data[darkest] < low + 1 && data[brightest] >= high);
            assert(has_rank(data, 0, low));
            assert(has_rank(data, n - 1, high)) by {
                darker_bounds(data, high + 1);
            }
            rank_is_unique(data, 0, low, lo);
            rank_is_unique(data, n - 1, high, hi);
        }
        if lo < hi {
            let (a, b) = (data[i] as int, data[j] as int);
            stretch_keeps_the_order(a, a, lo, hi);
            if a <= b {
                stretch_keeps_the_order(a, b, lo, hi);
            }
            stretch_keeps_the_order(low, low, lo, hi);
            stretch_keeps_the_order(high, high, lo, hi);
        }
        if low == high {
            let p = choose|p: int| 0 <= p < data.len() && #[trigger] data[p] < lo + 1;
            let q = choose|q: int| 0 <= q < data.len() && #[trigger] data[q] >= hi;
            assert(data[p] == low && data[q] == low);
        }
    }
}

/// A stretched contrast keeps the order of the shades.
pub proof fn contrast_keeps_the_order(data: Seq<u8>, percent: int, out: Seq<u8>, i: int, j: int)
    requires
        is_autocontrast(data, percent, out),
        0 <= percent,
        0 <= i < data.len(),
        0 <= j < data.len(),
        data[i] <= data[j],
    ensures
        out.len() == data.len(),
        out[i] <= out[j],
{
    let n = data.len() as int;
    let cut = percent * n / 100;
    if 2 * cut < n {
        assert(cut >= 0) by (nonlinear_arith)
            requires
                cut == percent * n / 100,
                percent >= 0,
                n >= 0,
        ;
        let last = n - 1 - cut;
        let (lo, hi) = choose|lo: int, hi: int|
            #![trigger has_rank(data, cut, lo), has_rank(data, last, hi)]
            has_rank(data, cut, lo) && has_rank(data, last, hi) && out == if lo < hi {
                data.map_values(|v: u8| stretch(v as int, lo, hi))
            } else {
                data
            };
        a_rank_is_a_shade(data, cut, lo);
        a_rank_is_a_shade(data, last, hi);
        if lo < hi {
            stretch_keeps_the_order(data[i] as int, data[j] as int, lo, hi);
        }
    }
}

proof fn leading_of_one_more(counts: Seq<u32>, n: int)
    requires
        0 <= n < counts.len(),
    ensures
        leading(counts, n + 1) == leading(counts, n) + counts[n],
{
}

/// The quantile is the bin at which more than so many have been counted, from the low end or from the
/// high one: fewer than that lie before it. There is none only if there are not so many at all.
pub proof fn a_quantile_has_its_rank(
    counts: &Vec<u32>,
    cut: usize,
    low: Option<usize>,
    high: Option<usize>,
)
    requires
        call_ensures(quantile_from_histogram, (counts, cut, false), low),
        call_ensures(quantile_from_histogram, (counts, cut, true), high),
    ensures
        low is Some <==> high is Some,
        low matches Some(i) ==> i < counts@.len() && counts@[i as int] > 0,
        high matches Some(i) ==> i < counts@.len() && counts@[i as int] > 0,
        cut == 0 && low is Some ==> forall|k: int|
            0 <= k < low->0 || high->0 < k < counts@.len() ==> #[trigger] counts@[k] == 0,
        cut == 0 && low is None ==> forall|k: int| 0 <= k < counts@.len() ==> #[trigger] counts@[k]
            == 0,
{
    let n = counts@.len() as int;
    if let Some(i) = low {
        leading_of_one_more(counts@, i as int);
        leading_monotone(counts@, i + 1, n);
    }
    if let Some(i) = high {
        leading_of_one_more(counts@, i as int);
        leading_monotone(counts@, 0, i as int);
    }
    if cut == 0 {
        assert forall|k: int|
            0 <= k < n && (low is None || k < low->0 || high->0 < k) implies #[trigger] counts@[k]
            == 0 by {
            leading_of_one_more(counts@, k);
            leading_monotone(counts@, k + 1, n);
            leading_monotone(counts@, 0, k);
            if low is Some {
                if k < low->0 {
                    leading_monotone(counts@, k + 1, low->0 as int);
                } else {
                    leading_monotone(counts@, high->0 + 1, k);
                }
            }
        }
    }
}

} // verus!
