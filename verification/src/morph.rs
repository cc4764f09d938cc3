//! Grey-scale morphology with an elliptical structuring element: the closing that
//! estimates the background behind text.

use std::collections::VecDeque;
use vstd::prelude::*;

use crate::gray::{Gray, pixel_bounds, pixel_of_index, row_bounds};
use crate::tone::negative;

verus! {

/// Whether `a` is at least as extreme as `b`: not below it when a maximum is sought,
/// not above it when a minimum is.
pub open spec fn beats(maximum: bool, a: u8, b: u8) -> bool {
    if maximum {
        a >= b
    } else {
        a <= b
    }
}

/// `value` is the extreme value of `src` within `half` positions of `centre`.
pub open spec fn window_extreme(
    src: Seq<u8>,
    half: int,
    maximum: bool,
    centre: int,
    value: u8,
) -> bool {
    &&& forall|j: int|
        0 <= j < src.len() && centre - half <= j <= centre + half ==> beats(
            maximum,
            value,
            #[trigger] src[j],
        )
    &&& exists|j: int|
        0 <= j < src.len() && centre - half <= j <= centre + half && value == #[trigger] src[j]
}

/// Some candidate at or after position `j` is at least as extreme as it.
spec fn covered(src: Seq<u8>, deque: Seq<usize>, maximum: bool, j: int) -> bool {
    exists|i: int|
        0 <= i < deque.len() && j <= #[trigger] deque[i] && beats(
            maximum,
            src[deque[i] as int],
            src[j],
        )
}

/// The candidates come in increasing position and from the most extreme value to the least.
spec fn ranked(src: Seq<u8>, deque: Seq<usize>, maximum: bool) -> bool {
    forall|a: int, b: int|
        0 <= a < b < deque.len() ==> (#[trigger] deque[a]) < (#[trigger] deque[b]) && beats(
            maximum,
            src[deque[a] as int],
            src[deque[b] as int],
        )
}

/// The positions that a sliding window has yet to discard: ranked, and covering every
/// position from `low` up to `end`.
spec fn candidates(
    src: Seq<u8>,
    deque: Seq<usize>,
    maximum: bool,
    low: int,
    end: int,
) -> bool {
    &&& forall|i: int| 0 <= i < deque.len() ==> low <= #[trigger] deque[i] < end
    &&& ranked(src, deque, maximum)
    &&& forall|j: int| low <= j < end ==> #[trigger] covered(src, deque, maximum, j)
}

/// The front of the candidates is the extreme of the positions from `low` up to `end`.
proof fn front_is_extreme(src: Seq<u8>, deque: Seq<usize>, maximum: bool, low: int, end: int)
    requires
        candidates(src, deque, maximum, low, end),
        0 <= low < end <= src.len(),
    ensures
        deque.len() > 0,
        forall|j: int|
            low <= j < end ==> beats(maximum, src[deque[0] as int], #[trigger] src[j]),
{
    assert(covered(src, deque, maximum, low));
    assert forall|j: int| low <= j < end implies beats(
        maximum,
        src[deque[0] as int],
        #[trigger] src[j],
    ) by {
        assert(covered(src, deque, maximum, j));
        let i = choose|i: int|
            0 <= i < deque.len() && j <= #[trigger] deque[i] && beats(
                maximum,
                src[deque[i] as int],
                src[j],
            );
        if i > 0 {
            assert(beats(maximum, src[deque[0] as int], src[deque[i] as int]));
        }
    }
}

/// Dropping the last candidate loses only positions that a more extreme value covers.
proof fn drop_back(src: Seq<u8>, deque: Seq<usize>, maximum: bool, x: int, j: int)
    requires
        deque.len() > 0,
        covered(src, deque, maximum, j),
        !beats(maximum, src[deque.last() as int], src[x]),
        !beats(maximum, src[x], src[j]),
    ensures
        covered(src, deque.drop_last(), maximum, j),
{
    let i = choose|i: int|
        0 <= i < deque.len() && j <= #[trigger] deque[i] && beats(
            maximum,
            src[deque[i] as int],
            src[j],
        );
    assert(i < deque.len() - 1);
    assert(deque.drop_last()[i] == deque[i]);
}

/// Dropping a front candidate before `lower` loses nothing from `lower` on.
proof fn drop_front(src: Seq<u8>, deque: Seq<usize>, maximum: bool, lower: int, j: int)
    requires
        deque.len() > 0,
        covered(src, deque, maximum, j),
        deque[0] < lower <= j,
    ensures
        covered(src, deque.drop_first(), maximum, j),
{
    let i = choose|i: int|
        0 <= i < deque.len() && j <= #[trigger] deque[i] && beats(
            maximum,
            src[deque[i] as int],
            src[j],
        );
    assert(deque.drop_first()[i - 1] == deque[i]);
}

/// The candidates with `x` entered behind them.
proof fn enter(src: Seq<u8>, kept: Seq<usize>, maximum: bool, low: int, x: usize)
    requires
        forall|i: int| 0 <= i < kept.len() ==> low <= #[trigger] kept[i] < x,
        ranked(src, kept, maximum),
        kept.len() > 0 ==> beats(maximum, src[kept.last() as int], src[x as int]),
        forall|j: int|
            low <= j < x ==> beats(maximum, src[x as int], src[j]) || #[trigger] covered(
                src,
                kept,
                maximum,
                j,
            ),
        low <= x,
    ensures
        candidates(src, kept.push(x), maximum, low, x + 1),
{
    let grown = kept.push(x);
    assert forall|a: int, b: int| 0 <= a < b < grown.len() implies (#[trigger] grown[a]) < (
    #[trigger] grown[b]) && beats(maximum, src[grown[a] as int], src[grown[b] as int]) by {
        if b == kept.len() && a < kept.len() - 1 {
            assert(kept[a] < kept[kept.len() - 1]);
        }
    }
    assert forall|j: int| low <= j < x + 1 implies #[trigger] covered(src, grown, maximum, j) by {
        if j < x && !beats(maximum, src[x as int], src[j]) {
            assert(covered(src, kept, maximum, j));
            let i = choose|i: int|
                0 <= i < kept.len() && j <= #[trigger] kept[i] && beats(
                    maximum,
                    src[kept[i] as int],
                    src[j],
                );
            assert(grown[i] == kept[i]);
        } else {
            assert(grown[kept.len() as int] == x);
        }
    }
}

/// Drops from the back the candidates that the value at `x` outdoes, then enters `x`.
fn take_in(src: &[u8], deque: &mut VecDeque<usize>, maximum: bool, x: usize, Ghost(low): Ghost<int>)
    requires
        candidates(src@, old(deque)@, maximum, low, x as int),
        0 <= low <= x < src@.len(),
    ensures
        candidates(src@, final(deque)@, maximum, low, x + 1),
{
    while deque.len() > 0
        invariant_except_break
            forall|i: int| 0 <= i < deque@.len() ==> low <= #[trigger] deque@[i] < x,
            ranked(src@, deque@, maximum),
            forall|j: int|
                low <= j < x ==> beats(maximum, src@[x as int], src@[j]) || #[trigger] covered(
                    src@,
                    deque@,
                    maximum,
                    j,
                ),
            0 <= low <= x < src@.len(),
        ensures
            forall|i: int| 0 <= i < deque@.len() ==> low <= #[trigger] deque@[i] < x,
            ranked(src@, deque@, maximum),
            deque@.len() > 0 ==> beats(maximum, src@[deque@.last() as int], src@[x as int]),
            forall|j: int|
                low <= j < x ==> beats(maximum, src@[x as int], src@[j]) || #[trigger] covered(
                    src@,
                    deque@,
                    maximum,
                    j,
                ),
        decreases deque.len(),
    {
        let back: usize = deque[deque.len() - 1];
        let keep: bool = if maximum {
            src[back] >= src[x]
        } else {
            src[back] <= src[x]
        };
        if keep {
            break;
        }
        let ghost before = deque@;
        let _ = deque.pop_back();
        proof {
            assert(deque@ =~= before.drop_last());
            assert forall|j: int| low <= j < x implies beats(maximum, src@[x as int], src@[j])
                || #[trigger] covered(src@, deque@, maximum, j) by {
                if !beats(maximum, src@[x as int], src@[j]) {
                    assert(covered(src@, before, maximum, j));
                    drop_back(src@, before, maximum, x as int, j);
                }
            }
        }
    }
    proof {
        enter(src@, deque@, maximum, low, x);
    }
    let ghost kept = deque@;
    deque.push_back(x);
    assert(deque@ =~= kept.push(x));
}

/// Drops the candidates before `lower` from the front.
fn discard(
    src: &[u8],
    deque: &mut VecDeque<usize>,
    maximum: bool,
    lower: usize,
    Ghost(low): Ghost<int>,
    Ghost(end): Ghost<int>,
)
    requires
        candidates(src@, old(deque)@, maximum, low, end),
        0 <= low <= lower < end <= src@.len(),
    ensures
        candidates(src@, final(deque)@, maximum, lower as int, end),
{
    while deque.len() > 0 && deque[0] < lower
        invariant
            0 <= low <= lower < end <= src@.len(),
            forall|i: int| 0 <= i < deque@.len() ==> #[trigger] deque@[i] < end,
            ranked(src@, deque@, maximum),
            forall|j: int| lower <= j < end ==> #[trigger] covered(src@, deque@, maximum, j),
        decreases deque.len(),
    {
        let ghost before = deque@;
        let _ = deque.pop_front();
        proof {
            assert(deque@ =~= before.drop_first());
            assert forall|j: int| lower <= j < end implies #[trigger] covered(
                src@,
                deque@,
                maximum,
                j,
            ) by {
                assert(covered(src@, before, maximum, j));
                drop_front(src@, before, maximum, lower as int, j);
            }
        }
    }
    proof {
        assert forall|i: int| 0 <= i < deque@.len() implies lower <= #[trigger] deque@[i] by {
            if i > 0 {
                assert(deque@[0] < deque@[i]);
            }
        }
    }
}

/// The extreme of every window of `half` positions on either side, in linear time: the
/// window keeps only the positions that can still become its extreme.
pub fn window_extremes(src: &[u8], half: usize, maximum: bool) -> (out: Vec<u8>)
    ensures
        out@.len() == src@.len(),
        forall|c: int|
            0 <= c < src@.len() ==> window_extreme(
                src@,
                half as int,
                maximum,
                c,
                #[trigger] out@[c],
            ),
{
    let mut out: Vec<u8> = Vec::with_capacity(src.len());
    let mut deque: VecDeque<usize> = VecDeque::new();
    let n: usize = src.len();
    let ghost mut low: int = 0;
    let mut x: usize = 0;
    while x < n
        invariant
            n == src@.len(),
            x <= n,
            candidates(src@, deque@, maximum, low, x as int),
            0 <= low <= x,
            x <= half ==> low == 0,
            x > half ==> low == if x - 1 - 2 * half < 0 {
                0
            } else {
                x - 1 - 2 * half
            },
            out@.len() == if x <= half {
                0
            } else {
                x - half
            },
            forall|c: int|
                0 <= c < out@.len() ==> window_extreme(
                    src@,
                    half as int,
                    maximum,
                    c,
                    #[trigger] out@[c],
                ),
        decreases n - x,
    {
        take_in(src, &mut deque, maximum, x, Ghost(low));
        if x >= half {
            let centre: usize = x - half;
            let lower: usize = if centre >= half {
                centre - half
            } else {
                0
            };
            discard(src, &mut deque, maximum, lower, Ghost(low), Ghost(x + 1));
            proof {
                low = lower as int;
                front_is_extreme(src@, deque@, maximum, low, x + 1);
            }
            let value: u8 = src[deque[0]];
            proof {
                let front = deque@[0] as int;
                assert(value == src@[front]);
                assert(window_extreme(src@, half as int, maximum, centre as int, value));
            }
            out.push(value);
        }
        x = x + 1;
    }
    let mut centre: usize = if n >= half {
        n - half
    } else {
        0
    };
    while centre < n
        invariant
            n == src@.len(),
            centre <= n,
            n - half <= centre,
            candidates(src@, deque@, maximum, low, n as int),
            0 <= low,
            low <= if centre >= half {
                centre - half
            } else {
                0
            },
            out@.len() == centre,
            forall|c: int|
                0 <= c < out@.len() ==> window_extreme(
                    src@,
                    half as int,
                    maximum,
                    c,
                    #[trigger] out@[c],
                ),
        decreases n - centre,
    {
        let lower: usize = if centre >= half {
            centre - half
        } else {
            0
        };
        discard(src, &mut deque, maximum, lower, Ghost(low), Ghost(n as int));
        proof {
            low = lower as int;
            front_is_extreme(src@, deque@, maximum, low, n as int);
        }
        let value: u8 = src[deque[0]];
        proof {
            let front = deque@[0] as int;
            assert(value == src@[front]);
            assert(window_extreme(src@, half as int, maximum, centre as int, value));
        }
        out.push(value);
        centre = centre + 1;
    }
    out
}

/// `d` is the square root of `n`, rounded to the nearest integer.
pub open spec fn is_rounded_root(n: int, d: int) -> bool {
    &&& 0 <= d
    &&& n <= d * d + d
    &&& d > 0 ==> d * d - d < n
}

/// Whether the offset `(dx, dy)` belongs to the elliptical element of `size` rows: the row
/// exists, and the centre of the pixel is nearer than half a pixel to the circle or inside it.
pub open spec fn covers(size: int, dx: int, dy: int) -> bool {
    let r = size / 2;
    let a = if dx < 0 {
        -dx
    } else {
        dx
    };
    &&& -r <= dy < size - r
    &&& a == 0 || a * a - a < r * r - dy * dy
}

/// One row of a structuring element: its vertical offset and its half-width.
pub open spec fn is_element_row(size: int, index: int, row: (isize, usize)) -> bool {
    let r = size / 2;
    &&& row.0 == index - r
    &&& is_rounded_root(r * r - row.0 * row.0, row.1 as int)
}

/// A row of the element covers exactly the offsets up to its half-width.
proof fn row_covers(size: int, index: int, row: (isize, usize), dx: int)
    requires
        0 <= index < size,
        is_element_row(size, index, row),
    ensures
        covers(size, dx, row.0 as int) <==> -row.1 <= dx <= row.1,
{
    let d = row.1 as int;
    let a = if dx < 0 {
        -dx
    } else {
        dx
    };
    if 1 <= a <= d {
        assert(a * a - a <= d * d - d) by (nonlinear_arith)
            requires
                1 <= a <= d,
        ;
    }
    if a > d {
        assert(a * a - a >= d * d + d) by (nonlinear_arith)
            requires
                a >= d + 1,
                d >= 0,
        ;
    }
}

/// Vertical offset and half-width of each row of an elliptical structuring element: a row at
/// distance `dy` from the centre reaches `sqrt(r^2 - dy^2)` columns to either side, rounded.
pub fn ellipse_offsets(size: usize) -> (offsets: Vec<(isize, usize)>)
    requires
        (size / 2) * (size / 2) + size <= isize::MAX,
    ensures
        offsets@.len() == size,
        forall|i: int|
            0 <= i < size ==> is_element_row(size as int, i, #[trigger] offsets@[i]),
{
    let r: usize = size / 2;
    let mut offsets: Vec<(isize, usize)> = Vec::new();
    let mut i: usize = 0;
    while i < size
        invariant
            i <= size,
            r == size / 2,
            r * r + size <= isize::MAX,
            offsets@.len() == i,
            forall|k: int|
                0 <= k < i ==> is_element_row(size as int, k, #[trigger] offsets@[k]),
        decreases size - i,
    {
        let dy: isize = i as isize - r as isize;
        let away: usize = if i < r {
            r - i
        } else {
            i - r
        };
        proof {
            assert(away * away == dy * dy) by (nonlinear_arith)
                requires
                    away == dy || away == -dy,
            ;
            assert(0 <= away * away <= r * r) by (nonlinear_arith)
                requires
                    0 <= away <= r,
            ;
        }
        let n: usize = r * r - away * away;
        let mut d: usize = 0;
        while d * d + d < n
            invariant
                n <= r * r,
                r * r + size <= isize::MAX,
                r == size / 2,
                d <= r,
                d > 0 ==> d * d - d < n,
                d * d + d <= r * r + r,
            decreases r - d,
        {
            proof {
                assert((d + 1) * (d + 1) - (d + 1) == d * d + d) by (nonlinear_arith);
                assert(d < r) by (nonlinear_arith)
                    requires
                        d * d + d < r * r,
                        0 <= d,
                        0 <= r,
                ;
                assert((d + 1) * (d + 1) + (d + 1) <= r * r + r) by (nonlinear_arith)
                    requires
                        0 <= d,
                        d + 1 <= r,
                ;
            }
            d = d + 1;
        }
        offsets.push((dy, d));
        i = i + 1;
    }
    offsets
}

/// Row `y` of an image.
pub open spec fn row_of(gray: Gray, y: int) -> Seq<u8> {
    gray.data@.subrange(y * gray.width, (y + 1) * gray.width)
}

/// The extreme of the pixels within `half` columns, for every pixel of the image.
pub fn row_extremes(gray: &Gray, half: usize, maximum: bool) -> (out: Gray)
    requires
        gray.wf(),
    ensures
        out.wf(),
        out.width == gray.width,
        out.height == gray.height,
        forall|x: int, y: int| #[trigger]
            gray.inside(x, y) ==> window_extreme(
                row_of(*gray, y),
                half as int,
                maximum,
                x,
                out.at(x, y),
            ),
{
    let mut data: Vec<u8> = Vec::with_capacity(gray.data.len());
    let mut y: usize = 0;
    let total: usize = gray.data.len();
    while y < gray.height
        invariant
            gray.wf(),
            y <= gray.height,
            data@.len() == y * gray.width,
            forall|u: int, v: int|
                0 <= u < gray.width && 0 <= v < y ==> window_extreme(
                    row_of(*gray, v),
                    half as int,
                    maximum,
                    u,
                    #[trigger] data@[v * gray.width + u],
                ),
        decreases gray.height - y,
    {
        proof {
            row_bounds(y as int, gray.width as int, gray.height as int);
        }
        let src = gray.row(y);
        let mut row = window_extremes(src, half, maximum);
        let ghost before = data@;
        let ghost extremes = row@;
        data.append(&mut row);
        proof {
            assert(data@ =~= before + extremes);
            let w = gray.width as int;
            assert forall|u: int, v: int| 0 <= u < w && 0 <= v < y + 1 implies window_extreme(
                row_of(*gray, v),
                half as int,
                maximum,
                u,
                #[trigger] data@[v * w + u],
            ) by {
                if v < y {
                    pixel_bounds(u, v, w, y as int);
                    assert(y * w == w * y) by (nonlinear_arith);
                    assert(data@[v * w + u] == before[v * w + u]);
                } else {
                    assert(data@[v * w + u] == extremes[u]);
                }
            }
        }
        y = y + 1;
    }
    proof {
        assert(gray.height * gray.width == gray.width * gray.height) by (nonlinear_arith);
    }
    let out = Gray { width: gray.width, height: gray.height, data };
    proof {
        assert forall|x: int, y: int| #[trigger] gray.inside(x, y) implies window_extreme(
            row_of(*gray, y),
            half as int,
            maximum,
            x,
            out.at(x, y),
        ) by {
            assert(out.at(x, y) == data@[y * gray.width + x]);
        }
    }
    out
}

/// The value that no pixel is less extreme than: black for a maximum, white for a minimum.
pub open spec fn neutral(maximum: bool) -> u8 {
    if maximum {
        0
    } else {
        255
    }
}

/// `value` is the extreme of the values that `rows` hold at column `x` and at the row that each
/// offset leads to from row `y`, leaving out the offsets that lead outside the frame.
spec fn column_extreme(
    rows: Seq<Gray>,
    offsets: Seq<(isize, usize)>,
    maximum: bool,
    x: int,
    y: int,
    value: u8,
) -> bool {
    &&& forall|k: int|
        0 <= k < offsets.len() && 0 <= y + (#[trigger] offsets[k]).0 < rows[0].height ==> beats(
            maximum,
            value,
            rows[k].at(x, y + offsets[k].0),
        )
    &&& value == neutral(maximum) || exists|k: int|
        0 <= k < offsets.len() && 0 <= y + (#[trigger] offsets[k]).0 < rows[0].height && value
            == rows[k].at(x, y + offsets[k].0)
}

/// Combines the rows of the element: for every pixel the extreme over the rows that the element
/// reaches there. Rows outside the frame do not take part.
fn vertical_extremes(rows: &Vec<Gray>, offsets: &Vec<(isize, usize)>, maximum: bool) -> (out: Gray)
    requires
        rows@.len() == offsets@.len(),
        rows@.len() > 0,
        forall|k: int|
            0 <= k < rows@.len() ==> (#[trigger] rows@[k]).wf() && rows@[k].width
                == rows@[0].width && rows@[k].height == rows@[0].height,
        forall|k: int|
            0 <= k < offsets@.len() ==> -isize::MAX <= rows@[0].height + (#[trigger] offsets@[k]).0
                <= isize::MAX,
        rows@[0].height <= isize::MAX,
    ensures
        out.wf(),
        out.width == rows@[0].width,
        out.height == rows@[0].height,
        forall|x: int, y: int| #[trigger]
            out.inside(x, y) ==> column_extreme(
                rows@,
                offsets@,
                maximum,
                x,
                y,
                out.at(x, y),
            ),
{
    let width: usize = rows[0].width;
    let height: usize = rows[0].height;
    let total: usize = rows[0].data.len();
    let mut data: Vec<u8> = Vec::with_capacity(total);
    let mut y: usize = 0;
    while y < height
        invariant
            y <= height,
            rows@.len() == offsets@.len(),
            rows@.len() > 0,
            width == rows@[0].width,
            height == rows@[0].height,
            height <= isize::MAX,
            total == width * height,
            forall|k: int|
                0 <= k < rows@.len() ==> (#[trigger] rows@[k]).wf() && rows@[k].width == width
                    && rows@[k].height == height,
            forall|k: int|
                0 <= k < offsets@.len() ==> -isize::MAX <= height + (#[trigger] offsets@[k]).0
                    <= isize::MAX,
            data@.len() == y * width,
            forall|u: int, v: int|
                0 <= u < width && 0 <= v < y ==> column_extreme(
                    rows@,
                    offsets@,
                    maximum,
                    u,
                    v,
                    #[trigger] data@[v * width + u],
                ),
        decreases height - y,
    {
        proof {
            row_bounds(y as int, width as int, height as int);
        }
        let ghost above = data@;
        let mut x: usize = 0;
        while x < width
            invariant
                x <= width,
                y < height,
                rows@.len() == offsets@.len(),
                rows@.len() > 0,
                width == rows@[0].width,
                height == rows@[0].height,
                height <= isize::MAX,
                total == width * height,
                forall|k: int|
                    0 <= k < rows@.len() ==> (#[trigger] rows@[k]).wf() && rows@[k].width == width
                        && rows@[k].height == height,
                forall|k: int|
                    0 <= k < offsets@.len() ==> -isize::MAX <= height + (#[trigger] offsets@[k]).0
                        <= isize::MAX,
                above.len() == y * width,
                data@.len() == above.len() + x,
                forall|i: int| 0 <= i < above.len() ==> data@[i] == above[i],
                forall|u: int|
                    0 <= u < x ==> column_extreme(
                        rows@,
                        offsets@,
                        maximum,
                        u,
                        y as int,
                        #[trigger] data@[above.len() + u],
                    ),
            decreases width - x,
        {
            let mut best: u8 = if maximum {
                0
            } else {
                255
            };
            let mut index: usize = 0;
            while index < offsets.len()
                invariant
                    index <= offsets@.len(),
                    x < width,
                    y < height,
                    rows@.len() == offsets@.len(),
                    width == rows@[0].width,
                    height == rows@[0].height,
                    height <= isize::MAX,
                    total == width * height,
                    total <= usize::MAX,
                    forall|k: int|
                        0 <= k < rows@.len() ==> (#[trigger] rows@[k]).wf() && rows@[k].width
                            == width && rows@[k].height == height,
                    forall|k: int|
                        0 <= k < offsets@.len() ==> -isize::MAX <= height + (
                        #[trigger] offsets@[k]).0 <= isize::MAX,
                    forall|k: int|
                        0 <= k < index && 0 <= y + (#[trigger] offsets@[k]).0 < height ==> beats(
                            maximum,
                            best,
                            rows@[k].at(x as int, y + offsets@[k].0),
                        ),
                    best == neutral(maximum) || exists|k: int|
                        0 <= k < index && 0 <= y + (#[trigger] offsets@[k]).0 < height && best
                            == rows@[k].at(x as int, y + offsets@[k].0),
                decreases offsets.len() - index,
            {
                let dy: isize = offsets[index].0;
                let sy: isize = y as isize + dy;
                if sy >= 0 && sy < height as isize {
                    proof {
                        pixel_bounds(x as int, sy as int, width as int, height as int);
                        row_bounds(sy as int, width as int, height as int);
                        assert(rows@[index as int].wf());
                    }
                    let value: u8 = rows[index].data[sy as usize * width + x];
                    assert(value == rows@[index as int].at(x as int, y + offsets@[index as int].0));
                    if maximum {
                        if value > best {
                            best = value;
                        }
                    } else if value < best {
                        best = value;
                    }
                }
                index = index + 1;
            }
            assert(column_extreme(rows@, offsets@, maximum, x as int, y as int, best));
            data.push(best);
            x = x + 1;
        }
        proof {
            let w = width as int;
            assert forall|u: int, v: int| 0 <= u < w && 0 <= v < y + 1 implies column_extreme(
                rows@,
                offsets@,
                maximum,
                u,
                v,
                #[trigger] data@[v * w + u],
            ) by {
                if v < y {
                    pixel_bounds(u, v, w, y as int);
                    assert(y * w == w * y) by (nonlinear_arith);
                    assert(data@[v * w + u] == above[v * w + u]);
                } else {
                    assert(v * w + u == above.len() + u);
                }
            }
        }
        y = y + 1;
    }
    proof {
        assert(height * width == width * height) by (nonlinear_arith);
    }
    let out = Gray { width, height, data };
    proof {
        assert forall|x: int, y: int| #[trigger] out.inside(x, y) implies column_extreme(
            rows@,
            offsets@,
            maximum,
            x,
            y,
            out.at(x, y),
        ) by {
            assert(out.at(x, y) == data@[y * width + x]);
        }
    }
    out
}

/// Whether the element of `size` rows, centred on `(x, y)`, reaches the pixel `(sx, sy)`.
pub open spec fn reaches(gray: Gray, size: int, x: int, y: int, sx: int, sy: int) -> bool {
    gray.inside(sx, sy) && covers(size, sx - x, sy - y)
}

/// `value` is the extreme of the pixels that the element reaches from `(x, y)`.
pub open spec fn extreme_at(
    gray: Gray,
    size: int,
    maximum: bool,
    x: int,
    y: int,
    value: u8,
) -> bool {
    &&& forall|sx: int, sy: int| #[trigger]
        reaches(gray, size, x, y, sx, sy) ==> beats(maximum, value, gray.at(sx, sy))
    &&& exists|sx: int, sy: int| #[trigger]
        reaches(gray, size, x, y, sx, sy) && value == gray.at(sx, sy)
}

/// `out` is the dilation (for a maximum) or erosion (for a minimum) of `gray`.
pub open spec fn morphed(gray: Gray, size: int, maximum: bool, out: Gray) -> bool {
    &&& out.wf()
    &&& out.width == gray.width
    &&& out.height == gray.height
    &&& forall|x: int, y: int|
        gray.inside(x, y) ==> extreme_at(gray, size, maximum, x, y, #[trigger] out.at(x, y))
}

/// The extremes of the rows, combined, are the extremes over the whole element.
proof fn combined(
    gray: Gray,
    size: int,
    maximum: bool,
    rows: Seq<Gray>,
    offsets: Seq<(isize, usize)>,
    x: int,
    y: int,
    value: u8,
)
    requires
        gray.wf(),
        size > 0,
        gray.inside(x, y),
        offsets.len() == size,
        rows.len() == size,
        forall|i: int| 0 <= i < size ==> is_element_row(size, i, #[trigger] offsets[i]),
        forall|i: int|
            #![trigger rows[i]]
            0 <= i < size ==> rows[i].height == gray.height && rows[i].width == gray.width
                && forall|u: int, v: int| #[trigger]
                gray.inside(u, v) ==> window_extreme(
                    row_of(gray, v),
                    offsets[i].1 as int,
                    maximum,
                    u,
                    rows[i].at(u, v),
                ),
        column_extreme(rows, offsets, maximum, x, y, value),
    ensures
        extreme_at(gray, size, maximum, x, y, value),
{
    let r = size / 2;
    let w = gray.width as int;
    assert forall|sx: int, sy: int| #[trigger] reaches(gray, size, x, y, sx, sy) implies beats(
        maximum,
        value,
        gray.at(sx, sy),
    ) by {
        let k = sy - y + r;
        assert(is_element_row(size, k, offsets[k]));
        row_covers(size, k, offsets[k], sx - x);
        assert(gray.inside(x, sy));
        assert(rows[k].height == gray.height);
        assert(window_extreme(
            row_of(gray, sy),
            offsets[k].1 as int,
            maximum,
            x,
            rows[k].at(x, sy),
        ));
        row_bounds(sy, w, gray.height as int);
        assert(row_of(gray, sy)[sx] == gray.at(sx, sy));
        assert(rows[0].height == gray.height);
        assert(y + offsets[k].0 == sy);
    }
    // The row through the centre is always inside the frame.
    let centre = rows[r].at(x, y);
    assert(is_element_row(size, r, offsets[r]));
    assert(rows[0].height == gray.height);
    assert(beats(maximum, value, rows[r].at(x, y + offsets[r].0)));
    let k = if value == neutral(maximum) {
        r
    } else {
        choose|k: int|
            0 <= k < offsets.len() && 0 <= y + (#[trigger] offsets[k]).0 < rows[0].height && value
                == rows[k].at(x, y + offsets[k].0)
    };
    let sy = y + offsets[k].0;
    assert(is_element_row(size, k, offsets[k]));
    assert(value == rows[k].at(x, sy));
    assert(rows[k].height == gray.height);
    assert(gray.inside(x, sy));
    let row = row_of(gray, sy);
    let half = offsets[k].1 as int;
    assert(window_extreme(row, half, maximum, x, rows[k].at(x, sy)));
    let sx = choose|j: int|
        0 <= j < row.len() && x - half <= j <= x + half && value == #[trigger] row[j];
    row_bounds(sy, w, gray.height as int);
    assert(row.len() == w);
    row_covers(size, k, offsets[k], sx - x);
    assert(row[sx] == gray.at(sx, sy));
    assert(reaches(gray, size, x, y, sx, sy));
}

/// Dilation for a maximum, erosion for a minimum.
pub fn morph(gray: &Gray, size: usize, maximum: bool) -> (out: Gray)
    requires
        gray.wf(),
        size > 0,
        (size / 2) * (size / 2) + size + gray.height <= isize::MAX,
    ensures
        morphed(*gray, size as int, maximum, out),
{
    let offsets = ellipse_offsets(size);
    let mut rows: Vec<Gray> = Vec::new();
    let mut i: usize = 0;
    while i < size
        invariant
            i <= size,
            gray.wf(),
            offsets@.len() == size,
            rows@.len() == i,
            forall|k: int|
                #![trigger rows@[k]]
                0 <= k < i ==> rows@[k].wf() && rows@[k].height == gray.height && rows@[k].width
                    == gray.width && forall|u: int, v: int| #[trigger]
                    gray.inside(u, v) ==> window_extreme(
                        row_of(*gray, v),
                        offsets@[k].1 as int,
                        maximum,
                        u,
                        rows@[k].at(u, v),
                    ),
        decreases size - i,
    {
        // Rows of the element with the same half-width need the pass over the image once.
        let dx: usize = offsets[i].1;
        let mut known: usize = 0;
        while known < i && offsets[known].1 != dx
            invariant
                known <= i,
                i < size,
                offsets@.len() == size,
            decreases i - known,
        {
            known = known + 1;
        }
        let row = if known < i {
            rows[known].copy()
        } else {
            row_extremes(gray, dx, maximum)
        };
        proof {
            if known < i {
                assert(rows@[known as int].wf());
                assert forall|u: int, v: int| #[trigger] gray.inside(u, v) implies window_extreme(
                    row_of(*gray, v),
                    dx as int,
                    maximum,
                    u,
                    row.at(u, v),
                ) by {
                    assert(row.at(u, v) == rows@[known as int].at(u, v));
                }
            }
        }
        rows.push(row);
        i = i + 1;
    }
    proof {
        assert(rows@[0].height == gray.height);
        assert forall|k: int| 0 <= k < offsets@.len() implies -isize::MAX <= rows@[0].height + (
        #[trigger] offsets@[k]).0 <= isize::MAX by {
            assert(is_element_row(size as int, k, offsets@[k]));
            assert(0 <= (size / 2) * (size / 2)) by (nonlinear_arith)
                requires
                    size >= 0,
            ;
        }
    }
    let out = vertical_extremes(&rows, &offsets, maximum);
    proof {
        assert forall|x: int, y: int| gray.inside(x, y) implies extreme_at(
            *gray,
            size as int,
            maximum,
            x,
            y,
            #[trigger] out.at(x, y),
        ) by {
            assert(out.inside(x, y));
            combined(*gray, size as int, maximum, rows@, offsets@, x, y, out.at(x, y));
        }
    }
    out
}

/// `out` is the closing of `gray`: its dilation, eroded.
pub open spec fn closed(gray: Gray, size: int, out: Gray) -> bool {
    exists|dilated: Gray| #[trigger]
        morphed(gray, size, true, dilated) && morphed(dilated, size, false, out)
}

/// Morphological closing: dilation, then erosion with the same element.
pub fn close(gray: &Gray, size: usize) -> (out: Gray)
    requires
        gray.wf(),
        size > 0 || gray.width == 0 || gray.height == 0,
        (size / 2) * (size / 2) + size + gray.height <= isize::MAX,
    ensures
        out.wf(),
        closed(*gray, size as int, out),
{
    if gray.is_empty() {
        proof {
            assert(gray.width * gray.height == 0) by (nonlinear_arith)
                requires
                    gray.width == 0 || gray.height == 0,
            ;
            assert(morphed(*gray, size as int, true, *gray));
        }
        return gray.copy();
    }
    let dilated = morph(gray, size, true);
    morph(&dilated, size, false)
}

/// A closing with an element of odd size never darkens a pixel.
pub proof fn closing_never_darkens(gray: Gray, size: int, out: Gray, x: int, y: int)
    requires
        closed(gray, size, out),
        size > 0,
        size % 2 == 1,
        gray.inside(x, y),
    ensures
        out.at(x, y) >= gray.at(x, y),
{
    let dilated = choose|dilated: Gray| #[trigger]
        morphed(gray, size, true, dilated) && morphed(dilated, size, false, out);
    assert(dilated.inside(x, y));
    assert(extreme_at(dilated, size, false, x, y, out.at(x, y)));
    let (sx, sy) = choose|sx: int, sy: int| #[trigger]
        reaches(dilated, size, x, y, sx, sy) && out.at(x, y) == dilated.at(sx, sy);
    assert(gray.inside(sx, sy));
    assert(extreme_at(gray, size, true, sx, sy, dilated.at(sx, sy)));
    // The element is symmetric, so the pixel that a neighbour takes the minimum from
    // saw this pixel when it took its maximum.
    assert((y - sy) * (y - sy) == (sy - y) * (sy - y)) by (nonlinear_arith);
    assert(reaches(gray, size, sx, sy, x, y));
}

/// Closing an image of one shade changes nothing.
pub proof fn closing_keeps_a_flat_image(gray: Gray, size: int, out: Gray, shade: u8)
    requires
        closed(gray, size, out),
        size > 0,
        gray.wf(),
        forall|i: int| 0 <= i < gray.data@.len() ==> gray.data@[i] == shade,
    ensures
        out.same(gray),
{
    let dilated = choose|dilated: Gray| #[trigger]
        morphed(gray, size, true, dilated) && morphed(dilated, size, false, out);
    let w = gray.width as int;
    let h = gray.height as int;
    assert forall|x: int, y: int| gray.inside(x, y) implies #[trigger] dilated.at(x, y)
        == shade by {
        assert(extreme_at(gray, size, true, x, y, dilated.at(x, y)));
        let (sx, sy) = choose|sx: int, sy: int| #[trigger]
            reaches(gray, size, x, y, sx, sy) && dilated.at(x, y) == gray.at(sx, sy);
        pixel_bounds(sx, sy, w, h);
    }
    assert forall|i: int| 0 <= i < gray.data@.len() implies out.data@[i] == shade by {
        pixel_of_index(i, w, h);
        let x = i % w;
        let y = i / w;
        assert(dilated.inside(x, y));
        assert(gray.inside(x, y));
        assert(extreme_at(dilated, size, false, x, y, out.at(x, y)));
        let (sx, sy) = choose|sx: int, sy: int| #[trigger]
            reaches(dilated, size, x, y, sx, sy) && out.at(x, y) == dilated.at(sx, sy);
        assert(gray.inside(sx, sy));
        assert(out.at(x, y) == out.data@[i]);
    }
    assert(out.data@ =~= gray.data@);
}

/// A dilation or erosion is determined by the image.
pub proof fn morphed_is_unique(gray: Gray, size: int, maximum: bool, a: Gray, b: Gray)
    requires
        morphed(gray, size, maximum, a),
        morphed(gray, size, maximum, b),
    ensures
        a.same(b),
{
    let w = gray.width as int;
    let h = gray.height as int;
    assert forall|i: int| 0 <= i < a.data@.len() implies a.data@[i] == b.data@[i] by {
        pixel_of_index(i, w, h);
        let x = i % w;
        let y = i / w;
        assert(gray.inside(x, y));
        assert(extreme_at(gray, size, maximum, x, y, a.at(x, y)));
        assert(extreme_at(gray, size, maximum, x, y, b.at(x, y)));
        let (sx, sy) = choose|sx: int, sy: int| #[trigger]
            reaches(gray, size, x, y, sx, sy) && a.at(x, y) == gray.at(sx, sy);
        assert(beats(maximum, b.at(x, y), gray.at(sx, sy)));
        let (tx, ty) = choose|tx: int, ty: int| #[trigger]
            reaches(gray, size, x, y, tx, ty) && b.at(x, y) == gray.at(tx, ty);
        assert(beats(maximum, a.at(x, y), gray.at(tx, ty)));
    }
    assert(a.data@ =~= b.data@);
}

/// A closing has the size of the image.
pub proof fn closing_keeps_the_size(gray: Gray, size: int, out: Gray)
    requires
        closed(gray, size, out),
    ensures
        out.wf(),
        out.width == gray.width,
        out.height == gray.height,
{
    let dilated = choose|dilated: Gray| #[trigger]
        morphed(gray, size, true, dilated) && morphed(dilated, size, false, out);
    assert(morphed(dilated, size, false, out));
}

/// A closing is determined by the image.
pub proof fn closing_is_unique(gray: Gray, size: int, a: Gray, b: Gray)
    requires
        closed(gray, size, a),
        closed(gray, size, b),
    ensures
        a.same(b),
{
    let p = choose|p: Gray| #[trigger] morphed(gray, size, true, p) && morphed(p, size, false, a);
    let q = choose|q: Gray| #[trigger] morphed(gray, size, true, q) && morphed(q, size, false, b);
    morphed_is_unique(gray, size, true, p, q);
    let w = gray.width as int;
    let h = gray.height as int;
    assert forall|x: int, y: int| p.inside(x, y) implies extreme_at(
        p,
        size,
        false,
        x,
        y,
        #[trigger] b.at(x, y),
    ) by {
        let value = b.at(x, y);
        assert(extreme_at(q, size, false, x, y, value));
        assert forall|sx: int, sy: int| #[trigger] reaches(p, size, x, y, sx, sy) implies beats(
            false,
            value,
            p.at(sx, sy),
        ) by {
            assert(reaches(q, size, x, y, sx, sy));
            assert(p.at(sx, sy) == q.at(sx, sy));
        }
        let (sx, sy) = choose|sx: int, sy: int| #[trigger]
            reaches(q, size, x, y, sx, sy) && value == q.at(sx, sy);
        assert(reaches(p, size, x, y, sx, sy));
        assert(p.at(sx, sy) == q.at(sx, sy));
    }
    assert(morphed(p, size, false, b));
    morphed_is_unique(p, size, false, a, b);
}

/// A dilation darkens no pixel, and an erosion brightens none.
pub proof fn a_pixel_reaches_itself(
    gray: Gray,
    size: int,
    maximum: bool,
    out: Gray,
    x: int,
    y: int,
)
    requires
        morphed(gray, size, maximum, out),
        size > 0,
        gray.inside(x, y),
    ensures
        beats(maximum, out.at(x, y), gray.at(x, y)),
{
    assert(extreme_at(gray, size, maximum, x, y, out.at(x, y)));
    assert(reaches(gray, size, x, y, x, y));
}

/// Eroding the negative of an image gives the negative of its dilation, and dilating it the
/// negative of its erosion: what lies outside the frame takes part in neither.
pub proof fn the_negative_is_morphed_the_other_way(
    gray: Gray,
    size: int,
    maximum: bool,
    out: Gray,
    turned: Gray,
    other: Gray,
)
    requires
        gray.wf(),
        turned.width == gray.width,
        turned.height == gray.height,
        turned.data@ == negative(gray.data@),
        morphed(gray, size, maximum, out),
        morphed(turned, size, !maximum, other),
    ensures
        other.data@ == negative(out.data@),
{
    let w = gray.width as int;
    let h = gray.height as int;
    assert forall|x: int, y: int| gray.inside(x, y) implies #[trigger] turned.at(x, y) == 255
        - gray.at(x, y) by {
        pixel_bounds(x, y, w, h);
    }
    assert forall|i: int| 0 <= i < out.data@.len() implies #[trigger] other.data@[i]
        == negative(out.data@)[i] by {
        pixel_of_index(i, w, h);
        let x = i % w;
        let y = i / w;
        assert(gray.inside(x, y) && turned.inside(x, y));
        assert(extreme_at(gray, size, maximum, x, y, out.at(x, y)));
        assert(extreme_at(turned, size, !maximum, x, y, other.at(x, y)));
        let (sx, sy) = choose|sx: int, sy: int| #[trigger]
            reaches(gray, size, x, y, sx, sy) && out.at(x, y) == gray.at(sx, sy);
        assert(reaches(turned, size, x, y, sx, sy));
        assert(turned.at(sx, sy) == 255 - gray.at(sx, sy));
        let (tx, ty) = choose|tx: int, ty: int| #[trigger]
            reaches(turned, size, x, y, tx, ty) && other.at(x, y) == turned.at(tx, ty);
        assert(reaches(gray, size, x, y, tx, ty));
        assert(turned.at(tx, ty) == 255 - gray.at(tx, ty));
        assert(other.at(x, y) == 255 - out.at(x, y));
    }
    assert(other.data@ =~= negative(out.data@));
}

/// An element of odd size reaches a pixel from another exactly if it reaches back.
proof fn reach_is_mutual(gray: Gray, size: int, x: int, y: int, sx: int, sy: int)
    requires
        size > 0,
        size % 2 == 1,
        gray.inside(x, y),
        reaches(gray, size, x, y, sx, sy),
    ensures
        reaches(gray, size, sx, sy, x, y),
{
    assert((y - sy) * (y - sy) == (sy - y) * (sy - y)) by (nonlinear_arith);
}

/// Closing with an element of odd size a second time changes nothing.
pub proof fn closing_twice_is_closing_once(gray: Gray, size: int, once: Gray, twice: Gray)
    requires
        closed(gray, size, once),
        closed(once, size, twice),
        size > 0,
        size % 2 == 1,
    ensures
        twice.same(once),
{
    let p = choose|p: Gray| #[trigger] morphed(gray, size, true, p) && morphed(
        p,
        size,
        false,
        once,
    );
    let q = choose|q: Gray| #[trigger] morphed(once, size, true, q) && morphed(
        q,
        size,
        false,
        twice,
    );
    let w = gray.width as int;
    let h = gray.height as int;
    // What the second dilation brightens, the first had brightened as much.
    assert forall|x: int, y: int| gray.inside(x, y) implies #[trigger] q.at(x, y) <= p.at(x, y) by {
        assert(once.inside(x, y) && p.inside(x, y));
        assert(extreme_at(once, size, true, x, y, q.at(x, y)));
        let (sx, sy) = choose|sx: int, sy: int| #[trigger]
            reaches(once, size, x, y, sx, sy) && q.at(x, y) == once.at(sx, sy);
        assert(p.inside(sx, sy));
        assert(extreme_at(p, size, false, sx, sy, once.at(sx, sy)));
        reach_is_mutual(once, size, x, y, sx, sy);
        assert(reaches(p, size, sx, sy, x, y));
    }
    assert forall|i: int| 0 <= i < once.data@.len() implies twice.data@[i] == once.data@[i] by {
        pixel_of_index(i, w, h);
        let x = i % w;
        let y = i / w;
        assert(once.inside(x, y) && p.inside(x, y) && q.inside(x, y));
        closing_never_darkens(once, size, twice, x, y);
        assert(extreme_at(p, size, false, x, y, once.at(x, y)));
        assert(extreme_at(q, size, false, x, y, twice.at(x, y)));
        let (sx, sy) = choose|sx: int, sy: int| #[trigger]
            reaches(p, size, x, y, sx, sy) && once.at(x, y) == p.at(sx, sy);
        assert(reaches(q, size, x, y, sx, sy));
        assert(gray.inside(sx, sy));
        assert(q.at(sx, sy) <= p.at(sx, sy));
    }
    assert(twice.data@ =~= once.data@);
}

/// A closing is nowhere brighter than the brightest pixel of the image.
pub proof fn closing_keeps_to_the_brightest(gray: Gray, size: int, out: Gray, brightest: u8)
    requires
        closed(gray, size, out),
        gray.wf(),
        forall|i: int| 0 <= i < gray.data@.len() ==> gray.data@[i] <= brightest,
    ensures
        forall|i: int| 0 <= i < out.data@.len() ==> out.data@[i] <= brightest,
{
    let dilated = choose|dilated: Gray| #[trigger]
        morphed(gray, size, true, dilated) && morphed(dilated, size, false, out);
    let w = gray.width as int;
    let h = gray.height as int;
    assert forall|i: int| 0 <= i < out.data@.len() implies out.data@[i] <= brightest by {
        pixel_of_index(i, w, h);
        let x = i % w;
        let y = i / w;
        assert(dilated.inside(x, y));
        assert(extreme_at(dilated, size, false, x, y, out.at(x, y)));
        let (sx, sy) = choose|sx: int, sy: int| #[trigger]
            reaches(dilated, size, x, y, sx, sy) && out.at(x, y) == dilated.at(sx, sy);
        assert(gray.inside(sx, sy));
        assert(extreme_at(gray, size, true, sx, sy, dilated.at(sx, sy)));
        let (tx, ty) = choose|tx: int, ty: int| #[trigger]
            reaches(gray, size, sx, sy, tx, ty) && dilated.at(sx, sy) == gray.at(tx, ty);
        pixel_bounds(tx, ty, w, h);
    }
}

/// The element is a disc: its rows lie evenly above and below its middle, the middle one reaches to
/// the radius, and a row further from the middle is no wider.
pub proof fn the_element_is_a_disc(size: usize, offsets: Vec<(isize, usize)>, i: int, j: int)
    requires
        (size / 2) * (size / 2) + size <= isize::MAX,
        call_ensures(ellipse_offsets, (size,), offsets),
        0 <= i < size,
        0 <= j < size,
    ensures
        offsets@.len() == size,
        offsets@[i].0 == i - (size / 2) as int,
        offsets@[i].0 == 0 ==> offsets@[i].1 == size / 2,
        offsets@[i].1 <= size / 2,
        offsets@[i].0 * offsets@[i].0 <= offsets@[j].0 * offsets@[j].0 ==> offsets@[j].1
            <= offsets@[i].1,
{
    let r = (size / 2) as int;
    let (a, b) = (offsets@[i].0 as int, offsets@[j].0 as int);
    let (d, e) = (offsets@[i].1 as int, offsets@[j].1 as int);
    assert(is_element_row(size as int, i, offsets@[i]));
    assert(is_element_row(size as int, j, offsets@[j]));
    roots_are_ordered(r * r - a * a, d, r * r, r);
    roots_are_ordered(r * r - b * b, e, r * r - a * a, d);
    assert(a * a >= 0) by (nonlinear_arith);
    assert(is_rounded_root(r * r, r)) by {
        assert(r * r <= r * r + r && (r > 0 ==> r * r - r < r * r));
    }
    if a == 0 {
        assert(a * a == 0);
        roots_are_ordered(r * r, r, r * r - a * a, d);
    }
}

proof fn roots_are_ordered(n: int, d: int, m: int, e: int)
    ensures
        is_rounded_root(n, d) && is_rounded_root(m, e) && n <= m ==> d <= e,
{
    if is_rounded_root(n, d) && is_rounded_root(m, e) && n <= m {
        if e < d {
            assert(d * d - d >= e * e + e) by (nonlinear_arith)
                requires
                    e + 1 <= d,
                    0 <= e,
            ;
        }
    }
}

/// Each value of a sliding maximum is one of its window and no other value there is larger; a minimum
/// is the same the other way.
pub proof fn extremes_are_of_their_window(src: &[u8], half: usize, maximum: bool, out: Vec<u8>, c: int, j: int)
    requires
        call_ensures(window_extremes, (src, half, maximum), out),
        0 <= c < src@.len(),
        0 <= j < src@.len(),
        c - half <= j <= c + half,
    ensures
        out@.len() == src@.len(),
        maximum ==> out@[c] >= src@[j],
        !maximum ==> out@[c] <= src@[j],
        exists|k: int|
            0 <= k < src@.len() && c - half <= k <= c + half && out@[c] == #[trigger] src@[k],
{
    assert(window_extreme(src@, half as int, maximum, c, out@[c]));
}

/// Closing never darkens a pixel, leaves a picture of one shade as it is, and does nothing the second
/// time.
pub proof fn closing_fills_dark_spots(
    gray: &Gray,
    size: usize,
    once: Gray,
    twice: Gray,
    x: int,
    y: int,
)
    requires
        gray.wf(),
        size % 2 == 1,
        call_ensures(close, (gray, size), once),
        call_ensures(close, (&once, size), twice),
        gray.inside(x, y),
    ensures
        once.width == gray.width && once.height == gray.height,
        once.at(x, y) >= gray.at(x, y),
        twice.data@ == once.data@,
        (forall|i: int, j: int|
            0 <= i < gray.data@.len() && 0 <= j < gray.data@.len() ==> #[trigger] gray.data@[i]
                == #[trigger] gray.data@[j]) ==> once.data@ == gray.data@,
{
    closing_keeps_the_size(*gray, size as int, once);
    closing_never_darkens(*gray, size as int, once, x, y);
    closing_twice_is_closing_once(*gray, size as int, once, twice);
    if forall|i: int, j: int|
        0 <= i < gray.data@.len() && 0 <= j < gray.data@.len() ==> #[trigger] gray.data@[i]
            == #[trigger] gray.data@[j] {
        crate::gray::pixel_bounds(x, y, gray.width as int, gray.height as int);
        let k = y * gray.width + x;
        assert(forall|i: int| 0 <= i < gray.data@.len() ==> gray.data@[i] == gray.data@[k]);
        closing_keeps_a_flat_image(*gray, size as int, once, gray.data@[k]);
    }
}

} // verus!
