//! Prepares an image for text recognition.
//!
//! Clean panels get their contrast stretched and are enlarged. Textured backgrounds are
//! estimated by a closing, divided away and the result is thresholded. Where the statistics of
//! the scene justify it, further candidates are offered: local equalisation for faint strokes,
//! the opposite polarity for pale text on uneven surfaces, and a projection of the colours for
//! text that differs from its background in hue alone.

use image::GrayImage;
use image::imageops::FilterType;
use vstd::prelude::*;

use crate::binary64::half_up;
use crate::clahe::{clahe, equalised};
use crate::gray::{Gray, Rgb8, pixel_of_index, row_bounds};
use crate::morph::{close, closed};
use crate::otsu::{Spread, is_otsu, otsu, spread};
use crate::single::{
    Single, fraction, one, product, rounding_keeps_the_order, small_integers_are_exact, whole,
};
use crate::tone::{
    Mean, autocontrast, divide, invert, is_autocontrast, is_robust_range, mean_luminance, negative,
    quotient, robust_range, the_range_is_unique, threshold, total_sum,
};

verus! {

/// Below this mean the image is a dark theme and its negative is read.
pub const DARK_THEME_LUM: u8 = 112;

/// Rows of the element that estimates the background.
pub const BACKGROUND_KERNEL: usize = 15;

/// Rows of the element that measures how busy the background is.
pub const BUSYNESS_KERNEL: usize = 25;

/// Standard deviation of the closed image above which the background counts as busy.
pub const BUSY_THRESHOLD: u8 = 3;

/// Range of shades below which faint glyphs are lost without local contrast.
pub const LOW_CONTRAST_RANGE: u8 = 96;

/// Mean spread of the colour channels from which on a projection of the colours is worth trying.
pub const COLORFUL_CHROMA: u8 = 12;

/// No side of a picture that is resampled is longer. Up to here single precision still tells the
/// middles of neighbouring pixels apart.
pub const LONGEST_SIDE: usize = 8388608;

/// An enlargement of one, in thousandths.
pub const UNIT_SCALE: u32 = 1000;

/// Rec. 601 luma of a pixel.
pub open spec fn luma_of(r: u8, g: u8, b: u8) -> u8 {
    ((299 * r + 587 * g + 114 * b + 500) / 1000) as u8
}

/// One byte per pixel, each computed from the three channels of that pixel.
pub open spec fn maps_pixels(image: Rgb8, out: Gray, f: spec_fn(u8, u8, u8) -> u8) -> bool {
    &&& out.wf()
    &&& out.width == image.width
    &&& out.height == image.height
    &&& forall|i: int|
        0 <= i < image.area() ==> #[trigger] out.data@[i] == f(
            image.channel(i, 0),
            image.channel(i, 1),
            image.channel(i, 2),
        )
}

/// The luma of every pixel.
pub open spec fn is_gray_of(image: Rgb8, out: Gray) -> bool {
    maps_pixels(image, out, |r: u8, g: u8, b: u8| luma_of(r, g, b))
}

/// The luma of every pixel.
pub fn to_gray(image: &Rgb8) -> (out: Gray)
    requires
        image.wf(),
    ensures
        is_gray_of(*image, out),
{
    let area: usize = image.data.len() / 3;
    let mut data: Vec<u8> = Vec::with_capacity(area);
    let mut i: usize = 0;
    while i < area
        invariant
            image.wf(),
            area == image.area(),
            area * 3 <= usize::MAX,
            i <= area,
            data@.len() == i,
            forall|k: int|
                0 <= k < i ==> #[trigger] data@[k] == luma_of(
                    image.channel(k, 0),
                    image.channel(k, 1),
                    image.channel(k, 2),
                ),
        decreases area - i,
    {
        let r: u32 = image.data[i * 3] as u32;
        let g: u32 = image.data[i * 3 + 1] as u32;
        let b: u32 = image.data[i * 3 + 2] as u32;
        data.push(((299 * r + 587 * g + 114 * b + 500) / 1000) as u8);
        i = i + 1;
    }
    Gray { width: image.width, height: image.height, data }
}

/// The larger of two shades.
pub open spec fn brighter(a: u8, b: u8) -> u8 {
    if a > b {
        a
    } else {
        b
    }
}

/// The brightest channel of every pixel.
pub fn max_channel(image: &Rgb8) -> (out: Gray)
    requires
        image.wf(),
    ensures
        maps_pixels(*image, out, |r: u8, g: u8, b: u8| brighter(brighter(r, g), b)),
{
    let area: usize = image.data.len() / 3;
    let mut data: Vec<u8> = Vec::with_capacity(area);
    let mut i: usize = 0;
    while i < area
        invariant
            image.wf(),
            area == image.area(),
            area * 3 <= usize::MAX,
            i <= area,
            data@.len() == i,
            forall|k: int|
                0 <= k < i ==> #[trigger] data@[k] == brighter(
                    brighter(image.channel(k, 0), image.channel(k, 1)),
                    image.channel(k, 2),
                ),
        decreases area - i,
    {
        let r: u8 = image.data[i * 3];
        let g: u8 = image.data[i * 3 + 1];
        let b: u8 = image.data[i * 3 + 2];
        let rg: u8 = if r > g {
            r
        } else {
            g
        };
        data.push(
            if rg > b {
                rg
            } else {
                b
            },
        );
        i = i + 1;
    }
    Gray { width: image.width, height: image.height, data }
}

/// One colour channel of an image.
pub open spec fn channel_data(image: Rgb8, channel: int) -> Seq<u8> {
    Seq::new(image.area(), |i: int| image.channel(i, channel))
}

fn channel_gray(image: &Rgb8, channel: usize) -> (out: Gray)
    requires
        image.wf(),
        channel < 3,
    ensures
        out.data@ == channel_data(*image, channel as int),
{
    let area: usize = image.data.len() / 3;
    let mut data: Vec<u8> = Vec::with_capacity(area);
    let mut i: usize = 0;
    while i < area
        invariant
            image.wf(),
            area == image.area(),
            area * 3 <= usize::MAX,
            channel < 3,
            i <= area,
            data@.len() == i,
            forall|k: int|
                0 <= k < i ==> #[trigger] data@[k] == image.channel(k, channel as int),
        decreases area - i,
    {
        data.push(image.data[i * 3 + channel]);
        i = i + 1;
    }
    assert(data@ =~= channel_data(*image, channel as int));
    Gray { width: image.width, height: image.height, data }
}

/// `range` is the largest of the ranges of the three channels.
pub open spec fn is_strongest_range(image: Rgb8, range: int) -> bool {
    exists|r: int, g: int, b: int|
        #![trigger is_robust_range(channel_data(image, 0), r), is_robust_range(channel_data(image, 1), g), is_robust_range(channel_data(image, 2), b)]
        is_robust_range(channel_data(image, 0), r) && is_robust_range(channel_data(image, 1), g)
            && is_robust_range(channel_data(image, 2), b) && range == if r >= g && r >= b {
            r
        } else if g >= b {
            g
        } else {
            b
        }
}

/// The largest of the ranges of the three colour channels.
pub fn strongest_channel_range(image: &Rgb8) -> (range: u8)
    requires
        image.wf(),
        image.area() <= u32::MAX,
    ensures
        is_strongest_range(*image, range as int),
{
    let r: u8 = robust_range(&channel_gray(image, 0));
    let g: u8 = robust_range(&channel_gray(image, 1));
    let b: u8 = robust_range(&channel_gray(image, 2));
    if r >= g && r >= b {
        r
    } else if g >= b {
        g
    } else {
        b
    }
}

/// Distance between the brightest and the darkest channel of a pixel.
pub open spec fn chroma(r: u8, g: u8, b: u8) -> int {
    let hi = brighter(brighter(r, g), b);
    let lo = if r <= g && r <= b {
        r
    } else if g <= b {
        g
    } else {
        b
    };
    hi - lo
}

/// The chroma of the first `n` pixels, summed.
pub open spec fn chroma_sum(image: Rgb8, n: int) -> int
    decreases n,
{
    if n <= 0 {
        0
    } else {
        chroma_sum(image, n - 1) + chroma(
            image.channel(n - 1, 0),
            image.channel(n - 1, 1),
            image.channel(n - 1, 2),
        )
    }
}

/// The mean chroma of the image.
pub fn mean_chroma(image: &Rgb8) -> (mean: Mean)
    requires
        image.wf(),
        image.area() <= u32::MAX,
    ensures
        mean.total == chroma_sum(*image, image.area() as int),
        mean.count == image.area(),
{
    let area: usize = image.data.len() / 3;
    let mut total: u64 = 0;
    let mut i: usize = 0;
    while i < area
        invariant
            image.wf(),
            area == image.area(),
            area * 3 <= usize::MAX,
            area <= u32::MAX,
            i <= area,
            total == chroma_sum(*image, i as int),
            total <= 255 * i,
        decreases area - i,
    {
        let r: u8 = image.data[i * 3];
        let g: u8 = image.data[i * 3 + 1];
        let b: u8 = image.data[i * 3 + 2];
        let rg: u8 = if r > g {
            r
        } else {
            g
        };
        let hi: u8 = if rg > b {
            rg
        } else {
            b
        };
        let lo: u8 = if r <= g && r <= b {
            r
        } else if g <= b {
            g
        } else {
            b
        };
        total = total + (hi - lo) as u64;
        i = i + 1;
    }
    Mean { total, count: area as u64 }
}

/// Every pixel of `gray` three times over.
pub open spec fn is_rgb_of(gray: Gray, out: Rgb8) -> bool {
    &&& out.width == gray.width
    &&& out.height == gray.height
    &&& out.data@.len() == gray.data@.len() * 3
    &&& forall|i: int|
        0 <= i < gray.data@.len() ==> #[trigger] out.channel(i, 0) == gray.data@[i]
            && out.channel(i, 1) == gray.data@[i] && out.channel(i, 2) == gray.data@[i]
}

/// The image with three equal channels.
pub fn to_rgb(gray: &Gray) -> (out: Rgb8)
    requires
        gray.wf(),
        gray.data@.len() * 3 <= usize::MAX,
    ensures
        out.wf(),
        is_rgb_of(*gray, out),
{
    let n: usize = gray.data.len();
    let mut data: Vec<u8> = Vec::with_capacity(n * 3);
    let mut i: usize = 0;
    while i < n
        invariant
            i <= n,
            n == gray.data@.len(),
            data@.len() == i * 3,
            forall|k: int|
                #![trigger gray.data@[k]]
                0 <= k < i ==> data@[k * 3] == gray.data@[k] && data@[k * 3 + 1] == gray.data@[k]
                    && data@[k * 3 + 2] == gray.data@[k],
        decreases n - i,
    {
        let value: u8 = gray.data[i];
        data.push(value);
        data.push(value);
        data.push(value);
        i = i + 1;
    }
    let out = Rgb8 { width: gray.width, height: gray.height, data };
    proof {
        assert forall|i: int| 0 <= i < gray.data@.len() implies #[trigger] out.channel(i, 0)
            == gray.data@[i] && out.channel(i, 1) == gray.data@[i] && out.channel(i, 2)
            == gray.data@[i] by {
            let value = gray.data@[i];
        }
    }
    out
}

/// Width of the border that tells the background: a thirty-second of the shorter side, at least
/// one pixel and at most five.
pub open spec fn border_width(width: int, height: int) -> int {
    let band = (if width < height {
        width
    } else {
        height
    }) / 32;
    if band < 1 {
        1
    } else if band > 5 {
        5
    } else {
        band
    }
}

/// Whether pixel `i` lies in the border.
pub open spec fn in_border(gray: Gray, i: int) -> bool {
    let w = gray.width as int;
    let h = gray.height as int;
    let band = border_width(w, h);
    let x = i % w;
    let y = i / w;
    x < band || x + band >= w || y < band || y + band >= h
}

/// How many of the first `n` pixels lie in the border and are darker than `limit`.
pub open spec fn border_darker(gray: Gray, limit: int, n: int) -> nat
    decreases n,
{
    if n <= 0 {
        0
    } else {
        border_darker(gray, limit, n - 1) + if in_border(gray, n - 1) && gray.data@[n - 1] < limit {
            1nat
        } else {
            0
        }
    }
}

/// At least half of the border is dark.
pub open spec fn border_is_dark(gray: Gray) -> bool {
    let n = gray.data@.len() as int;
    n > 0 && 2 * border_darker(gray, 128, n) >= border_darker(gray, 256, n)
}

proof fn negative_border(gray: Gray, out: Gray, n: int)
    requires
        out.width == gray.width,
        out.height == gray.height,
        out.data@ == negative(gray.data@),
        0 <= n <= gray.data@.len(),
    ensures
        border_darker(out, 256, n) == border_darker(gray, 256, n),
        border_darker(out, 128, n) == border_darker(gray, 256, n) - border_darker(gray, 128, n),
    decreases n,
{
    if n > 0 {
        negative_border(gray, out, n - 1);
        assert(in_border(out, n - 1) == in_border(gray, n - 1));
        assert(out.data@[n - 1] == 255 - gray.data@[n - 1]);
    }
}

/// Once the background was made light, the border is not dark, so doing it again changes nothing.
/// An image whose border is dark in exactly one half is the exception: it is turned over each time.
pub proof fn an_oriented_border_is_light(gray: Gray, out: Gray)
    requires
        out.width == gray.width,
        out.height == gray.height,
        out.data@ == if border_is_dark(gray) {
            negative(gray.data@)
        } else {
            gray.data@
        },
        2 * border_darker(gray, 128, gray.data@.len() as int) != border_darker(
            gray,
            256,
            gray.data@.len() as int,
        ),
    ensures
        !border_is_dark(out),
{
    if border_is_dark(gray) {
        negative_border(gray, out, gray.data@.len() as int);
    } else {
        assert(gray.same(out));
        same_border(gray, out, gray.data@.len() as int);
    }
}

/// Makes the background light: an image whose border has a dark median becomes its negative.
pub fn orient_background_light(gray: &mut Gray)
    requires
        old(gray).wf(),
        old(gray).countable(),
    ensures
        final(gray).wf(),
        final(gray).width == old(gray).width,
        final(gray).height == old(gray).height,
        final(gray).data@ == if border_is_dark(*old(gray)) {
            negative(old(gray).data@)
        } else {
            old(gray).data@
        },
{
    if gray.is_empty() {
        proof {
            assert(gray.width * gray.height == 0) by (nonlinear_arith)
                requires
                    gray.width == 0 || gray.height == 0,
            ;
        }
        return;
    }
    let shorter: usize = if gray.width < gray.height {
        gray.width
    } else {
        gray.height
    };
    let raw: usize = shorter / 32;
    let band: usize = if raw < 1 {
        1
    } else if raw > 5 {
        5
    } else {
        raw
    };
    let n: usize = gray.data.len();
    proof {
        assert(0 < gray.width * gray.height) by (nonlinear_arith)
            requires
                0 < gray.width,
                0 < gray.height,
        ;
    }
    let mut dark: u64 = 0;
    let mut total: u64 = 0;
    let mut i: usize = 0;
    while i < n
        invariant
            n == gray.data@.len(),
            n <= u32::MAX,
            gray.wf(),
            0 < gray.width,
            0 < gray.height,
            1 <= band <= 5,
            band == border_width(gray.width as int, gray.height as int),
            i <= n,
            dark == border_darker(*gray, 128, i as int),
            total == border_darker(*gray, 256, i as int),
            dark <= i,
            total <= i,
        decreases n - i,
    {
        proof {
            pixel_of_index(i as int, gray.width as int, gray.height as int);
        }
        let x: usize = i % gray.width;
        let y: usize = i / gray.width;
        if x < band || gray.width - x <= band || y < band || gray.height - y <= band {
            assert(in_border(*gray, i as int));
            total = total + 1;
            if gray.data[i] < 128 {
                dark = dark + 1;
            }
        }
        i = i + 1;
    }
    if 2 * dark >= total {
        invert(gray);
    }
}

/// How busy the background is: the spread of the image once its text is closed over.
pub open spec fn is_busyness(gray: Gray, s: Spread) -> bool {
    if gray.data@.len() == 0 {
        s.count == 0 && s.sum == 0 && s.squares == 0
    } else {
        exists|background: Gray| #[trigger]
            closed(gray, BUSYNESS_KERNEL as int, background) && s.of(background.data@)
    }
}

/// An image that every step of the preparation can hold.
pub open spec fn preparable(width: int, height: int) -> bool {
    width * height <= u32::MAX && height + 1000 <= isize::MAX && width * height * 3 <= usize::MAX
}

/// Measures how busy the background is.
pub fn busyness(gray: &Gray) -> (s: Spread)
    requires
        gray.wf(),
        preparable(gray.width as int, gray.height as int),
    ensures
        is_busyness(*gray, s),
        s.count <= u32::MAX,
        s.sum <= 255 * s.count,
        s.squares <= 65025 * s.count,
{
    if gray.is_empty() {
        proof {
            assert(gray.width * gray.height == 0) by (nonlinear_arith)
                requires
                    gray.width == 0 || gray.height == 0,
            ;
        }
        return Spread { count: 0, sum: 0, squares: 0 };
    }
    let background = close(gray, BUSYNESS_KERNEL);
    proof {
        crate::morph::closing_keeps_the_size(*gray, BUSYNESS_KERNEL as int, background);
        assert(0 < gray.width * gray.height) by (nonlinear_arith)
            requires
                0 < gray.width,
                0 < gray.height,
        ;
    }
    spread(&background)
}

/// A spread of nothing is not above anything, so an empty image is not busy.
pub open spec fn is_busy(gray: Gray) -> bool {
    exists|s: Spread| #[trigger] is_busyness(gray, s) && s.is_above(BUSY_THRESHOLD as int)
}

/// The background of an image has one spread.
pub proof fn busyness_is_unique(gray: Gray, a: Spread, b: Spread)
    requires
        is_busyness(gray, a),
        is_busyness(gray, b),
    ensures
        a == b,
{
    if gray.data@.len() > 0 {
        let k = BUSYNESS_KERNEL as int;
        let p = choose|p: Gray| #[trigger] closed(gray, k, p) && a.of(p.data@);
        let q = choose|q: Gray| #[trigger] closed(gray, k, q) && b.of(q.data@);
        crate::morph::closing_is_unique(gray, k, p, q);
    }
}

fn busy(gray: &Gray) -> (r: bool)
    requires
        gray.wf(),
        preparable(gray.width as int, gray.height as int),
    ensures
        r == is_busy(*gray),
{
    let s = busyness(gray);
    let r: bool = s.above(BUSY_THRESHOLD);
    proof {
        if is_busy(*gray) {
            let t = choose|t: Spread| #[trigger]
                is_busyness(*gray, t) && t.is_above(BUSY_THRESHOLD as int);
            busyness_is_unique(*gray, s, t);
        }
    }
    r
}

/// A length times a factor in thousandths, both in single precision, to the nearest pixel and at
/// least one.
pub open spec fn scaled(length: int, factor: int) -> int {
    let pixels = half_up(product(whole(length as nat), fraction(factor as nat, 1000)), one()) as int;
    if pixels < 1 {
        1
    } else {
        pixels
    }
}

/// The scaled length, if it is not too long.
fn scale(length: usize, factor: u32) -> (r: Option<usize>)
    ensures
        match r {
            Some(n) => n == scaled(length as int, factor as int) && 1 <= n <= LONGEST_SIDE,
            None => scaled(length as int, factor as int) > LONGEST_SIDE,
        },
{
    let exact = Single::whole(length as u64).times(Single::fraction(factor, 1000));
    match exact.nearest_whole(LONGEST_SIDE as u32) {
        Some(n) => Some(
            if n < 1 {
                1
            } else {
                n as usize
            },
        ),
        None => None,
    }
}

/// An image that can be resampled, and whose enlargement every later step can hold.
pub open spec fn resizable(width: int, height: int, factor: int) -> bool {
    &&& width <= LONGEST_SIDE
    &&& height <= LONGEST_SIDE
    &&& scaled(width, factor) <= LONGEST_SIDE
    &&& scaled(height, factor) <= LONGEST_SIDE
    &&& preparable(scaled(width, factor), scaled(height, factor))
    &&& 16 * width * scaled(height, factor) <= isize::MAX
}

/// An image that every step of the preparation can hold, enlarged where `factor` enlarges.
pub open spec fn enlargeable(width: int, height: int, factor: int) -> bool {
    preparable(width, height) && (factor > UNIT_SCALE ==> resizable(width, height, factor))
}

fn holds(width: u128, height: u128) -> (r: bool)
    requires
        width <= 0x1_0000_0000_0000_0000,
        height <= 0x1_0000_0000_0000_0000,
    ensures
        r == preparable(width as int, height as int),
{
    if width > 0 && height > 0xffff_ffff / width {
        proof {
            assert(width * height > 0xffff_ffff) by (nonlinear_arith)
                requires
                    0 < width,
                    height > 0xffff_ffffint / (width as int),
            ;
        }
        return false;
    }
    proof {
        assert(width * height <= 0xffff_ffff) by (nonlinear_arith)
            requires
                0 <= width,
                0 <= height,
                width == 0 || height <= 0xffff_ffffint / (width as int),
        ;
    }
    height + 1000 <= isize::MAX as u128 && width * height * 3 <= usize::MAX as u128
}

/// Whether an image of the given size can be prepared and enlarged by the given factor, in
/// thousandths. Factors below one count as one.
pub fn fits(width: usize, height: usize, upscale_factor: u32) -> (r: bool)
    ensures
        r == enlargeable(
            width as int,
            height as int,
            if upscale_factor < UNIT_SCALE {
                UNIT_SCALE as int
            } else {
                upscale_factor as int
            },
        ),
{
    let factor: u32 = if upscale_factor < UNIT_SCALE {
        UNIT_SCALE
    } else {
        upscale_factor
    };
    let w: u128 = width as u128;
    let h: u128 = height as u128;
    if !holds(w, h) {
        return false;
    }
    if factor == UNIT_SCALE {
        return true;
    }
    if width > LONGEST_SIDE || height > LONGEST_SIDE {
        return false;
    }
    let (wide, tall) = match (scale(width, factor), scale(height, factor)) {
        (Some(wide), Some(tall)) => (wide as u128, tall as u128),
        _ => {
            return false;
        },
    };
    assert(16 * w * tall <= 16 * 8388608 * 8388608) by (nonlinear_arith)
        requires
            0 <= w <= 8388608,
            0 <= tall <= 8388608,
    ;
    holds(wide, tall) && 16 * w * tall <= isize::MAX as u128
}

/// Every pixel has the given shade.
pub open spec fn is_flat(data: Seq<u8>, shade: u8) -> bool {
    forall|i: int| 0 <= i < data.len() ==> data[i] == shade
}

/// Whether pixel `s` of a side of `from` pixels takes part in pixel `t` of that side enlarged to
/// `to` pixels: their middles are less than three pixels of the source apart. The last two terms are
/// for the middles being found in single precision, which on the longest side may miss them by one
/// pixel.
pub open spec fn is_source(s: int, t: int, from: int, to: int) -> bool {
    let gap = (2 * s + 1) * to - (2 * t + 1) * from;
    let reach = LONGEST_SIDE * 6 * to + (2 * t + 1) * from + to;
    -reach < LONGEST_SIDE * gap < reach
}

/// Whether all pixels that take part in pixel `x`, `y` of `gray` enlarged have the given shade.
pub open spec fn is_even_around(
    gray: Gray,
    width: int,
    height: int,
    x: int,
    y: int,
    shade: u8,
) -> bool {
    forall|sx: int, sy: int| #[trigger]
        gray.inside(sx, sy) && is_source(sx, x, gray.width as int, width) && is_source(
            sy,
            y,
            gray.height as int,
            height,
        ) ==> gray.at(sx, sy) == shade
}

/// `out` shows what `gray` shows: a pixel has the shade of the pixels that take part in it, where
/// those have but one.
pub open spec fn keeps_even_parts(gray: Gray, out: Gray) -> bool {
    forall|x: int, y: int, shade: u8|
        out.inside(x, y) && #[trigger] is_even_around(
            gray,
            out.width as int,
            out.height as int,
            x,
            y,
            shade,
        ) ==> out.at(x, y) == shade
}

/// What `image::imageops::resize` with its Lanczos filter may return for an image of the given
/// pixels, width and height at another width and height. It is a relation, because the filter
/// evaluates sines in single precision, whose last bits std leaves to the platform.
pub uninterp spec fn may_resample(
    source: Seq<u8>,
    from_width: int,
    from_height: int,
    width: int,
    height: int,
    out: Seq<u8>,
) -> bool;

/// `out` is `gray` at another size: what the resampler returns for it. Enlarging keeps the shade
/// of every even part.
pub open spec fn is_upscaled(gray: Gray, factor: int, out: Gray) -> bool {
    let width = scaled(gray.width as int, factor);
    let height = scaled(gray.height as int, factor);
    if gray.width == 0 || gray.height == 0 || (width == gray.width && height == gray.height) {
        out.same(gray)
    } else {
        &&& out.wf()
        &&& out.width == width
        &&& out.height == height
        &&& may_resample(
            gray.data@,
            gray.width as int,
            gray.height as int,
            width,
            height,
            out.data@,
        )
        &&& gray.width <= width && gray.height <= height ==> keeps_even_parts(gray, out)
    }
}

/// Enlarging keeps an image of one shade in that shade.
pub proof fn a_flat_image_stays_flat(gray: Gray, factor: int, out: Gray, shade: u8)
    requires
        gray.wf(),
        is_upscaled(gray, factor, out),
        gray.width <= out.width,
        gray.height <= out.height,
        is_flat(gray.data@, shade),
    ensures
        is_flat(out.data@, shade),
{
    if !out.same(gray) {
        let w = out.width as int;
        let h = out.height as int;
        assert forall|i: int| 0 <= i < out.data@.len() implies out.data@[i] == shade by {
            pixel_of_index(i, w, h);
            let x = i % w;
            let y = i / w;
            assert forall|sx: int, sy: int| #[trigger] gray.inside(sx, sy) implies gray.at(sx, sy)
                == shade by {
                row_bounds(sy, gray.width as int, gray.height as int);
            }
            assert(is_even_around(gray, w, h, x, y, shade));
            assert(out.inside(x, y));
            assert(out.at(x, y) == shade);
        }
    }
}

/// `out` is `gray`, enlarged where `factor` enlarges.
pub open spec fn is_enlarged(gray: Gray, factor: int, out: Gray) -> bool {
    if factor > UNIT_SCALE {
        is_upscaled(gray, factor, out)
    } else {
        out.same(gray)
    }
}

/// Resamples with `image::imageops::resize` and its Lanczos filter. Claimed: the result has the
/// requested size and is one that the function may return for this image and this size. When it
/// enlarges, each pixel is a sum over the source pixels whose middles are less than three pixels
/// away in both directions, with weights that are divided by their own sum; so where those pixels
/// have but one shade, that is its shade. Other pixels are not described: the weights are made of
/// sines in single precision, whose last bits std leaves to the platform.
///
/// The function finds the middle of each pixel in single precision. No side may be so long that it
/// misses all pixels there, and then divides by a sum of no weights.
#[verifier::external_body]
fn lanczos(gray: &Gray, width: u32, height: u32) -> (out: Gray)
    requires
        gray.wf(),
        0 < gray.width <= LONGEST_SIDE,
        0 < gray.height <= LONGEST_SIDE,
        0 < width <= LONGEST_SIDE,
        0 < height <= LONGEST_SIDE,
        16 * gray.width * height <= isize::MAX,
        width * height <= u32::MAX,
        width * height <= usize::MAX,
    ensures
        out.wf(),
        out.width == width,
        out.height == height,
        may_resample(
            gray.data@,
            gray.width as int,
            gray.height as int,
            width as int,
            height as int,
            out.data@,
        ),
        gray.width <= width && gray.height <= height ==> keeps_even_parts(*gray, out),
{
    let source = GrayImage::from_raw(
        gray.width as u32,
        gray.height as u32,
        gray.data.clone(),
    ).expect("the buffer holds the image");
    let resized = image::imageops::resize(&source, width, height, FilterType::Lanczos3);
    Gray {
        width: resized.width() as usize,
        height: resized.height() as usize,
        data: resized.into_raw(),
    }
}

/// The image at `factor` thousandths of its size.
pub fn upscale(gray: &Gray, factor: u32) -> (out: Gray)
    requires
        gray.wf(),
        resizable(gray.width as int, gray.height as int, factor as int),
    ensures
        out.wf(),
        is_upscaled(*gray, factor as int, out),
{
    let width: usize = scale(gray.width, factor).unwrap();
    let height: usize = scale(gray.height, factor).unwrap();
    if gray.is_empty() || (width == gray.width && height == gray.height) {
        return gray.copy();
    }
    proof {
        assert(width * height * 3 >= width * height) by (nonlinear_arith)
            requires
                width >= 0,
                height >= 0,
        ;
    }
    lanczos(gray, width as u32, height as u32)
}

fn enlarge(gray: Gray, factor: u32) -> (out: Gray)
    requires
        gray.wf(),
        enlargeable(gray.width as int, gray.height as int, factor as int),
    ensures
        out.wf(),
        preparable(out.width as int, out.height as int),
        is_enlarged(gray, factor as int, out),
{
    if factor > UNIT_SCALE {
        upscale(&gray, factor)
    } else {
        gray
    }
}

/// `out` is `gray` divided by its background.
pub open spec fn is_flattened(gray: Gray, out: Gray) -> bool {
    exists|background: Gray| #[trigger]
        closed(gray, BACKGROUND_KERNEL as int, background) && out.wf() && out.width == gray.width
            && out.height == gray.height && forall|i: int|
            0 <= i < gray.data@.len() ==> #[trigger] out.data@[i] == quotient(
                gray.data@[i],
                background.data@[i],
            )
}

/// Divides the image by its background.
pub fn flatten(gray: &Gray) -> (out: Gray)
    requires
        gray.wf(),
        preparable(gray.width as int, gray.height as int),
    ensures
        out.wf(),
        is_flattened(*gray, out),
{
    let background = close(gray, BACKGROUND_KERNEL);
    proof {
        crate::morph::closing_keeps_the_size(*gray, BACKGROUND_KERNEL as int, background);
    }
    divide(gray, &background)
}

/// `cut` is the threshold of the image: the middle shade if it has no pixels.
pub open spec fn is_cut(data: Seq<u8>, cut: u8) -> bool {
    if data.len() == 0 {
        cut == 127
    } else {
        is_otsu(data, cut as int)
    }
}

/// Every pixel of `gray` in black or white, as Otsu's threshold divides them.
pub open spec fn is_binarised(gray: Gray, out: Rgb8) -> bool {
    exists|cut: u8| #[trigger]
        is_cut(gray.data@, cut) && exists|b: Gray| #[trigger]
            is_rgb_of(b, out) && b.width == gray.width && b.height == gray.height && b.data@
                == gray.data@.map_values(
                |v: u8|
                    if v > cut {
                        255u8
                    } else {
                        0u8
                    },
            )
}

/// The image in black and white.
pub fn binarise(gray: Gray) -> (out: Rgb8)
    requires
        gray.wf(),
        preparable(gray.width as int, gray.height as int),
    ensures
        out.wf(),
        is_binarised(gray, out),
{
    let mut flat = gray.copy();
    let cut: u8 = otsu(&flat);
    threshold(&mut flat, cut);
    let out = to_rgb(&flat);
    proof {
        assert(is_rgb_of(flat, out));
        assert(is_cut(gray.data@, cut));
    }
    out
}

/// The candidate for a busy background: flattened, enlarged, then in black and white.
pub open spec fn is_busy_candidate(gray: Gray, factor: int, out: Rgb8) -> bool {
    exists|flat: Gray, large: Gray| #[trigger]
        is_flattened(gray, flat) && #[trigger] is_enlarged(flat, factor, large) && is_binarised(
            large,
            out,
        )
}

fn busy_candidate(gray: &Gray, factor: u32) -> (out: Rgb8)
    requires
        gray.wf(),
        enlargeable(gray.width as int, gray.height as int, factor as int),
    ensures
        out.wf(),
        is_busy_candidate(*gray, factor as int, out),
{
    let flat = flatten(gray);
    let large = enlarge(flat, factor);
    binarise(large)
}

/// The candidate for a clean panel: contrast stretched, then enlarged.
pub open spec fn is_clean_candidate(gray: Gray, factor: int, out: Rgb8) -> bool {
    exists|stretched: Gray, large: Gray|
        is_autocontrast(gray.data@, 1, stretched.data@) && stretched.width == gray.width
            && stretched.height == gray.height && #[trigger] is_enlarged(stretched, factor, large)
            && is_rgb_of(large, out)
}

fn baseline_candidate(gray: &Gray, factor: u32, busy: bool) -> (out: Rgb8)
    requires
        gray.wf(),
        enlargeable(gray.width as int, gray.height as int, factor as int),
    ensures
        out.wf(),
        busy ==> is_busy_candidate(*gray, factor as int, out),
        !busy ==> is_clean_candidate(*gray, factor as int, out),
{
    if busy {
        busy_candidate(gray, factor)
    } else {
        let mut stretched = gray.copy();
        autocontrast(&mut stretched, 1);
        proof {
            autocontrast_keeps_the_length(gray.data@, 1, stretched.data@);
        }
        let large = enlarge(stretched, factor);
        to_rgb(&large)
    }
}

proof fn autocontrast_keeps_the_length(data: Seq<u8>, cutoff: int, out: Seq<u8>)
    requires
        is_autocontrast(data, cutoff, out),
    ensures
        out.len() == data.len(),
{
}

/// `out` is `gray` with a light background and its local contrast equalised.
pub open spec fn is_locally_equalised(gray: Gray, out: Gray) -> bool {
    exists|light: Gray|
        light.width == gray.width && light.height == gray.height && light.data@ == (
        if border_is_dark(gray) {
            negative(gray.data@)
        } else {
            gray.data@
        }) && out.wf() && out.width == gray.width && out.height == gray.height && forall|
            x: int,
            y: int,
        |
            gray.inside(x, y) ==> #[trigger] out.at(x, y) == #[trigger] equalised(light, x, y)
}

/// The candidate for faint strokes: local contrast equalised, then enlarged.
pub open spec fn is_local_candidate(gray: Gray, factor: int, out: Rgb8) -> bool {
    exists|even: Gray, large: Gray| #[trigger]
        is_locally_equalised(gray, even) && #[trigger] is_enlarged(even, factor, large)
            && is_rgb_of(large, out)
}

/// The candidate for faint strokes.
pub fn local_contrast_candidate(gray: &Gray, factor: u32) -> (out: Rgb8)
    requires
        gray.wf(),
        enlargeable(gray.width as int, gray.height as int, factor as int),
    ensures
        out.wf(),
        is_local_candidate(*gray, factor as int, out),
{
    let mut light = gray.copy();
    proof {
        same_border(*gray, light, gray.data@.len() as int);
    }
    orient_background_light(&mut light);
    let even = clahe(&light);
    proof {
        assert forall|x: int, y: int| gray.inside(x, y) implies #[trigger] even.at(x, y)
            == #[trigger] equalised(light, x, y) by {
            assert(light.inside(x, y));
        }
        assert(is_locally_equalised(*gray, even));
    }
    let large = enlarge(even, factor);
    to_rgb(&large)
}

/// Equal images have the same border.
proof fn same_border(a: Gray, b: Gray, n: int)
    requires
        a.same(b),
        0 <= n <= a.data@.len(),
    ensures
        border_darker(a, 128, n) == border_darker(b, 128, n),
        border_darker(a, 256, n) == border_darker(b, 256, n),
    decreases n,
{
    if n > 0 {
        same_border(a, b, n - 1);
        assert(in_border(a, n - 1) == in_border(b, n - 1));
    }
}

/// A way to prepare the image.
#[derive(Debug, Clone, Copy, PartialEq, Eq, Structural)]
pub enum CandidateKind {
    Baseline,
    LocalContrast,
    OppositePolarity,
    ColorContrast,
}

/// Which projection turns the colours of an image into one channel.
#[derive(Debug, Clone, Copy, PartialEq, Eq, Structural)]
pub enum ColorSource {
    /// The direction in colour space along which the pixels differ most.
    Principal,
    /// The brightest channel.
    MaxChannel,
}

/// What the statistics of a scene say about how to prepare it.
pub struct Preparation<'a> {
    pub source: &'a Rgb8,
    pub original: Gray,
    pub oriented: Gray,
    pub factor: u32,
    pub busy: bool,
    pub luma_range: u8,
    pub chroma: Mean,
    pub channel_range: u8,
}

/// `out` is `gray`, or its negative if it is a dark theme.
pub open spec fn is_oriented(gray: Gray, out: Gray) -> bool {
    &&& out.width == gray.width
    &&& out.height == gray.height
    &&& out.data@ == if (Mean {
        total: total_sum(gray.data@) as u64,
        count: gray.data@.len() as u64,
    }).is_below(DARK_THEME_LUM as int) {
        negative(gray.data@)
    } else {
        gray.data@
    }
}

fn orient(gray: &Gray) -> (out: Gray)
    requires
        gray.wf(),
        gray.countable(),
    ensures
        out.wf(),
        is_oriented(*gray, out),
{
    let mut out = gray.copy();
    let mean = mean_luminance(&out);
    if mean.below(DARK_THEME_LUM) {
        invert(&mut out);
    }
    out
}

/// Whether the background behind the text of an image is busy, once a dark theme was turned: it is
/// then prepared in the way of a busy background.
pub fn is_busy_background(image: &Rgb8) -> (r: bool)
    requires
        image.wf(),
        preparable(image.width as int, image.height as int),
    ensures
        exists|gray: Gray, light: Gray| #[trigger]
            is_gray_of(*image, gray) && #[trigger] is_oriented(gray, light) && r == is_busy(light),
{
    let gray = to_gray(image);
    let light = orient(&gray);
    busy(&light)
}

/// An addition of shades that stops at white.
pub open spec fn saturating(a: u8, b: int) -> int {
    if a + b > 255 {
        255
    } else {
        a + b
    }
}

impl<'a> Preparation<'a> {
    /// The plan holds what the source and the factor determine.
    pub open spec fn wf(self) -> bool {
        &&& self.source.wf()
        &&& is_gray_of(*self.source, self.original)
        &&& is_oriented(self.original, self.oriented)
        &&& self.factor >= UNIT_SCALE
        &&& enlargeable(self.source.width as int, self.source.height as int, self.factor as int)
        &&& self.busy == is_busy(self.oriented)
        &&& is_robust_range(self.original.data@, self.luma_range as int)
        &&& self.chroma.total == chroma_sum(*self.source, self.source.area() as int)
        &&& self.chroma.count == self.source.area()
        &&& is_strongest_range(*self.source, self.channel_range as int)
    }

    /// Measures the scene. Factors below one are taken as one.
    pub fn new(image: &'a Rgb8, upscale_factor: u32) -> (plan: Preparation<'a>)
        requires
            image.wf(),
            enlargeable(
                image.width as int,
                image.height as int,
                if upscale_factor < UNIT_SCALE {
                    UNIT_SCALE as int
                } else {
                    upscale_factor as int
                },
            ),
        ensures
            plan.wf(),
            plan.source == image,
            plan.factor == if upscale_factor < UNIT_SCALE {
                UNIT_SCALE
            } else {
                upscale_factor
            },
    {
        let original = to_gray(image);
        let luma_range: u8 = robust_range(&original);
        let chroma = mean_chroma(image);
        let channel_range: u8 = strongest_channel_range(image);
        let oriented = orient(&original);
        let busy: bool = busy(&oriented);
        Preparation {
            source: image,
            original,
            oriented,
            factor: if upscale_factor < UNIT_SCALE {
                UNIT_SCALE
            } else {
                upscale_factor
            },
            busy,
            luma_range,
            chroma,
            channel_range,
        }
    }

    /// The scene has faint strokes.
    pub open spec fn is_low_contrast(self) -> bool {
        self.luma_range < LOW_CONTRAST_RANGE
    }

    /// The scene has contrast of colour.
    pub open spec fn is_colorful(self) -> bool {
        !self.chroma.is_below(COLORFUL_CHROMA as int) || self.channel_range > saturating(
            self.luma_range,
            20,
        )
    }

    /// The candidates that the scene justifies, in the order in which they are tried.
    pub open spec fn spec_kinds(self) -> Seq<CandidateKind> {
        seq![CandidateKind::Baseline] + (if self.is_low_contrast() {
            seq![CandidateKind::LocalContrast]
        } else {
            seq![]
        }) + (if self.busy {
            seq![CandidateKind::OppositePolarity]
        } else {
            seq![]
        }) + (if self.is_colorful() {
            seq![CandidateKind::ColorContrast]
        } else {
            seq![]
        })
    }

    /// The candidates that the scene justifies, in the order in which they are tried.
    pub fn kinds(&self) -> (kinds: Vec<CandidateKind>)
        ensures
            kinds@ == self.spec_kinds(),
    {
        let mut kinds: Vec<CandidateKind> = Vec::new();
        kinds.push(CandidateKind::Baseline);
        if self.luma_range < LOW_CONTRAST_RANGE {
            kinds.push(CandidateKind::LocalContrast);
        }
        if self.busy {
            kinds.push(CandidateKind::OppositePolarity);
        }
        let limit: u16 = if self.luma_range as u16 + 20 > 255 {
            255
        } else {
            self.luma_range as u16 + 20
        };
        if !self.chroma.below(COLORFUL_CHROMA) || self.channel_range as u16 > limit {
            kinds.push(CandidateKind::ColorContrast);
        }
        assert(kinds@ =~= self.spec_kinds());
        kinds
    }

    /// The luminance says nearly nothing while a channel says much.
    pub open spec fn is_isoluminant(self) -> bool {
        self.luma_range < 40 && self.channel_range > saturating(self.luma_range, 32)
    }

    /// The projection that the colour candidate starts from.
    pub fn color_source(&self) -> (source: ColorSource)
        ensures
            source == if self.is_isoluminant() {
                ColorSource::Principal
            } else {
                ColorSource::MaxChannel
            },
    {
        if self.luma_range < 40 && self.channel_range as u16 > self.luma_range as u16 + 32 {
            ColorSource::Principal
        } else {
            ColorSource::MaxChannel
        }
    }

    /// `out` is the candidate of the given kind. `principal` is the projection onto the
    /// principal colour, which an isoluminant scene starts from.
    pub open spec fn is_candidate(self, kind: CandidateKind, principal: Gray, out: Rgb8) -> bool {
        match kind {
            CandidateKind::Baseline => if self.busy {
                is_busy_candidate(self.oriented, self.factor as int, out)
            } else {
                is_clean_candidate(self.oriented, self.factor as int, out)
            },
            CandidateKind::LocalContrast => is_local_candidate(
                self.original,
                self.factor as int,
                out,
            ),
            CandidateKind::OppositePolarity => exists|opposite: Gray|
                opposite.width == self.oriented.width && opposite.height == self.oriented.height
                    && opposite.data@ == negative(self.oriented.data@)
                    && #[trigger] is_busy_candidate(opposite, self.factor as int, out),
            CandidateKind::ColorContrast => if self.is_isoluminant() {
                is_local_candidate(principal, self.factor as int, out)
            } else {
                exists|bright: Gray|
                    maps_pixels(
                        *self.source,
                        bright,
                        |r: u8, g: u8, b: u8| brighter(brighter(r, g), b),
                    ) && #[trigger] is_local_candidate(bright, self.factor as int, out)
            },
        }
    }

    /// Renders a candidate. Recognition often accepts the baseline, so the others are rendered
    /// only when it asks for them.
    pub fn render(&self, kind: CandidateKind, principal: &Gray) -> (out: Rgb8)
        requires
            self.wf(),
            kind == CandidateKind::ColorContrast && self.is_isoluminant() ==> principal.wf()
                && principal.width == self.source.width && principal.height == self.source.height,
        ensures
            out.wf(),
            self.is_candidate(kind, *principal, out),
    {
        match kind {
            CandidateKind::Baseline => baseline_candidate(&self.oriented, self.factor, self.busy),
            CandidateKind::LocalContrast => local_contrast_candidate(&self.original, self.factor),
            CandidateKind::OppositePolarity => {
                let mut opposite = self.oriented.copy();
                invert(&mut opposite);
                busy_candidate(&opposite, self.factor)
            },
            CandidateKind::ColorContrast => {
                match self.color_source() {
                    ColorSource::Principal => local_contrast_candidate(principal, self.factor),
                    ColorSource::MaxChannel => {
                        let bright = max_channel(self.source);
                        local_contrast_candidate(&bright, self.factor)
                    },
                }
            },
        }
    }
}

/// The whole preparation at once: the baseline of the plan. An image without pixels is returned
/// as it is.
pub fn prepare(image: &Rgb8, upscale_factor: u32) -> (out: Rgb8)
    requires
        image.wf(),
        enlargeable(
            image.width as int,
            image.height as int,
            if upscale_factor < UNIT_SCALE {
                UNIT_SCALE as int
            } else {
                upscale_factor as int
            },
        ),
    ensures
        out.wf(),
        image.area() == 0 ==> out.width == image.width && out.height == image.height && out.data@
            == image.data@,
        image.area() > 0 ==> exists|gray: Gray, light: Gray| #[trigger]
            is_gray_of(*image, gray) && #[trigger] is_oriented(gray, light) && {
                let factor = if upscale_factor < UNIT_SCALE {
                    UNIT_SCALE as int
                } else {
                    upscale_factor as int
                };
                if is_busy(light) {
                    is_busy_candidate(light, factor, out)
                } else {
                    is_clean_candidate(light, factor, out)
                }
            },
{
    let gray = to_gray(image);
    if gray.is_empty() {
        proof {
            assert(image.width * image.height == 0) by (nonlinear_arith)
                requires
                    image.width == 0 || image.height == 0,
            ;
        }
        return image.copy();
    }
    proof {
        assert(0 < gray.width * gray.height) by (nonlinear_arith)
            requires
                0 < gray.width,
                0 < gray.height,
        ;
    }
    let light = orient(&gray);
    let factor: u32 = if upscale_factor < UNIT_SCALE {
        UNIT_SCALE
    } else {
        upscale_factor
    };
    let busy: bool = busy(&light);
    baseline_candidate(&light, factor, busy)
}

/// Black and white keep the order of the shades: no pixel comes out below one that was darker. Each
/// is black or white. If there are two shades at all, the darkest pixel comes out black and the
/// brightest white.
pub proof fn binarising_keeps_the_order(gray: Gray, out: Rgb8, i: int, j: int, c: int)
    requires
        call_ensures(binarise, (gray,), out),
        0 <= i < gray.data@.len(),
        0 <= j < gray.data@.len(),
        0 <= c < 3,
    ensures
        out.width == gray.width && out.height == gray.height,
        out.data@.len() == 3 * gray.data@.len(),
        out.data@[3 * i + c] == 0 || out.data@[3 * i + c] == 255,
        out.data@[3 * i] == out.data@[3 * i + 1] == out.data@[3 * i + 2],
        gray.data@[i] <= gray.data@[j] ==> out.data@[3 * i + c] <= out.data@[3 * j + c],
        gray.data@[i] < gray.data@[j] && (forall|k: int|
            0 <= k < gray.data@.len() ==> gray.data@[i] <= #[trigger] gray.data@[k]
                <= gray.data@[j]) ==> out.data@[3 * i + c] == 0 && out.data@[3 * j + c] == 255,
{
    let data = gray.data@;
    let cut = choose|cut: u8| #[trigger]
        is_cut(data, cut) && exists|b: Gray| #[trigger]
            is_rgb_of(b, out) && b.width == gray.width && b.height == gray.height && b.data@
                == data.map_values(
                |v: u8|
                    if v > cut {
                        255u8
                    } else {
                        0u8
                    },
            );
    let b = choose|b: Gray| #[trigger]
        is_rgb_of(b, out) && b.width == gray.width && b.height == gray.height && b.data@
            == data.map_values(
            |v: u8|
                if v > cut {
                    255u8
                } else {
                    0u8
                },
        );
    assert(out.channel(i, 0) == b.data@[i]);
    assert(out.channel(j, 0) == b.data@[j]);
    assert(out.data@[3 * i] == out.channel(i, 0) && out.data@[3 * j] == out.channel(j, 0));
    assert(out.data@[3 * i + 1] == out.channel(i, 1) && out.data@[3 * j + 1] == out.channel(j, 1));
    assert(out.data@[3 * i + 2] == out.channel(i, 2) && out.data@[3 * j + 2] == out.channel(j, 2));
    if data[i] < data[j] && (forall|k: int|
        0 <= k < data.len() ==> data[i] <= #[trigger] data[k] <= data[j]) {
        let v = data[i] as int;
        crate::tone::darker_pixels_are_counted(data, v + 1);
        assert(data[i] < v + 1 && data[j] >= v + 1);
        assert(crate::otsu::splits(data, v));
        crate::tone::darker_pixels_are_counted(data, cut + 1);
        let low = choose|k: int| 0 <= k < data.len() && #[trigger] data[k] < cut + 1;
        let high = choose|k: int| 0 <= k < data.len() && #[trigger] data[k] >= cut + 1;
        assert(data[i] <= data[low] && data[high] <= data[j]);
    }
}

/// A gray pixel keeps its shade, a colored one gets a shade between its darkest and its brightest
/// channel, and a pixel that is no darker in any channel gets no darker shade. Green counts more than
/// red, and red more than blue.
pub proof fn luma_follows_the_channels(image: &Rgb8, out: Gray, i: int, j: int)
    requires
        call_ensures(to_gray, (image,), out),
        0 <= i < image.area(),
        0 <= j < image.area(),
    ensures
        out.width == image.width && out.height == image.height,
        out.data@.len() == image.width * image.height,
        ({
            let (r, g, b) = (image.data@[3 * i], image.data@[3 * i + 1], image.data@[3 * i + 2]);
            let (s, h, c) = (image.data@[3 * j], image.data@[3 * j + 1], image.data@[3 * j + 2]);
            let (v, w) = (out.data@[i], out.data@[j]);
            &&& r == g && g == b ==> v == r
            &&& r <= v || g <= v || b <= v
            &&& v <= r || v <= g || v <= b
            &&& r <= s && g <= h && b <= c ==> v <= w
            &&& r == h && g == s && b == c && r <= g ==> w <= v
            &&& r == c && g == h && b == s && b <= r ==> w <= v
            &&& -500 <= 1000 * v - (299 * r + 587 * g + 114 * b) <= 500
        }),
{
    assert(image.channel(i, 0) == image.data@[3 * i] && image.channel(j, 0) == image.data@[3 * j]);
    assert(image.channel(i, 1) == image.data@[3 * i + 1]);
    assert(image.channel(j, 1) == image.data@[3 * j + 1]);
    assert(image.channel(i, 2) == image.data@[3 * i + 2]);
    assert(image.channel(j, 2) == image.data@[3 * j + 2]);
}

/// The brightest channel of a pixel is one of its channels, and none is brighter.
pub proof fn no_channel_is_brighter(image: &Rgb8, out: Gray, i: int)
    requires
        call_ensures(max_channel, (image,), out),
        0 <= i < image.area(),
    ensures
        out.width == image.width && out.height == image.height,
        ({
            let (r, g, b) = (image.data@[3 * i], image.data@[3 * i + 1], image.data@[3 * i + 2]);
            let v = out.data@[i];
            &&& v >= r && v >= g && v >= b
            &&& v == r || v == g || v == b
        }),
{
    assert(image.channel(i, 0) == image.data@[3 * i]);
    assert(image.channel(i, 1) == image.data@[3 * i + 1]);
    assert(image.channel(i, 2) == image.data@[3 * i + 2]);
}

/// The strongest range is that of one of the channels, and no channel has a larger one.
pub proof fn no_channel_has_a_larger_range(
    image: &Rgb8,
    range: u8,
    red: &Gray,
    green: &Gray,
    blue: &Gray,
    r: u8,
    g: u8,
    b: u8,
)
    requires
        call_ensures(strongest_channel_range, (image,), range),
        call_ensures(robust_range, (red,), r),
        call_ensures(robust_range, (green,), g),
        call_ensures(robust_range, (blue,), b),
        red.data@.len() == image.area(),
        green.data@.len() == image.area(),
        blue.data@.len() == image.area(),
        forall|i: int| 0 <= i < image.area() ==> #[trigger] red.data@[i] == image.data@[3 * i],
        forall|i: int|
            0 <= i < image.area() ==> #[trigger] green.data@[i] == image.data@[3 * i + 1],
        forall|i: int|
            0 <= i < image.area() ==> #[trigger] blue.data@[i] == image.data@[3 * i + 2],
    ensures
        range >= r && range >= g && range >= b,
        range == r || range == g || range == b,
{
    assert(red.data@ =~= channel_data(*image, 0));
    assert(green.data@ =~= channel_data(*image, 1));
    assert(blue.data@ =~= channel_data(*image, 2));
    let (p, q, s) = choose|p: int, q: int, s: int|
        #![trigger is_robust_range(channel_data(*image, 0), p), is_robust_range(channel_data(*image, 1), q), is_robust_range(channel_data(*image, 2), s)]
        is_robust_range(channel_data(*image, 0), p) && is_robust_range(channel_data(*image, 1), q)
            && is_robust_range(channel_data(*image, 2), s) && range == if p >= q && p >= s {
            p
        } else if q >= s {
            q
        } else {
            s
        };
    the_range_is_unique(red.data@, p, r as int);
    the_range_is_unique(green.data@, q, g as int);
    the_range_is_unique(blue.data@, s, b as int);
}

proof fn chroma_sum_between(image: Rgb8, n: int, low: int, high: int)
    requires
        0 <= n <= image.area(),
        forall|i: int, c: int, d: int|
            0 <= i < image.area() && 0 <= c < 3 && 0 <= d < 3 ==> #[trigger] image.channel(i, c)
                - #[trigger] image.channel(i, d) <= high,
        forall|i: int|
            0 <= i < image.area() ==> {
                let (r, g, b) = (#[trigger] image.channel(i, 0), image.channel(i, 1), image.channel(
                    i,
                    2,
                ));
                r - g >= low || g - r >= low || r - b >= low || b - r >= low || g - b >= low || b - g
                    >= low
            },
    ensures
        low * n <= chroma_sum(image, n) <= high * n,
    decreases n,
{
    if n > 0 {
        chroma_sum_between(image, n - 1, low, high);
        let i = n - 1;
        let (r, g, b) = (image.channel(i, 0), image.channel(i, 1), image.channel(i, 2));
        assert(r - g <= high && r - b <= high && g - r <= high && g - b <= high && b - r <= high && b
            - g <= high && r - r <= high);
        assert(low <= chroma(r, g, b) <= high);
        assert(low * (n - 1) + low == low * n && high * (n - 1) + high == high * n)
            by (nonlinear_arith);
    }
}

/// The mean of the colorfulness lies between the least and the largest distance of two channels of
/// a pixel. A gray picture has none.
pub proof fn chroma_is_the_distance_of_channels(image: &Rgb8, mean: Mean, low: int, high: int)
    requires
        call_ensures(mean_chroma, (image,), mean),
        forall|i: int, c: int, d: int|
            0 <= i < image.area() && 0 <= c < 3 && 0 <= d < 3 ==> #[trigger] image.channel(i, c)
                - #[trigger] image.channel(i, d) <= high,
        forall|i: int|
            0 <= i < image.area() ==> {
                let (r, g, b) = (#[trigger] image.channel(i, 0), image.channel(i, 1), image.channel(
                    i,
                    2,
                ));
                r - g >= low || g - r >= low || r - b >= low || b - r >= low || g - b >= low || b - g
                    >= low
            },
    ensures
        mean.count == image.area(),
        low * mean.count <= mean.total <= high * mean.count,
{
    chroma_sum_between(*image, image.area() as int, low, high);
}

proof fn sums_of_negatives(data: Seq<u8>)
    ensures
        total_sum(negative(data)) + total_sum(data) == 255 * data.len(),
    decreases data.len(),
{
    if data.len() > 0 {
        sums_of_negatives(data.drop_last());
        assert(negative(data).drop_last() =~= negative(data.drop_last()));
    }
}

/// A picture is recognised on a light background: it is the picture in gray or its negative, and its
/// mean is not that of a dark theme.
pub proof fn a_dark_theme_is_inverted(
    image: &Rgb8,
    upscale_factor: u32,
    plan: Preparation,
    gray: Gray,
    before: Mean,
    after: Mean,
)
    requires
        image.wf(),
        call_ensures(Preparation::new, (image, upscale_factor), plan),
        call_ensures(to_gray, (image,), gray),
        call_ensures(mean_luminance, (&gray,), before),
        call_ensures(mean_luminance, (&plan.oriented,), after),
    ensures
        plan.original.data@ == gray.data@,
        before.total >= 112 * before.count && image.area() > 0 ==> plan.oriented.data@
            == gray.data@,
        before.total < 112 * before.count ==> forall|i: int|
            0 <= i < image.area() ==> #[trigger] plan.oriented.data@[i] == 255 - gray.data@[i],
        after.total >= 112 * after.count,
{
    assert(plan.original.data@ =~= gray.data@);
    sums_of_negatives(gray.data@);
    assert(total_sum(gray.data@) <= 255 * gray.data@.len()) by {
        crate::tone::darker_bounds(gray.data@, 256);
    }
}

/// The plan of a picture asks for the baseline first, and for each kind at most once: for the local
/// contrast where the shades are within 95 of each other, for the opposite polarity where the
/// background is busy, and for the color contrast where the colors are strong or a channel shows more
/// than the shades do.
pub proof fn kinds_follow_the_picture(plan: &Preparation, kinds: Vec<CandidateKind>)
    requires
        call_ensures(Preparation::kinds, (plan,), kinds),
    ensures
        kinds@.len() > 0,
        kinds@[0] is Baseline,
        kinds@.no_duplicates(),
        kinds@.contains(CandidateKind::LocalContrast) <==> plan.luma_range < 96,
        kinds@.contains(CandidateKind::OppositePolarity) <==> plan.busy,
        plan.chroma.count > 0 ==> (kinds@.contains(CandidateKind::ColorContrast) <==> plan.chroma.total
            >= 12 * plan.chroma.count || (plan.channel_range > plan.luma_range + 20
            && plan.luma_range < 235)),
{
    let base = seq![CandidateKind::Baseline];
    let local = if plan.luma_range < 96 {
        base.push(CandidateKind::LocalContrast)
    } else {
        base
    };
    let opposite = if plan.busy {
        local.push(CandidateKind::OppositePolarity)
    } else {
        local
    };
    let all = if plan.is_colorful() {
        opposite.push(CandidateKind::ColorContrast)
    } else {
        opposite
    };
    assert(kinds@ =~= all);
    assert(plan.luma_range < 96 ==> all[1] == CandidateKind::LocalContrast);
    assert(plan.busy ==> all[local.len() as int] == CandidateKind::OppositePolarity);
    assert(plan.is_colorful() ==> all[opposite.len() as int] == CandidateKind::ColorContrast);
}

/// The colors are looked at along their main direction only where the shades hardly differ but a
/// channel does.
pub proof fn the_main_direction_is_for_equal_shades(plan: &Preparation, source: ColorSource)
    requires
        call_ensures(Preparation::color_source, (plan,), source),
    ensures
        source is Principal <==> plan.luma_range < 40 && plan.channel_range > plan.luma_range + 32,
{
}

/// Flattening never darkens a pixel unless its surroundings are black, and a picture of one shade
/// comes out white.
pub proof fn flattening_lightens(gray: &Gray, out: Gray, x: int, y: int, shade: u8)
    requires
        gray.wf(),
        call_ensures(flatten, (gray,), out),
        gray.inside(x, y),
    ensures
        out.width == gray.width && out.height == gray.height,
        out.at(x, y) >= gray.at(x, y),
        shade > 0 && (forall|i: int|
            0 <= i < gray.data@.len() ==> #[trigger] gray.data@[i] == shade) ==> out.at(x, y) == 255,
{
    let background = choose|background: Gray| #[trigger]
        closed(*gray, BACKGROUND_KERNEL as int, background) && out.wf() && out.width == gray.width
            && out.height == gray.height && forall|i: int|
            0 <= i < gray.data@.len() ==> #[trigger] out.data@[i] == quotient(
                gray.data@[i],
                background.data@[i],
            );
    crate::morph::closing_keeps_the_size(*gray, BACKGROUND_KERNEL as int, background);
    crate::morph::closing_never_darkens(*gray, BACKGROUND_KERNEL as int, background, x, y);
    let i = y * gray.width + x;
    crate::gray::pixel_bounds(x, y, gray.width as int, gray.height as int);
    assert(out.data@[i] == quotient(gray.data@[i], background.data@[i]));
    let (p, q) = (gray.data@[i] as int, background.data@[i] as int);
    if q > 0 {
        let n = p * 255 + q / 2;
        assert(n / q >= p && (p == q ==> n / q >= 255)) by (nonlinear_arith)
            requires
                0 < q <= 255,
                0 <= p,
                n == p * 255 + q / 2,
        ;
    }
    if shade > 0 && (forall|i: int|
        0 <= i < gray.data@.len() ==> #[trigger] gray.data@[i] == shade) {
        crate::morph::closing_keeps_a_flat_image(
            *gray,
            BACKGROUND_KERNEL as int,
            background,
            shade,
        );
    }
}

proof fn whole_scales_are_exact(length: int, k: int)
    requires
        0 < length,
        0 < k,
        length < 0x100_0000,
        k < 0x100_0000,
        length * k < 0x100_0000,
    ensures
        scaled(length, 1000 * k) == length * k,
{
    let (n, m) = (length as nat, k as nat);
    small_integers_are_exact(n);
    small_integers_are_exact(m);
    small_integers_are_exact(n * m);
    let o = one();
    vstd::arithmetic::power2::lemma_pow2_pos(149);
    let f = (1000 * m) as nat;
    assert(f * o * 1 == (m * o) * 1000) by (nonlinear_arith)
        requires
            f == 1000 * m,
    ;
    rounding_keeps_the_order(f * o, 1000, m * o, 1);
    rounding_keeps_the_order(m * o, 1, f * o, 1000);
    assert(fraction(f, 1000) == m * o);
    assert((n * o) * (m * o) * 1 == ((n * m) * o) * o) by (nonlinear_arith);
    rounding_keeps_the_order((n * o) * (m * o), o, (n * m) * o, 1);
    rounding_keeps_the_order((n * m) * o, 1, (n * o) * (m * o), o);
    let q = n * m;
    assert(q >= 1) by (nonlinear_arith)
        requires
            n >= 1,
            m >= 1,
            q == n * m,
    ;
    assert((2 * (q * o) + o) / (2 * o) == q) by (nonlinear_arith)
        requires
            o > 0,
    ;
}

/// A picture that is enlarged by a whole factor has as many times its width and its height.
pub proof fn a_whole_factor_multiplies_the_size(gray: &Gray, k: u32, out: Gray)
    requires
        call_ensures(upscale, (gray, (1000 * k) as u32), out),
        0 < k,
        1000 * k <= u32::MAX,
        0 < gray.width,
        0 < gray.height,
        gray.width * k < 0x100_0000,
        gray.height * k < 0x100_0000,
    ensures
        out.width == gray.width * k,
        out.height == gray.height * k,
        k == 1 ==> out.data@ == gray.data@,
{
    let (w, h, n) = (gray.width as int, gray.height as int, k as int);
    assert(w <= w * n && h <= h * n && n <= w * n) by (nonlinear_arith)
        requires
            n >= 1,
            w >= 1,
            h >= 1,
    ;
    whole_scales_are_exact(w, n);
    whole_scales_are_exact(h, n);
}

/// A baseline that is not enlarged is gray and keeps the order of the shades on a plain background;
/// on a busy one it is black and white. So is the opposite polarity.
pub proof fn a_baseline_keeps_the_order(
    plan: &Preparation,
    principal: &Gray,
    out: Rgb8,
    opposite: Rgb8,
    i: int,
    j: int,
)
    requires
        plan.wf(),
        plan.factor == 1000,
        call_ensures(Preparation::render, (plan, CandidateKind::Baseline, principal), out),
        call_ensures(
            Preparation::render,
            (plan, CandidateKind::OppositePolarity, principal),
            opposite,
        ),
        0 <= i < plan.oriented.data@.len(),
        0 <= j < plan.oriented.data@.len(),
    ensures
        out.data@[3 * i] == out.data@[3 * i + 1] && out.data@[3 * i] == out.data@[3 * i + 2],
        !plan.busy && plan.oriented.data@[i] <= plan.oriented.data@[j] ==> out.data@[3 * i]
            <= out.data@[3 * j],
        plan.busy ==> out.data@[3 * i] == 0 || out.data@[3 * i] == 255,
        opposite.data@[3 * i] == 0 || opposite.data@[3 * i] == 255,
        out.width == plan.source.width && out.height == plan.source.height,
{
    let light = plan.oriented;
    if plan.busy {
        let (flat, large) = choose|flat: Gray, large: Gray| #[trigger]
            is_flattened(light, flat) && #[trigger] is_enlarged(flat, 1000, large) && is_binarised(
                large,
                out,
            );
        black_or_white(large, out, i);
    } else {
        clean_keeps_the_order(light, out, i, j);
    }
    let turned = choose|turned: Gray|
        turned.width == light.width && turned.height == light.height && turned.data@ == negative(
            light.data@,
        ) && #[trigger] is_busy_candidate(turned, 1000, opposite);
    let (flat, large) = choose|flat: Gray, large: Gray| #[trigger]
        is_flattened(turned, flat) && #[trigger] is_enlarged(flat, 1000, large) && is_binarised(
            large,
            opposite,
        );
    black_or_white(large, opposite, i);
}

proof fn black_or_white(gray: Gray, out: Rgb8, i: int)
    requires
        is_binarised(gray, out),
        0 <= i < gray.data@.len(),
    ensures
        out.data@[3 * i] == 0 || out.data@[3 * i] == 255,
        out.data@[3 * i] == out.data@[3 * i + 1] && out.data@[3 * i] == out.data@[3 * i + 2],
{
    let cut = choose|cut: u8| #[trigger]
        is_cut(gray.data@, cut) && exists|b: Gray| #[trigger]
            is_rgb_of(b, out) && b.width == gray.width && b.height == gray.height && b.data@
                == gray.data@.map_values(
                |v: u8|
                    if v > cut {
                        255u8
                    } else {
                        0u8
                    },
            );
    let b = choose|b: Gray| #[trigger]
        is_rgb_of(b, out) && b.width == gray.width && b.height == gray.height && b.data@
            == gray.data@.map_values(
            |v: u8|
                if v > cut {
                    255u8
                } else {
                    0u8
                },
        );
    assert(out.channel(i, 0) == b.data@[i]);
    assert(out.data@[3 * i] == out.channel(i, 0));
    assert(out.data@[3 * i + 1] == out.channel(i, 1));
    assert(out.data@[3 * i + 2] == out.channel(i, 2));
}

proof fn clean_keeps_the_order(gray: Gray, out: Rgb8, i: int, j: int)
    requires
        is_clean_candidate(gray, 1000, out),
        0 <= i < gray.data@.len(),
        0 <= j < gray.data@.len(),
    ensures
        gray.data@[i] <= gray.data@[j] ==> out.data@[3 * i] <= out.data@[3 * j],
        out.data@[3 * i] == out.data@[3 * i + 1] && out.data@[3 * i] == out.data@[3 * i + 2],
        out.width == gray.width && out.height == gray.height,
{
    let (stretched, large) = choose|stretched: Gray, large: Gray|
        is_autocontrast(gray.data@, 1, stretched.data@) && stretched.width == gray.width
            && stretched.height == gray.height && #[trigger] is_enlarged(stretched, 1000, large)
            && is_rgb_of(large, out);
    crate::tone::contrast_keeps_the_order(gray.data@, 1, stretched.data@, i, i);
    if gray.data@[i] <= gray.data@[j] {
        crate::tone::contrast_keeps_the_order(gray.data@, 1, stretched.data@, i, j);
    }
    assert(out.channel(i, 0) == large.data@[i] && out.channel(j, 0) == large.data@[j]);
    assert(out.data@[3 * i] == out.channel(i, 0) && out.data@[3 * j] == out.channel(j, 0));
    assert(out.data@[3 * i + 1] == out.channel(i, 1));
    assert(out.data@[3 * i + 2] == out.channel(i, 2));
}

/// A picture that is prepared without being enlarged comes out dark on light: where it was light, the
/// order of its shades is kept, where it was a dark theme it is turned around, and on a busy
/// background it is black and white.
pub proof fn a_prepared_picture_is_dark_on_light(
    image: &Rgb8,
    upscale_factor: u32,
    out: Rgb8,
    gray: Gray,
    mean: Mean,
    busy: bool,
    i: int,
    j: int,
)
    requires
        image.wf(),
        upscale_factor <= 1000,
        call_ensures(prepare, (image, upscale_factor), out),
        call_ensures(to_gray, (image,), gray),
        call_ensures(mean_luminance, (&gray,), mean),
        call_ensures(is_busy_background, (image,), busy),
        0 <= i < image.area(),
        0 <= j < image.area(),
    ensures
        out.data@[3 * i] == out.data@[3 * i + 1] && out.data@[3 * i] == out.data@[3 * i + 2],
        busy ==> out.data@[3 * i] == 0 || out.data@[3 * i] == 255,
        !busy && mean.total >= 112 * mean.count && gray.data@[i] <= gray.data@[j]
            ==> out.data@[3 * i] <= out.data@[3 * j],
        !busy && mean.total < 112 * mean.count && gray.data@[i] <= gray.data@[j]
            ==> out.data@[3 * i] >= out.data@[3 * j],
{
    let (g, light) = choose|g: Gray, light: Gray| #[trigger]
        is_gray_of(*image, g) && #[trigger] is_oriented(g, light) && {
            if is_busy(light) {
                is_busy_candidate(light, 1000, out)
            } else {
                is_clean_candidate(light, 1000, out)
            }
        };
    let (h, other) = choose|h: Gray, other: Gray| #[trigger]
        is_gray_of(*image, h) && #[trigger] is_oriented(h, other) && busy == is_busy(other);
    assert(g.data@ =~= gray.data@);
    assert(h.data@ =~= gray.data@);
    assert(other.data@ == light.data@);
    busyness_is_of_the_data(light, other);
    if is_busy(light) {
        let (flat, large) = choose|flat: Gray, large: Gray| #[trigger]
            is_flattened(light, flat) && #[trigger] is_enlarged(flat, 1000, large) && is_binarised(
                large,
                out,
            );
        black_or_white(large, out, i);
    } else {
        clean_keeps_the_order(light, out, i, j);
        clean_keeps_the_order(light, out, j, i);
    }
}

proof fn busyness_is_of_the_data(a: Gray, b: Gray)
    requires
        a.same(b),
    ensures
        is_busy(a) == is_busy(b),
{
    if is_busy(a) {
        let s = choose|s: Spread| #[trigger]
            is_busyness(a, s) && s.is_above(BUSY_THRESHOLD as int);
        busyness_is_the_same(a, b, s);
    }
    if is_busy(b) {
        let s = choose|s: Spread| #[trigger]
            is_busyness(b, s) && s.is_above(BUSY_THRESHOLD as int);
        busyness_is_the_same(b, a, s);
    }
}

proof fn busyness_is_the_same(a: Gray, b: Gray, s: Spread)
    requires
        a.same(b),
        is_busyness(a, s),
    ensures
        is_busyness(b, s),
{
    if a.data@.len() > 0 {
        let c = choose|c: Gray| #[trigger]
            closed(a, BUSYNESS_KERNEL as int, c) && s.of(c.data@);
        same_is_closed_alike(a, b, c);
    }
}

proof fn same_is_closed_alike(a: Gray, b: Gray, c: Gray)
    requires
        a.same(b),
        closed(a, BUSYNESS_KERNEL as int, c),
    ensures
        closed(b, BUSYNESS_KERNEL as int, c),
{
    let size = BUSYNESS_KERNEL as int;
    let d = choose|d: Gray| #[trigger]
        crate::morph::morphed(a, size, true, d) && crate::morph::morphed(d, size, false, c);
    assert(crate::morph::morphed(b, size, true, d)) by {
        assert forall|x: int, y: int| b.inside(x, y) implies crate::morph::extreme_at(
            b,
            size,
            true,
            x,
            y,
            #[trigger] d.at(x, y),
        ) by {
            assert(a.inside(x, y));
            let v = d.at(x, y);
            assert(crate::morph::extreme_at(a, size, true, x, y, v));
            assert forall|sx: int, sy: int| #[trigger]
                crate::morph::reaches(b, size, x, y, sx, sy) implies crate::morph::beats(
                true,
                v,
                b.at(sx, sy),
            ) by {
                assert(crate::morph::reaches(a, size, x, y, sx, sy));
                assert(a.at(sx, sy) == b.at(sx, sy));
            }
            let (sx, sy) = choose|sx: int, sy: int| #[trigger]
                crate::morph::reaches(a, size, x, y, sx, sy) && v == a.at(sx, sy);
            assert(crate::morph::reaches(b, size, x, y, sx, sy) && v == b.at(sx, sy));
        }
    }
}

/// The background comes out light: the picture is left or turned into its negative, and turned exactly
/// if at least half of its border is darker than the middle gray.
pub proof fn a_dark_border_is_turned(gray: &mut Gray, i: int)
    requires
        old(gray).wf(),
        call_ensures(orient_background_light, (gray,), ()),
        0 <= i < old(gray).data@.len(),
    ensures
        (forall|k: int| 0 <= k < old(gray).data@.len() ==> #[trigger] old(gray).data@[k] < 128)
            ==> final(gray).data@[i] == 255 - old(gray).data@[i],
        (forall|k: int| 0 <= k < old(gray).data@.len() ==> #[trigger] old(gray).data@[k] >= 128)
            ==> final(gray).data@[i] == old(gray).data@[i],
        final(gray).data@ == old(gray).data@ || forall|k: int|
            0 <= k < old(gray).data@.len() ==> #[trigger] final(gray).data@[k] == 255 - old(
                gray,
            ).data@[k],
{
    let g = *old(gray);
    let n = g.data@.len() as int;
    if forall|k: int| 0 <= k < n ==> #[trigger] g.data@[k] < 128 {
        border_counts(g, n);
    }
    if forall|k: int| 0 <= k < n ==> #[trigger] g.data@[k] >= 128 {
        border_counts(g, n);
        a_border_exists(g);
        border_grows(g, 256, 1, n);
    }
}

proof fn border_grows(gray: Gray, limit: int, m: int, n: int)
    requires
        m <= n,
    ensures
        border_darker(gray, limit, m) <= border_darker(gray, limit, n),
    decreases n - m,
{
    if m < n && n > 0 {
        border_grows(gray, limit, m, n - 1);
    }
}

proof fn a_border_exists(gray: Gray)
    requires
        gray.wf(),
        gray.data@.len() > 0,
    ensures
        border_darker(gray, 256, 1) == 1,
{
    let (w, h) = (gray.width as int, gray.height as int);
    pixel_of_index(0, w, h);
    assert(0int % w == 0 && 0int / w == 0) by (nonlinear_arith)
        requires
            w > 0,
    ;
    assert(in_border(gray, 0));
    assert(border_darker(gray, 256, 0) == 0);
}

proof fn border_counts(gray: Gray, n: int)
    requires
        0 <= n <= gray.data@.len(),
    ensures
        (forall|k: int| 0 <= k < gray.data@.len() ==> #[trigger] gray.data@[k] < 128)
            ==> border_darker(gray, 128, n) == border_darker(gray, 256, n),
        (forall|k: int| 0 <= k < gray.data@.len() ==> #[trigger] gray.data@[k] >= 128)
            ==> border_darker(gray, 128, n) == 0,
    decreases n,
{
    if n > 0 {
        border_counts(gray, n - 1);
        assert(gray.data@[n - 1] <= 255);
    }
}

proof fn all_alike_do_not_spread(data: Seq<u8>, shade: u8)
    requires
        forall|i: int| 0 <= i < data.len() ==> #[trigger] data[i] == shade,
    ensures
        total_sum(data) == shade * data.len(),
        crate::otsu::square_sum(data) == (shade * shade) * data.len(),
    decreases data.len(),
{
    let n = data.len() as int;
    if n > 0 {
        let front = data.drop_last();
        assert forall|i: int| 0 <= i < front.len() implies #[trigger] front[i] == shade by {
            assert(front[i] == data[i]);
        }
        all_alike_do_not_spread(front, shade);
        assert(data[n - 1] == shade);
        let (v, w) = (shade as int, shade * shade);
        assert(v * (n - 1) + v == v * n && w * (n - 1) + w == w * n) by (nonlinear_arith);
    } else {
        let (v, w) = (shade as int, shade * shade);
        assert(v * 0 == 0 && w * 0 == 0);
    }
}

/// A picture of one color has no busy background.
pub proof fn one_color_is_not_busy(image: &Rgb8, busy: bool, red: u8, green: u8, blue: u8)
    requires
        image.wf(),
        image.area() > 0,
        call_ensures(is_busy_background, (image,), busy),
        forall|i: int|
            0 <= i < image.area() ==> #[trigger] image.channel(i, 0) == red && image.channel(i, 1)
                == green && image.channel(i, 2) == blue,
    ensures
        !busy,
{
    let (gray, light) = choose|gray: Gray, light: Gray| #[trigger]
        is_gray_of(*image, gray) && #[trigger] is_oriented(gray, light) && busy == is_busy(light);
    let n = image.area() as int;
    let shade = light.data@[0];
    assert forall|i: int| 0 <= i < gray.data@.len() implies gray.data@[i] == luma_of(
        red,
        green,
        blue,
    ) by {
        assert(image.channel(i, 0) == red);
    }
    assert forall|i: int| 0 <= i < light.data@.len() implies #[trigger] light.data@[i] == shade by {
        assert(gray.data@[i] == gray.data@[0]);
    }
    if busy {
        let s = choose|s: Spread| #[trigger]
            is_busyness(light, s) && s.is_above(BUSY_THRESHOLD as int);
        let c = choose|c: Gray| #[trigger]
            closed(light, BUSYNESS_KERNEL as int, c) && s.of(c.data@);
        crate::morph::closing_keeps_a_flat_image(light, BUSYNESS_KERNEL as int, c, shade);
        all_alike_do_not_spread(c.data@, shade);
        let (k, v) = (c.data@.len() as int, shade as int);
        assert(k * ((v * v) * k) - (v * k) * (v * k) == 0) by (nonlinear_arith);
        assert((3 * k) * (3 * k) >= 0) by (nonlinear_arith);
    }
}

/// A light picture keeps the order of its shades in a corner when its contrast is evened out there,
/// and a dark one has it turned around.
pub proof fn local_contrast_keeps_a_light_picture(
    gray: &Gray,
    factor: u32,
    out: Rgb8,
    x: int,
    y: int,
    sx: int,
    sy: int,
)
    requires
        gray.wf(),
        factor <= 1000,
        call_ensures(local_contrast_candidate, (gray, factor), out),
        gray.width >= 8,
        gray.height >= 8,
        0 <= x && 8 * (2 * x + 1) <= gray.width,
        0 <= y && 8 * (2 * y + 1) <= gray.height,
        0 <= sx && 8 * (2 * sx + 1) <= gray.width,
        0 <= sy && 8 * (2 * sy + 1) <= gray.height,
        gray.at(x, y) <= gray.at(sx, sy),
    ensures
        (forall|k: int| 0 <= k < gray.data@.len() ==> #[trigger] gray.data@[k] >= 128)
            ==> out.data@[3 * (y * gray.width + x)] <= out.data@[3 * (sy * gray.width + sx)],
        (forall|k: int| 0 <= k < gray.data@.len() ==> #[trigger] gray.data@[k] < 128)
            ==> out.data@[3 * (y * gray.width + x)] >= out.data@[3 * (sy * gray.width + sx)],
{
    let (even, large) = choose|even: Gray, large: Gray| #[trigger]
        is_locally_equalised(*gray, even) && #[trigger] is_enlarged(even, factor as int, large)
            && is_rgb_of(large, out);
    let light = choose|light: Gray|
        light.width == gray.width && light.height == gray.height && light.data@ == (
        if border_is_dark(*gray) {
            negative(gray.data@)
        } else {
            gray.data@
        }) && even.wf() && even.width == gray.width && even.height == gray.height && forall|
            x: int,
            y: int,
        |
            gray.inside(x, y) ==> #[trigger] even.at(x, y) == #[trigger] equalised(light, x, y);
    let (i, j) = (y * gray.width + x, sy * gray.width + sx);
    let n = gray.data@.len() as int;
    crate::gray::pixel_bounds(x, y, gray.width as int, gray.height as int);
    crate::gray::pixel_bounds(sx, sy, gray.width as int, gray.height as int);
    assert(out.channel(i, 0) == large.data@[i] && out.channel(j, 0) == large.data@[j]);
    assert(out.data@[3 * i] == out.channel(i, 0) && out.data@[3 * j] == out.channel(j, 0));
    assert(gray.inside(x, y) && gray.inside(sx, sy));
    border_counts(*gray, n);
    a_border_exists(*gray);
    border_grows(*gray, 256, 1, n);
    if forall|k: int| 0 <= k < n ==> #[trigger] gray.data@[k] >= 128 {
        assert(!border_is_dark(*gray));
        crate::clahe::equalised_in_order(light, x, y, sx, sy);
    }
    if forall|k: int| 0 <= k < n ==> #[trigger] gray.data@[k] < 128 {
        assert(border_is_dark(*gray));
        assert(light.at(sx, sy) == 255 - gray.at(sx, sy) && light.at(x, y) == 255 - gray.at(x, y));
        crate::clahe::equalised_in_order(light, sx, sy, x, y);
    }
    assert(even.at(x, y) == equalised(light, x, y));
    assert(even.at(sx, sy) == equalised(light, sx, sy));
}

} // verus!
