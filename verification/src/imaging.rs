//! Pictures in the layout that the drawing library takes: four bytes per pixel, blue first, rows
//! padded.

use vstd::prelude::*;

use crate::gray::{Rgb8, row_bounds};

verus! {

/// The place of a pixel in a padded buffer.
pub open spec fn place(x: int, y: int, stride: int) -> int {
    y * stride + x * 4
}

/// The place of byte `b` of a row in a padded buffer.
pub open spec fn byte_place(b: int, y: int, stride: int) -> int {
    y * stride + b
}

/// The buffer holds the picture: every pixel with its bytes reversed and opaque. What pads the
/// rows is zero.
pub open spec fn is_padded(data: Seq<u8>, image: Rgb8, stride: int) -> bool {
    &&& data.len() == image.height * stride
    &&& forall|b: int, y: int|
        image.width * 4 <= b < stride && 0 <= y < image.height ==> data[#[trigger] byte_place(
            b,
            y,
            stride,
        )] == 0
    &&& forall|x: int, y: int|
        0 <= x < image.width && 0 <= y < image.height ==> {
            let p = #[trigger] place(x, y, stride);
            let q = y * image.width + x;
            data[p] == image.channel(q, 2) && data[p + 1] == image.channel(q, 1) && data[p + 2]
                == image.channel(q, 0) && data[p + 3] == 255
        }
}

proof fn place_bounds(x: int, y: int, width: int, height: int, stride: int)
    requires
        0 <= x < width,
        0 <= y < height,
        width * 4 <= stride,
    ensures
        0 <= place(x, y, stride),
        place(x, y, stride) + 4 <= (y + 1) * stride,
        (y + 1) * stride <= height * stride,
        place(x, y, stride) + 4 <= height * stride,
{
    row_bounds(y, stride, height);
}

proof fn places_differ(x: int, y: int, u: int, v: int, width: int, stride: int)
    requires
        0 <= x < width,
        0 <= u < width,
        x != u || y != v,
        width * 4 <= stride,
    ensures
        place(x, y, stride) + 4 <= place(u, v, stride) || place(u, v, stride) + 4 <= place(
            x,
            y,
            stride,
        ),
{
    if y < v {
        assert((y + 1) * stride <= v * stride) by (nonlinear_arith)
            requires
                y + 1 <= v,
                stride > 0,
        ;
        assert((y + 1) * stride == y * stride + stride) by (nonlinear_arith);
    } else if v < y {
        assert((v + 1) * stride <= y * stride) by (nonlinear_arith)
            requires
                v + 1 <= y,
                stride > 0,
        ;
        assert((v + 1) * stride == v * stride + stride) by (nonlinear_arith);
    }
}

proof fn padding_lies_apart(x: int, y: int, b: int, v: int, width: int, height: int, stride: int)
    requires
        0 <= x < width,
        0 <= v < height,
        width * 4 <= b < stride,
    ensures
        0 <= byte_place(b, v, stride) < height * stride,
        !(place(x, y, stride) <= byte_place(b, v, stride) < place(x, y, stride) + 4),
{
    row_bounds(v, stride, height);
    if y < v {
        assert((y + 1) * stride <= v * stride) by (nonlinear_arith)
            requires
                y + 1 <= v,
                stride > 0,
        ;
        assert((y + 1) * stride == y * stride + stride) by (nonlinear_arith);
    } else if v < y {
        assert((v + 1) * stride <= y * stride) by (nonlinear_arith)
            requires
                v + 1 <= y,
                stride > 0,
        ;
        assert((v + 1) * stride == v * stride + stride) by (nonlinear_arith);
    }
}

/// The picture in the layout of the drawing library.
pub fn to_padded(image: &Rgb8, stride: usize) -> (data: Vec<u8>)
    requires
        image.wf(),
        image.width * 4 <= stride,
        image.height * stride <= usize::MAX,
    ensures
        is_padded(data@, *image, stride as int),
{
    let w: usize = image.width;
    let h: usize = image.height;
    let total: usize = image.data.len();
    let mut data: Vec<u8> = vec![0u8; h * stride];
    let mut y: usize = 0;
    proof {
        assert forall|b: int, v: int| w * 4 <= b < stride && 0 <= v < h implies data@[
        #[trigger] byte_place(b, v, stride as int)] == 0 by {
            row_bounds(v, stride as int, h as int);
        }
    }
    while y < h
        invariant
            image.wf(),
            w == image.width,
            h == image.height,
            total == image.data@.len(),
            w * 4 <= stride,
            h * stride <= usize::MAX,
            y <= h,
            data@.len() == h * stride,
            forall|b: int, v: int|
                w * 4 <= b < stride && 0 <= v < h ==> data@[#[trigger] byte_place(
                    b,
                    v,
                    stride as int,
                )] == 0,
            forall|u: int, v: int|
                0 <= u < w && 0 <= v < y ==> {
                    let p = #[trigger] place(u, v, stride as int);
                    let q = v * w + u;
                    data@[p] == image.channel(q, 2) && data@[p + 1] == image.channel(q, 1)
                        && data@[p + 2] == image.channel(q, 0) && data@[p + 3] == 255
                },
        decreases h - y,
    {
        let mut x: usize = 0;
        proof {
            row_bounds(y as int, stride as int, h as int);
            row_bounds(y as int, w as int, h as int);
        }
        while x < w
            invariant
                image.wf(),
                w == image.width,
                h == image.height,
                total == image.data@.len(),
                w * 4 <= stride,
                h * stride <= usize::MAX,
                y < h,
                x <= w,
                0 <= y * stride,
                (y + 1) * stride <= h * stride,
                0 <= y * w,
                (y + 1) * w <= w * h,
                y * w + w == (y + 1) * w,
                y * stride + stride == (y + 1) * stride,
                data@.len() == h * stride,
                forall|b: int, v: int|
                    w * 4 <= b < stride && 0 <= v < h ==> data@[#[trigger] byte_place(
                        b,
                        v,
                        stride as int,
                    )] == 0,
                forall|u: int, v: int|
                    0 <= u < w && 0 <= v && (v < y || (v == y && u < x)) ==> {
                        let p = #[trigger] place(u, v, stride as int);
                        let q = v * w + u;
                        data@[p] == image.channel(q, 2) && data@[p + 1] == image.channel(q, 1)
                            && data@[p + 2] == image.channel(q, 0) && data@[p + 3] == 255
                    },
            decreases w - x,
        {
            let ghost before = data@;
            let p: usize = y * stride + x * 4;
            assert((y * w + x) * 3 + 2 < total);
            let q: usize = (y * w + x) * 3;
            data.set(p, image.data[q + 2]);
            data.set(p + 1, image.data[q + 1]);
            data.set(p + 2, image.data[q]);
            data.set(p + 3, 255);
            proof {
                assert forall|b: int, v: int| w * 4 <= b < stride && 0 <= v < h implies data@[
                #[trigger] byte_place(b, v, stride as int)] == 0 by {
                    padding_lies_apart(
                        x as int,
                        y as int,
                        b,
                        v,
                        w as int,
                        h as int,
                        stride as int,
                    );
                }
                assert forall|u: int, v: int|
                    0 <= u < w && 0 <= v && (v < y || (v == y && u < x + 1)) implies {
                    let p = #[trigger] place(u, v, stride as int);
                    let q = v * w + u;
                    data@[p] == image.channel(q, 2) && data@[p + 1] == image.channel(q, 1)
                        && data@[p + 2] == image.channel(q, 0) && data@[p + 3] == 255
                } by {
                    if !(u == x && v == y) {
                        places_differ(u, v, x as int, y as int, w as int, stride as int);
                        place_bounds(u, v, w as int, h as int, stride as int);
                        let r = place(u, v, stride as int);
                        assert(data@[r] == before[r]);
                        assert(data@[r + 1] == before[r + 1]);
                        assert(data@[r + 2] == before[r + 2]);
                        assert(data@[r + 3] == before[r + 3]);
                    }
                }
            }
            x = x + 1;
        }
        y = y + 1;
    }
    data
}

/// One channel of a pixel over white. The channel already is dimmed by the opacity.
pub open spec fn over_white(channel: u8, alpha: u8) -> u8 {
    if alpha == 255 {
        channel
    } else if alpha == 0 {
        255
    } else if channel + (255 - alpha) > 255 {
        255
    } else {
        (channel + (255 - alpha)) as u8
    }
}

fn blend(channel: u8, alpha: u8) -> (r: u8)
    ensures
        r == over_white(channel, alpha),
{
    if alpha == 255 {
        channel
    } else if alpha == 0 {
        255
    } else {
        let sum: u32 = channel as u32 + (255 - alpha as u32);
        if sum > 255 {
            255
        } else {
            sum as u8
        }
    }
}

/// The picture shows the buffer, over white where it is not opaque.
pub open spec fn is_unpadded(image: Rgb8, data: Seq<u8>, stride: int) -> bool {
    forall|x: int, y: int|
        0 <= x < image.width && 0 <= y < image.height ==> {
            let p = #[trigger] place(x, y, stride);
            let q = y * image.width + x;
            image.channel(q, 0) == over_white(data[p + 2], data[p + 3]) && image.channel(q, 1)
                == over_white(data[p + 1], data[p + 3]) && image.channel(q, 2) == over_white(
                data[p],
                data[p + 3],
            )
        }
}

/// The picture in a buffer of the drawing library.
pub fn from_padded(width: usize, height: usize, stride: usize, data: &[u8]) -> (image: Rgb8)
    requires
        width * 4 <= stride,
        height * stride <= data@.len(),
    ensures
        image.wf(),
        image.width == width,
        image.height == height,
        is_unpadded(image, data@, stride as int),
{
    let total: usize = data.len();
    let mut out: Vec<u8> = Vec::new();
    let mut y: usize = 0;
    proof {
        assert(0 * width == 0);
    }
    while y < height
        invariant
            total == data@.len(),
            width * 4 <= stride,
            height * stride <= total,
            y <= height,
            out@.len() == y * width * 3,
            forall|u: int, v: int|
                0 <= u < width && 0 <= v < y ==> {
                    let p = #[trigger] place(u, v, stride as int);
                    let q = v * width + u;
                    out@[q * 3] == over_white(data@[p + 2], data@[p + 3]) && out@[q * 3 + 1]
                        == over_white(data@[p + 1], data@[p + 3]) && out@[q * 3 + 2] == over_white(
                        data@[p],
                        data@[p + 3],
                    )
                },
        decreases height - y,
    {
        proof {
            row_bounds(y as int, stride as int, height as int);
        }
        let mut x: usize = 0;
        while x < width
            invariant
                total == data@.len(),
                width * 4 <= stride,
                height * stride <= total,
                y < height,
                x <= width,
                0 <= y * stride,
                (y + 1) * stride <= height * stride,
                y * stride + stride == (y + 1) * stride,
                out@.len() == (y * width + x) * 3,
                forall|u: int, v: int|
                    0 <= u < width && 0 <= v && (v < y || (v == y && u < x)) ==> {
                        let p = #[trigger] place(u, v, stride as int);
                        let q = v * width + u;
                        out@[q * 3] == over_white(data@[p + 2], data@[p + 3]) && out@[q * 3 + 1]
                            == over_white(data@[p + 1], data@[p + 3]) && out@[q * 3 + 2]
                            == over_white(data@[p], data@[p + 3])
                    },
            decreases width - x,
        {
            let ghost before = out@;
            let p: usize = y * stride + x * 4;
            let alpha: u8 = data[p + 3];
            out.push(blend(data[p + 2], alpha));
            out.push(blend(data[p + 1], alpha));
            out.push(blend(data[p], alpha));
            proof {
                assert forall|u: int, v: int|
                    0 <= u < width && 0 <= v && (v < y || (v == y && u < x + 1)) implies {
                    let p = #[trigger] place(u, v, stride as int);
                    let q = v * width + u;
                    out@[q * 3] == over_white(data@[p + 2], data@[p + 3]) && out@[q * 3 + 1]
                        == over_white(data@[p + 1], data@[p + 3]) && out@[q * 3 + 2] == over_white(
                        data@[p],
                        data@[p + 3],
                    )
                } by {
                    if !(u == x && v == y) {
                        let q = v * width + u;
                        assert(0 <= q && q + 1 <= y * width + x) by (nonlinear_arith)
                            requires
                                0 <= u < width,
                                0 <= v,
                                v < y || (v == y && u < x),
                                q == v * width + u,
                                0 <= x,
                        ;
                        assert(out@[q * 3] == before[q * 3]);
                        assert(out@[q * 3 + 1] == before[q * 3 + 1]);
                        assert(out@[q * 3 + 2] == before[q * 3 + 2]);
                    }
                }
            }
            x = x + 1;
        }
        assert((y + 1) * width == y * width + width) by (nonlinear_arith);
        y = y + 1;
    }
    assert(height * width == width * height) by (nonlinear_arith);
    Rgb8 { width, height, data: out }
}

/// A picture that goes into the layout of the drawing library and comes back is the same.
pub proof fn a_round_trip_keeps_every_pixel(
    image: Rgb8,
    stride: int,
    data: Seq<u8>,
    restored: Rgb8,
)
    requires
        image.wf(),
        image.width * 4 <= stride,
        is_padded(data, image, stride),
        restored.wf(),
        restored.width == image.width,
        restored.height == image.height,
        is_unpadded(restored, data, stride),
    ensures
        restored.data@ == image.data@,
{
    let w = image.width as int;
    let h = image.height as int;
    assert forall|i: int| 0 <= i < image.data@.len() implies #[trigger] restored.data@[i]
        == image.data@[i] by {
        let q = i / 3;
        let c = i % 3;
        crate::gray::pixel_of_index(q, w, h);
        let x = q % w;
        let y = q / w;
        let p = place(x, y, stride);
        assert(y * w + x == q);
        assert(restored.channel(q, c) == image.channel(q, c));
    }
    assert(restored.data@ =~= image.data@);
}

/// In memory a pixel is a number of four bytes, lowest first: blue, green, red and full opacity. The
/// rest of a row is zero.
pub proof fn a_pixel_is_blue_green_red(image: &Rgb8, stride: usize, data: Vec<u8>, x: int, y: int)
    requires
        image.wf(),
        call_ensures(to_padded, (image, stride), data),
        0 <= x < image.width,
        0 <= y < image.height,
        image.width * 4 <= stride,
    ensures
        data@.len() == image.height * stride,
        ({
            let p = y * stride + 4 * x;
            let i = 3 * (y * image.width + x);
            &&& data@[p] == image.data@[i + 2]
            &&& data@[p + 1] == image.data@[i + 1]
            &&& data@[p + 2] == image.data@[i]
            &&& data@[p + 3] == 255
        }),
        forall|b: int|
            image.width * 4 <= b < stride ==> data@[#[trigger] byte_place(b, y, stride as int)]
                == 0,
{
    let q = y * image.width + x;
    assert(place(x, y, stride as int) == y * stride + 4 * x);
    assert(image.channel(q, 0) == image.data@[3 * q]);
    assert(image.channel(q, 1) == image.data@[3 * q + 1]);
    assert(image.channel(q, 2) == image.data@[3 * q + 2]);
}

/// An opaque pixel is read with its colors, a transparent one is white, and one in between lies on
/// white: it is no darker than its color, and the more opaque it is the less white it gets.
pub proof fn a_pixel_lies_on_white(
    width: usize,
    height: usize,
    stride: usize,
    data: &[u8],
    image: Rgb8,
    x: int,
    y: int,
)
    requires
        call_ensures(from_padded, (width, height, stride, data), image),
        0 <= x < width,
        0 <= y < height,
    ensures
        image.width == width && image.height == height,
        ({
            let p = y * stride + 4 * x;
            let i = 3 * (y * width + x);
            let alpha = data@[p + 3];
            let (r, g, b) = (image.data@[i], image.data@[i + 1], image.data@[i + 2]);
            &&& alpha == 255 ==> r == data@[p + 2] && g == data@[p + 1] && b == data@[p]
            &&& alpha == 0 ==> r == 255 && g == 255 && b == 255
            &&& r >= data@[p + 2] && g >= data@[p + 1] && b >= data@[p]
            &&& 0 < alpha && data@[p + 2] <= alpha ==> r == data@[p + 2] + 255 - alpha
            &&& 0 < alpha && data@[p + 1] <= alpha ==> g == data@[p + 1] + 255 - alpha
            &&& 0 < alpha && data@[p] <= alpha ==> b == data@[p] + 255 - alpha
        }),
{
    let q = y * width + x;
    assert(place(x, y, stride as int) == y * stride + 4 * x);
    assert(image.channel(q, 0) == image.data@[3 * q]);
    assert(image.channel(q, 1) == image.data@[3 * q + 1]);
    assert(image.channel(q, 2) == image.data@[3 * q + 2]);
}

} // verus!
