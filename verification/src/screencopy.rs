//! Frames as the compositor hands them over: which output they come from, what it may offer, and
//! how its bytes become a picture.

use vstd::prelude::*;

use crate::geom::Rect;
use crate::gray::{Rgb8, row_bounds};
use crate::text::owned;

verus! {

pub const FORMAT_ARGB8888: u32 = 0;

pub const FORMAT_XRGB8888: u32 = 1;

pub const FORMAT_ABGR8888: u32 = 0x3432_4241;

pub const FORMAT_XBGR8888: u32 = 0x3432_4258;

/// The first row of the frame is the lowest.
pub const FLAG_Y_INVERT: u32 = 1;

/// Why there is no frame.
#[derive(Debug)]
pub enum ScreencopyError {
    Unavailable(String),
    Failed(String),
    Timeout,
    Cancelled,
}

impl ScreencopyError {
    /// The message of the error.
    pub open spec fn message(self) -> Seq<char> {
        match self {
            ScreencopyError::Unavailable(detail) => detail@,
            ScreencopyError::Failed(detail) => detail@,
            ScreencopyError::Timeout => "Wayland screencopy timed out"@,
            ScreencopyError::Cancelled => "Wayland screencopy cancelled"@,
        }
    }

    /// The message of the error.
    pub fn to_string(&self) -> (s: String)
        ensures
            s@ == self.message(),
    {
        match self {
            ScreencopyError::Unavailable(detail) => detail.clone(),
            ScreencopyError::Failed(detail) => detail.clone(),
            ScreencopyError::Timeout => owned("Wayland screencopy timed out"),
            ScreencopyError::Cancelled => owned("Wayland screencopy cancelled"),
        }
    }
}

/// What is known of an output.
#[derive(Debug, Clone, Copy, PartialEq, Eq)]
pub struct OutputInfo {
    pub x: Option<i32>,
    pub y: Option<i32>,
    pub width: Option<i32>,
    pub height: Option<i32>,
    pub removed: bool,
}

impl OutputInfo {
    /// The place of the output, if all of it is known and the output is still there.
    pub open spec fn place(self) -> Option<Rect> {
        match (self.x, self.y, self.width, self.height) {
            (Some(x), Some(y), Some(w), Some(h)) => if !self.removed && w > 0 && h > 0 {
                Some(Rect { x, y, w, h })
            } else {
                None
            },
            _ => None,
        }
    }

    /// The place of the output, if all of it is known and the output is still there.
    pub fn logical_rect(&self) -> (r: Option<Rect>)
        ensures
            r == self.place(),
    {
        if self.removed {
            return None;
        }
        match (self.x, self.y, self.width, self.height) {
            (Some(x), Some(y), Some(w), Some(h)) => {
                let rect = Rect { x, y, w, h };
                if rect.valid() {
                    Some(rect)
                } else {
                    None
                }
            },
            _ => None,
        }
    }
}

/// The rectangle lies within the bounds, and both have an area.
pub open spec fn is_within(bounds: Rect, rect: Rect) -> bool {
    &&& bounds.has_area()
    &&& rect.has_area()
    &&& bounds.x <= rect.x
    &&& bounds.y <= rect.y
    &&& rect.x + rect.w <= bounds.x + bounds.w
    &&& rect.y + rect.h <= bounds.y + bounds.h
}

/// Whether the rectangle lies within the bounds.
pub fn contains(bounds: Rect, rect: Rect) -> (r: bool)
    ensures
        r == is_within(bounds, rect),
{
    if !bounds.valid() || !rect.valid() {
        return false;
    }
    rect.x >= bounds.x && rect.y >= bounds.y && rect.x as i64 + rect.w as i64 <= bounds.x as i64
        + bounds.w as i64 && rect.y as i64 + rect.h as i64 <= bounds.y as i64 + bounds.h as i64
}

/// The output shows the whole rectangle.
pub open spec fn shows_all(output: OutputInfo, rect: Rect) -> bool {
    output.place() is Some && is_within(output.place()->0, rect)
}

/// The size of an output that shows the rectangle.
pub open spec fn extent(output: OutputInfo) -> int {
    (output.place()->0).w * (output.place()->0).h
}

/// Which output frames are taken from: one that shows the whole rectangle, the smallest such, and
/// the first of those.
pub open spec fn is_choice(outputs: Seq<OutputInfo>, rect: Rect, chosen: Option<usize>) -> bool {
    match chosen {
        None => forall|i: int| 0 <= i < outputs.len() ==> !shows_all(#[trigger] outputs[i], rect),
        Some(k) => {
            &&& k < outputs.len()
            &&& shows_all(outputs[k as int], rect)
            &&& forall|i: int|
                0 <= i < outputs.len() && shows_all(#[trigger] outputs[i], rect) ==> extent(
                    outputs[k as int],
                ) <= extent(outputs[i])
            &&& forall|i: int|
                0 <= i < k && shows_all(#[trigger] outputs[i], rect) ==> extent(outputs[k as int])
                    < extent(outputs[i])
        },
    }
}

/// Chooses the output to take frames from.
pub fn select_output(outputs: &[OutputInfo], rect: Rect) -> (r: Option<usize>)
    ensures
        is_choice(outputs@, rect, r),
{
    let mut best: Option<usize> = None;
    let mut best_area: i64 = 0;
    let mut i: usize = 0;
    while i < outputs.len()
        invariant
            i <= outputs@.len(),
            match best {
                None => forall|j: int|
                    0 <= j < i ==> !shows_all(#[trigger] outputs@[j], rect),
                Some(k) => {
                    &&& k < i
                    &&& shows_all(outputs@[k as int], rect)
                    &&& best_area == extent(outputs@[k as int])
                    &&& forall|j: int|
                        0 <= j < i && shows_all(#[trigger] outputs@[j], rect) ==> best_area
                            <= extent(outputs@[j])
                    &&& forall|j: int|
                        0 <= j < k && shows_all(#[trigger] outputs@[j], rect) ==> best_area
                            < extent(outputs@[j])
                },
            },
        decreases outputs.len() - i,
    {
        match outputs[i].logical_rect() {
            Some(bounds) => {
                if contains(bounds, rect) {
                    assert(bounds.w * bounds.h <= 0x7fff_ffff * 0x7fff_ffff) by (nonlinear_arith)
                        requires
                            0 < bounds.w <= 0x7fff_ffff,
                            0 < bounds.h <= 0x7fff_ffff,
                    ;
                    assert(0 <= bounds.w * bounds.h) by (nonlinear_arith)
                        requires
                            0 < bounds.w,
                            0 < bounds.h,
                    ;
                    let area: i64 = bounds.w as i64 * bounds.h as i64;
                    let smaller: bool = match best {
                        None => true,
                        Some(_) => area < best_area,
                    };
                    if smaller {
                        best = Some(i);
                        best_area = area;
                    }
                }
            },
            None => {},
        }
        i = i + 1;
    }
    best
}

/// The rectangle in the coordinates of its output, or why it can no longer be taken from there.
pub fn local_rect(output: Option<OutputInfo>, rect: Rect) -> (r: Result<Rect, ScreencopyError>)
    ensures
        match output {
            None => r matches Err(ScreencopyError::Failed(m)) && m@ == "target output disappeared"@,
            Some(info) => if info.place() is None {
                r matches Err(ScreencopyError::Failed(m)) && m@
                    == "target output lost its logical geometry"@
            } else if !is_within(info.place()->0, rect) {
                r matches Err(ScreencopyError::Failed(m)) && m@
                    == "selected region moved outside its original output"@
            } else {
                r == Ok::<Rect, ScreencopyError>(
                    Rect {
                        x: (rect.x - (info.place()->0).x) as i32,
                        y: (rect.y - (info.place()->0).y) as i32,
                        w: rect.w,
                        h: rect.h,
                    },
                )
            },
        },
{
    let info: OutputInfo = match output {
        None => return Err(ScreencopyError::Failed(owned("target output disappeared"))),
        Some(info) => info,
    };
    let bounds: Rect = match info.logical_rect() {
        None => return Err(
            ScreencopyError::Failed(owned("target output lost its logical geometry")),
        ),
        Some(bounds) => bounds,
    };
    if !contains(bounds, rect) {
        return Err(
            ScreencopyError::Failed(owned("selected region moved outside its original output")),
        );
    }
    Ok(Rect { x: rect.x - bounds.x, y: rect.y - bounds.y, w: rect.w, h: rect.h })
}

/// A layout that can be read.
pub open spec fn is_supported(format: u32) -> bool {
    format == FORMAT_ARGB8888 || format == FORMAT_XRGB8888 || format == FORMAT_ABGR8888 || format
        == FORMAT_XBGR8888
}

/// Whether a layout can be read.
pub fn supported_format(format: u32) -> (r: bool)
    ensures
        r == is_supported(format),
{
    format == FORMAT_ARGB8888 || format == FORMAT_XRGB8888 || format == FORMAT_ABGR8888 || format
        == FORMAT_XBGR8888
}

/// A digit in base sixteen.
pub open spec fn hex_char(d: nat) -> char {
    if d < 10 {
        (d + 48) as char
    } else {
        (d + 87) as char
    }
}

/// The last `n` digits of a number in base sixteen.
pub open spec fn hex(v: nat, n: nat) -> Seq<char>
    decreases n,
{
    if n == 0 {
        Seq::empty()
    } else {
        hex(v / 16, (n - 1) as nat).push(hex_char(v % 16))
    }
}

fn hex_of(v: u32, n: u32) -> (s: String)
    ensures
        s@ == hex(v as nat, n as nat),
    decreases n,
{
    if n == 0 {
        let s = String::new();
        assert(s@ =~= Seq::empty());
        return s;
    }
    let mut s = hex_of(v / 16, n - 1);
    let d: u8 = (v % 16) as u8;
    s.push(
        if d < 10 {
            (d + 48) as char
        } else {
            (d + 87) as char
        },
    );
    s
}

/// The message for a layout that cannot be read.
pub open spec fn unsupported(format: u32) -> Seq<char> {
    "unsupported wl_shm format 0x"@ + hex(format as nat, 8)
}

fn unsupported_message(format: u32) -> (s: String)
    ensures
        s@ == unsupported(format),
{
    let mut s = owned("unsupported wl_shm format 0x");
    let digits = hex_of(format, 8);
    s.append(digits.as_str());
    s
}

/// The size in bytes of the buffer for an offer, or what is wrong with the offer.
pub fn buffer_size(format: u32, width: u32, height: u32, stride: u32) -> (r: Result<u32, String>)
    ensures
        if !is_supported(format) {
            r matches Err(m) && m@ == unsupported(format)
        } else if stride * height > u32::MAX {
            r matches Err(m) && m@ == "screencopy buffer size overflow"@
        } else if width == 0 || height == 0 || (stride < width * 4) || stride * height > i32::MAX {
            r matches Err(m) && m@ == "invalid screencopy buffer geometry"@
        } else {
            r matches Ok(size) && size == stride * height
        },
{
    if !supported_format(format) {
        return Err(unsupported_message(format));
    }
    assert(stride * height <= 0xffff_ffff * 0xffff_ffff) by (nonlinear_arith)
        requires
            0 <= stride <= 0xffff_ffff,
            0 <= height <= 0xffff_ffff,
    ;
    assert(0 <= stride * height) by (nonlinear_arith)
        requires
            0 <= stride,
            0 <= height,
    ;
    let size: u64 = stride as u64 * height as u64;
    if size > 0xffff_ffff {
        return Err(owned("screencopy buffer size overflow"));
    }
    if width == 0 || height == 0 || (stride as u64) < width as u64 * 4 || size > 0x7fff_ffff {
        return Err(owned("invalid screencopy buffer geometry"));
    }
    Ok(size as u32)
}

/// The row of the buffer that a row of the picture comes from.
pub open spec fn source_row(y: int, height: int, flags: u32) -> int {
    if flags & FLAG_Y_INVERT != 0 {
        height - 1 - y
    } else {
        y
    }
}

/// How a machine lays out the bytes of a number.
#[derive(Debug, Clone, Copy, PartialEq, Eq, Structural)]
pub enum ByteOrder {
    Little,
    Big,
}

/// The byte of a pixel that a channel comes from: red, green, blue are 0, 1, 2. A pixel is a number
/// of four bytes, of which the highest is not used.
pub open spec fn source_byte(c: int, format: u32, order: ByteOrder) -> int {
    let place = if format == FORMAT_ARGB8888 || format == FORMAT_XRGB8888 {
        2 - c
    } else {
        c
    };
    match order {
        ByteOrder::Little => place,
        ByteOrder::Big => 3 - place,
    }
}

/// The picture shows the buffer.
pub open spec fn is_decoded(
    image: Rgb8,
    payload: Seq<u8>,
    stride: int,
    format: u32,
    order: ByteOrder,
    flags: u32,
) -> bool {
    forall|x: int, y: int, c: int|
        0 <= x < image.width && 0 <= y < image.height && 0 <= c < 3 ==> #[trigger] image.channel(
            y * image.width + x,
            c,
        ) == payload[source_row(y, image.height as int, flags) * stride + x * 4 + source_byte(
            c,
            format,
            order,
        )]
}

/// The bytes of a picture, row by row.
spec fn decoded_rows(
    payload: Seq<u8>,
    width: int,
    height: int,
    stride: int,
    format: u32,
    order: ByteOrder,
    flags: u32,
    y: int,
    x: int,
    out: Seq<u8>,
) -> bool {
    &&& out.len() == (y * width + x) * 3
    &&& forall|q: int, u: int, v: int, c: int|
        #![trigger out[q * 3 + c], source_row(v, height, flags), source_byte(c, format, order), (
            v * width + u)]
        q == v * width + u && 0 <= u < width && 0 <= v && (v < y || (v == y && u < x)) && 0 <= c
            < 3 ==> out[q * 3 + c] == payload[source_row(v, height, flags) * stride + u * 4
            + source_byte(c, format, order)]
}

proof fn decoded_grows(
    payload: Seq<u8>,
    width: int,
    height: int,
    stride: int,
    format: u32,
    order: ByteOrder,
    flags: u32,
    y: int,
    x: int,
    before: Seq<u8>,
    after: Seq<u8>,
)
    requires
        0 <= x < width,
        0 <= y < height,
        decoded_rows(payload, width, height, stride, format, order, flags, y, x, before),
        ({
            let p = source_row(y, height, flags) * stride + x * 4;
            after == before.push(payload[p + source_byte(0, format, order)]).push(
                payload[p + source_byte(1, format, order)],
            ).push(payload[p + source_byte(2, format, order)])
        }),
    ensures
        decoded_rows(payload, width, height, stride, format, order, flags, y, x + 1, after),
{
    let base = (y * width + x) * 3;
    assert forall|q: int, u: int, v: int, c: int|
        #![trigger after[q * 3 + c], source_row(v, height, flags), source_byte(c, format, order), (
            v * width + u)]
        q == v * width + u && 0 <= u < width && 0 <= v && (v < y || (v == y && u < x + 1)) && 0
            <= c < 3 implies after[q * 3 + c] == payload[source_row(v, height, flags) * stride + u
        * 4 + source_byte(c, format, order)] by {
        if v == y && u == x {
            assert(after[base] == payload[source_row(y, height, flags) * stride + x * 4
                + source_byte(0, format, order)]);
            assert(after[base + 1] == payload[source_row(y, height, flags) * stride + x * 4
                + source_byte(1, format, order)]);
            assert(after[base + 2] == payload[source_row(y, height, flags) * stride + x * 4
                + source_byte(2, format, order)]);
        } else {
            assert(0 <= q && q + 1 <= y * width + x) by (nonlinear_arith)
                requires
                    0 <= u < width,
                    0 <= v,
                    v < y || (v == y && u < x),
                    q == v * width + u,
                    0 <= x,
            ;
            assert(after[q * 3 + c] == before[q * 3 + c]);
        }
    }
}

/// Reads a frame of the compositor, as it lies in the memory of a machine with the given order of
/// bytes.
pub fn decode_shm_in(
    payload: &[u8],
    width: u32,
    height: u32,
    stride: u32,
    format: u32,
    flags: u32,
    order: ByteOrder,
) -> (r: Result<Rgb8, String>)
    ensures
        if !is_supported(format) {
            r matches Err(m) && m@ == unsupported(format)
        } else if width * 4 > u32::MAX {
            r matches Err(m) && m@ == "screencopy row size overflow"@
        } else if stride < width * 4 {
            r matches Err(m) && m@ == "screencopy stride is shorter than one row"@
        } else if stride * height > u32::MAX {
            r matches Err(m) && m@ == "screencopy raster size overflow"@
        } else if payload@.len() < stride * height {
            r matches Err(m) && m@ == "screencopy raster is truncated"@
        } else {
            r matches Ok(image) && image.wf() && image.width == width && image.height == height
                && is_decoded(image, payload@, stride as int, format, order, flags)
        },
{
    if !supported_format(format) {
        return Err(unsupported_message(format));
    }
    if width as u64 * 4 > 0xffff_ffff {
        return Err(owned("screencopy row size overflow"));
    }
    if (stride as u64) < width as u64 * 4 {
        return Err(owned("screencopy stride is shorter than one row"));
    }
    assert(0 <= stride * height <= 0xffff_ffff * 0xffff_ffff) by (nonlinear_arith)
        requires
            0 <= stride <= 0xffff_ffff,
            0 <= height <= 0xffff_ffff,
    ;
    let needed: u64 = stride as u64 * height as u64;
    if needed > 0xffff_ffff {
        return Err(owned("screencopy raster size overflow"));
    }
    if (payload.len() as u64) < needed {
        return Err(owned("screencopy raster is truncated"));
    }
    let w: usize = width as usize;
    let h: usize = height as usize;
    let s: usize = stride as usize;
    let total: usize = payload.len();
    let flipped: bool = flags & FLAG_Y_INVERT != 0;
    let reversed: bool = format == FORMAT_ARGB8888 || format == FORMAT_XRGB8888;
    let mut rgb: Vec<u8> = Vec::new();
    let mut y: usize = 0;
    assert(0 * w == 0);
    while y < h
        invariant
            w == width,
            h == height,
            s == stride,
            total == payload@.len(),
            w * 4 <= s,
            s * h <= total,
            flipped == (flags & FLAG_Y_INVERT != 0),
            reversed == (format == FORMAT_ARGB8888 || format == FORMAT_XRGB8888),
            y <= h,
            decoded_rows(
                payload@,
                w as int,
                h as int,
                s as int,
                format,
                order,
                flags,
                y as int,
                0,
                rgb@,
            ),
        decreases h - y,
    {
        let row: usize = if flipped {
            h - 1 - y
        } else {
            y
        };
        assert(row == source_row(y as int, h as int, flags));
        proof {
            row_bounds(row as int, s as int, h as int);
        }
        let mut x: usize = 0;
        while x < w
            invariant
                w == width,
                h == height,
                s == stride,
                total == payload@.len(),
                w * 4 <= s,
                s * h <= total,
                y < h,
                row < h,
                row == source_row(y as int, h as int, flags),
                0 <= row * s,
                row * s + s == (row + 1) * s,
                (row + 1) * s <= s * h,
                reversed == (format == FORMAT_ARGB8888 || format == FORMAT_XRGB8888),
                x <= w,
                decoded_rows(
                    payload@,
                    w as int,
                    h as int,
                    s as int,
                    format,
                    order,
                    flags,
                    y as int,
                    x as int,
                    rgb@,
                ),
            decreases w - x,
        {
            let ghost before = rgb@;
            let p: usize = row * s + x * 4;
            match (order, reversed) {
                (ByteOrder::Little, true) => {
                    rgb.push(payload[p + 2]);
                    rgb.push(payload[p + 1]);
                    rgb.push(payload[p]);
                },
                (ByteOrder::Little, false) => {
                    rgb.push(payload[p]);
                    rgb.push(payload[p + 1]);
                    rgb.push(payload[p + 2]);
                },
                (ByteOrder::Big, true) => {
                    rgb.push(payload[p + 1]);
                    rgb.push(payload[p + 2]);
                    rgb.push(payload[p + 3]);
                },
                (ByteOrder::Big, false) => {
                    rgb.push(payload[p + 3]);
                    rgb.push(payload[p + 2]);
                    rgb.push(payload[p + 1]);
                },
            }
            proof {
                decoded_grows(
                    payload@,
                    w as int,
                    h as int,
                    s as int,
                    format,
                    order,
                    flags,
                    y as int,
                    x as int,
                    before,
                    rgb@,
                );
            }
            x = x + 1;
        }
        proof {
            row_is_done(
                payload@,
                w as int,
                h as int,
                s as int,
                format,
                order,
                flags,
                y as int,
                rgb@,
            );
        }
        y = y + 1;
    }
    let image = Rgb8 { width: w, height: h, data: rgb };
    proof {
        assert(h * w == w * h) by (nonlinear_arith);
        assert forall|x: int, y: int, c: int|
            0 <= x < image.width && 0 <= y < image.height && 0 <= c < 3 implies #[trigger]
        image.channel(y * image.width + x, c) == payload@[source_row(y, image.height as int, flags)
            * s + x * 4 + source_byte(c, format, order)] by {
            let q = y * w + x;
            assert(image.data@[q * 3 + c] == image.channel(q, c));
        }
    }
    Ok(image)
}

proof fn row_is_done(
    payload: Seq<u8>,
    width: int,
    height: int,
    stride: int,
    format: u32,
    order: ByteOrder,
    flags: u32,
    y: int,
    out: Seq<u8>,
)
    requires
        0 <= width,
        decoded_rows(payload, width, height, stride, format, order, flags, y, width, out),
    ensures
        decoded_rows(payload, width, height, stride, format, order, flags, y + 1, 0, out),
{
    assert((y + 1) * width == y * width + width) by (nonlinear_arith);
}

/// Reads a frame of the compositor, as it lies in the memory of a little-endian machine.
pub fn decode_shm(
    payload: &[u8],
    width: u32,
    height: u32,
    stride: u32,
    format: u32,
    flags: u32,
) -> (r: Result<Rgb8, String>)
    ensures
        if !is_supported(format) {
            r matches Err(m) && m@ == unsupported(format)
        } else if width * 4 > u32::MAX {
            r matches Err(m) && m@ == "screencopy row size overflow"@
        } else if stride < width * 4 {
            r matches Err(m) && m@ == "screencopy stride is shorter than one row"@
        } else if stride * height > u32::MAX {
            r matches Err(m) && m@ == "screencopy raster size overflow"@
        } else if payload@.len() < stride * height {
            r matches Err(m) && m@ == "screencopy raster is truncated"@
        } else {
            r matches Ok(image) && image.wf() && image.width == width && image.height == height
                && is_decoded(image, payload@, stride as int, format, ByteOrder::Little, flags)
        },
{
    decode_shm_in(payload, width, height, stride, format, flags, ByteOrder::Little)
}

/// A frame that is turned upside down twice is the same.
pub proof fn turning_twice_changes_nothing(y: int, height: int, flags: u32)
    ensures
        source_row(source_row(y, height, flags), height, flags) == y,
{
}

/// What to do after a grab.
#[derive(Debug, Clone, Copy, PartialEq, Eq, Structural)]
pub enum AfterGrab {
    /// The outcome stands.
    Accept,
    /// Nothing changed on the screen in time: grab once more without waiting for a change.
    GrabAtOnce,
    /// Nothing changed in time, and nothing is wanted any more.
    Cancel,
}

/// Whether the compositor is asked to wait for a change: only once there is a frame to compare
/// with, and if it can.
pub fn waits_for_damage(has_frame: bool, supports_damage: bool) -> (r: bool)
    ensures
        r == (has_frame && supports_damage),
{
    has_frame && supports_damage
}

/// What to do after a grab. A wait for a change that ran out of time may only mean that the screen
/// stands still.
pub fn after_grab(timed_out: bool, waited_for_damage: bool, cancelled: bool) -> (r: AfterGrab)
    ensures
        r == if timed_out && waited_for_damage {
            if cancelled {
                AfterGrab::Cancel
            } else {
                AfterGrab::GrabAtOnce
            }
        } else {
            AfterGrab::Accept
        },
{
    if timed_out && waited_for_damage {
        if cancelled {
            AfterGrab::Cancel
        } else {
            AfterGrab::GrabAtOnce
        }
    } else {
        AfterGrab::Accept
    }
}

/// How the pixels of a buffer lie.
#[derive(Debug, Clone, Copy, PartialEq, Eq, Structural)]
pub struct BufferShape {
    pub format: u32,
    pub width: u32,
    pub height: u32,
    pub stride: u32,
}

/// What to do about an offer of the compositor.
#[derive(Debug, Clone, Copy, PartialEq, Eq, Structural)]
pub enum BufferPlan {
    /// The buffer of the frame before fits.
    Keep,
    /// A buffer of this many bytes is needed.
    Create { size: u32 },
}

/// What to do about an offer of the compositor, or what is wrong with it. The buffer of the frame
/// before is used again if it has the same shape.
pub fn plan_buffer(current: Option<BufferShape>, offer: BufferShape) -> (r: Result<
    BufferPlan,
    String,
>)
    ensures
        if !is_supported(offer.format) {
            r matches Err(m) && m@ == unsupported(offer.format)
        } else if offer.stride * offer.height > u32::MAX {
            r matches Err(m) && m@ == "screencopy buffer size overflow"@
        } else if offer.width == 0 || offer.height == 0 || (offer.stride < offer.width * 4)
            || offer.stride * offer.height > i32::MAX {
            r matches Err(m) && m@ == "invalid screencopy buffer geometry"@
        } else if current == Some(offer) {
            r == Ok::<BufferPlan, String>(BufferPlan::Keep)
        } else {
            r matches Ok(BufferPlan::Create { size }) && size == offer.stride * offer.height
        },
{
    let size: u32 = match buffer_size(offer.format, offer.width, offer.height, offer.stride) {
        Ok(size) => size,
        Err(m) => {
            return Err(m);
        },
    };
    match current {
        Some(shape) => if shape == offer {
            Ok(BufferPlan::Keep)
        } else {
            Ok(BufferPlan::Create { size })
        },
        None => Ok(BufferPlan::Create { size }),
    }
}

/// What the compositor says of a frame.
pub enum FrameEvent {
    /// It offered a buffer, for which there now is one, or not.
    Buffer(Result<(), String>),
    /// It has no more to offer.
    BufferDone,
    Flags(u32),
    Ready,
    Failed,
}

/// What follows from it.
#[derive(Debug, Clone, Copy, PartialEq, Eq, Structural)]
pub enum FrameAction {
    Nothing,
    /// The frame is to be copied into the buffer.
    Copy,
    /// The frame is to be copied into the buffer once the screen has changed.
    CopyWithDamage,
}

/// A frame on its way.
pub struct FrameState {
    pub done: bool,
    pub failed: bool,
    pub error: Option<String>,
    pub flags: u32,
    pub wait_for_damage: bool,
}

impl FrameState {
    /// A frame that was asked for.
    pub fn new(wait_for_damage: bool) -> (s: FrameState)
        ensures
            s == (FrameState {
                done: false,
                failed: false,
                error: None,
                flags: 0,
                wait_for_damage,
            }),
    {
        FrameState { done: false, failed: false, error: None, flags: 0, wait_for_damage }
    }

    /// The copy that is asked for. Only the second version of the protocol can wait for a change.
    pub open spec fn copy_action(self, version: u32) -> FrameAction {
        if self.wait_for_damage && version >= 2 {
            FrameAction::CopyWithDamage
        } else {
            FrameAction::Copy
        }
    }

    /// The frame is over, for the given reason.
    pub open spec fn is_broken(self, before: FrameState, reason: Seq<char>) -> bool {
        self.error matches Some(m) && m@ == reason && self == (FrameState {
            done: true,
            failed: true,
            error: self.error,
            ..before
        })
    }

    fn submit(&mut self, version: u32, has_buffer: bool) -> (r: FrameAction)
        ensures
            if has_buffer {
                *final(self) == *old(self) && r == old(self).copy_action(version)
            } else {
                final(self).is_broken(*old(self), "compositor offered no wl_shm buffer"@) && r
                    == FrameAction::Nothing
            },
    {
        if !has_buffer {
            self.failed = true;
            self.done = true;
            self.error = Some(owned("compositor offered no wl_shm buffer"));
            return FrameAction::Nothing;
        }
        if self.wait_for_damage && version >= 2 {
            FrameAction::CopyWithDamage
        } else {
            FrameAction::Copy
        }
    }

    /// Takes what the compositor says. Before the third version of the protocol the first offer is
    /// the only one, so the copy is asked for at once; from then on, when all offers were made.
    pub fn event(&mut self, event: FrameEvent, version: u32, has_buffer: bool) -> (r: FrameAction)
        ensures
            match event {
                FrameEvent::Buffer(Err(m)) => final(self).is_broken(*old(self), m@) && r
                    == FrameAction::Nothing,
                FrameEvent::Buffer(Ok(_)) => if version >= 3 {
                    *final(self) == *old(self) && r == FrameAction::Nothing
                } else if has_buffer {
                    *final(self) == *old(self) && r == old(self).copy_action(version)
                } else {
                    final(self).is_broken(*old(self), "compositor offered no wl_shm buffer"@) && r
                        == FrameAction::Nothing
                },
                FrameEvent::BufferDone => if has_buffer {
                    *final(self) == *old(self) && r == old(self).copy_action(version)
                } else {
                    final(self).is_broken(*old(self), "compositor offered no wl_shm buffer"@) && r
                        == FrameAction::Nothing
                },
                FrameEvent::Flags(flags) => *final(self) == (FrameState { flags, ..*old(self) })
                    && r == FrameAction::Nothing,
                FrameEvent::Ready => *final(self) == (FrameState { done: true, ..*old(self) })
                    && r == FrameAction::Nothing,
                FrameEvent::Failed => *final(self) == (FrameState {
                    done: true,
                    failed: true,
                    ..*old(self)
                }) && r == FrameAction::Nothing,
            },
    {
        match event {
            FrameEvent::Buffer(Err(m)) => {
                self.failed = true;
                self.done = true;
                self.error = Some(m);
                FrameAction::Nothing
            },
            FrameEvent::Buffer(Ok(_)) => if version >= 3 {
                FrameAction::Nothing
            } else {
                self.submit(version, has_buffer)
            },
            FrameEvent::BufferDone => self.submit(version, has_buffer),
            FrameEvent::Flags(flags) => {
                self.flags = flags;
                FrameAction::Nothing
            },
            FrameEvent::Ready => {
                self.done = true;
                FrameAction::Nothing
            },
            FrameEvent::Failed => {
                self.failed = true;
                self.done = true;
                FrameAction::Nothing
            },
        }
    }

    /// What a frame that is over came to: its flags, or why there is none.
    pub fn outcome(self, has_buffer: bool) -> (r: Result<u32, ScreencopyError>)
        ensures
            if self.failed {
                r matches Err(ScreencopyError::Failed(m)) && m@ == match self.error {
                    Some(reason) => reason@,
                    None => "compositor rejected screencopy frame"@,
                }
            } else if !has_buffer {
                r matches Err(ScreencopyError::Failed(m)) && m@
                    == "screencopy completed without a buffer"@
            } else {
                r == Ok::<u32, ScreencopyError>(self.flags)
            },
    {
        if self.failed {
            return Err(
                ScreencopyError::Failed(
                    match self.error {
                        Some(reason) => reason,
                        None => owned("compositor rejected screencopy frame"),
                    },
                ),
            );
        }
        if !has_buffer {
            return Err(ScreencopyError::Failed(owned("screencopy completed without a buffer")));
        }
        Ok(self.flags)
    }
}

/// The output to take frames from, once the compositor has said what it has.
pub fn choose_output(
    has_shm: bool,
    has_screencopy: bool,
    outputs: &[OutputInfo],
    rect: Rect,
) -> (r: Result<usize, ScreencopyError>)
    ensures
        if !has_shm {
            r matches Err(ScreencopyError::Unavailable(m)) && m@ == "wl_shm is unavailable"@
        } else if !has_screencopy {
            r matches Err(ScreencopyError::Unavailable(m)) && m@
                == "wlr-screencopy protocol is unavailable"@
        } else {
            match r {
                Ok(k) => is_choice(outputs@, rect, Some(k)),
                Err(ScreencopyError::Unavailable(m)) => is_choice(outputs@, rect, None) && m@
                    == "selected region is not contained by one logical output"@,
                Err(_) => false,
            }
        },
{
    if !has_shm {
        return Err(ScreencopyError::Unavailable(owned("wl_shm is unavailable")));
    }
    if !has_screencopy {
        return Err(
            ScreencopyError::Unavailable(owned("wlr-screencopy protocol is unavailable")),
        );
    }
    match select_output(outputs, rect) {
        Some(k) => Ok(k),
        None => Err(
            ScreencopyError::Unavailable(
                owned("selected region is not contained by one logical output"),
            ),
        ),
    }
}

/// How long to wait for the compositor, in milliseconds: as long as there is time, at least one.
pub fn poll_timeout(remaining_ms: u128) -> (r: i32)
    ensures
        r == if remaining_ms < 1 {
            1
        } else if remaining_ms > i32::MAX {
            i32::MAX as int
        } else {
            remaining_ms as int
        },
{
    if remaining_ms < 1 {
        1
    } else if remaining_ms > 0x7fff_ffff {
        0x7fff_ffff
    } else {
        remaining_ms as i32
    }
}

/// Whether to go on waiting for the compositor.
#[derive(Debug, Clone, Copy, PartialEq, Eq, Structural)]
pub enum Wait {
    /// What was waited for is there.
    Over,
    /// Wait for more.
    Poll,
    Cancelled,
    Timeout,
}

/// Whether to go on waiting, after all that has come was looked at. What is there counts even if
/// the time is up.
pub fn wait_step(done: bool, cancelled: bool, expired: bool) -> (r: Wait)
    ensures
        r == if done {
            Wait::Over
        } else if cancelled {
            Wait::Cancelled
        } else if expired {
            Wait::Timeout
        } else {
            Wait::Poll
        },
{
    if done {
        Wait::Over
    } else if cancelled {
        Wait::Cancelled
    } else if expired {
        Wait::Timeout
    } else {
        Wait::Poll
    }
}

/// What came of waiting for the connection and the signal to stop.
#[derive(Debug, Clone, Copy, PartialEq, Eq, Structural)]
pub enum Polled {
    Interrupted,
    /// Nothing came in time.
    Nothing,
    /// One of them has something: the signal, an end of the connection, something to read.
    Something { stop: bool, hung_up: bool, readable: bool },
}

/// What follows from it.
#[derive(Debug, Clone, Copy, PartialEq, Eq, Structural)]
pub enum AfterPoll {
    /// Look again.
    Again,
    /// Read what has come, then look again.
    Read,
    Cancelled,
    Timeout,
    /// The connection has ended.
    Closed,
}

/// What follows from waiting. The signal to stop goes before everything else, and the end of the
/// connection before what is left to read.
pub fn after_poll(polled: Polled, cancelled: bool) -> (r: AfterPoll)
    ensures
        r == match polled {
            Polled::Interrupted => AfterPoll::Again,
            Polled::Nothing => AfterPoll::Timeout,
            Polled::Something { stop, hung_up, readable } => if stop || cancelled {
                AfterPoll::Cancelled
            } else if hung_up {
                AfterPoll::Closed
            } else if readable {
                AfterPoll::Read
            } else {
                AfterPoll::Again
            },
        },
{
    match polled {
        Polled::Interrupted => AfterPoll::Again,
        Polled::Nothing => AfterPoll::Timeout,
        Polled::Something { stop, hung_up, readable } => {
            if stop || cancelled {
                AfterPoll::Cancelled
            } else if hung_up {
                AfterPoll::Closed
            } else if readable {
                AfterPoll::Read
            } else {
                AfterPoll::Again
            }
        },
    }
}

/// Four bytes as a number, in the given order of bytes.
pub open spec fn number_in(payload: Seq<u8>, at: int, order: ByteOrder) -> int {
    if order is Little {
        payload[at] + 0x100 * payload[at + 1] + 0x1_0000 * payload[at + 2] + 0x100_0000 * payload[at
            + 3]
    } else {
        0x100_0000 * payload[at] + 0x1_0000 * payload[at + 1] + 0x100 * payload[at + 2] + payload[at
            + 3]
    }
}

/// The channels of a pixel are those of its four bytes, taken as a number: red, green and blue lie in
/// it from the higher bytes to the lower where the name of the format says RGB, and from the lower to
/// the higher where it says BGR, whether there is an alpha channel or not. The rows come from the top
/// down, or from the bottom up where the flag says so.
pub proof fn channels_lie_as_the_format_says(
    payload: &[u8],
    width: u32,
    height: u32,
    stride: u32,
    format: u32,
    flags: u32,
    order: ByteOrder,
    image: Rgb8,
    x: int,
    y: int,
)
    requires
        call_ensures(
            decode_shm_in,
            (payload, width, height, stride, format, flags, order),
            Ok::<Rgb8, String>(image),
        ),
        0 <= x < width,
        0 <= y < height,
    ensures
        image.width == width && image.height == height,
        image.data@.len() == 3 * (width * height),
        ({
            let row = if flags % 2 == 1 {
                height - 1 - y
            } else {
                y
            };
            let v = number_in(payload@, row * stride + 4 * x, order);
            let i = 3 * (y * width + x);
            let (high, middle, low) = (v / 0x1_0000 % 0x100, v / 0x100 % 0x100, v % 0x100);
            &&& format == 0 || format == 1 ==> image.data@[i] == high && image.data@[i + 1]
                == middle && image.data@[i + 2] == low
            &&& format == 0x3432_4241 || format == 0x3432_4258 ==> image.data@[i] == low
                && image.data@[i + 1] == middle && image.data@[i + 2] == high
            &&& format == 0 || format == 1 || format == 0x3432_4241 || format == 0x3432_4258
        }),
{
    let q = y * width + x;
    let at = source_row(y, height as int, flags) * stride + x * 4;
    assert(image.width == width && image.height == height);
    assert((flags & 1 != 0) == (flags % 2 == 1)) by (bit_vector);
    assert(image.channel(q, 0) == payload@[at + source_byte(0, format, order)]);
    assert(image.channel(q, 1) == payload@[at + source_byte(1, format, order)]);
    assert(image.channel(q, 2) == payload@[at + source_byte(2, format, order)]);
    assert(image.data@[3 * q] == image.channel(q, 0));
    assert(image.data@[3 * q + 1] == image.channel(q, 1));
    assert(image.data@[3 * q + 2] == image.channel(q, 2));
    let (a, b, c, d) = (
        payload@[at] as int,
        payload@[at + 1] as int,
        payload@[at + 2] as int,
        payload@[at + 3] as int,
    );
    bytes_of(a, b, c, d);
    bytes_of(d, c, b, a);
}

proof fn bytes_of(a: int, b: int, c: int, d: int)
    requires
        0 <= a < 256,
        0 <= b < 256,
        0 <= c < 256,
        0 <= d < 256,
    ensures
        ({
            let v = a + 0x100 * b + 0x1_0000 * c + 0x100_0000 * d;
            v % 0x100 == a && v / 0x100 % 0x100 == b && v / 0x1_0000 % 0x100 == c
        }),
{
}

/// A frame is read on a little-endian machine as it is with that order of bytes.
pub proof fn a_frame_is_little_endian(
    payload: &[u8],
    width: u32,
    height: u32,
    stride: u32,
    format: u32,
    flags: u32,
    a: Rgb8,
    b: Rgb8,
)
    requires
        call_ensures(
            decode_shm,
            (payload, width, height, stride, format, flags),
            Ok::<Rgb8, String>(a),
        ),
        call_ensures(
            decode_shm_in,
            (payload, width, height, stride, format, flags, ByteOrder::Little),
            Ok::<Rgb8, String>(b),
        ),
    ensures
        a.data@ == b.data@,
{
    let n = (width * height) as int;
    assert forall|k: int| 0 <= k < a.data@.len() implies a.data@[k] == b.data@[k] by {
        let (q, c) = (k / 3, k % 3);
        crate::gray::pixel_of_index(q, width as int, height as int);
        let (x, y) = (q % (width as int), q / (width as int));
        assert(a.channel(y * a.width + x, c) == b.channel(y * b.width + x, c));
        assert(a.data@[k] == a.channel(q, c) && b.data@[k] == b.channel(q, c));
    }
    assert(a.data@ =~= b.data@);
}

/// The output that is chosen shows the whole region, and none that does is smaller. There is none
/// only if no output shows the whole region. An output without a place, without an area or that was
/// removed shows nothing.
pub proof fn the_smallest_output_that_shows_it_is_chosen(
    outputs: &[OutputInfo],
    rect: Rect,
    r: Option<usize>,
    i: int,
)
    requires
        call_ensures(select_output, (outputs, rect), r),
        0 <= i < outputs@.len(),
        rect.w > 0 && rect.h > 0,
    ensures
        ({
            let o = outputs@[i];
            let shows = !o.removed && o.x is Some && o.y is Some && o.width is Some && o.height is Some
                && o.width->0 > 0 && o.height->0 > 0 && o.x->0 <= rect.x && o.y->0 <= rect.y
                && rect.x + rect.w <= o.x->0 + o.width->0 && rect.y + rect.h <= o.y->0
                + o.height->0;
            &&& r is None ==> !shows
            &&& r is Some && r->0 == i ==> shows
            &&& r is Some && shows ==> {
                let k = outputs@[r->0 as int];
                &&& k.width is Some && k.height is Some
                &&& k.width->0 * k.height->0 <= o.width->0 * o.height->0
                &&& i < r->0 ==> k.width->0 * k.height->0 < o.width->0 * o.height->0
            }
        }),
{
    let o = outputs@[i];
    assert(shows_all(o, rect) == shows_all(o, rect));
    if let Some(k) = r {
        assert(shows_all(outputs@[k as int], rect));
    }
}

/// A region on an output has the same size there, and its place is counted from the corner of the
/// output.
pub proof fn a_local_region_is_shifted(
    info: OutputInfo,
    rect: Rect,
    r: Result<Rect, ScreencopyError>,
    place: Option<Rect>,
)
    requires
        call_ensures(local_rect, (Some(info), rect), r),
        call_ensures(OutputInfo::logical_rect, (&info,), place),
    ensures
        place is None ==> r is Err,
        r matches Ok(local) ==> {
            &&& place is Some
            &&& local.x + (place->0).x == rect.x
            &&& local.y + (place->0).y == rect.y
            &&& local.w == rect.w && local.h == rect.h
            &&& 0 <= local.x && local.x + local.w <= (place->0).w
            &&& 0 <= local.y && local.y + local.h <= (place->0).h
        },
        place matches Some(p) ==> (p.w > 0 && p.h > 0) && ((rect.w > 0 && rect.h > 0 && p.x
            <= rect.x && p.y <= rect.y && rect.x + rect.w <= p.x + p.w && rect.y + rect.h <= p.y
            + p.h) ==> r is Ok),
{
}

/// A buffer that is planned holds every row of the frame, and a payload of its size is decoded.
pub proof fn a_planned_buffer_is_decoded(
    current: Option<BufferShape>,
    offer: BufferShape,
    plan: Result<BufferPlan, String>,
    size: Result<u32, String>,
    payload: &[u8],
    flags: u32,
    order: ByteOrder,
    image: Result<Rgb8, String>,
)
    requires
        call_ensures(plan_buffer, (current, offer), plan),
        call_ensures(buffer_size, (offer.format, offer.width, offer.height, offer.stride), size),
        call_ensures(
            decode_shm_in,
            (payload, offer.width, offer.height, offer.stride, offer.format, flags, order),
            image,
        ),
    ensures
        plan is Ok <==> size is Ok,
        plan matches Ok(BufferPlan::Keep) ==> current == Some(offer),
        plan matches Ok(BufferPlan::Create { size: n }) ==> current != Some(offer) && size == Ok::<
            u32,
            String,
        >(n),
        size matches Ok(n) ==> {
            &&& n == offer.stride * offer.height
            &&& n >= 4 * offer.width * offer.height
            &&& offer.width > 0 && offer.height > 0
            &&& payload@.len() >= n ==> image is Ok
            &&& payload@.len() < n ==> image is Err
        },
{
    let (s, w, h) = (offer.stride as int, offer.width as int, offer.height as int);
    assert(s >= 4 * w ==> s * h >= 4 * w * h) by (nonlinear_arith)
        requires
            h >= 0,
    ;
    assert(s * h <= i32::MAX && h >= 1 ==> s <= i32::MAX) by (nonlinear_arith)
        requires
            s >= 0,
    ;
}

/// A frame that was announced, described and made ready comes out with its description; one that was
/// refused comes out as an error, whatever follows.
pub proof fn a_frame_ends_as_it_was_announced(
    a: &mut FrameState,
    flags: u32,
    version: u32,
    x: FrameAction,
    b: &mut FrameState,
    y: FrameAction,
    r: Result<u32, ScreencopyError>,
    c: &mut FrameState,
    z: FrameAction,
    s: Result<u32, ScreencopyError>,
)
    requires
        !old(a).failed,
        call_ensures(FrameState::event, (a, FrameEvent::Flags(flags), version, true), x),
        *old(b) == *final(a),
        call_ensures(FrameState::event, (b, FrameEvent::Ready, version, true), y),
        call_ensures(FrameState::outcome, (*final(b), true), r),
        call_ensures(FrameState::event, (c, FrameEvent::Failed, version, true), z),
        call_ensures(FrameState::outcome, (*final(c), true), s),
    ensures
        r == Ok::<u32, ScreencopyError>(flags),
        final(b).done && !final(b).failed,
        s is Err,
        final(c).done,
        x is Nothing && y is Nothing && z is Nothing,
{
}

/// A frame is copied once a buffer for it is there, and only the newer protocols wait for all the
/// offers. Without a buffer it fails.
pub proof fn a_frame_is_copied_into_its_buffer(
    s: &mut FrameState,
    version: u32,
    has_buffer: bool,
    early: FrameAction,
    t: &mut FrameState,
    late: FrameAction,
)
    requires
        call_ensures(
            FrameState::event,
            (s, FrameEvent::Buffer(Ok::<(), String>(())), version, has_buffer),
            early,
        ),
        call_ensures(FrameState::event, (t, FrameEvent::BufferDone, version, has_buffer), late),
    ensures
        version >= 3 ==> early is Nothing && *final(s) == *old(s),
        version < 3 && has_buffer ==> !(early is Nothing),
        has_buffer ==> !(late is Nothing),
        !has_buffer ==> late is Nothing && final(t).failed && final(t).done,
        late is CopyWithDamage ==> old(t).wait_for_damage && version >= 2,
        late is Copy ==> !(old(t).wait_for_damage && version >= 2),
{
}

/// A wait that is over, cancelled or out of time is not continued, in this order.
pub proof fn a_wait_ends(
    done: bool,
    cancelled: bool,
    expired: bool,
    w: Wait,
    polled: Polled,
    p: AfterPoll,
    remaining_ms: u128,
    t: i32,
)
    requires
        call_ensures(wait_step, (done, cancelled, expired), w),
        call_ensures(after_poll, (polled, cancelled), p),
        call_ensures(poll_timeout, (remaining_ms,), t),
    ensures
        w is Poll <==> !done && !cancelled && !expired,
        w is Over <==> done,
        w is Cancelled <==> !done && cancelled,
        p is Timeout <==> polled is Nothing,
        p is Cancelled <==> (polled matches Polled::Something { stop, hung_up, readable } && (stop
            || cancelled)),
        p is Read ==> !cancelled && (polled matches Polled::Something { stop, hung_up, readable }
            && readable && !stop && !hung_up),
        p is Closed ==> (polled matches Polled::Something { stop, hung_up, readable } && hung_up),
        t >= 1,
        t <= remaining_ms || t == 1,
        1 <= remaining_ms <= i32::MAX ==> t == remaining_ms,
{
}

/// Waiting for damage is given up after a timeout, and nothing is grabbed again after a cancellation.
pub proof fn a_timeout_grabs_at_once(
    timed_out: bool,
    waited: bool,
    cancelled: bool,
    r: AfterGrab,
    has_frame: bool,
    supports: bool,
    w: bool,
)
    requires
        call_ensures(after_grab, (timed_out, waited, cancelled), r),
        call_ensures(waits_for_damage, (has_frame, supports), w),
    ensures
        r is GrabAtOnce <==> timed_out && waited && !cancelled,
        r is Cancel <==> timed_out && waited && cancelled,
        w <==> has_frame && supports,
{
}

/// Every pixel of a region that is contained is one of the bounds, and a region that is not empty and
/// ends nowhere outside of them is contained.
pub proof fn containing_is_pixel_by_pixel(bounds: Rect, rect: Rect, r: bool, px: int, py: int)
    requires
        call_ensures(contains, (bounds, rect), r),
    ensures
        r && rect.x <= px < rect.x + rect.w && rect.y <= py < rect.y + rect.h ==> bounds.x <= px
            < bounds.x + bounds.w && bounds.y <= py < bounds.y + bounds.h,
        r ==> rect.w > 0 && rect.h > 0,
        rect.w > 0 && rect.h > 0 && bounds.x <= rect.x && bounds.y <= rect.y && rect.x + rect.w
            <= bounds.x + bounds.w && rect.y + rect.h <= bounds.y + bounds.h ==> r,
{
}

/// Only the four formats with a byte for each of three colors are supported.
pub proof fn four_formats_are_supported(format: u32, r: bool)
    requires
        call_ensures(supported_format, (format,), r),
    ensures
        r <==> format == 0 || format == 1 || format == 0x3432_4241 || format == 0x3432_4258,
{
}

/// An output is chosen only with the means to copy from it, and then as any output is chosen.
pub proof fn an_output_needs_its_protocols(
    has_shm: bool,
    has_screencopy: bool,
    outputs: &[OutputInfo],
    rect: Rect,
    r: Result<usize, ScreencopyError>,
    s: Option<usize>,
)
    requires
        call_ensures(choose_output, (has_shm, has_screencopy, outputs, rect), r),
        call_ensures(select_output, (outputs, rect), s),
    ensures
        r is Ok <==> has_shm && has_screencopy && s is Some,
        r matches Ok(k) ==> s == Some(k),
        r matches Err(e) ==> e is Unavailable,
{
    if r is Ok && s is Some {
        let (a, b) = (r->Ok_0 as int, s->0 as int);
        assert(shows_all(outputs@[a], rect) && shows_all(outputs@[b], rect));
    }
    if has_shm && has_screencopy && s is Some && r is Err {
        assert(shows_all(outputs@[s->0 as int], rect));
    }
    if r is Ok && s is None {
        assert(shows_all(outputs@[r->Ok_0 as int], rect));
    }
}

} // verus!
