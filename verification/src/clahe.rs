//! Contrast-limited adaptive histogram equalisation on a small grid of tiles, interpolated
//! between the tiles so that no seam shows.

use vstd::prelude::*;

use crate::gray::{Gray, pixel_bounds, row_bounds};
use crate::tone::{darker_bounds, histogram, leading, occurrences};

verus! {

/// Tiles per axis. Smaller images get one tile per pixel.
pub const GRID: usize = 8;

/// A shade may hold this many times its even share of a tile before it is clipped.
pub const CLIP_FACTOR: u64 = 3;

/// Number of tiles along an axis.
pub open spec fn tiles(length: int) -> int {
    if length < GRID {
        length
    } else {
        GRID as int
    }
}

/// First pixel of tile `t` along an axis.
pub open spec fn tile_start(t: int, length: int) -> int {
    t * length / tiles(length)
}

/// The pixels of columns `x0..x1` of rows `y0..y1`, row by row.
pub open spec fn block(gray: Gray, x0: int, x1: int, y0: int, y1: int) -> Seq<u8>
    decreases y1 - y0,
{
    if y1 <= y0 {
        Seq::empty()
    } else {
        block(gray, x0, x1, y0, y1 - 1) + gray.data@.subrange(
            (y1 - 1) * gray.width + x0,
            (y1 - 1) * gray.width + x1,
        )
    }
}

/// The pixels of tile `(tx, ty)`.
pub open spec fn tile(gray: Gray, tx: int, ty: int) -> Seq<u8> {
    block(
        gray,
        tile_start(tx, gray.width as int),
        tile_start(tx + 1, gray.width as int),
        tile_start(ty, gray.height as int),
        tile_start(ty + 1, gray.height as int),
    )
}

/// How many pixels of each shade there are.
pub open spec fn counts(data: Seq<u8>) -> Seq<u32> {
    Seq::new(256, |v: int| occurrences(data, v) as u32)
}

/// The most pixels that a shade of a tile keeps.
pub open spec fn clip_limit(area: int) -> int {
    let limit = CLIP_FACTOR * area / 256;
    if limit < 1 {
        1
    } else {
        limit
    }
}

/// How many pixels are over the limit among the first `n` shades.
pub open spec fn excess(counts: Seq<u32>, limit: int, n: int) -> nat
    decreases n,
{
    if n <= 0 {
        0
    } else {
        excess(counts, limit, n - 1) + if counts[n - 1] > limit {
            (counts[n - 1] - limit) as nat
        } else {
            0
        }
    }
}

/// The shade that receives pixel `i` of `remainder` leftover pixels.
pub open spec fn leftover_shade(i: int, remainder: int) -> int {
    i * 256 / remainder
}

/// Whether shade `v` receives one of the first `n` of `remainder` leftover pixels.
pub open spec fn receives(v: int, n: int, remainder: int) -> bool {
    exists|i: int| 0 <= i < n && #[trigger] leftover_shade(i, remainder) == v
}

/// The clipped counts, with the pixels over the limit dealt out evenly over all shades and what
/// is left after that spread over the range.
pub open spec fn levelled(counts: Seq<u32>, area: int) -> Seq<u32> {
    let limit = clip_limit(area);
    let over = excess(counts, limit, 256) as int;
    Seq::new(
        256,
        |v: int|
            ((if counts[v] > limit {
                limit
            } else {
                counts[v] as int
            }) + over / 256 + if receives(v, over % 256, over % 256) {
                1int
            } else {
                0
            }) as u32,
    )
}

/// The shade that `v` becomes: its share of the levelled counts, over the whole range.
pub open spec fn equalised_shade(levels: Seq<u32>, area: int, v: int) -> u8 {
    let shade = (leading(levels, v + 1) * 255 + area / 2) / area;
    if shade > 255 {
        255
    } else {
        shade as u8
    }
}

/// What every shade of a tile becomes.
pub open spec fn table(data: Seq<u8>) -> Seq<u8> {
    Seq::new(
        256,
        |v: int|
            equalised_shade(
                levelled(counts(data), data.len() as int),
                data.len() as int,
                v,
            ),
    )
}

/// The two tiles that a pixel lies between along an axis, and how far it is towards the second,
/// as a fraction of twice the length of the axis.
pub open spec fn neighbours(pixel: int, length: int) -> (int, int, int) {
    let t = tiles(length);
    let position = (2 * pixel + 1) * t - length;
    let lower = position / (2 * length);
    if position <= 0 {
        (
            0,
            if t > 1 {
                1
            } else {
                0
            },
            0,
        )
    } else if lower >= t - 1 {
        (t - 1, t - 1, 0)
    } else {
        (lower, lower + 1, position % (2 * length))
    }
}

/// `a` and `b` in the proportion `whole - part` to `part`.
pub open spec fn blend(a: int, b: int, part: int, whole: int) -> int {
    a * (whole - part) + b * part
}

/// The pixel `(x, y)` after equalisation: what its shade becomes in the four tiles around it,
/// weighted by how near they are, to the nearest shade.
pub open spec fn equalised(gray: Gray, x: int, y: int) -> int {
    let v = gray.at(x, y) as int;
    let (x0, x1, wx) = neighbours(x, gray.width as int);
    let (y0, y1, wy) = neighbours(y, gray.height as int);
    let dx = 2 * gray.width;
    let dy = 2 * gray.height;
    let top = blend(
        table(tile(gray, x0, y0))[v] as int,
        table(tile(gray, x1, y0))[v] as int,
        wx,
        dx,
    );
    let bottom = blend(
        table(tile(gray, x0, y1))[v] as int,
        table(tile(gray, x1, y1))[v] as int,
        wx,
        dx,
    );
    let sum = blend(top, bottom, wy, dy);
    (2 * sum + dx * dy) / (2 * (dx * dy))
}

/// The excess is bounded by the number of pixels counted.
proof fn excess_bound(counts: Seq<u32>, limit: int, n: int)
    requires
        0 <= limit,
        0 <= n <= counts.len(),
    ensures
        excess(counts, limit, n) <= leading(counts, n),
    decreases n,
{
    if n > 0 {
        excess_bound(counts, limit, n - 1);
    }
}

/// Leftover pixels fall on different shades.
proof fn leftover_step(i: int, j: int, remainder: int)
    requires
        0 < remainder < 256,
        0 <= i < j < remainder,
    ensures
        0 <= leftover_shade(i, remainder) < leftover_shade(j, remainder) < 256,
{
    assert(i * 256 / remainder >= 0) by (nonlinear_arith)
        requires
            i >= 0,
            remainder > 0,
    ;
    assert(i * 256 / remainder < j * 256 / remainder) by (nonlinear_arith)
        requires
            0 < remainder < 256,
            i + 1 <= j,
    ;
    assert(j * 256 / remainder < 256) by (nonlinear_arith)
        requires
            0 <= j < remainder,
            0 < remainder,
    ;
}

proof fn leftover_range(i: int, remainder: int)
    requires
        0 < remainder < 256,
        0 <= i < remainder,
    ensures
        0 <= leftover_shade(i, remainder) < 256,
{
    assert(i * 256 / remainder >= 0) by (nonlinear_arith)
        requires
            i >= 0,
            remainder > 0,
    ;
    assert(i * 256 / remainder < 256) by (nonlinear_arith)
        requires
            0 <= i < remainder,
            0 < remainder,
    ;
}

/// Builds the table of a tile.
fn tile_table(data: Vec<u8>) -> (lut: Vec<u8>)
    requires
        0 < data@.len() <= u32::MAX,
    ensures
        lut@ == table(data@),
{
    let area: u64 = data.len() as u64;
    let holder = Gray { width: data.len(), height: 1, data };
    let shades = histogram(&holder);
    let ghost pixels = holder.data@;
    let ghost c = counts(pixels);
    proof {
        assert forall|v: int| 0 <= v < 256 implies shades@[v] == c[v] by {
            darker_bounds(pixels, v);
        }
        assert(shades@ =~= c);
    }
    let raw: u64 = CLIP_FACTOR * area / 256;
    let limit: u64 = if raw < 1 {
        1
    } else {
        raw
    };
    assert(limit == clip_limit(area as int));
    let mut over: u64 = 0;
    let mut levels: Vec<u32> = Vec::with_capacity(256);
    let mut v: usize = 0;
    while v < 256
        invariant
            v <= 256,
            shades@ == c,
            c.len() == 256,
            1 <= limit <= u32::MAX,
            over == excess(c, limit as int, v as int),
            over <= v * u32::MAX,
            levels@.len() == v,
            forall|k: int|
                0 <= k < v ==> #[trigger] levels@[k] == if c[k] > limit {
                    limit as int
                } else {
                    c[k] as int
                },
        decreases 256 - v,
    {
        let count: u64 = shades[v] as u64;
        if count > limit {
            over = over + (count - limit);
            levels.push(limit as u32);
        } else {
            levels.push(count as u32);
        }
        v = v + 1;
    }
    proof {
        excess_bound(c, limit as int, 256);
        crate::tone::leading_is_darker(shades@, pixels, 256);
        darker_bounds(pixels, 256);
    }
    let share: u64 = over / 256;
    let remainder: u64 = over % 256;
    let mut u: usize = 0;
    while u < 256
        invariant
            u <= 256,
            c.len() == 256,
            1 <= limit <= 0x400_0000,
            share <= 0x100_0000,
            levels@.len() == 256,
            forall|k: int|
                0 <= k < u ==> #[trigger] levels@[k] == share + if c[k] > limit {
                    limit as int
                } else {
                    c[k] as int
                },
            forall|k: int|
                u <= k < 256 ==> #[trigger] levels@[k] == if c[k] > limit {
                    limit as int
                } else {
                    c[k] as int
                },
        decreases 256 - u,
    {
        let level: u32 = levels[u];
        levels.set(u, level + share as u32);
        u = u + 1;
    }
    let mut index: u64 = 0;
    while index < remainder
        invariant
            index <= remainder < 256,
            c.len() == 256,
            1 <= limit <= 0x400_0000,
            share <= 0x100_0000,
            levels@.len() == 256,
            forall|k: int|
                0 <= k < 256 ==> #[trigger] levels@[k] == share + (if c[k] > limit {
                    limit as int
                } else {
                    c[k] as int
                }) + if receives(k, index as int, remainder as int) {
                    1int
                } else {
                    0
                },
        decreases remainder - index,
    {
        proof {
            leftover_range(index as int, remainder as int);
        }
        let slot: usize = (index * 256 / remainder) as usize;
        assert(slot == leftover_shade(index as int, remainder as int));
        let level: u32 = levels[slot];
        proof {
            assert(!receives(slot as int, index as int, remainder as int)) by {
                if receives(slot as int, index as int, remainder as int) {
                    let i = choose|i: int|
                        0 <= i < index && #[trigger] leftover_shade(i, remainder as int) == slot;
                    leftover_step(i, index as int, remainder as int);
                }
            }
            assert(levels@[slot as int] <= limit + share);
            assert forall|k: int| 0 <= k < 256 implies (receives(
                k,
                index + 1,
                remainder as int,
            ) <==> receives(k, index as int, remainder as int) || k == slot) by {
                if receives(k, index + 1, remainder as int) {
                    let i = choose|i: int|
                        0 <= i < index + 1 && #[trigger] leftover_shade(i, remainder as int) == k;
                    if i < index {
                        assert(receives(k, index as int, remainder as int));
                    }
                }
                if receives(k, index as int, remainder as int) {
                    let i = choose|i: int|
                        0 <= i < index && #[trigger] leftover_shade(i, remainder as int) == k;
                    assert(0 <= i < index + 1 && leftover_shade(i, remainder as int) == k);
                }
                if k == slot {
                    assert(leftover_shade(index as int, remainder as int) == k);
                }
            }
        }
        levels.set(slot, level + 1);
        index = index + 1;
    }
    assert(levels@ =~= levelled(c, area as int));
    let mut lut: Vec<u8> = Vec::with_capacity(256);
    let mut cumulative: u64 = 0;
    let mut shade: usize = 0;
    while shade < 256
        invariant
            shade <= 256,
            levels@.len() == 256,
            levels@ == levelled(c, area as int),
            0 < area <= u32::MAX,
            cumulative == leading(levels@, shade as int),
            cumulative <= shade * u32::MAX,
            lut@.len() == shade,
            forall|k: int|
                0 <= k < shade ==> #[trigger] lut@[k] == equalised_shade(levels@, area as int, k),
        decreases 256 - shade,
    {
        cumulative = cumulative + levels[shade] as u64;
        let value: u64 = (cumulative * 255 + area / 2) / area;
        lut.push(
            if value > 255 {
                255
            } else {
                value as u8
            },
        );
        shade = shade + 1;
    }
    assert(lut@ =~= table(pixels));
    lut
}

/// Tiles tile the axis: they follow one another, are not empty, and the last ends at its end.
proof fn tile_bounds(t: int, length: int)
    requires
        0 < length,
        0 <= t < tiles(length),
    ensures
        0 <= tile_start(t, length) < tile_start(t + 1, length) <= length,
{
    let n = tiles(length);
    assert(0 <= t * length / n) by (nonlinear_arith)
        requires
            0 <= t,
            0 < length,
            0 < n,
    ;
    assert(t * length / n < (t + 1) * length / n) by (nonlinear_arith)
        requires
            0 <= t,
            0 < n <= length,
    ;
    assert((t + 1) * length / n <= length) by (nonlinear_arith)
        requires
            0 <= t,
            t + 1 <= n,
            0 < length,
            0 < n,
    ;
}

/// First pixel of tile `t` along an axis.
fn tile_edge(t: usize, length: usize, count: usize) -> (start: usize)
    requires
        0 < length <= u32::MAX,
        count == tiles(length as int),
        t <= count,
    ensures
        start == tile_start(t as int, length as int),
{
    proof {
        assert(0 <= t * length <= 8 * 0xffff_ffff) by (nonlinear_arith)
            requires
                0 <= t <= 8,
                0 <= length <= 0xffff_ffff,
        ;
        assert(t * length / (count as int) <= length) by (nonlinear_arith)
            requires
                0 <= t <= count,
                0 < length,
                0 < count,
        ;
    }
    (t as u64 * length as u64 / count as u64) as usize
}

/// Copies the pixels of a block.
fn copy_block(gray: &Gray, x0: usize, x1: usize, y0: usize, y1: usize) -> (data: Vec<u8>)
    requires
        gray.wf(),
        x0 <= x1 <= gray.width,
        y0 <= y1 <= gray.height,
    ensures
        data@ == block(*gray, x0 as int, x1 as int, y0 as int, y1 as int),
        data@.len() == (x1 - x0) * (y1 - y0),
{
    let mut data: Vec<u8> = Vec::new();
    let mut y: usize = y0;
    proof {
        assert((x1 - x0) * 0 == 0) by (nonlinear_arith);
    }
    while y < y1
        invariant
            gray.wf(),
            x0 <= x1 <= gray.width,
            y0 <= y <= y1 <= gray.height,
            data@ == block(*gray, x0 as int, x1 as int, y0 as int, y as int),
            data@.len() == (x1 - x0) * (y - y0),
        decreases y1 - y,
    {
        let row = gray.row(y);
        proof {
            row_bounds(y as int, gray.width as int, gray.height as int);
        }
        let ghost above = data@;
        let mut x: usize = x0;
        while x < x1
            invariant
                x0 <= x <= x1 <= gray.width,
                row@.len() == gray.width,
                data@ == above + row@.subrange(x0 as int, x as int),
            decreases x1 - x,
        {
            data.push(row[x]);
            assert(data@ =~= above + row@.subrange(x0 as int, x + 1));
            x = x + 1;
        }
        proof {
            assert(row@.subrange(x0 as int, x1 as int) =~= gray.data@.subrange(
                y * gray.width + x0,
                y * gray.width + x1,
            ));
            assert((x1 - x0) * (y - y0) + (x1 - x0) == (x1 - x0) * (y + 1 - y0))
                by (nonlinear_arith);
        }
        y = y + 1;
    }
    data
}

/// A block has as many pixels as its sides say, and no more than the image.
proof fn block_area(a: int, b: int, width: int, height: int)
    requires
        0 < a <= width,
        0 < b <= height,
    ensures
        0 < a * b <= width * height,
{
    assert(0 < a * b <= width * height) by (nonlinear_arith)
        requires
            0 < a <= width,
            0 < b <= height,
    ;
}

/// The tiles and the weight for a pixel along an axis.
fn axis(pixel: usize, length: usize, count: usize) -> (r: (usize, usize, u64))
    requires
        pixel < length <= u32::MAX,
        count == tiles(length as int),
    ensures
        r.0 == neighbours(pixel as int, length as int).0,
        r.1 == neighbours(pixel as int, length as int).1,
        r.2 == neighbours(pixel as int, length as int).2,
        r.0 < count,
        r.1 < count,
        r.2 < 2 * length,
{
    let len: u64 = length as u64;
    let t: u64 = count as u64;
    proof {
        assert((2 * pixel + 1) * t <= 0x2_0000_0000 * 8) by (nonlinear_arith)
            requires
                0 <= 2 * pixel + 1 <= 0x2_0000_0000,
                0 <= t <= 8,
        ;
        assert(0 <= (2 * pixel + 1) * t) by (nonlinear_arith)
            requires
                0 <= pixel,
                0 <= t,
        ;
    }
    let reach: u64 = (2 * pixel as u64 + 1) * t;
    if reach <= len {
        return (
            0,
            if count > 1 {
                1
            } else {
                0
            },
            0,
        );
    }
    let position: u64 = reach - len;
    let lower: u64 = position / (2 * len);
    if lower >= t - 1 {
        (count - 1, count - 1, 0)
    } else {
        (lower as usize, (lower + 1) as usize, position % (2 * len))
    }
}

/// `a` and `b` in the proportion `whole - part` to `part`.
fn mix(a: u64, b: u64, part: u64, whole: u64, Ghost(top): Ghost<int>) -> (r: u64)
    requires
        a <= top,
        b <= top,
        part <= whole,
        top * whole <= u64::MAX,
    ensures
        r == blend(a as int, b as int, part as int, whole as int),
        r <= top * whole,
{
    proof {
        let rest = whole - part;
        assert(0 <= a * rest <= top * rest) by (nonlinear_arith)
            requires
                0 <= a <= top,
                0 <= rest,
        ;
        assert(0 <= b * part <= top * part) by (nonlinear_arith)
            requires
                0 <= b <= top,
                0 <= part,
        ;
        assert(top * rest + top * part == top * whole) by (nonlinear_arith)
            requires
                rest + part == whole,
        ;
    }
    a * (whole - part) + b * part
}

/// Contrast-limited adaptive histogram equalisation.
pub fn clahe(gray: &Gray) -> (out: Gray)
    requires
        gray.wf(),
        gray.countable(),
    ensures
        out.wf(),
        out.width == gray.width,
        out.height == gray.height,
        forall|x: int, y: int|
            gray.inside(x, y) ==> #[trigger] out.at(x, y) == equalised(*gray, x, y),
{
    if gray.is_empty() {
        return gray.copy();
    }
    let width: usize = gray.width;
    let height: usize = gray.height;
    let total: usize = gray.data.len();
    proof {
        block_area(width as int, 1, width as int, height as int);
        block_area(1, height as int, width as int, height as int);
        assert(width * 1 == width && 1 * height == height);
    }
    let tiles_x: usize = if width < GRID {
        width
    } else {
        GRID
    };
    let tiles_y: usize = if height < GRID {
        height
    } else {
        GRID
    };
    let mut luts: Vec<Vec<Vec<u8>>> = Vec::new();
    let mut ty: usize = 0;
    while ty < tiles_y
        invariant
            gray.wf(),
            gray.data@.len() <= u32::MAX,
            width == gray.width,
            height == gray.height,
            0 < width <= u32::MAX,
            0 < height <= u32::MAX,
            tiles_x == tiles(width as int),
            tiles_y == tiles(height as int),
            ty <= tiles_y,
            luts@.len() == ty,
            forall|j: int|
                #![trigger luts@[j]]
                0 <= j < ty ==> luts@[j]@.len() == tiles_x && forall|i: int|
                    0 <= i < tiles_x ==> (#[trigger] luts@[j]@[i])@ == table(tile(*gray, i, j)),
        decreases tiles_y - ty,
    {
        proof {
            tile_bounds(ty as int, height as int);
        }
        let y0: usize = tile_edge(ty, height, tiles_y);
        let y1: usize = tile_edge(ty + 1, height, tiles_y);
        let mut row: Vec<Vec<u8>> = Vec::new();
        let mut tx: usize = 0;
        while tx < tiles_x
            invariant
                gray.wf(),
                gray.data@.len() <= u32::MAX,
                width == gray.width,
                height == gray.height,
                0 < width <= u32::MAX,
                0 < height <= u32::MAX,
                tiles_x == tiles(width as int),
                tiles_y == tiles(height as int),
                ty < tiles_y,
                y0 == tile_start(ty as int, height as int),
                y1 == tile_start(ty + 1, height as int),
                y0 < y1 <= height,
                tx <= tiles_x,
                row@.len() == tx,
                forall|i: int|
                    0 <= i < tx ==> (#[trigger] row@[i])@ == table(tile(*gray, i, ty as int)),
            decreases tiles_x - tx,
        {
            proof {
                tile_bounds(tx as int, width as int);
            }
            let x0: usize = tile_edge(tx, width, tiles_x);
            let x1: usize = tile_edge(tx + 1, width, tiles_x);
            let data = copy_block(gray, x0, x1, y0, y1);
            proof {
                block_area(x1 - x0, y1 - y0, width as int, height as int);
            }
            row.push(tile_table(data));
            tx = tx + 1;
        }
        luts.push(row);
        ty = ty + 1;
    }
    let dx: u64 = 2 * width as u64;
    let dy: u64 = 2 * height as u64;
    proof {
        assert(dx * dy == 4 * (width * height)) by (nonlinear_arith)
            requires
                dx == 2 * width,
                dy == 2 * height,
        ;
        assert(255 * dx * dy == 255 * (dx * dy)) by (nonlinear_arith);
    }
    let whole: u64 = dx * dy;
    let mut data: Vec<u8> = Vec::with_capacity(total);
    let mut y: usize = 0;
    while y < height
        invariant
            gray.wf(),
            width == gray.width,
            height == gray.height,
            0 < width <= u32::MAX,
            0 < height <= u32::MAX,
            dx == 2 * width,
            dy == 2 * height,
            whole == dx * dy,
            0 < whole <= 4 * u32::MAX,
            255 * dx * dy == 255 * whole,
            tiles_x == tiles(width as int),
            tiles_y == tiles(height as int),
            luts@.len() == tiles_y,
            forall|j: int|
                #![trigger luts@[j]]
                0 <= j < tiles_y ==> luts@[j]@.len() == tiles_x && forall|i: int|
                    0 <= i < tiles_x ==> (#[trigger] luts@[j]@[i])@ == table(tile(*gray, i, j)),
            y <= height,
            data@.len() == y * width,
            forall|u: int, v: int|
                0 <= u < width && 0 <= v < y ==> #[trigger] data@[v * width + u] == equalised(
                    *gray,
                    u,
                    v,
                ),
        decreases height - y,
    {
        proof {
            row_bounds(y as int, width as int, height as int);
        }
        let (y0, y1, wy) = axis(y, height, tiles_y);
        let row = gray.row(y);
        let ghost above = data@;
        let mut x: usize = 0;
        while x < width
            invariant
                gray.wf(),
                width == gray.width,
                height == gray.height,
                0 < width <= u32::MAX,
                0 < height <= u32::MAX,
                dx == 2 * width,
                dy == 2 * height,
                whole == dx * dy,
                0 < whole <= 4 * u32::MAX,
                255 * dx * dy == 255 * whole,
                tiles_x == tiles(width as int),
                tiles_y == tiles(height as int),
                luts@.len() == tiles_y,
                forall|j: int|
                    #![trigger luts@[j]]
                    0 <= j < tiles_y ==> luts@[j]@.len() == tiles_x && forall|i: int|
                        0 <= i < tiles_x ==> (#[trigger] luts@[j]@[i])@ == table(
                            tile(*gray, i, j),
                        ),
                y < height,
                row@.len() == width,
                forall|u: int| 0 <= u < width ==> row@[u] == gray.at(u, y as int),
                y0 == neighbours(y as int, height as int).0,
                y1 == neighbours(y as int, height as int).1,
                wy == neighbours(y as int, height as int).2,
                y0 < tiles_y,
                y1 < tiles_y,
                wy < dy,
                x <= width,
                above.len() == y * width,
                data@.len() == above.len() + x,
                forall|k: int| 0 <= k < above.len() ==> data@[k] == above[k],
                forall|u: int|
                    0 <= u < x ==> #[trigger] data@[above.len() + u] == equalised(
                        *gray,
                        u,
                        y as int,
                    ),
            decreases width - x,
        {
            let (x0, x1, wx) = axis(x, width, tiles_x);
            let value: usize = row[x] as usize;
            proof {
                assert(luts@[y0 as int]@.len() == tiles_x);
                assert(luts@[y1 as int]@.len() == tiles_x);
                assert(luts@[y0 as int]@[x0 as int]@ == table(tile(*gray, x0 as int, y0 as int)));
                assert(luts@[y0 as int]@[x1 as int]@ == table(tile(*gray, x1 as int, y0 as int)));
                assert(luts@[y1 as int]@[x0 as int]@ == table(tile(*gray, x0 as int, y1 as int)));
                assert(luts@[y1 as int]@[x1 as int]@ == table(tile(*gray, x1 as int, y1 as int)));
                assert(255 * dx <= u64::MAX);
            }
            let top: u64 = mix(
                luts[y0][x0][value] as u64,
                luts[y0][x1][value] as u64,
                wx,
                dx,
                Ghost(255),
            );
            let bottom: u64 = mix(
                luts[y1][x0][value] as u64,
                luts[y1][x1][value] as u64,
                wx,
                dx,
                Ghost(255),
            );
            let sum: u64 = mix(top, bottom, wy, dy, Ghost(255 * dx));
            let shade: u64 = (2 * sum + whole) / (2 * whole);
            proof {
                assert(shade <= 255) by (nonlinear_arith)
                    requires
                        shade == (2 * sum + whole) / (2 * whole),
                        0 <= sum <= 255 * whole,
                        whole > 0,
                ;
            }
            data.push(shade as u8);
            x = x + 1;
        }
        proof {
            let w = width as int;
            assert forall|u: int, v: int| 0 <= u < w && 0 <= v < y + 1 implies #[trigger] data@[v
                * w + u] == equalised(*gray, u, v) by {
                if v < y {
                    pixel_bounds(u, v, w, y as int);
                    assert(y * w == w * y) by (nonlinear_arith);
                    assert(data@[v * w + u] == above[v * w + u]);
                } else {
                    assert(v * w + u == above.len() + u);
                }
            }
        }
        y = y + 1;
    }
    proof {
        assert(height * width == width * height) by (nonlinear_arith);
    }
    let out = Gray { width, height, data };
    proof {
        assert forall|x: int, y: int| gray.inside(x, y) implies #[trigger] out.at(x, y)
            == equalised(*gray, x, y) by {
            assert(out.at(x, y) == data@[y * width + x]);
        }
    }
    out
}

proof fn tables_grow(data: Seq<u8>, v: int, w: int)
    requires
        0 <= v <= w < 256,
        data.len() > 0,
    ensures
        table(data)[v] <= table(data)[w],
{
    let levels = levelled(counts(data), data.len() as int);
    let area = data.len() as int;
    crate::tone::leading_monotone(levels, v + 1, w + 1);
    let (a, b) = (leading(levels, v + 1) as int, leading(levels, w + 1) as int);
    assert((a * 255 + area / 2) / area <= (b * 255 + area / 2) / area) by (nonlinear_arith)
        requires
            a <= b,
            area > 0,
    ;
}

proof fn a_tile_is_not_empty(gray: Gray, tx: int, ty: int)
    requires
        gray.wf(),
        0 <= tx < tiles(gray.width as int),
        0 <= ty < tiles(gray.height as int),
        0 < gray.width,
        0 < gray.height,
    ensures
        tile(gray, tx, ty).len() > 0,
{
    let (w, h) = (gray.width as int, gray.height as int);
    tile_bounds(tx, w);
    tile_bounds(ty, h);
    block_is_not_empty(
        gray,
        tile_start(tx, w),
        tile_start(tx + 1, w),
        tile_start(ty, h),
        tile_start(ty + 1, h),
    );
}

proof fn block_is_not_empty(gray: Gray, x0: int, x1: int, y0: int, y1: int)
    requires
        gray.wf(),
        0 <= x0 < x1 <= gray.width,
        0 <= y0 < y1 <= gray.height,
    ensures
        block(gray, x0, x1, y0, y1).len() > 0,
{
    crate::gray::row_bounds(y1 - 1, gray.width as int, gray.height as int);
}

/// In a corner, where the surroundings of all pixels are the same, a darker pixel never comes out
/// lighter than a lighter one.
pub proof fn a_corner_keeps_its_order(
    gray: &Gray,
    out: Gray,
    x: int,
    y: int,
    sx: int,
    sy: int,
)
    requires
        gray.wf(),
        call_ensures(clahe, (gray,), out),
        gray.width >= 8,
        gray.height >= 8,
        0 <= x && 8 * (2 * x + 1) <= gray.width,
        0 <= y && 8 * (2 * y + 1) <= gray.height,
        0 <= sx && 8 * (2 * sx + 1) <= gray.width,
        0 <= sy && 8 * (2 * sy + 1) <= gray.height,
        gray.at(x, y) <= gray.at(sx, sy),
    ensures
        out.at(x, y) <= out.at(sx, sy),
{
    equalised_in_order(*gray, x, y, sx, sy);
    assert(out.at(x, y) == equalised(*gray, x, y));
    assert(out.at(sx, sy) == equalised(*gray, sx, sy));
}

/// In a corner, where the surroundings of all pixels are the same, equalising keeps the order.
pub proof fn equalised_in_order(gray: Gray, x: int, y: int, sx: int, sy: int)
    requires
        gray.wf(),
        gray.width >= 8,
        gray.height >= 8,
        0 <= x && 8 * (2 * x + 1) <= gray.width,
        0 <= y && 8 * (2 * y + 1) <= gray.height,
        0 <= sx && 8 * (2 * sx + 1) <= gray.width,
        0 <= sy && 8 * (2 * sy + 1) <= gray.height,
        gray.at(x, y) <= gray.at(sx, sy),
    ensures
        equalised(gray, x, y) <= equalised(gray, sx, sy),
        gray.inside(x, y) && gray.inside(sx, sy),
{
    let (v, w) = (gray.at(x, y) as int, gray.at(sx, sy) as int);
    let (a, b) = (gray.width as int, gray.height as int);
    a_tile_is_not_empty(gray, 0, 0);
    tables_grow(tile(gray, 0, 0), v, w);
    let (p, q) = (table(tile(gray, 0, 0))[v] as int, table(tile(gray, 0, 0))[w] as int);
    let (dx, dy) = (2 * a, 2 * b);
    let t = |k: int, tx: int, ty: int| table(tile(gray, tx, ty))[k] as int;
    assert(gray.inside(x, y) && gray.inside(sx, sy));
    assert(neighbours(x, a) == (0int, 1int, 0int));
    assert(neighbours(y, b) == (0int, 1int, 0int));
    assert(neighbours(sx, a) == (0int, 1int, 0int));
    assert(neighbours(sy, b) == (0int, 1int, 0int));
    corner_blend(p, t(v, 1, 0), t(v, 0, 1), t(v, 1, 1), dx, dy);
    corner_blend(q, t(w, 1, 0), t(w, 0, 1), t(w, 1, 1), dx, dy);
}

proof fn corner_blend(p: int, q: int, r: int, s: int, dx: int, dy: int)
    requires
        dx > 0,
        dy > 0,
    ensures
        ({
            let sum = blend(blend(p, q, 0, dx), blend(r, s, 0, dx), 0, dy);
            (2 * sum + dx * dy) / (2 * (dx * dy)) == p
        }),
{
    let top = blend(p, q, 0, dx);
    let sum = blend(top, blend(r, s, 0, dx), 0, dy);
    assert(top == p * dx) by (nonlinear_arith)
        requires
            top == p * (dx - 0) + q * 0,
    ;
    let z = blend(r, s, 0, dx);
    assert(sum == p * dx * dy) by (nonlinear_arith)
        requires
            sum == top * (dy - 0) + z * 0,
            top == p * dx,
    ;
    let d = dx * dy;
    assert(d > 0 && sum == p * d) by (nonlinear_arith)
        requires
            sum == p * dx * dy,
            d == dx * dy,
            dx > 0,
            dy > 0,
    ;
    assert((2 * sum + d) / (2 * d) == p) by (nonlinear_arith)
        requires
            sum == p * d,
            d > 0,
    ;
}

} // verus!
