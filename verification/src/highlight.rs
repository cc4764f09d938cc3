//! The outline of a selection while a long shot is recorded. Its segments lie outside the
//! selection, because what is on the screen is in the picture.

use vstd::prelude::*;

use crate::geom::Rect;
use crate::placement::fits_screen;

verus! {

/// The thickness of the outline.
pub const EDGE_WIDTH: i32 = 4;

/// One segment, if there is room for it and it is not empty.
pub open spec fn segment(room: bool, x: int, y: int, w: int, h: int) -> Seq<Rect> {
    if room && w > 0 && h > 0 {
        seq![Rect { x: x as i32, y: y as i32, w: w as i32, h: h as i32 }]
    } else {
        Seq::empty()
    }
}

/// The segments above, below, left and right of a selection.
pub open spec fn outline(rect: Rect, screen: (i32, i32), width: int) -> Seq<Rect> {
    segment(rect.y >= width, rect.x as int, rect.y - width, rect.w as int, width) + segment(
        rect.y + rect.h + width <= screen.1,
        rect.x as int,
        rect.y + rect.h,
        rect.w as int,
        width,
    ) + segment(rect.x >= width, rect.x - width, rect.y as int, width, rect.h as int) + segment(
        rect.x + rect.w + width <= screen.0,
        rect.x + rect.w,
        rect.y as int,
        width,
        rect.h as int,
    )
}

fn offer(edges: &mut Vec<Rect>, room: bool, x: i32, y: i32, w: i32, h: i32)
    ensures
        final(edges)@ == old(edges)@ + segment(room, x as int, y as int, w as int, h as int),
{
    let ghost before = edges@;
    if room && w > 0 && h > 0 {
        edges.push(Rect { x, y, w, h });
    }
    assert(edges@ =~= before + segment(room, x as int, y as int, w as int, h as int));
}

/// The segments of the outline. One for which there is no room on the screen is left out, and an
/// outline without a width has none.
pub fn edge_rects(rect: Rect, screen: (i32, i32), width: i32) -> (edges: Vec<Rect>)
    requires
        width > 0 ==> i32::MIN <= rect.x + rect.w,
        width > 0 ==> rect.x + rect.w + width <= i32::MAX,
        width > 0 ==> i32::MIN <= rect.y + rect.h,
        width > 0 ==> rect.y + rect.h + width <= i32::MAX,
    ensures
        edges@ == outline(rect, screen, width as int),
{
    let mut edges: Vec<Rect> = Vec::new();
    if width <= 0 {
        assert(edges@ =~= outline(rect, screen, width as int));
        return edges;
    }
    let above: bool = rect.y >= width;
    let top: i32 = if above {
        rect.y - width
    } else {
        0
    };
    offer(&mut edges, above, rect.x, top, rect.w, width);
    let below: i32 = rect.y + rect.h;
    offer(&mut edges, below + width <= screen.1, rect.x, below, rect.w, width);
    let beside: bool = rect.x >= width;
    let left: i32 = if beside {
        rect.x - width
    } else {
        0
    };
    offer(&mut edges, beside, left, rect.y, width, rect.h);
    let after: i32 = rect.x + rect.w;
    offer(&mut edges, after + width <= screen.0, after, rect.y, width, rect.h);
    assert(edges@ =~= outline(rect, screen, width as int));
    edges
}

/// No segment covers a pixel of the selection, and all lie on the screen if the selection does.
pub proof fn the_outline_stays_outside(
    rect: Rect,
    screen: (i32, i32),
    width: int,
    i: int,
    px: int,
    py: int,
)
    requires
        i32::MIN <= rect.x + rect.w,
        rect.x + rect.w + width <= i32::MAX,
        i32::MIN <= rect.y + rect.h,
        rect.y + rect.h + width <= i32::MAX,
        0 <= i < outline(rect, screen, width).len(),
        outline(rect, screen, width)[i].covers(px, py),
    ensures
        !rect.covers(px, py),
        fits_screen(rect, screen) ==> 0 <= px < screen.0 && 0 <= py < screen.1,
{
    let top = segment(rect.y >= width, rect.x as int, rect.y - width, rect.w as int, width);
    let bottom = segment(
        rect.y + rect.h + width <= screen.1,
        rect.x as int,
        rect.y + rect.h,
        rect.w as int,
        width,
    );
    let left = segment(rect.x >= width, rect.x - width, rect.y as int, width, rect.h as int);
    let a = top.len() as int;
    let b = a + bottom.len();
    let c = b + left.len();
    if i < a {
        assert(outline(rect, screen, width)[i] == top[0]);
    } else if i < b {
        assert(outline(rect, screen, width)[i] == bottom[0]);
    } else if i < c {
        assert(outline(rect, screen, width)[i] == left[0]);
    }
}

/// A selection of the whole screen has no outline.
pub proof fn a_full_screen_selection_has_no_outline(screen: (i32, i32), width: int)
    requires
        width > 0,
    ensures
        outline(Rect { x: 0, y: 0, w: screen.0, h: screen.1 }, screen, width).len() == 0,
{
}

/// The outline is exactly the band of the given width along each side of the selection on which that
/// band is on the screen.
pub proof fn the_outline_is_a_band(
    rect: Rect,
    screen: (i32, i32),
    width: i32,
    edges: Vec<Rect>,
    px: int,
    py: int,
)
    requires
        call_ensures(edge_rects, (rect, screen, width), edges),
        width > 0,
        rect.w > 0 && rect.h > 0,
        0 <= rect.x && 0 <= rect.y,
        rect.x + rect.w + width <= i32::MAX,
        rect.y + rect.h + width <= i32::MAX,
    ensures
        ({
            let across = rect.x <= px < rect.x + rect.w;
            let down = rect.y <= py < rect.y + rect.h;
            let above = rect.y >= width && across && rect.y - width <= py < rect.y;
            let below = rect.y + rect.h + width <= screen.1 && across && rect.y + rect.h <= py
                < rect.y + rect.h + width;
            let left = rect.x >= width && down && rect.x - width <= px < rect.x;
            let right = rect.x + rect.w + width <= screen.0 && down && rect.x + rect.w <= px
                < rect.x + rect.w + width;
            (exists|i: int|
                0 <= i < edges@.len() && (#[trigger] edges@[i]).x <= px < edges@[i].x + edges@[i].w
                    && edges@[i].y <= py < edges@[i].y + edges@[i].h) <==> above || below || left
                || right
        }),
{
    let top = segment(rect.y >= width, rect.x as int, rect.y - width, rect.w as int, width as int);
    let bottom = segment(
        rect.y + rect.h + width <= screen.1,
        rect.x as int,
        rect.y + rect.h,
        rect.w as int,
        width as int,
    );
    let left = segment(rect.x >= width, rect.x - width, rect.y as int, width as int, rect.h as int);
    let right = segment(
        rect.x + rect.w + width <= screen.0,
        rect.x + rect.w,
        rect.y as int,
        width as int,
        rect.h as int,
    );
    let all = edges@;
    assert(all == top + bottom + left + right);
    let (a, b, c) = (
        top.len() as int,
        top.len() + bottom.len() as int,
        top.len() + bottom.len() + left.len() as int,
    );
    assert(top.len() == 1 ==> all[0] == top[0]);
    assert(bottom.len() == 1 ==> all[a] == bottom[0]);
    assert(left.len() == 1 ==> all[b] == left[0]);
    assert(right.len() == 1 ==> all[c] == right[0]);
    if exists|i: int|
        0 <= i < all.len() && (#[trigger] all[i]).x <= px < all[i].x + all[i].w && all[i].y <= py
            < all[i].y + all[i].h {
        let i = choose|i: int|
            0 <= i < all.len() && (#[trigger] all[i]).x <= px < all[i].x + all[i].w && all[i].y
                <= py < all[i].y + all[i].h;
        assert(i < a ==> i == 0);
        assert(a <= i < b ==> i == a);
        assert(b <= i < c ==> i == b);
        assert(c <= i ==> i == c);
    }
}

} // verus!
