//! The selection: how the pointer makes, moves and resizes it.
//!
//! The pointer is in thousandths of a pixel, the selection in whole pixels.

use vstd::prelude::*;

use crate::annotate::Point;
use crate::geom::Rect;

verus! {

/// How near the pointer has to be to a handle, in each direction.
pub const HANDLE_HALF: i64 = 6_000;

/// A selection that is thinner was a click.
pub const MIN_SEL: i32 = 4;

/// The handles of a selection, in the order in which they are looked for.
#[derive(Debug, Clone, Copy, PartialEq, Eq, Structural)]
pub enum Handle {
    Nw,
    N,
    Ne,
    E,
    Se,
    S,
    Sw,
    W,
}

/// What the pointer is doing.
#[derive(Debug, Clone, Copy, PartialEq, Eq, Structural)]
pub enum Mode {
    Idle,
    Selecting,
    HasSelection,
    Moving,
    Resizing,
}

/// What the pointer is over.
#[derive(Debug, Clone, Copy, PartialEq, Eq, Structural)]
pub enum Hit {
    Handle(Handle),
    Inside,
    Outside,
}

impl Handle {
    /// Which part of the width the handle is at, in halves.
    pub open spec fn across(self) -> int {
        match self {
            Handle::Nw | Handle::Sw | Handle::W => 0,
            Handle::N | Handle::S => 1,
            Handle::Ne | Handle::E | Handle::Se => 2,
        }
    }

    /// Which part of the height the handle is at, in halves.
    pub open spec fn down(self) -> int {
        match self {
            Handle::Nw | Handle::N | Handle::Ne => 0,
            Handle::E | Handle::W => 1,
            Handle::Se | Handle::S | Handle::Sw => 2,
        }
    }

    /// The place of the handle in the order in which they are looked for.
    pub open spec fn rank(self) -> int {
        match self {
            Handle::Nw => 0,
            Handle::N => 1,
            Handle::Ne => 2,
            Handle::E => 3,
            Handle::Se => 4,
            Handle::S => 5,
            Handle::Sw => 6,
            Handle::W => 7,
        }
    }
}

/// A rectangle with the given corners, whichever they are.
pub open spec fn spanning(x1: int, y1: int, x2: int, y2: int) -> Rect {
    Rect {
        x: (if x1 < x2 {
            x1
        } else {
            x2
        }) as i32,
        y: (if y1 < y2 {
            y1
        } else {
            y2
        }) as i32,
        w: (if x1 < x2 {
            x2 - x1
        } else {
            x1 - x2
        }) as i32,
        h: (if y1 < y2 {
            y2 - y1
        } else {
            y1 - y2
        }) as i32,
    }
}

fn span(x1: i64, y1: i64, x2: i64, y2: i64) -> (r: Rect)
    requires
        -0x8000_0000 <= x1 <= 0x7fff_ffff,
        -0x8000_0000 <= x2 <= 0x7fff_ffff,
        -0x8000_0000 <= y1 <= 0x7fff_ffff,
        -0x8000_0000 <= y2 <= 0x7fff_ffff,
        x2 - x1 <= 0x7fff_ffff,
        x1 - x2 <= 0x7fff_ffff,
        y2 - y1 <= 0x7fff_ffff,
        y1 - y2 <= 0x7fff_ffff,
    ensures
        r == spanning(x1 as int, y1 as int, x2 as int, y2 as int),
{
    Rect {
        x: if x1 < x2 {
            x1 as i32
        } else {
            x2 as i32
        },
        y: if y1 < y2 {
            y1 as i32
        } else {
            y2 as i32
        },
        w: if x1 < x2 {
            (x2 - x1) as i32
        } else {
            (x1 - x2) as i32
        },
        h: if y1 < y2 {
            (y2 - y1) as i32
        } else {
            (y1 - y2) as i32
        },
    }
}

/// A number within bounds.
pub open spec fn kept_in(n: int, low: int, high: int) -> int {
    if n < low {
        low
    } else if n > high {
        high
    } else {
        n
    }
}

fn keep_in(n: i64, low: i64, high: i64) -> (r: i64)
    requires
        low <= high,
    ensures
        r == kept_in(n as int, low as int, high as int),
{
    if n < low {
        low
    } else if n > high {
        high
    } else {
        n
    }
}

/// The part of a rectangle that lies on the screen.
pub open spec fn on_screen(x1: int, y1: int, x2: int, y2: int, sw: int, sh: int) -> Rect {
    spanning(
        kept_in(x1, 0, sw),
        kept_in(y1, 0, sh),
        kept_in(x2, 0, sw),
        kept_in(y2, 0, sh),
    )
}

/// The pixel that a place is in: the fraction is cut off.
pub open spec fn pixel(p: int) -> int {
    if p >= 0 {
        p / 1000
    } else {
        -((-p) / 1000)
    }
}

fn cut(p: i64) -> (r: i64)
    requires
        -0x1_0000_0000 <= p <= 0x1_0000_0000,
    ensures
        r == pixel(p as int),
        -4_294_968 <= r <= 4_294_968,
{
    if p >= 0 {
        (p as u64 / 1000) as i64
    } else {
        let q: u64 = (-p) as u64;
        -((q / 1000) as i64)
    }
}

/// The handle is under the pointer.
pub open spec fn is_near(rect: Rect, handle: Handle, at: Point) -> bool {
    let hx = rect.x * 1000 + rect.w * 500 * handle.across();
    let hy = rect.y * 1000 + rect.h * 500 * handle.down();
    -HANDLE_HALF <= at.x - hx <= HANDLE_HALF && -HANDLE_HALF <= at.y - hy <= HANDLE_HALF
}

/// The pointer is inside.
pub open spec fn is_inside(rect: Rect, at: Point) -> bool {
    rect.x * 1000 <= at.x < (rect.x + rect.w) * 1000 && rect.y * 1000 <= at.y < (rect.y + rect.h)
        * 1000
}

/// What the pointer is over: a handle before the inside, so that those of a small selection can be
/// reached, and the first handle before the others.
pub open spec fn is_hit(rect: Rect, at: Point, hit: Hit) -> bool {
    match hit {
        Hit::Handle(handle) => {
            &&& rect.has_area()
            &&& is_near(rect, handle, at)
            &&& forall|other: Handle|
                other.rank() < handle.rank() ==> !#[trigger] is_near(rect, other, at)
        },
        Hit::Inside => {
            &&& rect.has_area()
            &&& is_inside(rect, at)
            &&& forall|other: Handle| !#[trigger] is_near(rect, other, at)
        },
        Hit::Outside => !rect.has_area() || (!is_inside(rect, at) && forall|other: Handle|
            !#[trigger] is_near(rect, other, at)),
    }
}

/// The selection.
pub struct Selector {
    pub rect: Rect,
    pub mode: Mode,
    pub screen_w: i32,
    pub screen_h: i32,
    pub drag_anchor: Point,
    pub orig_rect: Rect,
    pub active_handle: Option<Handle>,
}

/// A rectangle that is not turned around and does not reach too far.
pub open spec fn is_plain(rect: Rect) -> bool {
    rect.w >= 0 && rect.h >= 0 && rect.x + rect.w <= i32::MAX && rect.y + rect.h <= i32::MAX
}

/// No selection.
pub open spec fn nothing() -> Rect {
    Rect { x: 0, y: 0, w: 0, h: 0 }
}

impl Selector {
    /// What always holds of a selection.
    pub open spec fn wf(self) -> bool {
        is_plain(self.rect) && is_plain(self.orig_rect) && self.screen_w >= 0 && self.screen_h >= 0
    }

    /// Nothing is selected on a screen of the given size.
    pub fn new(screen_w: i32, screen_h: i32) -> (s: Selector)
        requires
            screen_w >= 0,
            screen_h >= 0,
        ensures
            s.wf(),
            s.rect == nothing(),
            s.mode == Mode::Idle,
            s.screen_w == screen_w,
            s.screen_h == screen_h,
            s.drag_anchor == (Point { x: 0, y: 0 }),
            s.orig_rect == nothing(),
            s.active_handle is None,
    {
        let none = Rect { x: 0, y: 0, w: 0, h: 0 };
        Selector {
            rect: none,
            mode: Mode::Idle,
            screen_w,
            screen_h,
            drag_anchor: Point { x: 0, y: 0 },
            orig_rect: none,
            active_handle: None,
        }
    }

    fn near(&self, handle: Handle, across: i64, down: i64, at: Point) -> (r: bool)
        requires
            self.wf(),
            across == handle.across(),
            down == handle.down(),
        ensures
            r == is_near(self.rect, handle, at),
    {
        let w: i64 = self.rect.w as i64 * 500;
        let h: i64 = self.rect.h as i64 * 500;
        assert(0 <= w * across <= w * 2) by (nonlinear_arith)
            requires
                0 <= w,
                0 <= across <= 2,
        ;
        assert(0 <= h * down <= h * 2) by (nonlinear_arith)
            requires
                0 <= h,
                0 <= down <= 2,
        ;
        let dx: i64 = at.x as i64 - (self.rect.x as i64 * 1000 + w * across);
        let dy: i64 = at.y as i64 - (self.rect.y as i64 * 1000 + h * down);
        -HANDLE_HALF <= dx && dx <= HANDLE_HALF && -HANDLE_HALF <= dy && dy <= HANDLE_HALF
    }

    /// What the pointer is over.
    pub fn hit_test(&self, at: Point) -> (hit: Hit)
        requires
            self.wf(),
        ensures
            is_hit(self.rect, at, hit),
    {
        if !self.rect.valid() {
            return Hit::Outside;
        }
        if self.near(Handle::Nw, 0, 0, at) {
            return Hit::Handle(Handle::Nw);
        }
        if self.near(Handle::N, 1, 0, at) {
            return Hit::Handle(Handle::N);
        }
        if self.near(Handle::Ne, 2, 0, at) {
            return Hit::Handle(Handle::Ne);
        }
        if self.near(Handle::E, 2, 1, at) {
            return Hit::Handle(Handle::E);
        }
        if self.near(Handle::Se, 2, 2, at) {
            return Hit::Handle(Handle::Se);
        }
        if self.near(Handle::S, 1, 2, at) {
            return Hit::Handle(Handle::S);
        }
        if self.near(Handle::Sw, 0, 2, at) {
            return Hit::Handle(Handle::Sw);
        }
        if self.near(Handle::W, 0, 1, at) {
            return Hit::Handle(Handle::W);
        }
        let left: i64 = self.rect.x as i64 * 1000;
        let top: i64 = self.rect.y as i64 * 1000;
        let right: i64 = (self.rect.x as i64 + self.rect.w as i64) * 1000;
        let bottom: i64 = (self.rect.y as i64 + self.rect.h as i64) * 1000;
        let x: i64 = at.x as i64;
        let y: i64 = at.y as i64;
        if left <= x && x < right && top <= y && y < bottom {
            Hit::Inside
        } else {
            Hit::Outside
        }
    }

    /// Selects the whole screen.
    pub fn select_all(&mut self)
        requires
            old(self).wf(),
        ensures
            final(self).wf(),
            *final(self) == (Selector {
                rect: Rect { x: 0, y: 0, w: old(self).screen_w, h: old(self).screen_h },
                mode: Mode::HasSelection,
                active_handle: None,
                ..*old(self)
            }),
    {
        self.rect = Rect { x: 0, y: 0, w: self.screen_w, h: self.screen_h };
        self.mode = Mode::HasSelection;
        self.active_handle = None;
    }

    /// The selector after the pointer was pressed over something.
    pub open spec fn pressed(self, at: Point, hit: Hit) -> Selector {
        let held = Selector { drag_anchor: at, orig_rect: self.rect, ..self };
        match hit {
            Hit::Handle(handle) => Selector {
                mode: Mode::Resizing,
                active_handle: Some(handle),
                ..held
            },
            Hit::Inside => Selector { mode: Mode::Moving, active_handle: None, ..held },
            Hit::Outside => Selector {
                mode: Mode::Selecting,
                active_handle: None,
                rect: Rect {
                    x: pixel(at.x as int) as i32,
                    y: pixel(at.y as int) as i32,
                    w: 0,
                    h: 0,
                },
                ..held
            },
        }
    }

    /// The pointer was pressed: on a handle it resizes, inside it moves, elsewhere it begins a new
    /// selection.
    pub fn press(&mut self, at: Point)
        requires
            old(self).wf(),
        ensures
            final(self).wf(),
            exists|hit: Hit| #[trigger]
                is_hit(old(self).rect, at, hit) && *final(self) == old(self).pressed(at, hit),
    {
        let hit = self.hit_test(at);
        self.drag_anchor = at;
        self.orig_rect = self.rect;
        match hit {
            Hit::Handle(handle) => {
                self.mode = Mode::Resizing;
                self.active_handle = Some(handle);
            },
            Hit::Inside => {
                self.mode = Mode::Moving;
                self.active_handle = None;
            },
            Hit::Outside => {
                self.mode = Mode::Selecting;
                self.active_handle = None;
                let x: i64 = cut(at.x as i64);
                let y: i64 = cut(at.y as i64);
                self.rect = Rect { x: x as i32, y: y as i32, w: 0, h: 0 };
            },
        }
        assert(is_hit(old(self).rect, at, hit) && *self == old(self).pressed(at, hit));
    }

    /// The selection while it is made: between where the pointer was pressed and where it is.
    pub open spec fn drawn(self, at: Point) -> Rect {
        spanning(
            pixel(self.drag_anchor.x as int),
            pixel(self.drag_anchor.y as int),
            pixel(at.x as int),
            pixel(at.y as int),
        )
    }

    /// The selection while it is moved: it keeps its size, and stays on the screen if it fits.
    pub open spec fn carried(self, at: Point) -> Rect {
        let r = self.orig_rect;
        let room_x = if self.screen_w - r.w > 0 {
            self.screen_w - r.w
        } else {
            0
        };
        let room_y = if self.screen_h - r.h > 0 {
            self.screen_h - r.h
        } else {
            0
        };
        Rect {
            x: kept_in(r.x + pixel(at.x - self.drag_anchor.x), 0, room_x) as i32,
            y: kept_in(r.y + pixel(at.y - self.drag_anchor.y), 0, room_y) as i32,
            w: r.w,
            h: r.h,
        }
    }

    /// The selection while it is resized: the sides of the handle follow the pointer, and may pass
    /// the sides across.
    pub open spec fn stretched(self, handle: Handle, at: Point) -> Rect {
        let r = self.orig_rect;
        let x = pixel(at.x as int);
        let y = pixel(at.y as int);
        on_screen(
            if handle.across() == 0 {
                x
            } else {
                r.x as int
            },
            if handle.down() == 0 {
                y
            } else {
                r.y as int
            },
            if handle.across() == 2 {
                x
            } else {
                r.x + r.w
            },
            if handle.down() == 2 {
                y
            } else {
                r.y + r.h
            },
            self.screen_w as int,
            self.screen_h as int,
        )
    }

    /// The part of the selection on the screen.
    pub open spec fn clipped(self) -> Rect {
        on_screen(
            self.rect.x as int,
            self.rect.y as int,
            self.rect.x + self.rect.w,
            self.rect.y + self.rect.h,
            self.screen_w as int,
            self.screen_h as int,
        )
    }

    fn visible(&self, x1: i64, y1: i64, x2: i64, y2: i64) -> (r: Rect)
        requires
            self.wf(),
        ensures
            r == on_screen(
                x1 as int,
                y1 as int,
                x2 as int,
                y2 as int,
                self.screen_w as int,
                self.screen_h as int,
            ),
            is_plain(r),
    {
        let sw: i64 = self.screen_w as i64;
        let sh: i64 = self.screen_h as i64;
        span(keep_in(x1, 0, sw), keep_in(y1, 0, sh), keep_in(x2, 0, sw), keep_in(y2, 0, sh))
    }

    /// The pointer moved.
    pub fn motion(&mut self, at: Point)
        requires
            old(self).wf(),
        ensures
            final(self).wf(),
            *final(self) == (Selector { rect: final(self).rect, ..*old(self) }),
            final(self).rect == match old(self).mode {
                Mode::Selecting => old(self).drawn(at),
                Mode::Moving => old(self).carried(at),
                Mode::Resizing => match old(self).active_handle {
                    Some(handle) => old(self).stretched(handle, at),
                    None => old(self).clipped(),
                },
                _ => old(self).rect,
            },
    {
        match self.mode {
            Mode::Selecting => {
                let ax: i64 = cut(self.drag_anchor.x as i64);
                let ay: i64 = cut(self.drag_anchor.y as i64);
                let x: i64 = cut(at.x as i64);
                let y: i64 = cut(at.y as i64);
                self.rect = span(ax, ay, x, y);
            },
            Mode::Moving => {
                let r = self.orig_rect;
                let dx: i64 = cut(at.x as i64 - self.drag_anchor.x as i64);
                let dy: i64 = cut(at.y as i64 - self.drag_anchor.y as i64);
                let room_x: i64 = if self.screen_w as i64 - r.w as i64 > 0 {
                    self.screen_w as i64 - r.w as i64
                } else {
                    0
                };
                let room_y: i64 = if self.screen_h as i64 - r.h as i64 > 0 {
                    self.screen_h as i64 - r.h as i64
                } else {
                    0
                };
                let x: i64 = keep_in(r.x as i64 + dx, 0, room_x);
                let y: i64 = keep_in(r.y as i64 + dy, 0, room_y);
                self.rect = Rect { x: x as i32, y: y as i32, w: r.w, h: r.h };
            },
            Mode::Resizing => {
                let r = self.orig_rect;
                match self.active_handle {
                    None => {
                        let r = self.rect;
                        self.rect = self.visible(
                            r.x as i64,
                            r.y as i64,
                            r.x as i64 + r.w as i64,
                            r.y as i64 + r.h as i64,
                        );
                    },
                    Some(handle) => {
                        let x: i64 = cut(at.x as i64);
                        let y: i64 = cut(at.y as i64);
                        let mut left: i64 = r.x as i64;
                        let mut top: i64 = r.y as i64;
                        let mut right: i64 = r.x as i64 + r.w as i64;
                        let mut bottom: i64 = r.y as i64 + r.h as i64;
                        match handle {
                            Handle::Nw | Handle::N | Handle::Ne => {
                                top = y;
                            },
                            Handle::Se | Handle::S | Handle::Sw => {
                                bottom = y;
                            },
                            _ => {},
                        }
                        match handle {
                            Handle::Nw | Handle::Sw | Handle::W => {
                                left = x;
                            },
                            Handle::Ne | Handle::E | Handle::Se => {
                                right = x;
                            },
                            _ => {},
                        }
                        self.rect = self.visible(left, top, right, bottom);
                    },
                }
            },
            _ => {},
        }
    }

    /// The pointer was released: the selection is cut to the screen, and gone if it is too thin.
    pub fn release(&mut self)
        requires
            old(self).wf(),
        ensures
            final(self).wf(),
            final(self).active_handle is None,
            ({
                let cut = old(self).clipped();
                let gone = cut.w < MIN_SEL || cut.h < MIN_SEL;
                *final(self) == (Selector {
                    rect: if gone {
                        nothing()
                    } else {
                        cut
                    },
                    mode: if gone {
                        Mode::Idle
                    } else {
                        Mode::HasSelection
                    },
                    active_handle: None,
                    ..*old(self)
                })
            }),
    {
        let r = self.rect;
        let cut = self.visible(
            r.x as i64,
            r.y as i64,
            r.x as i64 + r.w as i64,
            r.y as i64 + r.h as i64,
        );
        if cut.w < MIN_SEL || cut.h < MIN_SEL {
            self.rect = Rect { x: 0, y: 0, w: 0, h: 0 };
            self.mode = Mode::Idle;
        } else {
            self.rect = cut;
            self.mode = Mode::HasSelection;
        }
        self.active_handle = None;
    }

    /// Nothing is selected any more.
    pub fn clear(&mut self)
        requires
            old(self).wf(),
        ensures
            final(self).wf(),
            *final(self) == (Selector {
                rect: nothing(),
                mode: Mode::Idle,
                active_handle: None,
                ..*old(self)
            }),
    {
        self.rect = Rect { x: 0, y: 0, w: 0, h: 0 };
        self.mode = Mode::Idle;
        self.active_handle = None;
    }
}

/// A selection lies on the screen.
pub open spec fn lies_on(rect: Rect, screen_w: int, screen_h: int) -> bool {
    0 <= rect.x && rect.x + rect.w <= screen_w && 0 <= rect.y && rect.y + rect.h <= screen_h
}

/// Moving never changes the size, and never takes a selection that fits off the screen.
pub proof fn moving_keeps_the_size(s: Selector, at: Point)
    requires
        s.wf(),
    ensures
        s.carried(at).w == s.orig_rect.w,
        s.carried(at).h == s.orig_rect.h,
        s.orig_rect.w <= s.screen_w && s.orig_rect.h <= s.screen_h ==> lies_on(
            s.carried(at),
            s.screen_w as int,
            s.screen_h as int,
        ),
{
}

/// A selection that is cut or resized lies on the screen.
pub proof fn a_clipped_selection_lies_on_the_screen(s: Selector, handle: Handle, at: Point)
    requires
        s.wf(),
    ensures
        lies_on(s.clipped(), s.screen_w as int, s.screen_h as int),
        lies_on(s.stretched(handle, at), s.screen_w as int, s.screen_h as int),
{
}

/// A handle on one side moves that side alone.
pub proof fn one_side_moves_alone(s: Selector, at: Point)
    requires
        s.wf(),
        lies_on(s.orig_rect, s.screen_w as int, s.screen_h as int),
    ensures
        s.stretched(Handle::N, at).x == s.orig_rect.x,
        s.stretched(Handle::N, at).w == s.orig_rect.w,
        s.stretched(Handle::S, at).x == s.orig_rect.x,
        s.stretched(Handle::S, at).w == s.orig_rect.w,
        s.stretched(Handle::W, at).y == s.orig_rect.y,
        s.stretched(Handle::W, at).h == s.orig_rect.h,
        s.stretched(Handle::E, at).y == s.orig_rect.y,
        s.stretched(Handle::E, at).h == s.orig_rect.h,
{
}

/// A selection that lies on the screen and is not too thin stays as it is when the pointer is
/// released.
pub proof fn releasing_changes_nothing_on_the_screen(s: Selector)
    requires
        s.wf(),
        lies_on(s.rect, s.screen_w as int, s.screen_h as int),
    ensures
        s.clipped() == s.rect,
{
}

/// The pointer is over one thing only.
pub proof fn a_hit_is_unique(rect: Rect, at: Point, a: Hit, b: Hit)
    requires
        is_hit(rect, at, a),
        is_hit(rect, at, b),
    ensures
        a == b,
{
    match (a, b) {
        (Hit::Handle(x), Hit::Handle(y)) => {
            assert(x.rank() < y.rank() || y.rank() < x.rank() || x == y);
        },
        (Hit::Handle(x), _) => {
            assert(is_near(rect, x, at));
        },
        (_, Hit::Handle(y)) => {
            assert(is_near(rect, y, at));
        },
        _ => {},
    }
}

/// A selection follows the pointer: while that leaves it on the screen, it moves by as many whole
/// pixels as the pointer has moved since it was pressed. Beyond that it stops at the border. It keeps
/// its size.
pub proof fn a_selection_moves_by_what_the_pointer_moved(s: &mut Selector, at: Point, n: int, m: int)
    requires
        call_ensures(Selector::motion, (s, at), ()),
        old(s).wf(),
        old(s).mode is Moving,
        old(s).orig_rect.w <= old(s).screen_w,
        old(s).orig_rect.h <= old(s).screen_h,
        at.x >= old(s).drag_anchor.x ==> 1000 * n <= at.x - old(s).drag_anchor.x < 1000 * n + 1000,
        at.x < old(s).drag_anchor.x ==> 1000 * n - 1000 < at.x - old(s).drag_anchor.x <= 1000 * n,
        at.y >= old(s).drag_anchor.y ==> 1000 * m <= at.y - old(s).drag_anchor.y < 1000 * m + 1000,
        at.y < old(s).drag_anchor.y ==> 1000 * m - 1000 < at.y - old(s).drag_anchor.y <= 1000 * m,
    ensures
        ({
            let (r, o) = (final(s).rect, old(s).orig_rect);
            &&& r.w == o.w && r.h == o.h
            &&& 0 <= o.x + n && o.x + n + o.w <= old(s).screen_w ==> r.x - o.x == n
            &&& 0 <= o.y + m && o.y + m + o.h <= old(s).screen_h ==> r.y - o.y == m
            &&& o.x + n < 0 ==> r.x == 0
            &&& o.y + m < 0 ==> r.y == 0
            &&& o.x + n + o.w > old(s).screen_w ==> r.x + r.w == old(s).screen_w
            &&& o.y + m + o.h > old(s).screen_h ==> r.y + r.h == old(s).screen_h
        }),
{
}

/// A selection on the screen that is pressed inside and dragged back to the place of the press is
/// where it was.
pub proof fn a_drag_to_where_it_began_changes_nothing(
    s: &mut Selector,
    hit: Hit,
    t: &mut Selector,
    at: Point,
)
    requires
        old(s).wf(),
        lies_on(old(s).rect, old(s).screen_w as int, old(s).screen_h as int),
        call_ensures(Selector::hit_test, (&*old(s), at), hit),
        hit is Inside,
        call_ensures(Selector::press, (s, at), ()),
        old(t).mode == final(s).mode,
        old(t).drag_anchor == final(s).drag_anchor,
        old(t).orig_rect == final(s).orig_rect,
        old(t).screen_w == final(s).screen_w,
        old(t).screen_h == final(s).screen_h,
        call_ensures(Selector::motion, (t, at), ()),
    ensures
        final(s).mode is Moving,
        final(s).rect == old(s).rect,
        final(t).rect == old(s).rect,
{
    let h = choose|h: Hit| #[trigger]
        is_hit(old(s).rect, at, h) && *final(s) == old(s).pressed(at, h);
    a_hit_is_unique(old(s).rect, at, h, hit);
}

/// A selection that is being drawn reaches from the pixel where the pointer was pressed to the one
/// where it is.
pub proof fn a_drawn_selection_spans_the_drag(
    s: &mut Selector,
    at: Point,
    ax: int,
    ay: int,
    px: int,
    py: int,
)
    requires
        call_ensures(Selector::motion, (s, at), ()),
        old(s).mode is Selecting,
        0 <= 1000 * ax <= old(s).drag_anchor.x < 1000 * ax + 1000,
        0 <= 1000 * ay <= old(s).drag_anchor.y < 1000 * ay + 1000,
        0 <= 1000 * px <= at.x < 1000 * px + 1000,
        0 <= 1000 * py <= at.y < 1000 * py + 1000,
    ensures
        ({
            let r = final(s).rect;
            &&& r.x <= ax && r.x <= px && (r.x == ax || r.x == px)
            &&& r.y <= ay && r.y <= py && (r.y == ay || r.y == py)
            &&& r.x + r.w >= ax && r.x + r.w >= px && (r.x + r.w == ax || r.x + r.w == px)
            &&& r.y + r.h >= ay && r.y + r.h >= py && (r.y + r.h == ay || r.y + r.h == py)
        }),
{
}

/// A side that is dragged follows the pointer on the screen, and the other sides stay. Past the
/// opposite side the selection lies on the other side of it.
pub proof fn a_dragged_side_follows_the_pointer(
    s: &mut Selector,
    at: Point,
    handle: Handle,
    px: int,
    py: int,
)
    requires
        call_ensures(Selector::motion, (s, at), ()),
        old(s).wf(),
        old(s).mode is Resizing,
        old(s).active_handle == Some(handle),
        lies_on(old(s).orig_rect, old(s).screen_w as int, old(s).screen_h as int),
        0 <= 1000 * px <= at.x < 1000 * px + 1000,
        0 <= 1000 * py <= at.y < 1000 * py + 1000,
        px <= old(s).screen_w,
        py <= old(s).screen_h,
    ensures
        ({
            let (r, o) = (final(s).rect, old(s).orig_rect);
            let (left, right) = (o.x as int, o.x + o.w);
            let (top, bottom) = (o.y as int, o.y + o.h);
            &&& handle is W || handle is Nw || handle is Sw ==> (px <= right ==> r.x == px && r.x
                + r.w == right) && (px > right ==> r.x == right && r.x + r.w == px)
            &&& handle is E || handle is Ne || handle is Se ==> (px >= left ==> r.x == left && r.x
                + r.w == px) && (px < left ==> r.x == px && r.x + r.w == left)
            &&& handle is N || handle is S ==> r.x == left && r.x + r.w == right
            &&& handle is N || handle is Nw || handle is Ne ==> (py <= bottom ==> r.y == py && r.y
                + r.h == bottom) && (py > bottom ==> r.y == bottom && r.y + r.h == py)
            &&& handle is S || handle is Sw || handle is Se ==> (py >= top ==> r.y == top && r.y
                + r.h == py) && (py < top ==> r.y == py && r.y + r.h == top)
            &&& handle is W || handle is E ==> r.y == top && r.y + r.h == bottom
        }),
{
}

/// A motion without a pressed button changes nothing.
pub proof fn a_free_motion_changes_nothing(s: &mut Selector, at: Point)
    requires
        call_ensures(Selector::motion, (s, at), ()),
        old(s).mode is Idle || old(s).mode is HasSelection,
    ensures
        *final(s) == *old(s),
{
}

/// A press within six pixels of a handle takes it, with the earlier handles going before the later
/// ones; a press elsewhere in the selection takes the selection, and one outside takes neither. The
/// handles lie at the corners and in the middle of the sides.
pub proof fn a_press_takes_what_is_there(s: &Selector, at: Point, hit: Hit)
    requires
        s.wf(),
        call_ensures(Selector::hit_test, (s, at), hit),
    ensures
        ({
            let r = s.rect;
            let left = -6000 <= at.x - 1000 * r.x <= 6000;
            let middle = -6000 <= at.x - (1000 * r.x + 500 * r.w) <= 6000;
            let right = -6000 <= at.x - 1000 * (r.x + r.w) <= 6000;
            let top = -6000 <= at.y - 1000 * r.y <= 6000;
            let centre = -6000 <= at.y - (1000 * r.y + 500 * r.h) <= 6000;
            let bottom = -6000 <= at.y - 1000 * (r.y + r.h) <= 6000;
            let on_handle = (top || bottom) && (left || middle || right) || centre && (left
                || right);
            let inside = 1000 * r.x <= at.x < 1000 * (r.x + r.w) && 1000 * r.y <= at.y < 1000 * (r.y
                + r.h);
            &&& !(r.w > 0 && r.h > 0) ==> hit is Outside
            &&& r.w > 0 && r.h > 0 ==> {
                &&& hit is Handle <==> on_handle
                &&& hit is Inside <==> inside && !on_handle
                &&& hit == Hit::Handle(Handle::Nw) <==> left && top
                &&& hit == Hit::Handle(Handle::N) ==> middle && top
                &&& hit == Hit::Handle(Handle::Ne) ==> right && top
                &&& hit == Hit::Handle(Handle::E) ==> right && centre
                &&& hit == Hit::Handle(Handle::Se) ==> right && bottom
                &&& hit == Hit::Handle(Handle::S) ==> middle && bottom
                &&& hit == Hit::Handle(Handle::Sw) ==> left && bottom
                &&& hit == Hit::Handle(Handle::W) ==> left && centre
            }
        }),
{
    let r = s.rect;
    let (w, h) = (r.w as int, r.h as int);
    assert(w * 500 * 0 == 0 && w * 500 * 1 == 500 * w && w * 500 * 2 == 1000 * w)
        by (nonlinear_arith);
    assert(h * 500 * 0 == 0 && h * 500 * 1 == 500 * h && h * 500 * 2 == 1000 * h)
        by (nonlinear_arith);
    let left = -6000 <= at.x - 1000 * r.x <= 6000;
    let middle = -6000 <= at.x - (1000 * r.x + 500 * r.w) <= 6000;
    let right = -6000 <= at.x - 1000 * (r.x + r.w) <= 6000;
    let top = -6000 <= at.y - 1000 * r.y <= 6000;
    let centre = -6000 <= at.y - (1000 * r.y + 500 * r.h) <= 6000;
    let bottom = -6000 <= at.y - 1000 * (r.y + r.h) <= 6000;
    assert(is_near(r, Handle::Nw, at) == (left && top));
    assert(is_near(r, Handle::N, at) == (middle && top));
    assert(is_near(r, Handle::Ne, at) == (right && top));
    assert(is_near(r, Handle::E, at) == (right && centre));
    assert(is_near(r, Handle::Se, at) == (right && bottom));
    assert(is_near(r, Handle::S, at) == (middle && bottom));
    assert(is_near(r, Handle::Sw, at) == (left && bottom));
    assert(is_near(r, Handle::W, at) == (left && centre));
}

/// A press on a handle resizes the selection by it, one inside moves it and one outside starts a new
/// selection at the pixel of the press. Each notes where the pointer was and what was selected.
pub proof fn a_press_starts_what_it_takes(s: &mut Selector, at: Point, hit: Hit)
    requires
        old(s).wf(),
        call_ensures(Selector::hit_test, (&*old(s), at), hit),
        call_ensures(Selector::press, (s, at), ()),
    ensures
        final(s).drag_anchor == at,
        final(s).orig_rect == old(s).rect,
        final(s).screen_w == old(s).screen_w && final(s).screen_h == old(s).screen_h,
        hit matches Hit::Handle(h) ==> final(s).mode is Resizing && final(s).active_handle == Some(
            h,
        ) && final(s).rect == old(s).rect,
        hit is Inside ==> final(s).mode is Moving && final(s).rect == old(s).rect,
        hit is Outside ==> final(s).mode is Selecting && final(s).rect.w == 0 && final(s).rect.h
            == 0,
        hit is Outside && at.x >= 0 ==> 1000 * final(s).rect.x <= at.x < 1000 * final(s).rect.x
            + 1000,
        hit is Outside && at.y >= 0 ==> 1000 * final(s).rect.y <= at.y < 1000 * final(s).rect.y
            + 1000,
{
    let h = choose|h: Hit| #[trigger]
        is_hit(old(s).rect, at, h) && *final(s) == old(s).pressed(at, h);
    a_hit_is_unique(old(s).rect, at, h, hit);
}

/// What is left of a drag is the part on the screen, or nothing where that is narrower or lower than
/// four pixels. Either way nothing is dragged any more.
pub proof fn a_release_keeps_what_is_on_the_screen(s: &mut Selector, px: int, py: int)
    requires
        old(s).wf(),
        call_ensures(Selector::release, (s,), ()),
        0 <= px < old(s).screen_w,
        0 <= py < old(s).screen_h,
    ensures
        final(s).active_handle is None,
        ({
            let (r, o) = (final(s).rect, old(s).rect);
            let inside = |q: Rect| q.x <= px < q.x + q.w && q.y <= py < q.y + q.h;
            &&& final(s).mode is Idle || final(s).mode is HasSelection
            &&& final(s).mode is HasSelection ==> r.w >= 4 && r.h >= 4 && inside(r) == inside(o)
            &&& final(s).mode is Idle ==> r.w == 0 && r.h == 0
            &&& 0 <= o.x && 0 <= o.y && o.x + o.w <= old(s).screen_w && o.y + o.h <= old(
                s,
            ).screen_h ==> if o.w >= 4 && o.h >= 4 {
                final(s).mode is HasSelection && r == o
            } else {
                final(s).mode is Idle
            }
        }),
{
}

/// All of the screen is every pixel of it and no other one, and nothing is no pixel.
pub proof fn all_is_all_and_nothing_is_nothing(
    s: &mut Selector,
    t: &mut Selector,
    px: int,
    py: int,
)
    requires
        call_ensures(Selector::select_all, (s,), ()),
        call_ensures(Selector::clear, (t,), ()),
    ensures
        ({
            let r = final(s).rect;
            (r.x <= px < r.x + r.w && r.y <= py < r.y + r.h) <==> (0 <= px < old(s).screen_w && 0
                <= py < old(s).screen_h)
        }),
        final(s).mode is HasSelection,
        final(t).rect.w == 0 && final(t).rect.h == 0,
        final(t).mode is Idle,
{
}

} // verus!
