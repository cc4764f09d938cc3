//! Where the control panel of a long shot may stand.
//!
//! What is on the screen is in the picture, so the panel stands beside the selection or nowhere.

use vstd::prelude::*;

use crate::geom::{Edge, Rect};

verus! {

/// The distance of the panel from the side of the screen.
pub const PANEL_MARGIN: i32 = 24;

/// The size of a horizontal rail that the selection stage reckons with.
pub const MICRO_HINT_HORIZONTAL: (i32, i32) = (320, 64);

/// The size of a vertical rail that the selection stage reckons with.
pub const MICRO_HINT_VERTICAL: (i32, i32) = (104, 184);

/// The sizes of the rail.
#[derive(Debug, Clone, Copy)]
pub struct MicroPanelSizes {
    pub horizontal: (i32, i32),
    pub vertical: (i32, i32),
}

/// The difference as far as it can be held.
pub open spec fn bounded(n: int) -> int {
    if n < i32::MIN {
        i32::MIN as int
    } else if n > i32::MAX {
        i32::MAX as int
    } else {
        n
    }
}

fn minus(a: i32, b: i32) -> (r: i32)
    ensures
        r == bounded(a - b),
{
    let d: i64 = a as i64 - b as i64;
    if d < i32::MIN as i64 {
        i32::MIN
    } else if d > i32::MAX as i64 {
        i32::MAX
    } else {
        d as i32
    }
}

/// The room between a side of the screen and the selection.
pub open spec fn gap(edge: Edge, rect: Rect, screen: (i32, i32)) -> int {
    match edge {
        Edge::Top => rect.y as int,
        Edge::Bottom => bounded(screen.1 - rect.end_y()),
        Edge::Left => rect.x as int,
        Edge::Right => bounded(screen.0 - rect.end_x()),
    }
}

/// The side of the panel that takes up the room: its height above and below, its width beside.
pub open spec fn need(edge: Edge, size: (i32, i32)) -> i32 {
    match edge {
        Edge::Top | Edge::Bottom => size.1,
        Edge::Left | Edge::Right => size.0,
    }
}

/// The panel fits on the screen, and between the selection and the given side.
pub open spec fn has_room(edge: Edge, rect: Rect, screen: (i32, i32), size: (i32, i32)) -> bool {
    &&& 0 < size.0 <= screen.0
    &&& 0 < size.1 <= screen.1
    &&& gap(edge, rect, screen) >= need(edge, size) + PANEL_MARGIN
}

/// The size of the rail at a side: flat above and below, upright beside.
pub open spec fn micro_size(edge: Edge, sizes: MicroPanelSizes) -> (i32, i32) {
    match edge {
        Edge::Top | Edge::Bottom => sizes.horizontal,
        Edge::Left | Edge::Right => sizes.vertical,
    }
}

/// The length of the rail along a side.
pub open spec fn along(edge: Edge, size: (i32, i32)) -> i32 {
    match edge {
        Edge::Top | Edge::Bottom => size.0,
        Edge::Left | Edge::Right => size.1,
    }
}

/// The length of a side of the screen.
pub open spec fn side_length(edge: Edge, screen: (i32, i32)) -> i32 {
    match edge {
        Edge::Top | Edge::Bottom => screen.0,
        Edge::Left | Edge::Right => screen.1,
    }
}

/// The rail fits along the given side, and between the selection and that side.
pub open spec fn micro_has_room(
    edge: Edge,
    rect: Rect,
    screen: (i32, i32),
    sizes: MicroPanelSizes,
) -> bool {
    let size = micro_size(edge, sizes);
    &&& along(edge, size) <= side_length(edge, screen)
    &&& need(edge, size) > 0
    &&& gap(edge, rect, screen) >= need(edge, size) + PANEL_MARGIN
}

/// The sides in the order in which they are looked at.
pub open spec fn rank(edge: Edge) -> int {
    match edge {
        Edge::Top => 0,
        Edge::Bottom => 1,
        Edge::Left => 2,
        Edge::Right => 3,
    }
}

/// One side, looked at.
pub struct Side {
    pub gap: i32,
    pub need: i32,
    pub fits: bool,
}

/// The four sides, looked at.
pub struct Sides {
    pub top: Side,
    pub bottom: Side,
    pub left: Side,
    pub right: Side,
}

impl Sides {
    /// What was found of a side.
    pub open spec fn at(self, edge: Edge) -> Side {
        match edge {
            Edge::Top => self.top,
            Edge::Bottom => self.bottom,
            Edge::Left => self.left,
            Edge::Right => self.right,
        }
    }

    /// A side is to be preferred to another: it leaves more room, or as much and comes later.
    pub open spec fn better(self, a: Edge, b: Edge) -> bool {
        let spare_a = self.at(a).gap - self.at(a).need;
        let spare_b = self.at(b).gap - self.at(b).need;
        spare_a > spare_b || (spare_a == spare_b && rank(a) > rank(b))
    }

    /// The outcome is the best side that fits, with its room and what of it is needed.
    pub open spec fn is_choice(self, r: Option<(Edge, i32, i32)>) -> bool {
        match r {
            None => forall|e: Edge| !(#[trigger] self.at(e)).fits,
            Some((edge, gap, need)) => {
                &&& self.at(edge).fits
                &&& gap == self.at(edge).gap
                &&& need == self.at(edge).need
                &&& forall|e: Edge|
                    (#[trigger] self.at(e)).fits && e != edge ==> self.better(edge, e)
            },
        }
    }
}

fn prefer(best: Option<(Edge, i32, i32)>, edge: Edge, side: &Side) -> (r: Option<(Edge, i32, i32)>)
    ensures
        r == if side.fits && (best is None || side.gap - side.need >= (best->0).1 - (best->0).2) {
            Some((edge, side.gap, side.need))
        } else {
            best
        },
{
    if !side.fits {
        return best;
    }
    match best {
        None => Some((edge, side.gap, side.need)),
        Some((_, gap, need)) => if side.gap as i64 - side.need as i64 >= gap as i64 - need as i64 {
            Some((edge, side.gap, side.need))
        } else {
            best
        },
    }
}

fn roomiest(sides: &Sides) -> (r: Option<(Edge, i32, i32)>)
    ensures
        sides.is_choice(r),
{
    let first = prefer(None, Edge::Top, &sides.top);
    let second = prefer(first, Edge::Bottom, &sides.bottom);
    let third = prefer(second, Edge::Left, &sides.left);
    let r = prefer(third, Edge::Right, &sides.right);
    proof {
        assert(sides.at(Edge::Top) == sides.top);
        assert(sides.at(Edge::Bottom) == sides.bottom);
        assert(sides.at(Edge::Left) == sides.left);
        assert(sides.at(Edge::Right) == sides.right);
    }
    r
}

/// The side at which a panel leaves the most room, if it fits anywhere; of two such sides the one
/// that comes later.
pub open spec fn is_panel_edge(
    r: Option<(Edge, i32, i32)>,
    rect: Rect,
    screen: (i32, i32),
    size: (i32, i32),
) -> bool {
    match r {
        None => forall|e: Edge| !#[trigger] has_room(e, rect, screen, size),
        Some((edge, room, needed)) => {
            &&& has_room(edge, rect, screen, size)
            &&& room == gap(edge, rect, screen)
            &&& needed == need(edge, size)
            &&& forall|e: Edge| #[trigger]
                has_room(e, rect, screen, size) && e != edge ==> {
                    let spare = gap(e, rect, screen) - need(e, size);
                    room - needed > spare || (room - needed == spare && rank(edge) > rank(e))
                }
        },
    }
}

/// The side at which a panel leaves the most room, with that room and what of it is needed.
pub fn panel_edge(rect: Rect, screen: (i32, i32), panel_w: i32, panel_h: i32) -> (r: Option<
    (Edge, i32, i32),
>)
    ensures
        is_panel_edge(r, rect, screen, (panel_w, panel_h)),
{
    let sides = Sides {
        top: Side {
            gap: rect.y,
            need: panel_h,
            fits: edge_has_room(Edge::Top, rect, screen, panel_w, panel_h),
        },
        bottom: Side {
            gap: minus(screen.1, rect.bottom()),
            need: panel_h,
            fits: edge_has_room(Edge::Bottom, rect, screen, panel_w, panel_h),
        },
        left: Side {
            gap: rect.x,
            need: panel_w,
            fits: edge_has_room(Edge::Left, rect, screen, panel_w, panel_h),
        },
        right: Side {
            gap: minus(screen.0, rect.right()),
            need: panel_w,
            fits: edge_has_room(Edge::Right, rect, screen, panel_w, panel_h),
        },
    };
    let r = roomiest(&sides);
    proof {
        assert forall|e: Edge| #[trigger]
            has_room(e, rect, screen, (panel_w, panel_h)) == sides.at(e).fits && sides.at(e).gap
                == gap(e, rect, screen) && sides.at(e).need == need(e, (panel_w, panel_h)) by {}
    }
    r
}

/// The side at which the rail leaves the most room, if it fits anywhere; of two such sides the one
/// that comes later.
pub open spec fn is_micro_edge(
    r: Option<(Edge, i32, i32)>,
    rect: Rect,
    screen: (i32, i32),
    sizes: MicroPanelSizes,
) -> bool {
    match r {
        None => forall|e: Edge| !#[trigger] micro_has_room(e, rect, screen, sizes),
        Some((edge, room, needed)) => {
            &&& micro_has_room(edge, rect, screen, sizes)
            &&& room == gap(edge, rect, screen)
            &&& needed == need(edge, micro_size(edge, sizes))
            &&& forall|e: Edge| #[trigger]
                micro_has_room(e, rect, screen, sizes) && e != edge ==> {
                    let spare = gap(e, rect, screen) - need(e, micro_size(e, sizes));
                    room - needed > spare || (room - needed == spare && rank(edge) > rank(e))
                }
        },
    }
}

fn micro_side(gap: i32, need: i32, along_fits: bool) -> (s: Side)
    ensures
        s.gap == gap,
        s.need == need,
        s.fits == (along_fits && need > 0 && gap >= need + PANEL_MARGIN),
{
    Side { gap, need, fits: along_fits && need > 0 && gap as i64 >= need as i64 + 24 }
}

/// The side at which the rail leaves the most room, with that room and what of it is needed. Only
/// the thickness of the rail takes up room, but its length has to fit on the screen, so that every
/// control can be reached.
pub fn micro_panel_edge(rect: Rect, screen: (i32, i32), sizes: MicroPanelSizes) -> (r: Option<
    (Edge, i32, i32),
>)
    ensures
        is_micro_edge(r, rect, screen, sizes),
{
    let flat: bool = sizes.horizontal.0 <= screen.0;
    let upright: bool = sizes.vertical.1 <= screen.1;
    let sides = Sides {
        top: micro_side(rect.y, sizes.horizontal.1, flat),
        bottom: micro_side(minus(screen.1, rect.bottom()), sizes.horizontal.1, flat),
        left: micro_side(rect.x, sizes.vertical.0, upright),
        right: micro_side(minus(screen.0, rect.right()), sizes.vertical.0, upright),
    };
    let r = roomiest(&sides);
    proof {
        assert forall|e: Edge| #[trigger]
            micro_has_room(e, rect, screen, sizes) == sides.at(e).fits && sides.at(e).gap == gap(
                e,
                rect,
                screen,
            ) && sides.at(e).need == need(e, micro_size(e, sizes)) by {}
    }
    r
}

/// Whether a panel fits on the screen, and between the selection and the given side.
pub fn edge_has_room(
    edge: Edge,
    rect: Rect,
    screen: (i32, i32),
    panel_w: i32,
    panel_h: i32,
) -> (r: bool)
    ensures
        r == has_room(edge, rect, screen, (panel_w, panel_h)),
{
    let room: i32 = match edge {
        Edge::Top => rect.y,
        Edge::Bottom => minus(screen.1, rect.bottom()),
        Edge::Left => rect.x,
        Edge::Right => minus(screen.0, rect.right()),
    };
    let needed: i32 = match edge {
        Edge::Top | Edge::Bottom => panel_h,
        Edge::Left | Edge::Right => panel_w,
    };
    panel_w > 0 && panel_h > 0 && panel_w <= screen.0 && panel_h <= screen.1 && room as i64
        >= needed as i64 + 24
}

/// The selection is a part of the screen.
pub open spec fn fits_screen(rect: Rect, screen: (i32, i32)) -> bool {
    &&& rect.has_area()
    &&& 0 <= rect.x
    &&& rect.x + rect.w <= screen.0
    &&& 0 <= rect.y
    &&& rect.y + rect.h <= screen.1
}

/// Whether the selection is a part of the screen.
pub fn selection_fits_screen(rect: Rect, screen: (i32, i32)) -> (r: bool)
    ensures
        r == fits_screen(rect, screen),
{
    rect.valid() && rect.x >= 0 && rect.y >= 0 && rect.x as i64 + rect.w as i64 <= screen.0 as i64
        && rect.y as i64 + rect.h as i64 <= screen.1 as i64
}

/// The size of the screen, where it is known well enough to stand something on it: there is one
/// output, of the size of the picture that the selection was made in, and the selection lies in
/// it. With several outputs the coordinates of the two need not agree.
pub fn proven_screen(
    expected: Option<(i32, i32)>,
    outputs: usize,
    logical: (i32, i32),
    rect: Rect,
) -> (r: Option<(i32, i32)>)
    ensures
        r == if expected == Some(logical) && outputs == 1 && fits_screen(rect, logical) {
            Some(logical)
        } else {
            None
        },
{
    match expected {
        None => None,
        Some(size) => if outputs == 1 && size.0 == logical.0 && size.1 == logical.1
            && selection_fits_screen(rect, logical) {
            Some(logical)
        } else {
            None
        },
    }
}

/// What the selection stage says of the panel.
#[derive(Debug, Clone, Copy, PartialEq, Eq, Structural)]
pub enum SelectionPanelNotice {
    ControlExpected,
    ControlMayHide,
}

/// The rail that the selection stage reckons with.
pub open spec fn envelope() -> MicroPanelSizes {
    MicroPanelSizes { horizontal: MICRO_HINT_HORIZONTAL, vertical: MICRO_HINT_VERTICAL }
}

/// Says, while the selection is made, whether a control can be expected beside it.
pub fn selection_panel_notice(rect: Rect, screen: (i32, i32)) -> (r: SelectionPanelNotice)
    ensures
        r == if fits_screen(rect, screen) && exists|e: Edge| #[trigger]
            micro_has_room(e, rect, screen, envelope()) {
            SelectionPanelNotice::ControlExpected
        } else {
            SelectionPanelNotice::ControlMayHide
        },
{
    let sizes = MicroPanelSizes {
        horizontal: MICRO_HINT_HORIZONTAL,
        vertical: MICRO_HINT_VERTICAL,
    };
    let edge = micro_panel_edge(rect, screen, sizes);
    if selection_fits_screen(rect, screen) && edge.is_some() {
        assert(micro_has_room((edge->0).0, rect, screen, envelope()));
        SelectionPanelNotice::ControlExpected
    } else {
        SelectionPanelNotice::ControlMayHide
    }
}

/// Why the panel is not shown.
#[derive(Debug, Clone, Copy, PartialEq, Eq, Structural)]
pub enum HiddenReason {
    UnknownScreenGeometry,
    NoSafeSpace,
}

impl HiddenReason {
    /// The reason as it is logged.
    pub fn as_str(self) -> (r: &'static str)
        ensures
            r@ == match self {
                HiddenReason::UnknownScreenGeometry => "unknown_screen_geometry"@,
                HiddenReason::NoSafeSpace => "no_safe_space"@,
            },
    {
        match self {
            HiddenReason::UnknownScreenGeometry => "unknown_screen_geometry",
            HiddenReason::NoSafeSpace => "no_safe_space",
        }
    }
}

/// Where the panel stands, and how much of it.
#[derive(Debug, Clone, Copy, PartialEq, Eq, Structural)]
pub enum Placement {
    WithPreview(Edge),
    WithoutPreview(Edge),
    Micro(Edge),
    Hidden(HiddenReason),
}

impl Placement {
    /// The side at which the panel stands.
    pub open spec fn side(self) -> Option<Edge> {
        match self {
            Placement::WithPreview(edge) => Some(edge),
            Placement::WithoutPreview(edge) => Some(edge),
            Placement::Micro(edge) => Some(edge),
            Placement::Hidden(_) => None,
        }
    }

    /// The size that the panel has there.
    pub open spec fn size(
        self,
        full: (i32, i32),
        compact: (i32, i32),
        micro: MicroPanelSizes,
    ) -> Option<(i32, i32)> {
        match self {
            Placement::WithPreview(_) => Some(full),
            Placement::WithoutPreview(_) => Some(compact),
            Placement::Micro(edge) => Some(micro_size(edge, micro)),
            Placement::Hidden(_) => None,
        }
    }

    /// The side at which the panel stands.
    pub fn edge(self) -> (r: Option<Edge>)
        ensures
            r == self.side(),
    {
        match self {
            Placement::WithPreview(edge) => Some(edge),
            Placement::WithoutPreview(edge) => Some(edge),
            Placement::Micro(edge) => Some(edge),
            Placement::Hidden(_) => None,
        }
    }

    /// How much of the panel is shown, as it is logged.
    pub fn mode(self) -> (r: &'static str)
        ensures
            r@ == match self {
                Placement::WithPreview(_) => "with_preview"@,
                Placement::WithoutPreview(_) => "without_preview"@,
                Placement::Micro(_) => "micro"@,
                Placement::Hidden(_) => "hidden"@,
            },
    {
        match self {
            Placement::WithPreview(_) => "with_preview",
            Placement::WithoutPreview(_) => "without_preview",
            Placement::Micro(_) => "micro",
            Placement::Hidden(_) => "hidden",
        }
    }

    /// The size that the panel has there: it is asked for as the least, and never outgrown,
    /// because every text that it may show was measured.
    pub fn expected_size(
        self,
        full: (i32, i32),
        compact: (i32, i32),
        micro: MicroPanelSizes,
    ) -> (r: Option<(i32, i32)>)
        ensures
            r == self.size(full, compact, micro),
    {
        match self {
            Placement::WithPreview(_) => Some(full),
            Placement::WithoutPreview(_) => Some(compact),
            Placement::Micro(edge) => match edge {
                Edge::Top | Edge::Bottom => Some(micro.horizontal),
                Edge::Left | Edge::Right => Some(micro.vertical),
            },
            Placement::Hidden(_) => None,
        }
    }
}

/// Only the whole panel shows the live picture.
pub fn placement_has_live_preview(placement: Placement) -> (r: bool)
    ensures
        r == (placement is WithPreview),
{
    match placement {
        Placement::WithPreview(_) => true,
        _ => false,
    }
}

/// The name of a side, as it is logged.
pub fn edge_name(edge: Edge) -> (r: &'static str)
    ensures
        r@ == match edge {
            Edge::Top => "top"@,
            Edge::Bottom => "bottom"@,
            Edge::Left => "left"@,
            Edge::Right => "right"@,
        },
{
    match edge {
        Edge::Top => "top",
        Edge::Bottom => "bottom",
        Edge::Left => "left",
        Edge::Right => "right",
    }
}

/// No side has room for a panel of the given size.
pub open spec fn nowhere(rect: Rect, screen: (i32, i32), size: (i32, i32)) -> bool {
    forall|e: Edge| !#[trigger] has_room(e, rect, screen, size)
}

/// The side is the one for a panel of the given size.
pub open spec fn is_edge_for(edge: Edge, rect: Rect, screen: (i32, i32), size: (i32, i32)) -> bool {
    is_panel_edge(
        Some((edge, gap(edge, rect, screen) as i32, need(edge, size))),
        rect,
        screen,
        size,
    )
}

/// The side is the one for a rail of the given sizes.
pub open spec fn is_edge_for_rail(
    edge: Edge,
    rect: Rect,
    screen: (i32, i32),
    sizes: MicroPanelSizes,
) -> bool {
    is_micro_edge(
        Some((edge, gap(edge, rect, screen) as i32, need(edge, micro_size(edge, sizes)))),
        rect,
        screen,
        sizes,
    )
}

/// The placement is right: as much of the panel as has room beside the selection, at the side that
/// leaves the most; none of it if the screen is not known.
pub open spec fn is_placement(
    placement: Placement,
    rect: Rect,
    screen: Option<(i32, i32)>,
    full: (i32, i32),
    compact: (i32, i32),
    micro: MicroPanelSizes,
) -> bool {
    match placement {
        Placement::WithPreview(edge) => screen is Some && is_edge_for(edge, rect, screen->0, full),
        Placement::WithoutPreview(edge) => screen is Some && nowhere(rect, screen->0, full)
            && is_edge_for(edge, rect, screen->0, compact),
        Placement::Micro(edge) => screen is Some && nowhere(rect, screen->0, full) && nowhere(
            rect,
            screen->0,
            compact,
        ) && is_edge_for_rail(edge, rect, screen->0, micro),
        Placement::Hidden(HiddenReason::UnknownScreenGeometry) => screen is None,
        Placement::Hidden(HiddenReason::NoSafeSpace) => screen is Some && nowhere(
            rect,
            screen->0,
            full,
        ) && nowhere(rect, screen->0, compact) && forall|e: Edge|
            !#[trigger] micro_has_room(e, rect, screen->0, micro),
    }
}

/// Chooses as much of the panel as has room beside the selection. There is no side on which the
/// panel would be allowed to cover the selection.
pub fn choose_placement(
    rect: Rect,
    screen: Option<(i32, i32)>,
    full: (i32, i32),
    compact: (i32, i32),
    micro: MicroPanelSizes,
) -> (placement: Placement)
    ensures
        is_placement(placement, rect, screen, full, compact, micro),
{
    let screen: (i32, i32) = match screen {
        None => return Placement::Hidden(HiddenReason::UnknownScreenGeometry),
        Some(s) => s,
    };
    match panel_edge(rect, screen, full.0, full.1) {
        Some((edge, _, _)) => return Placement::WithPreview(edge),
        None => {},
    }
    match panel_edge(rect, screen, compact.0, compact.1) {
        Some((edge, _, _)) => return Placement::WithoutPreview(edge),
        None => {},
    }
    match micro_panel_edge(rect, screen, micro) {
        Some((edge, _, _)) => Placement::Micro(edge),
        None => Placement::Hidden(HiddenReason::NoSafeSpace),
    }
}

/// The pixels that a panel at a side may take up: it keeps its margin from that side.
pub open spec fn in_panel(
    edge: Edge,
    screen: (i32, i32),
    size: (i32, i32),
    px: int,
    py: int,
) -> bool {
    match edge {
        Edge::Top => PANEL_MARGIN <= py < PANEL_MARGIN + size.1,
        Edge::Bottom => screen.1 - PANEL_MARGIN - size.1 <= py < screen.1 - PANEL_MARGIN,
        Edge::Left => PANEL_MARGIN <= px < PANEL_MARGIN + size.0,
        Edge::Right => screen.0 - PANEL_MARGIN - size.0 <= px < screen.0 - PANEL_MARGIN,
    }
}

/// A panel where there is room for it covers no pixel of the selection.
pub proof fn room_keeps_the_panel_clear(
    edge: Edge,
    rect: Rect,
    screen: (i32, i32),
    size: (i32, i32),
    px: int,
    py: int,
)
    requires
        need(edge, size) > 0,
        gap(edge, rect, screen) >= need(edge, size) + PANEL_MARGIN,
        in_panel(edge, screen, size, px, py),
    ensures
        !rect.covers(px, py),
{
}

/// Wherever the panel is placed, it covers no pixel of the selection.
pub proof fn the_panel_never_lands_on_the_selection(
    placement: Placement,
    rect: Rect,
    screen: (i32, i32),
    full: (i32, i32),
    compact: (i32, i32),
    micro: MicroPanelSizes,
    px: int,
    py: int,
)
    requires
        is_placement(placement, rect, Some(screen), full, compact, micro),
        placement.side() is Some,
        in_panel(
            placement.side()->0,
            screen,
            placement.size(full, compact, micro)->0,
            px,
            py,
        ),
    ensures
        !rect.covers(px, py),
{
    room_keeps_the_panel_clear(
        placement.side()->0,
        rect,
        screen,
        placement.size(full, compact, micro)->0,
        px,
        py,
    );
}

/// The placement is settled by the selection, the screen and the sizes.
pub proof fn placement_is_unique(
    a: Placement,
    b: Placement,
    rect: Rect,
    screen: Option<(i32, i32)>,
    full: (i32, i32),
    compact: (i32, i32),
    micro: MicroPanelSizes,
)
    requires
        is_placement(a, rect, screen, full, compact, micro),
        is_placement(b, rect, screen, full, compact, micro),
    ensures
        a == b,
{
    if a.side() is Some && b.side() is Some {
        let s = screen->0;
        let ea = a.side()->0;
        let eb = b.side()->0;
        assert(has_room(ea, rect, s, full) || !has_room(ea, rect, s, full));
        assert(has_room(eb, rect, s, full) || !has_room(eb, rect, s, full));
        assert(has_room(ea, rect, s, compact) || !has_room(ea, rect, s, compact));
        assert(has_room(eb, rect, s, compact) || !has_room(eb, rect, s, compact));
        assert(micro_has_room(ea, rect, s, micro) || !micro_has_room(ea, rect, s, micro));
        assert(micro_has_room(eb, rect, s, micro) || !micro_has_room(eb, rect, s, micro));
    }
}

/// A whole selection of the screen leaves no room.
pub proof fn a_full_screen_selection_hides_the_panel(
    placement: Placement,
    rect: Rect,
    screen: (i32, i32),
    full: (i32, i32),
    compact: (i32, i32),
    micro: MicroPanelSizes,
)
    requires
        rect.x == 0,
        rect.y == 0,
        rect.w == screen.0,
        rect.h == screen.1,
        is_placement(placement, rect, Some(screen), full, compact, micro),
    ensures
        placement == Placement::Hidden(HiddenReason::NoSafeSpace),
{
}

/// What went wrong with the panel.
#[derive(Debug, Clone, Copy, PartialEq, Eq, Structural)]
pub enum PanelFeedback {
    Hidden(HiddenReason),
    MapFailed,
    UnsafeActualGeometry,
}

/// What follows if there is no panel.
#[derive(Debug, Clone, Copy, PartialEq, Eq, Structural)]
pub enum MissingPanelAction {
    ContinueTraceOnly,
    FailBeforeUncontrolledCapture,
}

/// Without a panel a capture goes on only if the daemon can still end it.
pub fn missing_panel_action(daemon_managed: bool) -> (r: MissingPanelAction)
    ensures
        r == if daemon_managed {
            MissingPanelAction::ContinueTraceOnly
        } else {
            MissingPanelAction::FailBeforeUncontrolledCapture
        },
{
    if daemon_managed {
        MissingPanelAction::ContinueTraceOnly
    } else {
        MissingPanelAction::FailBeforeUncontrolledCapture
    }
}

/// How a capture without a panel reports.
#[derive(Debug, Clone, Copy, PartialEq, Eq, Structural)]
pub enum HiddenCaptureFeedback {
    TraceOnly,
}

/// A notification would be in the picture, so only the log hears of it.
pub fn hidden_capture_feedback() -> (r: HiddenCaptureFeedback)
    ensures
        r == HiddenCaptureFeedback::TraceOnly,
{
    HiddenCaptureFeedback::TraceOnly
}

/// What is said of a panel that is not shown: a short reason, a title and an explanation.
pub open spec fn feedback_text(feedback: PanelFeedback) -> (Seq<char>, Seq<char>, Seq<char>) {
    match feedback {
        PanelFeedback::Hidden(HiddenReason::NoSafeSpace) => (
            "panel_hidden"@,
            "Vellum 无法安全显示控制面板"@,
            "选区外空间不足；控制服务不可用时不会启动无法完成的隐藏采集"@,
        ),
        PanelFeedback::Hidden(HiddenReason::UnknownScreenGeometry) => (
            "panel_hidden_unknown_geometry"@,
            "Vellum 无法验证控制面板位置"@,
            "无法证明控制面板位置安全；控制服务不可用时不会开始采集"@,
        ),
        PanelFeedback::MapFailed => (
            "panel_map_failed"@,
            "Vellum 控制面板未显示"@,
            "控制面板未能映射；控制服务不可用时本次采集会安全停止"@,
        ),
        PanelFeedback::UnsafeActualGeometry => (
            "panel_actual_geometry_unsafe"@,
            "Vellum 控制面板尺寸不安全"@,
            "控制面板实际尺寸超出安全空间；控制服务不可用时不会开始采集"@,
        ),
    }
}

/// What is said of a panel that is not shown: a short reason, a title and an explanation.
pub fn panel_feedback(feedback: PanelFeedback) -> (r: (&'static str, &'static str, &'static str))
    ensures
        (r.0@, r.1@, r.2@) == feedback_text(feedback),
{
    match feedback {
        PanelFeedback::Hidden(HiddenReason::NoSafeSpace) => (
            "panel_hidden",
            "Vellum 无法安全显示控制面板",
            "选区外空间不足；控制服务不可用时不会启动无法完成的隐藏采集",
        ),
        PanelFeedback::Hidden(HiddenReason::UnknownScreenGeometry) => (
            "panel_hidden_unknown_geometry",
            "Vellum 无法验证控制面板位置",
            "无法证明控制面板位置安全；控制服务不可用时不会开始采集",
        ),
        PanelFeedback::MapFailed => (
            "panel_map_failed",
            "Vellum 控制面板未显示",
            "控制面板未能映射；控制服务不可用时本次采集会安全停止",
        ),
        PanelFeedback::UnsafeActualGeometry => (
            "panel_actual_geometry_unsafe",
            "Vellum 控制面板尺寸不安全",
            "控制面板实际尺寸超出安全空间；控制服务不可用时不会开始采集",
        ),
    }
}

/// What the check of the panel on the screen found.
#[derive(Debug, Clone, Copy, PartialEq, Eq, Structural)]
pub enum PanelVerification {
    Safe,
    Hide(PanelFeedback),
}

impl PanelVerification {
    /// The finding as it is logged.
    pub fn as_str(self) -> (r: &'static str)
        ensures
            r@ == match self {
                PanelVerification::Safe => "safe"@,
                PanelVerification::Hide(PanelFeedback::MapFailed) => "map_failed"@,
                PanelVerification::Hide(PanelFeedback::UnsafeActualGeometry) =>
                    "unsafe_actual_geometry"@,
                PanelVerification::Hide(PanelFeedback::Hidden(_)) => "hidden"@,
            },
    {
        match self {
            PanelVerification::Safe => "safe",
            PanelVerification::Hide(PanelFeedback::MapFailed) => "map_failed",
            PanelVerification::Hide(PanelFeedback::UnsafeActualGeometry) =>
                "unsafe_actual_geometry",
            PanelVerification::Hide(PanelFeedback::Hidden(_)) => "hidden",
        }
    }
}

/// Checks the panel as it is on the screen: it is there and not smaller than it was measured, and
/// there is room for it at its side.
pub fn verify_panel_allocation(
    placement: Placement,
    rect: Rect,
    screen: Option<(i32, i32)>,
    mapped: bool,
    actual: (i32, i32),
    expected_minimum: Option<(i32, i32)>,
) -> (r: PanelVerification)
    ensures
        r == if !mapped || (expected_minimum matches Some(expected) && (actual.0 < expected.0
            || actual.1 < expected.1)) {
            PanelVerification::Hide(PanelFeedback::MapFailed)
        } else if placement.side() is Some && screen is Some && has_room(
            placement.side()->0,
            rect,
            screen->0,
            actual,
        ) {
            PanelVerification::Safe
        } else {
            PanelVerification::Hide(PanelFeedback::UnsafeActualGeometry)
        },
{
    let short: bool = match expected_minimum {
        Some(expected) => actual.0 < expected.0 || actual.1 < expected.1,
        None => false,
    };
    if !mapped || short {
        return PanelVerification::Hide(PanelFeedback::MapFailed);
    }
    match (placement.edge(), screen) {
        (Some(edge), Some(screen)) => if edge_has_room(edge, rect, screen, actual.0, actual.1) {
            PanelVerification::Safe
        } else {
            PanelVerification::Hide(PanelFeedback::UnsafeActualGeometry)
        },
        _ => PanelVerification::Hide(PanelFeedback::UnsafeActualGeometry),
    }
}

/// A panel that passed the check covers no pixel of the selection.
pub proof fn a_verified_panel_is_clear(
    placement: Placement,
    rect: Rect,
    screen: (i32, i32),
    actual: (i32, i32),
    px: int,
    py: int,
)
    requires
        placement.side() is Some,
        has_room(placement.side()->0, rect, screen, actual),
        in_panel(placement.side()->0, screen, actual, px, py),
    ensures
        !rect.covers(px, py),
{
    room_keeps_the_panel_clear(placement.side()->0, rect, screen, actual, px, py);
}

/// How a recording begins.
#[derive(Debug, Clone, Copy, PartialEq, Eq, Structural)]
pub enum Start {
    /// The panel is shown, and checked once it is there.
    ShowPanel,
    /// The capture begins without a panel.
    CaptureHidden(PanelFeedback),
    /// The recording fails.
    Fail(PanelFeedback),
}

/// How a recording begins, given where its panel stands.
pub fn start(placement: Placement, daemon_managed: bool) -> (r: Start)
    ensures
        r == match placement {
            Placement::Hidden(reason) => if daemon_managed {
                Start::CaptureHidden(PanelFeedback::Hidden(reason))
            } else {
                Start::Fail(PanelFeedback::Hidden(reason))
            },
            _ => Start::ShowPanel,
        },
{
    match placement {
        Placement::Hidden(reason) => match missing_panel_action(daemon_managed) {
            MissingPanelAction::ContinueTraceOnly => Start::CaptureHidden(
                PanelFeedback::Hidden(reason),
            ),
            MissingPanelAction::FailBeforeUncontrolledCapture => Start::Fail(
                PanelFeedback::Hidden(reason),
            ),
        },
        _ => Start::ShowPanel,
    }
}

/// What follows from the check of the panel.
#[derive(Debug, Clone, Copy, PartialEq, Eq, Structural)]
pub enum AfterCheck {
    /// The capture begins.
    Capture,
    /// The panel is closed, and the capture begins once it is gone.
    CloseThenCapture(PanelFeedback),
    /// The recording fails.
    Fail(PanelFeedback),
}

/// What follows from the check of the panel.
pub fn after_check(verification: PanelVerification, daemon_managed: bool) -> (r: AfterCheck)
    ensures
        r == match verification {
            PanelVerification::Safe => AfterCheck::Capture,
            PanelVerification::Hide(feedback) => if daemon_managed {
                AfterCheck::CloseThenCapture(feedback)
            } else {
                AfterCheck::Fail(feedback)
            },
        },
{
    match verification {
        PanelVerification::Safe => AfterCheck::Capture,
        PanelVerification::Hide(feedback) => match missing_panel_action(daemon_managed) {
            MissingPanelAction::ContinueTraceOnly => AfterCheck::CloseThenCapture(feedback),
            MissingPanelAction::FailBeforeUncontrolledCapture => AfterCheck::Fail(feedback),
        },
    }
}

/// The panel vanished: it is reported if it was there and the capture was still running, and the
/// recording fails if nothing else can end it.
pub fn after_unmap(
    was_available: bool,
    sampling: bool,
    finished: bool,
    daemon_managed: bool,
) -> (r: (bool, bool))
    ensures
        r.0 == (was_available && sampling && !finished),
        r.1 == (r.0 && !daemon_managed),
{
    let active: bool = was_available && sampling && !finished;
    let fail: bool = match missing_panel_action(daemon_managed) {
        MissingPanelAction::ContinueTraceOnly => false,
        MissingPanelAction::FailBeforeUncontrolledCapture => active,
    };
    (active, fail)
}

/// A panel goes only where it leaves a margin of 24 pixels to the selection, on the side with the
/// most room to spare. It is nowhere only if no side has that room.
pub proof fn a_panel_goes_where_there_is_most_room(
    rect: Rect,
    screen: (i32, i32),
    panel_w: i32,
    panel_h: i32,
    r: Option<(Edge, i32, i32)>,
)
    requires
        call_ensures(panel_edge, (rect, screen, panel_w, panel_h), r),
        rect.w >= 0 && rect.h >= 0,
        rect.x + rect.w <= i32::MAX && rect.y + rect.h <= i32::MAX,
        i32::MIN < screen.0 - (rect.x + rect.w) < i32::MAX,
        i32::MIN < screen.1 - (rect.y + rect.h) < i32::MAX,
    ensures
        ({
            let fits = 0 < panel_w <= screen.0 && 0 < panel_h <= screen.1;
            let above = rect.y - panel_h;
            let below = screen.1 - (rect.y + rect.h) - panel_h;
            let left = rect.x - panel_w;
            let right = screen.0 - (rect.x + rect.w) - panel_w;
            &&& r is None <==> !fits || (above < 24 && below < 24 && left < 24 && right < 24)
            &&& r matches Some((edge, room, needed)) ==> {
                let spare = match edge {
                    Edge::Top => above,
                    Edge::Bottom => below,
                    Edge::Left => left,
                    Edge::Right => right,
                };
                &&& fits && spare >= 24
                &&& room - needed == spare
                &&& needed == if edge is Top || edge is Bottom {
                    panel_h
                } else {
                    panel_w
                }
                &&& spare >= above && spare >= below && spare >= left && spare >= right
            }
        }),
{
    let size = (panel_w, panel_h);
    let top = has_room(Edge::Top, rect, screen, size);
    let bottom = has_room(Edge::Bottom, rect, screen, size);
    let left = has_room(Edge::Left, rect, screen, size);
    let right = has_room(Edge::Right, rect, screen, size);
}

/// A narrow panel lies along a side that is long enough for it, in the form of that side, and leaves
/// a margin of 24 pixels to the selection.
pub proof fn a_rail_goes_along_its_side(
    rect: Rect,
    screen: (i32, i32),
    sizes: MicroPanelSizes,
    r: Option<(Edge, i32, i32)>,
)
    requires
        call_ensures(micro_panel_edge, (rect, screen, sizes), r),
        rect.w >= 0 && rect.h >= 0,
        rect.x + rect.w <= i32::MAX && rect.y + rect.h <= i32::MAX,
        i32::MIN < screen.0 - (rect.x + rect.w) < i32::MAX,
        i32::MIN < screen.1 - (rect.y + rect.h) < i32::MAX,
    ensures
        ({
            let (h, v) = (sizes.horizontal, sizes.vertical);
            let across = h.0 <= screen.0 && h.1 > 0;
            let down = v.1 <= screen.1 && v.0 > 0;
            let above = rect.y - h.1;
            let below = screen.1 - (rect.y + rect.h) - h.1;
            let left = rect.x - v.0;
            let right = screen.0 - (rect.x + rect.w) - v.0;
            &&& r is None <==> !(across && (above >= 24 || below >= 24)) && !(down && (left >= 24
                || right >= 24))
            &&& r matches Some((edge, room, needed)) ==> {
                let spare = match edge {
                    Edge::Top => above,
                    Edge::Bottom => below,
                    Edge::Left => left,
                    Edge::Right => right,
                };
                &&& spare >= 24 && room - needed == spare
                &&& edge is Top || edge is Bottom ==> across && needed == h.1
                &&& edge is Left || edge is Right ==> down && needed == v.0
                &&& across ==> spare >= above && spare >= below
                &&& down ==> spare >= left && spare >= right
            }
        }),
{
    let top = micro_has_room(Edge::Top, rect, screen, sizes);
    let bottom = micro_has_room(Edge::Bottom, rect, screen, sizes);
    let left = micro_has_room(Edge::Left, rect, screen, sizes);
    let right = micro_has_room(Edge::Right, rect, screen, sizes);
}

/// The panel with the preview is preferred to the one without, and that one to the narrow one. It is
/// hidden only if none has room, or if the screen is not known.
pub proof fn a_larger_panel_is_preferred(
    rect: Rect,
    screen: (i32, i32),
    full: (i32, i32),
    compact: (i32, i32),
    micro: MicroPanelSizes,
    placement: Placement,
    a: Option<(Edge, i32, i32)>,
    b: Option<(Edge, i32, i32)>,
    c: Option<(Edge, i32, i32)>,
)
    requires
        call_ensures(choose_placement, (rect, Some(screen), full, compact, micro), placement),
        call_ensures(panel_edge, (rect, screen, full.0, full.1), a),
        call_ensures(panel_edge, (rect, screen, compact.0, compact.1), b),
        call_ensures(micro_panel_edge, (rect, screen, micro), c),
    ensures
        a matches Some((edge, _, _)) ==> placement == Placement::WithPreview(edge),
        a is None ==> (b matches Some((edge, _, _)) ==> placement == Placement::WithoutPreview(
            edge,
        )),
        a is None && b is None ==> (c matches Some((edge, _, _)) ==> placement == Placement::Micro(
            edge,
        )),
        a is None && b is None && c is None ==> placement == Placement::Hidden(
            HiddenReason::NoSafeSpace,
        ),
{
    let other = match (a, b, c) {
        (Some((edge, _, _)), _, _) => Placement::WithPreview(edge),
        (None, Some((edge, _, _)), _) => Placement::WithoutPreview(edge),
        (None, None, Some((edge, _, _))) => Placement::Micro(edge),
        (None, None, None) => Placement::Hidden(HiddenReason::NoSafeSpace),
    };
    assert((full.0, full.1) == full && (compact.0, compact.1) == compact);
    assert(is_placement(other, rect, Some(screen), full, compact, micro));
    placement_is_unique(placement, other, rect, Some(screen), full, compact, micro);
}

/// Without a known screen the panel is hidden.
pub proof fn an_unknown_screen_hides_the_panel(
    rect: Rect,
    full: (i32, i32),
    compact: (i32, i32),
    micro: MicroPanelSizes,
    placement: Placement,
)
    requires
        call_ensures(choose_placement, (rect, None, full, compact, micro), placement),
    ensures
        placement == Placement::Hidden(HiddenReason::UnknownScreenGeometry),
{
}

/// A screen is taken for known only if there is one output, it is the one that was expected and the
/// selection lies on it.
pub proof fn a_screen_is_proven(
    expected: Option<(i32, i32)>,
    outputs: usize,
    logical: (i32, i32),
    rect: Rect,
    r: Option<(i32, i32)>,
)
    requires
        call_ensures(proven_screen, (expected, outputs, logical, rect), r),
    ensures
        r matches Some(screen) ==> {
            &&& screen == logical
            &&& expected == Some(logical)
            &&& outputs == 1
            &&& rect.w > 0 && rect.h > 0
            &&& 0 <= rect.x && rect.x + rect.w <= logical.0
            &&& 0 <= rect.y && rect.y + rect.h <= logical.1
        },
        expected == Some(logical) && outputs == 1 && rect.w > 0 && rect.h > 0 && 0 <= rect.x
            && rect.x + rect.w <= logical.0 && 0 <= rect.y && rect.y + rect.h <= logical.1
            ==> r is Some,
{
}

/// A panel on the screen is safe only if it was mapped at its size and leaves its margin to the
/// selection. A larger panel is no safer.
pub proof fn a_safe_panel_leaves_its_margin(
    placement: Placement,
    rect: Rect,
    screen: Option<(i32, i32)>,
    mapped: bool,
    actual: (i32, i32),
    expected_minimum: Option<(i32, i32)>,
    r: PanelVerification,
    edge: Option<Edge>,
)
    requires
        call_ensures(
            verify_panel_allocation,
            (placement, rect, screen, mapped, actual, expected_minimum),
            r,
        ),
        call_ensures(Placement::edge, (placement,), edge),
    ensures
        r is Safe ==> {
            &&& mapped
            &&& expected_minimum matches Some(least) ==> actual.0 >= least.0 && actual.1 >= least.1
            &&& screen is Some && edge is Some
            &&& 0 < actual.0 <= (screen->0).0 && 0 < actual.1 <= (screen->0).1
            &&& edge->0 is Top ==> rect.y >= actual.1 + 24
            &&& edge->0 is Left ==> rect.x >= actual.0 + 24
            &&& edge->0 is Bottom ==> rect.y + rect.h + actual.1 + 24 <= (screen->0).1
            &&& edge->0 is Right ==> rect.x + rect.w + actual.0 + 24 <= (screen->0).0
        },
        !mapped ==> r == PanelVerification::Hide(PanelFeedback::MapFailed),
{
}

/// Nothing is recorded without a panel unless a daemon can end it.
pub proof fn an_unmanaged_capture_needs_its_panel(
    placement: Placement,
    s: Start,
    verification: PanelVerification,
    c: AfterCheck,
    was_available: bool,
    sampling: bool,
    finished: bool,
    u: (bool, bool),
    m: MissingPanelAction,
)
    requires
        call_ensures(start, (placement, false), s),
        call_ensures(after_check, (verification, false), c),
        call_ensures(after_unmap, (was_available, sampling, finished, false), u),
        call_ensures(missing_panel_action, (false,), m),
    ensures
        s is ShowPanel <==> !(placement is Hidden),
        s is Fail <==> placement is Hidden,
        c is Capture <==> verification is Safe,
        c is Fail <==> !(verification is Safe),
        u.1 <==> was_available && sampling && !finished,
        m is FailBeforeUncontrolledCapture,
{
}

/// With a daemon that can end it, a recording goes on without its panel.
pub proof fn a_managed_capture_goes_on(
    placement: Placement,
    s: Start,
    verification: PanelVerification,
    c: AfterCheck,
    was_available: bool,
    sampling: bool,
    finished: bool,
    u: (bool, bool),
)
    requires
        call_ensures(start, (placement, true), s),
        call_ensures(after_check, (verification, true), c),
        call_ensures(after_unmap, (was_available, sampling, finished, true), u),
    ensures
        !(s is Fail) && !(c is Fail) && !u.1,
        s is ShowPanel <==> !(placement is Hidden),
        c is Capture <==> verification is Safe,
        c matches AfterCheck::CloseThenCapture(f) ==> verification == PanelVerification::Hide(f),
{
}

/// A control is expected only where the selection lies on the screen and leaves room for the narrow
/// panel.
pub proof fn a_control_is_expected_where_it_fits(
    rect: Rect,
    screen: (i32, i32),
    r: SelectionPanelNotice,
    fits: bool,
    edge: Option<(Edge, i32, i32)>,
)
    requires
        call_ensures(selection_panel_notice, (rect, screen), r),
        call_ensures(selection_fits_screen, (rect, screen), fits),
        call_ensures(
            micro_panel_edge,
            (rect, screen, MicroPanelSizes { horizontal: (320, 64), vertical: (104, 184) }),
            edge,
        ),
    ensures
        r is ControlExpected <==> fits && edge is Some,
        fits <==> rect.w > 0 && rect.h > 0 && 0 <= rect.x && 0 <= rect.y && rect.x + rect.w
            <= screen.0 && rect.y + rect.h <= screen.1,
{
    assert(envelope() == (MicroPanelSizes { horizontal: (320, 64), vertical: (104, 184) }));
    if let Some((e, _, _)) = edge {
        assert(micro_has_room(e, rect, screen, envelope()));
    }
}

/// A placement has the size of the panel that it shows, and a hidden one has none. Only the full panel
/// shows the preview.
pub proof fn a_placement_has_its_size(
    placement: Placement,
    full: (i32, i32),
    compact: (i32, i32),
    micro: MicroPanelSizes,
    r: Option<(i32, i32)>,
    edge: Option<Edge>,
    live: bool,
)
    requires
        call_ensures(Placement::expected_size, (placement, full, compact, micro), r),
        call_ensures(Placement::edge, (placement,), edge),
        call_ensures(placement_has_live_preview, (placement,), live),
    ensures
        placement is WithPreview ==> r == Some(full),
        placement is WithoutPreview ==> r == Some(compact),
        placement matches Placement::Micro(e) ==> r == Some(
            if e is Top || e is Bottom {
                micro.horizontal
            } else {
                micro.vertical
            },
        ),
        placement is Hidden <==> r is None,
        placement is Hidden <==> edge is None,
        live <==> placement is WithPreview,
{
}

} // verus!
