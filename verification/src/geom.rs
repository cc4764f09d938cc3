//! Rectangles on a screen.

use vstd::prelude::*;

verus! {

/// A rectangle in whole pixels.
#[derive(Debug, Clone, Copy, PartialEq, Eq, Structural)]
pub struct Rect {
    pub x: i32,
    pub y: i32,
    pub w: i32,
    pub h: i32,
}

/// A side of the screen.
#[derive(Debug, Clone, Copy, PartialEq, Eq, Structural)]
pub enum Edge {
    Top,
    Bottom,
    Left,
    Right,
}

impl Rect {
    /// The pixel at the given place is inside.
    pub open spec fn covers(self, px: int, py: int) -> bool {
        self.x <= px < self.x + self.w && self.y <= py < self.y + self.h
    }

    /// It has an area.
    pub open spec fn has_area(self) -> bool {
        self.w > 0 && self.h > 0
    }

    /// A rectangle by its corner and its size.
    pub fn new(x: i32, y: i32, w: i32, h: i32) -> (r: Rect)
        ensures
            r == (Rect { x, y, w, h }),
    {
        Rect { x, y, w, h }
    }

    /// Whether it has an area.
    pub fn valid(&self) -> (r: bool)
        ensures
            r == self.has_area(),
    {
        self.w > 0 && self.h > 0
    }

    /// The first column after the rectangle, or the last one there is if that is too far.
    pub open spec fn end_x(self) -> int {
        if i32::MIN <= self.x + self.w <= i32::MAX {
            self.x + self.w
        } else {
            i32::MAX as int
        }
    }

    /// The first row after the rectangle, or the last one there is if that is too far.
    pub open spec fn end_y(self) -> int {
        if i32::MIN <= self.y + self.h <= i32::MAX {
            self.y + self.h
        } else {
            i32::MAX as int
        }
    }

    /// The first column after the rectangle, or the last one there is if that is too far.
    pub fn right(&self) -> (r: i32)
        ensures
            r == self.end_x(),
    {
        match self.x.checked_add(self.w) {
            Some(r) => r,
            None => i32::MAX,
        }
    }

    /// The first row after the rectangle, or the last one there is if that is too far.
    pub fn bottom(&self) -> (r: i32)
        ensures
            r == self.end_y(),
    {
        match self.y.checked_add(self.h) {
            Some(r) => r,
            None => i32::MAX,
        }
    }
}

/// A box on the screen, in thousandths of a pixel.
#[derive(Debug, Clone, Copy, PartialEq, Eq, Structural)]
pub struct Bounds {
    pub x: i64,
    pub y: i64,
    pub w: i64,
    pub h: i64,
}

impl Bounds {
    /// The point lies in the box. The left and upper sides belong to it, the others do not.
    pub open spec fn holds(self, px: int, py: int) -> bool {
        self.x <= px < self.x + self.w && self.y <= py < self.y + self.h
    }

    /// A box.
    pub fn new(x: i64, y: i64, w: i64, h: i64) -> (b: Bounds)
        ensures
            b == (Bounds { x, y, w, h }),
    {
        Bounds { x, y, w, h }
    }

    /// Whether the point lies in the box.
    pub fn contains(&self, px: i64, py: i64) -> (r: bool)
        ensures
            r == self.holds(px as int, py as int),
    {
        px >= self.x && (px as i128) < self.x as i128 + self.w as i128 && py >= self.y && (
        py as i128) < self.y as i128 + self.h as i128
    }
}

} // verus!
