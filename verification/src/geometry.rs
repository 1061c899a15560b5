//! Rectangles on the screen.
use vstd::prelude::*;

verus! {

/// A place on the screen.
#[derive(Debug, Clone, Copy, PartialEq, Eq, Structural)]
pub struct Point {
    pub x: i16,
    pub y: i16,
}

/// A rectangle: from `a` up to `b`, which is outside.
#[derive(Debug, Clone, Copy, PartialEq, Eq, Structural)]
pub struct Rect {
    pub a: Point,
    pub b: Point,
}

/// The larger one of two numbers.
pub open spec fn larger(a: int, b: int) -> int {
    if a >= b {
        a
    } else {
        b
    }
}

/// The smaller one of two numbers.
pub open spec fn smaller(a: int, b: int) -> int {
    if a <= b {
        a
    } else {
        b
    }
}

impl Rect {
    /// Whether the extents of the rectangle are representable.
    pub open spec fn measurable(self) -> bool {
        &&& i16::MIN <= self.b.x - self.a.x <= i16::MAX
        &&& i16::MIN <= self.b.y - self.a.y <= i16::MAX
    }

    /// How many columns the rectangle has.
    pub open spec fn columns(self) -> int {
        larger(self.b.x - self.a.x, 0)
    }

    /// How many rows the rectangle has.
    pub open spec fn rows(self) -> int {
        larger(self.b.y - self.a.y, 0)
    }

    /// The rectangle between two corners.
    pub fn new(x1: i16, y1: i16, x2: i16, y2: i16) -> (r: Rect)
        ensures
            r == (Rect { a: Point { x: x1, y: y1 }, b: Point { x: x2, y: y2 } }),
    {
        Rect { a: Point { x: x1, y: y1 }, b: Point { x: x2, y: y2 } }
    }

    /// How many columns the rectangle has.
    pub fn width_clamped(&self) -> (r: usize)
        requires
            self.measurable(),
        ensures
            r == self.columns(),
            r <= 0x7fff,
    {
        let d: i16 = self.b.x - self.a.x;
        if d > 0 {
            d as usize
        } else {
            0
        }
    }

    /// How many rows the rectangle has.
    pub fn height_clamped(&self) -> (r: usize)
        requires
            self.measurable(),
        ensures
            r == self.rows(),
            r <= 0x7fff,
    {
        let d: i16 = self.b.y - self.a.y;
        if d > 0 {
            d as usize
        } else {
            0
        }
    }
}

} // verus!
