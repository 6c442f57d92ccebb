use vstd::prelude::*;

verus! {

/// A cell coordinate on the level grid.
#[derive(Clone, Copy, Debug, PartialEq, Eq, Structural)]
pub struct Point {
    pub x: i32,
    pub y: i32,
}

impl Point {
    pub fn new(x: i32, y: i32) -> (p: Point)
        ensures
            p == (Point { x, y }),
    {
        Point { x, y }
    }

    pub fn zero() -> (p: Point)
        ensures
            p == (Point { x: 0, y: 0 }),
    {
        Point { x: 0, y: 0 }
    }

    /// The point reached from `self` by the step `delta`.
    pub open spec fn offset(self, delta: Point) -> Point {
        Point { x: (self.x + delta.x) as i32, y: (self.y + delta.y) as i32 }
    }

    /// Whether stepping by `delta` stays inside the coordinate range.
    pub open spec fn can_offset(self, delta: Point) -> bool {
        &&& i32::MIN <= self.x + delta.x <= i32::MAX
        &&& i32::MIN <= self.y + delta.y <= i32::MAX
    }

    pub fn add(self, delta: Point) -> (p: Point)
        requires
            self.can_offset(delta),
        ensures
            p == self.offset(delta),
    {
        Point { x: self.x + delta.x, y: self.y + delta.y }
    }
}

/// Half of `s`, rounded toward zero.
pub open spec fn half(s: int) -> int {
    if s >= 0 {
        s / 2
    } else {
        -((-s) / 2)
    }
}

/// An axis-aligned rectangle. Its cells are those with `x1 <= x < x2` and
/// `y1 <= y < y2`; its bounding box includes the far edges as well.
#[derive(Clone, Copy, Debug, PartialEq, Eq, Structural)]
pub struct Rect {
    pub x1: i32,
    pub x2: i32,
    pub y1: i32,
    pub y2: i32,
}

impl Rect {
    /// The rectangle with corner `(x, y)`, `w` wide and `h` high.
    pub fn with_size(x: i32, y: i32, w: i32, h: i32) -> (r: Rect)
        requires
            i32::MIN <= x + w <= i32::MAX,
            i32::MIN <= y + h <= i32::MAX,
        ensures
            r == (Rect { x1: x, x2: (x + w) as i32, y1: y, y2: (y + h) as i32 }),
    {
        Rect { x1: x, x2: x + w, y1: y, y2: y + h }
    }

    /// Whether the bounding boxes of the two rectangles share a point;
    /// boxes that merely touch along an edge do.
    pub open spec fn overlaps(self, other: Rect) -> bool {
        &&& self.x1 <= other.x2
        &&& self.x2 >= other.x1
        &&& self.y1 <= other.y2
        &&& self.y2 >= other.y1
    }

    pub fn intersect(&self, other: &Rect) -> (b: bool)
        ensures
            b == self.overlaps(*other),
    {
        self.x1 <= other.x2 && self.x2 >= other.x1 && self.y1 <= other.y2 && self.y2 >= other.y1
    }

    /// Whether the sums that the center is computed from fit the coordinate type.
    pub open spec fn has_center(self) -> bool {
        &&& i32::MIN <= self.x1 + self.x2 <= i32::MAX
        &&& i32::MIN <= self.y1 + self.y2 <= i32::MAX
    }

    /// The midpoint of the two corners, each coordinate rounded toward zero.
    pub open spec fn midpoint(self) -> Point {
        Point { x: half(self.x1 + self.x2) as i32, y: half(self.y1 + self.y2) as i32 }
    }

    pub fn center(&self) -> (p: Point)
        requires
            self.has_center(),
        ensures
            p == self.midpoint(),
    {
        Point { x: (self.x1 + self.x2) / 2, y: (self.y1 + self.y2) / 2 }
    }

    /// Whether the cell `(x, y)` belongs to the rectangle.
    pub open spec fn covers(self, x: int, y: int) -> bool {
        self.x1 <= x < self.x2 && self.y1 <= y < self.y2
    }

    pub fn point_in_rect(&self, point: Point) -> (b: bool)
        ensures
            b == self.covers(point.x as int, point.y as int),
    {
        point.x >= self.x1 && point.x < self.x2 && point.y >= self.y1 && point.y < self.y2
    }
}

} // verus!
