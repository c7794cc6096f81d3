//! Axis-aligned rectangles of tiles: the rooms of a map.

use vstd::prelude::*;
use crate::common::Point;

verus! {

/// A rectangle of tiles with inclusive corners `(x1, y1)` and `(x2, y2)`.
#[derive(Debug, Copy, Clone, PartialEq, Eq, Structural)]
pub struct TileRect {
    pub x1: i32,
    pub y1: i32,
    pub x2: i32,
    pub y2: i32,
}

/// The room in which a level starts.
#[derive(Debug, Copy, Clone, PartialEq, Eq, Structural)]
pub struct Room(pub TileRect);

impl TileRect {
    /// The corners are in order on both axes.
    pub open spec fn wf(&self) -> bool {
        self.x1 <= self.x2 && self.y1 <= self.y2
    }

    /// The point lies inside the closed extents of the rectangle.
    pub open spec fn contains(&self, p: Point) -> bool {
        self.x1 <= p.x <= self.x2 && self.y1 <= p.y <= self.y2
    }

    /// The closed extents of the two rectangles share a point; a shared
    /// edge counts.
    pub open spec fn spec_intersect(&self, other: &TileRect) -> bool {
        self.x1 <= other.x2 && self.x2 >= other.x1 && self.y1 <= other.y2 && self.y2 >= other.y1
    }

    /// Midpoint of the rectangle, each coordinate rounded towards negative
    /// infinity.
    pub open spec fn spec_center(&self) -> Point {
        Point { x: ((self.x1 + self.x2) / 2) as i32, y: ((self.y1 + self.y2) / 2) as i32 }
    }

    /// The rectangle with top-left corner `(x, y)` that extends `width`
    /// tiles to the right and `height` tiles up from it.
    pub fn new(x: i32, y: i32, width: i32, height: i32) -> (r: Self)
        requires
            0 <= width,
            0 <= height,
            x + width <= i32::MAX,
            y + height <= i32::MAX,
        ensures
            r == (TileRect { x1: x, y1: y, x2: (x + width) as i32, y2: (y + height) as i32 }),
            r.wf(),
    {
        Self { x1: x, y1: y, x2: x + width, y2: y + height }
    }

    /// Returns true if this overlaps with other
    #[verifier::when_used_as_spec(spec_intersect)]
    pub fn intersect(&self, other: &TileRect) -> (b: bool)
        ensures
            b == self.spec_intersect(other),
    {
        self.x1 <= other.x2 && self.x2 >= other.x1 && self.y1 <= other.y2 && self.y2 >= other.y1
    }

    #[verifier::when_used_as_spec(spec_center)]
    pub fn center(&self) -> (c: Point)
        ensures
            c == self.spec_center(),
            self.wf() ==> self.contains(c),
    {
        let sx: i64 = self.x1 as i64 + self.x2 as i64;
        let sy: i64 = self.y1 as i64 + self.y2 as i64;
        Point { x: floor_half(sx) as i32, y: floor_half(sy) as i32 }
    }
}

/// Half of `a`, rounded towards negative infinity.
fn floor_half(a: i64) -> (h: i64)
    requires
        2 * i32::MIN <= a <= 2 * i32::MAX,
    ensures
        h == a / 2,
        i32::MIN <= h <= i32::MAX,
{
    if a >= 0 {
        a / 2
    } else {
        -((1 - a) / 2)
    }
}

/// Two rectangles intersect exactly when some point lies in both.
pub proof fn lemma_intersect_shares_point(a: TileRect, b: TileRect)
    requires
        a.wf(),
        b.wf(),
    ensures
        a.intersect(&b) <==> exists|p: Point| a.contains(p) && b.contains(p),
{
    if a.intersect(&b) {
        let x: i32 = if a.x1 >= b.x1 { a.x1 } else { b.x1 };
        let y: i32 = if a.y1 >= b.y1 { a.y1 } else { b.y1 };
        let p = Point { x, y };
        assert(a.contains(p) && b.contains(p));
    }
}

/// Intersection does not depend on the order of the two rectangles.
pub proof fn lemma_intersect_symmetric(a: TileRect, b: TileRect)
    ensures
        a.intersect(&b) == b.intersect(&a),
{
}

} // verus!
