//! Plain geometric values shared by every part of the crate.

use vstd::prelude::*;

verus! {

/// A 2D point on the game grid.
#[derive(Debug, Copy, Clone, PartialEq, Eq, Structural, Hash, PartialOrd, Ord)]
pub struct Point {
    pub x: i32,
    pub y: i32,
}

impl Point {
    pub fn new(x: i32, y: i32) -> (p: Self)
        ensures
            p == (Point { x, y }),
    {
        Self { x, y }
    }

    /// The point `dx` columns and `dy` rows away, where that point still has
    /// `i32` coordinates.
    pub open spec fn spec_offset(self, dx: int, dy: int) -> Option<Point> {
        if i32::MIN <= self.x + dx <= i32::MAX && i32::MIN <= self.y + dy <= i32::MAX {
            Some(Point { x: (self.x + dx) as i32, y: (self.y + dy) as i32 })
        } else {
            None
        }
    }

    /// Moves the point by an offset; `None` where a coordinate would leave
    /// the range of `i32`.
    pub fn offset(self, dx: i32, dy: i32) -> (r: Option<Point>)
        ensures
            r == self.spec_offset(dx as int, dy as int),
    {
        let x: i64 = self.x as i64 + dx as i64;
        let y: i64 = self.y as i64 + dy as i64;
        if x < i32::MIN as i64 || x > i32::MAX as i64 || y < i32::MIN as i64 || y > i32::MAX as i64 {
            None
        } else {
            Some(Point { x: x as i32, y: y as i32 })
        }
    }

    /// The neighbouring point one step in `direction`.
    pub open spec fn spec_step(self, direction: Direction) -> Option<Point> {
        self.spec_offset(direction.dx(), direction.dy())
    }

    /// One step in `direction`; `None` where that would leave the range of
    /// `i32`.
    pub fn step(self, direction: Direction) -> (r: Option<Point>)
        ensures
            r == self.spec_step(direction),
    {
        match direction {
            Direction::Up => self.offset(0, 1),
            Direction::Down => self.offset(0, -1),
            Direction::Left => self.offset(-1, 0),
            Direction::Right => self.offset(1, 0),
            Direction::Still => self.offset(0, 0),
        }
    }
}

/// Size of a rectangular object
#[derive(Debug, Copy, Clone, PartialEq, Eq, Structural)]
pub struct Size {
    pub width: i32,
    pub height: i32,
}

impl Size {
    /// Constructs a Size with width and height set to size
    pub fn splat(size: i32) -> (s: Size)
        ensures
            s == (Size { width: size, height: size }),
    {
        Size { width: size, height: size }
    }

    /// Number of cells of a grid of this size.
    pub open spec fn area(self) -> int {
        self.width * self.height
    }
}

/// A direction to move on the game board.
#[derive(Debug, Copy, Clone, PartialEq, Eq, Structural)]
pub enum Direction {
    Up,
    Down,
    Left,
    Right,
    Still,
}

impl Direction {
    /// Change of the x coordinate by one step.
    pub open spec fn dx(self) -> int {
        match self {
            Direction::Left => -1,
            Direction::Right => 1,
            _ => 0,
        }
    }

    /// Change of the y coordinate by one step.
    pub open spec fn dy(self) -> int {
        match self {
            Direction::Up => 1,
            Direction::Down => -1,
            _ => 0,
        }
    }
}

/// A path to walk. The first element is the next tile, not the current
/// one; the last is the goal.
#[derive(Debug)]
pub struct WalkPath(pub Vec<Point>);

/// `|a|` for a mathematical integer.
pub open spec fn abs(a: int) -> int {
    if a < 0 {
        -a
    } else {
        a
    }
}

/// Manhattan distance `|dx| + |dy|` between two points.
pub open spec fn manhattan(a: Point, b: Point) -> int {
    abs(a.x - b.x) + abs(a.y - b.y)
}

/// Chebyshev distance `max(|dx|, |dy|)` between two points.
pub open spec fn chebyshev(a: Point, b: Point) -> int {
    if abs(a.x - b.x) >= abs(a.y - b.y) {
        abs(a.x - b.x)
    } else {
        abs(a.y - b.y)
    }
}

/// Two points are 4-adjacent: they differ by one step along one axis.
pub open spec fn adjacent(a: Point, b: Point) -> bool {
    manhattan(a, b) == 1
}

} // verus!
