//! The tiles that a cursor marks out around the tile it hovers over.

use vstd::prelude::*;
use crate::common::{Point, Size};
use crate::grid::Grid;

verus! {

/// The tile that the mouse hovers over, if any.
#[derive(Debug, Copy, Clone, PartialEq, Eq, Structural)]
pub struct TileCursor(pub Option<Point>);

/// How far a circle of radius `r` reaches to either side in the row `d`
/// rows above its center: one tile in the outermost rows, one more with
/// each row towards the center, and the same in the three rows about it.
pub open spec fn half_width(r: int, d: int) -> int {
    1 + (if d < -1 {
        if d + r > 0 {
            d + r
        } else {
            0
        }
    } else if r > 1 {
        r - 1
    } else {
        0
    }) - (if d > 1 {
        d - 1
    } else {
        0
    })
}

/// The cell lies in the circle of radius `r` around `center`.
pub open spec fn in_circle(center: Point, r: int, p: Point) -> bool {
    let d = p.y - center.y;
    let across = p.x - center.x;
    -r <= d <= r && -half_width(r, d) <= across <= half_width(r, d)
}

/// The circle of radius `r` around `center` has `i32` coordinates
/// throughout.
pub open spec fn circle_fits(center: Point, r: int) -> bool {
    &&& i32::MIN <= center.x - r - 1
    &&& center.x + r + 1 <= i32::MAX
    &&& i32::MIN <= center.y - r
    &&& center.y + r <= i32::MAX
}

/// The cells of the circle in the row `d` rows above its center, from
/// left to right.
pub open spec fn circle_row(center: Point, r: int, d: int) -> Seq<Point> {
    Seq::new(
        (2 * half_width(r, d) + 1) as nat,
        |k: int| Point { x: (center.x - half_width(r, d) + k) as i32, y: (center.y + d) as i32 },
    )
}

/// The cells of the circle in the rows from the lowest to the one `d`
/// rows above the center, row by row.
pub open spec fn circle_rows(center: Point, r: int, d: int) -> Seq<Point>
    decreases d + r + 1,
{
    if d < -r {
        Seq::empty()
    } else {
        circle_rows(center, r, d - 1) + circle_row(center, r, d)
    }
}

/// The cells of the grid among the first `n` cells of the column that
/// runs up from `(x, y)`.
pub open spec fn column_inside(grid: &Grid, x: int, y: int, n: int) -> Seq<Point>
    decreases n,
{
    if n <= 0 {
        Seq::empty()
    } else {
        let p = Point { x: x as i32, y: (y + n - 1) as i32 };
        column_inside(grid, x, y, n - 1) + (if grid.in_bounds(&p) {
            seq![p]
        } else {
            Seq::empty()
        })
    }
}

/// The cells of the grid among the first `m` columns, each `n` cells
/// high, of the rectangle with lower left corner `(x, y)`, column by
/// column.
pub open spec fn columns_inside(grid: &Grid, x: int, y: int, m: int, n: int) -> Seq<Point>
    decreases m,
{
    if m <= 0 {
        Seq::empty()
    } else {
        columns_inside(grid, x, y, m - 1, n) + column_inside(grid, x + m - 1, y, n)
    }
}

/// How far left of the hovered tile, or below it, a rectangle of `extent`
/// tiles begins: half of what is left besides the hovered tile, rounded
/// down.
pub open spec fn lead(extent: int) -> int {
    if extent >= 1 {
        (extent - 1) / 2
    } else {
        0
    }
}

impl TileCursor {
    pub fn new() -> (cursor: Self)
        ensures
            cursor == TileCursor(None),
    {
        Self(None)
    }

    /// The rectangle of `size` around the hovered tile lies within `i32`
    /// coordinates.
    pub open spec fn rect_fits(&self, size: Size) -> bool {
        self.0 matches Some(hovered) ==> {
            &&& i32::MIN <= hovered.x - lead(size.width as int)
            &&& i32::MIN <= hovered.y - lead(size.height as int)
            &&& hovered.x - lead(size.width as int) + size.width <= i32::MAX
            &&& hovered.y - lead(size.height as int) + size.height <= i32::MAX
        }
    }

    /// The tiles of the grid in a rectangle of `size` about the hovered
    /// tile; `None` where no tile is hovered over.
    pub fn rect(&self, grid: &Grid, size: Size) -> (r: Option<Vec<Point>>)
        requires
            self.rect_fits(size),
        ensures
            r is Some <==> self.0 is Some,
            r matches Some(tiles) ==> tiles@ == columns_inside(
                grid,
                self.0.unwrap().x - lead(size.width as int),
                self.0.unwrap().y - lead(size.height as int),
                size.width as int,
                size.height as int,
            ),
    {
        let hovered: Point = match self.0 {
            Some(hovered) => hovered,
            None => {
                return None;
            },
        };
        let left: i32 = hovered.x - (if size.width >= 1 { (size.width - 1) / 2 } else { 0 });
        let bottom: i32 = hovered.y - (if size.height >= 1 { (size.height - 1) / 2 } else { 0 });
        let mut tiles: Vec<Point> = Vec::new();
        let mut m: i32 = 0;
        while m < size.width
            invariant
                0 <= m,
                m <= size.width || m == 0,
                left + size.width <= i32::MAX,
                bottom + size.height <= i32::MAX,
                tiles@ == columns_inside(
                    grid,
                    left as int,
                    bottom as int,
                    m as int,
                    size.height as int,
                ),
            decreases size.width - m,
        {
            let x: i32 = left + m;
            let ghost before = tiles@;
            let mut n: i32 = 0;
            while n < size.height
                invariant
                    0 <= n,
                    n <= size.height || n == 0,
                    bottom + size.height <= i32::MAX,
                    tiles@ == before + column_inside(grid, x as int, bottom as int, n as int),
                decreases size.height - n,
            {
                let p: Point = Point::new(x, bottom + n);
                if grid.in_bounds(&p) {
                    tiles.push(p);
                }
                proof {
                    let taller = column_inside(grid, x as int, bottom as int, n + 1);
                    assert(tiles@ =~= before + taller);
                }
                n += 1;
            }
            proof {
                let column = column_inside(grid, x as int, bottom as int, size.height as int);
                if size.height < 0 {
                    assert(n == 0);
                    assert(column_inside(grid, x as int, bottom as int, 0) =~= Seq::empty());
                    assert(column =~= Seq::empty());
                }
                assert(tiles@ =~= before + column);
                assert(columns_inside(
                    grid,
                    left as int,
                    bottom as int,
                    m + 1,
                    size.height as int,
                ) =~= before + column);
            }
            m += 1;
        }
        proof {
            if size.width < 0 {
                assert(m == 0);
            }
        }
        Some(tiles)
    }

    /// The circle of radius `r` about the hovered tile; `None` where no
    /// tile is hovered over.
    pub fn circle(&self, r: u32) -> (tiles: Option<Vec<Point>>)
        requires
            self.0 matches Some(hovered) ==> circle_fits(hovered, r as int),
        ensures
            tiles is Some <==> self.0 is Some,
            tiles matches Some(cells) ==> cells@ == circle_rows(
                self.0.unwrap(),
                r as int,
                r as int,
            ),
    {
        match &self.0 {
            Some(hovered) => Some(Self::draw_circle(hovered, r)),
            None => None,
        }
    }

    /// The circle of radius `r` about `position`, row by row from the
    /// lowest.
    pub fn draw_circle(position: &Point, r: u32) -> (tiles: Vec<Point>)
        requires
            circle_fits(*position, r as int),
        ensures
            tiles@ == circle_rows(*position, r as int, r as int),
    {
        let mut tiles: Vec<Point> = Vec::new();
        let radius: i64 = r as i64;
        let mut i: i64 = 1;
        let mut d: i64 = -radius;
        proof {
            assert(circle_rows(*position, r as int, -radius - 1) =~= Seq::empty());
        }
        while d <= radius
            invariant
                radius == r,
                circle_fits(*position, r as int),
                -radius <= d <= radius + 1,
                d <= radius ==> i == half_width(radius as int, d as int),
                tiles@ == circle_rows(*position, r as int, d - 1),
            decreases radius + 1 - d,
        {
            let y: i32 = (position.y as i64 + d) as i32;
            let ghost before = tiles@;
            let mut k: i64 = 0;
            while k <= 2 * i
                invariant
                    radius == r,
                    circle_fits(*position, r as int),
                    -radius <= d <= radius,
                    i == half_width(radius as int, d as int),
                    1 <= i <= radius + 1,
                    0 <= k <= 2 * i + 1,
                    y == position.y + d,
                    tiles@ == before + circle_row(*position, r as int, d as int).take(k as int),
                decreases 2 * i + 1 - k,
            {
                let x: i32 = (position.x as i64 - i + k) as i32;
                tiles.push(Point::new(x, y));
                proof {
                    let row = circle_row(*position, r as int, d as int);
                    assert(row.take(k + 1) =~= row.take(k as int).push(row[k as int]));
                    assert(tiles@ =~= before + row.take(k + 1));
                }
                k += 1;
            }
            proof {
                let row = circle_row(*position, r as int, d as int);
                assert(row.take(2 * i + 1) =~= row);
            }
            if d >= 1 {
                i -= 1;
            } else if d < -1 {
                i += 1;
            }
            d += 1;
        }
        tiles
    }
}

/// A circle holds the cells that lie within its radius above or below the
/// center and within the half width of their row left or right of it.
pub proof fn lemma_circle_cells(center: Point, r: int, d: int, p: Point)
    requires
        0 <= r,
        circle_fits(center, r),
        -r - 1 <= d <= r,
    ensures
        circle_rows(center, r, d).contains(p) <==> in_circle(center, r, p) && p.y - center.y <= d,
    decreases d + r + 1,
{
    if d >= -r {
        lemma_circle_cells(center, r, d - 1, p);
        let below = circle_rows(center, r, d - 1);
        let row = circle_row(center, r, d);
        let all = circle_rows(center, r, d);
        let half = half_width(r, d);
        if all.contains(p) {
            let i = choose|i: int| 0 <= i < all.len() && all[i] == p;
            if i < below.len() {
                assert(below[i] == p);
            } else {
                assert(row[i - below.len()] == p);
            }
        }
        if below.contains(p) {
            let i = choose|i: int| 0 <= i < below.len() && below[i] == p;
            assert(all[i] == p);
        }
        if in_circle(center, r, p) && p.y - center.y == d {
            let k = p.x - center.x + half;
            assert(row[k] == p);
            assert(all[below.len() + k] == p);
        }
    }
}

} // verus!
