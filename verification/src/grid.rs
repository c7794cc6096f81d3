//! The tile grid of one level and the spatial queries on it.

use vstd::prelude::*;
use crate::common::{Direction, Point, Size};
use crate::rect::TileRect;
use crate::tile::{Surface, Tile};

verus! {

/// Represents a single level
#[derive(Debug)]
pub struct Grid {
    /// The depth of this level, if the player has descended 3 times, this level is number 4, etc.
    depth: usize,
    /// A list of level tiles, in order.
    grid: Vec<Tile>,
    /// The size of the level
    size: Size,
}

/// Index of the cell `(x, y)` in a grid with columns of `height` cells.
pub open spec fn index_of(p: Point, height: int) -> int {
    p.x * height + p.y
}

/// The cell that index `i` stands for in a grid with columns of `height`
/// cells.
pub open spec fn point_of(i: int, height: int) -> Point {
    Point { x: (i / height) as i32, y: (i % height) as i32 }
}

/// A tile whose surface has been dug out.
pub open spec fn carved(t: Tile) -> Tile {
    Tile { surface: Surface::Floor, ..t }
}

/// A tile that has been seen.
pub open spec fn revealed(t: Tile) -> Tile {
    Tile { revealed: true, ..t }
}

/// The tiles after every tile inside `rect` has been dug out.
pub open spec fn carve_rect(tiles: Seq<Tile>, rect: TileRect) -> Seq<Tile> {
    tiles.map_values(
        |t: Tile|
            if rect.contains(t.position) {
                carved(t)
            } else {
                t
            },
    )
}

/// The tiles after every tile whose position is listed in `points` has been
/// marked as seen.
pub open spec fn reveal_points(tiles: Seq<Tile>, points: Seq<Point>) -> Seq<Tile> {
    tiles.map_values(
        |t: Tile|
            if points.contains(t.position) {
                revealed(t)
            } else {
                t
            },
    )
}

/// The division behind `point_of`: a cell's index leads back to the cell.
pub proof fn lemma_point_of_index(x: int, y: int, height: int)
    requires
        0 <= y < height,
    ensures
        (x * height + y) / height == x,
        (x * height + y) % height == y,
{
    vstd::arithmetic::div_mod::lemma_fundamental_div_mod_converse(x * height + y, height, x, y);
}

/// A cell of a `width` by `height` grid has an index below
/// `width * height`.
pub proof fn lemma_index_bounds(x: int, y: int, width: int, height: int)
    requires
        0 <= x < width,
        0 <= y < height,
    ensures
        0 <= x * height + y < width * height,
{
    assert(0 <= x * height) by (nonlinear_arith)
        requires
            0 <= x,
            0 < height,
    ;
    assert((x + 1) * height <= width * height) by (nonlinear_arith)
        requires
            x + 1 <= width,
            0 < height,
    ;
    assert((x + 1) * height == x * height + height) by (nonlinear_arith);
}

/// An index below `width * height` stands for a cell inside the grid.
pub proof fn lemma_point_bounds(i: int, width: int, height: int)
    requires
        0 <= i < width * height,
        0 <= width,
        0 <= height,
    ensures
        0 < height,
        0 <= i / height < width,
        0 <= i % height < height,
        (i / height) * height + i % height == i,
{
    assert(0 < height) by (nonlinear_arith)
        requires
            0 <= i < width * height,
            0 <= width,
            0 <= height,
    ;
    vstd::arithmetic::div_mod::lemma_fundamental_div_mod(i, height);
    let q = i / height;
    assert(height * q == q * height) by (nonlinear_arith);
    assert(0 <= q < width) by (nonlinear_arith)
        requires
            0 <= i < width * height,
            0 < height,
            i == q * height + i % height,
            0 <= i % height < height,
    ;
}

impl Grid {
    /// The tiles of the grid, column by column.
    pub closed spec fn tiles(&self) -> Seq<Tile> {
        self.grid@
    }

    /// The depth of this level.
    pub closed spec fn spec_depth(&self) -> usize {
        self.depth
    }

    /// The size of the level.
    pub closed spec fn spec_size(&self) -> Size {
        self.size
    }

    /// The point is a cell of the grid.
    pub open spec fn spec_in_bounds(&self, point: &Point) -> bool {
        0 <= point.x < self.size().width && 0 <= point.y < self.size().height
    }

    /// Index of a cell in `tiles()`.
    pub open spec fn index(&self, point: Point) -> int {
        index_of(point, self.size().height as int)
    }

    /// The cell that an index of `tiles()` stands for.
    pub open spec fn point(&self, i: int) -> Point {
        point_of(i, self.size().height as int)
    }

    /// The tile at a cell inside the grid.
    pub open spec fn tile_at(&self, point: Point) -> Tile {
        self.tiles()[self.index(point)]
    }

    /// There is one tile per cell, each tile knows its own cell, and each
    /// costs at least one to step on.
    pub open spec fn wf(&self) -> bool {
        &&& 0 <= self.size().width
        &&& 0 <= self.size().height
        &&& self.tiles().len() == self.size().width * self.size().height
        &&& forall|i: int|
            0 <= i < self.tiles().len() ==> (#[trigger] self.tiles()[i]).position == self.point(i)
        &&& forall|i: int| 0 <= i < self.tiles().len() ==> (#[trigger] self.tiles()[i]).cost >= 1
    }

    /// The same grid, up to the tiles it holds.
    pub open spec fn same_shape(&self, other: &Grid) -> bool {
        &&& self.size() == other.size()
        &&& self.spec_depth() == other.spec_depth()
        &&& self.tiles().len() == other.tiles().len()
    }

    /// A grid of the given size in which every tile has the given surface;
    /// `None` where a side is negative or the grid has more cells than a
    /// `Vec` can index.
    pub fn filled(size: Size, depth: usize, surface: Surface) -> (r: Option<Grid>)
        ensures
            r is Some <==> 0 <= size.width && 0 <= size.height && size.area() <= usize::MAX,
            r matches Some(grid) ==> {
                &&& grid.wf()
                &&& grid.size() == size
                &&& grid.spec_depth() == depth
                &&& forall|i: int|
                    0 <= i < grid.tiles().len() ==> #[trigger] grid.tiles()[i] == (Tile {
                        surface,
                        position: grid.point(i),
                        revealed: false,
                        cost: 1,
                    })
            },
    {
        if size.width < 0 || size.height < 0 {
            return None;
        }
        assert(0 <= size.width * size.height <= i32::MAX * i32::MAX) by (nonlinear_arith)
            requires
                0 <= size.width <= i32::MAX,
                0 <= size.height <= i32::MAX,
        ;
        let cells: u64 = size.width as u64 * size.height as u64;
        if cells > usize::MAX as u64 {
            return None;
        }
        let mut grid: Vec<Tile> = Vec::with_capacity(cells as usize);
        let mut x: i32 = 0;
        while x < size.width
            invariant
                0 <= x <= size.width,
                0 <= size.height,
                size.area() <= usize::MAX,
                grid@.len() == x * size.height,
                forall|i: int|
                    0 <= i < grid@.len() ==> #[trigger] grid@[i] == (Tile {
                        surface,
                        position: point_of(i, size.height as int),
                        revealed: false,
                        cost: 1,
                    }),
            decreases size.width - x,
        {
            let mut y: i32 = 0;
            while y < size.height
                invariant
                    0 <= x < size.width,
                    0 <= y <= size.height,
                    size.area() <= usize::MAX,
                    grid@.len() == x * size.height + y,
                    forall|i: int|
                        0 <= i < grid@.len() ==> #[trigger] grid@[i] == (Tile {
                            surface,
                            position: point_of(i, size.height as int),
                            revealed: false,
                            cost: 1,
                        }),
                decreases size.height - y,
            {
                proof {
                    lemma_point_of_index(x as int, y as int, size.height as int);
                }
                grid.push(Tile::new(surface, Point::new(x, y)));
                y += 1;
            }
            assert((x + 1) * size.height == x * size.height + size.height) by (nonlinear_arith);
            x += 1;
        }
        Some(Grid { depth, grid, size })
    }

    /// The size of the level.
    #[verifier::when_used_as_spec(spec_size)]
    pub fn size(&self) -> (s: Size)
        ensures
            s == self.spec_size(),
    {
        self.size
    }

    /// Number of tiles of the grid.
    pub fn len(&self) -> (n: usize)
        ensures
            n == self.tiles().len(),
    {
        self.grid.len()
    }

    /// The tile at an index of `tiles()`.
    pub fn tile(&self, index: usize) -> (t: &Tile)
        requires
            index < self.tiles().len(),
        ensures
            *t == self.tiles()[index as int],
    {
        &self.grid[index]
    }

    /// Looks the grid over: whether there is one tile per cell, each tile
    /// knows its own cell and each costs at least one to step on.
    pub fn is_well_formed(&self) -> (b: bool)
        ensures
            b == self.wf(),
    {
        let width: i32 = self.size.width;
        let height: i32 = self.size.height;
        if width < 0 || height < 0 {
            return false;
        }
        assert(0 <= width * height <= i32::MAX * i32::MAX) by (nonlinear_arith)
            requires
                0 <= width <= i32::MAX,
                0 <= height <= i32::MAX,
        ;
        let cells: u64 = width as u64 * height as u64;
        if self.grid.len() as u64 != cells {
            return false;
        }
        let mut i: usize = 0;
        let mut x: i32 = 0;
        let mut y: i32 = 0;
        proof {
            if self.grid@.len() > 0 {
                lemma_point_bounds(0, width as int, height as int);
            }
        }
        while i < self.grid.len()
            invariant
                width == self.size.width,
                height == self.size.height,
                0 <= width,
                0 <= height,
                self.grid@.len() == width * height,
                0 <= i <= self.grid@.len(),
                i < self.grid@.len() ==> 0 <= x < width && 0 <= y < height && i == x * height + y,
                forall|j: int| 0 <= j < i ==> (#[trigger] self.grid@[j]).position == self.point(j),
                forall|j: int| 0 <= j < i ==> (#[trigger] self.grid@[j]).cost >= 1,
            decreases self.grid@.len() - i,
        {
            let tile: Tile = self.grid[i];
            proof {
                lemma_point_of_index(x as int, y as int, height as int);
            }
            if tile.position.x != x || tile.position.y != y || tile.cost < 1 {
                return false;
            }
            i += 1;
            if i < self.grid.len() {
                proof {
                    lemma_point_bounds(i as int, width as int, height as int);
                    lemma_point_of_index(x as int, y as int, height as int);
                }
                if y + 1 < height {
                    y += 1;
                } else {
                    proof {
                        assert((x + 1) * height == x * height + height) by (nonlinear_arith);
                        if x + 1 >= width {
                            assert((x + 1) * height >= width * height) by (nonlinear_arith)
                                requires
                                    x + 1 >= width,
                                    0 <= height,
                            ;
                        }
                    }
                    x += 1;
                    y = 0;
                }
            }
        }
        true
    }

    /// The depth of this level.
    pub fn depth(&self) -> (d: usize)
        ensures
            d == self.spec_depth(),
    {
        self.depth
    }

    #[verifier::when_used_as_spec(spec_in_bounds)]
    pub fn in_bounds(&self, point: &Point) -> (b: bool)
        ensures
            b == self.spec_in_bounds(point),
    {
        point.x < self.size().width && point.y < self.size().height && point.x >= 0 && point.y >= 0
    }

    /// Translate 2D coordinates into a index
    /// Returns None if the point is OOB.
    pub fn translate(&self, point: &Point) -> (r: Option<usize>)
        requires
            self.wf(),
        ensures
            r is Some <==> self.in_bounds(point),
            r matches Some(i) ==> i == self.index(*point) && i < self.tiles().len(),
    {
        if self.in_bounds(point) {
            proof {
                self.lemma_len_fits();
                lemma_index_bounds(
                    point.x as int,
                    point.y as int,
                    self.size().width as int,
                    self.size().height as int,
                );
            }
            return Some(Self::xy_idx(point, self.size().height));
        }
        None
    }

    /// Index of the cell `point` in a grid with columns of `height` cells.
    pub fn xy_idx(point: &Point, height: i32) -> (i: usize)
        requires
            0 <= point.x,
            0 <= point.y,
            0 <= height,
            index_of(*point, height as int) <= usize::MAX,
        ensures
            i == index_of(*point, height as int),
    {
        assert(0 <= point.x * height <= i32::MAX * i32::MAX) by (nonlinear_arith)
            requires
                0 <= point.x <= i32::MAX,
                0 <= height <= i32::MAX,
        ;
        (point.x as u64 * height as u64 + point.y as u64) as usize
    }

    /// Get a reference to a piece
    /// Returns None if the point is OOB for the current level size, or values are less than 0.
    pub fn get_tile(&self, point: &Point) -> (r: Option<&Tile>)
        requires
            self.wf(),
        ensures
            r is Some <==> self.in_bounds(point),
            r matches Some(t) ==> *t == self.tile_at(*point) && t.position == *point,
    {
        if let Some(index) = self.translate(point) {
            proof {
                lemma_point_of_index(point.x as int, point.y as int, self.size().height as int);
            }
            Some(&self.grid[index])
        } else {
            None
        }
    }

    /// Something may stand on `point`: it is a cell of the grid and no
    /// wall.
    pub open spec fn spec_is_safe(&self, point: &Point) -> bool {
        self.in_bounds(point) && !self.tile_at(*point).is_wall()
    }

    #[verifier::when_used_as_spec(spec_is_safe)]
    pub fn is_safe(&self, point: &Point) -> (b: bool)
        requires
            self.wf(),
        ensures
            b == self.spec_is_safe(point),
    {
        match self.get_tile(point) {
            Some(tile) => tile.is_safe(),
            None => false,
        }
    }

    /// Mutable access to the tile at `point`. The grid after the borrow is
    /// the grid before it with that one tile replaced by what the borrower
    /// left in it.
    pub fn get_tile_mut(&mut self, point: &Point) -> (r: Option<&mut Tile>)
        requires
            old(self).wf(),
        ensures
            r is Some <==> old(self).in_bounds(point),
            r is None ==> *final(self) == *old(self),
            r matches Some(t) ==> {
                &&& *t == old(self).tile_at(*point)
                &&& t.position == *point
                &&& final(self).same_shape(old(self))
                &&& final(self).tiles() == old(self).tiles().update(
                    old(self).index(*point),
                    *final(t),
                )
            },
    {
        if let Some(index) = self.translate(point) {
            proof {
                lemma_point_of_index(point.x as int, point.y as int, self.size().height as int);
            }
            Some(&mut self.grid[index])
        } else {
            None
        }
    }

    /// A grid has no more tiles than can be indexed.
    pub proof fn lemma_len_fits(&self)
        ensures
            self.tiles().len() <= usize::MAX,
    {
        assert(self.grid.len() == self.grid@.len());
    }

    /// Every tile lies inside the grid, at the index of its own cell.
    pub proof fn lemma_tile_position(&self, i: int)
        requires
            self.wf(),
            0 <= i < self.tiles().len(),
        ensures
            self.in_bounds(&self.tiles()[i].position),
            self.index(self.tiles()[i].position) == i,
            self.tiles()[i].position == self.point(i),
    {
        lemma_point_bounds(i, self.size().width as int, self.size().height as int);
    }

    /// Every cell inside the grid has a tile, and that tile knows the cell.
    pub proof fn lemma_cell_tile(&self, p: Point)
        requires
            self.wf(),
            self.in_bounds(&p),
        ensures
            0 <= self.index(p) < self.tiles().len(),
            self.point(self.index(p)) == p,
            self.tile_at(p).position == p,
    {
        lemma_index_bounds(
            p.x as int,
            p.y as int,
            self.size().width as int,
            self.size().height as int,
        );
        lemma_point_of_index(p.x as int, p.y as int, self.size().height as int);
    }

    /// `translate` is a bijection between the cells inside the grid and the
    /// indices of its tiles: `index` and `point` undo each other.
    pub proof fn lemma_translate_bijection(&self)
        requires
            self.wf(),
        ensures
            forall|p: Point| #[trigger]
                self.in_bounds(&p) ==> 0 <= self.index(p) < self.tiles().len() && self.point(
                    self.index(p),
                ) == p,
            forall|i: int|
                0 <= i < self.tiles().len() ==> self.in_bounds(&#[trigger] self.point(i))
                    && self.index(self.point(i)) == i,
            forall|p: Point, q: Point|
                self.in_bounds(&p) && self.in_bounds(&q) && #[trigger] self.index(p)
                    == #[trigger] self.index(q) ==> p == q,
    {
        assert forall|p: Point| #[trigger] self.in_bounds(&p) implies 0 <= self.index(p)
            < self.tiles().len() && self.point(self.index(p)) == p by {
            self.lemma_cell_tile(p);
        }
        assert forall|i: int| 0 <= i < self.tiles().len() implies self.in_bounds(
            &#[trigger] self.point(i),
        ) && self.index(self.point(i)) == i by {
            self.lemma_tile_position(i);
        }
        assert forall|p: Point, q: Point|
            self.in_bounds(&p) && self.in_bounds(&q) && #[trigger] self.index(p)
                == #[trigger] self.index(q) implies p == q by {
            self.lemma_cell_tile(p);
            self.lemma_cell_tile(q);
        }
    }

    /// Marks every listed tile as seen. Points outside the grid are passed
    /// over.
    pub fn update_visibility(&mut self, visible_tiles: &Vec<Point>)
        requires
            old(self).wf(),
        ensures
            final(self).wf(),
            final(self).same_shape(old(self)),
            final(self).tiles() == reveal_points(old(self).tiles(), visible_tiles@),
    {
        let ghost before = self.grid@;
        let width: i32 = self.size.width;
        let height: i32 = self.size.height;
        proof {
            assert forall|i: int| 0 <= i < before.len() implies ({
                let p = (#[trigger] before[i]).position;
                p == point_of(i, height as int) && 0 <= p.x < width && 0 <= p.y < height
            }) by {
                self.lemma_tile_position(i);
            }
        }
        let mut k: usize = 0;
        while k < visible_tiles.len()
            invariant
                0 <= k <= visible_tiles.len(),
                width == self.size.width,
                height == self.size.height,
                self.wf(),
                self.same_shape(old(self)),
                before == old(self).tiles(),
                forall|i: int|
                    0 <= i < before.len() ==> ({
                        let p = (#[trigger] before[i]).position;
                        p == point_of(i, height as int) && 0 <= p.x < width && 0 <= p.y < height
                    }),
                self.grid@ =~= reveal_points(before, visible_tiles@.take(k as int)),
            decreases visible_tiles.len() - k,
        {
            let p: Point = visible_tiles[k];
            proof {
                lemma_take_contains(visible_tiles@, k as int);
            }
            if let Some(index) = self.translate(&p) {
                proof {
                    self.lemma_cell_tile(p);
                }
                let mut tile: Tile = self.grid[index];
                tile.revealed = true;
                self.grid.set(index, tile);
                proof {
                    assert forall|i: int| 0 <= i < before.len() && i != index implies before[i].position
                        != p by {
                        lemma_point_bounds(i, width as int, height as int);
                    }
                }
            }
            k += 1;
        }
        proof {
            assert(visible_tiles@.take(visible_tiles@.len() as int) =~= visible_tiles@);
        }
    }

    /// The tile one step from `tile` in `direction`; `None` where `tile`
    /// or that step lies outside the grid.
    pub open spec fn spec_neighbour(&self, tile: &Tile, direction: Direction) -> Option<Tile> {
        match tile.position.spec_step(direction) {
            Some(q) => if self.in_bounds(&tile.position) && self.in_bounds(&q) {
                Some(self.tile_at(q))
            } else {
                None
            },
            None => None,
        }
    }

    // Get neighbour of a certain tile
    pub fn get_neighbour(&self, tile: &Tile, direction: Direction) -> (r: Option<&Tile>)
        requires
            self.wf(),
        ensures
            r is Some <==> self.spec_neighbour(tile, direction) is Some,
            r matches Some(t) ==> Some(*t) == self.spec_neighbour(tile, direction),
    {
        if !self.in_bounds(&tile.position) {
            return None;
        }
        match tile.position.step(direction) {
            Some(q) => self.get_tile(&q),
            None => None,
        }
    }

    // Same as get_neighbour, but checks for walls
    pub fn get_safe_neighbour(&self, tile: &Tile, direction: Direction) -> (r: Option<&Tile>)
        requires
            self.wf(),
        ensures
            r is Some <==> (self.spec_neighbour(tile, direction) matches Some(t) && t.is_safe()),
            r matches Some(t) ==> Some(*t) == self.spec_neighbour(tile, direction),
    {
        match self.get_neighbour(tile, direction) {
            Some(neighbour) => if neighbour.is_wall() {
                None
            } else {
                Some(neighbour)
            },
            None => None,
        }
    }

    /// The tile at `candidate` as a sequence of its own, empty where the
    /// candidate is no cell of the grid.
    pub open spec fn tile_if_inside(&self, candidate: Option<Point>) -> Seq<Tile> {
        match candidate {
            Some(q) => if self.in_bounds(&q) {
                seq![self.tile_at(q)]
            } else {
                Seq::empty()
            },
            None => Seq::empty(),
        }
    }

    /// The tiles next to `position` that exist: left, right, above, below,
    /// in that order.
    pub open spec fn spec_neighbours(&self, position: Point) -> Seq<Tile> {
        self.tile_if_inside(position.spec_offset(-1, 0)) + self.tile_if_inside(
            position.spec_offset(1, 0),
        ) + self.tile_if_inside(position.spec_offset(0, 1)) + self.tile_if_inside(
            position.spec_offset(0, -1),
        )
    }

    /// Get all neighbours (4-directional) of a piece
    pub fn get_neighbours(&self, position: &Point) -> (neighbours: Vec<&Tile>)
        requires
            self.wf(),
        ensures
            neighbours@.len() == self.spec_neighbours(*position).len(),
            forall|i: int|
                0 <= i < neighbours@.len() ==> *#[trigger] neighbours@[i] == self.spec_neighbours(
                    *position,
                )[i],
    {
        let mut neighbours: Vec<&Tile> = Vec::new();
        let ghost mut found: Seq<Tile> = Seq::empty();
        let candidates: [Option<Point>; 4] = [
            position.offset(-1, 0),
            position.offset(1, 0),
            position.offset(0, 1),
            position.offset(0, -1),
        ];
        let ghost a = self.tile_if_inside(candidates[0]);
        let ghost b = self.tile_if_inside(candidates[1]);
        let ghost c = self.tile_if_inside(candidates[2]);
        let ghost d = self.tile_if_inside(candidates[3]);
        let mut k: usize = 0;
        while k < 4
            invariant
                0 <= k <= 4,
                self.wf(),
                a == self.tile_if_inside(candidates[0]),
                b == self.tile_if_inside(candidates[1]),
                c == self.tile_if_inside(candidates[2]),
                d == self.tile_if_inside(candidates[3]),
                neighbours@.len() == found.len(),
                forall|i: int| 0 <= i < neighbours@.len() ==> *#[trigger] neighbours@[i] == found[i],
                k == 0 ==> found =~= Seq::empty(),
                k == 1 ==> found =~= a,
                k == 2 ==> found =~= a + b,
                k == 3 ==> found =~= a + b + c,
                k == 4 ==> found =~= a + b + c + d,
            decreases 4 - k,
        {
            if let Some(q) = candidates[k] {
                if let Some(tile) = self.get_tile(&q) {
                    neighbours.push(tile);
                    proof {
                        found = found.push(*tile);
                    }
                }
            }
            k += 1;
        }
        neighbours
    }

    /// Digs out every tile of the grid that lies inside `rect`.
    pub fn carve(&mut self, rect: &TileRect)
        requires
            old(self).wf(),
        ensures
            final(self).wf(),
            final(self).same_shape(old(self)),
            final(self).tiles() == carve_rect(old(self).tiles(), *rect),
    {
        let width: i32 = self.size.width;
        let height: i32 = self.size.height;
        let lo_x: i32 = if rect.x1 < 0 { 0 } else { rect.x1 };
        let lo_y: i32 = if rect.y1 < 0 { 0 } else { rect.y1 };
        let hi_x: i32 = if rect.x2 >= width { width - 1 } else { rect.x2 };
        let hi_y: i32 = if rect.y2 >= height { height - 1 } else { rect.y2 };
        let ghost before = self.grid@;
        proof {
            assert forall|i: int| 0 <= i < before.len() implies ({
                let p = (#[trigger] before[i]).position;
                p == point_of(i, height as int) && 0 <= p.x < width && 0 <= p.y < height
            }) by {
                self.lemma_tile_position(i);
            }
        }
        let mut x: i32 = lo_x;
        while x <= hi_x
            invariant
                width == self.size.width,
                height == self.size.height,
                0 <= lo_x <= x,
                hi_x < width,
                x <= hi_x + 1 || hi_x < lo_x,
                lo_x == (if rect.x1 < 0 { 0 } else { rect.x1 }),
                lo_y == (if rect.y1 < 0 { 0 } else { rect.y1 }),
                hi_x == (if rect.x2 >= width { width - 1 } else { rect.x2 as int }),
                hi_y == (if rect.y2 >= height { height - 1 } else { rect.y2 as int }),
                self.wf(),
                self.same_shape(old(self)),
                before == old(self).tiles(),
                self.grid@.len() == before.len(),
                forall|i: int|
                    0 <= i < before.len() ==> ({
                        let p = (#[trigger] before[i]).position;
                        p == point_of(i, height as int) && 0 <= p.x < width && 0 <= p.y < height
                    }),
                forall|i: int|
                    0 <= i < before.len() ==> #[trigger] self.grid@[i] == (if rect.contains(
                        before[i].position,
                    ) && before[i].position.x < x {
                        carved(before[i])
                    } else {
                        before[i]
                    }),
            decreases hi_x + 1 - x,
        {
            let mut y: i32 = lo_y;
            while y <= hi_y
                invariant
                    width == self.size.width,
                    height == self.size.height,
                    0 <= lo_x <= x <= hi_x < width,
                    0 <= lo_y <= y,
                    hi_y < height,
                    y <= hi_y + 1 || hi_y < lo_y,
                    lo_x == (if rect.x1 < 0 { 0 } else { rect.x1 }),
                    lo_y == (if rect.y1 < 0 { 0 } else { rect.y1 }),
                    hi_x == (if rect.x2 >= width { width - 1 } else { rect.x2 as int }),
                    hi_y == (if rect.y2 >= height { height - 1 } else { rect.y2 as int }),
                    self.wf(),
                    self.same_shape(old(self)),
                    before == old(self).tiles(),
                    self.grid@.len() == before.len(),
                    forall|i: int|
                        0 <= i < before.len() ==> ({
                            let p = (#[trigger] before[i]).position;
                            p == point_of(i, height as int) && 0 <= p.x < width && 0 <= p.y
                                < height
                        }),
                    forall|i: int|
                        0 <= i < before.len() ==> #[trigger] self.grid@[i] == (if rect.contains(
                            before[i].position,
                        ) && (before[i].position.x < x || (before[i].position.x == x
                            && before[i].position.y < y)) {
                            carved(before[i])
                        } else {
                            before[i]
                        }),
                decreases hi_y + 1 - y,
            {
                let p: Point = Point::new(x, y);
                proof {
                    self.lemma_len_fits();
                    self.lemma_cell_tile(p);
                }
                let index: usize = Self::xy_idx(&p, height);
                let mut tile: Tile = self.grid[index];
                tile.surface = Surface::Floor;
                self.grid.set(index, tile);
                proof {
                    assert forall|i: int| 0 <= i < before.len() && i != index implies before[i].position
                        != p by {
                        lemma_point_bounds(i, width as int, height as int);
                    }
                }
                y += 1;
            }
            x += 1;
        }
        proof {
            assert(self.grid@ =~= carve_rect(before, *rect));
        }
    }

    /// Digs a corridor along row `y`, from column `x1` to column `x2`.
    pub fn apply_horizontal_tunnel(&mut self, x1: i32, x2: i32, y: i32)
        requires
            old(self).wf(),
        ensures
            final(self).wf(),
            final(self).same_shape(old(self)),
            final(self).tiles() == carve_rect(old(self).tiles(), horizontal_span(x1, x2, y)),
    {
        let lo: i32 = if x1 <= x2 { x1 } else { x2 };
        let hi: i32 = if x1 <= x2 { x2 } else { x1 };
        self.carve(&TileRect { x1: lo, y1: y, x2: hi, y2: y });
    }

    /// Digs a corridor along column `x`, from row `y1` to row `y2`.
    pub fn apply_vertical_tunnel(&mut self, y1: i32, y2: i32, x: i32)
        requires
            old(self).wf(),
        ensures
            final(self).wf(),
            final(self).same_shape(old(self)),
            final(self).tiles() == carve_rect(old(self).tiles(), vertical_span(y1, y2, x)),
    {
        let lo: i32 = if y1 <= y2 { y1 } else { y2 };
        let hi: i32 = if y1 <= y2 { y2 } else { y1 };
        self.carve(&TileRect { x1: x, y1: lo, x2: x, y2: hi });
    }

    /// Marks every tile as seen.
    pub fn reveal_all(&mut self)
        requires
            old(self).wf(),
        ensures
            final(self).wf(),
            final(self).same_shape(old(self)),
            final(self).tiles() == old(self).tiles().map_values(|t: Tile| revealed(t)),
    {
        let ghost before = self.grid@;
        let mut i: usize = 0;
        while i < self.grid.len()
            invariant
                0 <= i <= self.grid@.len(),
                self.wf(),
                self.same_shape(old(self)),
                before == old(self).tiles(),
                self.grid@.len() == before.len(),
                forall|j: int| 0 <= j < i ==> #[trigger] self.grid@[j] == revealed(before[j]),
                forall|j: int| i <= j < before.len() ==> #[trigger] self.grid@[j] == before[j],
            decreases self.grid@.len() - i,
        {
            let mut tile: Tile = self.grid[i];
            tile.revealed = true;
            self.grid.set(i, tile);
            i += 1;
        }
        proof {
            assert(self.grid@ =~= before.map_values(|t: Tile| revealed(t)));
        }
    }
}

/// The one-tile-wide row of cells between columns `x1` and `x2`, in either
/// order, at height `y`.
pub open spec fn horizontal_span(x1: i32, x2: i32, y: i32) -> TileRect {
    TileRect { x1: if x1 <= x2 { x1 } else { x2 }, y1: y, x2: if x1 <= x2 { x2 } else { x1 }, y2: y }
}

/// The one-tile-wide column of cells between rows `y1` and `y2`, in either
/// order, at column `x`.
pub open spec fn vertical_span(y1: i32, y2: i32, x: i32) -> TileRect {
    TileRect { x1: x, y1: if y1 <= y2 { y1 } else { y2 }, x2: x, y2: if y1 <= y2 { y2 } else { y1 } }
}

/// The first `k + 1` elements hold what the first `k` hold, and the
/// element at `k`.
pub proof fn lemma_take_contains<T>(s: Seq<T>, k: int)
    requires
        0 <= k < s.len(),
    ensures
        forall|v: T| #[trigger] s.take(k + 1).contains(v) <==> s.take(k).contains(v) || s[k] == v,
{
    let longer = s.take(k + 1);
    let shorter = s.take(k);
    assert forall|v: T| #[trigger] longer.contains(v) <==> shorter.contains(v) || s[k] == v by {
        if longer.contains(v) {
            let i = choose|i: int| 0 <= i < longer.len() && longer[i] == v;
            if i < k {
                assert(shorter[i] == v);
            }
        }
        if shorter.contains(v) {
            let i = choose|i: int| 0 <= i < shorter.len() && shorter[i] == v;
            assert(longer[i] == v);
        }
        if s[k] == v {
            assert(longer[k] == v);
        }
    }
}

} // verus!
