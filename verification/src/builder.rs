//! Procedural generation of a level: rooms at random places that do not
//! touch, each joined to the one before it by a corridor.

use vstd::prelude::*;
use std::ops::Range;
use rand::rngs::StdRng;
use rand::Rng;
use crate::common::{Point, Size};
use crate::grid::{carve_rect, horizontal_span, vertical_span, Grid};
use crate::pathfinding::{
    lemma_reachable_column,
    lemma_reachable_monotone,
    lemma_reachable_row,
    lemma_reachable_self,
    lemma_reachable_transitive,
    reachable,
    walkable,
};
use crate::rect::TileRect;
use crate::tile::{Surface, Tile};

verus! {

/// The random number generator that a builder draws from: rand's
/// `StdRng`. Nothing is known of its state.
#[verifier::external_type_specification]
#[verifier::external_body]
pub struct ExStdRng(StdRng);

/// Draws an integer from `low..high` by rand's `Rng::gen_range`, which
/// panics on an empty range and otherwise returns a value of the range.
/// Which value it is depends on the generator.
#[verifier::external_body]
fn random_in_range(rng: &mut StdRng, low: i32, high: i32) -> (r: i32)
    requires
        low < high,
    ensures
        low <= r < high,
{
    rng.gen_range(low..high)
}

/// Why a builder cannot generate a level.
#[derive(Debug, Copy, Clone, PartialEq, Eq, Structural)]
pub enum ConfigError {
    /// A side of the map is negative, or the map has more cells than can
    /// be held.
    InvalidSize,
    /// No room is to be generated.
    NoRooms,
    /// A range of room sizes is empty or starts below zero.
    InvalidRoomSize,
    /// The largest room allowed would not stay one tile inside every
    /// border of the map.
    RoomsDoNotFit,
}

/// What is drawn at random for one room: its extent, where its top-left
/// corner goes, and which way round the corridor to the room before it is
/// dug.
#[derive(Debug, Copy, Clone, PartialEq, Eq, Structural)]
pub struct RoomDraw {
    pub width: i32,
    pub height: i32,
    pub x: i32,
    pub y: i32,
    pub horizontal_first: bool,
}

impl RoomDraw {
    /// The extents are not negative and the far corner has `i32`
    /// coordinates.
    pub open spec fn wf(self) -> bool {
        &&& 0 <= self.width
        &&& 0 <= self.height
        &&& self.x + self.width <= i32::MAX
        &&& self.y + self.height <= i32::MAX
    }

    /// The room that the draw describes.
    pub open spec fn room(self) -> TileRect {
        TileRect {
            x1: self.x,
            y1: self.y,
            x2: (self.x + self.width) as i32,
            y2: (self.y + self.height) as i32,
        }
    }
}

/// Some room of the list intersects `room`.
pub open spec fn intersects_any(rooms: Seq<TileRect>, room: TileRect) -> bool {
    exists|i: int| 0 <= i < rooms.len() && (#[trigger] rooms[i]).intersect(&room)
}

/// No two rooms of the list intersect.
pub open spec fn apart(rooms: Seq<TileRect>) -> bool {
    forall|i: int, j: int|
        #![trigger rooms[i], rooms[j]]
        0 <= i < j < rooms.len() ==> !rooms[i].intersect(&rooms[j])
}

/// The tiles after an L-shaped corridor, one tile wide, has been dug from
/// `from` to `to`: first along the row of `from` and then along the
/// column of `to`, or first along the column of `from` and then along the
/// row of `to`.
pub open spec fn dig_corridor(
    tiles: Seq<Tile>,
    from: Point,
    to: Point,
    horizontal_first: bool,
) -> Seq<Tile> {
    if horizontal_first {
        carve_rect(
            carve_rect(tiles, horizontal_span(from.x, to.x, from.y)),
            vertical_span(from.y, to.y, to.x),
        )
    } else {
        carve_rect(
            carve_rect(tiles, vertical_span(from.y, to.y, from.x)),
            horizontal_span(from.x, to.x, to.y),
        )
    }
}

/// The tiles and the rooms after one more room has been tried. A room
/// that intersects an earlier one changes nothing. Any other is dug out,
/// joined to the last room by a corridor between their centers, and
/// added to the rooms.
pub open spec fn place(tiles: Seq<Tile>, rooms: Seq<TileRect>, draw: RoomDraw) -> (
    Seq<Tile>,
    Seq<TileRect>,
) {
    let room = draw.room();
    if intersects_any(rooms, room) {
        (tiles, rooms)
    } else if rooms.len() == 0 {
        (carve_rect(tiles, room), rooms.push(room))
    } else {
        (
            dig_corridor(
                carve_rect(tiles, room),
                rooms.last().center(),
                room.center(),
                draw.horizontal_first,
            ),
            rooms.push(room),
        )
    }
}

/// The tiles and the rooms after the rooms drawn have been tried in turn,
/// starting without rooms.
pub open spec fn generated(tiles: Seq<Tile>, draws: Seq<RoomDraw>) -> (Seq<Tile>, Seq<TileRect>)
    decreases draws.len(),
{
    if draws.len() == 0 {
        (tiles, Seq::empty())
    } else {
        let before = generated(tiles, draws.drop_last());
        place(before.0, before.1, draws.last())
    }
}

/// The room lies inside the grid.
pub open spec fn holds(grid: &Grid, room: TileRect) -> bool {
    &&& room.wf()
    &&& 0 <= room.x1
    &&& 0 <= room.y1
    &&& room.x2 < grid.size().width
    &&& room.y2 < grid.size().height
}

/// Each room lies inside the grid and can be walked on all over, and its
/// center can be reached from the center of the first room.
pub open spec fn joined(grid: &Grid, rooms: Seq<TileRect>) -> bool {
    forall|i: int|
        0 <= i < rooms.len() ==> {
            &&& holds(grid, #[trigger] rooms[i])
            &&& forall|p: Point| #[trigger] rooms[i].contains(p) ==> walkable(grid, p)
            &&& reachable(grid, rooms[0].center(), rooms[i].center())
        }
}

/// Digging takes nothing away that could be walked on, and what is dug
/// out inside the grid can be walked on.
pub proof fn lemma_carve_opens(before: &Grid, after: &Grid, rect: TileRect)
    requires
        before.wf(),
        after.same_shape(before),
        after.tiles() == carve_rect(before.tiles(), rect),
    ensures
        forall|p: Point| #[trigger] walkable(before, p) ==> walkable(after, p),
        forall|p: Point| after.in_bounds(&p) && rect.contains(p) ==> #[trigger] walkable(after, p),
{
    assert forall|p: Point| #[trigger] walkable(before, p) implies walkable(after, p) by {
        before.lemma_cell_tile(p);
    }
    assert forall|p: Point| after.in_bounds(&p) && rect.contains(p) implies #[trigger] walkable(
        after,
        p,
    ) by {
        before.lemma_cell_tile(p);
    }
}

/// A corridor dug between two cells of the grid takes nothing away that
/// could be walked on, and leads from the one cell to the other.
pub proof fn lemma_corridor_joins(
    before: &Grid,
    after: &Grid,
    from: Point,
    to: Point,
    horizontal_first: bool,
)
    requires
        before.wf(),
        after.same_shape(before),
        after.tiles() == dig_corridor(before.tiles(), from, to, horizontal_first),
        before.in_bounds(&from),
        before.in_bounds(&to),
    ensures
        forall|p: Point| #[trigger] walkable(before, p) ==> walkable(after, p),
        reachable(after, from, to),
{
    assert forall|p: Point| #[trigger] walkable(before, p) implies walkable(after, p) by {
        before.lemma_cell_tile(p);
    }
    let corner = if horizontal_first {
        Point { x: to.x, y: from.y }
    } else {
        Point { x: from.x, y: to.y }
    };
    if horizontal_first {
        assert forall|x: i32| ((from.x <= x <= to.x) || (to.x <= x <= from.x)) implies #[trigger] walkable(
            after,
            Point { x, y: from.y },
        ) by {
            before.lemma_cell_tile(Point { x, y: from.y });
        }
        assert forall|y: i32| ((from.y <= y <= to.y) || (to.y <= y <= from.y)) implies #[trigger] walkable(
            after,
            Point { x: to.x, y },
        ) by {
            before.lemma_cell_tile(Point { x: to.x, y });
        }
        lemma_reachable_row(after, from.y, from.x, to.x);
        lemma_reachable_column(after, to.x, from.y, to.y);
    } else {
        assert forall|y: i32| ((from.y <= y <= to.y) || (to.y <= y <= from.y)) implies #[trigger] walkable(
            after,
            Point { x: from.x, y },
        ) by {
            before.lemma_cell_tile(Point { x: from.x, y });
        }
        assert forall|x: i32| ((from.x <= x <= to.x) || (to.x <= x <= from.x)) implies #[trigger] walkable(
            after,
            Point { x, y: to.y },
        ) by {
            before.lemma_cell_tile(Point { x, y: to.y });
        }
        lemma_reachable_column(after, from.x, from.y, to.y);
        lemma_reachable_row(after, to.y, from.x, to.x);
    }
    lemma_reachable_transitive(after, from, corner, to);
}

/// Rooms that are joined stay joined where nothing that could be walked
/// on is taken away.
pub proof fn lemma_joined_monotone(before: &Grid, after: &Grid, rooms: Seq<TileRect>)
    requires
        before.size() == after.size(),
        forall|p: Point| #[trigger] walkable(before, p) ==> walkable(after, p),
        joined(before, rooms),
    ensures
        joined(after, rooms),
{
    assert forall|i: int| 0 <= i < rooms.len() implies {
        &&& holds(after, #[trigger] rooms[i])
        &&& forall|p: Point| #[trigger] rooms[i].contains(p) ==> walkable(after, p)
        &&& reachable(after, rooms[0].center(), rooms[i].center())
    } by {
        assert(holds(before, rooms[i]));
        assert forall|p: Point| #[trigger] rooms[i].contains(p) implies walkable(after, p) by {
            assert(walkable(before, p));
        }
        lemma_reachable_monotone(before, after, rooms[0].center(), rooms[i].center());
    }
}

/// `true` where some room of `rooms` intersects `room`.
pub fn intersects_one_of(rooms: &Vec<TileRect>, room: &TileRect) -> (b: bool)
    ensures
        b == intersects_any(rooms@, *room),
{
    let mut i: usize = 0;
    while i < rooms.len()
        invariant
            0 <= i <= rooms@.len(),
            forall|j: int| 0 <= j < i ==> !(#[trigger] rooms@[j]).intersect(room),
        decreases rooms@.len() - i,
    {
        if rooms[i].intersect(room) {
            return true;
        }
        i += 1;
    }
    false
}

impl Grid {
    /// Digs an L-shaped corridor, one tile wide, from `from` to `to`.
    pub fn connect(&mut self, from: Point, to: Point, horizontal_first: bool)
        requires
            old(self).wf(),
        ensures
            final(self).wf(),
            final(self).same_shape(old(self)),
            final(self).tiles() == dig_corridor(old(self).tiles(), from, to, horizontal_first),
    {
        if horizontal_first {
            self.apply_horizontal_tunnel(from.x, to.x, from.y);
            self.apply_vertical_tunnel(from.y, to.y, to.x);
        } else {
            self.apply_vertical_tunnel(from.y, to.y, from.x);
            self.apply_horizontal_tunnel(from.x, to.x, to.y);
        }
    }

    /// Tries one more room: where it intersects none of `rooms`, it is dug
    /// out, joined to the last of them and added to them.
    pub fn place_room(&mut self, rooms: &mut Vec<TileRect>, draw: RoomDraw) -> (placed: bool)
        requires
            old(self).wf(),
            draw.wf(),
        ensures
            final(self).wf(),
            final(self).same_shape(old(self)),
            (final(self).tiles(), final(rooms)@) == place(old(self).tiles(), old(rooms)@, draw),
            placed == !intersects_any(old(rooms)@, draw.room()),
            apart(old(rooms)@) ==> apart(final(rooms)@),
            holds(old(self), draw.room()) && joined(old(self), old(rooms)@) ==> joined(
                final(self),
                final(rooms)@,
            ),
    {
        let new_room: TileRect = TileRect::new(draw.x, draw.y, draw.width, draw.height);
        if intersects_one_of(rooms, &new_room) {
            return false;
        }
        let ghost blank = *self;
        let ghost earlier = rooms@;
        self.carve(&new_room);
        let ghost carved = *self;
        let new_point: Point = new_room.center();
        if rooms.len() > 0 {
            let prev_point: Point = rooms[rooms.len() - 1].center();
            self.connect(prev_point, new_point, draw.horizontal_first);
        }
        rooms.push(new_room);
        proof {
            if holds(&blank, new_room) && joined(&blank, earlier) {
                lemma_carve_opens(&blank, &carved, new_room);
                lemma_joined_monotone(&blank, &carved, earlier);
                if earlier.len() > 0 {
                    let prev_point = earlier.last().center();
                    assert(holds(&carved, earlier[earlier.len() - 1]));
                    lemma_corridor_joins(
                        &carved,
                        &*self,
                        prev_point,
                        new_point,
                        draw.horizontal_first,
                    );
                    lemma_joined_monotone(&carved, &*self, earlier);
                    assert(reachable(&*self, earlier[0].center(), prev_point));
                    lemma_reachable_transitive(&*self, earlier[0].center(), prev_point, new_point);
                } else {
                    lemma_reachable_self(&*self, new_point);
                }
                assert forall|i: int| 0 <= i < rooms@.len() implies {
                    &&& holds(&*self, #[trigger] rooms@[i])
                    &&& forall|p: Point| #[trigger] rooms@[i].contains(p) ==> walkable(&*self, p)
                    &&& reachable(&*self, rooms@[0].center(), rooms@[i].center())
                } by {
                    if i < earlier.len() {
                        assert(rooms@[i] == earlier[i]);
                        assert(holds(&carved, earlier[i]));
                    } else {
                        assert forall|p: Point| #[trigger] rooms@[i].contains(p) implies walkable(
                            &*self,
                            p,
                        ) by {
                            assert(walkable(&carved, p));
                        }
                    }
                }
            }
        }
        true
    }
}

/// Builder structure that creates levels.
#[derive(Debug)]
pub struct MapBuilder {
    /// The size of the map to be generated.
    pub map_size: Size,
    /// Number of rooms that can be generated.
    pub nr_rooms: i32,
    /// How big rooms can be.
    pub room_size_range_x: Range<i32>,
    /// How big rooms can be.
    pub room_size_range_y: Range<i32>,
    /// The depth of this level.
    pub depth: usize,
}

impl MapBuilder {
    /// What is wrong with the configuration, if anything.
    pub open spec fn config_error(&self) -> Option<ConfigError> {
        let xs = self.room_size_range_x;
        let ys = self.room_size_range_y;
        if self.map_size.width < 0 || self.map_size.height < 0 || self.map_size.area()
            > usize::MAX {
            Some(ConfigError::InvalidSize)
        } else if self.nr_rooms <= 0 {
            Some(ConfigError::NoRooms)
        } else if xs.start < 0 || xs.start >= xs.end || ys.start < 0 || ys.start >= ys.end {
            Some(ConfigError::InvalidRoomSize)
        } else if xs.end + 1 >= self.map_size.width || ys.end + 1 >= self.map_size.height {
            Some(ConfigError::RoomsDoNotFit)
        } else {
            None
        }
    }

    /// The draw is one that this builder can make: a room of an allowed
    /// size that stays one tile inside every border of the map.
    pub open spec fn allows(&self, draw: RoomDraw) -> bool {
        &&& self.room_size_range_x.start <= draw.width < self.room_size_range_x.end
        &&& self.room_size_range_y.start <= draw.height < self.room_size_range_y.end
        &&& 1 <= draw.x < self.map_size.width - draw.width - 1
        &&& 1 <= draw.y < self.map_size.height - draw.height - 1
    }

    /// The tiles of a map of this builder's size that is all `surface`.
    pub open spec fn blank(&self, surface: Surface) -> Seq<Tile> {
        Seq::new(
            self.map_size.area() as nat,
            |i: int|
                Tile {
                    surface,
                    position: crate::grid::point_of(i, self.map_size.height as int),
                    revealed: false,
                    cost: 1,
                },
        )
    }

    /// A builder for a map of 50 by 50 tiles with up to 25 rooms.
    pub fn new() -> (builder: Self)
        ensures
            builder == Self::spec_default(),
    {
        Self {
            map_size: Size::splat(50),
            nr_rooms: 25,
            room_size_range_x: 4..10,
            room_size_range_y: 2..8,
            depth: 0,
        }
    }

    /// The configuration that `new` gives.
    pub open spec fn spec_default() -> Self {
        MapBuilder {
            map_size: Size { width: 50, height: 50 },
            nr_rooms: 25,
            room_size_range_x: 4..10,
            room_size_range_y: 2..8,
            depth: 0,
        }
    }

    /// A builder for a square map with `size` tiles to a side.
    pub fn square(size: i32) -> (builder: Self)
        ensures
            builder == (MapBuilder {
                map_size: Size { width: size, height: size },
                ..Self::spec_default()
            }),
    {
        Self {
            map_size: Size::splat(size),
            nr_rooms: 25,
            room_size_range_x: 4..10,
            room_size_range_y: 2..8,
            depth: 0,
        }
    }

    /// Set the map size
    pub fn size(&mut self, size: Size) -> (r: &mut Self)
        ensures
            *r == (MapBuilder { map_size: size, ..*old(self) }),
            *final(self) == *final(r),
    {
        self.map_size = size;
        self
    }

    /// Sets depth of level.
    pub fn depth(&mut self, depth: usize) -> (r: &mut Self)
        ensures
            *r == (MapBuilder { depth, ..*old(self) }),
            *final(self) == *final(r),
    {
        self.depth = depth;
        self
    }

    /// Sets how many rooms are tried.
    pub fn nr_rooms(&mut self, amount: i32) -> (r: &mut Self)
        ensures
            *r == (MapBuilder { nr_rooms: amount, ..*old(self) }),
            *final(self) == *final(r),
    {
        self.nr_rooms = amount;
        self
    }

    /// Sets possible size of rooms.
    pub fn room_size(&mut self, x: Range<i32>, y: Range<i32>) -> (r: &mut Self)
        ensures
            *r == (MapBuilder { room_size_range_x: x, room_size_range_y: y, ..*old(self) }),
            *final(self) == *final(r),
    {
        self.room_size_range_x = x;
        self.room_size_range_y = y;
        self
    }

    /// Looks the configuration over: `None` where a level can be
    /// generated from it.
    pub fn check(&self) -> (r: Option<ConfigError>)
        ensures
            r == self.config_error(),
    {
        let width: i32 = self.map_size.width;
        let height: i32 = self.map_size.height;
        if width < 0 || height < 0 {
            return Some(ConfigError::InvalidSize);
        }
        assert(0 <= width * height <= i32::MAX * i32::MAX) by (nonlinear_arith)
            requires
                0 <= width <= i32::MAX,
                0 <= height <= i32::MAX,
        ;
        if width as u64 * height as u64 > usize::MAX as u64 {
            return Some(ConfigError::InvalidSize);
        }
        if self.nr_rooms <= 0 {
            return Some(ConfigError::NoRooms);
        }
        if self.room_size_range_x.start < 0 || self.room_size_range_x.start
            >= self.room_size_range_x.end || self.room_size_range_y.start < 0
            || self.room_size_range_y.start >= self.room_size_range_y.end {
            return Some(ConfigError::InvalidRoomSize);
        }
        if self.room_size_range_x.end as i64 + 1 >= width as i64 || self.room_size_range_y.end as i64
            + 1 >= height as i64 {
            return Some(ConfigError::RoomsDoNotFit);
        }
        None
    }

    /// A map of the configured size in which every tile is floor, and no
    /// rooms.
    pub fn build_all_floors(&self) -> (r: Result<(Grid, Vec<TileRect>), ConfigError>)
        ensures
            match r {
                Ok((grid, rooms)) => {
                    &&& grid.wf()
                    &&& grid.size() == self.map_size
                    &&& grid.spec_depth() == self.depth
                    &&& grid.tiles() == self.blank(Surface::Floor)
                    &&& rooms@.len() == 0
                },
                Err(e) => {
                    &&& e == ConfigError::InvalidSize
                    &&& self.map_size.width < 0 || self.map_size.height < 0 || self.map_size.area()
                        > usize::MAX
                },
            },
            r is Ok <==> 0 <= self.map_size.width && 0 <= self.map_size.height
                && self.map_size.area() <= usize::MAX,
    {
        match Grid::filled(self.map_size, self.depth, Surface::Floor) {
            Some(grid) => {
                proof {
                    assert(grid.tiles() =~= self.blank(Surface::Floor));
                }
                Ok((grid, Vec::new()))
            },
            None => Err(ConfigError::InvalidSize),
        }
    }

    /// Draws one room from the generator.
    pub fn draw_room(&self, rng: &mut StdRng) -> (draw: RoomDraw)
        requires
            self.config_error() is None,
        ensures
            self.allows(draw),
            draw.wf(),
    {
        let width: i32 = random_in_range(rng, self.room_size_range_x.start, self.room_size_range_x.end);
        let height: i32 = random_in_range(
            rng,
            self.room_size_range_y.start,
            self.room_size_range_y.end,
        );
        let x: i32 = random_in_range(rng, 1, self.map_size.width - width - 1);
        let y: i32 = random_in_range(rng, 1, self.map_size.height - height - 1);
        let horizontal_first: bool = random_in_range(rng, 0, 2) == 1i32;
        RoomDraw { width, height, x, y, horizontal_first }
    }

    /// Build a random map: the grid and the rooms in the order in which
    /// they were made. The first room is where the level starts.
    pub fn build(&self, rng: &mut StdRng) -> (r: Result<(Grid, Vec<TileRect>), ConfigError>)
        ensures
            match r {
                Ok((grid, rooms)) => {
                    &&& self.config_error() is None
                    &&& grid.wf()
                    &&& grid.size() == self.map_size
                    &&& grid.spec_depth() == self.depth
                    &&& exists|draws: Seq<RoomDraw>|
                        {
                            &&& draws.len() == self.nr_rooms
                            &&& forall|i: int|
                                0 <= i < draws.len() ==> self.allows(#[trigger] draws[i])
                            &&& (grid.tiles(), rooms@) == #[trigger] generated(
                                self.blank(Surface::Wall),
                                draws,
                            )
                        }
                    &&& rooms@.len() >= 1
                    &&& apart(rooms@)
                    &&& forall|i: int|
                        0 <= i < rooms@.len() ==> self.inside_borders(#[trigger] rooms@[i])
                    &&& joined(&grid, rooms@)
                },
                Err(e) => self.config_error() == Some(e),
            },
    {
        if let Some(e) = self.check() {
            return Err(e);
        }
        let mut grid: Grid = match Grid::filled(self.map_size, self.depth, Surface::Wall) {
            Some(grid) => grid,
            None => {
                return Err(ConfigError::InvalidSize);
            },
        };
        proof {
            assert(grid.tiles() =~= self.blank(Surface::Wall));
        }
        let mut rooms: Vec<TileRect> = Vec::new();
        let ghost mut draws: Seq<RoomDraw> = Seq::empty();
        let mut made: i32 = 0;
        while made < self.nr_rooms
            invariant
                0 <= made <= self.nr_rooms,
                self.config_error() is None,
                grid.wf(),
                grid.size() == self.map_size,
                grid.spec_depth() == self.depth,
                draws.len() == made,
                forall|i: int| 0 <= i < draws.len() ==> self.allows(#[trigger] draws[i]),
                (grid.tiles(), rooms@) == generated(self.blank(Surface::Wall), draws),
                made >= 1 ==> rooms@.len() >= 1,
                apart(rooms@),
                forall|i: int| 0 <= i < rooms@.len() ==> self.inside_borders(#[trigger] rooms@[i]),
                joined(&grid, rooms@),
            decreases self.nr_rooms - made,
        {
            let draw: RoomDraw = self.draw_room(rng);
            grid.place_room(&mut rooms, draw);
            proof {
                let longer = draws.push(draw);
                assert(longer.drop_last() =~= draws);
                draws = longer;
            }
            made += 1;
        }
        Ok((grid, rooms))
    }

    /// The room stays one tile inside every border of the map.
    pub open spec fn inside_borders(&self, room: TileRect) -> bool {
        &&& room.wf()
        &&& 1 <= room.x1
        &&& 1 <= room.y1
        &&& room.x2 <= self.map_size.width - 2
        &&& room.y2 <= self.map_size.height - 2
    }
}

impl Default for MapBuilder {
    fn default() -> (builder: Self)
        ensures
            builder == Self::spec_default(),
    {
        Self::new()
    }
}

/// However the rooms are drawn, no two of the rooms that are made
/// intersect.
pub proof fn lemma_generated_apart(tiles: Seq<Tile>, draws: Seq<RoomDraw>)
    ensures
        apart(generated(tiles, draws).1),
    decreases draws.len(),
{
    if draws.len() > 0 {
        lemma_generated_apart(tiles, draws.drop_last());
    }
}

/// Generation changes no tile but for its surface, and adds none: a
/// generated grid has as many tiles as the blank one.
pub proof fn lemma_generated_keeps_shape(tiles: Seq<Tile>, draws: Seq<RoomDraw>)
    ensures
        generated(tiles, draws).0.len() == tiles.len(),
        forall|t: int|
            0 <= t < tiles.len() ==> (#[trigger] generated(tiles, draws).0[t]).position
                == tiles[t].position && generated(tiles, draws).0[t].cost == tiles[t].cost
                && generated(tiles, draws).0[t].revealed == tiles[t].revealed,
    decreases draws.len(),
{
    if draws.len() > 0 {
        lemma_generated_keeps_shape(tiles, draws.drop_last());
    }
}

} // verus!
