//! The cells that a map is made of.

use vstd::prelude::*;
use crate::common::Point;

verus! {

/// Edge length of one tile on screen, in pixels.
pub const TILE_SIZE: i32 = 32;

/// What a tile is made of.
#[derive(Debug, Copy, Clone, PartialEq, Eq, Structural)]
pub enum Surface {
    Floor,
    Wall,
}

/// One tile on the grid
#[derive(Debug, Copy, Clone, PartialEq, Eq, Structural)]
pub struct Tile {
    pub surface: Surface,
    /// The tile's position on the board.
    pub position: Point,
    pub revealed: bool,
    /// Cost of stepping onto the tile, at least 1.
    pub cost: i32,
}

impl Tile {
    /// A fresh tile: not yet revealed, with unit cost.
    pub fn new(surface: Surface, position: Point) -> (t: Self)
        ensures
            t == (Tile { surface, position, revealed: false, cost: 1 }),
    {
        Self { surface, position, revealed: false, cost: 1 }
    }

    /// Pixel position of the tile: its grid position scaled by `TILE_SIZE`.
    pub fn screen_position(&self) -> (p: (i64, i64))
        ensures
            p.0 == self.position.x * TILE_SIZE,
            p.1 == self.position.y * TILE_SIZE,
    {
        (self.position.x as i64 * TILE_SIZE as i64, self.position.y as i64 * TILE_SIZE as i64)
    }

    /// Nothing can stand on the tile or see through it.
    pub open spec fn spec_is_wall(&self) -> bool {
        self.surface == Surface::Wall
    }

    #[verifier::when_used_as_spec(spec_is_wall)]
    pub fn is_wall(&self) -> (b: bool)
        ensures
            b == (self.surface == Surface::Wall),
    {
        self.surface == Surface::Wall
    }

    /// Something may stand on the tile.
    pub open spec fn spec_is_safe(&self) -> bool {
        !self.is_wall()
    }

    #[verifier::when_used_as_spec(spec_is_safe)]
    pub fn is_safe(&self) -> (b: bool)
        ensures
            b == !self.is_wall(),
    {
        !self.is_wall()
    }
}

} // verus!
