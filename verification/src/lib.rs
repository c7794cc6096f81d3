//! The rules of a tile-grid dungeon crawler, verified: the grid of a level,
//! the generator that digs rooms and corridors into it, the search for the
//! cheapest path across it, and the field of view of a viewer standing on
//! it; and the smaller rules of the game around them, from the shapes
//! that the cursor draws to the steps that the keyboard asks for.

pub mod astar;
pub mod builder;
pub mod collision;
pub mod common;
pub mod cursor;
pub mod entity;
pub mod fov;
pub mod fov_laws;
pub mod frontier;
pub mod grid;
pub mod keyboard;
pub mod paint;
pub mod pathfinding;
pub mod rect;
pub mod shadow;
pub mod tile;

pub use crate::builder::{ConfigError, MapBuilder, RoomDraw};
pub use crate::collision::{Collision, Collisions};
pub use crate::common::{Direction, Point, Size, WalkPath};
pub use crate::cursor::TileCursor;
pub use crate::entity::{Enemy, Health, Spell};
pub use crate::fov::{update_visible, update_visible_octant, FieldOfView};
pub use crate::frontier::Frontier;
pub use crate::grid::Grid;
pub use crate::keyboard::{Cooldown, KeyboardMovement, Keys, RecentlyPressed};
pub use crate::paint::TilePaint;
pub use crate::pathfinding::Unreachable;
pub use crate::rect::{Room, TileRect};
pub use crate::shadow::{BlockedFov, OctantPoint, ShadowBorder, Slope};
pub use crate::tile::{Surface, Tile, TILE_SIZE};
