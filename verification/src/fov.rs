//! Field of view by recursive shadowcasting: each of the eight octants
//! around the viewer is scanned row by row, and the walls met on the way
//! cast shadows over the rows behind them.

use vstd::prelude::*;
use crate::common::{chebyshev, Point};
use crate::fov_laws::lemma_visible_in_sight;
use crate::grid::Grid;
use crate::shadow::{
    hides,
    hides_all,
    octant_offset,
    tile_shadow,
    with_blocker,
    BlockedFov,
    OctantPoint,
    ShadowBorder,
};

verus! {

/// What something can currently see.
#[derive(Debug)]
pub struct FieldOfView {
    pub range: i32,
    pub tiles: Vec<Point>,
}

impl FieldOfView {
    pub fn new(range: i32) -> (fov: Self)
        ensures
            fov.range == range,
            fov.tiles@ == Seq::<Point>::empty(),
    {
        Self { range, tiles: Vec::new() }
    }
}

/// The cell of the map that the tile in row `row`, column `col` of an
/// octant around `origin` stands on; `None` beyond the range of `i32`.
pub open spec fn tile_position(origin: Point, octant: u8, row: int, col: int) -> Option<Point> {
    origin.spec_offset(octant_offset(octant, row, col).0, octant_offset(octant, row, col).1)
}

/// The tile in row `row`, column `col` of an octant stands on a cell of
/// the grid.
pub open spec fn tile_inside(grid: &Grid, origin: Point, octant: u8, row: int, col: int) -> bool {
    match tile_position(origin, octant, row, col) {
        Some(p) => grid.in_bounds(&p),
        None => false,
    }
}

/// The state of a scan after it has looked at one tile inside the grid.
/// The state is what has been seen and the shadows cast so far. A tile
/// that no shadow hides is seen; where it is a wall, it casts its own
/// shadow.
pub open spec fn scan_tile(
    grid: &Grid,
    origin: Point,
    octant: u8,
    row: int,
    col: int,
    state: (Seq<Point>, Seq<ShadowBorder>),
) -> (Seq<Point>, Seq<ShadowBorder>) {
    let position = tile_position(origin, octant, row, col).unwrap();
    let shadow = tile_shadow(row, col);
    if hides_all(state.1) || hides(state.1, shadow) {
        state
    } else if grid.tile_at(position).is_wall() {
        (state.0.push(position), with_blocker(state.1, shadow))
    } else {
        (state.0.push(position), state.1)
    }
}

/// The state of a scan after the tiles of row `row` from column `col` to
/// the diagonal. The row ends early at the first tile outside the grid.
pub open spec fn scan_row(
    grid: &Grid,
    origin: Point,
    octant: u8,
    row: int,
    col: int,
    state: (Seq<Point>, Seq<ShadowBorder>),
) -> (Seq<Point>, Seq<ShadowBorder>)
    decreases row - col + 1,
{
    if col > row || !tile_inside(grid, origin, octant, row, col) {
        state
    } else {
        scan_row(grid, origin, octant, row, col + 1, scan_tile(grid, origin, octant, row, col, state))
    }
}

/// The state of a scan after the rows from `row` to the last one below
/// `range`. The scan ends early at the first row that starts outside the
/// grid.
pub open spec fn scan_rows(
    grid: &Grid,
    origin: Point,
    octant: u8,
    range: int,
    row: int,
    state: (Seq<Point>, Seq<ShadowBorder>),
) -> (Seq<Point>, Seq<ShadowBorder>)
    decreases range - row,
{
    if row >= range || !tile_inside(grid, origin, octant, row, 0) {
        state
    } else {
        scan_rows(
            grid,
            origin,
            octant,
            range,
            row + 1,
            scan_row(grid, origin, octant, row, 0, state),
        )
    }
}

/// What is seen after octant `octant` has been scanned, starting with no
/// shadows, on top of what was `seen` before.
pub open spec fn scan_octant(
    grid: &Grid,
    origin: Point,
    octant: u8,
    range: int,
    seen: Seq<Point>,
) -> Seq<Point> {
    scan_rows(grid, origin, octant, range, 1, (seen, Seq::empty())).0
}

/// What is seen after the octants from `octant` to the last have been
/// scanned in turn.
pub open spec fn scan_octants(
    grid: &Grid,
    origin: Point,
    octant: u8,
    range: int,
    seen: Seq<Point>,
) -> Seq<Point>
    decreases 8 - octant,
{
    if octant >= 8 {
        seen
    } else {
        scan_octants(
            grid,
            origin,
            (octant + 1) as u8,
            range,
            scan_octant(grid, origin, octant, range, seen),
        )
    }
}

/// The cells seen from `origin` by a viewer who sees `range - 1` tiles
/// far: those that the scans of the eight octants see, and the viewer's
/// own. A cell on the border of two octants is listed by both.
pub open spec fn visible_points(grid: &Grid, origin: Point, range: int) -> Seq<Point> {
    scan_octants(grid, origin, 0, range, Seq::empty()).push(origin)
}

/// The cell lies inside the grid, at least one and less than `range`
/// steps from `origin`, diagonal steps counting as one.
pub open spec fn in_sight(grid: &Grid, origin: Point, range: int, p: Point) -> bool {
    grid.in_bounds(&p) && 1 <= chebyshev(origin, p) < range
}

/// Where the tile in row `row`, column `col` of an octant stands, if that
/// is a cell of the grid.
fn locate(grid: &Grid, origin: Point, octant: u8, row: i32, col: i32) -> (r: Option<Point>)
    requires
        octant <= 7,
        0 <= col <= row,
    ensures
        r is Some <==> tile_inside(grid, origin, octant, row as int, col as int),
        r matches Some(p) ==> tile_position(origin, octant, row as int, col as int) == Some(p),
{
    let rotated: OctantPoint = BlockedFov::rotate_for_octant(OctantPoint::new(row, col), octant);
    match origin.offset(rotated.0.x, rotated.0.y) {
        Some(p) => if grid.in_bounds(&p) {
            Some(p)
        } else {
            None
        },
        None => None,
    }
}

/// Scans one octant and adds what it sees to `fov.tiles`.
pub fn update_visible_octant(octant: u8, grid: &Grid, init_position: Point, fov: &mut FieldOfView)
    requires
        octant <= 7,
        grid.wf(),
    ensures
        final(fov).range == old(fov).range,
        final(fov).tiles@ == scan_octant(
            grid,
            init_position,
            octant,
            old(fov).range as int,
            old(fov).tiles@,
        ),
{
    let mut blocked_fov: BlockedFov = BlockedFov::new();
    let range: i32 = fov.range;
    let ghost total = scan_rows(
        grid,
        init_position,
        octant,
        range as int,
        1,
        (fov.tiles@, Seq::empty()),
    );
    let mut row: i32 = 1;
    while row < range
        invariant_except_break
            1 <= row,
            scan_rows(
                grid,
                init_position,
                octant,
                range as int,
                row as int,
                (fov.tiles@, blocked_fov.borders@),
            ) == total,
        invariant
            octant <= 7,
            grid.wf(),
            range == fov.range,
            fov.range == old(fov).range,
        ensures
            (fov.tiles@, blocked_fov.borders@) == total,
        decreases range - row,
    {
        if locate(grid, init_position, octant, row, 0).is_none() {
            break;
        }
        let mut col: i32 = 0;
        while col <= row
            invariant_except_break
                0 <= col <= row + 1,
                scan_rows(
                    grid,
                    init_position,
                    octant,
                    range as int,
                    row + 1,
                    scan_row(
                        grid,
                        init_position,
                        octant,
                        row as int,
                        col as int,
                        (fov.tiles@, blocked_fov.borders@),
                    ),
                ) == total,
            invariant
                1 <= row < range,
                octant <= 7,
                grid.wf(),
                range == fov.range,
                fov.range == old(fov).range,
            ensures
                scan_rows(
                    grid,
                    init_position,
                    octant,
                    range as int,
                    row + 1,
                    (fov.tiles@, blocked_fov.borders@),
                ) == total,
            decreases row + 1 - col,
        {
            let pos: Point = match locate(grid, init_position, octant, row, col) {
                Some(p) => p,
                None => {
                    break;
                },
            };
            if !blocked_fov.is_fully_blocked() {
                let blocker: ShadowBorder = ShadowBorder::new(OctantPoint::new(row, col));
                let visible: bool = !blocked_fov.is_not_viewable(&blocker);
                if visible {
                    fov.tiles.push(pos);
                    let is_wall: bool = match grid.get_tile(&pos) {
                        Some(tile) => tile.is_wall(),
                        None => false,
                    };
                    if is_wall {
                        blocked_fov.add_blocker(blocker);
                    }
                }
            }
            col += 1;
        }
        row += 1;
    }
}

/// Works out what can be seen from `init_position` and leaves it in
/// `fov.tiles`.
pub fn update_visible(grid: &Grid, init_position: Point, fov: &mut FieldOfView)
    requires
        grid.wf(),
    ensures
        final(fov).range == old(fov).range,
        final(fov).tiles@ == visible_points(grid, init_position, old(fov).range as int),
        final(fov).tiles@.contains(init_position),
        forall|i: int|
            0 <= i < final(fov).tiles@.len() ==> {
                let p = #[trigger] final(fov).tiles@[i];
                p == init_position || in_sight(grid, init_position, old(fov).range as int, p)
            },
{
    proof {
        lemma_visible_in_sight(grid, init_position, fov.range as int);
    }
    fov.tiles.clear();
    let mut octant: u8 = 0;
    while octant < 8
        invariant
            0 <= octant <= 8,
            grid.wf(),
            fov.range == old(fov).range,
            scan_octants(grid, init_position, octant, fov.range as int, fov.tiles@) == scan_octants(
                grid,
                init_position,
                0,
                fov.range as int,
                Seq::empty(),
            ),
        decreases 8 - octant,
    {
        update_visible_octant(octant, grid, init_position, fov);
        octant += 1;
    }
    fov.tiles.push(init_position);
}

} // verus!
