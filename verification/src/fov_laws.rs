//! What holds of every field of view: where the seen cells lie, what a
//! wall next to the viewer hides, and what an octant without walls shows.

use vstd::prelude::*;
use crate::common::{chebyshev, Direction, Point};
use crate::fov::{
    in_sight,
    scan_octant,
    scan_octants,
    scan_row,
    scan_rows,
    scan_tile,
    tile_inside,
    tile_position,
    visible_points,
};
use crate::grid::Grid;
use crate::shadow::{
    hides,
    hides_all,
    lemma_le_transitive,
    lemma_with_blocker_keeps_hidden,
    lemma_with_blocker_ordered,
    octant_offset,
    ordered,
    tile_shadow,
    with_blocker,
    ShadowBorder,
};

verus! {

/// A scan only adds to what has been seen: looking at a tile forgets
/// nothing.
pub proof fn lemma_scan_tile_keeps(
    grid: &Grid,
    origin: Point,
    octant: u8,
    row: int,
    col: int,
    state: (Seq<Point>, Seq<ShadowBorder>),
    p: Point,
)
    requires
        state.0.contains(p),
    ensures
        scan_tile(grid, origin, octant, row, col, state).0.contains(p),
{
    let i = choose|i: int| 0 <= i < state.0.len() && state.0[i] == p;
    let after = scan_tile(grid, origin, octant, row, col, state).0;
    assert(after[i] == p);
}

/// A scan only adds to what has been seen: the rest of a row forgets
/// nothing.
pub proof fn lemma_scan_row_keeps(
    grid: &Grid,
    origin: Point,
    octant: u8,
    row: int,
    col: int,
    state: (Seq<Point>, Seq<ShadowBorder>),
    p: Point,
)
    requires
        state.0.contains(p),
    ensures
        scan_row(grid, origin, octant, row, col, state).0.contains(p),
    decreases row - col + 1,
{
    if !(col > row || !tile_inside(grid, origin, octant, row, col)) {
        lemma_scan_tile_keeps(grid, origin, octant, row, col, state, p);
        lemma_scan_row_keeps(
            grid,
            origin,
            octant,
            row,
            col + 1,
            scan_tile(grid, origin, octant, row, col, state),
            p,
        );
    }
}

/// A scan only adds to what has been seen: the remaining rows forget
/// nothing.
pub proof fn lemma_scan_rows_keeps(
    grid: &Grid,
    origin: Point,
    octant: u8,
    range: int,
    row: int,
    state: (Seq<Point>, Seq<ShadowBorder>),
    p: Point,
)
    requires
        state.0.contains(p),
    ensures
        scan_rows(grid, origin, octant, range, row, state).0.contains(p),
    decreases range - row,
{
    if !(row >= range || !tile_inside(grid, origin, octant, row, 0)) {
        lemma_scan_row_keeps(grid, origin, octant, row, 0, state, p);
        lemma_scan_rows_keeps(
            grid,
            origin,
            octant,
            range,
            row + 1,
            scan_row(grid, origin, octant, row, 0, state),
            p,
        );
    }
}

/// A scan only adds to what has been seen: the remaining octants forget
/// nothing.
pub proof fn lemma_scan_octants_keeps(
    grid: &Grid,
    origin: Point,
    octant: u8,
    range: int,
    seen: Seq<Point>,
    p: Point,
)
    requires
        seen.contains(p),
    ensures
        scan_octants(grid, origin, octant, range, seen).contains(p),
    decreases 8 - octant,
{
    if octant < 8 {
        lemma_scan_rows_keeps(grid, origin, octant, range, 1, (seen, Seq::empty()), p);
        lemma_scan_octants_keeps(
            grid,
            origin,
            (octant + 1) as u8,
            range,
            scan_octant(grid, origin, octant, range, seen),
            p,
        );
    }
}

/// Every cell that a row adds to what has been seen is the position of
/// one of its tiles: what holds of those positions, and of what was seen
/// before, holds of all that is seen after.
pub proof fn lemma_scan_row_all(
    grid: &Grid,
    origin: Point,
    octant: u8,
    row: int,
    col: int,
    state: (Seq<Point>, Seq<ShadowBorder>),
    good: spec_fn(Point) -> bool,
)
    requires
        forall|i: int| 0 <= i < state.0.len() ==> good(#[trigger] state.0[i]),
        forall|c: int|
            col <= c <= row && tile_inside(grid, origin, octant, row, c) ==> good(
                (#[trigger] tile_position(origin, octant, row, c)).unwrap(),
            ),
    ensures
        forall|i: int|
            0 <= i < scan_row(grid, origin, octant, row, col, state).0.len() ==> good(
                #[trigger] scan_row(grid, origin, octant, row, col, state).0[i],
            ),
    decreases row - col + 1,
{
    if !(col > row || !tile_inside(grid, origin, octant, row, col)) {
        let next = scan_tile(grid, origin, octant, row, col, state);
        let position = tile_position(origin, octant, row, col).unwrap();
        assert(good(position));
        assert forall|i: int| 0 <= i < next.0.len() implies good(#[trigger] next.0[i]) by {
            if i < state.0.len() {
                assert(next.0[i] == state.0[i]);
            }
        }
        lemma_scan_row_all(grid, origin, octant, row, col + 1, next, good);
        assert(scan_row(grid, origin, octant, row, col, state) == scan_row(
            grid,
            origin,
            octant,
            row,
            col + 1,
            next,
        ));
    } else {
        assert(scan_row(grid, origin, octant, row, col, state) == state);
    }
}

/// Every cell that the rows from `row` on add to what has been seen is the
/// position of one of their tiles.
pub proof fn lemma_scan_rows_all(
    grid: &Grid,
    origin: Point,
    octant: u8,
    range: int,
    row: int,
    state: (Seq<Point>, Seq<ShadowBorder>),
    good: spec_fn(Point) -> bool,
)
    requires
        forall|i: int| 0 <= i < state.0.len() ==> good(#[trigger] state.0[i]),
        forall|r: int, c: int|
            row <= r < range && 0 <= c <= r && tile_inside(grid, origin, octant, r, c) ==> good(
                (#[trigger] tile_position(origin, octant, r, c)).unwrap(),
            ),
    ensures
        forall|i: int|
            0 <= i < scan_rows(grid, origin, octant, range, row, state).0.len() ==> good(
                #[trigger] scan_rows(grid, origin, octant, range, row, state).0[i],
            ),
    decreases range - row,
{
    if !(row >= range || !tile_inside(grid, origin, octant, row, 0)) {
        let next = scan_row(grid, origin, octant, row, 0, state);
        lemma_scan_row_all(grid, origin, octant, row, 0, state, good);
        lemma_scan_rows_all(grid, origin, octant, range, row + 1, next, good);
        assert(scan_rows(grid, origin, octant, range, row, state) == scan_rows(
            grid,
            origin,
            octant,
            range,
            row + 1,
            next,
        ));
    } else {
        assert(scan_rows(grid, origin, octant, range, row, state) == state);
    }
}

/// Every cell that the octants from `octant` on add to what has been seen
/// lies inside the grid and within the range.
pub proof fn lemma_scan_octants_in_sight(
    grid: &Grid,
    origin: Point,
    octant: u8,
    range: int,
    seen: Seq<Point>,
)
    requires
        forall|i: int| 0 <= i < seen.len() ==> in_sight(grid, origin, range, #[trigger] seen[i]),
    ensures
        forall|i: int|
            0 <= i < scan_octants(grid, origin, octant, range, seen).len() ==> in_sight(
                grid,
                origin,
                range,
                #[trigger] scan_octants(grid, origin, octant, range, seen)[i],
            ),
    decreases 8 - octant,
{
    if octant < 8 {
        let good = |p: Point| in_sight(grid, origin, range, p);
        assert forall|r: int, c: int|
            1 <= r < range && 0 <= c <= r && tile_inside(grid, origin, octant, r, c) implies good(
            (#[trigger] tile_position(origin, octant, r, c)).unwrap(),
        ) by {}
        let next = scan_octant(grid, origin, octant, range, seen);
        lemma_scan_rows_all(grid, origin, octant, range, 1, (seen, Seq::empty()), good);
        assert forall|i: int| 0 <= i < next.len() implies in_sight(
            grid,
            origin,
            range,
            #[trigger] next[i],
        ) by {
            assert(good(next[i]));
        }
        lemma_scan_octants_in_sight(grid, origin, (octant + 1) as u8, range, next);
        assert(scan_octants(grid, origin, octant, range, seen) == scan_octants(
            grid,
            origin,
            (octant + 1) as u8,
            range,
            next,
        ));
    } else {
        assert(scan_octants(grid, origin, octant, range, seen) == seen);
    }
}

/// A field of view holds the viewer's own cell, and besides it only cells
/// inside the grid that are less than `range` steps away, diagonal steps
/// counting as one.
pub proof fn lemma_visible_in_sight(grid: &Grid, origin: Point, range: int)
    ensures
        visible_points(grid, origin, range).contains(origin),
        forall|i: int|
            0 <= i < visible_points(grid, origin, range).len() ==> {
                let p = #[trigger] visible_points(grid, origin, range)[i];
                p == origin || in_sight(grid, origin, range, p)
            },
{
    let scanned = scan_octants(grid, origin, 0, range, Seq::empty());
    lemma_scan_octants_in_sight(grid, origin, 0, range, Seq::empty());
    assert(visible_points(grid, origin, range)[scanned.len() as int] == origin);
}

/// The shadow of a tile between the axis and the diagonal of an octant is
/// a proper interval.
pub proof fn lemma_tile_shadow_wf(row: int, col: int)
    requires
        0 <= col <= row <= i32::MAX,
    ensures
        tile_shadow(row, col).wf(),
{
    assert(col * (row + 1) < (col + 1) * (row + 2)) by (nonlinear_arith)
        requires
            0 <= col <= row,
    ;
}

/// The shadows stay in order, none reaching into the next, when the scan
/// looks at one more tile.
pub proof fn lemma_scan_tile_ordered(
    grid: &Grid,
    origin: Point,
    octant: u8,
    row: int,
    col: int,
    state: (Seq<Point>, Seq<ShadowBorder>),
)
    requires
        0 <= col <= row <= i32::MAX,
        ordered(state.1),
    ensures
        ordered(scan_tile(grid, origin, octant, row, col, state).1),
{
    lemma_tile_shadow_wf(row, col);
    lemma_with_blocker_ordered(state.1, tile_shadow(row, col));
}

/// The shadows stay in order through the rest of a row.
pub proof fn lemma_scan_row_ordered(
    grid: &Grid,
    origin: Point,
    octant: u8,
    row: int,
    col: int,
    state: (Seq<Point>, Seq<ShadowBorder>),
)
    requires
        0 <= col,
        row <= i32::MAX,
        ordered(state.1),
    ensures
        ordered(scan_row(grid, origin, octant, row, col, state).1),
    decreases row - col + 1,
{
    if !(col > row || !tile_inside(grid, origin, octant, row, col)) {
        lemma_scan_tile_ordered(grid, origin, octant, row, col, state);
        lemma_scan_row_ordered(
            grid,
            origin,
            octant,
            row,
            col + 1,
            scan_tile(grid, origin, octant, row, col, state),
        );
    }
}

/// The shadows of an octant are in order, none reaching into the next,
/// throughout its scan.
pub proof fn lemma_scan_rows_ordered(
    grid: &Grid,
    origin: Point,
    octant: u8,
    range: int,
    row: int,
    state: (Seq<Point>, Seq<ShadowBorder>),
)
    requires
        range <= i32::MAX,
        ordered(state.1),
    ensures
        ordered(scan_rows(grid, origin, octant, range, row, state).1),
    decreases range - row,
{
    if !(row >= range || !tile_inside(grid, origin, octant, row, 0)) {
        lemma_scan_row_ordered(grid, origin, octant, row, 0, state);
        lemma_scan_rows_ordered(
            grid,
            origin,
            octant,
            range,
            row + 1,
            scan_row(grid, origin, octant, row, 0, state),
        );
    }
}

/// A value that is not in a sequence is not in it after another value has
/// been pushed.
pub proof fn lemma_push_lacks<T>(s: Seq<T>, v: T, t: T)
    requires
        !s.contains(t),
        v != t,
    ensures
        !s.push(v).contains(t),
{
    if s.push(v).contains(t) {
        let pushed = s.push(v);
        let j = choose|j: int| 0 <= j < pushed.len() && pushed[j] == t;
        if j < s.len() {
            assert(s[j] == t);
        }
    }
}

/// The shadows are in order and hide the tile next to the viewer on the
/// axis of the octant, and `target` has not been seen.
pub open spec fn behind_wall(state: (Seq<Point>, Seq<ShadowBorder>), target: Point) -> bool {
    ordered(state.1) && hides(state.1, tile_shadow(1, 0)) && !state.0.contains(target)
}

/// `target` is the position of no tile of the octant, or of one on its
/// axis, two rows out or more.
pub open spec fn on_axis_behind(origin: Point, octant: u8, target: Point) -> bool {
    forall|r: int, c: int|
        1 <= r && 0 <= c <= r && #[trigger] tile_position(origin, octant, r, c) == Some(target)
            ==> c == 0 && r >= 2
}

/// A tile behind a wall on the axis stays unseen when the scan looks at
/// one more tile.
pub proof fn lemma_scan_tile_behind_wall(
    grid: &Grid,
    origin: Point,
    octant: u8,
    row: int,
    col: int,
    state: (Seq<Point>, Seq<ShadowBorder>),
    target: Point,
)
    requires
        1 <= row <= i32::MAX,
        0 <= col <= row,
        tile_inside(grid, origin, octant, row, col),
        behind_wall(state, target),
        on_axis_behind(origin, octant, target),
    ensures
        behind_wall(scan_tile(grid, origin, octant, row, col, state), target),
{
    let position = tile_position(origin, octant, row, col).unwrap();
    let shadow = tile_shadow(row, col);
    let first = tile_shadow(1, 0);
    lemma_tile_shadow_wf(row, col);
    if !(hides_all(state.1) || hides(state.1, shadow)) {
        if position == target {
            assert(tile_position(origin, octant, row, col) == Some(target));
            let i = choose|i: int| 0 <= i < state.1.len() && (#[trigger] state.1[i]).contains(&first);
            assert(state.1[i].wf());
            assert(first.contains(&shadow));
            lemma_le_transitive(state.1[i].start, first.start, shadow.start);
            lemma_le_transitive(shadow.end, first.end, state.1[i].end);
            assert(state.1[i].contains(&shadow));
        }
        lemma_push_lacks(state.0, position, target);
        if grid.tile_at(position).is_wall() {
            lemma_with_blocker_ordered(state.1, shadow);
            lemma_with_blocker_keeps_hidden(state.1, shadow, first);
        }
    }
}

/// A tile behind a wall on the axis stays unseen through the rest of a
/// row.
pub proof fn lemma_scan_row_behind_wall(
    grid: &Grid,
    origin: Point,
    octant: u8,
    row: int,
    col: int,
    state: (Seq<Point>, Seq<ShadowBorder>),
    target: Point,
)
    requires
        1 <= row <= i32::MAX,
        0 <= col,
        behind_wall(state, target),
        on_axis_behind(origin, octant, target),
    ensures
        behind_wall(scan_row(grid, origin, octant, row, col, state), target),
    decreases row - col + 1,
{
    if !(col > row || !tile_inside(grid, origin, octant, row, col)) {
        lemma_scan_tile_behind_wall(grid, origin, octant, row, col, state, target);
        lemma_scan_row_behind_wall(
            grid,
            origin,
            octant,
            row,
            col + 1,
            scan_tile(grid, origin, octant, row, col, state),
            target,
        );
    }
}

/// A tile behind a wall on the axis stays unseen through the remaining
/// rows.
pub proof fn lemma_scan_rows_behind_wall(
    grid: &Grid,
    origin: Point,
    octant: u8,
    range: int,
    row: int,
    state: (Seq<Point>, Seq<ShadowBorder>),
    target: Point,
)
    requires
        1 <= row,
        range <= i32::MAX,
        behind_wall(state, target),
        on_axis_behind(origin, octant, target),
    ensures
        behind_wall(scan_rows(grid, origin, octant, range, row, state), target),
    decreases range - row,
{
    if !(row >= range || !tile_inside(grid, origin, octant, row, 0)) {
        lemma_scan_row_behind_wall(grid, origin, octant, row, 0, state, target);
        lemma_scan_rows_behind_wall(
            grid,
            origin,
            octant,
            range,
            row + 1,
            scan_row(grid, origin, octant, row, 0, state),
            target,
        );
    }
}

/// The offset of the cell `k` steps from the viewer in a direction.
pub open spec fn ahead(direction: Direction, k: int) -> (int, int) {
    match direction {
        Direction::Up => (0, k),
        Direction::Down => (0, -k),
        Direction::Left => (-k, 0),
        Direction::Right => (k, 0),
        Direction::Still => (0, 0),
    }
}

/// There is a wall right next to `origin` in `direction`, and `target`
/// lies `k` steps from `origin` in the same direction, behind that wall.
pub open spec fn wall_before(
    grid: &Grid,
    origin: Point,
    direction: Direction,
    k: int,
    target: Point,
) -> bool {
    &&& direction != Direction::Still
    &&& k >= 2
    &&& origin.spec_offset(ahead(direction, k).0, ahead(direction, k).1) == Some(target)
    &&& origin.spec_step(direction) matches Some(w) && grid.in_bounds(&w) && grid.tile_at(
        w,
    ).is_wall()
}

/// The scan of one octant does not see a cell that lies behind a wall
/// next to the viewer, straight on.
pub proof fn lemma_scan_octant_behind_wall(
    grid: &Grid,
    origin: Point,
    octant: u8,
    range: int,
    seen: Seq<Point>,
    direction: Direction,
    k: int,
    target: Point,
)
    requires
        octant <= 7,
        range <= i32::MAX,
        wall_before(grid, origin, direction, k, target),
        !seen.contains(target),
    ensures
        !scan_octant(grid, origin, octant, range, seen).contains(target),
{
    let start = (seen, Seq::<ShadowBorder>::empty());
    let axis = octant_offset(octant, 1, 0);
    if axis == ahead(direction, 1) {
        assert(on_axis_behind(origin, octant, target));
        if 1 < range {
            let wall = tile_position(origin, octant, 1, 0).unwrap();
            assert(Some(wall) == origin.spec_step(direction));
            assert(tile_inside(grid, origin, octant, 1, 0));
            let first = tile_shadow(1, 0);
            lemma_tile_shadow_wf(1, 0);
            let looked = scan_tile(grid, origin, octant, 1, 0, start);
            assert(!hides(start.1, first));
            assert(with_blocker(start.1, first) =~= seq![first]);
            assert(looked.1 == seq![first]);
            assert(looked.1[0].contains(&first));
            assert(tile_position(origin, octant, 1, 0) == Some(wall));
            lemma_push_lacks(seen, wall, target);
            assert(behind_wall(looked, target));
            lemma_scan_row_behind_wall(grid, origin, octant, 1, 1, looked, target);
            let first_row = scan_row(grid, origin, octant, 1, 1, looked);
            assert(first_row == scan_row(grid, origin, octant, 1, 0, start));
            lemma_scan_rows_behind_wall(grid, origin, octant, range, 2, first_row, target);
            assert(scan_rows(grid, origin, octant, range, 1, start) == scan_rows(
                grid,
                origin,
                octant,
                range,
                2,
                first_row,
            ));
        }
    } else {
        let good = |p: Point| p != target;
        assert forall|r: int, c: int|
            1 <= r < range && 0 <= c <= r && tile_inside(grid, origin, octant, r, c) implies good(
            (#[trigger] tile_position(origin, octant, r, c)).unwrap(),
        ) by {}
        assert forall|i: int| 0 <= i < seen.len() implies good(#[trigger] seen[i]) by {
            assert(seen.contains(seen[i]));
        }
        lemma_scan_rows_all(grid, origin, octant, range, 1, start, good);
        let after = scan_octant(grid, origin, octant, range, seen);
        if after.contains(target) {
            let j = choose|j: int| 0 <= j < after.len() && after[j] == target;
            assert(good(after[j]));
        }
    }
}

/// The scans of the octants from `octant` on do not see a cell that lies
/// behind a wall next to the viewer, straight on.
pub proof fn lemma_scan_octants_behind_wall(
    grid: &Grid,
    origin: Point,
    octant: u8,
    range: int,
    seen: Seq<Point>,
    direction: Direction,
    k: int,
    target: Point,
)
    requires
        range <= i32::MAX,
        wall_before(grid, origin, direction, k, target),
        !seen.contains(target),
    ensures
        !scan_octants(grid, origin, octant, range, seen).contains(target),
    decreases 8 - octant,
{
    if octant < 8 {
        lemma_scan_octant_behind_wall(grid, origin, octant, range, seen, direction, k, target);
        lemma_scan_octants_behind_wall(
            grid,
            origin,
            (octant + 1) as u8,
            range,
            scan_octant(grid, origin, octant, range, seen),
            direction,
            k,
            target,
        );
    }
}

/// A wall right next to the viewer, up, down, left or right of them,
/// hides every cell that lies straight behind it.
pub proof fn lemma_wall_hides_cells_behind(
    grid: &Grid,
    origin: Point,
    range: int,
    direction: Direction,
    k: int,
    target: Point,
)
    requires
        range <= i32::MAX,
        wall_before(grid, origin, direction, k, target),
    ensures
        !visible_points(grid, origin, range).contains(target),
{
    let empty = Seq::<Point>::empty();
    lemma_scan_octants_behind_wall(grid, origin, 0, range, empty, direction, k, target);
    lemma_push_lacks(scan_octants(grid, origin, 0, range, empty), origin, target);
}

/// No tile of the octant that lies inside the grid and within the range
/// is a wall.
pub open spec fn open_octant(grid: &Grid, origin: Point, octant: u8, range: int) -> bool {
    forall|r: int, c: int|
        1 <= r < range && 0 <= c <= r && tile_inside(grid, origin, octant, r, c) ==> !grid.tile_at(
            (#[trigger] tile_position(origin, octant, r, c)).unwrap(),
        ).is_wall()
}

/// In an octant without walls the rest of a row casts no shadow.
pub proof fn lemma_open_row_casts_nothing(
    grid: &Grid,
    origin: Point,
    octant: u8,
    range: int,
    row: int,
    col: int,
    state: (Seq<Point>, Seq<ShadowBorder>),
)
    requires
        1 <= row < range,
        0 <= col,
        open_octant(grid, origin, octant, range),
        state.1 == Seq::<ShadowBorder>::empty(),
    ensures
        scan_row(grid, origin, octant, row, col, state).1 == Seq::<ShadowBorder>::empty(),
    decreases row - col + 1,
{
    if !(col > row || !tile_inside(grid, origin, octant, row, col)) {
        let position = tile_position(origin, octant, row, col).unwrap();
        assert(!grid.tile_at(position).is_wall());
        lemma_open_row_casts_nothing(
            grid,
            origin,
            octant,
            range,
            row,
            col + 1,
            scan_tile(grid, origin, octant, row, col, state),
        );
    }
}

/// In an octant without walls a row, scanned from column `col` on, sees
/// each of its tiles up to the first one outside the grid.
pub proof fn lemma_open_row_sees(
    grid: &Grid,
    origin: Point,
    octant: u8,
    range: int,
    row: int,
    col: int,
    state: (Seq<Point>, Seq<ShadowBorder>),
    upto: int,
)
    requires
        1 <= row < range,
        0 <= col <= upto <= row,
        open_octant(grid, origin, octant, range),
        state.1 == Seq::<ShadowBorder>::empty(),
        forall|c: int| col <= c <= upto ==> tile_inside(grid, origin, octant, row, c),
    ensures
        scan_row(grid, origin, octant, row, col, state).0.contains(
            tile_position(origin, octant, row, upto).unwrap(),
        ),
    decreases row - col + 1,
{
    let position = tile_position(origin, octant, row, col).unwrap();
    let looked = scan_tile(grid, origin, octant, row, col, state);
    assert(tile_inside(grid, origin, octant, row, col));
    assert(!grid.tile_at(position).is_wall());
    assert(looked == (state.0.push(position), state.1));
    if col == upto {
        assert(looked.0[state.0.len() as int] == position);
        lemma_scan_row_keeps(grid, origin, octant, row, col + 1, looked, position);
    } else {
        lemma_open_row_sees(grid, origin, octant, range, row, col + 1, looked, upto);
    }
}

/// In an octant without walls the rows from `row` on see the tile in row
/// `upto_row`, column `upto_col`, where the scan is not cut short by the
/// edge of the grid on its way there.
pub proof fn lemma_open_rows_see(
    grid: &Grid,
    origin: Point,
    octant: u8,
    range: int,
    row: int,
    state: (Seq<Point>, Seq<ShadowBorder>),
    upto_row: int,
    upto_col: int,
)
    requires
        1 <= row <= upto_row < range,
        0 <= upto_col <= upto_row,
        open_octant(grid, origin, octant, range),
        state.1 == Seq::<ShadowBorder>::empty(),
        forall|r: int| row <= r <= upto_row ==> tile_inside(grid, origin, octant, r, 0),
        forall|c: int| 0 <= c <= upto_col ==> tile_inside(grid, origin, octant, upto_row, c),
    ensures
        scan_rows(grid, origin, octant, range, row, state).0.contains(
            tile_position(origin, octant, upto_row, upto_col).unwrap(),
        ),
    decreases range - row,
{
    let scanned = scan_row(grid, origin, octant, row, 0, state);
    assert(tile_inside(grid, origin, octant, row, 0));
    if row == upto_row {
        lemma_open_row_sees(grid, origin, octant, range, row, 0, state, upto_col);
        lemma_scan_rows_keeps(
            grid,
            origin,
            octant,
            range,
            row + 1,
            scanned,
            tile_position(origin, octant, upto_row, upto_col).unwrap(),
        );
    } else {
        lemma_open_row_casts_nothing(grid, origin, octant, range, row, 0, state);
        lemma_open_rows_see(grid, origin, octant, range, row + 1, scanned, upto_row, upto_col);
    }
}

/// What the scan of octant `octant` sees is still there after the scans
/// of all octants from `from` on, `octant` among them.
pub proof fn lemma_scan_octants_reach(
    grid: &Grid,
    origin: Point,
    from: u8,
    octant: u8,
    range: int,
    seen: Seq<Point>,
    p: Point,
)
    requires
        from <= octant <= 7,
        forall|before: Seq<Point>| #[trigger]
            scan_octant(grid, origin, octant, range, before).contains(p),
    ensures
        scan_octants(grid, origin, from, range, seen).contains(p),
    decreases 8 - from,
{
    let next = scan_octant(grid, origin, from, range, seen);
    if from == octant {
        lemma_scan_octants_keeps(grid, origin, (from + 1) as u8, range, next, p);
    } else {
        lemma_scan_octants_reach(grid, origin, (from + 1) as u8, octant, range, next, p);
    }
}

/// An octant without walls is seen whole: a viewer inside the grid sees
/// every tile of it that lies inside the grid and within the range.
pub proof fn lemma_open_octant_is_seen(
    grid: &Grid,
    origin: Point,
    octant: u8,
    range: int,
    row: int,
    col: int,
)
    requires
        grid.in_bounds(&origin),
        octant <= 7,
        1 <= row < range,
        0 <= col <= row,
        tile_inside(grid, origin, octant, row, col),
        open_octant(grid, origin, octant, range),
    ensures
        visible_points(grid, origin, range).contains(
            tile_position(origin, octant, row, col).unwrap(),
        ),
{
    let p = tile_position(origin, octant, row, col).unwrap();
    assert forall|r: int| 1 <= r <= row implies tile_inside(grid, origin, octant, r, 0) by {}
    assert forall|c: int| 0 <= c <= col implies tile_inside(grid, origin, octant, row, c) by {}
    assert forall|before: Seq<Point>| #[trigger]
        scan_octant(grid, origin, octant, range, before).contains(p) by {
        lemma_open_rows_see(
            grid,
            origin,
            octant,
            range,
            1,
            (before, Seq::empty()),
            row,
            col,
        );
    }
    let scanned = scan_octants(grid, origin, 0, range, Seq::empty());
    lemma_scan_octants_reach(grid, origin, 0, octant, range, Seq::empty(), p);
    let i = choose|i: int| 0 <= i < scanned.len() && scanned[i] == p;
    assert(visible_points(grid, origin, range)[i] == p);
}

/// A single wall right next to the viewer, up, down, left or right of
/// them, hides nothing in the octants that do not lie along that
/// direction: every tile of such an octant that lies inside the grid and
/// within the range is seen.
pub proof fn lemma_single_wall_spares_other_octants(
    grid: &Grid,
    origin: Point,
    range: int,
    direction: Direction,
    octant: u8,
    row: int,
    col: int,
)
    requires
        grid.wf(),
        grid.in_bounds(&origin),
        direction != Direction::Still,
        forall|i: int|
            0 <= i < grid.tiles().len() && (#[trigger] grid.tiles()[i]).is_wall() ==> Some(
                grid.tiles()[i].position,
            ) == origin.spec_step(direction),
        octant <= 7,
        octant_offset(octant, 1, 0) != ahead(direction, 1),
        1 <= row < range,
        0 <= col <= row,
        tile_inside(grid, origin, octant, row, col),
    ensures
        visible_points(grid, origin, range).contains(
            tile_position(origin, octant, row, col).unwrap(),
        ),
{
    assert forall|r: int, c: int|
        1 <= r < range && 0 <= c <= r && tile_inside(grid, origin, octant, r, c) implies !grid.tile_at(
        (#[trigger] tile_position(origin, octant, r, c)).unwrap(),
    ).is_wall() by {
        let q = tile_position(origin, octant, r, c).unwrap();
        grid.lemma_cell_tile(q);
    }
    lemma_open_octant_is_seen(grid, origin, octant, range, row, col);
}

/// In a grid without walls nothing is hidden: a viewer inside the grid
/// sees every cell of the grid that is less than `range` steps away,
/// diagonal steps counting as one.
pub proof fn lemma_open_grid_is_seen(grid: &Grid, origin: Point, range: int, p: Point)
    requires
        grid.wf(),
        grid.in_bounds(&origin),
        grid.in_bounds(&p),
        chebyshev(origin, p) < range,
        forall|i: int| 0 <= i < grid.tiles().len() ==> !(#[trigger] grid.tiles()[i]).is_wall(),
    ensures
        visible_points(grid, origin, range).contains(p),
{
    let dx = p.x - origin.x;
    let dy = p.y - origin.y;
    if p == origin {
        let scanned = scan_octants(grid, origin, 0, range, Seq::empty());
        assert(visible_points(grid, origin, range)[scanned.len() as int] == origin);
    } else {
        let octant: u8 = if dy > 0 && 0 <= dx <= dy {
            0
        } else if dx > 0 && 0 <= dy <= dx {
            1
        } else if dx > 0 && 0 <= -dy <= dx {
            2
        } else if dy < 0 && 0 <= dx <= -dy {
            3
        } else if dy < 0 && 0 <= -dx <= -dy {
            4
        } else if dx < 0 && 0 <= -dy <= -dx {
            5
        } else if dx < 0 && 0 <= dy <= -dx {
            6
        } else {
            7
        };
        let row = chebyshev(origin, p);
        let col = if octant == 0 || octant == 3 {
            dx
        } else if octant == 4 || octant == 7 {
            -dx
        } else if octant == 1 || octant == 6 {
            dy
        } else {
            -dy
        };
        assert(octant_offset(octant, row, col) == (dx, dy));
        assert(tile_position(origin, octant, row, col) == Some(p));
        assert forall|r: int, c: int|
            1 <= r < range && 0 <= c <= r && tile_inside(
                grid,
                origin,
                octant,
                r,
                c,
            ) implies !grid.tile_at(
            (#[trigger] tile_position(origin, octant, r, c)).unwrap(),
        ).is_wall() by {
            let q = tile_position(origin, octant, r, c).unwrap();
            grid.lemma_cell_tile(q);
        }
        lemma_open_octant_is_seen(grid, origin, octant, range, row, col);
    }
}

} // verus!
