//! Walkable paths across a grid: what a path is, what it costs, and why
//! the distance as the crow flies never overestimates that cost.

use vstd::prelude::*;
use crate::common::{adjacent, manhattan, Point};
use crate::grid::Grid;

verus! {

/// The goal cannot be reached from the start.
#[derive(Debug, Copy, Clone, PartialEq, Eq, Structural)]
pub struct Unreachable;

/// Something can step onto the cell: it lies inside the grid and is no
/// wall.
pub open spec fn walkable(grid: &Grid, p: Point) -> bool {
    grid.is_safe(&p)
}

/// The cell from which step `i` of a path sets out: the start for the
/// first step, the path's previous cell for the others.
pub open spec fn step_from(start: Point, path: Seq<Point>, i: int) -> Point {
    if i == 0 {
        start
    } else {
        path[i - 1]
    }
}

/// `path` leads from `start` to `goal`: it lists the cells stepped onto,
/// the goal last and the start left out. Each step goes to a walkable
/// cell right next to the one before. The empty path leads from a cell to
/// itself; any other sets out from a cell of the grid.
pub open spec fn is_path(grid: &Grid, start: Point, goal: Point, path: Seq<Point>) -> bool {
    if path.len() == 0 {
        start == goal
    } else {
        &&& grid.in_bounds(&start)
        &&& path.last() == goal
        &&& forall|i: int|
            0 <= i < path.len() ==> walkable(grid, #[trigger] path[i]) && adjacent(
                step_from(start, path, i),
                path[i],
            )
    }
}

/// What it costs to walk a path: the sum of the costs of the tiles stepped
/// onto.
pub open spec fn path_cost(grid: &Grid, path: Seq<Point>) -> int
    decreases path.len(),
{
    if path.len() == 0 {
        0
    } else {
        path_cost(grid, path.drop_last()) + grid.tile_at(path.last()).cost
    }
}

/// Some path leads from `start` to `goal`.
pub open spec fn reachable(grid: &Grid, start: Point, goal: Point) -> bool {
    exists|path: Seq<Point>| is_path(grid, start, goal, path)
}

/// No path from `start` to `goal` costs less than `path`.
pub open spec fn cheapest(grid: &Grid, start: Point, goal: Point, path: Seq<Point>) -> bool {
    forall|other: Seq<Point>| #[trigger]
        is_path(grid, start, goal, other) ==> path_cost(grid, path) <= path_cost(grid, other)
}

/// One step changes the distance to any cell by at most one.
pub proof fn lemma_step_changes_distance(a: Point, b: Point, goal: Point)
    requires
        adjacent(a, b),
    ensures
        manhattan(a, goal) <= manhattan(b, goal) + 1,
{
}

/// The first `i` steps of a path cost what they cost one step earlier,
/// and the tile stepped onto last.
pub proof fn lemma_prefix_cost(grid: &Grid, path: Seq<Point>, i: int)
    requires
        0 <= i < path.len(),
    ensures
        path_cost(grid, path.take(i + 1)) == path_cost(grid, path.take(i)) + grid.tile_at(
            path[i],
        ).cost,
{
    assert(path.take(i + 1).drop_last() =~= path.take(i));
}

/// Every tile of a grid costs at least one to step onto, so walking costs
/// at least one per step.
pub proof fn lemma_cost_at_least_length(grid: &Grid, start: Point, goal: Point, path: Seq<Point>)
    requires
        grid.wf(),
        is_path(grid, start, goal, path),
    ensures
        path_cost(grid, path) >= path.len(),
    decreases path.len(),
{
    if path.len() > 0 {
        let shorter = path.drop_last();
        assert(walkable(grid, path[path.len() - 1]));
        grid.lemma_cell_tile(path.last());
        assert(grid.tile_at(path.last()).cost >= 1);
        if shorter.len() > 0 {
            assert forall|i: int| 0 <= i < shorter.len() implies walkable(
                grid,
                #[trigger] shorter[i],
            ) && adjacent(step_from(start, shorter, i), shorter[i]) by {
                assert(shorter[i] == path[i]);
            }
            lemma_cost_at_least_length(grid, start, shorter.last(), shorter);
        } else {
            assert(path_cost(grid, shorter) == 0);
        }
    }
}

/// The distance as the crow flies never overestimates: from the cell
/// reached after `i` steps of a path, the goal is no farther than what
/// the remaining steps cost.
pub proof fn lemma_distance_admissible(
    grid: &Grid,
    start: Point,
    goal: Point,
    path: Seq<Point>,
    i: int,
)
    requires
        grid.wf(),
        is_path(grid, start, goal, path),
        0 <= i <= path.len(),
    ensures
        manhattan(step_from(start, path, i), goal) <= path_cost(grid, path) - path_cost(
            grid,
            path.take(i),
        ),
    decreases path.len() - i,
{
    if i == path.len() {
        assert(path.take(i) =~= path);
    } else {
        lemma_distance_admissible(grid, start, goal, path, i + 1);
        lemma_prefix_cost(grid, path, i);
        lemma_step_changes_distance(step_from(start, path, i), path[i], goal);
        grid.lemma_cell_tile(path[i]);
    }
}

/// A path is at least as long as the Manhattan distance from its start to
/// its goal, and costs at least as much.
pub proof fn lemma_path_at_least_manhattan(
    grid: &Grid,
    start: Point,
    goal: Point,
    path: Seq<Point>,
)
    requires
        is_path(grid, start, goal, path),
    ensures
        path.len() >= manhattan(start, goal),
        grid.wf() ==> path_cost(grid, path) >= manhattan(start, goal),
    decreases path.len(),
{
    if path.len() > 0 {
        let shorter = path.drop_last();
        let before = step_from(start, path, path.len() - 1);
        assert(adjacent(before, path.last()));
        lemma_step_changes_distance(before, goal, start);
        if shorter.len() > 0 {
            assert forall|i: int| 0 <= i < shorter.len() implies walkable(
                grid,
                #[trigger] shorter[i],
            ) && adjacent(step_from(start, shorter, i), shorter[i]) by {
                assert(shorter[i] == path[i]);
            }
            lemma_path_at_least_manhattan(grid, start, before, shorter);
        }
        if grid.wf() {
            lemma_cost_at_least_length(grid, start, goal, path);
        }
    }
}

/// A path that sets out inside a region that no step leads out of stays
/// inside it.
pub proof fn lemma_path_stays_inside(
    grid: &Grid,
    start: Point,
    goal: Point,
    path: Seq<Point>,
    inside: spec_fn(Point) -> bool,
    i: int,
)
    requires
        is_path(grid, start, goal, path),
        inside(start),
        forall|p: Point, q: Point|
            #![trigger inside(p), walkable(grid, q)]
            inside(p) && adjacent(p, q) && walkable(grid, q) ==> inside(q),
        0 <= i <= path.len(),
    ensures
        inside(step_from(start, path, i)),
    decreases i,
{
    if i > 0 {
        lemma_path_stays_inside(grid, start, goal, path, inside, i - 1);
        let before = step_from(start, path, i - 1);
        let here = path[i - 1];
        assert(walkable(grid, here) && adjacent(before, here));
    }
}

/// Walls that part the grid part every path: where the start lies inside
/// a region, the goal outside it, and every step out of the region would
/// lead onto a wall or off the grid, the goal cannot be reached.
pub proof fn lemma_walled_off(
    grid: &Grid,
    start: Point,
    goal: Point,
    inside: spec_fn(Point) -> bool,
)
    requires
        inside(start),
        !inside(goal),
        forall|p: Point, q: Point|
            #![trigger inside(p), walkable(grid, q)]
            inside(p) && adjacent(p, q) && walkable(grid, q) ==> inside(q),
    ensures
        !reachable(grid, start, goal),
{
    assert forall|path: Seq<Point>| !is_path(grid, start, goal, path) by {
        if is_path(grid, start, goal, path) {
            lemma_path_stays_inside(grid, start, goal, path, inside, path.len() as int);
        }
    }
}

/// Every cell can be reached from itself.
pub proof fn lemma_reachable_self(grid: &Grid, a: Point)
    ensures
        reachable(grid, a, a),
{
    assert(is_path(grid, a, a, Seq::empty()));
}

/// A walkable cell can be reached from each cell of the grid next to it.
pub proof fn lemma_reachable_step(grid: &Grid, a: Point, b: Point)
    requires
        grid.in_bounds(&a),
        walkable(grid, b),
        adjacent(a, b),
    ensures
        reachable(grid, a, b),
{
    assert(is_path(grid, a, b, seq![b]));
}

/// What can be reached from a cell that can be reached can be reached.
pub proof fn lemma_reachable_transitive(grid: &Grid, a: Point, b: Point, c: Point)
    requires
        reachable(grid, a, b),
        reachable(grid, b, c),
    ensures
        reachable(grid, a, c),
{
    let first = choose|path: Seq<Point>| is_path(grid, a, b, path);
    let second = choose|path: Seq<Point>| is_path(grid, b, c, path);
    if second.len() == 0 {
        assert(is_path(grid, a, c, first));
    } else if first.len() == 0 {
        assert(is_path(grid, a, c, second));
    } else {
        let whole = first + second;
        assert forall|i: int| 0 <= i < whole.len() implies walkable(grid, #[trigger] whole[i])
            && adjacent(step_from(a, whole, i), whole[i]) by {
            if i < first.len() {
                assert(whole[i] == first[i]);
                assert(walkable(grid, first[i]));
                assert(step_from(a, whole, i) == step_from(a, first, i));
            } else {
                let j = i - first.len();
                assert(whole[i] == second[j]);
                assert(walkable(grid, second[j]));
                if j == 0 {
                    assert(whole[i - 1] == first[first.len() - 1]);
                } else {
                    assert(whole[i - 1] == second[j - 1]);
                }
                assert(step_from(a, whole, i) == step_from(b, second, j));
            }
        }
        assert(whole.last() == second.last());
        assert(is_path(grid, a, c, whole));
    }
}

/// A path stays a path where nothing that could be walked on is taken
/// away.
pub proof fn lemma_reachable_monotone(before: &Grid, after: &Grid, a: Point, b: Point)
    requires
        before.size() == after.size(),
        forall|p: Point| #[trigger] walkable(before, p) ==> walkable(after, p),
        reachable(before, a, b),
    ensures
        reachable(after, a, b),
{
    let path = choose|path: Seq<Point>| is_path(before, a, b, path);
    if path.len() > 0 {
        assert forall|i: int| 0 <= i < path.len() implies walkable(after, #[trigger] path[i])
            && adjacent(step_from(a, path, i), path[i]) by {
            assert(walkable(before, path[i]));
        }
    }
    assert(is_path(after, a, b, path));
}

/// Along a row of walkable cells each end can be reached from the other.
pub proof fn lemma_reachable_row(grid: &Grid, y: i32, from: i32, to: i32)
    requires
        forall|x: i32|
            ((from <= x <= to) || (to <= x <= from)) ==> #[trigger] walkable(
                grid,
                Point { x, y },
            ),
    ensures
        reachable(grid, Point { x: from, y }, Point { x: to, y }),
    decreases crate::common::abs(to - from),
{
    let a = Point { x: from, y };
    let b = Point { x: to, y };
    assert(walkable(grid, a));
    if from == to {
        lemma_reachable_self(grid, a);
    } else {
        let next: i32 = if from < to {
            (from + 1) as i32
        } else {
            (from - 1) as i32
        };
        let c = Point { x: next, y };
        assert(walkable(grid, c));
        lemma_reachable_step(grid, a, c);
        lemma_reachable_row(grid, y, next, to);
        lemma_reachable_transitive(grid, a, c, b);
    }
}

/// Along a column of walkable cells each end can be reached from the
/// other.
pub proof fn lemma_reachable_column(grid: &Grid, x: i32, from: i32, to: i32)
    requires
        forall|y: i32|
            ((from <= y <= to) || (to <= y <= from)) ==> #[trigger] walkable(
                grid,
                Point { x, y },
            ),
    ensures
        reachable(grid, Point { x, y: from }, Point { x, y: to }),
    decreases crate::common::abs(to - from),
{
    let a = Point { x, y: from };
    let b = Point { x, y: to };
    assert(walkable(grid, a));
    if from == to {
        lemma_reachable_self(grid, a);
    } else {
        let next: i32 = if from < to {
            (from + 1) as i32
        } else {
            (from - 1) as i32
        };
        let c = Point { x, y: next };
        assert(walkable(grid, c));
        lemma_reachable_step(grid, a, c);
        lemma_reachable_column(grid, x, next, to);
        lemma_reachable_transitive(grid, a, c, b);
    }
}

} // verus!
