//! A* search for the cheapest walkable path between two cells of a grid.

use vstd::prelude::*;
use vstd::multiset::Multiset;
use crate::common::{adjacent, manhattan, Point};
use crate::frontier::Frontier;
use crate::grid::Grid;
use crate::pathfinding::{
    cheapest,
    is_path,
    lemma_cost_at_least_length,
    lemma_distance_admissible,
    lemma_path_at_least_manhattan,
    lemma_prefix_cost,
    path_cost,
    reachable,
    step_from,
    walkable,
    Unreachable,
};

verus! {

/// The highest cost that a tile can have.
const MAX_COST: u128 = 0x7fff_ffff;

/// The books of a search: for each tile, by its index, the cost of the
/// cheapest way found to it so far and the tile before it on that way;
/// and the tiles waiting to be expanded, each with its priority.
struct Search {
    cost_so_far: Vec<Option<u128>>,
    came_from: Vec<usize>,
    frontier: Frontier,
}

/// The cell that tile `i` stands on.
spec fn cell(grid: &Grid, i: int) -> Point {
    grid.tiles()[i].position
}

/// Estimate of what the way from tile `i` to the goal costs.
spec fn estimate(grid: &Grid, goal: Point, i: int) -> int {
    manhattan(cell(grid, i), goal)
}

/// Tile `j` can be stepped onto from tile `i`.
spec fn next_to(grid: &Grid, i: int, j: int) -> bool {
    0 <= j < grid.tiles().len() && adjacent(cell(grid, i), cell(grid, j)) && !grid.tiles()[j].is_wall()
}

/// How many tiles have been found.
spec fn discovered(costs: Seq<Option<u128>>) -> int
    decreases costs.len(),
{
    if costs.len() == 0 {
        0
    } else {
        discovered(costs.drop_last()) + if costs.last() is Some {
            1int
        } else {
            0int
        }
    }
}

/// What a search has left to gain: the sum of the costs found, with `big`
/// for each tile not found yet.
spec fn potential(costs: Seq<Option<u128>>, big: int) -> int
    decreases costs.len(),
{
    if costs.len() == 0 {
        0
    } else {
        potential(costs.drop_last(), big) + match costs.last() {
            Some(c) => c as int,
            None => big,
        }
    }
}

/// No more tiles have been found than there are.
proof fn lemma_discovered_bounds(costs: Seq<Option<u128>>)
    ensures
        0 <= discovered(costs) <= costs.len(),
    decreases costs.len(),
{
    if costs.len() > 0 {
        lemma_discovered_bounds(costs.drop_last());
    }
}

/// Writing down a cost for a tile finds one more tile, unless the tile had
/// been found before.
proof fn lemma_discovered_update(costs: Seq<Option<u128>>, j: int, c: u128)
    requires
        0 <= j < costs.len(),
    ensures
        discovered(costs.update(j, Some(c))) == discovered(costs) + if costs[j] is Some {
            0int
        } else {
            1int
        },
    decreases costs.len(),
{
    let after = costs.update(j, Some(c));
    if j == costs.len() - 1 {
        assert(after.drop_last() =~= costs.drop_last());
    } else {
        lemma_discovered_update(costs.drop_last(), j, c);
        assert(after.drop_last() =~= costs.drop_last().update(j, Some(c)));
    }
}

/// What a search has left to gain is never negative.
proof fn lemma_potential_bounds(costs: Seq<Option<u128>>, big: int)
    requires
        0 <= big,
    ensures
        0 <= potential(costs, big),
    decreases costs.len(),
{
    if costs.len() > 0 {
        lemma_potential_bounds(costs.drop_last(), big);
    }
}

/// Writing down a cost for a tile changes what is left to gain by the
/// difference to what stood for the tile before.
proof fn lemma_potential_update(costs: Seq<Option<u128>>, big: int, j: int, c: u128)
    requires
        0 <= j < costs.len(),
    ensures
        potential(costs.update(j, Some(c)), big) == potential(costs, big) + c - match costs[j] {
            Some(old) => old as int,
            None => big,
        },
    decreases costs.len(),
{
    let after = costs.update(j, Some(c));
    if j == costs.len() - 1 {
        assert(after.drop_last() =~= costs.drop_last());
    } else {
        lemma_potential_update(costs.drop_last(), big, j, c);
        assert(after.drop_last() =~= costs.drop_last().update(j, Some(c)));
    }
}

/// Some entry of the frontier holds tile `i` with the priority that its
/// present cost gives it.
spec fn pending(
    grid: &Grid,
    goal: Point,
    costs: Seq<Option<u128>>,
    frontier: Multiset<(u128, usize)>,
    i: int,
) -> bool {
    exists|entry: (u128, usize)|
        #[trigger] frontier.count(entry) > 0 && entry.1 == i && entry.0 == costs[i].unwrap()
            + estimate(grid, goal, i)
}

/// Every tile that can be stepped onto from tile `i` has been found, at
/// no more than the cost of going there by way of `i`.
spec fn relaxed(grid: &Grid, costs: Seq<Option<u128>>, i: int) -> bool {
    forall|j: int| #[trigger]
        next_to(grid, i, j) ==> costs[j] is Some && costs[j].unwrap() <= costs[i].unwrap()
            + grid.tiles()[j].cost
}

/// Each cost found is no higher than before.
spec fn improves(before: Seq<Option<u128>>, after: Seq<Option<u128>>) -> bool {
    &&& before.len() == after.len()
    &&& forall|i: int|
        0 <= i < before.len() && (#[trigger] before[i]) is Some ==> after[i] is Some
            && after[i].unwrap() <= before[i].unwrap()
}

/// The cost found for tile `i`, if any, is the cost of a way back to the
/// start: the tile is no wall, and the tile before it on that way lies
/// next to it and has been found at a cost lower by what `i` costs.
spec fn traced(grid: &Grid, start: int, costs: Seq<Option<u128>>, parents: Seq<usize>, i: int) -> bool {
    i != start && costs[i] is Some ==> {
        &&& !grid.tiles()[i].is_wall()
        &&& parents[i] < grid.tiles().len()
        &&& costs[parents[i] as int] is Some
        &&& adjacent(cell(grid, parents[i] as int), cell(grid, i))
        &&& costs[parents[i] as int].unwrap() + grid.tiles()[i].cost <= costs[i].unwrap()
    }
}

/// The cost found for tile `i`, if any, is in proportion to the number of
/// tiles found.
spec fn capped(costs: Seq<Option<u128>>, i: int) -> bool {
    costs[i] is Some ==> costs[i].unwrap() <= MAX_COST * (discovered(costs) - 1)
}

/// The entry is for a tile that has been found, at no less than the
/// tile's present priority.
spec fn entry_ok(grid: &Grid, goal: Point, costs: Seq<Option<u128>>, entry: (u128, usize)) -> bool {
    let i = entry.1 as int;
    i < grid.tiles().len() && costs[i] is Some && costs[i].unwrap() + estimate(grid, goal, i)
        <= entry.0
}

/// Tile `i`, if found, waits in the frontier or has been expanded.
spec fn settled(
    grid: &Grid,
    goal: Point,
    costs: Seq<Option<u128>>,
    frontier: Multiset<(u128, usize)>,
    i: int,
) -> bool {
    costs[i] is Some ==> pending(grid, goal, costs, frontier, i) || relaxed(grid, costs, i)
}

/// What holds of the books throughout a search from tile `start`, while
/// tile `expanding`, if any, is being expanded.
spec fn books_ok(
    grid: &Grid,
    start: int,
    goal: Point,
    costs: Seq<Option<u128>>,
    parents: Seq<usize>,
    frontier: Multiset<(u128, usize)>,
    expanding: Option<int>,
) -> bool {
    let n = grid.tiles().len() as int;
    &&& grid.wf()
    &&& costs.len() == n
    &&& parents.len() == n
    &&& 0 <= start < n
    &&& costs[start] == Some(0u128)
    &&& forall|i: int| 0 <= i < n ==> #[trigger] traced(grid, start, costs, parents, i)
    &&& forall|i: int| 0 <= i < n ==> #[trigger] capped(costs, i)
    &&& forall|entry: (u128, usize)|
        #[trigger] frontier.count(entry) > 0 ==> entry_ok(grid, goal, costs, entry)
    &&& forall|i: int|
        0 <= i < n && expanding != Some(i) ==> #[trigger] settled(grid, goal, costs, frontier, i)
}

/// The goal tile, once found, waits in the frontier.
spec fn goal_waits(
    grid: &Grid,
    goal: Point,
    costs: Seq<Option<u128>>,
    frontier: Multiset<(u128, usize)>,
    target: int,
) -> bool {
    costs[target] is Some ==> pending(grid, goal, costs, frontier, target)
}

/// A tile that waits in the frontier still waits after another tile's
/// entry has been taken out.
proof fn lemma_pending_after_pop(
    grid: &Grid,
    goal: Point,
    costs: Seq<Option<u128>>,
    frontier: Multiset<(u128, usize)>,
    taken: (u128, usize),
    i: int,
)
    requires
        taken.1 != i,
        pending(grid, goal, costs, frontier, i),
    ensures
        pending(grid, goal, costs, frontier.remove(taken), i),
{
    broadcast use vstd::multiset::group_multiset_axioms;

    let entry = choose|entry: (u128, usize)|
        #[trigger] frontier.count(entry) > 0 && entry.1 == i && entry.0 == costs[i].unwrap()
            + estimate(grid, goal, i);
    assert(frontier.remove(taken).count(entry) > 0);
}

/// Taking an entry out of the frontier leaves the books in order, with the
/// entry's tile as the one being expanded.
proof fn lemma_after_pop(
    grid: &Grid,
    start: int,
    goal: Point,
    costs: Seq<Option<u128>>,
    parents: Seq<usize>,
    frontier: Multiset<(u128, usize)>,
    taken: (u128, usize),
    target: int,
)
    requires
        books_ok(grid, start, goal, costs, parents, frontier, None),
        goal_waits(grid, goal, costs, frontier, target),
        frontier.count(taken) > 0,
        taken.1 != target,
    ensures
        books_ok(grid, start, goal, costs, parents, frontier.remove(taken), Some(taken.1 as int)),
        goal_waits(grid, goal, costs, frontier.remove(taken), target),
        frontier.remove(taken).len() == frontier.len() - 1,
{
    broadcast use vstd::multiset::group_multiset_axioms;

    let rest = frontier.remove(taken);
    let current = taken.1 as int;
    let n = grid.tiles().len() as int;
    assert forall|entry: (u128, usize)| #[trigger] rest.count(entry) > 0 implies entry_ok(
        grid,
        goal,
        costs,
        entry,
    ) by {
        assert(frontier.count(entry) > 0);
    }
    assert forall|i: int| 0 <= i < n && Some(current) != Some(i) implies #[trigger] settled(
        grid,
        goal,
        costs,
        rest,
        i,
    ) by {
        assert(settled(grid, goal, costs, frontier, i));
        if costs[i] is Some && pending(grid, goal, costs, frontier, i) {
            lemma_pending_after_pop(grid, goal, costs, frontier, taken, i);
        }
    }
    if costs[target] is Some {
        lemma_pending_after_pop(grid, goal, costs, frontier, taken, target);
    }
}

/// A tile that waits in the frontier still waits after an entry has been
/// added for another tile whose cost has changed.
proof fn lemma_pending_after_push(
    grid: &Grid,
    goal: Point,
    costs: Seq<Option<u128>>,
    frontier: Multiset<(u128, usize)>,
    j: int,
    new_cost: u128,
    added: (u128, usize),
    i: int,
)
    requires
        0 <= j < costs.len(),
        0 <= i < costs.len(),
        i != j,
        pending(grid, goal, costs, frontier, i),
    ensures
        pending(grid, goal, costs.update(j, Some(new_cost)), frontier.insert(added), i),
{
    broadcast use vstd::multiset::group_multiset_axioms;

    let entry = choose|entry: (u128, usize)|
        #[trigger] frontier.count(entry) > 0 && entry.1 == i && entry.0 == costs[i].unwrap()
            + estimate(grid, goal, i);
    assert(frontier.insert(added).count(entry) > 0);
}

/// The books stay in order when a cheaper way to tile `j` has been found
/// by way of the tile being expanded, and `j` has joined the frontier.
proof fn lemma_after_relax(
    grid: &Grid,
    start: int,
    goal: Point,
    costs: Seq<Option<u128>>,
    parents: Seq<usize>,
    frontier: Multiset<(u128, usize)>,
    target: int,
    current: usize,
    j: usize,
    new_cost: u128,
    priority: u128,
)
    requires
        books_ok(grid, start, goal, costs, parents, frontier, Some(current as int)),
        goal_waits(grid, goal, costs, frontier, target),
        0 <= target < grid.tiles().len(),
        0 <= current < grid.tiles().len(),
        0 <= j < grid.tiles().len(),
        costs[current as int] is Some,
        adjacent(cell(grid, current as int), cell(grid, j as int)),
        !grid.tiles()[j as int].is_wall(),
        new_cost == costs[current as int].unwrap() + grid.tiles()[j as int].cost,
        costs[j as int] matches Some(c) ==> new_cost < c,
        priority == new_cost + estimate(grid, goal, j as int),
    ensures
        j != current,
        j != start,
        books_ok(
            grid,
            start,
            goal,
            costs.update(j as int, Some(new_cost)),
            parents.update(j as int, current),
            frontier.insert((priority, j)),
            Some(current as int),
        ),
        goal_waits(
            grid,
            goal,
            costs.update(j as int, Some(new_cost)),
            frontier.insert((priority, j)),
            target,
        ),
        improves(costs, costs.update(j as int, Some(new_cost))),
        potential(costs.update(j as int, Some(new_cost)), MAX_COST * grid.tiles().len() + 1)
            < potential(costs, MAX_COST * grid.tiles().len() + 1),
{
    let n = grid.tiles().len() as int;
    let entry = (priority, j);
    let after = costs.update(j as int, Some(new_cost));
    let ways = parents.update(j as int, current);
    let waiting = frontier.insert(entry);
    broadcast use vstd::multiset::group_multiset_axioms;

    grid.lemma_tile_position(j as int);
    grid.lemma_tile_position(current as int);
    assert(grid.tiles()[j as int].cost >= 1);
    assert(j != current);
    assert(j != start);
    assert(capped(costs, current as int));
    assert(capped(costs, j as int));
    assert(traced(grid, start, costs, parents, j as int));
    lemma_discovered_update(costs, j as int, new_cost);
    lemma_discovered_bounds(costs);
    lemma_discovered_bounds(after);
    lemma_potential_update(costs, MAX_COST * n + 1, j as int, new_cost);
    assert(new_cost <= MAX_COST * (discovered(after) - 1));
    assert forall|i: int| 0 <= i < n implies #[trigger] traced(grid, start, after, ways, i) by {
        assert(traced(grid, start, costs, parents, i));
        if i == j {
            assert(ways[i] == current);
            assert(after[current as int] == costs[current as int]);
        } else if i != start && costs[i] is Some {
            assert(after[i] == costs[i]);
            assert(ways[i] == parents[i]);
            let p = parents[i] as int;
            if p == j {
                assert(costs[j as int] is Some);
            } else {
                assert(after[p] == costs[p]);
            }
        }
    }
    assert forall|i: int| 0 <= i < n implies #[trigger] capped(after, i) by {
        assert(capped(costs, i));
    }
    assert(waiting.count(entry) > 0);
    assert forall|other: (u128, usize)| #[trigger] waiting.count(other) > 0 implies entry_ok(
        grid,
        goal,
        after,
        other,
    ) by {
        if other != entry {
            assert(frontier.count(other) > 0);
            assert(entry_ok(grid, goal, costs, other));
            if other.1 == j {
                assert(costs[j as int] is Some);
            }
        }
    }
    assert(pending(grid, goal, after, waiting, j as int));
    assert forall|i: int| 0 <= i < n && Some(current as int) != Some(i) implies #[trigger] settled(
        grid,
        goal,
        after,
        waiting,
        i,
    ) by {
        if i != j {
            assert(settled(grid, goal, costs, frontier, i));
            if costs[i] is Some {
                if pending(grid, goal, costs, frontier, i) {
                    lemma_pending_after_push(
                        grid,
                        goal,
                        costs,
                        frontier,
                        j as int,
                        new_cost,
                        entry,
                        i,
                    );
                } else {
                    assert forall|m: int| #[trigger] next_to(grid, i, m) implies after[m] is Some
                        && after[m].unwrap() <= after[i].unwrap() + grid.tiles()[m].cost by {
                        assert(costs[m] is Some);
                    }
                }
            }
        }
    }
    if target != j && costs[target] is Some {
        lemma_pending_after_push(grid, goal, costs, frontier, j as int, new_cost, entry, target);
    }
}

/// What looking at one neighbour of a tile leaves behind: the neighbour,
/// where it can be stepped onto, has been found, at no more than the cost
/// of going there by way of the tile.
spec fn reached(
    grid: &Grid,
    costs: Seq<Option<u128>>,
    current: int,
    neighbour: Option<Point>,
) -> bool {
    neighbour matches Some(q) ==> (walkable(grid, q) ==> {
        let j = grid.index(q);
        costs[j] is Some && costs[j].unwrap() <= costs[current].unwrap() + grid.tiles()[j].cost
    })
}

/// A tile whose four neighbours have been looked at in turn has been
/// expanded.
proof fn lemma_expanded(
    grid: &Grid,
    current: int,
    c1: Seq<Option<u128>>,
    c2: Seq<Option<u128>>,
    c3: Seq<Option<u128>>,
    c4: Seq<Option<u128>>,
)
    requires
        grid.wf(),
        0 <= current < grid.tiles().len(),
        c1.len() == grid.tiles().len(),
        improves(c1, c2),
        improves(c2, c3),
        improves(c3, c4),
        c1[current] == c2[current],
        c2[current] == c3[current],
        c3[current] == c4[current],
        reached(grid, c1, current, cell(grid, current).spec_offset(-1, 0)),
        reached(grid, c2, current, cell(grid, current).spec_offset(1, 0)),
        reached(grid, c3, current, cell(grid, current).spec_offset(0, 1)),
        reached(grid, c4, current, cell(grid, current).spec_offset(0, -1)),
    ensures
        relaxed(grid, c4, current),
{
    let here = cell(grid, current);
    assert forall|j: int| #[trigger] next_to(grid, current, j) implies c4[j] is Some
        && c4[j].unwrap() <= c4[current].unwrap() + grid.tiles()[j].cost by {
        let q = cell(grid, j);
        grid.lemma_tile_position(j);
        assert(walkable(grid, q));
        if here.spec_offset(-1, 0) == Some(q) {
            assert(c1[j] is Some);
            assert(c2[j] is Some);
            assert(c3[j] is Some);
        } else if here.spec_offset(1, 0) == Some(q) {
            assert(c2[j] is Some);
            assert(c3[j] is Some);
        } else if here.spec_offset(0, 1) == Some(q) {
            assert(c3[j] is Some);
        } else {
            assert(here.spec_offset(0, -1) == Some(q));
        }
    }
}

/// With nothing left in the frontier, every cell that a path from the
/// start leads over has been found.
proof fn lemma_found_along(
    grid: &Grid,
    start: int,
    goal: Point,
    costs: Seq<Option<u128>>,
    parents: Seq<usize>,
    from: Point,
    to: Point,
    path: Seq<Point>,
    i: int,
)
    requires
        books_ok(grid, start, goal, costs, parents, Multiset::empty(), None),
        cell(grid, start) == from,
        is_path(grid, from, to, path),
        path.len() > 0,
        0 <= i <= path.len(),
    ensures
        costs[grid.index(step_from(from, path, i))] is Some,
    decreases i,
{
    if i == 0 {
        grid.lemma_tile_position(start);
    } else {
        lemma_found_along(grid, start, goal, costs, parents, from, to, path, i - 1);
        let before = step_from(from, path, i - 1);
        let here = path[i - 1];
        assert(walkable(grid, here) && adjacent(before, here));
        if i - 1 > 0 {
            assert(walkable(grid, path[i - 2]));
        }
        grid.lemma_cell_tile(before);
        grid.lemma_cell_tile(here);
        let a = grid.index(before);
        let b = grid.index(here);
        assert(settled(grid, goal, costs, Multiset::empty(), a));
        assert(!pending(grid, goal, costs, Multiset::empty(), a));
        assert(next_to(grid, a, b));
    }
}

/// With nothing left in the frontier and the goal not found, no path
/// leads to the goal.
proof fn lemma_search_exhausted(
    grid: &Grid,
    start: int,
    goal: Point,
    costs: Seq<Option<u128>>,
    parents: Seq<usize>,
    from: Point,
    target: int,
)
    requires
        books_ok(grid, start, goal, costs, parents, Multiset::empty(), None),
        goal_waits(grid, goal, costs, Multiset::empty(), target),
        cell(grid, start) == from,
        0 <= target < grid.tiles().len(),
        cell(grid, target) == goal,
        from != goal,
    ensures
        !reachable(grid, from, goal),
{
    assert(!pending(grid, goal, costs, Multiset::empty(), target));
    assert forall|other: Seq<Point>| !is_path(grid, from, goal, other) by {
        if is_path(grid, from, goal, other) {
            lemma_found_along(
                grid,
                start,
                goal,
                costs,
                parents,
                from,
                goal,
                other,
                other.len() as int,
            );
            grid.lemma_tile_position(target);
        }
    }
}

/// When the lowest priority in the frontier is `lowest`, no path from the
/// start costs less than `lowest`, unless the cell it has reached after
/// `i` steps has been found at no more than those steps cost.
proof fn lemma_lower_bound(
    grid: &Grid,
    start: int,
    goal: Point,
    costs: Seq<Option<u128>>,
    parents: Seq<usize>,
    frontier: Multiset<(u128, usize)>,
    lowest: int,
    from: Point,
    path: Seq<Point>,
    i: int,
)
    requires
        books_ok(grid, start, goal, costs, parents, frontier, None),
        forall|entry: (u128, usize)| #[trigger] frontier.count(entry) > 0 ==> lowest <= entry.0,
        cell(grid, start) == from,
        is_path(grid, from, goal, path),
        path.len() > 0,
        0 <= i <= path.len(),
    ensures
        lowest <= path_cost(grid, path) || (costs[grid.index(step_from(from, path, i))] is Some
            && costs[grid.index(step_from(from, path, i))].unwrap() <= path_cost(
            grid,
            path.take(i),
        )),
    decreases i,
{
    if i == 0 {
        grid.lemma_tile_position(start);
        assert(path.take(0) =~= Seq::<Point>::empty());
    } else {
        lemma_lower_bound(grid, start, goal, costs, parents, frontier, lowest, from, path, i - 1);
        if !(lowest <= path_cost(grid, path)) {
            let before = step_from(from, path, i - 1);
            let here = path[i - 1];
            assert(walkable(grid, here) && adjacent(before, here));
            if i - 1 > 0 {
                assert(walkable(grid, path[i - 2]));
            }
            grid.lemma_cell_tile(before);
            grid.lemma_cell_tile(here);
            let a = grid.index(before);
            let b = grid.index(here);
            lemma_distance_admissible(grid, from, goal, path, i - 1);
            lemma_prefix_cost(grid, path, i - 1);
            assert(settled(grid, goal, costs, frontier, a));
            if pending(grid, goal, costs, frontier, a) {
                let entry = choose|entry: (u128, usize)|
                    #[trigger] frontier.count(entry) > 0 && entry.1 == a && entry.0
                        == costs[a].unwrap() + estimate(grid, goal, a);
                assert(lowest <= entry.0);
            } else {
                assert(next_to(grid, a, b));
            }
        }
    }
}

/// When the goal's entry has the lowest priority in the frontier, no path
/// to the goal costs less than the cost found for the goal.
proof fn lemma_goal_first(
    grid: &Grid,
    start: int,
    goal: Point,
    costs: Seq<Option<u128>>,
    parents: Seq<usize>,
    frontier: Multiset<(u128, usize)>,
    first: (u128, usize),
    from: Point,
    path: Seq<Point>,
)
    requires
        books_ok(grid, start, goal, costs, parents, frontier, None),
        frontier.count(first) > 0,
        forall|entry: (u128, usize)| #[trigger] frontier.count(entry) > 0 ==> first.0 <= entry.0,
        cell(grid, start) == from,
        cell(grid, first.1 as int) == goal,
        from != goal,
        is_path(grid, from, goal, path),
    ensures
        costs[first.1 as int] is Some,
        costs[first.1 as int].unwrap() <= path_cost(grid, path),
{
    let target = first.1 as int;
    assert(entry_ok(grid, goal, costs, first));
    lemma_lower_bound(
        grid,
        start,
        goal,
        costs,
        parents,
        frontier,
        first.0 as int,
        from,
        path,
        path.len() as int,
    );
    assert(path.take(path.len() as int) =~= path);
    grid.lemma_tile_position(target);
}

/// Sum of the costs of the tiles of a path, counted from its first cell.
proof fn lemma_cost_from_front(grid: &Grid, p: Point, path: Seq<Point>)
    ensures
        path_cost(grid, seq![p] + path) == grid.tile_at(p).cost + path_cost(grid, path),
    decreases path.len(),
{
    let whole = seq![p] + path;
    if path.len() == 0 {
        assert(whole.drop_last() =~= Seq::<Point>::empty());
        assert(path_cost(grid, whole.drop_last()) == 0);
    } else {
        lemma_cost_from_front(grid, p, path.drop_last());
        assert(whole.drop_last() =~= seq![p] + path.drop_last());
    }
}

/// A way back from a tile, walked one tile further back, is a path from
/// that tile.
proof fn lemma_step_back(
    grid: &Grid,
    before: Point,
    here: Point,
    to: Point,
    walked: Seq<Point>,
)
    requires
        grid.wf(),
        grid.in_bounds(&before),
        walkable(grid, here),
        adjacent(before, here),
        is_path(grid, here, to, walked),
    ensures
        is_path(grid, before, to, seq![here] + walked),
        path_cost(grid, seq![here] + walked) == grid.tile_at(here).cost + path_cost(grid, walked),
{
    let longer = seq![here] + walked;
    lemma_cost_from_front(grid, here, walked);
    assert forall|i: int| 0 <= i < longer.len() implies walkable(grid, #[trigger] longer[i])
        && adjacent(step_from(before, longer, i), longer[i]) by {
        if i > 0 {
            assert(longer[i] == walked[i - 1]);
            assert(walkable(grid, walked[i - 1]));
            assert(step_from(here, walked, i - 1) == step_from(before, longer, i));
        }
    }
    if walked.len() == 0 {
        assert(longer.last() == to);
    } else {
        assert(longer.last() == walked.last());
    }
}

/// Manhattan distance between two cells.
fn heuristic(a: Point, b: Point) -> (h: u128)
    ensures
        h == manhattan(a, b),
        h == manhattan(b, a),
{
    let dx: i64 = a.x as i64 - b.x as i64;
    let dy: i64 = a.y as i64 - b.y as i64;
    let ax: i64 = if dx < 0 { -dx } else { dx };
    let ay: i64 = if dy < 0 { -dy } else { dy };
    (ax + ay) as u128
}

impl Search {
    spec fn inv(&self, grid: &Grid, start: int, goal: Point, expanding: Option<int>) -> bool {
        &&& self.frontier.wf()
        &&& books_ok(
            grid,
            start,
            goal,
            self.cost_so_far@,
            self.came_from@,
            self.frontier.entries(),
            expanding,
        )
    }

    spec fn goal_waits(&self, grid: &Grid, goal: Point, target: int) -> bool {
        goal_waits(grid, goal, self.cost_so_far@, self.frontier.entries(), target)
    }

    /// What the search has left to gain.
    spec fn measure(&self) -> int {
        potential(self.cost_so_far@, MAX_COST * self.cost_so_far@.len() + 1)
    }

    /// Books for a search that has found only the tile it sets out from.
    fn begin(grid: &Grid, start: usize, start_cell: Point, goal: Point, target: usize) -> (search:
        Search)
        requires
            grid.wf(),
            start < grid.tiles().len(),
            target < grid.tiles().len(),
            start != target,
            cell(grid, start as int) == start_cell,
        ensures
            search.inv(grid, start as int, goal, None),
            search.goal_waits(grid, goal, target as int),
    {
        let n: usize = grid.len();
        let mut cost_so_far: Vec<Option<u128>> = Vec::new();
        let mut came_from: Vec<usize> = Vec::new();
        let mut i: usize = 0;
        while i < n
            invariant
                0 <= i <= n,
                cost_so_far@.len() == i,
                came_from@.len() == i,
                forall|j: int| 0 <= j < i ==> (#[trigger] cost_so_far@[j]) is None,
                discovered(cost_so_far@) == 0,
            decreases n - i,
        {
            let ghost shorter = cost_so_far@;
            cost_so_far.push(None);
            came_from.push(0);
            proof {
                assert(cost_so_far@.drop_last() =~= shorter);
            }
            i += 1;
        }
        proof {
            lemma_discovered_update(cost_so_far@, start as int, 0u128);
        }
        cost_so_far.set(start, Some(0));
        let mut frontier: Frontier = Frontier::new();
        let first: u128 = heuristic(start_cell, goal);
        frontier.push(first, start);
        let search = Search { cost_so_far, came_from, frontier };
        proof {
            broadcast use vstd::multiset::group_multiset_axioms;

            let costs = search.cost_so_far@;
            let waiting = search.frontier.entries();
            assert(waiting.count((first, start)) > 0);
            assert(pending(grid, goal, costs, waiting, start as int));
            assert forall|i: int| 0 <= i < n implies #[trigger] traced(
                grid,
                start as int,
                costs,
                search.came_from@,
                i,
            ) by {}
            assert forall|i: int| 0 <= i < n implies #[trigger] capped(costs, i) by {}
            assert forall|entry: (u128, usize)| #[trigger] waiting.count(entry) > 0 implies entry_ok(
                grid,
                goal,
                costs,
                entry,
            ) by {
                assert(entry == (first, start));
            }
            assert forall|i: int| 0 <= i < n implies #[trigger] settled(
                grid,
                goal,
                costs,
                waiting,
                i,
            ) by {}
        }
        search
    }

    /// Looks at one neighbour of the tile being expanded: where the way
    /// over that tile is cheaper than any found so far, the neighbour's
    /// cost and way back are rewritten and it joins the frontier.
    fn relax(
        &mut self,
        grid: &Grid,
        start: usize,
        goal: Point,
        target: usize,
        current: usize,
        neighbour: Option<Point>,
    )
        requires
            old(self).inv(grid, start as int, goal, Some(current as int)),
            old(self).goal_waits(grid, goal, target as int),
            target < grid.tiles().len(),
            current < grid.tiles().len(),
            old(self).cost_so_far@[current as int] is Some,
            neighbour matches Some(q) ==> adjacent(cell(grid, current as int), q),
        ensures
            final(self).inv(grid, start as int, goal, Some(current as int)),
            final(self).goal_waits(grid, goal, target as int),
            improves(old(self).cost_so_far@, final(self).cost_so_far@),
            final(self).cost_so_far@[current as int] == old(self).cost_so_far@[current as int],
            reached(grid, final(self).cost_so_far@, current as int, neighbour),
            final(self).measure() <= old(self).measure(),
            final(self).measure() == old(self).measure() ==> final(self).frontier.entries() == old(
                self,
            ).frontier.entries(),
    {
        let q: Point = match neighbour {
            Some(q) => q,
            None => {
                return ;
            },
        };
        let j: usize = match grid.translate(&q) {
            Some(j) => j,
            None => {
                return ;
            },
        };
        let tile = grid.tile(j);
        let ghost costs = self.cost_so_far@;
        proof {
            grid.lemma_len_fits();
            grid.lemma_cell_tile(q);
            lemma_discovered_bounds(costs);
            assert(capped(costs, current as int));
            assert(grid.tiles()[j as int].cost >= 1);
        }
        let here: u128 = match self.cost_so_far[current] {
            Some(c) => c,
            None => {
                return ;
            },
        };
        let new_cost: u128 = here + tile.cost as u128;
        let better: bool = match self.cost_so_far[j] {
            Some(c) => new_cost < c,
            None => true,
        };
        if better {
            // Make sure its not a wall, etc.
            if tile.is_safe() {
                let priority: u128 = new_cost + heuristic(goal, q);
                proof {
                    lemma_after_relax(
                        grid,
                        start as int,
                        goal,
                        costs,
                        self.came_from@,
                        self.frontier.entries(),
                        target as int,
                        current,
                        j,
                        new_cost,
                        priority,
                    );
                }
                self.cost_so_far.set(j, Some(new_cost));
                self.frontier.push(priority, j);
                self.came_from.set(j, current);
            }
        }
    }

    /// Expands a tile: looks at the four tiles around it.
    fn expand(&mut self, grid: &Grid, start: usize, goal: Point, target: usize, current: usize)
        requires
            old(self).inv(grid, start as int, goal, Some(current as int)),
            old(self).goal_waits(grid, goal, target as int),
            target < grid.tiles().len(),
            current < grid.tiles().len(),
            old(self).cost_so_far@[current as int] is Some,
        ensures
            final(self).inv(grid, start as int, goal, None),
            final(self).goal_waits(grid, goal, target as int),
            final(self).measure() <= old(self).measure(),
            final(self).measure() == old(self).measure() ==> final(self).frontier.entries() == old(
                self,
            ).frontier.entries(),
    {
        let here: Point = grid.tile(current).position;
        self.relax(grid, start, goal, target, current, here.offset(-1, 0));
        let ghost c1 = self.cost_so_far@;
        self.relax(grid, start, goal, target, current, here.offset(1, 0));
        let ghost c2 = self.cost_so_far@;
        self.relax(grid, start, goal, target, current, here.offset(0, 1));
        let ghost c3 = self.cost_so_far@;
        self.relax(grid, start, goal, target, current, here.offset(0, -1));
        proof {
            lemma_expanded(grid, current as int, c1, c2, c3, self.cost_so_far@);
            assert(settled(grid, goal, self.cost_so_far@, self.frontier.entries(), current as int));
        }
    }

    /// The way found to tile `target`, from the start to it.
    fn trace(&self, grid: &Grid, start: usize, goal: Point, target: usize) -> (path: Vec<Point>)
        requires
            exists|frontier: Multiset<(u128, usize)>, expanding: Option<int>|
                books_ok(
                    grid,
                    start as int,
                    goal,
                    self.cost_so_far@,
                    self.came_from@,
                    frontier,
                    expanding,
                ),
            target < grid.tiles().len(),
            self.cost_so_far@[target as int] is Some,
        ensures
            is_path(grid, cell(grid, start as int), cell(grid, target as int), path@),
            path_cost(grid, path@) <= self.cost_so_far@[target as int].unwrap(),
    {
        let ghost costs = self.cost_so_far@;
        let ghost parents = self.came_from@;
        let ghost n = grid.tiles().len() as int;
        let ghost to = cell(grid, target as int);
        let mut backwards: Vec<Point> = Vec::new();
        let mut current: usize = target;
        while current != start
            invariant
                grid.wf(),
                n == grid.tiles().len(),
                costs == self.cost_so_far@,
                parents == self.came_from@,
                costs.len() == n,
                parents.len() == n,
                0 <= start < n,
                to == cell(grid, target as int),
                forall|i: int| 0 <= i < n ==> #[trigger] traced(grid, start as int, costs, parents, i),
                current < n,
                costs[current as int] is Some,
                is_path(grid, cell(grid, current as int), to, backwards@.reverse()),
                path_cost(grid, backwards@.reverse()) + costs[current as int].unwrap()
                    <= costs[target as int].unwrap(),
            decreases costs[current as int].unwrap(),
        {
            let tile = grid.tile(current);
            let ghost walked = backwards@.reverse();
            proof {
                assert(traced(grid, start as int, costs, parents, current as int));
                grid.lemma_tile_position(current as int);
                grid.lemma_tile_position(parents[current as int] as int);
                lemma_step_back(
                    grid,
                    cell(grid, parents[current as int] as int),
                    tile.position,
                    to,
                    walked,
                );
            }
            backwards.push(tile.position);
            proof {
                assert(backwards@.reverse() =~= seq![tile.position] + walked);
            }
            current = self.came_from[current];
        }
        let mut path: Vec<Point> = Vec::new();
        let mut k: usize = backwards.len();
        while k > 0
            invariant
                0 <= k <= backwards@.len(),
                path@.len() == backwards@.len() - k,
                forall|i: int|
                    0 <= i < path@.len() ==> #[trigger] path@[i] == backwards@[backwards@.len() - 1
                        - i],
            decreases k,
        {
            k -= 1;
            path.push(backwards[k]);
        }
        proof {
            assert(path@ =~= backwards@.reverse());
        }
        path
    }
}

impl Grid {
    /// The cheapest path from `start` to `goal`: the cells to step onto in
    /// turn, the goal last and the start left out. Fails where no path
    /// leads to the goal.
    pub fn a_star(&self, start: Point, goal: Point) -> (r: Result<Vec<Point>, Unreachable>)
        requires
            self.wf(),
        ensures
            r is Ok <==> reachable(self, start, goal),
            r matches Ok(path) ==> {
                &&& is_path(self, start, goal, path@)
                &&& cheapest(self, start, goal, path@)
                &&& path@.len() >= manhattan(start, goal)
            },
            start == goal ==> (r matches Ok(path) && path@.len() == 0),
    {
        let r = self.search(start, goal);
        proof {
            if r is Ok {
                lemma_path_at_least_manhattan(self, start, goal, r->Ok_0@);
            }
        }
        r
    }

    /// The search behind `a_star`.
    fn search(&self, start: Point, goal: Point) -> (r: Result<Vec<Point>, Unreachable>)
        requires
            self.wf(),
        ensures
            r matches Ok(path) ==> is_path(self, start, goal, path@) && cheapest(
                self,
                start,
                goal,
                path@,
            ),
            r is Err ==> !reachable(self, start, goal),
            start == goal ==> (r matches Ok(path) && path@.len() == 0),
    {
        if start == goal {
            let path: Vec<Point> = Vec::new();
            proof {
                assert forall|other: Seq<Point>| #[trigger]
                    is_path(self, start, goal, other) implies path_cost(self, path@) <= path_cost(
                    self,
                    other,
                ) by {
                    lemma_cost_at_least_length(self, start, goal, other);
                }
            }
            return Ok(path);
        }
        let from: usize = match self.translate(&start) {
            Some(i) => i,
            None => {
                return Err(Unreachable);
            },
        };
        let target: usize = match self.translate(&goal) {
            Some(i) => i,
            None => {
                proof {
                    assert forall|other: Seq<Point>| !is_path(self, start, goal, other) by {
                        if is_path(self, start, goal, other) {
                            assert(walkable(self, other[other.len() - 1]));
                        }
                    }
                }
                return Err(Unreachable);
            },
        };
        proof {
            self.lemma_cell_tile(start);
            self.lemma_cell_tile(goal);
        }
        let mut search: Search = Search::begin(self, from, start, goal, target);
        loop
            invariant
                self.wf(),
                from < self.tiles().len(),
                target < self.tiles().len(),
                from != target,
                start != goal,
                cell(self, from as int) == start,
                cell(self, target as int) == goal,
                search.inv(self, from as int, goal, None),
                search.goal_waits(self, goal, target as int),
            decreases search.measure(), search.frontier.entries().len(),
        {
            let ghost costs = search.cost_so_far@;
            let ghost parents = search.came_from@;
            let ghost waiting = search.frontier.entries();
            proof {
                lemma_potential_bounds(costs, MAX_COST * costs.len() + 1);
            }
            let entry: (u128, usize) = match search.frontier.pop() {
                Some(entry) => entry,
                None => {
                    proof {
                        assert(waiting =~= Multiset::empty());
                        lemma_search_exhausted(
                            self,
                            from as int,
                            goal,
                            costs,
                            parents,
                            start,
                            target as int,
                        );
                    }
                    return Err(Unreachable);
                },
            };
            let current: usize = entry.1;
            proof {
                assert(entry_ok(self, goal, costs, entry));
            }
            if current == target {
                let path: Vec<Point> = search.trace(self, from, goal, target);
                proof {
                    assert forall|other: Seq<Point>| #[trigger]
                        is_path(self, start, goal, other) implies path_cost(self, path@)
                        <= path_cost(self, other) by {
                        lemma_goal_first(
                            self,
                            from as int,
                            goal,
                            costs,
                            parents,
                            waiting,
                            entry,
                            start,
                            other,
                        );
                    }
                }
                return Ok(path);
            }
            proof {
                lemma_after_pop(self, from as int, goal, costs, parents, waiting, entry, target as int);
            }
            search.expand(self, from, goal, target, current);
            proof {
                assert(search.measure() <= potential(costs, MAX_COST * costs.len() + 1));
                lemma_potential_bounds(search.cost_so_far@, MAX_COST * costs.len() + 1);
                if search.measure() == potential(costs, MAX_COST * costs.len() + 1) {
                    assert(search.frontier.entries() == waiting.remove(entry));
                    assert(search.frontier.entries().len() < waiting.len());
                }
                assert(search.cost_so_far@.len() == costs.len());
            }
        }
    }
}

} // verus!
