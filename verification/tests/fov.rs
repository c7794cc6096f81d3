use dungeon_crawler::{
    update_visible, update_visible_octant, BlockedFov, FieldOfView, Grid, MapBuilder, OctantPoint,
    Point, ShadowBorder, Size, Slope, Surface,
};
use std::collections::HashSet;

fn floors(width: i32, height: i32) -> Grid {
    let mut builder = MapBuilder::new();
    builder.size(Size { width, height });
    builder.build_all_floors().unwrap().0
}

fn wall(grid: &mut Grid, x: i32, y: i32) {
    grid.get_tile_mut(&Point::new(x, y)).unwrap().surface = Surface::Wall;
}

fn seen(grid: &Grid, origin: Point, range: i32) -> HashSet<Point> {
    let mut fov = FieldOfView::new(range);
    update_visible(grid, origin, &mut fov);
    assert_eq!(fov.range, range);
    fov.tiles.into_iter().collect()
}

fn border(start: (u32, u32), end: (u32, u32)) -> ShadowBorder {
    ShadowBorder {
        start: Slope { num: start.0, den: start.1 },
        end: Slope { num: end.0, den: end.1 },
    }
}

#[test]
fn an_empty_room_is_seen_whole() {
    let grid = floors(10, 10);
    let visible = seen(&grid, Point::new(5, 5), 6);
    for x in 0..10 {
        for y in 0..10 {
            assert!(visible.contains(&Point::new(x, y)), "({x}, {y}) is hidden");
        }
    }
    assert_eq!(visible.len(), 100);
}

#[test]
fn a_wall_next_to_the_viewer_hides_what_lies_behind_it() {
    let mut grid = floors(10, 10);
    wall(&mut grid, 5, 6);
    let visible = seen(&grid, Point::new(5, 5), 6);
    assert!(visible.contains(&Point::new(5, 6)));
    for y in 7..=12 {
        assert!(!visible.contains(&Point::new(5, y)));
    }
    assert!(visible.contains(&Point::new(6, 6)));
    assert!(visible.contains(&Point::new(4, 6)));
    assert!(visible.contains(&Point::new(5, 5)));
}

#[test]
fn the_shadow_of_a_wall_next_to_the_viewer_is_exactly_this() {
    let mut grid = floors(10, 10);
    wall(&mut grid, 5, 6);
    let visible = seen(&grid, Point::new(5, 5), 6);
    let hidden: HashSet<Point> = [(5, 7), (5, 8), (4, 8), (6, 8), (5, 9), (4, 9), (6, 9)]
        .iter()
        .map(|(x, y)| Point::new(*x, *y))
        .collect();
    for x in 0..10 {
        for y in 0..10 {
            let p = Point::new(x, y);
            assert_eq!(visible.contains(&p), !hidden.contains(&p), "({x}, {y})");
        }
    }
}

#[test]
fn a_wall_hides_in_each_of_the_four_directions() {
    for (dx, dy) in [(0, 1), (0, -1), (1, 0), (-1, 0)] {
        let mut grid = floors(11, 11);
        wall(&mut grid, 5 + dx, 5 + dy);
        let visible = seen(&grid, Point::new(5, 5), 6);
        for k in 2..=5 {
            assert!(!visible.contains(&Point::new(5 + k * dx, 5 + k * dy)));
            // The other three directions stay open.
            assert!(visible.contains(&Point::new(5 - k * dx, 5 - k * dy)));
            assert!(visible.contains(&Point::new(5 + k * dy, 5 + k * dx)));
            assert!(visible.contains(&Point::new(5 - k * dy, 5 - k * dx)));
        }
        assert!(visible.contains(&Point::new(5 + dx, 5 + dy)));
    }
}

#[test]
fn the_viewer_always_sees_their_own_cell() {
    let mut grid = floors(3, 3);
    for (x, y) in [(0, 1), (1, 0), (2, 1), (1, 2), (0, 0), (2, 2), (0, 2), (2, 0)] {
        wall(&mut grid, x, y);
    }
    for range in [-3, 0, 1, 2, 9] {
        assert!(seen(&grid, Point::new(1, 1), range).contains(&Point::new(1, 1)));
    }
    assert_eq!(seen(&grid, Point::new(1, 1), 1).len(), 1);
    assert_eq!(seen(&grid, Point::new(1, 1), 0).len(), 1);
    assert_eq!(seen(&grid, Point::new(1, 1), 2).len(), 9);
    assert!(seen(&grid, Point::new(40, 40), 5).contains(&Point::new(40, 40)));
    assert_eq!(seen(&grid, Point::new(40, 40), 5).len(), 1);
}

#[test]
fn nothing_is_seen_beyond_the_range_or_the_grid() {
    let mut grid = floors(20, 20);
    wall(&mut grid, 12, 10);
    wall(&mut grid, 9, 8);
    let origin = Point::new(10, 10);
    for range in 1..8 {
        for p in seen(&grid, origin, range) {
            assert!(grid.in_bounds(&p));
            let far = (p.x - origin.x).abs().max((p.y - origin.y).abs());
            assert!(p == origin || (1 <= far && far < range));
        }
    }
    let near_the_edge = seen(&grid, Point::new(0, 19), 4);
    assert!(near_the_edge.iter().all(|p| grid.in_bounds(p)));
    assert!(near_the_edge.contains(&Point::new(3, 16)));
    assert!(!near_the_edge.contains(&Point::new(4, 19)));
}

#[test]
fn range_counts_the_viewers_own_cell() {
    let grid = floors(9, 9);
    let visible = seen(&grid, Point::new(4, 4), 3);
    assert_eq!(visible.len(), 25);
    assert!(visible.contains(&Point::new(2, 2)));
    assert!(visible.contains(&Point::new(6, 4)));
    assert!(!visible.contains(&Point::new(7, 4)));
    assert!(!visible.contains(&Point::new(4, 1)));
}

#[test]
fn the_field_of_view_is_deterministic_and_starts_afresh() {
    let mut grid = floors(9, 9);
    wall(&mut grid, 5, 5);
    let mut fov = FieldOfView::new(5);
    update_visible(&grid, Point::new(4, 4), &mut fov);
    let first = fov.tiles.clone();
    update_visible(&grid, Point::new(4, 4), &mut fov);
    assert_eq!(first, fov.tiles);
    assert_eq!(*fov.tiles.last().unwrap(), Point::new(4, 4));
}

#[test]
fn one_octant_scans_row_by_row() {
    let grid = floors(5, 5);
    let mut fov = FieldOfView::new(3);
    fov.tiles.push(Point::new(9, 9));
    update_visible_octant(0, &grid, Point::new(1, 1), &mut fov);
    assert_eq!(
        fov.tiles,
        vec![
            Point::new(9, 9),
            Point::new(1, 2),
            Point::new(2, 2),
            Point::new(1, 3),
            Point::new(2, 3),
            Point::new(3, 3),
        ]
    );
    let mut left = FieldOfView::new(4);
    update_visible_octant(5, &grid, Point::new(1, 1), &mut left);
    assert_eq!(left.tiles, vec![Point::new(0, 1), Point::new(0, 0)]);
}

#[test]
fn a_wall_in_an_octant_shadows_the_rows_behind() {
    let mut grid = floors(6, 6);
    wall(&mut grid, 1, 1);
    let mut fov = FieldOfView::new(5);
    update_visible_octant(1, &grid, Point::new(0, 0), &mut fov);
    assert_eq!(
        fov.tiles,
        vec![
            Point::new(1, 0),
            Point::new(1, 1),
            Point::new(2, 0),
            Point::new(2, 1),
            Point::new(3, 0),
            Point::new(3, 1),
            Point::new(4, 0),
            Point::new(4, 1),
        ]
    );
}

#[test]
fn the_interval_of_a_tile() {
    assert_eq!(ShadowBorder::new(OctantPoint::new(1, 0)), border((0, 3), (1, 2)));
    assert_eq!(ShadowBorder::new(OctantPoint::new(1, 1)), border((1, 3), (2, 2)));
    assert_eq!(ShadowBorder::new(OctantPoint::new(4, 2)), border((2, 6), (3, 5)));
    assert_eq!(ShadowBorder::new(OctantPoint::new(0, 0)), border((0, 2), (1, 1)));
    assert_eq!(
        ShadowBorder::new(OctantPoint::new(i32::MAX, i32::MAX)),
        border((2147483647, 2147483649), (2147483648, 2147483648))
    );
}

#[test]
fn slopes_compare_as_fractions() {
    let third = Slope { num: 1, den: 3 };
    let two_sixths = Slope { num: 2, den: 6 };
    let half = Slope { num: 1, den: 2 };
    assert!(third.le(two_sixths) && two_sixths.le(third));
    assert!(!third.lt(two_sixths));
    assert!(third.lt(half) && third.le(half));
    assert!(!half.le(third) && !half.lt(third));
    let big = Slope { num: u32::MAX, den: u32::MAX };
    let nearly = Slope { num: u32::MAX - 1, den: u32::MAX };
    assert!(nearly.lt(big) && !big.le(nearly));
}

#[test]
fn an_interval_contains_what_lies_inside_it() {
    let wide = border((1, 4), (3, 4));
    assert!(wide.contains(&border((1, 4), (3, 4))));
    assert!(wide.contains(&border((1, 3), (2, 3))));
    assert!(wide.contains(&border((2, 8), (1, 2))));
    assert!(!wide.contains(&border((1, 5), (1, 2))));
    assert!(!wide.contains(&border((1, 2), (4, 5))));
    assert!(!wide.contains(&border((0, 1), (1, 1))));
}

#[test]
fn a_blocker_that_overlaps_nothing_is_inserted_in_order() {
    let mut blocked = BlockedFov::new();
    assert!(blocked.borders.is_empty());
    blocked.add_blocker(border((1, 2), (3, 4)));
    blocked.add_blocker(border((0, 1), (1, 4)));
    blocked.add_blocker(border((7, 8), (1, 1)));
    blocked.add_blocker(border((1, 4), (1, 2)));
    assert_eq!(
        blocked.borders,
        vec![
            border((0, 1), (1, 4)),
            border((1, 4), (1, 2)),
            border((1, 2), (3, 4)),
            border((7, 8), (1, 1)),
        ]
    );
}

#[test]
fn a_blocker_that_overlaps_the_one_before_extends_it() {
    let mut blocked = BlockedFov::new();
    blocked.add_blocker(border((0, 1), (1, 2)));
    blocked.add_blocker(border((1, 4), (3, 4)));
    assert_eq!(blocked.borders, vec![border((0, 1), (3, 4))]);
}

#[test]
fn a_blocker_that_overlaps_the_one_after_extends_it() {
    let mut blocked = BlockedFov::new();
    blocked.add_blocker(border((1, 2), (3, 4)));
    blocked.add_blocker(border((1, 4), (5, 8)));
    assert_eq!(blocked.borders, vec![border((1, 4), (3, 4))]);
    blocked.add_blocker(border((1, 4), (1, 3)));
    assert_eq!(blocked.borders, vec![border((1, 4), (3, 4))]);
    blocked.add_blocker(border((1, 8), (1, 2)));
    assert_eq!(blocked.borders, vec![border((1, 8), (3, 4))]);
}

#[test]
fn a_blocker_that_overlaps_both_neighbours_joins_them() {
    let mut blocked = BlockedFov::new();
    blocked.add_blocker(border((0, 1), (1, 4)));
    blocked.add_blocker(border((1, 2), (3, 4)));
    blocked.add_blocker(border((7, 8), (1, 1)));
    blocked.add_blocker(border((1, 8), (5, 8)));
    assert_eq!(blocked.borders, vec![border((0, 1), (3, 4)), border((7, 8), (1, 1))]);
}

#[test]
fn blockers_that_only_touch_stay_apart() {
    let mut blocked = BlockedFov::new();
    blocked.add_blocker(border((0, 1), (1, 2)));
    blocked.add_blocker(border((1, 2), (1, 1)));
    assert_eq!(blocked.borders, vec![border((0, 1), (1, 2)), border((1, 2), (1, 1))]);
    assert!(!blocked.is_fully_blocked());
}

#[test]
fn viewable_unless_one_shadow_hides_it_whole() {
    let mut blocked = BlockedFov::new();
    assert!(!blocked.is_not_viewable(&border((0, 1), (1, 1))));
    blocked.add_blocker(border((0, 1), (1, 2)));
    blocked.add_blocker(border((1, 2), (1, 1)));
    assert!(blocked.is_not_viewable(&border((1, 8), (1, 4))));
    assert!(blocked.is_not_viewable(&border((1, 2), (1, 1))));
    assert!(!blocked.is_not_viewable(&border((1, 4), (3, 4))));
}

#[test]
fn fully_blocked_is_one_shadow_from_zero_to_one() {
    let mut blocked = BlockedFov::new();
    assert!(!blocked.is_fully_blocked());
    blocked.add_blocker(border((0, 3), (1, 2)));
    assert!(!blocked.is_fully_blocked());
    blocked.add_blocker(border((1, 3), (2, 2)));
    assert_eq!(blocked.borders, vec![border((0, 3), (2, 2))]);
    assert!(blocked.is_fully_blocked());
    let mut late = BlockedFov::new();
    late.add_blocker(border((1, 9), (4, 4)));
    assert!(!late.is_fully_blocked());
}

#[test]
fn the_eight_octants() {
    let p = OctantPoint::new(3, 1);
    let expected = [(1, 3), (3, 1), (3, -1), (1, -3), (-1, -3), (-3, -1), (-3, 1), (-1, 3)];
    for (octant, (x, y)) in expected.iter().enumerate() {
        assert_eq!(
            BlockedFov::rotate_for_octant(p, octant as u8),
            OctantPoint::new(*x, *y)
        );
    }
    assert_eq!(BlockedFov::rotate_for_octant(OctantPoint::new(0, 0), 6), OctantPoint::new(0, 0));
}

#[test]
fn a_room_closed_in_by_walls_hides_the_outside() {
    let mut grid = floors(9, 9);
    for i in 2..=6 {
        wall(&mut grid, i, 2);
        wall(&mut grid, i, 6);
        wall(&mut grid, 2, i);
        wall(&mut grid, 6, i);
    }
    let visible = seen(&grid, Point::new(4, 4), 9);
    for p in &visible {
        assert!((2..=6).contains(&p.x) && (2..=6).contains(&p.y), "{p:?} is seen through a wall");
    }
    for x in 3..=5 {
        for y in 3..=5 {
            assert!(visible.contains(&Point::new(x, y)));
        }
    }
    assert!(visible.contains(&Point::new(4, 2)));
    assert!(visible.contains(&Point::new(6, 4)));
}

#[test]
fn revealing_what_is_seen() {
    let mut grid = floors(10, 10);
    wall(&mut grid, 5, 6);
    let mut fov = FieldOfView::new(6);
    update_visible(&grid, Point::new(5, 5), &mut fov);
    grid.update_visibility(&fov.tiles);
    assert!(grid.get_tile(&Point::new(5, 6)).unwrap().revealed);
    assert!(!grid.get_tile(&Point::new(5, 7)).unwrap().revealed);
    assert!(grid.get_tile(&Point::new(0, 0)).unwrap().revealed);
}
