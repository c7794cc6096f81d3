use dungeon_crawler::{
    update_visible, FieldOfView, Grid, MapBuilder, Point, Size, Surface, Unreachable,
};
use rand::rngs::StdRng;
use rand::{Rng, SeedableRng};

fn random_grid(rng: &mut StdRng, width: i32, height: i32, walls_in_ten: i32, costly: bool) -> Grid {
    let mut builder = MapBuilder::new();
    builder.size(Size { width, height });
    let mut grid = builder.build_all_floors().unwrap().0;
    for x in 0..width {
        for y in 0..height {
            let tile = grid.get_tile_mut(&Point::new(x, y)).unwrap();
            if rng.gen_range(0..10) < walls_in_ten {
                tile.surface = Surface::Wall;
            }
            if costly {
                tile.cost = rng.gen_range(1..6);
            }
        }
    }
    grid
}

/// Cheapest cost from `start` to every cell, by relaxing all steps until
/// nothing changes.
fn cheapest_costs(grid: &Grid, start: Point) -> Vec<Option<i64>> {
    let size = grid.size();
    let mut costs: Vec<Option<i64>> = vec![None; grid.len()];
    if let Some(s) = grid.translate(&start) {
        costs[s] = Some(0);
    }
    let mut changed = true;
    while changed {
        changed = false;
        for x in 0..size.width {
            for y in 0..size.height {
                let here = match costs[grid.translate(&Point::new(x, y)).unwrap()] {
                    Some(c) => c,
                    None => continue,
                };
                for (dx, dy) in [(-1, 0), (1, 0), (0, 1), (0, -1)] {
                    let next = Point::new(x + dx, y + dy);
                    if let Some(tile) = grid.get_tile(&next) {
                        if tile.surface == Surface::Wall {
                            continue;
                        }
                        let index = grid.translate(&next).unwrap();
                        let through = here + tile.cost as i64;
                        if costs[index].map_or(true, |c| through < c) {
                            costs[index] = Some(through);
                            changed = true;
                        }
                    }
                }
            }
        }
    }
    costs
}

fn check_paths_from(grid: &Grid, start: Point) {
    let size = grid.size();
    let costs = cheapest_costs(grid, start);
    for gx in 0..size.width {
        for gy in 0..size.height {
            let goal = Point::new(gx, gy);
            let found = grid.a_star(start, goal);
            if goal == start {
                assert_eq!(found, Ok(vec![]));
                continue;
            }
            match costs[grid.translate(&goal).unwrap()] {
                None => assert_eq!(found, Err(Unreachable)),
                Some(cheapest) => {
                    let path = found.unwrap();
                    let mut at = start;
                    let mut cost = 0;
                    for p in &path {
                        assert_eq!((at.x - p.x).abs() + (at.y - p.y).abs(), 1);
                        let tile = grid.get_tile(p).unwrap();
                        assert_eq!(tile.surface, Surface::Floor);
                        cost += tile.cost as i64;
                        at = *p;
                    }
                    assert_eq!(at, goal);
                    assert_eq!(cost, cheapest, "from {start:?} to {goal:?}");
                }
            }
        }
    }
}

#[test]
fn paths_are_the_cheapest_on_random_grids() {
    let mut rng = StdRng::seed_from_u64(2024);
    for _ in 0..12 {
        let grid = random_grid(&mut rng, 9, 7, 3, false);
        for _ in 0..4 {
            let start = Point::new(rng.gen_range(0..9), rng.gen_range(0..7));
            check_paths_from(&grid, start);
        }
    }
}

#[test]
fn paths_are_the_cheapest_where_tiles_cost_differently() {
    let mut rng = StdRng::seed_from_u64(77);
    for _ in 0..12 {
        let grid = random_grid(&mut rng, 8, 8, 2, true);
        for _ in 0..4 {
            let start = Point::new(rng.gen_range(0..8), rng.gen_range(0..8));
            check_paths_from(&grid, start);
        }
    }
}

struct FloatShadow {
    start: f32,
    end: f32,
}

fn rotate(row: i32, col: i32, octant: u8) -> (i32, i32) {
    match octant {
        0 => (col, row),
        1 => (row, col),
        2 => (row, -col),
        3 => (col, -row),
        4 => (-col, -row),
        5 => (-row, -col),
        6 => (-row, col),
        _ => (-col, row),
    }
}

fn add_float_shadow(shadows: &mut Vec<FloatShadow>, new: FloatShadow) {
    let index = shadows.iter().position(|s| s.start >= new.start).unwrap_or(shadows.len());
    let overlapping_prev = index > 0 && shadows[index - 1].end > new.start;
    let overlapping_next = index < shadows.len() && shadows[index].start < new.end;
    if overlapping_next {
        if overlapping_prev {
            shadows[index - 1].end = shadows[index].end;
            shadows.remove(index);
        } else {
            shadows[index].start = new.start;
        }
    } else if overlapping_prev {
        shadows[index - 1].end = new.end;
    } else {
        shadows.insert(index, new);
    }
}

/// The same scan with the ends of the shadows as floating-point numbers.
fn float_scan(grid: &Grid, origin: Point, range: i32) -> Vec<Point> {
    let mut seen = vec![];
    for octant in 0..8u8 {
        let mut shadows: Vec<FloatShadow> = vec![];
        for row in 1..range {
            let (dx, dy) = rotate(row, 0, octant);
            if !grid.in_bounds(&Point::new(origin.x + dx, origin.y + dy)) {
                break;
            }
            for col in 0..=row {
                let (dx, dy) = rotate(row, col, octant);
                let pos = Point::new(origin.x + dx, origin.y + dy);
                if !grid.in_bounds(&pos) {
                    break;
                }
                let fully =
                    shadows.len() == 1 && shadows[0].start == 0. && shadows[0].end == 1.;
                if !fully {
                    let shadow = FloatShadow {
                        start: col as f32 / (row + 2) as f32,
                        end: (col + 1) as f32 / (row + 1) as f32,
                    };
                    let hidden =
                        shadows.iter().any(|s| s.start <= shadow.start && s.end >= shadow.end);
                    if !hidden {
                        seen.push(pos);
                        if grid.get_tile(&pos).unwrap().surface == Surface::Wall {
                            add_float_shadow(&mut shadows, shadow);
                        }
                    }
                }
            }
        }
    }
    seen.push(origin);
    seen
}

#[test]
fn exact_shadows_see_what_floating_point_shadows_see() {
    let mut rng = StdRng::seed_from_u64(31);
    for round in 0..40 {
        let grid = random_grid(&mut rng, 14, 11, round % 5, false);
        for _ in 0..6 {
            let origin = Point::new(rng.gen_range(0..14), rng.gen_range(0..11));
            for range in [1, 2, 4, 7, 15] {
                let mut fov = FieldOfView::new(range);
                update_visible(&grid, origin, &mut fov);
                assert_eq!(fov.tiles, float_scan(&grid, origin, range), "{origin:?} {range}");
            }
        }
    }
}
