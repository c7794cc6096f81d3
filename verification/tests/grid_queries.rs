use dungeon_crawler::{Direction, Grid, MapBuilder, Point, Size, Surface, Tile, TileRect, TILE_SIZE};

fn floors(width: i32, height: i32) -> Grid {
    let mut builder = MapBuilder::new();
    builder.size(Size { width, height });
    builder.build_all_floors().unwrap().0
}

fn wall(grid: &mut Grid, x: i32, y: i32) {
    grid.get_tile_mut(&Point::new(x, y)).unwrap().surface = Surface::Wall;
}

#[test]
fn all_floor_grid_has_one_tile_per_cell() {
    let (grid, rooms) = MapBuilder::square(10).build_all_floors().unwrap();
    assert_eq!(grid.len(), 100);
    assert_eq!(grid.size(), Size::splat(10));
    assert!(rooms.is_empty());
    for i in 0..grid.len() {
        let tile = grid.tile(i);
        assert_eq!(tile.surface, Surface::Floor);
        assert_eq!(tile.cost, 1);
        assert!(!tile.revealed);
    }
}

#[test]
fn in_bounds_is_the_half_open_rectangle() {
    let grid = floors(4, 3);
    assert!(grid.in_bounds(&Point::new(0, 0)));
    assert!(grid.in_bounds(&Point::new(3, 2)));
    assert!(!grid.in_bounds(&Point::new(4, 0)));
    assert!(!grid.in_bounds(&Point::new(0, 3)));
    assert!(!grid.in_bounds(&Point::new(-1, 0)));
    assert!(!grid.in_bounds(&Point::new(0, -1)));
}

#[test]
fn translate_is_column_major_by_x() {
    let grid = floors(4, 3);
    assert_eq!(grid.translate(&Point::new(0, 0)), Some(0));
    assert_eq!(grid.translate(&Point::new(0, 2)), Some(2));
    assert_eq!(grid.translate(&Point::new(1, 0)), Some(3));
    assert_eq!(grid.translate(&Point::new(3, 2)), Some(11));
    assert_eq!(grid.translate(&Point::new(4, 0)), None);
    assert_eq!(grid.translate(&Point::new(0, 3)), None);
    assert_eq!(grid.translate(&Point::new(-1, 1)), None);
    assert_eq!(Grid::xy_idx(&Point::new(2, 1), 3), 7);
}

#[test]
fn translate_is_a_bijection_onto_the_indices() {
    let grid = floors(7, 5);
    let mut hit = vec![false; 35];
    for x in 0..7 {
        for y in 0..5 {
            let p = Point::new(x, y);
            let i = grid.translate(&p).unwrap();
            assert!(i < 35);
            assert!(!hit[i]);
            hit[i] = true;
            assert_eq!(grid.tile(i).position, p);
            assert_eq!(grid.get_tile(&p).unwrap().position, p);
        }
    }
    assert!(hit.iter().all(|h| *h));
}

#[test]
fn get_tile_is_none_outside_the_grid() {
    let mut grid = floors(3, 3);
    assert!(grid.get_tile(&Point::new(3, 0)).is_none());
    assert!(grid.get_tile(&Point::new(0, -1)).is_none());
    assert!(grid.get_tile_mut(&Point::new(-1, 0)).is_none());
    assert!(grid.get_tile_mut(&Point::new(0, 3)).is_none());
    assert!(grid.get_tile(&Point::new(i32::MAX, i32::MAX)).is_none());
    assert!(grid.get_tile(&Point::new(i32::MIN, i32::MIN)).is_none());
}

#[test]
fn get_tile_mut_changes_one_tile_only() {
    let mut grid = floors(3, 3);
    wall(&mut grid, 1, 2);
    for x in 0..3 {
        for y in 0..3 {
            let tile = grid.get_tile(&Point::new(x, y)).unwrap();
            let expected = if (x, y) == (1, 2) { Surface::Wall } else { Surface::Floor };
            assert_eq!(tile.surface, expected);
            assert_eq!(tile.position, Point::new(x, y));
        }
    }
}

#[test]
fn neighbours_come_left_right_up_down() {
    let grid = floors(3, 3);
    let around: Vec<Point> = grid.get_neighbours(&Point::new(1, 1)).iter().map(|t| t.position).collect();
    assert_eq!(
        around,
        vec![Point::new(0, 1), Point::new(2, 1), Point::new(1, 2), Point::new(1, 0)]
    );
}

#[test]
fn neighbours_never_leave_the_grid() {
    let grid = floors(3, 3);
    let corner: Vec<Point> = grid.get_neighbours(&Point::new(0, 0)).iter().map(|t| t.position).collect();
    assert_eq!(corner, vec![Point::new(1, 0), Point::new(0, 1)]);
    let far: Vec<Point> = grid.get_neighbours(&Point::new(2, 2)).iter().map(|t| t.position).collect();
    assert_eq!(far, vec![Point::new(1, 2), Point::new(2, 1)]);
    let outside: Vec<Point> = grid.get_neighbours(&Point::new(-1, 1)).iter().map(|t| t.position).collect();
    assert_eq!(outside, vec![Point::new(0, 1)]);
    assert!(grid.get_neighbours(&Point::new(10, 10)).is_empty());
    assert!(grid.get_neighbours(&Point::new(i32::MAX, i32::MIN)).is_empty());
    let lonely = floors(1, 1);
    assert!(lonely.get_neighbours(&Point::new(0, 0)).is_empty());
}

#[test]
fn neighbour_in_a_direction() {
    let grid = floors(3, 3);
    let middle = *grid.get_tile(&Point::new(1, 1)).unwrap();
    assert_eq!(grid.get_neighbour(&middle, Direction::Up).unwrap().position, Point::new(1, 2));
    assert_eq!(grid.get_neighbour(&middle, Direction::Down).unwrap().position, Point::new(1, 0));
    assert_eq!(grid.get_neighbour(&middle, Direction::Left).unwrap().position, Point::new(0, 1));
    assert_eq!(grid.get_neighbour(&middle, Direction::Right).unwrap().position, Point::new(2, 1));
    assert_eq!(grid.get_neighbour(&middle, Direction::Still).unwrap().position, Point::new(1, 1));
    let corner = *grid.get_tile(&Point::new(0, 0)).unwrap();
    assert!(grid.get_neighbour(&corner, Direction::Left).is_none());
    assert!(grid.get_neighbour(&corner, Direction::Down).is_none());
    let stranger = Tile::new(Surface::Floor, Point::new(-1, 0));
    assert!(grid.get_neighbour(&stranger, Direction::Right).is_none());
    let edge_of_the_world = Tile::new(Surface::Floor, Point::new(i32::MAX, 0));
    assert!(grid.get_neighbour(&edge_of_the_world, Direction::Right).is_none());
}

#[test]
fn update_visibility_reveals_the_listed_tiles() {
    let mut grid = floors(3, 3);
    grid.update_visibility(&vec![Point::new(0, 0), Point::new(2, 1), Point::new(7, 7), Point::new(2, 1)]);
    for x in 0..3 {
        for y in 0..3 {
            let revealed = grid.get_tile(&Point::new(x, y)).unwrap().revealed;
            assert_eq!(revealed, (x, y) == (0, 0) || (x, y) == (2, 1));
        }
    }
    grid.update_visibility(&vec![]);
    assert!(grid.get_tile(&Point::new(0, 0)).unwrap().revealed);
    assert!(!grid.get_tile(&Point::new(1, 1)).unwrap().revealed);
}

#[test]
fn reveal_all_reveals_every_tile() {
    let mut grid = floors(4, 2);
    wall(&mut grid, 1, 1);
    grid.reveal_all();
    for i in 0..grid.len() {
        assert!(grid.tile(i).revealed);
    }
    assert_eq!(grid.get_tile(&Point::new(1, 1)).unwrap().surface, Surface::Wall);
}

fn walls(width: i32, height: i32) -> Grid {
    let mut grid = floors(width, height);
    for x in 0..width {
        for y in 0..height {
            wall(&mut grid, x, y);
        }
    }
    grid
}

fn floor_cells(grid: &Grid) -> Vec<(i32, i32)> {
    let mut cells = vec![];
    for i in 0..grid.len() {
        let tile = grid.tile(i);
        if tile.surface == Surface::Floor {
            cells.push((tile.position.x, tile.position.y));
        }
    }
    cells
}

#[test]
fn carve_digs_out_the_rectangle() {
    let mut grid = walls(5, 5);
    grid.carve(&TileRect::new(1, 2, 2, 1));
    assert_eq!(floor_cells(&grid), vec![(1, 2), (1, 3), (2, 2), (2, 3), (3, 2), (3, 3)]);
}

#[test]
fn carve_is_clipped_by_the_grid() {
    let mut grid = walls(3, 3);
    grid.carve(&TileRect { x1: -5, y1: 1, x2: 0, y2: 9 });
    assert_eq!(floor_cells(&grid), vec![(0, 1), (0, 2)]);
    grid.carve(&TileRect { x1: 4, y1: 4, x2: 8, y2: 8 });
    assert_eq!(floor_cells(&grid), vec![(0, 1), (0, 2)]);
    grid.carve(&TileRect { x1: 2, y1: 2, x2: 1, y2: 1 });
    assert_eq!(floor_cells(&grid), vec![(0, 1), (0, 2)]);
}

#[test]
fn horizontal_tunnel_runs_either_way() {
    let mut grid = walls(5, 3);
    grid.apply_horizontal_tunnel(3, 1, 2);
    assert_eq!(floor_cells(&grid), vec![(1, 2), (2, 2), (3, 2)]);
    let mut other = walls(5, 3);
    other.apply_horizontal_tunnel(1, 3, 2);
    assert_eq!(floor_cells(&other), vec![(1, 2), (2, 2), (3, 2)]);
    let mut long = walls(3, 2);
    long.apply_horizontal_tunnel(-4, 40, 0);
    assert_eq!(floor_cells(&long), vec![(0, 0), (1, 0), (2, 0)]);
}

#[test]
fn vertical_tunnel_runs_either_way() {
    let mut grid = walls(3, 5);
    grid.apply_vertical_tunnel(4, 2, 1);
    assert_eq!(floor_cells(&grid), vec![(1, 2), (1, 3), (1, 4)]);
    let mut single = walls(3, 5);
    single.apply_vertical_tunnel(0, 0, 0);
    assert_eq!(floor_cells(&single), vec![(0, 0)]);
    let mut outside = walls(3, 5);
    outside.apply_vertical_tunnel(0, 4, 3);
    assert!(floor_cells(&outside).is_empty());
}

#[test]
fn connect_digs_an_l_shaped_corridor() {
    let mut grid = walls(5, 5);
    grid.connect(Point::new(1, 1), Point::new(3, 3), true);
    assert_eq!(floor_cells(&grid), vec![(1, 1), (2, 1), (3, 1), (3, 2), (3, 3)]);
    let mut other = walls(5, 5);
    other.connect(Point::new(1, 1), Point::new(3, 3), false);
    assert_eq!(floor_cells(&other), vec![(1, 1), (1, 2), (1, 3), (2, 3), (3, 3)]);
}

#[test]
fn tile_basics() {
    let tile = Tile::new(Surface::Wall, Point::new(3, -2));
    assert!(tile.is_wall());
    assert!(!tile.is_safe());
    assert_eq!(tile.cost, 1);
    assert!(!tile.revealed);
    assert_eq!(TILE_SIZE, 32);
    assert_eq!(tile.screen_position(), (96, -64));
    let floor = Tile::new(Surface::Floor, Point::new(i32::MAX, i32::MIN));
    assert!(floor.is_safe());
    assert!(!floor.is_wall());
    assert_eq!(floor.screen_position(), (68719476704, -68719476736));
}

#[test]
fn points_and_steps() {
    let p = Point::new(2, 3);
    assert_eq!(p, Point { x: 2, y: 3 });
    assert_eq!(p.offset(-3, 4), Some(Point::new(-1, 7)));
    assert_eq!(Point::new(i32::MAX, 0).offset(1, 0), None);
    assert_eq!(Point::new(0, i32::MIN).offset(0, -1), None);
    assert_eq!(p.step(Direction::Up), Some(Point::new(2, 4)));
    assert_eq!(p.step(Direction::Down), Some(Point::new(2, 2)));
    assert_eq!(p.step(Direction::Left), Some(Point::new(1, 3)));
    assert_eq!(p.step(Direction::Right), Some(Point::new(3, 3)));
    assert_eq!(p.step(Direction::Still), Some(p));
    assert!(Point::new(1, 9) < Point::new(2, 0));
    assert!(Point::new(1, 1) < Point::new(1, 2));
    assert_eq!(Size::splat(7), Size { width: 7, height: 7 });
}

#[test]
fn empty_grids_answer_none() {
    let grid = floors(0, 5);
    assert_eq!(grid.len(), 0);
    assert!(!grid.in_bounds(&Point::new(0, 0)));
    assert!(grid.get_tile(&Point::new(0, 0)).is_none());
    assert!(grid.get_neighbours(&Point::new(0, 0)).is_empty());
    let flat = floors(5, 0);
    assert_eq!(flat.len(), 0);
    assert!(flat.translate(&Point::new(0, 0)).is_none());
}

#[test]
fn a_grid_is_well_formed_until_a_tile_is_spoiled() {
    let mut grid = floors(4, 3);
    assert!(grid.is_well_formed());
    wall(&mut grid, 2, 1);
    grid.get_tile_mut(&Point::new(3, 2)).unwrap().cost = 7;
    grid.reveal_all();
    assert!(grid.is_well_formed());
    grid.get_tile_mut(&Point::new(1, 1)).unwrap().cost = 0;
    assert!(!grid.is_well_formed());
    grid.get_tile_mut(&Point::new(1, 1)).unwrap().cost = 1;
    assert!(grid.is_well_formed());
    grid.get_tile_mut(&Point::new(0, 2)).unwrap().position = Point::new(2, 0);
    assert!(!grid.is_well_formed());
    assert!(floors(0, 0).is_well_formed());
    assert!(floors(1, 1).is_well_formed());
    assert!(floors(0, 9).is_well_formed());
}
