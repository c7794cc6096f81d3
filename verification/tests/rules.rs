use dungeon_crawler::collision::COLLIDE_TIME;
use dungeon_crawler::entity::{ENEMY_DAMAGE, SPELL_RADIUS};
use dungeon_crawler::keyboard::update_player_direction;
use dungeon_crawler::{
    Collision, Collisions, Cooldown, Direction, Enemy, Grid, Health, KeyboardMovement, Keys,
    MapBuilder, Point, RecentlyPressed, Size, Spell, Surface, Tile, TileCursor, TilePaint,
    WalkPath,
};

fn floors(width: i32, height: i32) -> Grid {
    let mut builder = MapBuilder::new();
    builder.size(Size { width, height });
    builder.build_all_floors().unwrap().0
}

fn points(cells: &[(i32, i32)]) -> Vec<Point> {
    cells.iter().map(|(x, y)| Point::new(*x, *y)).collect()
}

#[test]
fn a_circle_of_radius_two() {
    let circle = TileCursor::draw_circle(&Point::new(10, 20), 2);
    let mut expected = vec![];
    for (y, half) in [(18, 1), (19, 2), (20, 2), (21, 2), (22, 1)] {
        for x in (10 - half)..=(10 + half) {
            expected.push(Point::new(x, y));
        }
    }
    assert_eq!(circle, expected);
    assert_eq!(circle.len(), 21);
}

#[test]
fn small_circles() {
    assert_eq!(
        TileCursor::draw_circle(&Point::new(0, 0), 0),
        points(&[(-1, 0), (0, 0), (1, 0)])
    );
    assert_eq!(
        TileCursor::draw_circle(&Point::new(5, 5), 1),
        points(&[(4, 4), (5, 4), (6, 4), (4, 5), (5, 5), (6, 5), (4, 6), (5, 6), (6, 6)])
    );
}

#[test]
fn a_circle_of_radius_three_has_these_rows() {
    let circle = TileCursor::draw_circle(&Point::new(0, 0), 3);
    let widths: Vec<usize> =
        (-3..=3).map(|y| circle.iter().filter(|p| p.y == y).count()).collect();
    assert_eq!(widths, vec![3, 5, 7, 7, 7, 5, 3]);
    for p in &circle {
        let row: Vec<&Point> = circle.iter().filter(|q| q.y == p.y).collect();
        assert_eq!(row.first().unwrap().x, -row.last().unwrap().x);
    }
    assert_eq!(circle.len(), 37);
}

#[test]
fn the_cursor_draws_about_the_hovered_tile() {
    assert_eq!(TileCursor::new(), TileCursor(None));
    assert_eq!(TileCursor::new().circle(2), None);
    let cursor = TileCursor(Some(Point::new(3, 3)));
    assert_eq!(cursor.circle(1), Some(TileCursor::draw_circle(&Point::new(3, 3), 1)));
    assert_eq!(cursor.circle(1).unwrap().len(), 9);
}

#[test]
fn a_rect_about_the_hovered_tile() {
    let grid = floors(10, 10);
    let cursor = TileCursor(Some(Point::new(5, 5)));
    assert_eq!(
        cursor.rect(&grid, Size { width: 2, height: 2 }),
        Some(points(&[(5, 5), (5, 6), (6, 5), (6, 6)]))
    );
    assert_eq!(
        cursor.rect(&grid, Size { width: 3, height: 1 }),
        Some(points(&[(4, 5), (5, 5), (6, 5)]))
    );
    assert_eq!(
        cursor.rect(&grid, Size { width: 4, height: 3 }),
        Some(points(&[
            (4, 4), (4, 5), (4, 6), (5, 4), (5, 5), (5, 6), (6, 4), (6, 5), (6, 6), (7, 4), (7, 5),
            (7, 6),
        ]))
    );
    assert_eq!(cursor.rect(&grid, Size { width: 0, height: 3 }), Some(vec![]));
    assert_eq!(cursor.rect(&grid, Size { width: -2, height: -2 }), Some(vec![]));
    assert_eq!(TileCursor(None).rect(&grid, Size::splat(3)), None);
}

#[test]
fn a_rect_is_clipped_by_the_grid() {
    let grid = floors(3, 3);
    let corner = TileCursor(Some(Point::new(0, 0)));
    assert_eq!(
        corner.rect(&grid, Size::splat(3)),
        Some(points(&[(0, 0), (0, 1), (1, 0), (1, 1)]))
    );
    let outside = TileCursor(Some(Point::new(9, 9)));
    assert_eq!(outside.rect(&grid, Size::splat(3)), Some(vec![]));
}

#[test]
fn spells_change_health_by_ten() {
    let mut health = Health(100);
    Spell::Fireball.take_action(&mut health);
    assert_eq!(health, Health(90));
    Spell::Heal.take_action(&mut health);
    Spell::Heal.take_action(&mut health);
    assert_eq!(health, Health(110));
    let mut low = Health(5);
    Spell::Fireball.take_action(&mut low);
    assert_eq!(low.0, -5);
    assert_eq!(Spell::Fireball.effect(), -10);
    assert_eq!(Spell::Heal.effect(), 10);
}

#[test]
fn a_creature_without_hit_points_is_dead() {
    assert_eq!(ENEMY_DAMAGE, 50);
    let mut health = Health(100);
    health.damage(ENEMY_DAMAGE);
    assert!(!health.is_dead());
    health.damage(ENEMY_DAMAGE);
    assert!(health.is_dead());
    assert!(Health(-3).is_dead());
    assert!(!Health(1).is_dead());
}

#[test]
fn a_spell_reaches_the_cells_of_its_circle() {
    assert_eq!(SPELL_RADIUS, 2);
    let center = Point::new(7, -3);
    let circle = TileCursor::draw_circle(&center, SPELL_RADIUS);
    for x in 0..15 {
        for y in -10..5 {
            let target = Point::new(x, y);
            assert_eq!(Spell::reaches(&center, &target), circle.contains(&target), "{target:?}");
        }
    }
    assert!(Spell::reaches(&center, &center));
    assert!(Spell::reaches(&center, &Point::new(9, -2)));
    assert!(!Spell::reaches(&center, &Point::new(9, -1)));
    assert!(!Spell::reaches(&Point::new(i32::MIN, i32::MIN), &Point::new(i32::MAX, i32::MAX)));
    assert!(Spell::reaches(&Point::new(i32::MAX, 0), &Point::new(i32::MAX - 2, 1)));
}

#[test]
fn an_enemy_walks_its_round() {
    assert_eq!(Enemy::next_direction(Direction::Down), Direction::Right);
    assert_eq!(Enemy::next_direction(Direction::Right), Direction::Up);
    assert_eq!(Enemy::next_direction(Direction::Up), Direction::Left);
    assert_eq!(Enemy::next_direction(Direction::Left), Direction::Down);
    assert_eq!(Enemy::next_direction(Direction::Still), Direction::Up);
}

#[test]
fn a_safe_neighbour_is_no_wall() {
    let mut grid = floors(3, 3);
    grid.get_tile_mut(&Point::new(2, 1)).unwrap().surface = Surface::Wall;
    let middle = *grid.get_tile(&Point::new(1, 1)).unwrap();
    assert!(grid.get_safe_neighbour(&middle, Direction::Right).is_none());
    assert_eq!(
        grid.get_safe_neighbour(&middle, Direction::Left).unwrap().position,
        Point::new(0, 1)
    );
    let edge = *grid.get_tile(&Point::new(0, 1)).unwrap();
    assert!(grid.get_safe_neighbour(&edge, Direction::Left).is_none());
    assert!(grid.get_safe_neighbour(&Tile::new(Surface::Floor, Point::new(5, 5)), Direction::Up).is_none());
    assert!(grid.is_safe(&Point::new(1, 1)));
    assert!(!grid.is_safe(&Point::new(2, 1)));
    assert!(!grid.is_safe(&Point::new(3, 1)));
    assert!(!grid.is_safe(&Point::new(-1, -1)));
}

#[test]
fn the_stronger_paint_wins() {
    let green = TilePaint::CursorDraw(0x00ff00ff);
    let red = TilePaint::CursorDraw(0xff0000ff);
    assert_eq!(TilePaint::Invisible.greater_of(TilePaint::Visible), TilePaint::Visible);
    assert_eq!(TilePaint::Visible.greater_of(TilePaint::Invisible), TilePaint::Visible);
    assert_eq!(TilePaint::Visible.greater_of(TilePaint::PreviouslySeen), TilePaint::Visible);
    assert_eq!(TilePaint::PreviouslySeen.greater_of(TilePaint::Invisible), TilePaint::PreviouslySeen);
    assert_eq!(TilePaint::Visible.greater_of(green), green);
    assert_eq!(green.greater_of(TilePaint::Visible), green);
    assert_eq!(green.greater_of(red), red);
    assert_eq!(red.greater_of(green), green);
    assert_eq!(TilePaint::Invisible.greater_of(TilePaint::Invisible), TilePaint::Invisible);
    assert_eq!(
        [green.rank(), TilePaint::Visible.rank(), TilePaint::PreviouslySeen.rank(), TilePaint::Invisible.rank()],
        [3, 2, 1, 0]
    );
}

#[test]
fn paint_fades_once_drawn() {
    assert_eq!(TilePaint::CursorDraw(0x00ff00ff).faded(), TilePaint::PreviouslySeen);
    assert_eq!(TilePaint::Visible.faded(), TilePaint::PreviouslySeen);
    assert_eq!(TilePaint::PreviouslySeen.faded(), TilePaint::PreviouslySeen);
    assert_eq!(TilePaint::Invisible.faded(), TilePaint::Invisible);
}

#[test]
fn a_collision_is_added_once() {
    let mut register = Collisions::new();
    assert!(register.collisions.is_empty());
    register.try_add(1, 2);
    register.try_add(2, 1);
    register.try_add(1, 2);
    register.try_add(1, 3);
    register.try_add(1, 1);
    assert_eq!(
        register.collisions,
        vec![Collision::new(1, 2), Collision::new(1, 3), Collision::new(1, 1)]
    );
    assert_eq!(
        Collision::new(4, 5),
        Collision { entity1: 4, entity2: 5, processed: false, elapsed: 0 }
    );
}

#[test]
fn a_collision_is_handed_out_once() {
    let mut register = Collisions::new();
    register.try_add(1, 2);
    register.try_add(3, 1);
    register.try_add(2, 3);
    assert_eq!(register.colliding_with(1), vec![2, 3]);
    assert_eq!(register.colliding_with(1), Vec::<u64>::new());
    assert_eq!(register.colliding_with(2), vec![3]);
    assert_eq!(register.colliding_with(3), Vec::<u64>::new());
    assert!(register.collisions.iter().all(|c| c.processed));
    assert_eq!(register.collisions.len(), 3);
    register.try_add(2, 1);
    assert_eq!(register.collisions.len(), 3);
}

#[test]
fn a_collision_is_forgotten_after_a_second() {
    assert_eq!(COLLIDE_TIME, 1_000_000_000);
    let mut register = Collisions::new();
    register.try_add(1, 2);
    register.process_timers(400_000_000);
    register.try_add(1, 3);
    register.process_timers(599_999_999);
    assert_eq!(
        register.collisions,
        vec![
            Collision { entity1: 1, entity2: 2, processed: false, elapsed: 999_999_999 },
            Collision { entity1: 1, entity2: 3, processed: false, elapsed: 599_999_999 },
        ]
    );
    register.process_timers(1);
    assert_eq!(register.collisions.len(), 1);
    assert_eq!(register.collisions[0].entity2, 3);
    register.try_add(1, 2);
    assert_eq!(register.collisions.len(), 2);
    register.process_timers(u128::MAX);
    assert!(register.collisions.is_empty());
    register.process_timers(5);
    assert!(register.collisions.is_empty());
}

#[test]
fn the_parts_of_a_collision() {
    let mut c = Collision::new(7, 9);
    assert!(c.has_entities(7, 9) && c.has_entities(9, 7));
    assert!(!c.has_entities(7, 7) && !c.has_entities(9, 8));
    assert_eq!(c.colliding_with(7), Some(9));
    assert_eq!(c.colliding_with(9), Some(7));
    assert_eq!(c.colliding_with(8), None);
    assert!(!c.finished());
    c.tick(999_999_999);
    assert!(!c.finished());
    c.tick(1);
    assert!(c.finished());
    assert_eq!(c.elapsed, COLLIDE_TIME);
    c.tick(50);
    assert_eq!(c.elapsed, COLLIDE_TIME);
    c.processed = true;
    assert_eq!(c.colliding_with(7), None);
    let mut twin = Collision::new(4, 4);
    assert_eq!(twin.colliding_with(4), Some(4));
    twin.tick(u128::MAX);
    assert!(twin.finished());
}

fn fresh_keyboard() -> (RecentlyPressed, KeyboardMovement, Direction, WalkPath) {
    (
        RecentlyPressed { up_down: None, left_right: None },
        KeyboardMovement::new(STEP),
        Direction::Still,
        WalkPath(vec![]),
    )
}

const STEP: u128 = 100;

const UP: Keys = Keys { up: true, left: false, down: false, right: false };
const NONE: Keys = Keys { up: false, left: false, down: false, right: false };

#[test]
fn a_timer_runs_once() {
    let mut timer = Cooldown::new(10);
    assert_eq!(timer, Cooldown { elapsed: 0, duration: 10, finished: false });
    timer.tick(4);
    assert_eq!(timer, Cooldown { elapsed: 4, duration: 10, finished: false });
    timer.tick(6);
    assert_eq!(timer, Cooldown { elapsed: 10, duration: 10, finished: true });
    timer.tick(50);
    assert_eq!(timer, Cooldown { elapsed: 10, duration: 10, finished: true });
    timer.reset();
    assert_eq!(timer, Cooldown { elapsed: 0, duration: 10, finished: false });
    timer.tick(u128::MAX);
    assert!(timer.finished);
    let mut long = Cooldown { elapsed: 5, duration: u128::MAX, finished: false };
    long.tick(u128::MAX);
    assert_eq!(long, Cooldown { elapsed: u128::MAX, duration: u128::MAX, finished: true });
    let mut none = Cooldown::new(0);
    none.tick(0);
    assert!(none.finished);
}

#[test]
fn the_keys_held_ask_for_a_way_along_each_axis() {
    assert_eq!(UP.vertical(), Direction::Up);
    assert_eq!(UP.horizontal(), Direction::Still);
    let both = Keys { up: true, left: true, down: true, right: false };
    assert_eq!(both.vertical(), Direction::Still);
    assert_eq!(both.horizontal(), Direction::Left);
    let other = Keys { up: false, left: true, down: true, right: true };
    assert_eq!(other.vertical(), Direction::Down);
    assert_eq!(other.horizontal(), Direction::Still);
    assert_eq!(Keys { up: false, left: false, down: false, right: true }.horizontal(), Direction::Right);
    assert_eq!(NONE.vertical(), Direction::Still);
}

#[test]
fn a_step_is_allowed_when_its_timer_is_finished() {
    let mut movement = KeyboardMovement::new(STEP);
    assert!(movement.allowed_to_move(Direction::Still));
    assert!(!movement.allowed_to_move(Direction::Up));
    movement.tick(STEP);
    assert!(movement.allowed_to_move(Direction::Up));
    assert!(!movement.allowed_to_move(Direction::Up));
    assert!(movement.allowed_to_move(Direction::Left));
    assert_eq!(movement.up_timer, Cooldown::new(STEP));
    assert_eq!(movement.down_timer, Cooldown { elapsed: STEP, duration: STEP, finished: true });
    movement.try_queue_move(Direction::Still);
    assert_eq!(movement.queued_move, None);
    movement.try_queue_move(Direction::Up);
    assert_eq!(movement.queued_move, None);
    movement.try_queue_move(Direction::Down);
    assert_eq!(movement.queued_move, Some(Direction::Down));
    assert_eq!(movement.down_timer, Cooldown::new(STEP));
    assert_eq!(movement.get_queued_move(), Some(Direction::Down));
    assert_eq!(movement.get_queued_move(), None);
}

#[test]
fn the_first_step_waits_for_its_timer() {
    let grid = floors(5, 5);
    let position = Point::new(2, 2);
    let (mut recent, mut movement, mut last, mut path) = fresh_keyboard();
    path.0.push(Point::new(9, 9));
    update_player_direction(UP, false, &grid, 40, &mut recent, &mut movement, &mut last, &position, &mut path);
    assert_eq!(recent, RecentlyPressed { up_down: Some(40), left_right: None });
    assert_eq!(path.0, vec![Point::new(9, 9)]);
    assert_eq!(last, Direction::Still);
    update_player_direction(UP, false, &grid, 60, &mut recent, &mut movement, &mut last, &position, &mut path);
    assert_eq!(recent.up_down, Some(100));
    assert_eq!(path.0, vec![Point::new(2, 3)]);
    assert_eq!(last, Direction::Up);
    assert_eq!(movement.up_timer, Cooldown::new(STEP));
    assert_eq!(movement.queued_move, None);
    // The timer has started anew: the next frame takes no step.
    path.0.clear();
    update_player_direction(UP, false, &grid, 10, &mut recent, &mut movement, &mut last, &position, &mut path);
    assert!(path.0.is_empty());
    assert_eq!(movement.queued_move, None);
    update_player_direction(NONE, false, &grid, 10, &mut recent, &mut movement, &mut last, &position, &mut path);
    assert_eq!(recent, RecentlyPressed { up_down: None, left_right: None });
}

#[test]
fn the_key_pressed_last_wins() {
    let grid = floors(5, 5);
    let position = Point::new(2, 2);
    let (mut recent, mut movement, mut last, mut path) = fresh_keyboard();
    update_player_direction(UP, false, &grid, 200, &mut recent, &mut movement, &mut last, &position, &mut path);
    assert_eq!(path.0, vec![Point::new(2, 3)]);
    let up_and_right = Keys { up: true, left: false, down: false, right: true };
    update_player_direction(up_and_right, false, &grid, 1, &mut recent, &mut movement, &mut last, &position, &mut path);
    assert_eq!(recent, RecentlyPressed { up_down: Some(201), left_right: Some(1) });
    assert_eq!(path.0, vec![Point::new(3, 2)]);
    assert_eq!(last, Direction::Right);
    // Pressed in the same frame, across goes before up and down.
    let (mut recent, mut movement, mut last, mut path) = fresh_keyboard();
    let down_and_left = Keys { up: false, left: true, down: true, right: false };
    update_player_direction(down_and_left, false, &grid, 150, &mut recent, &mut movement, &mut last, &position, &mut path);
    assert_eq!(path.0, vec![Point::new(1, 2)]);
}

#[test]
fn a_step_that_may_not_be_taken_yet_waits() {
    let grid = floors(5, 5);
    let position = Point::new(2, 2);
    let (mut recent, mut movement, mut last, mut path) = fresh_keyboard();
    movement.right_timer = Cooldown { elapsed: STEP, duration: STEP, finished: true };
    movement.queued_move = Some(Direction::Right);
    // A step waits: it is taken, towards what the keys ask for now.
    update_player_direction(UP, false, &grid, 5, &mut recent, &mut movement, &mut last, &position, &mut path);
    assert_eq!(path.0, vec![Point::new(2, 3)]);
    assert_eq!(last, Direction::Right);
    assert_eq!(movement.queued_move, None);
}

#[test]
fn walls_and_edges_stop_the_player() {
    let mut grid = floors(3, 3);
    grid.get_tile_mut(&Point::new(1, 2)).unwrap().surface = Surface::Wall;
    let (mut recent, mut movement, mut last, mut path) = fresh_keyboard();
    path.0.push(Point::new(0, 0));
    update_player_direction(UP, false, &grid, 500, &mut recent, &mut movement, &mut last, &Point::new(1, 1), &mut path);
    assert!(path.0.is_empty());
    assert_eq!(last, Direction::Still);
    let left = Keys { up: false, left: true, down: false, right: false };
    path.0.push(Point::new(0, 0));
    update_player_direction(left, false, &grid, 500, &mut recent, &mut movement, &mut last, &Point::new(0, 1), &mut path);
    assert!(path.0.is_empty());
    // A player off the grid stays where they are, path and all.
    path.0.push(Point::new(0, 0));
    movement.tick(500);
    update_player_direction(left, false, &grid, 500, &mut recent, &mut movement, &mut last, &Point::new(7, 7), &mut path);
    assert_eq!(path.0, vec![Point::new(0, 0)]);
}

#[test]
fn a_keyboard_in_use_moves_nobody() {
    let grid = floors(5, 5);
    let (mut recent, mut movement, mut last, mut path) = fresh_keyboard();
    update_player_direction(UP, true, &grid, 500, &mut recent, &mut movement, &mut last, &Point::new(2, 2), &mut path);
    assert_eq!(recent, RecentlyPressed { up_down: None, left_right: None });
    assert!(path.0.is_empty());
    assert!(movement.up_timer.finished);
    assert_eq!(last, Direction::Still);
}
