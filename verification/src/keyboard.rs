//! Walking by keyboard: which way the keys held ask to go, and how often a
//! step may be taken.

use vstd::prelude::*;
use crate::common::{Direction, Point, WalkPath};
use crate::grid::Grid;

verus! {

/// A timer that runs once, counted in nanoseconds: it is finished when
/// `duration` has elapsed, and then stands still until it is reset.
#[derive(Debug, Copy, Clone, PartialEq, Eq, Structural)]
pub struct Cooldown {
    pub elapsed: u128,
    pub duration: u128,
    pub finished: bool,
}

impl Cooldown {
    /// A timer that has not run yet.
    pub fn new(duration: u128) -> (timer: Self)
        ensures
            timer == (Cooldown { elapsed: 0, duration, finished: false }),
    {
        Self { elapsed: 0, duration, finished: false }
    }

    /// The timer after `delta` more nanoseconds.
    pub open spec fn ticked(self, delta: u128) -> Cooldown {
        if self.finished {
            self
        } else if self.elapsed + delta >= self.duration {
            Cooldown { elapsed: self.duration, finished: true, ..self }
        } else {
            Cooldown { elapsed: (self.elapsed + delta) as u128, ..self }
        }
    }

    /// Lets `delta` nanoseconds pass.
    pub fn tick(&mut self, delta: u128)
        ensures
            *final(self) == old(self).ticked(delta),
    {
        if self.finished {
            return ;
        }
        match self.elapsed.checked_add(delta) {
            Some(elapsed) => {
                if elapsed >= self.duration {
                    self.elapsed = self.duration;
                    self.finished = true;
                } else {
                    self.elapsed = elapsed;
                }
            },
            None => {
                self.elapsed = self.duration;
                self.finished = true;
            },
        }
    }

    /// The timer set back to its start.
    pub open spec fn restarted(self) -> Cooldown {
        Cooldown { elapsed: 0, finished: false, ..self }
    }

    /// Sets the timer back to its start.
    pub fn reset(&mut self)
        ensures
            *final(self) == old(self).restarted(),
    {
        self.elapsed = 0;
        self.finished = false;
    }
}

/// The keys that are held down.
#[derive(Debug, Copy, Clone, PartialEq, Eq, Structural)]
pub struct Keys {
    pub up: bool,
    pub left: bool,
    pub down: bool,
    pub right: bool,
}

impl Keys {
    /// The way asked for up or down: none where both keys or neither are
    /// held.
    pub open spec fn spec_vertical(self) -> Direction {
        if self.up == self.down {
            Direction::Still
        } else if self.up {
            Direction::Up
        } else {
            Direction::Down
        }
    }

    #[verifier::when_used_as_spec(spec_vertical)]
    pub fn vertical(self) -> (direction: Direction)
        ensures
            direction == self.spec_vertical(),
    {
        if self.up == self.down {
            Direction::Still
        } else if self.up {
            Direction::Up
        } else {
            Direction::Down
        }
    }

    /// The way asked for left or right: none where both keys or neither
    /// are held.
    pub open spec fn spec_horizontal(self) -> Direction {
        if self.right == self.left {
            Direction::Still
        } else if self.right {
            Direction::Right
        } else {
            Direction::Left
        }
    }

    #[verifier::when_used_as_spec(spec_horizontal)]
    pub fn horizontal(self) -> (direction: Direction)
        ensures
            direction == self.spec_horizontal(),
    {
        if self.right == self.left {
            Direction::Still
        } else if self.right {
            Direction::Right
        } else {
            Direction::Left
        }
    }
}

/// For how long, in nanoseconds, a way has been asked for along each axis;
/// `None` where none is asked for.
#[derive(Debug, Copy, Clone, PartialEq, Eq, Structural)]
pub struct RecentlyPressed {
    pub up_down: Option<u128>,
    pub left_right: Option<u128>,
}

/// For how long a way along an axis has been asked for after `delta` more
/// nanoseconds, where `direction` is what is asked for now.
pub open spec fn held(before: Option<u128>, direction: Direction, delta: u128) -> Option<u128> {
    if direction == Direction::Still {
        None
    } else {
        match before {
            Some(duration) => Some((duration + delta) as u128),
            None => Some(delta),
        }
    }
}

/// The way to go that the keys ask for: along the one axis that is asked
/// for, or, where both are, along the one that has been asked for more
/// recently, across before up and down where neither is more recent.
pub open spec fn requested(x_dir: Direction, y_dir: Direction, recent: RecentlyPressed) -> Direction {
    if y_dir == Direction::Still {
        x_dir
    } else if x_dir == Direction::Still {
        y_dir
    } else if recent.up_down.unwrap() < recent.left_right.unwrap() {
        y_dir
    } else {
        x_dir
    }
}

/// How often a step may be taken in each direction, and the step that
/// waits to be taken next.
#[derive(Debug, Copy, Clone, PartialEq, Eq, Structural)]
pub struct KeyboardMovement {
    pub up_timer: Cooldown,
    pub down_timer: Cooldown,
    pub right_timer: Cooldown,
    pub left_timer: Cooldown,
    pub queued_move: Option<Direction>,
}

impl KeyboardMovement {
    /// Timers that let one step in `step` nanoseconds through in each
    /// direction, and no step waiting.
    pub fn new(step: u128) -> (movement: Self)
        ensures
            movement == (KeyboardMovement {
                up_timer: Cooldown { elapsed: 0, duration: step, finished: false },
                down_timer: Cooldown { elapsed: 0, duration: step, finished: false },
                right_timer: Cooldown { elapsed: 0, duration: step, finished: false },
                left_timer: Cooldown { elapsed: 0, duration: step, finished: false },
                queued_move: None,
            }),
    {
        Self {
            up_timer: Cooldown::new(step),
            down_timer: Cooldown::new(step),
            right_timer: Cooldown::new(step),
            left_timer: Cooldown::new(step),
            queued_move: None,
        }
    }

    /// The timers after `delta` more nanoseconds.
    pub open spec fn ticked(self, delta: u128) -> KeyboardMovement {
        KeyboardMovement {
            up_timer: self.up_timer.ticked(delta),
            down_timer: self.down_timer.ticked(delta),
            right_timer: self.right_timer.ticked(delta),
            left_timer: self.left_timer.ticked(delta),
            ..self
        }
    }

    /// Lets `delta` nanoseconds pass.
    pub fn tick(&mut self, delta: u128)
        ensures
            *final(self) == old(self).ticked(delta),
    {
        self.up_timer.tick(delta);
        self.down_timer.tick(delta);
        self.left_timer.tick(delta);
        self.right_timer.tick(delta);
    }

    /// The timer of a direction.
    pub open spec fn timer(self, dir: Direction) -> Cooldown {
        match dir {
            Direction::Up => self.up_timer,
            Direction::Down => self.down_timer,
            Direction::Left => self.left_timer,
            Direction::Right => self.right_timer,
            Direction::Still => self.up_timer,
        }
    }

    /// A step may be taken in the direction: its timer is finished.
    /// Standing still is always allowed.
    pub open spec fn allows(self, dir: Direction) -> bool {
        dir == Direction::Still || self.timer(dir).finished
    }

    /// The timers after a step in the direction has been asked for: the
    /// timer of the direction starts anew where it was finished.
    pub open spec fn asked(self, dir: Direction) -> KeyboardMovement {
        if dir != Direction::Still && self.timer(dir).finished {
            match dir {
                Direction::Up => KeyboardMovement { up_timer: self.up_timer.restarted(), ..self },
                Direction::Down => KeyboardMovement {
                    down_timer: self.down_timer.restarted(),
                    ..self
                },
                Direction::Left => KeyboardMovement {
                    left_timer: self.left_timer.restarted(),
                    ..self
                },
                _ => KeyboardMovement { right_timer: self.right_timer.restarted(), ..self },
            }
        } else {
            self
        }
    }

    /// Asks whether a step may be taken in the direction. Where it may,
    /// the timer of the direction starts anew.
    pub fn allowed_to_move(&mut self, dir: Direction) -> (allowed: bool)
        ensures
            allowed == old(self).allows(dir),
            *final(self) == old(self).asked(dir),
    {
        match dir {
            Direction::Up => Self::reset_if_finished(&mut self.up_timer),
            Direction::Down => Self::reset_if_finished(&mut self.down_timer),
            Direction::Left => Self::reset_if_finished(&mut self.left_timer),
            Direction::Right => Self::reset_if_finished(&mut self.right_timer),
            Direction::Still => true,
        }
    }

    fn reset_if_finished(timer: &mut Cooldown) -> (done: bool)
        ensures
            done == old(timer).finished,
            *final(timer) == (if old(timer).finished {
                old(timer).restarted()
            } else {
                *old(timer)
            }),
    {
        let done: bool = timer.finished;
        if done {
            timer.reset()
        }
        done
    }

    /// The state after a step in the direction has been offered for
    /// waiting: it waits where it is a step and may be taken.
    pub open spec fn queued(self, dir: Direction) -> KeyboardMovement {
        if dir != Direction::Still && self.allows(dir) {
            KeyboardMovement { queued_move: Some(dir), ..self.asked(dir) }
        } else {
            self.asked(dir)
        }
    }

    /// Lets a step in the direction wait to be taken next, where it may
    /// be taken.
    pub fn try_queue_move(&mut self, dir: Direction)
        ensures
            *final(self) == old(self).queued(dir),
    {
        if dir != Direction::Still {
            if self.allowed_to_move(dir) {
                self.queued_move = Some(dir);
            }
        }
    }

    /// Takes the step that waits, if one does.
    pub fn get_queued_move(&mut self) -> (dir: Option<Direction>)
        ensures
            dir == old(self).queued_move,
            *final(self) == (KeyboardMovement { queued_move: None, ..*old(self) }),
    {
        let dir: Option<Direction> = self.queued_move;
        self.queued_move = None;
        dir
    }

    /// The direction in which a step is taken now, where `req` is asked
    /// for: the step that waits, if one does; else the one asked for, if
    /// it may be taken; else none.
    pub open spec fn chosen(self, req: Direction) -> Direction {
        match self.queued_move {
            Some(dir) => dir,
            None => if self.allows(req) {
                req
            } else {
                Direction::Still
            },
        }
    }

    /// The state after the direction of the step has been chosen. Where a
    /// step waited, the one asked for is offered for waiting in its
    /// place. Where none waited and the one asked for may not be taken
    /// yet, it is offered for waiting, unless the last step went the same
    /// way.
    pub open spec fn after_choice(self, req: Direction, last: Direction) -> KeyboardMovement {
        match self.queued_move {
            Some(dir) => (KeyboardMovement { queued_move: None, ..self }).queued(req),
            None => if self.allows(req) {
                self.asked(req)
            } else if req != last {
                self.asked(req).queued(req)
            } else {
                self.asked(req)
            },
        }
    }
}

/// What the keys held ask of the player this frame, after `delta` more
/// nanoseconds: the times for which the keys have been held, the timers
/// and the waiting step are brought up to date, and where a step is to
/// be taken the player's path becomes the tile next to the player in the
/// direction asked for, if that tile can be stood on, and is empty
/// otherwise. With the keyboard in use for something else only the
/// timers run.
pub open spec fn player_direction(
    keys: Keys,
    dont_move: bool,
    grid: &Grid,
    delta: u128,
    recently_pressed: RecentlyPressed,
    keyboard_movement: KeyboardMovement,
    last_direction: Direction,
    player_position: Point,
    player_path: Seq<Point>,
) -> (RecentlyPressed, KeyboardMovement, Direction, Seq<Point>) {
    let ticked = keyboard_movement.ticked(delta);
    if dont_move {
        (recently_pressed, ticked, last_direction, player_path)
    } else {
        let recent = RecentlyPressed {
            up_down: held(recently_pressed.up_down, keys.vertical(), delta),
            left_right: held(recently_pressed.left_right, keys.horizontal(), delta),
        };
        let req = requested(keys.horizontal(), keys.vertical(), recent);
        let direction = ticked.chosen(req);
        let movement = ticked.after_choice(req, last_direction);
        if direction == Direction::Still || !grid.in_bounds(&player_position) {
            (recent, movement, last_direction, player_path)
        } else {
            match player_position.spec_step(req) {
                Some(next) => if grid.is_safe(&next) {
                    (recent, movement, direction, seq![next])
                } else {
                    (recent, movement, last_direction, Seq::empty())
                },
                None => (recent, movement, last_direction, Seq::empty()),
            }
        }
    }
}

/// Brings the keyboard's books up to date for one frame and sets the
/// player's path by what the keys ask for.
pub fn update_player_direction(
    keys: Keys,
    dont_move: bool,
    grid: &Grid,
    delta: u128,
    recently_pressed: &mut RecentlyPressed,
    keyboard_movement: &mut KeyboardMovement,
    last_direction: &mut Direction,
    player_position: &Point,
    player_path: &mut WalkPath,
)
    requires
        grid.wf(),
        old(recently_pressed).up_down matches Some(d) ==> d + delta <= u128::MAX,
        old(recently_pressed).left_right matches Some(d) ==> d + delta <= u128::MAX,
    ensures
        (
            *final(recently_pressed),
            *final(keyboard_movement),
            *final(last_direction),
            final(player_path).0@,
        ) == player_direction(
            keys,
            dont_move,
            grid,
            delta,
            *old(recently_pressed),
            *old(keyboard_movement),
            *old(last_direction),
            *player_position,
            old(player_path).0@,
        ),
{
    keyboard_movement.tick(delta);

    if dont_move {
        return ;
    }
    let y_dir: Direction = keys.vertical();

    recently_pressed.up_down = if y_dir == Direction::Still {
        None
    } else {
        if let Some(dur) = recently_pressed.up_down {
            Some(dur + delta)
        } else {
            Some(delta)
        }
    };

    let x_dir: Direction = keys.horizontal();

    recently_pressed.left_right = if x_dir == Direction::Still {
        None
    } else {
        if let Some(dur) = recently_pressed.left_right {
            Some(dur + delta)
        } else {
            Some(delta)
        }
    };

    let req_direction: Direction = if y_dir == Direction::Still {
        x_dir
    } else if x_dir == Direction::Still {
        y_dir
    } else {
        let up_down_wins: bool = match (recently_pressed.up_down, recently_pressed.left_right) {
            (Some(up_down), Some(left_right)) => up_down < left_right,
            _ => false,
        };
        if up_down_wins {
            y_dir
        } else {
            x_dir
        }
    };

    let direction: Direction = if let Some(dir) = keyboard_movement.get_queued_move() {
        keyboard_movement.try_queue_move(req_direction);
        dir
    } else if keyboard_movement.allowed_to_move(req_direction) {
        req_direction
    } else {
        if req_direction != *last_direction {
            keyboard_movement.try_queue_move(req_direction);
        }
        Direction::Still
    };

    match direction {
        Direction::Still => (),
        _ => {
            if let Some(current_tile) = grid.get_tile(player_position) {
                player_path.0.clear();
                if let Some(next) = grid.get_neighbour(current_tile, req_direction) {
                    proof {
                        grid.lemma_cell_tile(player_position.spec_step(req_direction).unwrap());
                    }
                    if next.is_safe() {
                        *last_direction = direction;
                        player_path.0.push(next.position);
                        assert(player_path.0@ =~= seq![next.position]);
                    }
                }
            }
        },
    }
}

} // verus!
