//! What the things that live on a level are made of, and the rules they
//! follow.

use vstd::prelude::*;
use crate::common::{Direction, Point};
use crate::cursor::in_circle;

verus! {

/// Hit points of a creature.
#[derive(Debug, Copy, Clone, PartialEq, Eq, Structural)]
pub struct Health(pub i32);

impl Health {
    /// Takes `amount` hit points away.
    pub fn damage(&mut self, amount: i32)
        requires
            i32::MIN <= old(self).0 - amount <= i32::MAX,
        ensures
            final(self).0 == old(self).0 - amount,
    {
        self.0 -= amount;
    }

    /// No hit points are left.
    pub open spec fn spec_is_dead(&self) -> bool {
        self.0 <= 0
    }

    #[verifier::when_used_as_spec(spec_is_dead)]
    pub fn is_dead(&self) -> (b: bool)
        ensures
            b == self.spec_is_dead(),
    {
        self.0 <= 0
    }

    /// Gives `amount` hit points back.
    pub fn heal(&mut self, amount: i32)
        requires
            i32::MIN <= old(self).0 + amount <= i32::MAX,
        ensures
            final(self).0 == old(self).0 + amount,
    {
        self.0 += amount;
    }
}

/// A creature that walks its rounds.
#[derive(Debug, Copy, Clone, PartialEq, Eq, Structural)]
pub struct Enemy;

impl Enemy {
    /// The direction that follows `curr` on an enemy's round: down, right,
    /// up, left and down again. An enemy that stands still sets out
    /// upwards.
    pub open spec fn spec_next_direction(curr: Direction) -> Direction {
        match curr {
            Direction::Down => Direction::Right,
            Direction::Right => Direction::Up,
            Direction::Up => Direction::Left,
            Direction::Left => Direction::Down,
            Direction::Still => Direction::Up,
        }
    }

    #[verifier::when_used_as_spec(spec_next_direction)]
    pub fn next_direction(curr: Direction) -> (next: Direction)
        ensures
            next == Self::spec_next_direction(curr),
    {
        match curr {
            Direction::Down => Direction::Right,
            Direction::Right => Direction::Up,
            Direction::Up => Direction::Left,
            Direction::Left => Direction::Down,
            _ => Direction::Up,
        }
    }
}

/// Hit points that an enemy loses each time the enemies are hurt.
pub const ENEMY_DAMAGE: i32 = 50;

/// How far a spell reaches from the tile it is cast on.
pub const SPELL_RADIUS: u32 = 2;

/// What can be cast.
#[derive(Debug, Copy, Clone, PartialEq, Eq, Structural)]
pub enum Spell {
    Fireball,
    Heal,
}

impl Spell {
    /// What the spell does to the hit points of a creature it reaches: a
    /// fireball takes ten, healing gives ten.
    pub open spec fn spec_effect(&self) -> i32 {
        match self {
            Spell::Fireball => -10i32,
            Spell::Heal => 10i32,
        }
    }

    #[verifier::when_used_as_spec(spec_effect)]
    pub fn effect(&self) -> (change: i32)
        ensures
            change == self.spec_effect(),
    {
        match self {
            Spell::Fireball => -10,
            Spell::Heal => 10,
        }
    }

    /// Works the spell on a creature.
    pub fn take_action(&self, health: &mut Health)
        requires
            i32::MIN <= old(health).0 + self.effect() <= i32::MAX,
        ensures
            final(health).0 == old(health).0 + self.effect(),
    {
        match self {
            Spell::Fireball => health.damage(10),
            Spell::Heal => health.heal(10),
        }
    }

    /// Whether a spell cast on `position` reaches a creature on `target`:
    /// the target lies in the circle of the spell's radius about the
    /// position.
    pub fn reaches(position: &Point, target: &Point) -> (b: bool)
        ensures
            b == in_circle(*position, SPELL_RADIUS as int, *target),
    {
        let d: i64 = target.y as i64 - position.y as i64;
        let across: i64 = target.x as i64 - position.x as i64;
        let half: i64 = if d == -2 || d == 2 { 1 } else { 2 };
        -2 <= d && d <= 2 && -half <= across && across <= half
    }
}

} // verus!
