//! A register of collisions between creatures. A collision is between two
//! creatures, is handed out once, and is forgotten after a second.

use vstd::prelude::*;

verus! {

/// How long a collision is remembered, in nanoseconds.
pub const COLLIDE_TIME: u128 = 1_000_000_000;

/// Two creatures, known by their numbers, that have run into each other.
#[derive(Debug, Copy, Clone, PartialEq, Eq, Structural)]
pub struct Collision {
    pub entity1: u64,
    pub entity2: u64,
    /// The collision has been handed out.
    pub processed: bool,
    /// For how long the collision has been known, in nanoseconds; never
    /// more than `COLLIDE_TIME`.
    pub elapsed: u128,
}

impl Collision {
    pub fn new(entity1: u64, entity2: u64) -> (c: Self)
        ensures
            c == (Collision { entity1, entity2, processed: false, elapsed: 0 }),
    {
        Self { entity1, entity2, processed: false, elapsed: 0 }
    }

    /// The other creature of the collision, where `from` is one of the
    /// two and the collision has not been handed out.
    pub open spec fn spec_colliding_with(&self, from: u64) -> Option<u64> {
        if self.processed {
            None
        } else if self.entity1 == from {
            Some(self.entity2)
        } else if self.entity2 == from {
            Some(self.entity1)
        } else {
            None
        }
    }

    #[verifier::when_used_as_spec(spec_colliding_with)]
    pub fn colliding_with(&self, from: u64) -> (other: Option<u64>)
        ensures
            other == self.spec_colliding_with(from),
    {
        if !self.processed {
            if self.entity1 == from {
                return Some(self.entity2);
            } else if self.entity2 == from {
                return Some(self.entity1);
            }
        }
        None
    }

    /// The collision is between these two creatures, in either order.
    pub open spec fn spec_has_entities(&self, entity1: u64, entity2: u64) -> bool {
        (self.entity1 == entity1 && self.entity2 == entity2) || (self.entity2 == entity1
            && self.entity1 == entity2)
    }

    #[verifier::when_used_as_spec(spec_has_entities)]
    pub fn has_entities(&self, entity1: u64, entity2: u64) -> (b: bool)
        ensures
            b == self.spec_has_entities(entity1, entity2),
    {
        (self.entity1 == entity1 && self.entity2 == entity2) || (self.entity2 == entity1
            && self.entity1 == entity2)
    }

    /// The collision has been known for as long as collisions are
    /// remembered.
    pub open spec fn spec_finished(&self) -> bool {
        self.elapsed >= COLLIDE_TIME
    }

    #[verifier::when_used_as_spec(spec_finished)]
    pub fn finished(&self) -> (b: bool)
        ensures
            b == self.spec_finished(),
    {
        self.elapsed >= COLLIDE_TIME
    }

    /// The collision after `delta` more nanoseconds: a collision that is
    /// not finished grows older, up to the time that collisions are
    /// remembered for.
    pub open spec fn aged(self, delta: u128) -> Collision {
        if self.elapsed >= COLLIDE_TIME || self.elapsed + delta >= COLLIDE_TIME {
            Collision { elapsed: COLLIDE_TIME, ..self }
        } else {
            Collision { elapsed: (self.elapsed + delta) as u128, ..self }
        }
    }

    /// Lets `delta` nanoseconds pass.
    pub fn tick(&mut self, delta: u128)
        ensures
            *final(self) == old(self).aged(delta),
    {
        if self.elapsed >= COLLIDE_TIME || delta >= COLLIDE_TIME - self.elapsed {
            self.elapsed = COLLIDE_TIME;
        } else {
            self.elapsed = self.elapsed + delta;
        }
    }

    /// The collision marked as handed out, where it involves `from` and
    /// was not handed out before.
    pub open spec fn handed_to(self, from: u64) -> Collision {
        if self.colliding_with(from) is Some {
            Collision { processed: true, ..self }
        } else {
            self
        }
    }
}

/// Some collision of the list is between these two creatures.
pub open spec fn known(collisions: Seq<Collision>, entity1: u64, entity2: u64) -> bool {
    exists|i: int|
        0 <= i < collisions.len() && (#[trigger] collisions[i]).has_entities(entity1, entity2)
}

/// No two collisions of the list are between the same two creatures.
pub open spec fn distinct(collisions: Seq<Collision>) -> bool {
    forall|i: int, j: int|
        #![trigger collisions[i], collisions[j]]
        0 <= i < j < collisions.len() ==> !collisions[i].has_entities(
            collisions[j].entity1,
            collisions[j].entity2,
        )
}

/// The first `n` collisions of the list after `delta` more nanoseconds:
/// each has grown older, and those that are finished are gone.
pub open spec fn remembered(collisions: Seq<Collision>, delta: u128, n: int) -> Seq<Collision>
    decreases n,
{
    if n <= 0 {
        Seq::empty()
    } else {
        let older = collisions[n - 1].aged(delta);
        remembered(collisions, delta, n - 1) + (if older.finished() {
            Seq::empty()
        } else {
            seq![older]
        })
    }
}

/// The creatures that the first `n` collisions of the list hand out to
/// `from`, in order.
pub open spec fn others(collisions: Seq<Collision>, from: u64, n: int) -> Seq<u64>
    decreases n,
{
    if n <= 0 {
        Seq::empty()
    } else {
        others(collisions, from, n - 1) + (match collisions[n - 1].colliding_with(from) {
            Some(other) => seq![other],
            None => Seq::empty(),
        })
    }
}

/// The collisions that are known.
#[derive(Debug)]
pub struct Collisions {
    pub collisions: Vec<Collision>,
}

impl Collisions {
    pub fn new() -> (register: Self)
        ensures
            register.collisions@ == Seq::<Collision>::empty(),
    {
        Self { collisions: Vec::new() }
    }

    /// Adds the collision if the two entities are not already colliding
    pub fn try_add(&mut self, entity1: u64, entity2: u64)
        ensures
            final(self).collisions@ == (if known(old(self).collisions@, entity1, entity2) {
                old(self).collisions@
            } else {
                old(self).collisions@.push(
                    Collision { entity1, entity2, processed: false, elapsed: 0 },
                )
            }),
            distinct(old(self).collisions@) ==> distinct(final(self).collisions@),
    {
        let mut i: usize = 0;
        while i < self.collisions.len()
            invariant
                0 <= i <= self.collisions@.len(),
                self.collisions@ == old(self).collisions@,
                forall|j: int|
                    0 <= j < i ==> !(#[trigger] self.collisions@[j]).has_entities(
                        entity1,
                        entity2,
                    ),
            decreases self.collisions@.len() - i,
        {
            if self.collisions[i].has_entities(entity1, entity2) {
                return ;
            }
            i += 1;
        }
        self.collisions.push(Collision::new(entity1, entity2));
    }

    /// Processes the timer of each collision
    pub fn process_timers(&mut self, duration: u128)
        ensures
            final(self).collisions@ == remembered(
                old(self).collisions@,
                duration,
                old(self).collisions@.len() as int,
            ),
            distinct(old(self).collisions@) ==> distinct(final(self).collisions@),
    {
        proof {
            if distinct(self.collisions@) {
                lemma_remembered_distinct(
                    self.collisions@,
                    duration,
                    self.collisions@.len() as int,
                );
            }
        }
        let mut kept: Vec<Collision> = Vec::new();
        let mut i: usize = 0;
        while i < self.collisions.len()
            invariant
                0 <= i <= self.collisions@.len(),
                self.collisions@ == old(self).collisions@,
                kept@ == remembered(self.collisions@, duration, i as int),
            decreases self.collisions@.len() - i,
        {
            let mut c: Collision = self.collisions[i];
            c.tick(duration);
            if !c.finished() {
                kept.push(c);
            }
            proof {
                assert(kept@ =~= remembered(self.collisions@, duration, i + 1));
            }
            i += 1;
        }
        self.collisions = kept;
    }

    /// Find all entities (from: Entity) is colliding with. Marks all those collisions as processed,
    /// meaning they wont be returned until the collision is removed from the system.
    pub fn colliding_with(&mut self, from: u64) -> (entities: Vec<u64>)
        ensures
            entities@ == others(old(self).collisions@, from, old(self).collisions@.len() as int),
            final(self).collisions@ == old(self).collisions@.map_values(
                |c: Collision| c.handed_to(from),
            ),
            distinct(old(self).collisions@) ==> distinct(final(self).collisions@),
    {
        let mut entities: Vec<u64> = Vec::new();
        let ghost before = self.collisions@;
        let mut i: usize = 0;
        while i < self.collisions.len()
            invariant
                0 <= i <= self.collisions@.len(),
                before == old(self).collisions@,
                self.collisions@.len() == before.len(),
                entities@ == others(before, from, i as int),
                forall|j: int| 0 <= j < i ==> #[trigger] self.collisions@[j] == before[j].handed_to(from),
                forall|j: int| i <= j < before.len() ==> #[trigger] self.collisions@[j] == before[j],
            decreases self.collisions@.len() - i,
        {
            let mut c: Collision = self.collisions[i];
            if let Some(e) = c.colliding_with(from) {
                entities.push(e);
                c.processed = true;
                self.collisions.set(i, c);
            }
            proof {
                assert(entities@ =~= others(before, from, i + 1));
            }
            i += 1;
        }
        proof {
            assert(self.collisions@ =~= before.map_values(|c: Collision| c.handed_to(from)));
        }
        entities
    }
}

/// Each collision that is remembered is one that was known, a little
/// older.
pub proof fn lemma_remembered_known(collisions: Seq<Collision>, delta: u128, n: int)
    requires
        0 <= n <= collisions.len(),
    ensures
        forall|k: int|
            0 <= k < remembered(collisions, delta, n).len() ==> exists|i: int|
                0 <= i < n && #[trigger] remembered(collisions, delta, n)[k] == (
                #[trigger] collisions[i]).aged(delta),
    decreases n,
{
    if n > 0 {
        lemma_remembered_known(collisions, delta, n - 1);
        let shorter = remembered(collisions, delta, n - 1);
        let longer = remembered(collisions, delta, n);
        assert forall|k: int| 0 <= k < longer.len() implies exists|i: int|
            0 <= i < n && #[trigger] longer[k] == (#[trigger] collisions[i]).aged(delta) by {
            if k < shorter.len() {
                assert(longer[k] == shorter[k]);
                let i = choose|i: int|
                    0 <= i < n - 1 && #[trigger] shorter[k] == (#[trigger] collisions[i]).aged(
                        delta,
                    );
                assert(longer[k] == collisions[i].aged(delta));
            } else {
                assert(longer[k] == collisions[n - 1].aged(delta));
            }
        }
    }
}

/// Time takes collisions away and brings none: where no two collisions
/// were between the same two creatures before, none are after.
pub proof fn lemma_remembered_distinct(collisions: Seq<Collision>, delta: u128, n: int)
    requires
        distinct(collisions),
        0 <= n <= collisions.len(),
    ensures
        distinct(remembered(collisions, delta, n)),
    decreases n,
{
    if n > 0 {
        lemma_remembered_distinct(collisions, delta, n - 1);
        lemma_remembered_known(collisions, delta, n - 1);
        let shorter = remembered(collisions, delta, n - 1);
        let longer = remembered(collisions, delta, n);
        assert forall|i: int, j: int|
            #![trigger longer[i], longer[j]]
            0 <= i < j < longer.len() implies !longer[i].has_entities(
            longer[j].entity1,
            longer[j].entity2,
        ) by {
            if j < shorter.len() {
                assert(longer[i] == shorter[i] && longer[j] == shorter[j]);
            } else {
                assert(longer[i] == shorter[i]);
                let h = choose|h: int|
                    0 <= h < n - 1 && #[trigger] shorter[i] == (#[trigger] collisions[h]).aged(
                        delta,
                    );
                assert(!collisions[h].has_entities(
                    collisions[n - 1].entity1,
                    collisions[n - 1].entity2,
                ));
            }
        }
    }
}

} // verus!
