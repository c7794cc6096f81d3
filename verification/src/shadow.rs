//! The shadows that walls cast over one octant of a field of view: angular
//! intervals with exact rational ends, kept in an ordered list.

use vstd::prelude::*;
use crate::common::Point;

verus! {

/// A slope `num / den` with `den > 0`: the tangent of an angle within an
/// octant, where 0 is the octant's axis and 1 its diagonal.
#[derive(Debug, Copy, Clone, PartialEq, Eq, Structural)]
pub struct Slope {
    pub num: u32,
    pub den: u32,
}

impl Slope {
    /// The slope is a fraction: it has a divisor.
    pub open spec fn wf(self) -> bool {
        0 < self.den
    }

    /// `self <= other` as fractions.
    pub open spec fn spec_le(self, other: Slope) -> bool {
        self.num * other.den <= other.num * self.den
    }

    /// `self < other` as fractions.
    pub open spec fn spec_lt(self, other: Slope) -> bool {
        self.num * other.den < other.num * self.den
    }

    #[verifier::when_used_as_spec(spec_le)]
    pub fn le(self, other: Slope) -> (b: bool)
        ensures
            b == self.spec_le(other),
    {
        assert(self.num * other.den <= u32::MAX * u32::MAX) by (nonlinear_arith)
            requires
                0 <= self.num <= u32::MAX,
                0 <= other.den <= u32::MAX,
        ;
        assert(other.num * self.den <= u32::MAX * u32::MAX) by (nonlinear_arith)
            requires
                0 <= other.num <= u32::MAX,
                0 <= self.den <= u32::MAX,
        ;
        self.num as u64 * other.den as u64 <= other.num as u64 * self.den as u64
    }

    #[verifier::when_used_as_spec(spec_lt)]
    pub fn lt(self, other: Slope) -> (b: bool)
        ensures
            b == self.spec_lt(other),
    {
        !other.le(self)
    }
}

/// The order of slopes is transitive.
pub proof fn lemma_le_transitive(a: Slope, b: Slope, c: Slope)
    requires
        a.wf(),
        b.wf(),
        c.wf(),
        a.le(b),
        b.le(c),
    ensures
        a.le(c),
{
    let (an, ad) = (a.num as int, a.den as int);
    let (bn, bd) = (b.num as int, b.den as int);
    let (cn, cd) = (c.num as int, c.den as int);
    assert(an * cd <= cn * ad) by (nonlinear_arith)
        requires
            an * bd <= bn * ad,
            bn * cd <= cn * bd,
            0 < ad,
            0 < bd,
            0 < cd,
            0 <= an,
            0 <= bn,
            0 <= cn,
    {
        assert((an * bd) * cd <= (bn * ad) * cd);
        assert((bn * cd) * ad <= (cn * bd) * ad);
        assert((an * cd) * bd <= (cn * ad) * bd);
    }
}

/// A strict step followed by a weak one is strict.
pub proof fn lemma_lt_le_transitive(a: Slope, b: Slope, c: Slope)
    requires
        a.wf(),
        b.wf(),
        c.wf(),
        a.lt(b),
        b.le(c),
    ensures
        a.lt(c),
{
    let (an, ad) = (a.num as int, a.den as int);
    let (bn, bd) = (b.num as int, b.den as int);
    let (cn, cd) = (c.num as int, c.den as int);
    assert(an * cd < cn * ad) by (nonlinear_arith)
        requires
            an * bd < bn * ad,
            bn * cd <= cn * bd,
            0 < ad,
            0 < bd,
            0 < cd,
            0 <= an,
            0 <= bn,
            0 <= cn,
    {
        assert((an * bd) * cd < (bn * ad) * cd);
        assert((bn * cd) * ad <= (cn * bd) * ad);
        assert((an * cd) * bd < (cn * ad) * bd);
    }
}

/// A weak step followed by a strict one is strict.
pub proof fn lemma_le_lt_transitive(a: Slope, b: Slope, c: Slope)
    requires
        a.wf(),
        b.wf(),
        c.wf(),
        a.le(b),
        b.lt(c),
    ensures
        a.lt(c),
{
    let (an, ad) = (a.num as int, a.den as int);
    let (bn, bd) = (b.num as int, b.den as int);
    let (cn, cd) = (c.num as int, c.den as int);
    assert(an * cd < cn * ad) by (nonlinear_arith)
        requires
            an * bd <= bn * ad,
            bn * cd < cn * bd,
            0 < ad,
            0 < bd,
            0 < cd,
            0 <= an,
            0 <= bn,
            0 <= cn,
    {
        assert((an * bd) * cd <= (bn * ad) * cd);
        assert((bn * cd) * ad < (cn * bd) * ad);
        assert((an * cd) * bd < (cn * ad) * bd);
    }
}

/// A point in an FOV octant: `x` is the distance from the viewer along the
/// octant's axis (the row), `y` the distance from the axis (the column).
/// Origin is 0, 0 no matter where the entity being calculated on is.
#[derive(Debug, Copy, Clone, PartialEq, Eq, Structural)]
pub struct OctantPoint(pub Point);

impl OctantPoint {
    pub fn new(x: i32, y: i32) -> (p: Self)
        ensures
            p == OctantPoint(Point { x, y }),
    {
        Self(Point::new(x, y))
    }
}

/// The interval that the tile in row `row`, column `col` of an octant takes
/// up, seen from the viewer: from `col / (row + 2)` to
/// `(col + 1) / (row + 1)`.
pub open spec fn tile_shadow(row: int, col: int) -> ShadowBorder {
    ShadowBorder {
        start: Slope { num: col as u32, den: (row + 2) as u32 },
        end: Slope { num: (col + 1) as u32, den: (row + 1) as u32 },
    }
}

/// The offset `(dx, dy)` on the map of the tile in row `row`, column `col`
/// of an octant. Octant 0 lies above the viewer, right of the vertical
/// axis; the others follow clockwise.
pub open spec fn octant_offset(octant: u8, row: int, col: int) -> (int, int) {
    if octant == 0 {
        (col, row)
    } else if octant == 1 {
        (row, col)
    } else if octant == 2 {
        (row, -col)
    } else if octant == 3 {
        (col, -row)
    } else if octant == 4 {
        (-col, -row)
    } else if octant == 5 {
        (-row, -col)
    } else if octant == 6 {
        (-row, col)
    } else {
        (-col, row)
    }
}

/// The angular interval from `start` to `end` that is in shadow.
#[derive(Debug, Copy, Clone, PartialEq, Eq, Structural)]
pub struct ShadowBorder {
    pub start: Slope,
    pub end: Slope,
}

impl ShadowBorder {
    /// Both ends are slopes, and the interval is not empty.
    pub open spec fn wf(self) -> bool {
        self.start.wf() && self.end.wf() && self.start.lt(self.end)
    }

    /// The interval that the tile in row `x`, column `y` of an octant takes
    /// up, seen from the viewer.
    pub open spec fn of_tile(point: OctantPoint) -> ShadowBorder {
        tile_shadow(point.0.x as int, point.0.y as int)
    }

    /// The interval that a tile of an octant takes up, seen from the
    /// viewer.
    pub fn new(point: OctantPoint) -> (border: Self)
        requires
            0 <= point.0.y <= point.0.x,
        ensures
            border == Self::of_tile(point),
            border.wf(),
    {
        let row: u32 = point.0.x as u32;
        let col: u32 = point.0.y as u32;
        assert(col * (row + 1) < (col + 1) * (row + 2)) by (nonlinear_arith)
            requires
                0 <= col <= row,
        ;
        Self {
            start: Slope { num: col, den: row + 2 },
            end: Slope { num: col + 1, den: row + 1 },
        }
    }

    /// `other` lies wholly inside this interval.
    pub open spec fn spec_contains(&self, other: &Self) -> bool {
        self.start.le(other.start) && other.end.le(self.end)
    }

    #[verifier::when_used_as_spec(spec_contains)]
    pub fn contains(&self, other: &Self) -> (b: bool)
        ensures
            b == self.spec_contains(other),
    {
        self.start.le(other.start) && other.end.le(self.end)
    }
}

/// Index of the first border from `from` on that does not start before
/// `start`; the length of the list where there is none.
pub open spec fn first_not_before(borders: Seq<ShadowBorder>, start: Slope, from: int) -> int
    decreases borders.len() - from,
{
    if from < 0 || from >= borders.len() || start.le(borders[from].start) {
        from
    } else {
        first_not_before(borders, start, from + 1)
    }
}

/// The list of shadows after one more shadow has been cast. The new shadow
/// goes where its start puts it. Where it overlaps the shadow before it,
/// the one after it, or both, it is merged with them.
pub open spec fn with_blocker(borders: Seq<ShadowBorder>, new_border: ShadowBorder) -> Seq<
    ShadowBorder,
> {
    let index = first_not_before(borders, new_border.start, 0);
    let overlapping_prev = index > 0 && new_border.start.lt(borders[index - 1].end);
    let overlapping_next = index < borders.len() && borders[index].start.lt(new_border.end);
    if overlapping_next {
        if overlapping_prev {
            borders.update(
                index - 1,
                ShadowBorder { start: borders[index - 1].start, end: borders[index].end },
            ).remove(index)
        } else {
            borders.update(
                index,
                ShadowBorder { start: new_border.start, end: borders[index].end },
            )
        }
    } else {
        if overlapping_prev {
            borders.update(
                index - 1,
                ShadowBorder { start: borders[index - 1].start, end: new_border.end },
            )
        } else {
            borders.insert(index, new_border)
        }
    }
}

/// Some shadow of the list hides the whole of `border`.
pub open spec fn hides(borders: Seq<ShadowBorder>, border: ShadowBorder) -> bool {
    exists|i: int| 0 <= i < borders.len() && (#[trigger] borders[i]).contains(&border)
}

/// The list is one shadow that spans the whole octant, from slope 0 to
/// slope 1.
pub open spec fn hides_all(borders: Seq<ShadowBorder>) -> bool {
    borders.len() == 1 && borders[0].start.num == 0 && borders[0].end.num >= borders[0].end.den
}

/// The shadows are proper intervals, in order, and none reaches into the
/// next.
pub open spec fn ordered(borders: Seq<ShadowBorder>) -> bool {
    &&& forall|i: int| 0 <= i < borders.len() ==> (#[trigger] borders[i]).wf()
    &&& forall|i: int|
        0 <= i < borders.len() - 1 ==> (#[trigger] borders[i]).end.le(borders[i + 1].start)
}

/// What `first_not_before` finds: every border before it starts before
/// `start`, and the border at it, if there is one, does not.
pub proof fn lemma_first_not_before(borders: Seq<ShadowBorder>, start: Slope, from: int)
    requires
        0 <= from <= borders.len(),
    ensures
        from <= first_not_before(borders, start, from) <= borders.len(),
        forall|j: int|
            from <= j < first_not_before(borders, start, from) ==> (#[trigger] borders[j]).start.lt(
                start,
            ),
        first_not_before(borders, start, from) < borders.len() ==> start.le(
            borders[first_not_before(borders, start, from)].start,
        ),
    decreases borders.len() - from,
{
    if from < borders.len() && !start.le(borders[from].start) {
        lemma_first_not_before(borders, start, from + 1);
    }
}

/// Casting one more shadow keeps the list in order: proper intervals, none
/// reaching into the next.
pub proof fn lemma_with_blocker_ordered(borders: Seq<ShadowBorder>, new_border: ShadowBorder)
    requires
        ordered(borders),
        new_border.wf(),
    ensures
        ordered(with_blocker(borders, new_border)),
{
    let index = first_not_before(borders, new_border.start, 0);
    lemma_first_not_before(borders, new_border.start, 0);
    let overlapping_prev = index > 0 && new_border.start.lt(borders[index - 1].end);
    let overlapping_next = index < borders.len() && borders[index].start.lt(new_border.end);
    let after = with_blocker(borders, new_border);
    if index > 0 {
        assert(borders[index - 1].wf());
        assert(borders[index - 1].start.lt(new_border.start));
    }
    if index < borders.len() {
        assert(borders[index].wf());
    }
    if overlapping_next {
        let next = borders[index];
        if overlapping_prev {
            let prev = borders[index - 1];
            assert(prev.end.le(next.start));
            lemma_lt_le_transitive(prev.start, prev.end, next.start);
            lemma_lt_le_transitive(prev.start, next.start, next.end);
            assert forall|i: int| 0 <= i < after.len() implies (#[trigger] after[i]).wf() by {
                if i < index - 1 {
                    assert(borders[i].wf());
                } else if i >= index {
                    assert(borders[i + 1].wf());
                }
            }
            assert forall|i: int| 0 <= i < after.len() - 1 implies (#[trigger] after[i]).end.le(
                after[i + 1].start,
            ) by {
                if i < index - 2 {
                    assert(borders[i].end.le(borders[i + 1].start));
                } else if i == index - 2 {
                    assert(borders[i].end.le(borders[i + 1].start));
                } else {
                    assert(borders[i + 1].end.le(borders[i + 2].start));
                }
            }
        } else {
            lemma_le_lt_transitive(new_border.start, next.start, next.end);
            assert forall|i: int| 0 <= i < after.len() implies (#[trigger] after[i]).wf() by {
                if i != index {
                    assert(borders[i].wf());
                }
            }
            assert forall|i: int| 0 <= i < after.len() - 1 implies (#[trigger] after[i]).end.le(
                after[i + 1].start,
            ) by {
                assert(borders[i].end.le(borders[i + 1].start));
            }
        }
    } else {
        if overlapping_prev {
            let prev = borders[index - 1];
            lemma_lt_le_transitive(prev.start, new_border.start, new_border.end);
            assert(prev.start.lt(new_border.end)) by {
                assert(new_border.start.lt(new_border.end));
                lemma_lt_le_transitive(prev.start, new_border.start, new_border.start);
                lemma_le_lt_transitive(prev.start, new_border.start, new_border.end);
            }
            assert forall|i: int| 0 <= i < after.len() implies (#[trigger] after[i]).wf() by {
                if i != index - 1 {
                    assert(borders[i].wf());
                }
            }
            assert forall|i: int| 0 <= i < after.len() - 1 implies (#[trigger] after[i]).end.le(
                after[i + 1].start,
            ) by {
                assert(borders[i].end.le(borders[i + 1].start));
            }
        } else {
            assert forall|i: int| 0 <= i < after.len() implies (#[trigger] after[i]).wf() by {
                if i < index {
                    assert(borders[i].wf());
                } else if i > index {
                    assert(borders[i - 1].wf());
                }
            }
            assert forall|i: int| 0 <= i < after.len() - 1 implies (#[trigger] after[i]).end.le(
                after[i + 1].start,
            ) by {
                if i < index - 1 {
                    assert(borders[i].end.le(borders[i + 1].start));
                } else if i > index {
                    assert(borders[i - 1].end.le(borders[i].start));
                }
            }
        }
    }
}

/// What lay in shadow stays in shadow: an interval that some shadow hid
/// is still hidden after a shadow that was not itself hidden has been cast.
pub proof fn lemma_with_blocker_keeps_hidden(
    borders: Seq<ShadowBorder>,
    new_border: ShadowBorder,
    target: ShadowBorder,
)
    requires
        ordered(borders),
        new_border.wf(),
        target.start.wf(),
        target.end.wf(),
        !hides(borders, new_border),
        hides(borders, target),
    ensures
        hides(with_blocker(borders, new_border), target),
{
    let index = first_not_before(borders, new_border.start, 0);
    lemma_first_not_before(borders, new_border.start, 0);
    let overlapping_prev = index > 0 && new_border.start.lt(borders[index - 1].end);
    let overlapping_next = index < borders.len() && borders[index].start.lt(new_border.end);
    let after = with_blocker(borders, new_border);
    let i = choose|i: int| 0 <= i < borders.len() && (#[trigger] borders[i]).contains(&target);
    assert(borders[i].wf());
    if index > 0 {
        assert(borders[index - 1].wf());
        assert(borders[index - 1].start.lt(new_border.start));
        assert(!borders[index - 1].contains(&new_border));
    }
    if index < borders.len() {
        assert(borders[index].wf());
    }
    if overlapping_next {
        let next = borders[index];
        if overlapping_prev {
            let prev = borders[index - 1];
            assert(prev.end.le(next.start));
            if i == index - 1 {
                lemma_le_transitive(prev.end, next.start, next.end);
                lemma_le_transitive(target.end, prev.end, next.end);
                assert(after[index - 1].contains(&target));
            } else if i == index {
                lemma_le_transitive(prev.start, prev.end, next.start);
                lemma_le_transitive(prev.start, next.start, target.start);
                assert(after[index - 1].contains(&target));
            } else if i < index - 1 {
                assert(after[i].contains(&target));
            } else {
                assert(after[i - 1].contains(&target));
            }
        } else {
            if i == index {
                lemma_le_transitive(new_border.start, next.start, target.start);
            }
            assert(after[i].contains(&target));
        }
    } else {
        if overlapping_prev {
            let prev = borders[index - 1];
            if i == index - 1 {
                lemma_le_transitive(target.end, prev.end, new_border.end);
            }
            assert(after[i].contains(&target));
        } else {
            if i < index {
                assert(after[i].contains(&target));
            } else {
                assert(after[i + 1].contains(&target));
            }
        }
    }
}

/// The shadows cast so far over one octant.
#[derive(Debug)]
pub struct BlockedFov {
    pub borders: Vec<ShadowBorder>,
}

impl BlockedFov {
    pub fn new() -> (blocked: Self)
        ensures
            blocked.borders@ == Seq::<ShadowBorder>::empty(),
    {
        Self { borders: Vec::new() }
    }

    /// Casts one more shadow. The shadow is expected to be one that no
    /// shadow cast before hides.
    pub fn add_blocker(&mut self, new_border: ShadowBorder)
        ensures
            final(self).borders@ == with_blocker(old(self).borders@, new_border),
    {
        let len: usize = self.borders.len();
        let mut index: usize = 0;
        while index < len && !new_border.start.le(self.borders[index].start)
            invariant
                0 <= index <= len,
                len == self.borders@.len(),
                self.borders@ == old(self).borders@,
                first_not_before(self.borders@, new_border.start, index as int) == first_not_before(
                    self.borders@,
                    new_border.start,
                    0,
                ),
            decreases len - index,
        {
            index += 1;
        }
        let overlapping_prev: bool = index > 0 && new_border.start.lt(self.borders[index - 1].end);
        let overlapping_next: bool = index < len && self.borders[index].start.lt(new_border.end);
        if overlapping_next {
            let next: ShadowBorder = self.borders[index];
            if overlapping_prev {
                let prev: ShadowBorder = self.borders[index - 1];
                self.borders.set(index - 1, ShadowBorder { start: prev.start, end: next.end });
                self.borders.remove(index);
            } else {
                self.borders.set(index, ShadowBorder { start: new_border.start, end: next.end });
            }
        } else {
            if overlapping_prev {
                let prev: ShadowBorder = self.borders[index - 1];
                self.borders.set(
                    index - 1,
                    ShadowBorder { start: prev.start, end: new_border.end },
                );
            } else {
                self.borders.insert(index, new_border);
            }
        }
    }

    /// Whether some shadow hides the whole of the interval.
    pub fn is_not_viewable(&self, tile_border: &ShadowBorder) -> (b: bool)
        ensures
            b == hides(self.borders@, *tile_border),
    {
        let mut i: usize = 0;
        while i < self.borders.len()
            invariant
                0 <= i <= self.borders@.len(),
                forall|j: int| 0 <= j < i ==> !(#[trigger] self.borders@[j]).contains(tile_border),
            decreases self.borders@.len() - i,
        {
            if self.borders[i].contains(tile_border) {
                return true;
            }
            i += 1;
        }
        false
    }

    /// Whether the whole octant lies in shadow.
    pub fn is_fully_blocked(&self) -> (b: bool)
        ensures
            b == hides_all(self.borders@),
    {
        self.borders.len() == 1 && self.borders[0].start.num == 0 && self.borders[0].end.num
            >= self.borders[0].end.den
    }

    /// The offset on the map of a point of an octant.
    pub open spec fn spec_rotate_for_octant(point: OctantPoint, octant: u8) -> OctantPoint {
        let (x, y) = octant_offset(octant, point.0.x as int, point.0.y as int);
        OctantPoint(Point { x: x as i32, y: y as i32 })
    }

    #[verifier::when_used_as_spec(spec_rotate_for_octant)]
    pub fn rotate_for_octant(point: OctantPoint, octant: u8) -> (rotated: OctantPoint)
        requires
            octant <= 7,
            i32::MIN < point.0.x,
            i32::MIN < point.0.y,
        ensures
            rotated == Self::spec_rotate_for_octant(point, octant),
    {
        let (x, y): (i32, i32) = match octant {
            0 => (point.0.y, point.0.x),
            1 => (point.0.x, point.0.y),
            2 => (point.0.x, -point.0.y),
            3 => (point.0.y, -point.0.x),
            4 => (-point.0.y, -point.0.x),
            5 => (-point.0.x, -point.0.y),
            6 => (-point.0.x, point.0.y),
            _ => (-point.0.y, point.0.x),
        };
        OctantPoint::new(x, y)
    }
}

} // verus!
