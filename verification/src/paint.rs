//! How a tile is painted, and which paint wins where two are asked for.

use vstd::prelude::*;

verus! {

/// How to paint a certain tile this frame.
#[derive(Debug, Copy, Clone, PartialEq, Eq, Structural)]
pub enum TilePaint {
    /// This tile is being painted with a color, given as `0xRRGGBBAA`, to
    /// indicate that the player is hovering over it.
    CursorDraw(u32),
    /// This tile is visible. Color is white.
    Visible,
    /// This tile has previously been seen.
    PreviouslySeen,
    /// This tile has not been seen yet.
    Invisible,
}

impl TilePaint {
    /// How strong the paint is: the cursor's paint covers every other,
    /// then come what is visible, what was seen before and what was
    /// never seen.
    pub open spec fn spec_rank(self) -> u8 {
        match self {
            TilePaint::CursorDraw(_) => 3,
            TilePaint::Visible => 2,
            TilePaint::PreviouslySeen => 1,
            TilePaint::Invisible => 0,
        }
    }

    #[verifier::when_used_as_spec(spec_rank)]
    pub fn rank(self) -> (r: u8)
        ensures
            r == self.spec_rank(),
    {
        match self {
            TilePaint::CursorDraw(_) => 3,
            TilePaint::Visible => 2,
            TilePaint::PreviouslySeen => 1,
            TilePaint::Invisible => 0,
        }
    }

    /// The paint that is left once a frame has been drawn: what was
    /// painted at all has been seen, what was not stays unseen.
    pub open spec fn spec_faded(self) -> TilePaint {
        if self == TilePaint::Invisible {
            TilePaint::Invisible
        } else {
            TilePaint::PreviouslySeen
        }
    }

    #[verifier::when_used_as_spec(spec_faded)]
    pub fn faded(self) -> (paint: Self)
        ensures
            paint == self.spec_faded(),
    {
        match self {
            TilePaint::Invisible => TilePaint::Invisible,
            _ => TilePaint::PreviouslySeen,
        }
    }

    /// The stronger of this paint and `new`; `new` where neither is
    /// stronger.
    pub fn greater_of(&self, new: Self) -> (paint: Self)
        ensures
            paint == (if self.rank() > new.rank() {
                *self
            } else {
                new
            }),
    {
        if self.rank() > new.rank() {
            *self
        } else {
            new
        }
    }
}

} // verus!
