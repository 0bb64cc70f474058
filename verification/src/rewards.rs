//! Point-of-interest entities bound to maze cells.
//!
//! A reward is placed on a lattice cell during maze setup and never moves.
//! `malus` distinguishes penalties from bonuses; `found` starts false and
//! flips to true at most once, when the player first occupies the cell.

use vstd::prelude::*;

use crate::maze::CellIndex;

verus! {

/// A reward (or penalty) tile bound to one grid cell.
#[derive(Debug, Clone, Copy, PartialEq, Eq, Structural)]
pub struct Reward {
    pub malus: bool,
    pub found: bool,
    pub pos: CellIndex,
}

/// The given reward with its `found` flag set, everything else unchanged.
pub open spec fn spec_found(r: Reward) -> Reward {
    Reward { found: true, ..r }
}

impl Reward {
    /// A fresh, not yet found reward at `pos`; a penalty iff `malus`.
    pub fn new(pos: CellIndex, malus: bool) -> (r: Reward)
        ensures
            r.pos == pos,
            r.malus == malus,
            !r.found,
    {
        Reward { malus, found: false, pos }
    }

    /// The cell this reward is bound to.
    pub fn pos(&self) -> (p: &CellIndex)
        ensures
            p == self.pos,
    {
        &self.pos
    }

    /// Marks the reward as found. Flips the single flag and nothing else,
    /// so marking an already found reward changes nothing.
    pub fn mark_found(&mut self)
        ensures
            *final(self) == spec_found(*old(self)),
    {
        self.found = true;
    }
}

} // verus!
