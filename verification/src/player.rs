//! The player's coarse state, as the gameplay loop and the renderer see
//! it. Movement, animation timing and drawing live with the engine; the
//! core only distinguishes these states.

use vstd::prelude::*;

verus! {

/// What the player is currently doing; `Dead` ends the game for them.
#[derive(Debug, Clone, Copy, PartialEq, Eq, Hash, Structural)]
pub enum PlayerState {
    Idle,
    Run,
    Hurt,
    Dead,
}

impl PlayerState {
    /// Only the `Dead` state takes the player out of the game.
    pub fn is_dead(self) -> (b: bool)
        ensures
            b == (self is Dead),
    {
        matches!(self, PlayerState::Dead)
    }
}

} // verus!
