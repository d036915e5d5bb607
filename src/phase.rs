use vstd::prelude::*;

use crate::player::Player;
use crate::state::State;

verus! {

/// The rule that governs a player's moves, derived from the state.
#[derive(Debug, Clone, Copy, PartialEq, Eq, Hash, Structural)]
pub enum Phase {
    /// Stones are left in the stash: place one on an empty position.
    Placing,
    /// Stash empty, more than three stones: slide a stone to a neighbour.
    Moving,
    /// Stash empty, three stones or fewer: move a stone anywhere.
    Flying,
}

impl Phase {
    pub fn name(&self) -> (r: &'static str)
        ensures
            *self == Phase::Placing ==> r@ == "placing"@,
            *self == Phase::Moving ==> r@ == "moving"@,
            *self == Phase::Flying ==> r@ == "flying"@,
    {
        match self {
            Phase::Placing => "placing",
            Phase::Moving => "moving",
            Phase::Flying => "flying",
        }
    }
}

impl State {
    pub open spec fn spec_phase(self, p: Player) -> Phase {
        if self.stash(p) > 0 {
            Phase::Placing
        } else if self.count(p) <= 3 {
            Phase::Flying
        } else {
            Phase::Moving
        }
    }

    pub fn phase(&self, player: Player) -> (r: Phase)
        ensures
            r == self.spec_phase(player),
            (r == Phase::Placing) == (self.stash(player) > 0),
            (r == Phase::Flying) == (self.stash(player) == 0 && self.count(player) <= 3),
            (r == Phase::Moving) == (self.stash(player) == 0 && self.count(player) > 3),
    {
        if self.has_stash(player) {
            Phase::Placing
        } else if self.count_stones(player) <= 3 {
            Phase::Flying
        } else {
            Phase::Moving
        }
    }
}

} // verus!
