use vstd::prelude::*;

use crate::cell::Cell;

verus! {

/// One of the two symmetric sides of the game.
#[derive(Debug, Clone, Copy, PartialEq, Eq, Hash, Structural)]
pub enum Player {
    White,
    Black,
}

impl Player {
    pub open spec fn spec_opponent(self) -> Player {
        match self {
            Player::White => Player::Black,
            Player::Black => Player::White,
        }
    }

    /// The kind of cell that holds one of this player's stones.
    pub open spec fn spec_stone(self) -> Cell {
        match self {
            Player::White => Cell::White,
            Player::Black => Cell::Black,
        }
    }

    pub fn opponent(&self) -> (r: Player)
        ensures
            r == self.spec_opponent(),
            r.spec_opponent() == *self,
            r != *self,
    {
        match self {
            Player::White => Player::Black,
            Player::Black => Player::White,
        }
    }

    /// The one-letter name of the player.
    pub fn symbol(&self) -> (r: &'static str)
        ensures
            *self == Player::White ==> r@ == "w"@,
            *self == Player::Black ==> r@ == "b"@,
    {
        match self {
            Player::White => "w",
            Player::Black => "b",
        }
    }

    pub fn stone(&self) -> (r: Cell)
        ensures
            r == self.spec_stone(),
    {
        match self {
            Player::White => Cell::White,
            Player::Black => Cell::Black,
        }
    }
}

} // verus!
