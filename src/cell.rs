use vstd::prelude::*;

use crate::player::Player;

verus! {

/// What a board position holds.
#[derive(Debug, Clone, Copy, PartialEq, Eq, Hash, Structural)]
pub enum Cell {
    White,
    Black,
    Empty,
}

impl Cell {
    /// The one-letter symbol of the cell in a board drawing.
    pub fn symbol(&self) -> (r: &'static str)
        ensures
            *self == Cell::White ==> r@ == "w"@,
            *self == Cell::Black ==> r@ == "b"@,
            *self == Cell::Empty ==> r@ == " "@,
    {
        match self {
            Cell::White => "w",
            Cell::Black => "b",
            Cell::Empty => " ",
        }
    }

    /// The owner of a stone; `None` for an empty cell.
    pub fn owner(&self) -> (r: Option<Player>)
        ensures
            *self == Cell::Empty ==> r.is_none(),
            *self != Cell::Empty ==> r.is_some() && r.unwrap().spec_stone() == *self,
    {
        match self {
            Cell::White => Some(Player::White),
            Cell::Black => Some(Player::Black),
            Cell::Empty => None,
        }
    }
}

} // verus!
