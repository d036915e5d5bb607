use vstd::prelude::*;

use crate::player::Player;
use crate::state::{offset_board, spec_board_offset};

verus! {

/// Number of concentric rings.
pub const RINGS: u8 = 3;

/// Number of positions on each ring.
pub const SLOTS: u8 = 8;

/// Whether two flat positions are joined by a board line: neighbouring
/// slots of one ring, or the same odd slot on neighbouring rings.
pub open spec fn adjacent(a: int, b: int) -> bool {
    &&& 0 <= a < 24
    &&& 0 <= b < 24
    &&& {
        ||| (a / 8 == b / 8 && (b % 8 == (a % 8 + 1) % 8 || a % 8 == (b % 8 + 1) % 8))
        ||| (a % 8 == b % 8 && a % 2 == 1 && (a / 8 == b / 8 + 1 || b / 8 == a / 8 + 1))
    }
}

/// One of the 24 board positions, stored as `ring * 8 + slot`.
#[derive(Debug, Clone, Copy, PartialEq, Eq, Hash, Structural)]
pub struct Coordinate {
    index: u8,
}

impl Coordinate {
    /// The flat index of the position.
    pub closed spec fn idx(self) -> int {
        self.index as int
    }

    pub open spec fn wf(self) -> bool {
        0 <= self.idx() < 24
    }

    pub fn new(ring: u8, cell: u8) -> (r: Coordinate)
        requires
            ring < RINGS,
            cell < SLOTS,
        ensures
            r.idx() == ring * 8 + cell,
            r.wf(),
    {
        Coordinate { index: ring * SLOTS + cell }
    }

    /// The position with the given flat index.
    pub fn new_index(index: u8) -> (r: Coordinate)
        requires
            index < 24,
        ensures
            r.idx() == index,
            r.wf(),
    {
        Coordinate { index }
    }

    pub fn index(&self) -> (r: u8)
        ensures
            r == self.idx(),
    {
        self.index
    }

    /// The single bit of this position in the given player's occupancy bitset.
    pub fn as_mask(&self, player: Player) -> (r: u64)
        requires
            self.wf(),
        ensures
            r == 1u64 << ((self.idx() + spec_board_offset(player)) as u64),
    {
        1u64 << (self.index as u64 + offset_board(player))
    }

    pub fn ring(&self) -> (r: u8)
        ensures
            r == self.idx() / 8,
    {
        self.index / SLOTS
    }

    pub fn cell(&self) -> (r: u8)
        ensures
            r == self.idx() % 8,
    {
        self.index % SLOTS
    }

    /// The positions joined to this one by a board line: the two slots beside
    /// it on its ring, then, for an odd slot, the same slot on the inner and
    /// outer ring where they exist.
    pub fn neighbours(&self) -> (r: Vec<Coordinate>)
        requires
            self.wf(),
        ensures
            r@[0].idx() == self.idx() / 8 * 8 + (self.idx() % 8 + 7) % 8,
            r@[1].idx() == self.idx() / 8 * 8 + (self.idx() % 8 + 1) % 8,
            r.len() == 2 + if self.idx() % 2 == 1 {
                (if self.idx() >= 8 {
                    1int
                } else {
                    0int
                }) + (if self.idx() < 16 {
                    1int
                } else {
                    0int
                })
            } else {
                0int
            },
            self.idx() % 2 == 1 && self.idx() >= 8 ==> r@[2].idx() == self.idx() - 8,
            self.idx() % 2 == 1 && self.idx() < 16 ==> r@[r.len() - 1].idx() == self.idx() + 8,
            r@.no_duplicates(),
            2 <= r.len() <= 4,
            forall|i: int| 0 <= i < r.len() ==> (#[trigger] r@[i]).wf() && adjacent(self.idx(), r@[i].idx()),
            forall|d: int| adjacent(self.idx(), d) ==> exists|i: int| 0 <= i < r.len() && (#[trigger] r@[i]).idx() == d,
    {
        let ring = self.ring();
        let cell = self.cell();
        let mut vec = vec![
            Coordinate::new(ring, (cell + SLOTS - 1) % SLOTS),
            Coordinate::new(ring, (cell + 1) % SLOTS),
        ];
        if cell % 2 == 1 {
            if ring > 0 {
                vec.push(Coordinate::new(ring - 1, cell));
            }
            if ring < RINGS - 1 {
                vec.push(Coordinate::new(ring + 1, cell));
            }
        }
        proof {
            assert forall|b: int| adjacent(self.idx(), b) implies exists|i: int|
                0 <= i < vec.len() && (#[trigger] vec@[i]).idx() == b by {
                let a = self.idx();
                if a / 8 == b / 8 && b % 8 == (a % 8 + 1) % 8 {
                    assert(vec@[1].idx() == b);
                } else if a / 8 == b / 8 && a % 8 == (b % 8 + 1) % 8 {
                    assert(vec@[0].idx() == b);
                } else if a / 8 == b / 8 + 1 {
                    assert(vec@[2].idx() == b);
                } else {
                    assert(vec@[vec.len() - 1].idx() == b);
                }
            }
        }
        vec
    }
}

} // verus!
