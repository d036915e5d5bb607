use vstd::prelude::*;

use crate::cell::Cell;
use crate::coordinate::Coordinate;
use crate::player::Player;
use crate::state::{offset_board, spec_board_offset, State};

verus! {

/// Number of mill lines on the board.
pub const MILLS: usize = 16;

/// The `k`-th position (in increasing order) of mill line `m`: lines 0 to 11
/// run along the sides of the rings, four per ring; lines 12 to 15 are the
/// spokes through the odd slots.
pub open spec fn mill_cell(m: int, k: int) -> int {
    if m < 12 {
        let ring = m / 4;
        let side = m % 4;
        if side < 3 {
            8 * ring + 2 * side + k
        } else if k == 0 {
            8 * ring
        } else {
            8 * ring + 5 + k
        }
    } else {
        8 * k + 2 * (m - 12) + 1
    }
}

/// Whether position `c` lies on mill line `m`.
pub open spec fn on_mill(m: int, c: int) -> bool {
    mill_cell(m, 0) == c || mill_cell(m, 1) == c || mill_cell(m, 2) == c
}

/// Whether `before` lists mill line `m`.
pub open spec fn listed(before: Seq<Mill>, m: int) -> bool {
    exists|k: int| 0 <= k < before.len() && (#[trigger] before[k]).idx() == m
}

/// One of the 16 lines of three positions.
#[derive(Debug, Clone, Copy, PartialEq, Eq, Hash, Structural)]
pub struct Mill {
    index: usize,
}

impl Mill {
    pub closed spec fn idx(self) -> int {
        self.index as int
    }

    pub open spec fn wf(self) -> bool {
        0 <= self.idx() < 16
    }

    pub fn new(index: usize) -> (r: Mill)
        requires
            index < MILLS,
        ensures
            r.idx() == index,
            r.wf(),
    {
        Mill { index }
    }

    /// The three bits of this line in the given player's occupancy bitset.
    pub fn as_mask(&self, player: Player) -> (r: u64)
        requires
            self.wf(),
        ensures
            r == (1u64 << ((mill_cell(self.idx(), 0) + spec_board_offset(player)) as u64)) | (1u64
                << ((mill_cell(self.idx(), 1) + spec_board_offset(player)) as u64)) | (1u64 << ((
            mill_cell(self.idx(), 2) + spec_board_offset(player)) as u64)),
    {
        let coordinates = self.get_coordinates();
        coordinates[0].as_mask(player) | coordinates[1].as_mask(player) | coordinates[2].as_mask(
            player,
        )
    }

    /// The three positions of the line, in increasing order.
    pub fn get_coordinates(&self) -> (r: Vec<Coordinate>)
        requires
            self.wf(),
        ensures
            r.len() == 3,
            forall|k: int| 0 <= k < 3 ==> (#[trigger] r@[k]).wf() && r@[k].idx() == mill_cell(self.idx(), k),
    {
        let m = self.index;
        if m < 12 {
            let ring = (m / 4) as u8;
            let side = (m % 4) as u8;
            if side < 3 {
                vec![
                    Coordinate::new(ring, 2 * side),
                    Coordinate::new(ring, 2 * side + 1),
                    Coordinate::new(ring, 2 * side + 2),
                ]
            } else {
                vec![Coordinate::new(ring, 0), Coordinate::new(ring, 6), Coordinate::new(ring, 7)]
            }
        } else {
            let slot = (2 * (m - 12) + 1) as u8;
            vec![Coordinate::new(0, slot), Coordinate::new(1, slot), Coordinate::new(2, slot)]
        }
    }
}

/// Whether `v` holds a mill equal to `mill`.
fn contains_mill(v: &Vec<Mill>, mill: &Mill) -> (r: bool)
    ensures
        r == listed(v@, mill.idx()),
{
    let mut i: usize = 0;
    while i < v.len()
        invariant
            i <= v.len(),
            forall|k: int| 0 <= k < i ==> (#[trigger] v@[k]).idx() != mill.idx(),
        decreases v.len() - i,
    {
        if v[i] == *mill {
            return true;
        }
        i = i + 1;
    }
    false
}

/// Whether `v` holds a coordinate with the index of `c`.
fn contains_coordinate(v: &Vec<Coordinate>, c: &Coordinate) -> (r: bool)
    ensures
        r == exists|k: int| 0 <= k < v.len() && (#[trigger] v@[k]).idx() == c.idx(),
{
    let mut i: usize = 0;
    while i < v.len()
        invariant
            i <= v.len(),
            forall|k: int| 0 <= k < i ==> (#[trigger] v@[k]).idx() != c.idx(),
        decreases v.len() - i,
    {
        if v[i].index() == c.index() {
            return true;
        }
        i = i + 1;
    }
    false
}

/// Whether `v` holds `s`.
pub fn contains_state(v: &Vec<State>, s: &State) -> (r: bool)
    ensures
        r == v@.contains(*s),
{
    let mut i: usize = 0;
    while i < v.len()
        invariant
            i <= v.len(),
            forall|k: int| 0 <= k < i ==> v@[k] != *s,
        decreases v.len() - i,
    {
        if v[i] == *s {
            return true;
        }
        i = i + 1;
    }
    false
}

/// Appends to `out` each state of `items` that it does not hold yet.
pub fn merge_states(out: &mut Vec<State>, items: &Vec<State>)
    requires
        old(out)@.no_duplicates(),
    ensures
        final(out)@.no_duplicates(),
        forall|t: State| #[trigger] final(out)@.contains(t) <==> (old(out)@.contains(t) || items@.contains(t)),
        forall|k: int| 0 <= k < final(out).len() ==> old(out)@.contains(#[trigger] final(out)@[k]) || items@.contains(final(out)@[k]),
{
    let mut i: usize = 0;
    while i < items.len()
        invariant
            i <= items.len(),
            out@.no_duplicates(),
            forall|t: State| #[trigger] out@.contains(t) <==> (old(out)@.contains(t) || exists|j: int| 0 <= j < i && items@[j] == t),
        decreases items.len() - i,
    {
        let ghost before = out@;
        if !contains_state(out, &items[i]) {
            out.push(items[i]);
            proof {
                assert forall|t: State| #[trigger] out@.contains(t) <==> (before.contains(t) || t == items@[i as int]) by {
                    if out@.contains(t) {
                        let k = choose|k: int| 0 <= k < out.len() && out@[k] == t;
                        if k < before.len() {
                            assert(before[k] == t);
                        }
                    }
                    if before.contains(t) {
                        let k = choose|k: int| 0 <= k < before.len() && before[k] == t;
                        assert(out@[k] == t);
                    }
                    if t == items@[i as int] {
                        assert(out@[out.len() - 1] == t);
                    }
                }
            }
        }
        i = i + 1;
    }
    proof {
        assert forall|t: State| #[trigger] out@.contains(t) <==> (old(out)@.contains(t) || items@.contains(t)) by {
            if items@.contains(t) {
                let j = choose|j: int| 0 <= j < items.len() && items@[j] == t;
            }
        }
        assert forall|k: int| 0 <= k < out.len() implies old(out)@.contains(#[trigger] out@[k]) || items@.contains(out@[k]) by {
            assert(out@.contains(out@[k]));
        }
    }
}

impl State {
    /// All three positions of line `m` hold the player's stones.
    pub open spec fn mill_formed(self, p: Player, m: int) -> bool {
        &&& self.cell(mill_cell(m, 0)) == p.spec_stone()
        &&& self.cell(mill_cell(m, 1)) == p.spec_stone()
        &&& self.cell(mill_cell(m, 2)) == p.spec_stone()
    }

    /// Position `c` lies on one of the player's completed mills.
    #[verifier::opaque]
    pub open spec fn in_mill(self, p: Player, c: int) -> bool {
        exists|m: int| 0 <= m < 16 && #[trigger] self.mill_formed(p, m) && on_mill(m, c)
    }

    /// Every stone of the player lies on one of their completed mills.
    #[verifier::opaque]
    pub open spec fn all_in_mills(self, p: Player) -> bool {
        forall|c: int| 0 <= c < 24 && #[trigger] self.cell(c) == p.spec_stone() ==> self.in_mill(p, c)
    }

    /// A stone of player `o` at `c` may be taken: stones outside `o`'s mills
    /// are taken first, and mill stones only when no other stone is left.
    #[verifier::opaque]
    pub open spec fn poundable(self, o: Player, c: int) -> bool {
        &&& 0 <= c < 24
        &&& self.cell(c) == o.spec_stone()
        &&& (self.all_in_mills(o) || !self.in_mill(o, c))
    }

    /// How many of the lines `0..n` are completed mills of the player.
    pub open spec fn mills_upto(self, p: Player, n: int) -> nat
        decreases n,
    {
        if n <= 0 {
            0
        } else {
            self.mills_upto(p, n - 1) + if self.mill_formed(p, n - 1) {
                1nat
            } else {
                0nat
            }
        }
    }

    /// The player's completed mills among the lines `0..n`, in increasing order.
    pub open spec fn mill_list(self, p: Player, n: int) -> Seq<int>
        decreases n,
    {
        if n <= 0 {
            Seq::empty()
        } else if self.mill_formed(p, n - 1) {
            self.mill_list(p, n - 1).push(n - 1)
        } else {
            self.mill_list(p, n - 1)
        }
    }

    /// How many of the lines `0..n` are completed mills of the player that
    /// `before` does not list.
    pub open spec fn new_mills_upto(self, p: Player, before: Seq<Mill>, n: int) -> nat
        decreases n,
    {
        if n <= 0 {
            0
        } else {
            self.new_mills_upto(p, before, n - 1) + if self.mill_formed(p, n - 1) && !listed(
                before,
                n - 1,
            ) {
                1nat
            } else {
                0nat
            }
        }
    }

    /// `t` is reached from this state by taking `n` stones of player `o`, one
    /// at a time, each among the stones that may be taken at that moment.
    pub open spec fn removal(self, o: Player, n: nat, t: State) -> bool
        decreases n,
    {
        if n == 0 {
            t == self
        } else {
            exists|c: int|
                self.poundable(o, c) && (#[trigger] self.with_cell(c, Cell::Empty)).removal(
                    o,
                    (n - 1) as nat,
                    t,
                )
        }
    }

    pub proof fn lemma_removal_wf(s: State, o: Player, n: nat, t: State)
        requires
            s.wf(),
            s.removal(o, n, t),
        ensures
            t.wf(),
        decreases n,
    {
        if n > 0 {
            let c = choose|c: int|
                s.poundable(o, c) && (#[trigger] s.with_cell(c, Cell::Empty)).removal(
                    o,
                    (n - 1) as nat,
                    t,
                );
            reveal(State::poundable);
            State::lemma_with_cell(s, c, Cell::Empty);
            State::lemma_removal_wf(s.with_cell(c, Cell::Empty), o, (n - 1) as nat, t);
        }
    }

    /// Taking `n` stones of `o` removes exactly `n` of them and changes
    /// nothing else: the other positions and both stashes are kept.
    pub proof fn lemma_removal_count(s: State, o: Player, n: nat, t: State)
        requires
            s.removal(o, n, t),
        ensures
            t.count(o) + n == s.count(o),
            forall|c: int| 0 <= c < 24 && s.cell(c) != o.spec_stone() ==> #[trigger] t.cell(c) == s.cell(c),
            forall|c: int| 0 <= c < 24 && t.cell(c) == o.spec_stone() ==> #[trigger] s.cell(c) == o.spec_stone(),
            forall|q: Player| #[trigger] t.stash(q) == s.stash(q),
        decreases n,
    {
        if n > 0 {
            let c = choose|c: int|
                s.poundable(o, c) && (#[trigger] s.with_cell(c, Cell::Empty)).removal(
                    o,
                    (n - 1) as nat,
                    t,
                );
            reveal(State::poundable);
            let u = s.with_cell(c, Cell::Empty);
            State::lemma_with_cell(s, c, Cell::Empty);
            State::lemma_count_clear(s, o, c, 24);
            State::lemma_removal_count(u, o, (n - 1) as nat, t);
        }
    }

    pub fn has_mill(&self, player: Player, mill: &Mill) -> (r: bool)
        requires
            mill.wf(),
        ensures
            r == self.mill_formed(player, mill.idx()),
    {
        let coordinates = mill.get_coordinates();
        let stone = player.stone();
        self.get(&coordinates[0]) == stone && self.get(&coordinates[1]) == stone && self.get(
            &coordinates[2],
        ) == stone
    }

    /// The player's completed mills, in increasing order of line.
    pub fn get_mills(&self, player: Player) -> (r: Vec<Mill>)
        ensures
            r.len() == self.mills_upto(player, 16),
            r.len() == self.mill_list(player, 16).len(),
            forall|k: int| 0 <= k < r.len() ==> #[trigger] r@[k].idx() == self.mill_list(player, 16)[k],
            r.len() <= 16,
            forall|k: int|
                0 <= k < r.len() ==> (#[trigger] r@[k]).wf() && self.mill_formed(player, r@[k].idx()),
            forall|k: int, l: int| 0 <= k < l < r.len() ==> r@[k].idx() < r@[l].idx(),
            forall|m: int| 0 <= m < 16 ==> (listed(r@, m) <==> self.mill_formed(player, m)),
    {
        let mut r: Vec<Mill> = Vec::new();
        let mut i: usize = 0;
        while i < MILLS
            invariant
                i <= 16,
                r.len() == self.mills_upto(player, i as int),
                r.len() == self.mill_list(player, i as int).len(),
                forall|k: int| 0 <= k < r.len() ==> #[trigger] r@[k].idx() == self.mill_list(player, i as int)[k],
                r.len() <= i,
                forall|k: int|
                    0 <= k < r.len() ==> (#[trigger] r@[k]).wf() && self.mill_formed(
                        player,
                        r@[k].idx(),
                    ) && r@[k].idx() < i,
                forall|k: int, l: int| 0 <= k < l < r.len() ==> r@[k].idx() < r@[l].idx(),
                forall|m: int| 0 <= m < i ==> (listed(r@, m) <==> self.mill_formed(player, m)),
            decreases 16 - i,
        {
            let mill = Mill::new(i);
            let ghost before = r@;
            if self.has_mill(player, &mill) {
                r.push(mill);
                proof {
                    assert(r@[r.len() - 1].idx() == i);
                    assert forall|m: int| 0 <= m < i + 1 implies (listed(r@, m) <==> self.mill_formed(player, m)) by {
                        if listed(before, m) {
                            let k = choose|k: int| 0 <= k < before.len() && (#[trigger] before[k]).idx() == m;
                            assert(r@[k] == before[k]);
                        }
                        if listed(r@, m) && m < i {
                            let k = choose|k: int| 0 <= k < r.len() && (#[trigger] r@[k]).idx() == m;
                            assert(k < before.len());
                            assert(before[k] == r@[k]);
                        }
                    }
                }
            } else {
                proof {
                    assert(r@ == before);
                    assert(!listed(r@, i as int));
                }
            }
            i = i + 1;
        }
        r
    }

    /// The positions of the player's completed mills: the three positions of
    /// each mill, mill after mill in increasing order of line. A position on
    /// two mills appears twice.
    pub fn get_mills_cells(&self, player: Player) -> (r: Vec<Coordinate>)
        ensures
            r.len() == 3 * self.mill_list(player, 16).len(),
            forall|j: int|
                0 <= j < r.len() ==> (#[trigger] r@[j]).wf() && r@[j].idx() == mill_cell(
                    self.mill_list(player, 16)[j / 3],
                    j % 3,
                ),
            forall|k: int| 0 <= k < r.len() ==> #[trigger] self.in_mill(player, r@[k].idx()),
            forall|c: int|
                0 <= c < 24 && self.in_mill(player, c) ==> exists|k: int|
                    0 <= k < r.len() && (#[trigger] r@[k]).idx() == c,
    {
        let mills = self.get_mills(player);
        let mut r: Vec<Coordinate> = Vec::new();
        let mut i: usize = 0;
        while i < mills.len()
            invariant
                i <= mills.len(),
                r.len() == 3 * i,
                forall|k: int| 0 <= k < mills.len() ==> (#[trigger] mills@[k]).wf(),
                forall|j: int|
                    0 <= j < r.len() ==> (#[trigger] r@[j]).wf() && r@[j].idx() == mill_cell(
                        mills@[j / 3].idx(),
                        j % 3,
                    ),
            decreases mills.len() - i,
        {
            let coordinates = mills[i].get_coordinates();
            let ghost before = r@;
            r.push(coordinates[0]);
            r.push(coordinates[1]);
            r.push(coordinates[2]);
            proof {
                assert forall|j: int| 0 <= j < r.len() implies (#[trigger] r@[j]).wf() && r@[j].idx() == mill_cell(
                    mills@[j / 3].idx(),
                    j % 3,
                ) by {
                    if j < 3 * i {
                        assert(r@[j] == before[j]);
                    } else {
                        assert(j / 3 == i && 0 <= j % 3 < 3 && j == 3 * i + j % 3);
                    }
                }
            }
            i = i + 1;
        }
        proof {
            reveal(State::in_mill);
            assert forall|k: int| 0 <= k < r.len() implies #[trigger] self.in_mill(player, r@[k].idx()) by {
                let m = mills@[k / 3].idx();
                assert(0 <= k % 3 < 3);
                assert(self.mill_formed(player, m) && on_mill(m, r@[k].idx()));
            }
            assert forall|c: int| 0 <= c < 24 && self.in_mill(player, c) implies exists|k: int|
                0 <= k < r.len() && (#[trigger] r@[k]).idx() == c by {
                let m = choose|m: int| 0 <= m < 16 && #[trigger] self.mill_formed(player, m) && on_mill(m, c);
                assert(listed(mills@, m));
                let k = choose|k: int| 0 <= k < mills.len() && (#[trigger] mills@[k]).idx() == m;
                let q: int = if mill_cell(m, 0) == c { 0 } else if mill_cell(m, 1) == c { 1 } else { 2 };
                let j = 3 * k + q;
                assert(j / 3 == k && j % 3 == q);
                assert(r@[j].idx() == c);
            }
        }
        r
    }

    /// The opponent stones that may be taken from `player`, in increasing
    /// order of position: those outside `player`'s completed mills, or all of
    /// them when every one lies on such a mill.
    pub fn get_poundable_cells(&self, player: Player) -> (r: Vec<Coordinate>)
        ensures
            forall|k: int| 0 <= k < r.len() ==> (#[trigger] r@[k]).wf() && self.poundable(player, r@[k].idx()),
            forall|k: int, l: int| 0 <= k < l < r.len() ==> r@[k].idx() < r@[l].idx(),
            forall|c: int|
                self.poundable(player, c) ==> exists|k: int|
                    0 <= k < r.len() && (#[trigger] r@[k]).idx() == c,
    {
        let stone = player.stone();
        let mill_cells = self.get_mills_cells(player);
        let mut spare = false;
        let mut i: u8 = 0;
        while i < 24
            invariant
                i <= 24,
                stone == player.spec_stone(),
                forall|k: int| 0 <= k < mill_cells.len() ==> (#[trigger] mill_cells@[k]).wf() && self.in_mill(player, mill_cells@[k].idx()),
                forall|c: int|
                    0 <= c < 24 && self.in_mill(player, c) ==> exists|k: int|
                        0 <= k < mill_cells.len() && (#[trigger] mill_cells@[k]).idx() == c,
                spare == exists|c: int| 0 <= c < i && #[trigger] self.cell(c) == stone && !self.in_mill(player, c),
            decreases 24 - i,
        {
            let coordinate = Coordinate::new_index(i);
            if self.get(&coordinate) == stone && !contains_coordinate(&mill_cells, &coordinate) {
                spare = true;
            }
            proof {
                if self.cell(i as int) == stone && self.in_mill(player, i as int) {
                    let k = choose|k: int| 0 <= k < mill_cells.len() && (#[trigger] mill_cells@[k]).idx() == i;
                }
            }
            i = i + 1;
        }
        proof {
            reveal(State::all_in_mills);
            assert(spare == !self.all_in_mills(player));
        }
        let mut r: Vec<Coordinate> = Vec::new();
        let mut i: u8 = 0;
        while i < 24
            invariant
                i <= 24,
                stone == player.spec_stone(),
                forall|k: int| 0 <= k < mill_cells.len() ==> (#[trigger] mill_cells@[k]).wf() && self.in_mill(player, mill_cells@[k].idx()),
                forall|c: int|
                    0 <= c < 24 && self.in_mill(player, c) ==> exists|k: int|
                        0 <= k < mill_cells.len() && (#[trigger] mill_cells@[k]).idx() == c,
                spare == !self.all_in_mills(player),
                forall|k: int|
                    0 <= k < r.len() ==> (#[trigger] r@[k]).wf() && self.poundable(player, r@[k].idx())
                        && r@[k].idx() < i,
                forall|k: int, l: int| 0 <= k < l < r.len() ==> r@[k].idx() < r@[l].idx(),
                forall|c: int|
                    0 <= c < i && self.poundable(player, c) ==> exists|k: int|
                        0 <= k < r.len() && (#[trigger] r@[k]).idx() == c,
            decreases 24 - i,
        {
            let coordinate = Coordinate::new_index(i);
            let ghost before = r@;
            let here = self.get(&coordinate);
            let on = contains_coordinate(&mill_cells, &coordinate);
            proof {
                if on {
                    let k = choose|k: int| 0 <= k < mill_cells.len() && (#[trigger] mill_cells@[k]).idx() == i;
                    assert(self.in_mill(player, mill_cells@[k].idx()));
                }
                if self.in_mill(player, i as int) {
                    let k = choose|k: int| 0 <= k < mill_cells.len() && (#[trigger] mill_cells@[k]).idx() == i;
                }
                assert(on == self.in_mill(player, i as int));
            }
            let keep = here == stone && (!spare || !on);
            proof {
                reveal(State::poundable);
                assert(keep == self.poundable(player, i as int));
            }
            if keep {
                r.push(coordinate);
                proof {
                    assert(r@[r.len() - 1].idx() == i);
                    assert forall|c: int| 0 <= c < i && self.poundable(player, c) implies exists|k: int|
                        0 <= k < r.len() && (#[trigger] r@[k]).idx() == c by {
                        let k = choose|k: int| 0 <= k < before.len() && (#[trigger] before[k]).idx() == c;
                        assert(r@[k] == before[k]);
                    }
                }
            }
            i = i + 1;
        }
        proof {
            reveal(State::poundable);
        }
        r
    }

    /// Every state reached by taking `count` stones of `opponent`, one at a
    /// time, each among the stones that may be taken at that moment; each
    /// state once.
    pub fn pound_stones(&self, opponent: Player, count: usize) -> (r: Vec<State>)
        ensures
            forall|t: State| #[trigger] r@.contains(t) <==> self.removal(opponent, count as nat, t),
            r@.no_duplicates(),
            self.wf() ==> forall|k: int| 0 <= k < r.len() ==> (#[trigger] r@[k]).wf(),
        decreases count,
    {
        if count == 0 {
            let mut r: Vec<State> = Vec::new();
            r.push(*self);
            proof {
                assert forall|t: State| #[trigger] r@.contains(t) <==> t == *self by {
                    if t == *self {
                        assert(r@[0] == t);
                    }
                }
            }
            return r;
        }
        let cells = self.get_poundable_cells(opponent);
        let mut out: Vec<State> = Vec::new();
        let mut i: usize = 0;
        while i < cells.len()
            invariant
                count > 0,
                i <= cells.len(),
                forall|k: int| 0 <= k < cells.len() ==> (#[trigger] cells@[k]).wf() && self.poundable(opponent, cells@[k].idx()),
                forall|c: int|
                    self.poundable(opponent, c) ==> exists|k: int|
                        0 <= k < cells.len() && (#[trigger] cells@[k]).idx() == c,
                out@.no_duplicates(),
                forall|t: State|
                    #[trigger] out@.contains(t) <==> exists|j: int|
                        #![trigger cells@[j]]
                        0 <= j < i && self.with_cell(cells@[j].idx(), Cell::Empty).removal(
                            opponent,
                            (count - 1) as nat,
                            t,
                        ),
            decreases cells.len() - i,
        {
            let mut next = *self;
            next.place(&cells[i], Cell::Empty);
            let sub = next.pound_stones(opponent, count - 1);
            let ghost before = out@;
            merge_states(&mut out, &sub);
            proof {
                assert forall|t: State|
                    #[trigger] out@.contains(t) <==> exists|j: int|
                        #![trigger cells@[j]]
                        0 <= j < i + 1 && self.with_cell(cells@[j].idx(), Cell::Empty).removal(
                            opponent,
                            (count - 1) as nat,
                            t,
                        ) by {
                    if sub@.contains(t) {
                        assert(next == self.with_cell(cells@[i as int].idx(), Cell::Empty));
                    }
                    if exists|j: int|
                        #![trigger cells@[j]]
                        0 <= j < i + 1 && self.with_cell(cells@[j].idx(), Cell::Empty).removal(
                            opponent,
                            (count - 1) as nat,
                            t,
                        ) {
                        let j = choose|j: int|
                            #![trigger cells@[j]]
                            0 <= j < i + 1 && self.with_cell(cells@[j].idx(), Cell::Empty).removal(
                                opponent,
                                (count - 1) as nat,
                                t,
                            );
                        if j == i {
                            assert(sub@.contains(t));
                        } else {
                            assert(before.contains(t));
                        }
                    }
                }
            }
            i = i + 1;
        }
        proof {
            assert forall|t: State| #[trigger] out@.contains(t) <==> self.removal(opponent, count as nat, t) by {
                if self.removal(opponent, count as nat, t) {
                    let c = choose|c: int|
                        self.poundable(opponent, c) && (#[trigger] self.with_cell(c, Cell::Empty)).removal(
                            opponent,
                            (count - 1) as nat,
                            t,
                        );
                    let k = choose|k: int| 0 <= k < cells.len() && (#[trigger] cells@[k]).idx() == c;
                    assert(self.with_cell(cells@[k].idx(), Cell::Empty).removal(opponent, (count - 1) as nat, t));
                }
                if out@.contains(t) {
                    let j = choose|j: int|
                        #![trigger cells@[j]]
                        0 <= j < i && self.with_cell(cells@[j].idx(), Cell::Empty).removal(
                            opponent,
                            (count - 1) as nat,
                            t,
                        );
                    let c = cells@[j].idx();
                    assert(self.poundable(opponent, c));
                    assert(self.with_cell(c, Cell::Empty).removal(opponent, (count - 1) as nat, t));
                }
            }
            if self.wf() {
                assert forall|k: int| 0 <= k < out.len() implies (#[trigger] out@[k]).wf() by {
                    assert(out@.contains(out@[k]));
                    State::lemma_removal_wf(*self, opponent, count as nat, out@[k]);
                }
            }
        }
        out
    }

    /// Resolves captures after a move of `player`: one opponent stone is
    /// taken for each completed mill of `player` that `mills_before` does not
    /// list.
    pub fn pound_mills(&self, player: Player, mills_before: &Vec<Mill>) -> (r: Vec<State>)
        ensures
            forall|t: State|
                #[trigger] r@.contains(t) <==> self.removal(
                    player.spec_opponent(),
                    self.new_mills_upto(player, mills_before@, 16),
                    t,
                ),
            r@.no_duplicates(),
            self.wf() ==> forall|k: int| 0 <= k < r.len() ==> (#[trigger] r@[k]).wf(),
    {
        let mut count: usize = 0;
        let mut i: usize = 0;
        while i < MILLS
            invariant
                i <= 16,
                count == self.new_mills_upto(player, mills_before@, i as int),
                count <= i,
            decreases 16 - i,
        {
            let mill = Mill::new(i);
            if self.has_mill(player, &mill) && !contains_mill(mills_before, &mill) {
                count = count + 1;
            }
            i = i + 1;
        }
        self.pound_stones(player.opponent(), count)
    }
}

} // verus!
