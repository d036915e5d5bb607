use vstd::prelude::*;

use crate::cell::Cell;
use crate::coordinate::{adjacent, Coordinate};
use crate::player::Player;

verus! {

/// Stones each player holds in the stash at the start.
pub const FULL_STASH: u8 = 9;

/// Number of board positions.
pub const POSITIONS: u8 = 24;

/// Width mask of one stash field.
pub const STASH_FIELD: u64 = 0xff;

/// Bit offset of a player's occupancy bitset in the packed state.
pub open spec fn spec_board_offset(p: Player) -> u64 {
    match p {
        Player::White => 0,
        Player::Black => 24,
    }
}

/// Bit offset of a player's stash counter in the packed state.
pub open spec fn spec_stash_offset(p: Player) -> u64 {
    match p {
        Player::White => 48,
        Player::Black => 56,
    }
}

pub fn offset_board(player: Player) -> (r: u64)
    ensures
        r == spec_board_offset(player),
{
    match player {
        Player::White => 0,
        Player::Black => 24,
    }
}

pub fn offset_stash(player: Player) -> (r: u64)
    ensures
        r == spec_stash_offset(player),
{
    match player {
        Player::White => 48,
        Player::Black => 56,
    }
}

/// The bits of a player's stash counter.
pub fn mask_stash(player: Player) -> (r: u64)
    ensures
        r == STASH_FIELD << spec_stash_offset(player),
{
    STASH_FIELD << offset_stash(player)
}

/// Whether bit `i` of `x` is set.
pub open spec fn bit(x: u64, i: u64) -> bool {
    (x >> i) & 1u64 == 1u64
}

/// The eight-bit field of `x` that starts at bit `o`.
pub open spec fn field(x: u64, o: u64) -> u64 {
    (x >> o) & STASH_FIELD
}

proof fn lemma_bit_update(x: u64, q: u64, j: u64)
    by (bit_vector)
    requires
        q < 64,
        j < 64,
    ensures
        bit(x | (1u64 << q), j) == (j == q || bit(x, j)),
        bit(x & !(1u64 << q), j) == (j != q && bit(x, j)),
{
}

proof fn lemma_bit_test(x: u64, q: u64)
    by (bit_vector)
    requires
        q < 64,
    ensures
        (x & (1u64 << q) != 0) == bit(x, q),
{
}

proof fn lemma_field_untouched(x: u64, q: u64, o: u64)
    by (bit_vector)
    requires
        q < 48,
        o == 48 || o == 56,
    ensures
        field(x | (1u64 << q), o) == field(x, o),
        field(x & !(1u64 << q), o) == field(x, o),
{
}

proof fn lemma_field_update(x: u64, o: u64, other: u64, v: u64, j: u64)
    by (bit_vector)
    requires
        (o == 48 && other == 56) || (o == 56 && other == 48),
        v < 256,
        j < 48,
    ensures
        field((x & !(STASH_FIELD << o)) | (v << o), o) == v,
        field((x & !(STASH_FIELD << o)) | (v << o), other) == field(x, other),
        bit((x & !(STASH_FIELD << o)) | (v << o), j) == bit(x, j),
{
}

proof fn lemma_field_read(x: u64, o: u64)
    by (bit_vector)
    requires
        o == 48 || o == 56,
    ensures
        (x & (STASH_FIELD << o)) >> o == field(x, o),
        field(x, o) < 256,
{
}

proof fn lemma_zero(j: u64, o: u64)
    by (bit_vector)
    requires
        j < 64,
    ensures
        !bit(0u64, j),
        field(0u64, o) == 0,
{
}

/// The whole position: both occupancy bitsets and both stash counters,
/// packed in one 64-bit word. Bits 0 to 23 hold White's stones, bits 24 to
/// 47 Black's, bits 48 to 55 White's stash and bits 56 to 63 Black's stash.
/// Bit `c` of a bitset stands for the position with flat index `c`.
#[derive(Debug, Clone, Copy, PartialEq, Eq, Hash, Structural)]
pub struct State {
    bits: u64,
}

impl State {
    /// Whether the player's occupancy bit of position `c` is set.
    pub closed spec fn occupies(self, p: Player, c: int) -> bool {
        bit(self.bits, (spec_board_offset(p) + c) as u64)
    }

    /// What position `c` holds, as `get` reports it.
    pub open spec fn cell(self, c: int) -> Cell {
        if self.occupies(Player::White, c) {
            Cell::White
        } else if self.occupies(Player::Black, c) {
            Cell::Black
        } else {
            Cell::Empty
        }
    }

    /// The number of stones the player has not placed yet.
    pub closed spec fn stash(self, p: Player) -> nat {
        field(self.bits, spec_stash_offset(p)) as nat
    }

    /// No position is held by both players, and no stash exceeds its start.
    pub open spec fn wf(self) -> bool {
        &&& forall|c: int|
            0 <= c < 24 ==> !(#[trigger] self.occupies(Player::White, c) && self.occupies(
                Player::Black,
                c,
            ))
        &&& self.stash(Player::White) <= FULL_STASH
        &&& self.stash(Player::Black) <= FULL_STASH
    }

    /// The state after `place(c, v)`.
    pub closed spec fn with_cell(self, c: int, v: Cell) -> State {
        let mw = 1u64 << (c as u64);
        let mb = 1u64 << ((c + 24) as u64);
        let w = if v == Cell::White {
            self.bits | mw
        } else {
            self.bits & !mw
        };
        State { bits: if v == Cell::Black { w | mb } else { w & !mb } }
    }

    /// The state after `set_stash(n, p)`.
    pub closed spec fn with_stash(self, p: Player, n: nat) -> State {
        let o = spec_stash_offset(p);
        State { bits: (self.bits & !(STASH_FIELD << o)) | ((n as u64) << o) }
    }

    /// The integer that keys this state, a player to move and a depth in a
    /// transposition table.
    pub closed spec fn spec_key(self, p: Player, depth: u8) -> u128 {
        let side: int = if p == Player::White { 0 } else { 1 };
        (self.bits as int + side * 0x1_0000_0000_0000_0000 + depth as int * 0x2_0000_0000_0000_0000) as u128
    }

    pub proof fn lemma_with_cell(s: State, c: int, v: Cell)
        requires
            0 <= c < 24,
        ensures
            forall|p: Player, i: int|
                0 <= i < 24 ==> (#[trigger] s.with_cell(c, v).occupies(p, i)) == (if i == c {
                    v == p.spec_stone()
                } else {
                    s.occupies(p, i)
                }),
            forall|i: int|
                0 <= i < 24 ==> #[trigger] s.with_cell(c, v).cell(i) == (if i == c {
                    v
                } else {
                    s.cell(i)
                }),
            forall|p: Player| #[trigger] s.with_cell(c, v).stash(p) == s.stash(p),
            s.wf() ==> s.with_cell(c, v).wf(),
    {
        let mw = 1u64 << (c as u64);
        let w = if v == Cell::White {
            s.bits | mw
        } else {
            s.bits & !mw
        };
        let t = s.with_cell(c, v);
        assert forall|p: Player, i: int| 0 <= i < 24 implies (#[trigger] t.occupies(p, i)) == (if i
            == c {
            v == p.spec_stone()
        } else {
            s.occupies(p, i)
        }) by {
            let j = (spec_board_offset(p) + i) as u64;
            lemma_bit_update(s.bits, c as u64, j);
            lemma_bit_update(w, (c + 24) as u64, j);
        }
        assert forall|p: Player| #[trigger] t.stash(p) == s.stash(p) by {
            let o = spec_stash_offset(p);
            lemma_field_untouched(s.bits, c as u64, o);
            lemma_field_untouched(w, (c + 24) as u64, o);
        }
        assert forall|i: int| 0 <= i < 24 implies #[trigger] t.cell(i) == (if i == c {
            v
        } else {
            s.cell(i)
        }) by {
            assert(t.occupies(Player::White, i) == (if i == c {
                v == Cell::White
            } else {
                s.occupies(Player::White, i)
            }));
            assert(t.occupies(Player::Black, i) == (if i == c {
                v == Cell::Black
            } else {
                s.occupies(Player::Black, i)
            }));
        }
        if s.wf() {
            assert forall|i: int| 0 <= i < 24 implies !(#[trigger] t.occupies(Player::White, i)
                && t.occupies(Player::Black, i)) by {
                assert(t.occupies(Player::Black, i) == (if i == c {
                    v == Cell::Black
                } else {
                    s.occupies(Player::Black, i)
                }));
            }
        }
    }

    pub proof fn lemma_with_stash(s: State, p: Player, n: nat)
        requires
            n < 256,
        ensures
            forall|q: Player, i: int|
                0 <= i < 24 ==> (#[trigger] s.with_stash(p, n).occupies(q, i)) == s.occupies(q, i),
            forall|i: int| 0 <= i < 24 ==> #[trigger] s.with_stash(p, n).cell(i) == s.cell(i),
            s.with_stash(p, n).stash(p) == n,
            s.with_stash(p, n).stash(p.spec_opponent()) == s.stash(p.spec_opponent()),
            s.wf() && n <= FULL_STASH ==> s.with_stash(p, n).wf(),
    {
        let o = spec_stash_offset(p);
        let t = s.with_stash(p, n);
        assert forall|q: Player, i: int| 0 <= i < 24 implies (#[trigger] t.occupies(q, i))
            == s.occupies(q, i) by {
            lemma_field_update(s.bits, o, spec_stash_offset(p.spec_opponent()), n as u64, (spec_board_offset(q) + i) as u64);
        }
        lemma_field_update(s.bits, o, spec_stash_offset(p.spec_opponent()), n as u64, 0);
        assert forall|i: int| 0 <= i < 24 implies #[trigger] t.cell(i) == s.cell(i) by {
            assert(t.occupies(Player::White, i) == s.occupies(Player::White, i));
            assert(t.occupies(Player::Black, i) == s.occupies(Player::Black, i));
        }
        if s.wf() && n <= FULL_STASH {
            assert forall|i: int| 0 <= i < 24 implies !(#[trigger] t.occupies(Player::White, i)
                && t.occupies(Player::Black, i)) by {
                assert(t.occupies(Player::Black, i) == s.occupies(Player::Black, i));
            }
        }
    }

    /// Equal keys come only from equal states, players and depths.
    pub proof fn lemma_key_injective(s: State, p: Player, d: u8, t: State, q: Player, e: u8)
        requires
            s.spec_key(p, d) == t.spec_key(q, e),
        ensures
            s == t,
            p == q,
            d == e,
    {
    }

    pub proof fn lemma_stash_bound(s: State, p: Player)
        ensures
            s.stash(p) < 256,
    {
        lemma_field_read(s.bits, spec_stash_offset(p));
    }

    /// How many of the first `n` positions hold the player's stones.
    pub open spec fn count_upto(self, p: Player, n: int) -> nat
        decreases n,
    {
        if n <= 0 {
            0
        } else {
            self.count_upto(p, n - 1) + if self.cell(n - 1) == p.spec_stone() {
                1nat
            } else {
                0nat
            }
        }
    }

    /// How many stones the player has on the board.
    pub open spec fn count(self, p: Player) -> nat {
        self.count_upto(p, 24)
    }

    /// Still in the game: stones to place, or at least three on the board.
    pub open spec fn enough_stones(self, p: Player) -> bool {
        self.stash(p) > 0 || self.count(p) >= 3
    }

    /// There are finitely many states.
    pub proof fn lemma_states_finite()
        ensures
            Set::<State>::full().finite(),
    {
        broadcast use vstd::set_lib::full_set_properties;

        let words = Set::<u64>::full();
        let f = |x: u64| State { bits: x };
        words.lemma_map_finite(f);
        assert forall|s: State| #[trigger] Set::<State>::full().contains(s) implies words.map(f).contains(s) by {
            assert(words.contains(s.bits) && f(s.bits) == s);
        }
        assert(words.map(f) =~= Set::<State>::full());
    }

    pub proof fn lemma_count_bound(s: State, p: Player, n: int)
        requires
            0 <= n,
        ensures
            s.count_upto(p, n) <= n,
        decreases n,
    {
        if n > 0 {
            State::lemma_count_bound(s, p, n - 1);
        }
    }

    /// The state after placing `kinds[k]` on `cells[k]` for each `k` in turn.
    pub open spec fn placements(self, cells: Seq<int>, kinds: Seq<Cell>) -> State
        decreases cells.len(),
    {
        if cells.len() == 0 || kinds.len() == 0 {
            self
        } else {
            self.with_cell(cells[0], kinds[0]).placements(cells.drop_first(), kinds.drop_first())
        }
    }

    /// No sequence of placements sets both players' bits on one position.
    pub proof fn lemma_placements_exclusive(s: State, cells: Seq<int>, kinds: Seq<Cell>)
        requires
            s.wf(),
            forall|k: int| 0 <= k < cells.len() ==> 0 <= #[trigger] cells[k] < 24,
        ensures
            s.placements(cells, kinds).wf(),
            forall|c: int|
                0 <= c < 24 ==> !(#[trigger] s.placements(cells, kinds).occupies(Player::White, c)
                    && s.placements(cells, kinds).occupies(Player::Black, c)),
        decreases cells.len(),
    {
        if cells.len() > 0 && kinds.len() > 0 {
            State::lemma_with_cell(s, cells[0], kinds[0]);
            let rest = cells.drop_first();
            assert forall|k: int| 0 <= k < rest.len() implies 0 <= #[trigger] rest[k] < 24 by {
                assert(rest[k] == cells[k + 1]);
            }
            State::lemma_placements_exclusive(s.with_cell(cells[0], kinds[0]), rest, kinds.drop_first());
        }
    }

    /// Emptying a position that holds a stone of `o` leaves `o` one stone
    /// fewer among the first `n` positions past it.
    pub proof fn lemma_count_clear(s: State, o: Player, c: int, n: int)
        requires
            0 <= c < 24,
            0 <= n <= 24,
            s.cell(c) == o.spec_stone(),
        ensures
            s.with_cell(c, Cell::Empty).count_upto(o, n) + (if c < n {
                1int
            } else {
                0int
            }) == s.count_upto(o, n),
        decreases n,
    {
        State::lemma_with_cell(s, c, Cell::Empty);
        if n > 0 {
            State::lemma_count_clear(s, o, c, n - 1);
        }
    }

    /// The packed word itself.
    pub closed spec fn spec_bits(self) -> u64 {
        self.bits
    }

    /// A state is its packed word.
    pub proof fn lemma_bits_determine(s: State, t: State)
        requires
            s.spec_bits() == t.spec_bits(),
        ensures
            s == t,
    {
    }

    /// The packed word of the state.
    pub fn bits(&self) -> (r: u64)
        ensures
            r == self.spec_bits(),
    {
        self.bits
    }

    /// The state whose packed word is `bits`. The result is well formed only
    /// when no position has both players' bits set and each stash is at
    /// most `FULL_STASH`.
    pub fn from_bits(bits: u64) -> (r: State)
        ensures
            r.spec_bits() == bits,
    {
        State { bits }
    }

    /// The start of a game: empty board, full stash for both players.
    pub fn new() -> (r: State)
        ensures
            r.wf(),
            forall|i: int| 0 <= i < 24 ==> #[trigger] r.cell(i) == Cell::Empty,
            r.stash(Player::White) == FULL_STASH,
            r.stash(Player::Black) == FULL_STASH,
    {
        let mut state = State { bits: 0 };
        proof {
            assert forall|q: Player, i: int| 0 <= i < 24 implies !(#[trigger] state.occupies(q, i)) by {
                lemma_zero((spec_board_offset(q) + i) as u64, 0);
            }
            lemma_zero(0, 48);
            lemma_zero(0, 56);
        }
        state.set_stash(FULL_STASH, Player::White);
        state.set_stash(FULL_STASH, Player::Black);
        state
    }

    pub fn set_stash(&mut self, stones: u8, player: Player)
        ensures
            *final(self) == old(self).with_stash(player, stones as nat),
            final(self).stash(player) == stones,
            final(self).stash(player.spec_opponent()) == old(self).stash(player.spec_opponent()),
            forall|i: int| 0 <= i < 24 ==> #[trigger] final(self).cell(i) == old(self).cell(i),
            old(self).wf() && stones <= FULL_STASH ==> final(self).wf(),
    {
        proof {
            State::lemma_with_stash(*self, player, stones as nat);
        }
        self.bits = self.bits & !mask_stash(player);
        self.bits = self.bits | ((stones as u64) << offset_stash(player));
    }

    pub fn get_stash(&self, player: Player) -> (r: u8)
        ensures
            r == self.stash(player),
    {
        proof {
            lemma_field_read(self.bits, spec_stash_offset(player));
        }
        ((self.bits & mask_stash(player)) >> offset_stash(player)) as u8
    }

    /// Takes one stone out of the player's stash.
    pub fn decrement_stash(&mut self, player: Player)
        requires
            old(self).stash(player) > 0,
        ensures
            *final(self) == old(self).with_stash(player, (old(self).stash(player) - 1) as nat),
            final(self).stash(player) == old(self).stash(player) - 1,
            final(self).stash(player.spec_opponent()) == old(self).stash(player.spec_opponent()),
            forall|i: int| 0 <= i < 24 ==> #[trigger] final(self).cell(i) == old(self).cell(i),
            old(self).wf() ==> final(self).wf(),
    {
        let stash = self.get_stash(player);
        self.set_stash(stash - 1, player);
    }

    pub fn has_stash(&self, player: Player) -> (r: bool)
        ensures
            r == (self.stash(player) > 0),
    {
        self.get_stash(player) != 0
    }

    /// What the position holds.
    pub fn get(&self, coordinate: &Coordinate) -> (r: Cell)
        requires
            coordinate.wf(),
        ensures
            r == self.cell(coordinate.idx()),
    {
        proof {
            lemma_bit_test(self.bits, coordinate.idx() as u64);
            lemma_bit_test(self.bits, (coordinate.idx() + 24) as u64);
        }
        if self.bits & coordinate.as_mask(Player::White) != 0 {
            Cell::White
        } else if self.bits & coordinate.as_mask(Player::Black) != 0 {
            Cell::Black
        } else {
            Cell::Empty
        }
    }

    /// Sets the position to `cell`: at most one player's bit is left set.
    pub fn place(&mut self, coordinate: &Coordinate, cell: Cell)
        requires
            coordinate.wf(),
        ensures
            *final(self) == old(self).with_cell(coordinate.idx(), cell),
            final(self).cell(coordinate.idx()) == cell,
            forall|i: int|
                0 <= i < 24 && i != coordinate.idx() ==> #[trigger] final(self).cell(i) == old(
                    self,
                ).cell(i),
            forall|p: Player| #[trigger] final(self).stash(p) == old(self).stash(p),
            old(self).wf() ==> final(self).wf(),
    {
        proof {
            State::lemma_with_cell(*self, coordinate.idx(), cell);
        }
        match cell {
            Cell::White => self.bits = self.bits | coordinate.as_mask(Player::White),
            _ => self.bits = self.bits & !coordinate.as_mask(Player::White),
        }
        match cell {
            Cell::Black => self.bits = self.bits | coordinate.as_mask(Player::Black),
            _ => self.bits = self.bits & !coordinate.as_mask(Player::Black),
        }
    }

    /// Empties `from` and puts one of the player's stones on `to`.
    pub fn move_to(&mut self, from: &Coordinate, to: &Coordinate, player: Player)
        requires
            from.wf(),
            to.wf(),
        ensures
            *final(self) == old(self).with_cell(from.idx(), Cell::Empty).with_cell(
                to.idx(),
                player.spec_stone(),
            ),
            old(self).wf() ==> final(self).wf(),
    {
        self.place(from, Cell::Empty);
        self.place(to, player.stone());
    }

    /// Exchanges the contents of two positions.
    pub fn switch(&mut self, from: &Coordinate, to: &Coordinate)
        requires
            from.wf(),
            to.wf(),
        ensures
            *final(self) == old(self).with_cell(from.idx(), old(self).cell(to.idx())).with_cell(
                to.idx(),
                old(self).cell(from.idx()),
            ),
            old(self).wf() ==> final(self).wf(),
    {
        let source = self.get(from);
        let destination = self.get(to);
        self.place(from, destination);
        self.place(to, source);
    }

    /// The positions that hold `cell`, in increasing order.
    pub fn get_cells(&self, cell: Cell) -> (r: Vec<Coordinate>)
        ensures
            forall|k: int| 0 <= k < r.len() ==> (#[trigger] r@[k]).wf() && self.cell(r@[k].idx()) == cell,
            forall|k: int, l: int| 0 <= k < l < r.len() ==> r@[k].idx() < r@[l].idx(),
            forall|c: int|
                0 <= c < 24 && self.cell(c) == cell ==> exists|k: int|
                    0 <= k < r.len() && (#[trigger] r@[k]).idx() == c,
    {
        let mut r: Vec<Coordinate> = Vec::new();
        let mut i: u8 = 0;
        while i < POSITIONS
            invariant
                i <= 24,
                forall|k: int|
                    0 <= k < r.len() ==> (#[trigger] r@[k]).wf() && self.cell(r@[k].idx()) == cell
                        && r@[k].idx() < i,
                forall|k: int, l: int| 0 <= k < l < r.len() ==> r@[k].idx() < r@[l].idx(),
                forall|c: int|
                    0 <= c < i && self.cell(c) == cell ==> exists|k: int|
                        0 <= k < r.len() && (#[trigger] r@[k]).idx() == c,
            decreases 24 - i,
        {
            let coordinate = Coordinate::new_index(i);
            let ghost before = r@;
            if self.get(&coordinate) == cell {
                r.push(coordinate);
                proof {
                    assert(r@[r.len() - 1].idx() == i);
                    assert forall|c: int| 0 <= c < i && self.cell(c) == cell implies exists|k: int|
                        0 <= k < r.len() && (#[trigger] r@[k]).idx() == c by {
                        let k = choose|k: int| 0 <= k < before.len() && (#[trigger] before[k]).idx() == c;
                        assert(r@[k] == before[k]);
                    }
                }
            }
            i = i + 1;
        }
        r
    }

    /// The neighbours of `coordinate` that hold `cell`.
    pub fn get_neighbours(&self, coordinate: &Coordinate, cell: Cell) -> (r: Vec<Coordinate>)
        requires
            coordinate.wf(),
        ensures
            forall|k: int|
                0 <= k < r.len() ==> (#[trigger] r@[k]).wf() && adjacent(coordinate.idx(), r@[k].idx())
                    && self.cell(r@[k].idx()) == cell,
            forall|d: int|
                adjacent(coordinate.idx(), d) && self.cell(d) == cell ==> exists|k: int|
                    0 <= k < r.len() && (#[trigger] r@[k]).idx() == d,
    {
        let neighbours = coordinate.neighbours();
        let mut r: Vec<Coordinate> = Vec::new();
        let mut i: usize = 0;
        while i < neighbours.len()
            invariant
                i <= neighbours.len(),
                forall|k: int|
                    0 <= k < neighbours.len() ==> (#[trigger] neighbours@[k]).wf() && adjacent(
                        coordinate.idx(),
                        neighbours@[k].idx(),
                    ),
                forall|k: int|
                    0 <= k < r.len() ==> (#[trigger] r@[k]).wf() && adjacent(
                        coordinate.idx(),
                        r@[k].idx(),
                    ) && self.cell(r@[k].idx()) == cell,
                forall|j: int|
                    0 <= j < i && self.cell(neighbours@[j].idx()) == cell ==> exists|k: int|
                        0 <= k < r.len() && (#[trigger] r@[k]).idx() == neighbours@[j].idx(),
            decreases neighbours.len() - i,
        {
            let ghost before = r@;
            if self.get(&neighbours[i]) == cell {
                r.push(neighbours[i]);
                proof {
                    assert(r@[r.len() - 1].idx() == neighbours@[i as int].idx());
                    assert forall|j: int| 0 <= j < i && self.cell(neighbours@[j].idx()) == cell implies exists|k: int|
                        0 <= k < r.len() && (#[trigger] r@[k]).idx() == neighbours@[j].idx() by {
                        let k = choose|k: int| 0 <= k < before.len() && (#[trigger] before[k]).idx() == neighbours@[j].idx();
                        assert(r@[k] == before[k]);
                    }
                }
            }
            i = i + 1;
        }
        proof {
            assert forall|d: int| adjacent(coordinate.idx(), d) && self.cell(d) == cell implies exists|k: int|
                0 <= k < r.len() && (#[trigger] r@[k]).idx() == d by {
                let j = choose|j: int| 0 <= j < neighbours.len() && (#[trigger] neighbours@[j]).idx() == d;
                assert(self.cell(neighbours@[j].idx()) == cell);
            }
        }
        r
    }

    pub fn count_stones(&self, player: Player) -> (r: u8)
        ensures
            r == self.count(player),
            r <= 24,
    {
        let mut n: u8 = 0;
        let mut i: u8 = 0;
        while i < POSITIONS
            invariant
                i <= 24,
                n == self.count_upto(player, i as int),
                n <= i,
            decreases 24 - i,
        {
            if self.get(&Coordinate::new_index(i)) == player.stone() {
                n = n + 1;
            }
            i = i + 1;
        }
        n
    }

    pub fn has_enough_stones(&self, player: Player) -> (r: bool)
        ensures
            r == self.enough_stones(player),
    {
        self.has_stash(player) || self.count_stones(player) >= 3
    }

    /// The transposition-table key of this state, a player to move and a depth.
    pub fn key(&self, player: Player, depth: u8) -> (r: u128)
        ensures
            r == self.spec_key(player, depth),
    {
        let side: u128 = match player {
            Player::White => 0,
            Player::Black => 1,
        };
        self.bits as u128 + side * 0x1_0000_0000_0000_0000u128 + depth as u128 * 0x2_0000_0000_0000_0000u128
    }
}

} // verus!
