use vstd::prelude::*;

use crate::cell::Cell;
use crate::coordinate::{adjacent, Coordinate};
use crate::mill::{listed, merge_states, Mill};
use crate::phase::Phase;
use crate::player::Player;
use crate::state::State;

verus! {

/// Utility of a won game for the player to move.
pub const WIN: i16 = 100;

/// Utility of a lost game for the player to move.
pub const LOSS: i16 = -100;

/// Utility of a game still contested.
pub const DRAW: i16 = 0;

impl State {
    /// How many of the lines `0..n` are mills of the player in this state but
    /// not in `before`.
    pub open spec fn completed_upto(self, before: State, p: Player, n: int) -> nat
        decreases n,
    {
        if n <= 0 {
            0
        } else {
            self.completed_upto(before, p, n - 1) + if self.mill_formed(p, n - 1)
                && !before.mill_formed(p, n - 1) {
                1nat
            } else {
                0nat
            }
        }
    }

    /// `t` is reached from this state, just after a move of `p` that started
    /// in `before`, by taking one opponent stone per newly completed mill.
    pub open spec fn resolves(self, before: State, p: Player, t: State) -> bool {
        self.removal(p.spec_opponent(), self.completed_upto(before, p, 16), t)
    }

    /// The state after `p` places a stone from the stash on `c`.
    pub open spec fn placed(self, p: Player, c: int) -> State {
        self.with_stash(p, (self.stash(p) - 1) as nat).with_cell(c, p.spec_stone())
    }

    /// The state after `p` moves a stone from `from` to `to`.
    pub open spec fn moved(self, p: Player, from: int, to: int) -> State {
        self.with_cell(from, Cell::Empty).with_cell(to, p.spec_stone())
    }

    /// `t` is reached by one legal move of `p`, captures included.
    pub open spec fn is_successor(self, p: Player, t: State) -> bool {
        match self.spec_phase(p) {
            Phase::Placing => exists|c: int|
                0 <= c < 24 && self.cell(c) == Cell::Empty && (#[trigger] self.placed(p, c)).resolves(
                    self,
                    p,
                    t,
                ),
            Phase::Moving => exists|f: int, d: int|
                0 <= f < 24 && self.cell(f) == p.spec_stone() && adjacent(f, d) && self.cell(d)
                    == Cell::Empty && (#[trigger] self.moved(p, f, d)).resolves(self, p, t),
            Phase::Flying => exists|f: int, d: int|
                0 <= f < 24 && 0 <= d < 24 && self.cell(f) == p.spec_stone() && self.cell(d)
                    == Cell::Empty && (#[trigger] self.moved(p, f, d)).resolves(self, p, t),
        }
    }

    pub open spec fn has_successor(self, p: Player) -> bool {
        exists|t: State| self.is_successor(p, t)
    }

    /// The game is over for `p` to move: a player is out of stones, or `p`
    /// has no legal move.
    pub open spec fn spec_finished(self, p: Player) -> bool {
        !self.enough_stones(p) || !self.enough_stones(p.spec_opponent()) || !self.has_successor(p)
    }

    /// The value of the state for `p` to move once the game is over.
    pub open spec fn spec_utility(self, p: Player) -> int {
        if !self.enough_stones(p) {
            LOSS as int
        } else if !self.enough_stones(p.spec_opponent()) {
            WIN as int
        } else if !self.has_successor(p) {
            LOSS as int
        } else {
            DRAW as int
        }
    }

    /// A finished game is never valued as contested: a loss when the player
    /// to move is out of stones, or has no move while the opponent is still
    /// in the game; a win when only the opponent is out of stones.
    pub proof fn lemma_terminal_utility(s: State, p: Player)
        requires
            s.spec_finished(p),
        ensures
            s.spec_utility(p) != DRAW,
            s.spec_utility(p) == LOSS || s.spec_utility(p) == WIN,
            !s.enough_stones(p) ==> s.spec_utility(p) == LOSS,
            s.enough_stones(p.spec_opponent()) && !s.has_successor(p) ==> s.spec_utility(p) == LOSS,
            s.enough_stones(p) && !s.enough_stones(p.spec_opponent()) ==> s.spec_utility(p) == WIN,
    {
    }

    /// Resolving a move takes exactly one opponent stone per mill the move
    /// completed, in every resulting state, and leaves the mover's stones
    /// and both stashes as they were.
    pub proof fn lemma_capture_cardinality(after: State, before: State, p: Player, t: State)
        requires
            after.resolves(before, p, t),
        ensures
            t.count(p.spec_opponent()) + after.completed_upto(before, p, 16) == after.count(
                p.spec_opponent(),
            ),
            forall|c: int|
                0 <= c < 24 && after.cell(c) == p.spec_stone() ==> #[trigger] t.cell(c) == after.cell(c),
            forall|q: Player| #[trigger] t.stash(q) == after.stash(q),
    {
        State::lemma_removal_count(after, p.spec_opponent(), after.completed_upto(before, p, 16), t);
        assert forall|c: int| 0 <= c < 24 && after.cell(c) == p.spec_stone() implies #[trigger] t.cell(c) == after.cell(c) by {
            assert(after.cell(c) != p.spec_opponent().spec_stone());
        }
    }

    /// Every successor comes from one placement or one move of `p`, after
    /// which exactly one opponent stone is taken per mill that move completed.
    pub proof fn lemma_successor_captures(s: State, p: Player, t: State)
        requires
            s.is_successor(p, t),
        ensures
            exists|a: State|
                #[trigger] a.resolves(s, p, t) && t.count(p.spec_opponent()) + a.completed_upto(s, p, 16)
                    == a.count(p.spec_opponent()) && ((exists|c: int| 0 <= c < 24 && a == s.placed(p, c))
                    || (exists|f: int, d: int| 0 <= f < 24 && 0 <= d < 24 && a == s.moved(p, f, d))),
    {
        match s.spec_phase(p) {
            Phase::Placing => {
                let c = choose|c: int|
                    0 <= c < 24 && s.cell(c) == Cell::Empty && (#[trigger] s.placed(p, c)).resolves(s, p, t);
                let a = s.placed(p, c);
                State::lemma_capture_cardinality(a, s, p, t);
                assert(a.resolves(s, p, t));
            },
            Phase::Moving => {
                let (f, d) = choose|f: int, d: int|
                    0 <= f < 24 && s.cell(f) == p.spec_stone() && adjacent(f, d) && s.cell(d)
                        == Cell::Empty && (#[trigger] s.moved(p, f, d)).resolves(s, p, t);
                let a = s.moved(p, f, d);
                State::lemma_capture_cardinality(a, s, p, t);
                assert(a.resolves(s, p, t));
            },
            Phase::Flying => {
                let (f, d) = choose|f: int, d: int|
                    0 <= f < 24 && 0 <= d < 24 && s.cell(f) == p.spec_stone() && s.cell(d)
                        == Cell::Empty && (#[trigger] s.moved(p, f, d)).resolves(s, p, t);
                let a = s.moved(p, f, d);
                State::lemma_capture_cardinality(a, s, p, t);
                assert(a.resolves(s, p, t));
            },
        }
    }

    /// Every successor of a well-formed state is well formed.
    pub proof fn lemma_successor_wf(s: State, p: Player, t: State)
        requires
            s.wf(),
            s.is_successor(p, t),
        ensures
            t.wf(),
    {
        State::lemma_stash_bound(s, p);
        match s.spec_phase(p) {
            Phase::Placing => {
                let c = choose|c: int|
                    0 <= c < 24 && s.cell(c) == Cell::Empty && (#[trigger] s.placed(p, c)).resolves(
                        s,
                        p,
                        t,
                    );
                let n = (s.stash(p) - 1) as nat;
                State::lemma_with_stash(s, p, n);
                State::lemma_with_cell(s.with_stash(p, n), c, p.spec_stone());
                State::lemma_removal_wf(s.placed(p, c), p.spec_opponent(), s.placed(p, c).completed_upto(s, p, 16), t);
            },
            Phase::Moving => {
                let (f, d) = choose|f: int, d: int|
                    0 <= f < 24 && s.cell(f) == p.spec_stone() && adjacent(f, d) && s.cell(d)
                        == Cell::Empty && (#[trigger] s.moved(p, f, d)).resolves(s, p, t);
                State::lemma_with_cell(s, f, Cell::Empty);
                State::lemma_with_cell(s.with_cell(f, Cell::Empty), d, p.spec_stone());
                State::lemma_removal_wf(s.moved(p, f, d), p.spec_opponent(), s.moved(p, f, d).completed_upto(s, p, 16), t);
            },
            Phase::Flying => {
                let (f, d) = choose|f: int, d: int|
                    0 <= f < 24 && 0 <= d < 24 && s.cell(f) == p.spec_stone() && s.cell(d)
                        == Cell::Empty && (#[trigger] s.moved(p, f, d)).resolves(s, p, t);
                State::lemma_with_cell(s, f, Cell::Empty);
                State::lemma_with_cell(s.with_cell(f, Cell::Empty), d, p.spec_stone());
                State::lemma_removal_wf(s.moved(p, f, d), p.spec_opponent(), s.moved(p, f, d).completed_upto(s, p, 16), t);
            },
        }
    }

    proof fn lemma_completed_listed(after: State, before: State, p: Player, mills: Seq<Mill>, n: int)
        requires
            forall|m: int| 0 <= m < 16 ==> (listed(mills, m) <==> before.mill_formed(p, m)),
            n <= 16,
        ensures
            after.new_mills_upto(p, mills, n) == after.completed_upto(before, p, n),
        decreases n,
    {
        if n > 0 {
            State::lemma_completed_listed(after, before, p, mills, n - 1);
        }
    }

    /// Appends every result of moving `p`'s stone from `from` to one of
    /// `targets`, captures resolved, to `out`.
    fn extend_moves(
        &self,
        player: Player,
        from: &Coordinate,
        targets: &Vec<Coordinate>,
        mills_before: &Vec<Mill>,
        out: &mut Vec<State>,
    )
        requires
            self.wf(),
            from.wf(),
            forall|k: int| 0 <= k < targets.len() ==> (#[trigger] targets@[k]).wf(),
            forall|m: int| 0 <= m < 16 ==> (listed(mills_before@, m) <==> self.mill_formed(player, m)),
            old(out)@.no_duplicates(),
            forall|k: int| 0 <= k < old(out).len() ==> (#[trigger] old(out)@[k]).wf(),
        ensures
            final(out)@.no_duplicates(),
            forall|k: int| 0 <= k < final(out).len() ==> (#[trigger] final(out)@[k]).wf(),
            forall|t: State|
                #[trigger] final(out)@.contains(t) <==> (old(out)@.contains(t) || exists|j: int|
                    #![trigger targets@[j]]
                    0 <= j < targets.len() && self.moved(player, from.idx(), targets@[j].idx()).resolves(
                        *self,
                        player,
                        t,
                    )),
    {
        let mut i: usize = 0;
        while i < targets.len()
            invariant
                self.wf(),
                from.wf(),
                i <= targets.len(),
                forall|k: int| 0 <= k < targets.len() ==> (#[trigger] targets@[k]).wf(),
                forall|m: int| 0 <= m < 16 ==> (listed(mills_before@, m) <==> self.mill_formed(player, m)),
                out@.no_duplicates(),
                forall|k: int| 0 <= k < out.len() ==> (#[trigger] out@[k]).wf(),
                forall|t: State|
                    #[trigger] out@.contains(t) <==> (old(out)@.contains(t) || exists|j: int|
                        #![trigger targets@[j]]
                        0 <= j < i && self.moved(player, from.idx(), targets@[j].idx()).resolves(
                            *self,
                            player,
                            t,
                        )),
            decreases targets.len() - i,
        {
            let mut state = *self;
            state.move_to(from, &targets[i], player);
            let sub = state.pound_mills(player, mills_before);
            proof {
                State::lemma_completed_listed(state, *self, player, mills_before@, 16);
            }
            let ghost before = out@;
            merge_states(out, &sub);
            proof {
                assert forall|k: int| 0 <= k < out.len() implies (#[trigger] out@[k]).wf() by {
                    if before.contains(out@[k]) {
                        let q = choose|q: int| 0 <= q < before.len() && before[q] == out@[k];
                    } else {
                        let q = choose|q: int| 0 <= q < sub.len() && sub@[q] == out@[k];
                    }
                }
                assert forall|t: State|
                    #[trigger] out@.contains(t) <==> (old(out)@.contains(t) || exists|j: int|
                        #![trigger targets@[j]]
                        0 <= j < i + 1 && self.moved(player, from.idx(), targets@[j].idx()).resolves(
                            *self,
                            player,
                            t,
                        )) by {
                    if exists|j: int|
                        #![trigger targets@[j]]
                        0 <= j < i + 1 && self.moved(player, from.idx(), targets@[j].idx()).resolves(
                            *self,
                            player,
                            t,
                        ) {
                        let j = choose|j: int|
                            #![trigger targets@[j]]
                            0 <= j < i + 1 && self.moved(player, from.idx(), targets@[j].idx()).resolves(
                                *self,
                                player,
                                t,
                            );
                        if j == i {
                            assert(sub@.contains(t));
                        } else {
                            assert(before.contains(t));
                        }
                    }
                    if sub@.contains(t) {
                        assert(state == self.moved(player, from.idx(), targets@[i as int].idx()));
                    }
                }
            }
            i = i + 1;
        }
    }

    /// Every state that `player` can reach with one legal move, captures
    /// resolved; each state once.
    pub fn next_states(&self, player: Player) -> (r: Vec<State>)
        requires
            self.wf(),
        ensures
            forall|t: State| #[trigger] r@.contains(t) <==> self.is_successor(player, t),
            forall|k: int| 0 <= k < r.len() ==> (#[trigger] r@[k]).wf(),
            r@.no_duplicates(),
    {
        let mills_before = self.get_mills(player);
        let mut out: Vec<State> = Vec::new();
        match self.phase(player) {
            Phase::Placing => {
                let mut clone = *self;
                clone.decrement_stash(player);
                let empties = clone.get_cells(Cell::Empty);
                let mut i: usize = 0;
                while i < empties.len()
                    invariant
                        self.wf(),
                        clone.wf(),
                        clone == self.with_stash(player, (self.stash(player) - 1) as nat),
                        self.spec_phase(player) == Phase::Placing,
                        i <= empties.len(),
                        forall|k: int|
                            0 <= k < empties.len() ==> (#[trigger] empties@[k]).wf() && self.cell(
                                empties@[k].idx(),
                            ) == Cell::Empty,
                        forall|m: int| 0 <= m < 16 ==> (listed(mills_before@, m) <==> self.mill_formed(player, m)),
                        out@.no_duplicates(),
                        forall|k: int| 0 <= k < out.len() ==> (#[trigger] out@[k]).wf(),
                        forall|t: State|
                            #[trigger] out@.contains(t) <==> exists|j: int|
                                #![trigger empties@[j]]
                                0 <= j < i && self.placed(player, empties@[j].idx()).resolves(
                                    *self,
                                    player,
                                    t,
                                ),
                    decreases empties.len() - i,
                {
                    let mut state = clone;
                    state.place(&empties[i], player.stone());
                    let sub = state.pound_mills(player, &mills_before);
                    proof {
                        State::lemma_completed_listed(state, *self, player, mills_before@, 16);
                    }
                    let ghost before = out@;
                    merge_states(&mut out, &sub);
                    proof {
                        assert forall|k: int| 0 <= k < out.len() implies (#[trigger] out@[k]).wf() by {
                            if before.contains(out@[k]) {
                                let q = choose|q: int| 0 <= q < before.len() && before[q] == out@[k];
                            } else {
                                let q = choose|q: int| 0 <= q < sub.len() && sub@[q] == out@[k];
                            }
                        }
                        assert forall|t: State|
                            #[trigger] out@.contains(t) <==> exists|j: int|
                                #![trigger empties@[j]]
                                0 <= j < i + 1 && self.placed(player, empties@[j].idx()).resolves(
                                    *self,
                                    player,
                                    t,
                                ) by {
                            if exists|j: int|
                                #![trigger empties@[j]]
                                0 <= j < i + 1 && self.placed(player, empties@[j].idx()).resolves(
                                    *self,
                                    player,
                                    t,
                                ) {
                                let j = choose|j: int|
                                    #![trigger empties@[j]]
                                    0 <= j < i + 1 && self.placed(player, empties@[j].idx()).resolves(
                                        *self,
                                        player,
                                        t,
                                    );
                                if j == i {
                                    assert(sub@.contains(t));
                                } else {
                                    assert(before.contains(t));
                                }
                            }
                            if sub@.contains(t) {
                                assert(state == self.placed(player, empties@[i as int].idx()));
                            }
                        }
                    }
                    i = i + 1;
                }
                proof {
                    assert forall|t: State| #[trigger] out@.contains(t) <==> self.is_successor(player, t) by {
                        if self.is_successor(player, t) {
                            let c = choose|c: int|
                                0 <= c < 24 && self.cell(c) == Cell::Empty && (#[trigger] self.placed(
                                    player,
                                    c,
                                )).resolves(*self, player, t);
                            assert(clone.cell(c) == Cell::Empty);
                            let k = choose|k: int| 0 <= k < empties.len() && (#[trigger] empties@[k]).idx() == c;
                        }
                        if out@.contains(t) {
                            let j = choose|j: int|
                                #![trigger empties@[j]]
                                0 <= j < i && self.placed(player, empties@[j].idx()).resolves(
                                    *self,
                                    player,
                                    t,
                                );
                            let c = empties@[j].idx();
                            assert(0 <= c < 24 && self.cell(c) == Cell::Empty && self.placed(player, c).resolves(*self, player, t));
                        }
                    }
                }
            },
            Phase::Moving => {
                let froms = self.get_cells(player.stone());
                let mut i: usize = 0;
                while i < froms.len()
                    invariant
                        self.wf(),
                        self.spec_phase(player) == Phase::Moving,
                        i <= froms.len(),
                        forall|k: int|
                            0 <= k < froms.len() ==> (#[trigger] froms@[k]).wf() && self.cell(
                                froms@[k].idx(),
                            ) == player.spec_stone(),
                        forall|c: int|
                            0 <= c < 24 && self.cell(c) == player.spec_stone() ==> exists|k: int|
                                0 <= k < froms.len() && (#[trigger] froms@[k]).idx() == c,
                        forall|m: int| 0 <= m < 16 ==> (listed(mills_before@, m) <==> self.mill_formed(player, m)),
                        out@.no_duplicates(),
                        forall|k: int| 0 <= k < out.len() ==> (#[trigger] out@[k]).wf(),
                        forall|t: State|
                            #[trigger] out@.contains(t) <==> exists|j: int, d: int|
                                #![trigger froms@[j], self.moved(player, froms@[j].idx(), d)]
                                0 <= j < i && adjacent(froms@[j].idx(), d) && self.cell(d) == Cell::Empty
                                    && self.moved(player, froms@[j].idx(), d).resolves(*self, player, t),
                    decreases froms.len() - i,
                {
                    let targets = self.get_neighbours(&froms[i], Cell::Empty);
                    let ghost before = out@;
                    self.extend_moves(player, &froms[i], &targets, &mills_before, &mut out);
                    proof {
                        let f = froms@[i as int].idx();
                        assert forall|t: State|
                            #[trigger] out@.contains(t) <==> exists|j: int, d: int|
                                #![trigger froms@[j], self.moved(player, froms@[j].idx(), d)]
                                0 <= j < i + 1 && adjacent(froms@[j].idx(), d) && self.cell(d) == Cell::Empty
                                    && self.moved(player, froms@[j].idx(), d).resolves(*self, player, t) by {
                            if exists|j: int, d: int|
                                #![trigger froms@[j], self.moved(player, froms@[j].idx(), d)]
                                0 <= j < i + 1 && adjacent(froms@[j].idx(), d) && self.cell(d) == Cell::Empty
                                    && self.moved(player, froms@[j].idx(), d).resolves(*self, player, t) {
                                let (j, d) = choose|j: int, d: int|
                                    #![trigger froms@[j], self.moved(player, froms@[j].idx(), d)]
                                    0 <= j < i + 1 && adjacent(froms@[j].idx(), d) && self.cell(d) == Cell::Empty
                                        && self.moved(player, froms@[j].idx(), d).resolves(*self, player, t);
                                if j == i {
                                    let q = choose|q: int| 0 <= q < targets.len() && (#[trigger] targets@[q]).idx() == d;
                                    assert(self.moved(player, f, targets@[q].idx()).resolves(*self, player, t));
                                } else {
                                    assert(before.contains(t));
                                }
                            }
                            if out@.contains(t) && !before.contains(t) {
                                let q = choose|q: int|
                                    #![trigger targets@[q]]
                                    0 <= q < targets.len() && self.moved(player, f, targets@[q].idx()).resolves(
                                        *self,
                                        player,
                                        t,
                                    );
                                let d = targets@[q].idx();
                                assert(adjacent(froms@[i as int].idx(), d) && self.cell(d) == Cell::Empty
                                    && self.moved(player, froms@[i as int].idx(), d).resolves(*self, player, t));
                            }
                        }
                    }
                    i = i + 1;
                }
                proof {
                    assert forall|t: State| #[trigger] out@.contains(t) <==> self.is_successor(player, t) by {
                        if self.is_successor(player, t) {
                            let (f, d) = choose|f: int, d: int|
                                0 <= f < 24 && self.cell(f) == player.spec_stone() && adjacent(f, d) && self.cell(d)
                                    == Cell::Empty && (#[trigger] self.moved(player, f, d)).resolves(*self, player, t);
                            let k = choose|k: int| 0 <= k < froms.len() && (#[trigger] froms@[k]).idx() == f;
                            assert(self.moved(player, froms@[k].idx(), d).resolves(*self, player, t));
                        }
                        if out@.contains(t) {
                            let (j, d) = choose|j: int, d: int|
                                #![trigger froms@[j], self.moved(player, froms@[j].idx(), d)]
                                0 <= j < i && adjacent(froms@[j].idx(), d) && self.cell(d) == Cell::Empty
                                    && self.moved(player, froms@[j].idx(), d).resolves(*self, player, t);
                            let f = froms@[j].idx();
                            assert(0 <= f < 24 && self.cell(f) == player.spec_stone() && adjacent(f, d)
                                && self.cell(d) == Cell::Empty && self.moved(player, f, d).resolves(*self, player, t));
                        }
                    }
                }
            },
            Phase::Flying => {
                let froms = self.get_cells(player.stone());
                let empties = self.get_cells(Cell::Empty);
                let mut i: usize = 0;
                while i < froms.len()
                    invariant
                        self.wf(),
                        self.spec_phase(player) == Phase::Flying,
                        i <= froms.len(),
                        forall|k: int|
                            0 <= k < froms.len() ==> (#[trigger] froms@[k]).wf() && self.cell(
                                froms@[k].idx(),
                            ) == player.spec_stone(),
                        forall|c: int|
                            0 <= c < 24 && self.cell(c) == player.spec_stone() ==> exists|k: int|
                                0 <= k < froms.len() && (#[trigger] froms@[k]).idx() == c,
                        forall|k: int|
                            0 <= k < empties.len() ==> (#[trigger] empties@[k]).wf() && self.cell(
                                empties@[k].idx(),
                            ) == Cell::Empty,
                        forall|c: int|
                            0 <= c < 24 && self.cell(c) == Cell::Empty ==> exists|k: int|
                                0 <= k < empties.len() && (#[trigger] empties@[k]).idx() == c,
                        forall|m: int| 0 <= m < 16 ==> (listed(mills_before@, m) <==> self.mill_formed(player, m)),
                        out@.no_duplicates(),
                        forall|k: int| 0 <= k < out.len() ==> (#[trigger] out@[k]).wf(),
                        forall|t: State|
                            #[trigger] out@.contains(t) <==> exists|j: int, d: int|
                                #![trigger froms@[j], self.moved(player, froms@[j].idx(), d)]
                                0 <= j < i && 0 <= d < 24 && self.cell(d) == Cell::Empty
                                    && self.moved(player, froms@[j].idx(), d).resolves(*self, player, t),
                    decreases froms.len() - i,
                {
                    let ghost before = out@;
                    self.extend_moves(player, &froms[i], &empties, &mills_before, &mut out);
                    proof {
                        let f = froms@[i as int].idx();
                        assert forall|t: State|
                            #[trigger] out@.contains(t) <==> exists|j: int, d: int|
                                #![trigger froms@[j], self.moved(player, froms@[j].idx(), d)]
                                0 <= j < i + 1 && 0 <= d < 24 && self.cell(d) == Cell::Empty
                                    && self.moved(player, froms@[j].idx(), d).resolves(*self, player, t) by {
                            if exists|j: int, d: int|
                                #![trigger froms@[j], self.moved(player, froms@[j].idx(), d)]
                                0 <= j < i + 1 && 0 <= d < 24 && self.cell(d) == Cell::Empty
                                    && self.moved(player, froms@[j].idx(), d).resolves(*self, player, t) {
                                let (j, d) = choose|j: int, d: int|
                                    #![trigger froms@[j], self.moved(player, froms@[j].idx(), d)]
                                    0 <= j < i + 1 && 0 <= d < 24 && self.cell(d) == Cell::Empty
                                        && self.moved(player, froms@[j].idx(), d).resolves(*self, player, t);
                                if j == i {
                                    let q = choose|q: int| 0 <= q < empties.len() && (#[trigger] empties@[q]).idx() == d;
                                    assert(self.moved(player, f, empties@[q].idx()).resolves(*self, player, t));
                                } else {
                                    assert(before.contains(t));
                                }
                            }
                            if out@.contains(t) && !before.contains(t) {
                                let q = choose|q: int|
                                    #![trigger empties@[q]]
                                    0 <= q < empties.len() && self.moved(player, f, empties@[q].idx()).resolves(
                                        *self,
                                        player,
                                        t,
                                    );
                                let d = empties@[q].idx();
                                assert(0 <= d < 24 && self.cell(d) == Cell::Empty
                                    && self.moved(player, froms@[i as int].idx(), d).resolves(*self, player, t));
                            }
                        }
                    }
                    i = i + 1;
                }
                proof {
                    assert forall|t: State| #[trigger] out@.contains(t) <==> self.is_successor(player, t) by {
                        if self.is_successor(player, t) {
                            let (f, d) = choose|f: int, d: int|
                                0 <= f < 24 && 0 <= d < 24 && self.cell(f) == player.spec_stone() && self.cell(d)
                                    == Cell::Empty && (#[trigger] self.moved(player, f, d)).resolves(*self, player, t);
                            let k = choose|k: int| 0 <= k < froms.len() && (#[trigger] froms@[k]).idx() == f;
                            assert(self.moved(player, froms@[k].idx(), d).resolves(*self, player, t));
                        }
                        if out@.contains(t) {
                            let (j, d) = choose|j: int, d: int|
                                #![trigger froms@[j], self.moved(player, froms@[j].idx(), d)]
                                0 <= j < i && 0 <= d < 24 && self.cell(d) == Cell::Empty
                                    && self.moved(player, froms@[j].idx(), d).resolves(*self, player, t);
                            let f = froms@[j].idx();
                            assert(0 <= f < 24 && 0 <= d < 24 && self.cell(f) == player.spec_stone()
                                && self.cell(d) == Cell::Empty && self.moved(player, f, d).resolves(*self, player, t));
                        }
                    }
                }
            },
        }
        out
    }

    /// The game is over for `player` to move.
    pub fn finished(&self, player: Player) -> (r: bool)
        requires
            self.wf(),
        ensures
            r == self.spec_finished(player),
    {
        !self.has_enough_stones(player) || !self.has_enough_stones(player.opponent())
            || !self.can_move(player)
    }

    /// Whether `player` has at least one legal move.
    fn can_move(&self, player: Player) -> (r: bool)
        requires
            self.wf(),
        ensures
            r == self.has_successor(player),
    {
        let next = self.next_states(player);
        proof {
            if next.len() > 0 {
                assert(next@.contains(next@[0]));
            }
            if self.has_successor(player) {
                let t = choose|t: State| self.is_successor(player, t);
                assert(next@.contains(t));
            }
        }
        next.len() != 0
    }

    /// The value of the state for `player` to move: a loss when `player` is
    /// out of stones or has no move, a win when the opponent is out of
    /// stones, a draw otherwise.
    pub fn utility(&self, player: Player) -> (r: i16)
        requires
            self.wf(),
        ensures
            r == self.spec_utility(player),
    {
        if !self.has_enough_stones(player) {
            LOSS
        } else if !self.has_enough_stones(player.opponent()) {
            WIN
        } else if !self.can_move(player) {
            LOSS
        } else {
            DRAW
        }
    }
}

} // verus!
