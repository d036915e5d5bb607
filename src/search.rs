use vstd::prelude::*;

use crate::game::{LOSS, WIN};
use crate::heuristic::{HeuristicWeights, MAX_SCORE};
use crate::player::Player;
use crate::state::State;

verus! {

/// The largest element of `vals`.
pub open spec fn max_of(vals: Set<int>) -> int {
    choose|m: int| vals.contains(m) && forall|x: int| #[trigger] vals.contains(x) ==> x <= m
}

/// The negamax value of `s` for `p` to move, looking `d` plies ahead: the
/// utility once the game is over, the heuristic at the horizon, and
/// otherwise the largest of the successors' values for the opponent, negated.
pub open spec fn negamax(s: State, p: Player, d: nat, w: HeuristicWeights) -> int
    decreases d, 1nat,
{
    if s.spec_finished(p) {
        s.spec_utility(p)
    } else if d == 0 {
        s.spec_heuristic(p, w)
    } else {
        max_of(reply_values(s, p, d, w))
    }
}

/// The opponent's values of the successors of `s`, negated.
pub open spec fn reply_values(s: State, p: Player, d: nat, w: HeuristicWeights) -> Set<int>
    decreases d, 0nat,
{
    if d == 0 {
        Set::empty()
    } else {
        Set::new(
            |x: int|
                exists|t: State|
                    #[trigger] s.is_successor(p, t) && x == -negamax(
                        t,
                        p.spec_opponent(),
                        (d - 1) as nat,
                        w,
                    ),
        )
    }
}

/// `v` is the largest negated value among the successors of `s`.
pub open spec fn is_best_reply(s: State, p: Player, d: nat, w: HeuristicWeights, v: int) -> bool {
    &&& d > 0
    &&& exists|t: State|
        #[trigger] s.is_successor(p, t) && v == -negamax(t, p.spec_opponent(), (d - 1) as nat, w)
    &&& forall|t: State|
        #[trigger] s.is_successor(p, t) ==> -negamax(t, p.spec_opponent(), (d - 1) as nat, w) <= v
}

/// The value for `p` of a successor `t` reached by `p`'s move: the
/// opponent's negamax value of `t`, `d` plies deep, negated.
pub open spec fn move_value(t: State, p: Player, d: nat, w: HeuristicWeights) -> int {
    -negamax(t, p.spec_opponent(), d, w)
}

/// `v` is the largest value, for `p`, among the successors of `s` searched
/// `d` plies deep.
pub open spec fn is_top_value(s: State, p: Player, d: nat, w: HeuristicWeights, v: int) -> bool {
    &&& exists|t: State| #[trigger] s.is_successor(p, t) && v == move_value(t, p, d, w)
    &&& forall|t: State| #[trigger] s.is_successor(p, t) ==> move_value(t, p, d, w) <= v
}

/// The value of the best move of `p` in `s`.
pub open spec fn top_value(s: State, p: Player, d: nat, w: HeuristicWeights) -> int {
    choose|v: int| is_top_value(s, p, d, w, v)
}

/// `states` are exactly the successors of `s` whose value is `value`, the
/// best one.
pub open spec fn is_best_moves(
    s: State,
    p: Player,
    d: nat,
    w: HeuristicWeights,
    states: Seq<State>,
    value: int,
) -> bool {
    &&& value == top_value(s, p, d, w)
    &&& forall|t: State|
        #[trigger] states.contains(t) <==> (s.is_successor(p, t) && move_value(t, p, d, w) == value)
}

/// A finite non-empty set has an element where `f` is largest.
pub proof fn lemma_finite_max(s: Set<State>, f: spec_fn(State) -> int) -> (best: State)
    requires
        s.finite(),
        s.len() > 0,
    ensures
        s.contains(best),
        forall|t: State| s.contains(t) ==> f(t) <= f(best),
    decreases s.len(),
{
    let x = s.choose();
    let rest = s.remove(x);
    if rest.len() == 0 {
        rest.lemma_len0_is_empty();
        assert forall|t: State| s.contains(t) implies f(t) <= f(x) by {
            if t != x {
                assert(rest.contains(t));
            }
        }
        x
    } else {
        let b = lemma_finite_max(rest, f);
        if f(x) > f(b) {
            x
        } else {
            b
        }
    }
}

/// Before the horizon, a state that is not over has a best reply, and its
/// negamax value is that reply's value.
pub proof fn lemma_negamax_best(s: State, p: Player, d: nat, w: HeuristicWeights)
    requires
        d > 0,
        !s.spec_finished(p),
    ensures
        is_best_reply(s, p, d, w, negamax(s, p, d, w)),
{
    let succ = Set::new(|t: State| s.is_successor(p, t));
    State::lemma_states_finite();
    vstd::set_lib::lemma_len_subset(succ, Set::<State>::full());
    let t0 = choose|t: State| s.is_successor(p, t);
    if succ.len() == 0 {
        succ.lemma_len0_is_empty();
        assert(succ.contains(t0));
    }
    let f = |t: State| -negamax(t, p.spec_opponent(), (d - 1) as nat, w);
    let best = lemma_finite_max(succ, f);
    assert(succ.contains(best));
    assert forall|t: State| #[trigger] s.is_successor(p, t) implies -negamax(t, p.spec_opponent(), (d - 1) as nat, w) <= f(best) by {
        assert(succ.contains(t));
    }
    assert(is_best_reply(s, p, d, w, f(best)));
    let vals = reply_values(s, p, d, w);
    assert(vals.contains(f(best)));
    assert forall|x: int| #[trigger] vals.contains(x) implies x <= f(best) by {
        let t = choose|t: State| #[trigger] s.is_successor(p, t) && x == -negamax(t, p.spec_opponent(), (d - 1) as nat, w);
    }
    let m = max_of(vals);
    assert(vals.contains(m) && forall|x: int| #[trigger] vals.contains(x) ==> x <= m);
    let t = choose|t: State| #[trigger] s.is_successor(p, t) && m == -negamax(t, p.spec_opponent(), (d - 1) as nat, w);
    assert forall|q: State| #[trigger] s.is_successor(p, q) implies -negamax(q, p.spec_opponent(), (d - 1) as nat, w) <= m by {
        assert(vals.contains(-negamax(q, p.spec_opponent(), (d - 1) as nat, w)));
    }
}

/// A state with a move has a best move.
pub proof fn lemma_top_value(s: State, p: Player, d: nat, w: HeuristicWeights)
    requires
        s.has_successor(p),
    ensures
        is_top_value(s, p, d, w, top_value(s, p, d, w)),
{
    let succ = Set::new(|t: State| s.is_successor(p, t));
    State::lemma_states_finite();
    vstd::set_lib::lemma_len_subset(succ, Set::<State>::full());
    let t0 = choose|t: State| s.is_successor(p, t);
    if succ.len() == 0 {
        succ.lemma_len0_is_empty();
        assert(succ.contains(t0));
    }
    let f = |t: State| move_value(t, p, d, w);
    let best = lemma_finite_max(succ, f);
    assert(succ.contains(best));
    assert forall|t: State| #[trigger] s.is_successor(p, t) implies move_value(t, p, d, w) <= f(best) by {
        assert(succ.contains(t));
    }
    assert(is_top_value(s, p, d, w, f(best)));
}

/// Two largest values are the same value.
pub proof fn lemma_best_reply_unique(s: State, p: Player, d: nat, w: HeuristicWeights, v: int, u: int)
    requires
        is_best_reply(s, p, d, w, v),
        is_best_reply(s, p, d, w, u),
    ensures
        v == u,
{
    let t = choose|t: State| #[trigger] s.is_successor(p, t) && v == -negamax(t, p.spec_opponent(), (d - 1) as nat, w);
    let q = choose|q: State| #[trigger] s.is_successor(p, q) && u == -negamax(q, p.spec_opponent(), (d - 1) as nat, w);
}

pub proof fn lemma_top_value_unique(s: State, p: Player, d: nat, w: HeuristicWeights, v: int, u: int)
    requires
        is_top_value(s, p, d, w, v),
        is_top_value(s, p, d, w, u),
    ensures
        v == u,
{
    let t = choose|t: State| #[trigger] s.is_successor(p, t) && v == move_value(t, p, d, w);
    let q = choose|q: State| #[trigger] s.is_successor(p, q) && u == negamax(q, p, d, w);
}

/// The states and value that `select_best` picks from the values of all
/// successors are the best moves.
pub proof fn lemma_best_moves(
    state: State,
    player: Player,
    d: nat,
    w: HeuristicWeights,
    next: Seq<State>,
    values: Seq<i16>,
    states: Seq<State>,
    max: i16,
)
    requires
        state.has_successor(player),
        next.len() == values.len(),
        forall|t: State| #[trigger] next.contains(t) <==> state.is_successor(player, t),
        forall|k: int| 0 <= k < next.len() ==> #[trigger] values[k] == move_value(next[k], player, d, w),
        exists|k: int| 0 <= k < values.len() && values[k] == max,
        forall|k: int| 0 <= k < values.len() ==> values[k] <= max,
        forall|t: State|
            #[trigger] states.contains(t) <==> exists|k: int|
                0 <= k < next.len() && next[k] == t && values[k] == max,
    ensures
        is_best_moves(state, player, d, w, states, max as int),
{
    let k = choose|k: int| 0 <= k < values.len() && values[k] == max;
    assert(next.contains(next[k]));
    assert forall|t: State| #[trigger] state.is_successor(player, t) implies move_value(t, player, d, w) <= max by {
        assert(next.contains(t));
        let j = choose|j: int| 0 <= j < next.len() && next[j] == t;
        assert(values[j] <= max);
    }
    assert(is_top_value(state, player, d, w, max as int));
    lemma_top_value(state, player, d, w);
    lemma_top_value_unique(state, player, d, w, max as int, top_value(state, player, d, w));
    assert forall|t: State| #[trigger] states.contains(t) <==> (state.is_successor(player, t) && move_value(t, player, d, w) == max) by {
        if state.is_successor(player, t) && move_value(t, player, d, w) == max {
            assert(next.contains(t));
            let j = choose|j: int| 0 <= j < next.len() && next[j] == t;
            assert(values[j] == max);
        }
        if states.contains(t) {
            let j = choose|j: int| 0 <= j < next.len() && next[j] == t && values[j] == max;
            assert(next.contains(next[j]));
        }
    }
}

/// Two results that meet the best-moves contract for the same state, player,
/// depth and weights agree on the value and on the states. The contract does
/// not mention the transposition table or the search strategy, so neither
/// turning the table on or off nor choosing minimax or alpha-beta changes
/// what `best_moves` returns.
pub proof fn lemma_best_moves_unique(
    s: State,
    p: Player,
    d: nat,
    w: HeuristicWeights,
    states1: Seq<State>,
    value1: int,
    states2: Seq<State>,
    value2: int,
)
    requires
        is_best_moves(s, p, d, w, states1, value1),
        is_best_moves(s, p, d, w, states2, value2),
    ensures
        value1 == value2,
        forall|t: State| #[trigger] states1.contains(t) <==> states2.contains(t),
{
    assert forall|t: State| #[trigger] states1.contains(t) <==> states2.contains(t) by {
        assert(states1.contains(t) <==> (s.is_successor(p, t) && move_value(t, p, d, w) == value1));
        assert(states2.contains(t) <==> (s.is_successor(p, t) && move_value(t, p, d, w) == value2));
    }
}

/// Negamax values of well-formed states stay within the heuristic's range.
pub proof fn lemma_negamax_bound(s: State, p: Player, d: nat, w: HeuristicWeights)
    requires
        s.wf(),
    ensures
        -MAX_SCORE <= negamax(s, p, d, w) <= MAX_SCORE,
    decreases d,
{
    if s.spec_finished(p) {
    } else if d == 0 {
        State::lemma_heuristic_bound(s, p, w);
    } else {
        lemma_negamax_best(s, p, d, w);
        let t = choose|t: State|
            #[trigger] s.is_successor(p, t) && negamax(s, p, d, w) == -negamax(t, p.spec_opponent(), (d - 1) as nat, w);
        State::lemma_successor_wf(s, p, t);
        lemma_negamax_bound(t, p.spec_opponent(), (d - 1) as nat, w);
    }
}

/// One more, stopping at the largest value.
pub fn bump(n: u32) -> (r: u32)
    ensures
        n < u32::MAX ==> r == n + 1,
        n == u32::MAX ==> r == n,
{
    if n < u32::MAX {
        n + 1
    } else {
        n
    }
}

/// The largest of `values`, and the states at the positions where it occurs.
pub fn select_best(states: &Vec<State>, values: &Vec<i16>) -> (r: (Vec<State>, i16))
    requires
        states.len() == values.len(),
        states.len() > 0,
    ensures
        exists|k: int| 0 <= k < values.len() && values@[k] == r.1,
        forall|k: int| 0 <= k < values.len() ==> values@[k] <= r.1,
        forall|t: State|
            #[trigger] r.0@.contains(t) <==> exists|k: int|
                0 <= k < states.len() && states@[k] == t && values@[k] == r.1,
{
    let mut max = values[0];
    let mut i: usize = 1;
    while i < values.len()
        invariant
            states.len() == values.len(),
            1 <= i <= values.len(),
            exists|k: int| 0 <= k < i && values@[k] == max,
            forall|k: int| 0 <= k < i ==> values@[k] <= max,
        decreases values.len() - i,
    {
        if values[i] > max {
            max = values[i];
        }
        i = i + 1;
    }
    let mut best: Vec<State> = Vec::new();
    let mut i: usize = 0;
    while i < states.len()
        invariant
            states.len() == values.len(),
            i <= states.len(),
            forall|t: State|
                #[trigger] best@.contains(t) <==> exists|k: int|
                    0 <= k < i && states@[k] == t && values@[k] == max,
        decreases states.len() - i,
    {
        let ghost before = best@;
        if values[i] == max {
            best.push(states[i]);
            proof {
                assert forall|t: State| #[trigger] best@.contains(t) <==> (before.contains(t) || t == states@[i as int]) by {
                    if best@.contains(t) {
                        let k = choose|k: int| 0 <= k < best.len() && best@[k] == t;
                        if k < before.len() {
                            assert(before[k] == t);
                        }
                    }
                    if before.contains(t) {
                        let k = choose|k: int| 0 <= k < before.len() && before[k] == t;
                        assert(best@[k] == t);
                    }
                    if t == states@[i as int] {
                        assert(best@[best.len() - 1] == t);
                    }
                }
            }
        }
        i = i + 1;
    }
    (best, max)
}

/// What a search returns: the best successor states, their value, and the
/// search's counters.
#[derive(Debug)]
pub struct ArtificialIntelligenceResult<C> {
    pub states: Vec<State>,
    pub value: i16,
    pub counter: C,
}

/// A strategy that picks the best moves of a player.
pub trait ArtificialIntelligence {
    type Counter;

    /// How many plies below each successor the search looks.
    spec fn depth(&self) -> nat;

    /// The heuristic coefficients used at the horizon.
    spec fn weights(&self) -> HeuristicWeights;

    /// The strategy's internal tables are consistent.
    spec fn ready(&self) -> bool;

    /// The successors of `state` for `player` with the best value, where a
    /// successor `t` is valued by `move_value(t, player, depth)`: the
    /// opponent's negamax value of `t`, negated.
    fn best_moves(&mut self, state: State, player: Player) -> (r: ArtificialIntelligenceResult<
        Self::Counter,
    >)
        requires
            old(self).ready(),
            state.wf(),
            state.has_successor(player),
        ensures
            final(self).ready(),
            final(self).depth() == old(self).depth(),
            final(self).weights() == old(self).weights(),
            is_best_moves(state, player, old(self).depth(), old(self).weights(), r.states@, r.value as int),
    ;
}

} // verus!
