use std::collections::HashMap;

use vstd::prelude::*;

use crate::heuristic::{HeuristicWeights, MAX_SCORE};
use crate::player::Player;
use crate::search::{
    bump, is_best_moves, is_best_reply, lemma_best_moves, lemma_best_reply_unique,
    lemma_negamax_best, move_value, negamax, select_best, ArtificialIntelligence, ArtificialIntelligenceResult,
};
use crate::state::State;

verus! {

broadcast use vstd::std_specs::hash::group_hash_axioms;

/// What the minimax search counts while it runs.
#[derive(Debug, Clone, Copy)]
pub struct Counter {
    pub visited: u32,
    pub cache_hit: u32,
    pub cache_miss: u32,
}

impl Counter {
    fn new() -> (r: Counter)
        ensures
            r.visited == 0,
            r.cache_hit == 0,
            r.cache_miss == 0,
    {
        Counter { visited: 0, cache_hit: 0, cache_miss: 0 }
    }
}

/// Settings of a minimax search.
#[derive(Debug, Clone, Copy)]
pub struct MinimaxOptions {
    /// Remember the value of each (state, player, depth) searched.
    pub cache: bool,
    /// Plies searched below each successor.
    pub limit: u8,
    pub weights: HeuristicWeights,
}

impl Default for MinimaxOptions {
    fn default() -> (r: Self)
        ensures
            r.cache,
            r.limit == 3,
            r.weights.stones == 2,
            r.weights.stash == 2,
            r.weights.mills == 2,
            r.weights.uncompleted_mills == 1,
    {
        MinimaxOptions { cache: true, limit: 3, weights: HeuristicWeights::default() }
    }
}

/// The result of a minimax search.
pub type MinimaxResult = ArtificialIntelligenceResult<Counter>;

/// Exhaustive negamax search with an optional transposition table.
pub struct Minimax {
    cache: HashMap<u128, i16>,
    counter: Counter,
    options: MinimaxOptions,
}

impl Minimax {
    pub closed spec fn spec_options(self) -> MinimaxOptions {
        self.options
    }

    /// Every table entry holds the exact negamax value of its key.
    pub closed spec fn inv(self) -> bool {
        forall|s: State, p: Player, d: u8|
            #[trigger] self.cache@.contains_key(s.spec_key(p, d)) ==> {
                let v = self.cache@[s.spec_key(p, d)];
                &&& v == negamax(s, p, d as nat, self.options.weights)
                &&& -MAX_SCORE <= v <= MAX_SCORE
            }
    }

    pub fn new(options: MinimaxOptions) -> (r: Minimax)
        ensures
            r.inv(),
            r.spec_options() == options,
    {
        Minimax { cache: HashMap::new(), counter: Counter::new(), options }
    }

    fn get_cache(&self, state: &State, player: Player, limit: u8) -> (r: Option<i16>)
        requires
            self.inv(),
        ensures
            r == (if self.options.cache && self.cache@.contains_key(state.spec_key(player, limit)) {
                Some(self.cache@[state.spec_key(player, limit)])
            } else {
                None::<i16>
            }),
            r.is_some() ==> {
                &&& r.unwrap() == negamax(*state, player, limit as nat, self.options.weights)
                &&& -MAX_SCORE <= r.unwrap() <= MAX_SCORE
            },
    {
        if self.options.cache {
            let key = state.key(player, limit);
            match self.cache.get(&key) {
                Some(value) => Some(*value),
                None => None,
            }
        } else {
            None
        }
    }

    fn set_cache(&mut self, state: &State, player: Player, limit: u8, value: i16)
        requires
            old(self).inv(),
            value == negamax(*state, player, limit as nat, old(self).options.weights),
            -MAX_SCORE <= value <= MAX_SCORE,
        ensures
            final(self).inv(),
            final(self).options == old(self).options,
            final(self).cache@ == (if old(self).options.cache {
                old(self).cache@.insert(state.spec_key(player, limit), value)
            } else {
                old(self).cache@
            }),
    {
        if self.options.cache {
            let key = state.key(player, limit);
            self.cache.insert(key, value);
            proof {
                assert forall|s: State, p: Player, d: u8|
                    #[trigger] self.cache@.contains_key(s.spec_key(p, d)) implies {
                        let v = self.cache@[s.spec_key(p, d)];
                        &&& v == negamax(s, p, d as nat, self.options.weights)
                        &&& -MAX_SCORE <= v <= MAX_SCORE
                    } by {
                    if s.spec_key(p, d) == key {
                        State::lemma_key_injective(s, p, d, *state, player, limit);
                    } else {
                        assert(old(self).cache@.contains_key(s.spec_key(p, d)));
                    }
                }
            }
        }
    }

    /// The negamax value of `state` for `player`, `limit` plies deep.
    fn value(&mut self, state: &State, player: Player, limit: u8) -> (r: i16)
        requires
            old(self).inv(),
            state.wf(),
        ensures
            final(self).inv(),
            final(self).options == old(self).options,
            !old(self).options.cache ==> final(self).cache@ == old(self).cache@,
            r == negamax(*state, player, limit as nat, old(self).options.weights),
            -MAX_SCORE <= r <= MAX_SCORE,
        decreases limit,
    {
        self.counter.visited = bump(self.counter.visited);
        if let Some(value) = self.get_cache(state, player, limit) {
            self.counter.cache_hit = bump(self.counter.cache_hit);
            return value;
        }
        self.counter.cache_miss = bump(self.counter.cache_miss);
        if state.finished(player) {
            return state.utility(player);
        }
        if limit == 0 {
            proof {
                crate::state::State::lemma_heuristic_bound(*state, player, self.options.weights);
            }
            return state.heuristic(player, &self.options.weights);
        }
        let next = state.next_states(player);
        let ghost w = self.options.weights;
        let ghost d = (limit - 1) as nat;
        let opponent = player.opponent();
        let mut best: i16 = -MAX_SCORE;
        let mut i: usize = 0;
        while i < next.len()
            invariant
                self.inv(),
                self.options.weights == w,
                old(self).options == self.options,
                !self.options.cache ==> self.cache@ == old(self).cache@,
                i <= next.len(),
                d == limit - 1,
                opponent == player.spec_opponent(),
                forall|k: int| 0 <= k < next.len() ==> (#[trigger] next@[k]).wf(),
                -MAX_SCORE <= best <= MAX_SCORE,
                forall|k: int| 0 <= k < i ==> -negamax(#[trigger] next@[k], opponent, d, w) <= best,
                i > 0 ==> exists|k: int| 0 <= k < i && best == -negamax(#[trigger] next@[k], opponent, d, w),
            decreases next.len() - i,
        {
            let v = self.value(&next[i], opponent, limit - 1);
            if i == 0 || -v > best {
                best = -v;
            }
            i = i + 1;
        }
        proof {
            let t0 = choose|t: State| state.is_successor(player, t);
            assert(next@.contains(t0));
            assert(next.len() > 0);
            let k = choose|k: int| 0 <= k < i && best == -negamax(#[trigger] next@[k], opponent, d, w);
            assert(next@.contains(next@[k]));
            assert forall|t: State| #[trigger] state.is_successor(player, t) implies -negamax(t, player.spec_opponent(), (limit - 1) as nat, w) <= best by {
                assert(next@.contains(t));
                let j = choose|j: int| 0 <= j < next.len() && next@[j] == t;
            }
            assert(is_best_reply(*state, player, limit as nat, w, best as int));
            lemma_negamax_best(*state, player, limit as nat, w);
            lemma_best_reply_unique(*state, player, limit as nat, w, best as int, negamax(*state, player, limit as nat, w));
        }
        self.set_cache(state, player, limit, best);
        best
    }

    /// The successors of `state` for `player` that reach the best value, each
    /// valued by a search of `limit` plies for the opponent, negated.
    pub fn minimax(&mut self, state: State, player: Player) -> (r: MinimaxResult)
        requires
            old(self).inv(),
            state.wf(),
            state.has_successor(player),
        ensures
            final(self).inv(),
            final(self).spec_options() == old(self).spec_options(),
            is_best_moves(
                state,
                player,
                old(self).spec_options().limit as nat,
                old(self).spec_options().weights,
                r.states@,
                r.value as int,
            ),
    {
        self.counter = Counter::new();
        let next = state.next_states(player);
        let limit = self.options.limit;
        let opponent = player.opponent();
        let ghost w = self.options.weights;
        let mut values: Vec<i16> = Vec::new();
        let mut i: usize = 0;
        while i < next.len()
            invariant
                self.inv(),
                self.options == old(self).options,
                limit == self.options.limit,
                w == self.options.weights,
                opponent == player.spec_opponent(),
                i <= next.len(),
                values.len() == i,
                forall|k: int| 0 <= k < next.len() ==> (#[trigger] next@[k]).wf(),
                forall|k: int| 0 <= k < i ==> #[trigger] values@[k] == move_value(next@[k], player, limit as nat, w),
            decreases next.len() - i,
        {
            let v = self.value(&next[i], opponent, limit);
            values.push(-v);
            i = i + 1;
        }
        proof {
            let t0 = choose|t: State| state.is_successor(player, t);
            assert(next@.contains(t0));
        }
        let (states, max) = select_best(&next, &values);
        proof {
            lemma_best_moves(state, player, limit as nat, w, next@, values@, states@, max);
        }
        ArtificialIntelligenceResult { states, value: max, counter: self.counter }
    }
}

impl ArtificialIntelligence for Minimax {
    type Counter = Counter;

    open spec fn depth(&self) -> nat {
        self.spec_options().limit as nat
    }

    open spec fn weights(&self) -> HeuristicWeights {
        self.spec_options().weights
    }

    open spec fn ready(&self) -> bool {
        self.inv()
    }

    fn best_moves(&mut self, state: State, player: Player) -> (r: ArtificialIntelligenceResult<Counter>) {
        self.minimax(state, player)
    }
}

} // verus!
