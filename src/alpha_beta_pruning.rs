use std::collections::HashMap;

use vstd::prelude::*;

use crate::heuristic::{HeuristicWeights, MAX_SCORE};
use crate::player::Player;
use crate::search::{
    bump, is_best_moves, is_best_reply, lemma_best_moves, lemma_negamax_best, lemma_negamax_bound,
    move_value, negamax, select_best, ArtificialIntelligence, ArtificialIntelligenceResult,
};
use crate::state::State;

verus! {

broadcast use vstd::std_specs::hash::group_hash_axioms;

/// Bound of the widest search window; every value lies strictly inside it.
pub const WINDOW: i16 = 32767;

/// `r`, found with the window `(a, b)`, tells the true value `v`: exactly
/// inside the window, as an upper bound at or below `a`, as a lower bound at
/// or above `b`.
pub open spec fn window_sound(r: int, v: int, a: int, b: int) -> bool {
    &&& (a < r && r < b ==> r == v)
    &&& (r <= a ==> v <= r)
    &&& (r >= b ==> v >= r)
}

/// A result found with a window stays sound for any narrower window.
pub proof fn lemma_window_narrow(r: int, v: int, a0: int, b0: int, a: int, b: int)
    requires
        window_sound(r, v, a0, b0),
        a0 <= a,
        b <= b0,
        a < b,
    ensures
        window_sound(r, v, a, b),
{
}

/// A result found with a window that holds the true value strictly inside is
/// the true value.
pub proof fn lemma_window_exact(r: int, v: int, a: int, b: int)
    requires
        window_sound(r, v, a, b),
        a < v < b,
        a <= r <= b,
    ensures
        r == v,
{
}

/// Alpha-beta searched with the widest window returns the negamax value
/// itself, the value minimax returns for the same state, player and depth.
pub proof fn lemma_widest_window_is_negamax(s: State, p: Player, d: nat, w: HeuristicWeights, r: int)
    requires
        s.wf(),
        -WINDOW <= r <= WINDOW,
        window_sound(r, negamax(s, p, d, w), -WINDOW as int, WINDOW as int),
    ensures
        r == negamax(s, p, d, w),
{
    lemma_negamax_bound(s, p, d, w);
}

/// `r` is `next` rearranged: `r[k]` is `next[pos[k]]`, each position of
/// `next` used once.
pub open spec fn rearranges(r: Seq<State>, next: Seq<State>, pos: Seq<int>) -> bool {
    &&& pos.len() == r.len()
    &&& r.len() == next.len()
    &&& forall|k: int| 0 <= k < r.len() ==> 0 <= #[trigger] pos[k] < next.len() && r[k] == next[pos[k]]
    &&& forall|k: int, l: int| 0 <= k < l < r.len() ==> pos[k] != pos[l]
}

/// What the alpha-beta search counts while it runs.
#[derive(Debug, Clone, Copy)]
pub struct Counter {
    pub visited: u32,
    pub cache_hit: u32,
    pub cache_miss: u32,
    pub move_ordering_hit: u32,
    pub move_ordering_miss: u32,
}

impl Counter {
    fn new() -> (r: Counter)
        ensures
            r.visited == 0,
            r.cache_hit == 0,
            r.cache_miss == 0,
            r.move_ordering_hit == 0,
            r.move_ordering_miss == 0,
    {
        Counter { visited: 0, cache_hit: 0, cache_miss: 0, move_ordering_hit: 0, move_ordering_miss: 0 }
    }
}

/// Settings of an alpha-beta search.
#[derive(Debug, Clone, Copy)]
pub struct AlphaBetaPruningOptions {
    /// Remember a bounded value for each (state, player, depth) searched.
    pub cache: bool,
    /// Plies searched below each successor.
    pub limit: u8,
    pub weights: HeuristicWeights,
    /// Try first the successors that a shallower search found best.
    pub move_ordering: bool,
    /// How much shallower that search is.
    pub move_ordering_offset: u8,
    /// Search at every depth from 0 up to `limit`, keeping the table.
    pub iterative_deepening: bool,
}

impl Default for AlphaBetaPruningOptions {
    fn default() -> (r: Self)
        ensures
            r.cache,
            r.limit == 3,
            r.weights.stones == 2,
            r.weights.stash == 2,
            r.weights.mills == 2,
            r.weights.uncompleted_mills == 1,
            r.move_ordering,
            r.move_ordering_offset == 1,
            r.iterative_deepening,
    {
        AlphaBetaPruningOptions {
            cache: true,
            limit: 3,
            weights: HeuristicWeights::default(),
            move_ordering: true,
            move_ordering_offset: 1,
            iterative_deepening: true,
        }
    }
}

/// The result of an alpha-beta search.
pub type AlphaBetaPruningResult = ArtificialIntelligenceResult<Counter>;

/// What the table says of a position searched with a window.
enum CacheLookup {
    /// A value sound for the window asked.
    Hit(i16),
    /// No usable value: search with this window, at least as wide.
    Miss(i16, i16),
}

/// Negamax search with alpha-beta pruning, a table of bounded values, move
/// ordering and iterative deepening.
pub struct AlphaBetaPruning {
    cache: HashMap<u128, (i16, i16, i16)>,
    counter: Counter,
    options: AlphaBetaPruningOptions,
}

impl AlphaBetaPruning {
    pub closed spec fn spec_options(self) -> AlphaBetaPruningOptions {
        self.options
    }

    /// Each table entry `(value, alpha, beta)` is sound for its window.
    pub closed spec fn inv(self) -> bool {
        forall|s: State, p: Player, d: u8|
            #[trigger] self.cache@.contains_key(s.spec_key(p, d)) ==> {
                let e = self.cache@[s.spec_key(p, d)];
                &&& -WINDOW <= e.0 <= WINDOW
                &&& -WINDOW <= e.1 <= WINDOW
                &&& -WINDOW <= e.2 <= WINDOW
                &&& window_sound(
                    e.0 as int,
                    negamax(s, p, d as nat, self.options.weights),
                    e.1 as int,
                    e.2 as int,
                )
            }
    }

    /// The value move ordering gives to `t` with `p` to move: its table
    /// value at `depth`, or 0 when the table has none.
    pub closed spec fn ordering_key(self, t: State, p: Player, depth: u8) -> int {
        if self.cache@.contains_key(t.spec_key(p, depth)) {
            self.cache@[t.spec_key(p, depth)].0 as int
        } else {
            0
        }
    }

    pub fn new(options: AlphaBetaPruningOptions) -> (r: AlphaBetaPruning)
        ensures
            r.inv(),
            r.spec_options() == options,
    {
        AlphaBetaPruning { cache: HashMap::new(), counter: Counter::new(), options }
    }

    fn get_cache(&self, state: &State, player: Player, alpha: i16, beta: i16, limit: u8) -> (r:
        CacheLookup)
        requires
            self.inv(),
            -WINDOW <= alpha < beta <= WINDOW,
        ensures
            ({
                let k = state.spec_key(player, limit);
                if !self.options.cache || !self.cache@.contains_key(k) {
                    r == CacheLookup::Miss(alpha, beta)
                } else {
                    let e = self.cache@[k];
                    if e.1 <= alpha && beta <= e.2 {
                        r == CacheLookup::Hit(e.0)
                    } else {
                        r == CacheLookup::Miss(
                            if e.1 < alpha {
                                e.1
                            } else {
                                alpha
                            },
                            if e.2 > beta {
                                e.2
                            } else {
                                beta
                            },
                        )
                    }
                }
            }),
            match r {
                CacheLookup::Hit(v) => -WINDOW <= v <= WINDOW && window_sound(
                    v as int,
                    negamax(*state, player, limit as nat, self.options.weights),
                    alpha as int,
                    beta as int,
                ),
                CacheLookup::Miss(a, b) => -WINDOW <= a <= alpha && beta <= b <= WINDOW,
            },
    {
        if !self.options.cache {
            return CacheLookup::Miss(alpha, beta);
        }
        let key = state.key(player, limit);
        match self.cache.get(&key) {
            Some(entry) => {
                let (value, cache_alpha, cache_beta) = *entry;
                if cache_alpha <= alpha && beta <= cache_beta {
                    proof {
                        lemma_window_narrow(
                            value as int,
                            negamax(*state, player, limit as nat, self.options.weights),
                            cache_alpha as int,
                            cache_beta as int,
                            alpha as int,
                            beta as int,
                        );
                    }
                    CacheLookup::Hit(value)
                } else {
                    let a = if cache_alpha < alpha {
                        cache_alpha
                    } else {
                        alpha
                    };
                    let b = if cache_beta > beta {
                        cache_beta
                    } else {
                        beta
                    };
                    CacheLookup::Miss(a, b)
                }
            },
            None => CacheLookup::Miss(alpha, beta),
        }
    }

    fn set_cache(
        &mut self,
        state: &State,
        player: Player,
        limit: u8,
        value: i16,
        alpha: i16,
        beta: i16,
    )
        requires
            old(self).inv(),
            -WINDOW <= value <= WINDOW,
            -WINDOW <= alpha <= WINDOW,
            -WINDOW <= beta <= WINDOW,
            window_sound(
                value as int,
                negamax(*state, player, limit as nat, old(self).options.weights),
                alpha as int,
                beta as int,
            ),
        ensures
            final(self).inv(),
            final(self).options == old(self).options,
            final(self).cache@ == (if old(self).options.cache {
                old(self).cache@.insert(state.spec_key(player, limit), (value, alpha, beta))
            } else {
                old(self).cache@
            }),
    {
        if self.options.cache {
            let key = state.key(player, limit);
            self.cache.insert(key, (value, alpha, beta));
            proof {
                assert forall|s: State, p: Player, d: u8|
                    #[trigger] self.cache@.contains_key(s.spec_key(p, d)) implies {
                        let e = self.cache@[s.spec_key(p, d)];
                        &&& -WINDOW <= e.0 <= WINDOW
                        &&& -WINDOW <= e.1 <= WINDOW
                        &&& -WINDOW <= e.2 <= WINDOW
                        &&& window_sound(
                            e.0 as int,
                            negamax(s, p, d as nat, self.options.weights),
                            e.1 as int,
                            e.2 as int,
                        )
                    } by {
                    if s.spec_key(p, d) == key {
                        State::lemma_key_injective(s, p, d, *state, player, limit);
                    } else {
                        assert(old(self).cache@.contains_key(s.spec_key(p, d)));
                    }
                }
            }
        }
    }

    /// The table value of `state` with `player` to move at `depth`, or 0.
    fn ordering_value(&mut self, state: &State, player: Player, depth: u8) -> (r: i16)
        ensures
            r == old(self).ordering_key(*state, player, depth),
            final(self).cache@ == old(self).cache@,
            final(self).options == old(self).options,
    {
        let key = state.key(player, depth);
        match self.cache.get(&key) {
            Some(entry) => {
                self.counter.move_ordering_hit = bump(self.counter.move_ordering_hit);
                entry.0
            },
            None => {
                self.counter.move_ordering_miss = bump(self.counter.move_ordering_miss);
                0
            },
        }
    }

    /// With move ordering on and `limit` at least the offset, sorts the
    /// successors, stably, by increasing table value for the opponent at
    /// `limit - offset` (0 when absent): the replies worst for the opponent
    /// come first. Otherwise keeps the order.
    fn order_moves(&mut self, next_states: Vec<State>, player: Player, limit: u8) -> (r: Vec<State>)
        ensures
            final(self).cache@ == old(self).cache@,
            final(self).options == old(self).options,
            r.len() == next_states.len(),
            forall|t: State| #[trigger] r@.contains(t) <==> next_states@.contains(t),
            !(old(self).options.move_ordering && limit >= old(self).options.move_ordering_offset)
                ==> r@ == next_states@,
            old(self).options.move_ordering && limit >= old(self).options.move_ordering_offset ==> exists|
                pos: Seq<int>,
            |
                {
                    &&& rearranges(r@, next_states@, pos)
                    &&& forall|k: int, l: int|
                        0 <= k < l < r.len() ==> old(self).ordering_key(
                            r@[k],
                            player.spec_opponent(),
                            (limit - old(self).options.move_ordering_offset) as u8,
                        ) <= old(self).ordering_key(
                            r@[l],
                            player.spec_opponent(),
                            (limit - old(self).options.move_ordering_offset) as u8,
                        )
                    &&& forall|k: int, l: int|
                        0 <= k < l < r.len() && old(self).ordering_key(
                            r@[k],
                            player.spec_opponent(),
                            (limit - old(self).options.move_ordering_offset) as u8,
                        ) == old(self).ordering_key(
                            r@[l],
                            player.spec_opponent(),
                            (limit - old(self).options.move_ordering_offset) as u8,
                        ) ==> pos[k] < pos[l]
                },
    {
        if !(self.options.move_ordering && limit >= self.options.move_ordering_offset) {
            return next_states;
        }
        let depth = limit - self.options.move_ordering_offset;
        let opponent = player.opponent();
        let ghost start = *self;
        let mut sorted: Vec<State> = Vec::new();
        let mut keys: Vec<i16> = Vec::new();
        let ghost mut pos: Seq<int> = Seq::empty();
        let mut i: usize = 0;
        while i < next_states.len()
            invariant
                pos.len() == i,
                forall|k: int| 0 <= k < i ==> 0 <= #[trigger] pos[k] < i && sorted@[k] == next_states@[pos[k]],
                forall|k: int, l: int| 0 <= k < l < i ==> pos[k] != pos[l],
                forall|k: int, l: int| 0 <= k < l < i && keys@[k] == keys@[l] ==> pos[k] < pos[l],
                self.cache@ == start.cache@,
                self.options == start.options,
                opponent == player.spec_opponent(),
                i <= next_states.len(),
                sorted.len() == i,
                keys.len() == i,
                forall|k: int| 0 <= k < i ==> #[trigger] keys@[k] == start.ordering_key(sorted@[k], opponent, depth),
                forall|k: int, l: int| 0 <= k < l < i ==> keys@[k] <= keys@[l],
                forall|t: State| #[trigger] sorted@.contains(t) <==> exists|j: int| 0 <= j < i && next_states@[j] == t,
            decreases next_states.len() - i,
        {
            let state = next_states[i];
            let key = self.ordering_value(&state, opponent, depth);
            let mut position: usize = 0;
            while position < keys.len() && keys[position] <= key
                invariant
                    position <= keys.len(),
                    forall|k: int| 0 <= k < position ==> keys@[k] <= key,
                decreases keys.len() - position,
            {
                position = position + 1;
            }
            let ghost old_sorted = sorted@;
            let ghost old_keys = keys@;
            let ghost old_pos = pos;
            keys.insert(position, key);
            sorted.insert(position, state);
            proof {
                pos = old_pos.insert(position as int, i as int);
                old_keys.insert_ensures(position as int, key);
                old_sorted.insert_ensures(position as int, state);
                old_pos.insert_ensures(position as int, i as int);
                assert forall|k: int| 0 <= k < i + 1 implies 0 <= #[trigger] pos[k] < i + 1 && sorted@[k] == next_states@[pos[k]] by {
                    if k > position {
                        assert(pos[k] == old_pos[k - 1]);
                        assert(sorted@[k] == old_sorted[k - 1]);
                    } else if k < position {
                        assert(pos[k] == old_pos[k]);
                    }
                }
                assert forall|k: int, l: int| 0 <= k < l < i + 1 implies pos[k] != pos[l] by {
                    let pk = if k < position { k } else if k == position { -1 } else { k - 1 };
                    let pl = if l < position { l } else if l == position { -1 } else { l - 1 };
                    if pk >= 0 { assert(pos[k] == old_pos[pk] && old_pos[pk] < i); }
                    if pl >= 0 { assert(pos[l] == old_pos[pl] && old_pos[pl] < i); }
                }
                assert forall|k: int, l: int| 0 <= k < l < i + 1 && keys@[k] == keys@[l] implies pos[k] < pos[l] by {
                    if k < position && l < position {
                        assert(keys@[k] == old_keys[k] && keys@[l] == old_keys[l]);
                        assert(pos[k] == old_pos[k] && pos[l] == old_pos[l]);
                    } else if k < position && l == position {
                        assert(pos[k] == old_pos[k] && old_pos[k] < i);
                    } else if k < position && l > position {
                        assert(keys@[k] == old_keys[k] && keys@[l] == old_keys[l - 1]);
                        assert(pos[k] == old_pos[k] && pos[l] == old_pos[l - 1]);
                    } else if k == position {
                        assert(keys@[l] == old_keys[l - 1]);
                        assert(old_keys[position as int] > key);
                        assert(old_keys[position as int] <= old_keys[l - 1]);
                    } else {
                        assert(keys@[k] == old_keys[k - 1] && keys@[l] == old_keys[l - 1]);
                        assert(pos[k] == old_pos[k - 1] && pos[l] == old_pos[l - 1]);
                    }
                }
                assert forall|k: int| 0 <= k < i + 1 implies #[trigger] keys@[k] == start.ordering_key(sorted@[k], opponent, depth) by {
                    if k > position {
                        assert(keys@[k] == old_keys[k - 1]);
                        assert(sorted@[k] == old_sorted[k - 1]);
                    }
                }
                assert forall|k: int, l: int| 0 <= k < l < i + 1 implies keys@[k] <= keys@[l] by {
                    if l > position {
                        assert(keys@[l] == old_keys[l - 1]);
                    }
                    if k > position {
                        assert(keys@[k] == old_keys[k - 1]);
                    }
                    if k < position && l == position {
                        assert(keys@[k] == old_keys[k]);
                    }
                    if k == position && l > position {
                        if position < old_keys.len() {
                            assert(old_keys[position as int] > key);
                            assert(old_keys[position as int] <= old_keys[l - 1]);
                        }
                    }
                }
                assert forall|t: State| #[trigger] sorted@.contains(t) <==> exists|j: int| 0 <= j < i + 1 && next_states@[j] == t by {
                    if sorted@.contains(t) {
                        let k = choose|k: int| 0 <= k < sorted.len() && sorted@[k] == t;
                        if k < position {
                            assert(old_sorted[k] == t);
                            assert(old_sorted.contains(t));
                        } else if k > position {
                            assert(old_sorted[k - 1] == t);
                            assert(old_sorted.contains(t));
                        }
                    }
                    if exists|j: int| 0 <= j < i + 1 && next_states@[j] == t {
                        let j = choose|j: int| 0 <= j < i + 1 && next_states@[j] == t;
                        if j < i {
                            assert(old_sorted.contains(t));
                            let k = choose|k: int| 0 <= k < old_sorted.len() && old_sorted[k] == t;
                            if k < position {
                                assert(sorted@[k] == t);
                            } else {
                                assert(sorted@[k + 1] == t);
                            }
                        } else {
                            assert(sorted@[position as int] == t);
                        }
                    }
                }
            }
            i = i + 1;
        }
        proof {
            assert(start == *old(self));
            assert(rearranges(sorted@, next_states@, pos));
            assert forall|k: int, l: int| 0 <= k < l < sorted.len() && start.ordering_key(sorted@[k], opponent, depth)
                == start.ordering_key(sorted@[l], opponent, depth) implies pos[k] < pos[l] by {
                assert(keys@[k] == keys@[l]);
            }
            assert forall|k: int, l: int| 0 <= k < l < sorted.len() implies start.ordering_key(sorted@[k], opponent, depth)
                <= start.ordering_key(sorted@[l], opponent, depth) by {
                assert(keys@[k] <= keys@[l]);
            }
            assert forall|t: State| #[trigger] sorted@.contains(t) <==> next_states@.contains(t) by {
                if next_states@.contains(t) {
                    let j = choose|j: int| 0 <= j < next_states.len() && next_states@[j] == t;
                }
            }
        }
        sorted
    }

    /// Searches `state` for `player`, `limit` plies deep, with the window
    /// `(alpha, beta)`; the result is sound for that window.
    fn value(&mut self, state: &State, player: Player, alpha: i16, beta: i16, limit: u8) -> (r: i16)
        requires
            old(self).inv(),
            state.wf(),
            -WINDOW <= alpha < beta <= WINDOW,
        ensures
            final(self).inv(),
            final(self).options == old(self).options,
            !old(self).options.cache ==> final(self).cache@ == old(self).cache@,
            -WINDOW <= r <= WINDOW,
            window_sound(
                r as int,
                negamax(*state, player, limit as nat, old(self).options.weights),
                alpha as int,
                beta as int,
            ),
        decreases limit,
    {
        let ghost w = self.options.weights;
        let ghost truth = negamax(*state, player, limit as nat, w);
        self.counter.visited = bump(self.counter.visited);
        let (low, high) = match self.get_cache(state, player, alpha, beta, limit) {
            CacheLookup::Hit(value) => {
                self.counter.cache_hit = bump(self.counter.cache_hit);
                return value;
            },
            CacheLookup::Miss(low, high) => {
                self.counter.cache_miss = bump(self.counter.cache_miss);
                (low, high)
            },
        };
        if state.finished(player) {
            return state.utility(player);
        }
        if limit == 0 {
            proof {
                State::lemma_heuristic_bound(*state, player, w);
            }
            return state.heuristic(player, &self.options.weights);
        }
        let successors = state.next_states(player);
        let next = self.order_moves(successors, player, limit);
        let ghost d = (limit - 1) as nat;
        let opponent = player.opponent();
        proof {
            lemma_negamax_best(*state, player, limit as nat, w);
        }
        let mut value = low;
        let mut i: usize = 0;
        while i < next.len()
            invariant
                self.inv(),
                self.options.weights == w,
                old(self).options == self.options,
                !self.options.cache ==> self.cache@ == old(self).cache@,
                state.wf(),
                i <= next.len(),
                d == limit - 1,
                opponent == player.spec_opponent(),
                truth == negamax(*state, player, limit as nat, w),
                is_best_reply(*state, player, limit as nat, w, truth),
                forall|t: State| #[trigger] next@.contains(t) <==> state.is_successor(player, t),
                -WINDOW <= low <= value < high <= WINDOW,
                low <= alpha < beta <= high,
                forall|k: int| 0 <= k < i ==> -negamax(#[trigger] next@[k], opponent, d, w) <= value,
                value == low || exists|k: int| 0 <= k < i && value == -negamax(#[trigger] next@[k], opponent, d, w),
            decreases next.len() - i,
        {
            let previous = value;
            proof {
                assert(next@.contains(next@[i as int]));
                State::lemma_successor_wf(*state, player, next@[i as int]);
            }
            let reply = self.value(&next[i], opponent, -high, -previous, limit - 1);
            if -reply > value {
                value = -reply;
            }
            if value >= high {
                proof {
                    let child = negamax(next@[i as int], opponent, d, w);
                    assert(-child <= truth);
                    assert(truth >= value);
                    lemma_window_narrow(value as int, truth, low as int, high as int, alpha as int, beta as int);
                }
                self.set_cache(state, player, limit, value, previous, high);
                return value;
            }
            i = i + 1;
        }
        proof {
            assert forall|t: State| #[trigger] state.is_successor(player, t) implies -negamax(t, player.spec_opponent(), (limit - 1) as nat, w) <= value by {
                assert(next@.contains(t));
                let j = choose|j: int| 0 <= j < next.len() && next@[j] == t;
            }
            assert(truth <= value);
            if value != low {
                let k = choose|k: int| 0 <= k < i && value == -negamax(#[trigger] next@[k], opponent, d, w);
                assert(next@.contains(next@[k]));
                assert(truth >= value);
            }
            lemma_window_narrow(value as int, truth, low as int, high as int, alpha as int, beta as int);
        }
        self.set_cache(state, player, limit, value, value, high);
        value
    }

    /// The exact values of `next` for `player`: each searched `depth` plies
    /// deep for the opponent with the widest window, negated.
    fn evaluate_all(&mut self, next: &Vec<State>, player: Player, depth: u8) -> (r: Vec<i16>)
        requires
            old(self).inv(),
            forall|k: int| 0 <= k < next.len() ==> (#[trigger] next@[k]).wf(),
        ensures
            final(self).inv(),
            final(self).options == old(self).options,
            r.len() == next.len(),
            forall|k: int| 0 <= k < next.len() ==> #[trigger] r@[k] == move_value(next@[k], player, depth as nat, old(self).options.weights),
    {
        let ghost w = self.options.weights;
        let opponent = player.opponent();
        let mut values: Vec<i16> = Vec::new();
        let mut i: usize = 0;
        while i < next.len()
            invariant
                self.inv(),
                self.options == old(self).options,
                w == self.options.weights,
                opponent == player.spec_opponent(),
                i <= next.len(),
                values.len() == i,
                forall|k: int| 0 <= k < next.len() ==> (#[trigger] next@[k]).wf(),
                forall|k: int| 0 <= k < i ==> #[trigger] values@[k] == move_value(next@[k], player, depth as nat, w),
            decreases next.len() - i,
        {
            let v = self.value(&next[i], opponent, -WINDOW, WINDOW, depth);
            proof {
                lemma_negamax_bound(next@[i as int], opponent, depth as nat, w);
                lemma_window_exact(v as int, negamax(next@[i as int], opponent, depth as nat, w), -WINDOW as int, WINDOW as int);
            }
            values.push(-v);
            i = i + 1;
        }
        values
    }

    /// The successors of `state` for `player` that reach the best value, each
    /// valued by a search of `limit` plies for the opponent, negated; with iterative
    /// deepening the shallower searches run first and fill the table.
    pub fn alpha_beta_pruning(&mut self, state: State, player: Player) -> (r: AlphaBetaPruningResult)
        requires
            old(self).inv(),
            state.wf(),
            state.has_successor(player),
        ensures
            final(self).inv(),
            final(self).spec_options() == old(self).spec_options(),
            is_best_moves(
                state,
                player,
                old(self).spec_options().limit as nat,
                old(self).spec_options().weights,
                r.states@,
                r.value as int,
            ),
    {
        self.counter = Counter::new();
        let next = state.next_states(player);
        let limit = self.options.limit;
        let ghost w = self.options.weights;
        let mut depth: u8 = if self.options.iterative_deepening {
            0
        } else {
            limit
        };
        let mut values = self.evaluate_all(&next, player, depth);
        while depth < limit
            invariant
                self.inv(),
                self.options == old(self).options,
                limit == self.options.limit,
                w == self.options.weights,
                depth <= limit,
                values.len() == next.len(),
                forall|k: int| 0 <= k < next.len() ==> (#[trigger] next@[k]).wf(),
                forall|k: int| 0 <= k < next.len() ==> #[trigger] values@[k] == move_value(next@[k], player, depth as nat, w),
            decreases limit - depth,
        {
            depth = depth + 1;
            values = self.evaluate_all(&next, player, depth);
        }
        proof {
            let t0 = choose|t: State| state.is_successor(player, t);
            assert(next@.contains(t0));
        }
        let (states, max) = select_best(&next, &values);
        proof {
            lemma_best_moves(state, player, limit as nat, w, next@, values@, states@, max);
        }
        ArtificialIntelligenceResult { states, value: max, counter: self.counter }
    }
}

impl ArtificialIntelligence for AlphaBetaPruning {
    type Counter = Counter;

    open spec fn depth(&self) -> nat {
        self.spec_options().limit as nat
    }

    open spec fn weights(&self) -> HeuristicWeights {
        self.spec_options().weights
    }

    open spec fn ready(&self) -> bool {
        self.inv()
    }

    fn best_moves(&mut self, state: State, player: Player) -> (r: ArtificialIntelligenceResult<Counter>) {
        self.alpha_beta_pruning(state, player)
    }
}

} // verus!
