use vstd::prelude::*;

use crate::cell::Cell;
use crate::mill::{listed, mill_cell, Mill, MILLS};
use crate::player::Player;
use crate::state::State;

verus! {

/// The largest score a heuristic evaluation can reach for one side:
/// every weight at 255, 24 stones, a stash of 9, 16 mills and 16 almost-mills.
pub const MAX_SCORE: i16 = 16575;

/// Coefficients of the static evaluation.
#[derive(Debug, Clone, Copy, PartialEq, Eq, Hash, Structural)]
pub struct HeuristicWeights {
    pub stones: u8,
    pub stash: u8,
    pub mills: u8,
    pub uncompleted_mills: u8,
}

impl Default for HeuristicWeights {
    fn default() -> (r: Self)
        ensures
            r.stones == 2,
            r.stash == 2,
            r.mills == 2,
            r.uncompleted_mills == 1,
    {
        HeuristicWeights { stones: 2, stash: 2, mills: 2, uncompleted_mills: 1 }
    }
}

proof fn lemma_product_bound(a: int, b: int, bmax: int)
    by (nonlinear_arith)
    requires
        0 <= a <= 255,
        0 <= b <= bmax,
    ensures
        0 <= a * b <= 255 * bmax,
{
}

impl State {
    /// Two positions of line `m` hold the player's stones and the third is empty.
    pub open spec fn almost_mill(self, p: Player, m: int) -> bool {
        let a = self.cell(mill_cell(m, 0));
        let b = self.cell(mill_cell(m, 1));
        let c = self.cell(mill_cell(m, 2));
        let s = p.spec_stone();
        ||| (a == s && b == s && c == Cell::Empty)
        ||| (a == s && b == Cell::Empty && c == s)
        ||| (a == Cell::Empty && b == s && c == s)
    }

    /// How many of the lines `0..n` are almost-mills of the player.
    pub open spec fn almost_upto(self, p: Player, n: int) -> nat
        decreases n,
    {
        if n <= 0 {
            0
        } else {
            self.almost_upto(p, n - 1) + if self.almost_mill(p, n - 1) {
                1nat
            } else {
                0nat
            }
        }
    }

    /// The weighted material of one side.
    pub open spec fn spec_score(self, p: Player, w: HeuristicWeights) -> int {
        w.stones * self.count(p) + w.stash * self.stash(p) + w.mills * self.mills_upto(p, 16)
            + w.uncompleted_mills * self.almost_upto(p, 16)
    }

    /// The static evaluation for `p`: its score minus the opponent's.
    pub open spec fn spec_heuristic(self, p: Player, w: HeuristicWeights) -> int {
        self.spec_score(p, w) - self.spec_score(p.spec_opponent(), w)
    }

    proof fn lemma_lines_bound(s: State, p: Player, n: int)
        requires
            0 <= n,
        ensures
            s.mills_upto(p, n) <= n,
            s.almost_upto(p, n) <= n,
        decreases n,
    {
        if n > 0 {
            State::lemma_lines_bound(s, p, n - 1);
        }
    }

    pub proof fn lemma_heuristic_bound(s: State, p: Player, w: HeuristicWeights)
        requires
            s.wf(),
        ensures
            -MAX_SCORE <= s.spec_heuristic(p, w) <= MAX_SCORE,
    {
        assert forall|q: Player| 0 <= #[trigger] s.spec_score(q, w) <= MAX_SCORE by {
            State::lemma_count_bound(s, q, 24);
            State::lemma_lines_bound(s, q, 16);
            assert(s.stash(q) <= 9);
            lemma_product_bound(w.stones as int, s.count(q) as int, 24);
            lemma_product_bound(w.stash as int, s.stash(q) as int, 9);
            lemma_product_bound(w.mills as int, s.mills_upto(q, 16) as int, 16);
            lemma_product_bound(w.uncompleted_mills as int, s.almost_upto(q, 16) as int, 16);
        }
        assert(0 <= s.spec_score(p.spec_opponent(), w) <= MAX_SCORE);
        assert(0 <= s.spec_score(p, w) <= MAX_SCORE);
    }

    /// The lines where the player has two stones and the third position is
    /// empty, in increasing order.
    pub fn get_uncompleted_mills(&self, player: Player) -> (r: Vec<Mill>)
        ensures
            r.len() == self.almost_upto(player, 16),
            r.len() <= 16,
            forall|k: int|
                0 <= k < r.len() ==> (#[trigger] r@[k]).wf() && self.almost_mill(player, r@[k].idx()),
            forall|k: int, l: int| 0 <= k < l < r.len() ==> r@[k].idx() < r@[l].idx(),
            forall|m: int| 0 <= m < 16 ==> (listed(r@, m) <==> self.almost_mill(player, m)),
    {
        let stone = player.stone();
        let mut r: Vec<Mill> = Vec::new();
        let mut i: usize = 0;
        while i < MILLS
            invariant
                i <= 16,
                stone == player.spec_stone(),
                r.len() == self.almost_upto(player, i as int),
                r.len() <= i,
                forall|k: int|
                    0 <= k < r.len() ==> (#[trigger] r@[k]).wf() && self.almost_mill(
                        player,
                        r@[k].idx(),
                    ) && r@[k].idx() < i,
                forall|k: int, l: int| 0 <= k < l < r.len() ==> r@[k].idx() < r@[l].idx(),
                forall|m: int| 0 <= m < i ==> (listed(r@, m) <==> self.almost_mill(player, m)),
            decreases 16 - i,
        {
            let mill = Mill::new(i);
            let coordinates = mill.get_coordinates();
            let a = self.get(&coordinates[0]);
            let b = self.get(&coordinates[1]);
            let c = self.get(&coordinates[2]);
            let almost = (a == stone && b == stone && c == Cell::Empty) || (a == stone && b
                == Cell::Empty && c == stone) || (a == Cell::Empty && b == stone && c == stone);
            let ghost before = r@;
            if almost {
                r.push(mill);
                proof {
                    assert(r@[r.len() - 1].idx() == i);
                    assert forall|m: int| 0 <= m < i + 1 implies (listed(r@, m) <==> self.almost_mill(player, m)) by {
                        if listed(before, m) {
                            let k = choose|k: int| 0 <= k < before.len() && (#[trigger] before[k]).idx() == m;
                            assert(r@[k] == before[k]);
                        }
                        if listed(r@, m) && m < i {
                            let k = choose|k: int| 0 <= k < r.len() && (#[trigger] r@[k]).idx() == m;
                            assert(k < before.len());
                            assert(before[k] == r@[k]);
                        }
                    }
                }
            } else {
                proof {
                    assert(r@ == before);
                    assert(!listed(r@, i as int));
                }
            }
            i = i + 1;
        }
        r
    }

    fn score(&self, player: Player, options: &HeuristicWeights) -> (r: i32)
        requires
            self.wf(),
        ensures
            r == self.spec_score(player, *options),
            0 <= r <= MAX_SCORE,
    {
        let stones = self.count_stones(player);
        let stash = self.get_stash(player);
        let mills = self.get_mills(player).len();
        let almost = self.get_uncompleted_mills(player).len();
        proof {
            lemma_product_bound(options.stones as int, stones as int, 24);
            lemma_product_bound(options.stash as int, stash as int, 9);
            lemma_product_bound(options.mills as int, mills as int, 16);
            lemma_product_bound(options.uncompleted_mills as int, almost as int, 16);
        }
        options.stones as i32 * stones as i32 + options.stash as i32 * stash as i32
            + options.mills as i32 * mills as i32 + options.uncompleted_mills as i32 * almost as i32
    }

    /// The static evaluation of the state for `player`.
    pub fn heuristic(&self, player: Player, options: &HeuristicWeights) -> (r: i16)
        requires
            self.wf(),
        ensures
            r == self.spec_heuristic(player, *options),
            -MAX_SCORE <= r <= MAX_SCORE,
    {
        let own = self.score(player, options);
        let other = self.score(player.opponent(), options);
        (own - other) as i16
    }
}

} // verus!
