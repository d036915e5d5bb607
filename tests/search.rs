use morris::alpha_beta_pruning::{AlphaBetaPruning, AlphaBetaPruningOptions};
use morris::cell::Cell;
use morris::coordinate::Coordinate;
use morris::heuristic::HeuristicWeights;
use morris::minimax::{Minimax, MinimaxOptions};
use morris::player::Player;
use morris::search::ArtificialIntelligence;
use morris::state::State;

fn with_stones(white: &[u8], black: &[u8], white_stash: u8, black_stash: u8) -> State {
    let mut state = State::new();
    for &i in white {
        state.place(&Coordinate::new_index(i), Cell::White);
    }
    for &i in black {
        state.place(&Coordinate::new_index(i), Cell::Black);
    }
    state.set_stash(white_stash, Player::White);
    state.set_stash(black_stash, Player::Black);
    state
}

fn sorted(mut states: Vec<State>) -> Vec<u128> {
    let mut keys: Vec<u128> = states.drain(..).map(|s| s.key(Player::White, 0)).collect();
    keys.sort();
    keys
}

fn minimax(cache: bool, limit: u8) -> Minimax {
    Minimax::new(MinimaxOptions { cache, limit, weights: HeuristicWeights::default() })
}

fn alpha_beta(cache: bool, limit: u8, move_ordering: bool, iterative_deepening: bool) -> AlphaBetaPruning {
    AlphaBetaPruning::new(AlphaBetaPruningOptions {
        cache,
        limit,
        weights: HeuristicWeights::default(),
        move_ordering,
        move_ordering_offset: 1,
        iterative_deepening,
    })
}

#[test]
fn default_options() {
    let m = MinimaxOptions::default();
    assert!(m.cache);
    assert_eq!(m.limit, 3);
    let a = AlphaBetaPruningOptions::default();
    assert!(a.move_ordering && a.iterative_deepening && a.cache);
    assert_eq!(a.move_ordering_offset, 1);
    assert_eq!(a.weights, HeuristicWeights { stones: 2, stash: 2, mills: 2, uncompleted_mills: 1 });
}

#[test]
fn opening_at_horizon_is_even() {
    let result = minimax(true, 0).minimax(State::new(), Player::White);
    assert_eq!(result.value, 0);
    assert_eq!(result.states.len(), 24);
}

#[test]
fn capture_is_the_best_placement() {
    // White can complete 0-1-2 and take 8 or 20: 4 for White, other moves reach at most 2.
    let state = with_stones(&[0, 1], &[8, 20], 7, 7);
    let result = minimax(true, 0).minimax(state, Player::White);
    assert_eq!(result.value, 4);
    assert_eq!(result.states.len(), 2);
    for s in &result.states {
        assert_eq!(s.get(&Coordinate::new_index(2)), Cell::White);
        assert_eq!(s.count_stones(Player::Black), 1);
    }
    let pruned = alpha_beta(true, 0, true, true).alpha_beta_pruning(state, Player::White);
    assert_eq!(pruned.value, 4);
    assert_eq!(sorted(pruned.states), sorted(result.states));
}

#[test]
fn cache_does_not_change_minimax() {
    let state = with_stones(&[0, 1], &[8, 20], 7, 7);
    let cached = minimax(true, 1).minimax(state, Player::White);
    let plain = minimax(false, 1).minimax(state, Player::White);
    assert_eq!(cached.value, plain.value);
    assert_eq!(sorted(cached.states), sorted(plain.states));
    assert!(cached.counter.cache_hit > 0 || cached.counter.visited <= plain.counter.visited);
}

#[test]
fn alpha_beta_agrees_with_minimax() {
    let state = with_stones(&[0, 1, 2, 3], &[8, 10, 11, 12], 0, 0);
    for limit in 0..3 {
        let expected = minimax(true, limit).minimax(state, Player::Black);
        for &(cache, ordering, deepening) in
            &[(true, true, true), (false, false, false), (true, false, false), (false, true, true)]
        {
            let got = alpha_beta(cache, limit, ordering, deepening).alpha_beta_pruning(state, Player::Black);
            assert_eq!(got.value, expected.value);
            assert_eq!(sorted(got.states), sorted(expected.states.clone()));
        }
    }
}

#[test]
fn alpha_beta_cache_does_not_change_result() {
    let state = with_stones(&[0, 1], &[8, 20], 7, 7);
    let cached = alpha_beta(true, 1, true, true).alpha_beta_pruning(state, Player::White);
    let plain = alpha_beta(false, 1, false, false).alpha_beta_pruning(state, Player::White);
    assert_eq!(cached.value, plain.value);
    assert_eq!(sorted(cached.states), sorted(plain.states));
}

#[test]
fn strategies_through_the_trait() {
    let state = with_stones(&[0, 1], &[8, 20], 7, 7);
    let mut strategies_minimax = minimax(true, 0);
    let mut strategies_alpha_beta = alpha_beta(true, 0, true, true);
    let a = strategies_minimax.best_moves(state, Player::White);
    let b = strategies_alpha_beta.best_moves(state, Player::White);
    assert_eq!(a.value, 4);
    assert_eq!(b.value, 4);
    assert!(b.counter.visited > 0);
}

#[test]
fn winning_capture_is_found() {
    // Black has three stones and no stash; White to move completes 0-1-2 by moving 9->1
    // and takes a Black stone, leaving Black with two: a win.
    let state = with_stones(&[0, 2, 9, 22], &[4, 12, 20], 0, 0);
    let result = minimax(false, 0).minimax(state, Player::White);
    let pruned = alpha_beta(false, 0, false, false).alpha_beta_pruning(state, Player::White);
    assert_eq!(result.value, pruned.value);
    assert!(result.states.iter().all(|s| s.count_stones(Player::Black) == 2));
}
