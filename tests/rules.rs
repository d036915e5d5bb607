use morris::cell::Cell;
use morris::coordinate::Coordinate;
use morris::game::{LOSS, WIN};
use morris::mill::Mill;
use morris::phase::Phase;
use morris::player::Player;
use morris::state::State;

fn at(index: u8) -> Coordinate {
    Coordinate::new_index(index)
}

fn indices(coordinates: &[Coordinate]) -> Vec<u8> {
    coordinates.iter().map(|c| c.index()).collect()
}

fn with_stones(white: &[u8], black: &[u8], white_stash: u8, black_stash: u8) -> State {
    let mut state = State::new();
    for &i in white {
        state.place(&at(i), Cell::White);
    }
    for &i in black {
        state.place(&at(i), Cell::Black);
    }
    state.set_stash(white_stash, Player::White);
    state.set_stash(black_stash, Player::Black);
    state
}

#[test]
fn opponent_is_an_involution() {
    assert_eq!(Player::White.opponent(), Player::Black);
    assert_eq!(Player::Black.opponent(), Player::White);
    assert_eq!(Player::White.opponent().opponent(), Player::White);
}

#[test]
fn coordinate_ring_and_slot() {
    let c = Coordinate::new(2, 5);
    assert_eq!(c.index(), 21);
    assert_eq!(c.ring(), 2);
    assert_eq!(c.cell(), 5);
    assert_eq!(Coordinate::new(1, 3).as_mask(Player::White), 1u64 << 11);
    assert_eq!(Coordinate::new(1, 3).as_mask(Player::Black), 1u64 << 35);
}

#[test]
fn corner_has_two_neighbours() {
    let mut n = indices(&at(0).neighbours());
    n.sort();
    assert_eq!(n, vec![1, 7]);
}

#[test]
fn spoke_positions_link_rings() {
    let mut outer = indices(&at(1).neighbours());
    outer.sort();
    assert_eq!(outer, vec![0, 2, 9]);
    let mut middle = indices(&at(9).neighbours());
    middle.sort();
    assert_eq!(middle, vec![1, 8, 10, 17]);
    let mut inner = indices(&at(23).neighbours());
    inner.sort();
    assert_eq!(inner, vec![15, 16, 22]);
}

#[test]
fn mill_lines_positions() {
    assert_eq!(indices(&Mill::new(0).get_coordinates()), vec![0, 1, 2]);
    assert_eq!(indices(&Mill::new(3).get_coordinates()), vec![0, 6, 7]);
    assert_eq!(indices(&Mill::new(7).get_coordinates()), vec![8, 14, 15]);
    assert_eq!(indices(&Mill::new(12).get_coordinates()), vec![1, 9, 17]);
    assert_eq!(indices(&Mill::new(15).get_coordinates()), vec![7, 15, 23]);
    assert_eq!(Mill::new(0).as_mask(Player::White), 0b111);
    assert_eq!(Mill::new(0).as_mask(Player::Black), 0b111 << 24);
}

#[test]
fn new_state_is_empty_with_full_stash() {
    let state = State::new();
    for i in 0..24 {
        assert_eq!(state.get(&at(i)), Cell::Empty);
    }
    assert_eq!(state.get_stash(Player::White), 9);
    assert_eq!(state.get_stash(Player::Black), 9);
    assert_eq!(state.count_stones(Player::White), 0);
    assert_eq!(state.get_cells(Cell::Empty).len(), 24);
}

#[test]
fn place_keeps_one_colour_per_position() {
    let mut state = State::new();
    state.place(&at(5), Cell::White);
    assert_eq!(state.get(&at(5)), Cell::White);
    state.place(&at(5), Cell::Black);
    assert_eq!(state.get(&at(5)), Cell::Black);
    assert_eq!(state.count_stones(Player::White), 0);
    assert_eq!(state.count_stones(Player::Black), 1);
    state.place(&at(5), Cell::Empty);
    assert_eq!(state.get(&at(5)), Cell::Empty);
    assert_eq!(state.count_stones(Player::Black), 0);
    assert_eq!(state.get_stash(Player::White), 9);
}

#[test]
fn move_and_switch() {
    let mut state = with_stones(&[3], &[4], 0, 0);
    state.move_to(&at(3), &at(2), Player::White);
    assert_eq!(state.get(&at(3)), Cell::Empty);
    assert_eq!(state.get(&at(2)), Cell::White);
    state.switch(&at(2), &at(4));
    assert_eq!(state.get(&at(2)), Cell::Black);
    assert_eq!(state.get(&at(4)), Cell::White);
}

#[test]
fn stash_decrements_to_zero() {
    let mut state = State::new();
    for expected in (0..9).rev() {
        assert!(state.has_stash(Player::White));
        state.decrement_stash(Player::White);
        assert_eq!(state.get_stash(Player::White), expected);
    }
    assert!(!state.has_stash(Player::White));
    assert_eq!(state.get_stash(Player::Black), 9);
}

#[test]
fn cells_and_neighbours_by_kind() {
    let state = with_stones(&[0, 9], &[1], 7, 8);
    assert_eq!(indices(&state.get_cells(Cell::White)), vec![0, 9]);
    assert_eq!(indices(&state.get_cells(Cell::Black)), vec![1]);
    let mut empty_near = indices(&state.get_neighbours(&at(9), Cell::Empty));
    empty_near.sort();
    assert_eq!(empty_near, vec![8, 10, 17]);
    assert_eq!(indices(&state.get_neighbours(&at(9), Cell::Black)), vec![1]);
}

#[test]
fn phase_follows_stash_and_stones() {
    assert_eq!(State::new().phase(Player::White), Phase::Placing);
    let flying = with_stones(&[0, 1, 2], &[8, 9, 10, 11], 0, 0);
    assert_eq!(flying.phase(Player::White), Phase::Flying);
    assert_eq!(flying.phase(Player::Black), Phase::Moving);
    assert_eq!(Phase::Flying.name(), "flying");
}

#[test]
fn mills_are_found() {
    let state = with_stones(&[0, 1, 2, 9, 17], &[8], 4, 8);
    let mills: Vec<Mill> = state.get_mills(Player::White);
    assert_eq!(mills, vec![Mill::new(0), Mill::new(12)]);
    assert!(state.has_mill(Player::White, &Mill::new(0)));
    assert!(!state.has_mill(Player::Black, &Mill::new(0)));
    assert_eq!(indices(&state.get_mills_cells(Player::White)), vec![0, 1, 2, 1, 9, 17]);
    assert_eq!(state.get_uncompleted_mills(Player::White), Vec::<Mill>::new());
}

#[test]
fn almost_mills_are_found() {
    let state = with_stones(&[0, 1, 9], &[], 6, 9);
    assert_eq!(state.get_uncompleted_mills(Player::White), vec![Mill::new(0), Mill::new(12)]);
}

#[test]
fn initial_placing_yields_twenty_four_states() {
    let state = State::new();
    let next = state.next_states(Player::White);
    assert_eq!(next.len(), 24);
    for s in &next {
        assert_eq!(s.get_stash(Player::White), 8);
        assert_eq!(s.get_stash(Player::Black), 9);
        assert_eq!(s.count_stones(Player::White), 1);
        assert_eq!(s.count_stones(Player::Black), 0);
    }
    for i in 0..next.len() {
        for j in (i + 1)..next.len() {
            assert_ne!(next[i], next[j]);
        }
    }
}

#[test]
fn pounding_spares_black_mills() {
    // White completed the mill 0-1-2; Black holds the mill 8-9-10 and a loose stone at 20.
    let state = with_stones(&[0, 1, 2], &[8, 9, 10, 20], 6, 5);
    let before: Vec<Mill> = Vec::new();
    let result = state.pound_mills(Player::White, &before);
    assert_eq!(result.len(), 1);
    let after = result[0];
    assert_eq!(after.count_stones(Player::Black), 3);
    assert_eq!(after.get(&at(20)), Cell::Empty);
    for i in [8, 9, 10] {
        assert_eq!(after.get(&at(i)), Cell::Black);
    }
    assert_eq!(after.count_stones(Player::White), 3);
}

#[test]
fn pounding_takes_mill_stones_when_nothing_else() {
    let state = with_stones(&[0, 1, 2], &[8, 9, 10], 6, 6);
    let result = state.pound_mills(Player::White, &Vec::new());
    assert_eq!(result.len(), 3);
    for s in &result {
        assert_eq!(s.count_stones(Player::Black), 2);
    }
    let cells = state.get_poundable_cells(Player::Black);
    assert_eq!(indices(&cells), vec![8, 9, 10]);
}

#[test]
fn old_mills_take_nothing() {
    let state = with_stones(&[0, 1, 2], &[8, 20], 6, 7);
    let before = state.get_mills(Player::White);
    let result = state.pound_mills(Player::White, &before);
    assert_eq!(result, vec![state]);
}

#[test]
fn two_captures_branch_over_pairs() {
    let state = with_stones(&[0, 1, 2], &[8, 20, 21], 6, 6);
    let result = state.pound_stones(Player::Black, 2);
    assert_eq!(result.len(), 3);
    for s in &result {
        assert_eq!(s.count_stones(Player::Black), 1);
    }
}

#[test]
fn capture_without_target_has_no_result() {
    let state = with_stones(&[0, 1, 2], &[], 6, 9);
    assert_eq!(state.pound_stones(Player::Black, 1).len(), 0);
}

#[test]
fn placing_into_a_mill_captures_one_loose_stone() {
    let state = with_stones(&[0, 1], &[8, 9, 10, 20], 7, 5);
    let next = state.next_states(Player::White);
    let with_mill: Vec<State> = next.into_iter().filter(|s| s.get(&at(2)) == Cell::White).collect();
    assert_eq!(with_mill.len(), 1);
    assert_eq!(with_mill[0].get(&at(20)), Cell::Empty);
    assert_eq!(with_mill[0].count_stones(Player::Black), 3);
    assert_eq!(with_mill[0].get_stash(Player::White), 6);
}

#[test]
fn moving_slides_to_empty_neighbours() {
    // White on 0, 1, 2, 3 (four stones, no stash): the only empty neighbours are 4 and 7 and 9.
    let state = with_stones(&[0, 1, 2, 3], &[8, 10, 11, 12], 0, 0);
    let next = state.next_states(Player::White);
    // 0->7, 1->9, 3->4; 0->7 and 3->4 break no mill and form none, 1->9 forms none.
    assert_eq!(next.len(), 3);
    for s in &next {
        assert_eq!(s.count_stones(Player::White), 4);
        assert_eq!(s.count_stones(Player::Black), 4);
    }
}

#[test]
fn flying_reaches_every_empty_position() {
    let state = with_stones(&[0, 5, 12], &[1, 2, 3, 4], 0, 0);
    let next = state.next_states(Player::White);
    // 3 stones times 17 empty positions, no mill formed.
    assert_eq!(next.len(), 51);
}

#[test]
fn eliminated_player_loses() {
    let state = with_stones(&[0, 1], &[8, 9, 10], 0, 0);
    assert!(!state.has_enough_stones(Player::White));
    assert!(state.has_enough_stones(Player::Black));
    assert!(state.finished(Player::White));
    assert!(state.finished(Player::Black));
    assert_eq!(state.utility(Player::White), LOSS);
    assert_eq!(state.utility(Player::Black), WIN);
}

#[test]
fn stash_keeps_player_in_game() {
    let state = with_stones(&[], &[], 1, 1);
    assert!(state.has_enough_stones(Player::White));
    assert!(!state.finished(Player::White));
    assert_eq!(state.utility(Player::White), 0);
}

#[test]
fn blocked_player_loses() {
    // White's four stones on 0, 1, 2, 3 have every neighbour taken by Black.
    let state = with_stones(&[0, 1, 2, 3], &[4, 7, 9, 11, 12], 0, 0);
    assert!(state.next_states(Player::White).is_empty());
    assert!(state.finished(Player::White));
    assert_eq!(state.utility(Player::White), LOSS);
}

#[test]
fn heuristic_counts_weighted_material() {
    let weights = morris::heuristic::HeuristicWeights::default();
    assert_eq!(State::new().heuristic(Player::White, &weights), 0);
    // White: 3 stones, 6 stash, 1 mill, 0 almost: 20. Black: 1 stone, 7 stash: 16.
    let state = with_stones(&[0, 1, 2], &[20], 6, 7);
    assert_eq!(state.heuristic(Player::White, &weights), 4);
    assert_eq!(state.heuristic(Player::Black, &weights), -4);
}

#[test]
fn cell_symbols_and_owners() {
    assert_eq!(Cell::White.symbol(), "w");
    assert_eq!(Cell::Empty.symbol(), " ");
    assert_eq!(Cell::Black.owner(), Some(Player::Black));
    assert_eq!(Cell::Empty.owner(), None);
    assert_eq!(Player::Black.stone(), Cell::Black);
}

#[test]
fn keys_tell_player_and_depth_apart() {
    let state = State::new();
    assert_ne!(state.key(Player::White, 1), state.key(Player::Black, 1));
    assert_ne!(state.key(Player::White, 1), state.key(Player::White, 2));
}

#[test]
fn placements_never_overlap() {
    let mut state = State::new();
    let kinds = [Cell::White, Cell::Black, Cell::Empty, Cell::Black, Cell::White];
    for step in 0..60u8 {
        let position = (step * 7) % 24;
        state.place(&at(position), kinds[(step % 5) as usize]);
        let mut occupied: u8 = 0;
        for i in 0..24 {
            if state.get(&at(i)) != Cell::Empty {
                occupied += 1;
            }
        }
        assert_eq!(state.count_stones(Player::White) + state.count_stones(Player::Black), occupied);
        assert_eq!(state.get(&at(position)), kinds[(step % 5) as usize]);
    }
}

#[test]
fn stash_means_placing_even_without_stones() {
    let state = with_stones(&[], &[0, 1, 2, 3], 1, 0);
    assert_eq!(state.phase(Player::White), Phase::Placing);
    assert_eq!(state.phase(Player::Black), Phase::Moving);
    assert_eq!(state.next_states(Player::White).len(), 20);
}

#[test]
fn bits_round_trip() {
    let state = with_stones(&[0, 23], &[22], 3, 4);
    assert_eq!(State::from_bits(state.bits()), state);
    assert_eq!(State::new().bits(), (9u64 << 48) | (9u64 << 56));
    assert_eq!(with_stones(&[1], &[2], 0, 0).bits(), (1u64 << 1) | (1u64 << 26));
}

#[test]
fn neighbours_in_order() {
    assert_eq!(indices(&at(0).neighbours()), vec![7, 1]);
    assert_eq!(indices(&at(9).neighbours()), vec![8, 10, 1, 17]);
    assert_eq!(indices(&at(17).neighbours()), vec![16, 18, 9]);
}
