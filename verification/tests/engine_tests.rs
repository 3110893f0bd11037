use ai_2048::game::Game;
use ai_2048::game::Move;

fn row_board(row: [u8; 4]) -> Game {
    let mut g = Game::empty();
    g.set_state([row[0], row[1], row[2], row[3], 0, 0, 0, 0, 0, 0, 0, 0, 0, 0, 0, 0]);
    g
}

#[test]
fn merge_scores_left_and_right() {
    let mut g = row_board([1, 1, 2, 2]);
    g.shift(Move::Left);
    assert_eq!(g.get_state(), &[2, 3, 0, 0, 0, 0, 0, 0, 0, 0, 0, 0, 0, 0, 0, 0]);
    assert_eq!(g.get_score(), &12);

    let mut g = row_board([1, 1, 2, 2]);
    g.shift(Move::Right);
    assert_eq!(g.get_state(), &[0, 0, 2, 3, 0, 0, 0, 0, 0, 0, 0, 0, 0, 0, 0, 0]);
    assert_eq!(g.get_score(), &12);
}

#[test]
fn no_double_merge() {
    let mut g = row_board([1, 2, 2, 2]);
    g.shift(Move::Left);
    assert_eq!(g.get_state(), &[1, 3, 2, 0, 0, 0, 0, 0, 0, 0, 0, 0, 0, 0, 0, 0]);
    assert_eq!(g.get_score(), &8);
}

#[test]
fn shift_twice_is_stable_without_new_pairs() {
    // [1,1,2,2] shifts to [2,3,0,0], which offers no further merge, so a
    // second shift in the same direction changes nothing.
    let mut once = row_board([1, 1, 2, 2]);
    once.shift(Move::Left);
    let mut twice = once;
    twice.shift(Move::Left);
    assert_eq!(once.get_state(), twice.get_state());

    // A single-pass merge can create a new adjacent pair: there the second
    // shift merges again, which is why stability needs that side condition.
    let mut g = row_board([1, 1, 1, 1]);
    g.shift(Move::Left);
    assert_eq!(g.get_state(), &[2, 2, 0, 0, 0, 0, 0, 0, 0, 0, 0, 0, 0, 0, 0, 0]);
    g.shift(Move::Left);
    assert_eq!(g.get_state(), &[3, 0, 0, 0, 0, 0, 0, 0, 0, 0, 0, 0, 0, 0, 0, 0]);
}

#[test]
fn make_move_noop_changes_nothing() {
    let mut g = row_board([1, 0, 0, 0]);
    g.set_tile(0, 1, 2);
    // Everything already sits against the left wall and in the top rows'
    // distinct values, so Left and Up are both ineffective.
    let before = *g.get_state();
    assert!(!g.make_move(Move::Left));
    assert_eq!(g.get_state(), &before);
    assert_eq!(g.get_score(), &0);
    assert_eq!(g.get_num_moves(), &0);
    assert!(!g.make_move(Move::Up));
    assert_eq!(g.get_state(), &before);
    assert_eq!(g.get_num_moves(), &0);
}

#[test]
fn make_move_effective_spawns_and_counts() {
    let mut g = row_board([1, 0, 0, 0]);
    let changed = g.make_move(Move::Right);
    assert!(changed);
    assert_eq!(g.get_num_moves(), &1);
    // the tile slid to the right wall and exactly one new tile spawned
    assert_eq!(g.get_tile(3, 0), 1);
    let nonzero: Vec<u8> = g.get_state().iter().copied().filter(|&c| c != 0).collect();
    assert_eq!(nonzero.len(), 2);
    for c in nonzero {
        assert!(c == 1 || c == 2);
    }
}

#[test]
fn available_moves_lists_effective_directions() {
    let g = Game::empty();
    assert!(g.available_moves().is_empty());

    let g = row_board([1, 0, 0, 0]);
    let avail = g.available_moves();
    assert!(avail.contains(&Move::Down));
    assert!(avail.contains(&Move::Right));
    assert!(!avail.contains(&Move::Up));
    assert!(!avail.contains(&Move::Left));
}

#[test]
fn game_over_detection() {
    // alternating full board: no adjacent equal cells anywhere
    let mut g = Game::empty();
    g.set_state([1, 2, 1, 2, 2, 1, 2, 1, 1, 2, 1, 2, 2, 1, 2, 1]);
    assert!(g.game_over());

    // every direction's shift leaves the cells of a finished board alone
    for m in [Move::Up, Move::Down, Move::Left, Move::Right] {
        let mut h = g;
        h.shift(m);
        assert_eq!(h.get_state(), g.get_state());
        let mut h = g;
        assert!(!h.make_move(m));
    }

    // a single empty cell keeps the game alive
    let mut g2 = g;
    g2.set_tile(2, 2, 0);
    assert!(!g2.game_over());

    // a full board with one mergeable pair is still playable
    let mut g3 = g;
    g3.set_tile(0, 0, 2);
    assert!(!g3.game_over());
}

#[test]
fn scripted_game_matches_hand_computation() {
    let mut g = Game::empty();
    g.set_tile(0, 0, 1);
    g.set_tile(1, 0, 1);

    g.shift(Move::Up);
    assert_eq!(g.get_state(), &[1, 1, 0, 0, 0, 0, 0, 0, 0, 0, 0, 0, 0, 0, 0, 0]);
    assert_eq!(g.get_score(), &0);

    g.shift(Move::Left);
    assert_eq!(g.get_state(), &[2, 0, 0, 0, 0, 0, 0, 0, 0, 0, 0, 0, 0, 0, 0, 0]);
    assert_eq!(g.get_score(), &4);

    g.shift(Move::Right);
    assert_eq!(g.get_state(), &[0, 0, 0, 2, 0, 0, 0, 0, 0, 0, 0, 0, 0, 0, 0, 0]);
    assert_eq!(g.get_score(), &4);

    g.shift(Move::Down);
    assert_eq!(g.get_state(), &[0, 0, 0, 0, 0, 0, 0, 0, 0, 0, 0, 0, 0, 0, 0, 2]);
    assert_eq!(g.get_score(), &4);
    assert_eq!(g.get_num_moves(), &0);
}

#[test]
fn new_board_has_two_spawned_tiles() {
    let g = Game::new_seeded(11);
    let nonzero: Vec<u8> = g.get_state().iter().copied().filter(|&c| c != 0).collect();
    assert_eq!(nonzero.len(), 2);
    for c in nonzero {
        assert!(c == 1 || c == 2);
    }
    assert_eq!(g.get_score(), &0);
    assert_eq!(g.get_num_moves(), &0);
}

#[test]
fn new_from_keeps_cells_and_resets_counters() {
    let state = [1, 2, 3, 4, 0, 0, 0, 0, 0, 0, 0, 0, 0, 0, 0, 5];
    let g = Game::new_from(state);
    assert_eq!(g.get_state(), &state);
    assert_eq!(g.get_score(), &0);
    assert_eq!(g.get_num_moves(), &0);
}

#[test]
fn table_shows_powers_of_two() {
    let mut g = Game::empty();
    g.set_tile(0, 0, 1);
    g.set_tile(1, 0, 2);
    g.set_tile(2, 3, 11);
    let table = g.get_table();
    assert_eq!(table[0][0], 2);
    assert_eq!(table[0][1], 4);
    assert_eq!(table[3][2], 2048);
    assert_eq!(table[1][1], 1);
}

#[test]
fn zeros_break_merge_adjacency() {
    // merge_duplicates works on the raw line: an empty cell between two
    // equal tiles keeps them apart, they only condense
    let mut g = Game::empty();
    assert_eq!(g.merge_duplicates(&[1, 0, 1, 0], true), [1, 1, 0, 0]);
    assert_eq!(g.get_score(), &0);
}

#[test]
fn column_merges_score_like_row_merges() {
    let mut g = Game::empty();
    g.set_tile(0, 0, 3);
    g.set_tile(0, 1, 3);
    g.shift(Move::Up);
    assert_eq!(g.get_tile(0, 0), 4);
    assert_eq!(g.get_tile(0, 1), 0);
    assert_eq!(g.get_score(), &16);

    let mut g = Game::empty();
    g.set_tile(0, 0, 3);
    g.set_tile(0, 1, 3);
    g.shift(Move::Down);
    assert_eq!(g.get_tile(0, 3), 4);
    assert_eq!(g.get_tile(0, 0), 0);
    assert_eq!(g.get_score(), &16);
}
