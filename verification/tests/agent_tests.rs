use ai_2048::agent::expectimax::expectimax_recurse;
use ai_2048::agent::expectimax::Expectimax;
use ai_2048::agent::expectimax::ExpectimaxParams;
use ai_2048::agent::random::simulate_random_game;
use ai_2048::agent::random::RandomAgent;
use ai_2048::agent::random::RandomTree;
use ai_2048::agent::random::RandomTreeMetric;
use ai_2048::agent::rl::RLAgent;
use ai_2048::agent::user::key_move;
use ai_2048::agent::user::UserAgent;
use ai_2048::agent::Agent;
use ai_2048::agent::MaxMove;
use ai_2048::agent::MoveScores;
use ai_2048::game::Game;
use ai_2048::game::Move;

#[test]
fn max_move_breaks_ties_toward_declaration_order() {
    let scores = MoveScores { up: 5, down: 7, left: 7, right: 3 };
    // Down and Left share the maximum; Down is declared earlier and wins,
    // on every call.
    assert_eq!(scores.max_move(), Move::Down);
    assert_eq!(scores.max_move(), Move::Down);

    let all_equal = MoveScores { up: 0, down: 0, left: 0, right: 0 };
    assert_eq!(all_equal.max_move(), Move::Up);

    let single = MoveScores { up: 1, down: 2, left: 3, right: 9 };
    assert_eq!(single.max_move(), Move::Right);
    assert_eq!(single.max_value(), 9);
}

#[test]
fn seeded_sequential_evaluation_is_deterministic() {
    let g1 = Game::new_seeded(42);
    let t1 = RandomTree::new_with(g1, 5, RandomTreeMetric::AvgScore, false);
    let s1 = t1.score_moves();

    let g2 = Game::new_seeded(42);
    let t2 = RandomTree::new_with(g2, 5, RandomTreeMetric::AvgScore, false);
    let s2 = t2.score_moves();

    assert_eq!(g1, g2);
    assert_eq!(s1, s2);

    let g3 = Game::new_seeded(42);
    let t3 = RandomTree::new_with(g3, 5, RandomTreeMetric::AvgMoves, false);
    let s3 = t3.score_moves();
    let g4 = Game::new_seeded(42);
    let t4 = RandomTree::new_with(g4, 5, RandomTreeMetric::AvgMoves, false);
    assert_eq!(s3, t4.score_moves());
}

#[test]
fn rollout_scores_skip_unavailable_moves() {
    // a board stuck against the left and top walls: Left and Up stay at the
    // default score 0
    let mut g = Game::empty();
    g.set_tile(0, 0, 1);
    g.set_tile(0, 1, 2);
    let t = RandomTree::new_with(g, 3, RandomTreeMetric::AvgScore, false);
    let s = t.score_moves();
    assert_eq!(s.up, 0);
    assert_eq!(s.left, 0);
}

#[test]
fn zero_simulations_score_zero_even_in_parallel() {
    let g = Game::new_seeded(5);
    let t = RandomTree::new_with(g, 0, RandomTreeMetric::AvgScore, true);
    let s = t.score_moves();
    assert_eq!(s, MoveScores { up: 0, down: 0, left: 0, right: 0 });
}

#[test]
fn random_tree_plays_a_move() {
    let g = Game::new_seeded(9);
    let mut t = RandomTree::new_with(g, 3, RandomTreeMetric::AvgScore, false);
    t.make_move();
    assert!(*t.get_game().get_num_moves() <= 1);
}

#[test]
fn simulation_reaches_a_finished_board() {
    let g = Game::new_seeded(3);
    let t = simulate_random_game(g);
    assert!(t.game_over());
    assert!(t.get_score() >= g.get_score());
    assert!(t.get_num_moves() >= g.get_num_moves());
    // the input board is untouched
    assert_eq!(g.get_num_moves(), &0);

    // a board with no possible move comes straight back
    let empty = Game::empty();
    let t = simulate_random_game(empty);
    assert_eq!(t.get_score(), &0);
    assert_eq!(t.get_num_moves(), &0);
}

#[test]
fn expectimax_budget_is_respected() {
    let g = Game::new_seeded(7);
    let params = ExpectimaxParams { seed: Some(7), max_evals: 40, num_tiles: 4, heuristic_sims: 2 };
    let mut evals: usize = 0;
    expectimax_recurse(&g, &params, &mut evals);
    // the proven bound: the budget, plus at most 128 visits per budget unit
    // that was free at entry
    assert!(evals <= 40 + 128 * 40);

    // a counter already at the budget stays exactly where it was
    let mut spent: usize = params.max_evals;
    expectimax_recurse(&g, &params, &mut spent);
    assert_eq!(spent, params.max_evals);
}

#[test]
fn expectimax_chooses_a_move() {
    let g = Game::new_seeded(13);
    let mut agent = Expectimax::new_seeded(13, g);
    agent.params = ExpectimaxParams { seed: Some(13), max_evals: 30, num_tiles: 2, heuristic_sims: 2 };
    let m = agent.next_move();
    assert!(matches!(m, Move::Up | Move::Down | Move::Left | Move::Right));
    // next_move leaves the board alone
    assert_eq!(agent.get_game().get_num_moves(), &0);
}

#[test]
fn random_agent_advances_the_game() {
    let g = Game::new_seeded(21);
    let mut agent = RandomAgent::new(g);
    let before = *agent.get_game().get_score();
    for _ in 0..5 {
        agent.make_move();
    }
    assert!(*agent.get_game().get_score() >= before);
}

#[test]
fn user_agent_commits_key_moves() {
    assert_eq!(key_move('w'), Some(Move::Up));
    assert_eq!(key_move('a'), Some(Move::Left));
    assert_eq!(key_move('s'), Some(Move::Down));
    assert_eq!(key_move('d'), Some(Move::Right));
    assert_eq!(key_move('q'), None);
    assert_eq!(key_move('x'), None);

    let mut g = Game::empty();
    g.set_tile(0, 0, 1);
    let mut agent = UserAgent::new(g);
    assert!(agent.input_move(Move::Right));
    assert_eq!(agent.get_game().get_tile(3, 0), 1);
    assert_eq!(agent.get_game().get_num_moves(), &1);
}

#[test]
fn rl_agent_captures_the_board_state() {
    let state = [0, 1, 0, 2, 0, 0, 0, 0, 3, 0, 0, 0, 0, 0, 0, 0];
    let g = Game::new_from(state);
    let agent = RLAgent::new(g);
    assert_eq!(agent.state.state, state);
}

#[test]
fn default_zero_score_never_beats_an_available_move() {
    // Left and Up are impossible here; with zero simulations every score
    // stays at the default 0, the very case where a naive maximum would
    // pick the unavailable first-declared direction.
    let mut g = Game::empty();
    g.set_tile(0, 0, 1);
    g.set_tile(0, 1, 2);
    let mut t = RandomTree::new_with(g, 0, RandomTreeMetric::AvgScore, false);
    let chosen = t.next_move();
    assert!(matches!(chosen, Move::Down | Move::Right));
    t.make_move();
    assert_eq!(t.get_game().get_num_moves(), &1);
}

#[test]
fn parallel_rollout_sums_count_every_simulation() {
    // every rollout behind an available move makes at least that one move,
    // so summing the move metric over 3 rollouts gives at least 3
    let g = Game::new_seeded(17);
    let t = RandomTree::new_with(g, 3, RandomTreeMetric::AvgMoves, true);
    let s = t.score_moves();
    for m in g.available_moves() {
        assert!(s.get(m) >= 3);
    }
}

#[test]
fn rollout_scores_are_at_least_the_board_score_per_rollout() {
    // a board that already banked score 12: every rollout ends at or above
    // it, so two rollouts per direction sum to at least 24
    let mut g = Game::empty();
    g.set_state([1, 1, 2, 2, 0, 0, 0, 0, 0, 0, 0, 0, 0, 0, 0, 0]);
    g.shift(Move::Left);
    assert_eq!(g.get_score(), &12);
    let t = RandomTree::new_with(g, 2, RandomTreeMetric::AvgScore, false);
    let s = t.score_moves();
    for m in g.available_moves() {
        assert!(s.get(m) >= 24);
    }
    // and the same bound holds on the parallel path
    let tp = RandomTree::new_with(g, 2, RandomTreeMetric::AvgScore, true);
    let sp = tp.score_moves();
    for m in g.available_moves() {
        assert!(sp.get(m) >= 24);
    }
}

#[test]
fn expectimax_counts_at_least_one_visit_on_a_live_board() {
    // a fresh board is live with many empties, so one call under budget
    // must count at least one node visit
    let g = Game::new_seeded(7);
    let params = ExpectimaxParams { seed: Some(7), max_evals: 40, num_tiles: 4, heuristic_sims: 2 };
    let mut evals: usize = 0;
    expectimax_recurse(&g, &params, &mut evals);
    assert!(evals >= 1);
}

#[test]
fn exhausted_search_still_values_open_boards() {
    // over budget the heuristic answers: at least the empty-cell count
    // times the banked score, for every random outcome
    let mut g = Game::empty();
    g.set_state([1, 1, 2, 2, 0, 0, 0, 0, 0, 0, 0, 0, 0, 0, 0, 0]);
    g.shift(Move::Left);
    assert_eq!(g.get_score(), &12);
    // 14 cells are empty now
    let params = ExpectimaxParams { seed: Some(9), max_evals: 40, num_tiles: 4, heuristic_sims: 2 };
    let mut spent: usize = params.max_evals;
    let r = expectimax_recurse(&g, &params, &mut spent);
    assert!(r >= 14 * 12);
    assert_eq!(spent, params.max_evals);
}

#[test]
fn expectimax_make_move_resets_params_and_commits() {
    // a nearly finished board keeps the stock-budget search quick
    let mut g = Game::empty();
    g.set_state([1, 2, 1, 2, 2, 1, 2, 1, 1, 2, 1, 2, 2, 1, 2, 1]);
    g.set_tile(3, 3, 2);
    assert!(!g.game_over());
    let mut agent = Expectimax::new_seeded(5, g);
    agent.params = ExpectimaxParams { seed: Some(5), max_evals: 7, num_tiles: 1, heuristic_sims: 1 };
    agent.make_move();
    // the configuration is back to stock with the seed kept
    assert_eq!(agent.params.seed, Some(5));
    assert_eq!(agent.params.max_evals, 500);
    assert_eq!(agent.params.num_tiles, 16);
    assert_eq!(agent.params.heuristic_sims, 10);
    // a move was available, so an effective one was committed
    assert_eq!(agent.get_game().get_num_moves(), &1);
}

#[test]
fn score_rows_average_and_mark_the_best() {
    let g = Game::empty();
    let mut t = RandomTree::new_with(g, 5, RandomTreeMetric::AvgScore, false);
    t.last_scores = MoveScores { up: 10, down: 25, left: 25, right: 5 };
    let rows = t.score_rows();
    assert_eq!(rows.len(), 4);
    assert_eq!(rows[0], (Move::Up, 2, false));
    assert_eq!(rows[1], (Move::Down, 5, true));
    assert_eq!(rows[2], (Move::Left, 5, false));
    assert_eq!(rows[3], (Move::Right, 1, false));

    let mut e = Expectimax::new(g);
    e.last_scores = MoveScores { up: 3, down: 3, left: 9, right: 2 };
    let rows = e.score_rows();
    assert_eq!(rows[0], (Move::Up, 3, false));
    assert_eq!(rows[1], (Move::Down, 3, false));
    assert_eq!(rows[2], (Move::Left, 9, true));
    assert_eq!(rows[3], (Move::Right, 2, false));
}

#[test]
fn simulation_returns_a_finished_board_unchanged() {
    let mut g = Game::empty();
    g.set_state([1, 2, 1, 2, 2, 1, 2, 1, 1, 2, 1, 2, 2, 1, 2, 1]);
    assert!(g.game_over());
    let t = simulate_random_game(g);
    assert_eq!(t, g);
}
