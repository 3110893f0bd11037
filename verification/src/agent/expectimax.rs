//! Expectimax search: a budget-bounded look-ahead that alternates a CHANCE
//! layer over sampled tile spawns (weighted 9:1 for exponents 1 and 2) with
//! a MAX layer over the available moves, falling back to a rollout
//! heuristic once the shared evaluation budget is spent.

use vstd::prelude::*;

use crate::agent::random::par_rollout_sum;
use crate::agent::random::RandomTreeMetric;
use crate::agent::Agent;
use crate::agent::MaxMove;
use crate::agent::MoveScores;
use crate::game::board_full;
use crate::game::empty_count;
use crate::game::game_over_spec;
use crate::game::has_move;
use crate::game::lemma_empty_count_bounds;
use crate::game::lemma_empty_count_update;
use crate::game::lemma_full_not_over_has_move;
use crate::game::lemma_mixed_has_move;
use crate::game::lemma_shift_gain_nonneg;
use crate::game::move_applied;
use crate::game::move_changes;
use crate::game::move_index;
use crate::game::Game;
use crate::game::Move;
use crate::imax;
use crate::imin;
use crate::rng::seed_rng;
use crate::rng::shuffle_bytes;
use crate::sat_add;
use crate::sat_mul;

verus! {

broadcast use crate::game::lemma_view_bounds;

/// The tuning knobs of one expectimax search.
#[derive(Clone, Copy, PartialEq, Eq, Debug, Structural)]
pub struct ExpectimaxParams {
    /// Seed for the random source; kept across decisions so a
    /// single-threaded run is reproducible.
    pub seed: Option<u64>,
    /// The evaluation budget: once this many node visits are counted, the
    /// search answers from the heuristic instead of recursing.
    pub max_evals: usize,
    /// How many empty cells the CHANCE layer samples at most.
    pub num_tiles: usize,
    /// How many random rollouts the leaf heuristic runs.
    pub heuristic_sims: usize,
}

impl Default for ExpectimaxParams {
    /// The stock configuration: budget 500, up to 16 sampled cells, 10
    /// heuristic rollouts and no seed.
    fn default() -> (r: ExpectimaxParams)
        ensures
            r.seed is None,
            r.max_evals == 500,
            r.num_tiles == 16,
            r.heuristic_sims == 10,
    {
        ExpectimaxParams { seed: None, max_evals: 500, num_tiles: 16, heuristic_sims: 10 }
    }
}

/// Scores a leaf board: the count of empty cells times the summed terminal
/// score of random rollouts, averaged over the rollouts — boards with more
/// open space score higher, and since every rollout ends at or above the
/// board's own score, the result is at least the empty-cell count times
/// that score, up to the ceiling the saturations impose.  Reseeds the
/// random source first when a seed is set.
fn heuristic_score(game: &Game, params: &ExpectimaxParams) -> (r: usize)
    ensures
        params.heuristic_sims == 0 ==> r == 0,
        params.heuristic_sims > 0 ==> r as int >= imin(
            empty_count(game@.cells) * game@.score,
            usize::MAX as int / params.heuristic_sims as int,
        ),
{
    let empties = game.empty_positions();
    let empty_tiles = empties.len();
    if let Some(s) = params.seed {
        seed_rng(s);
    }
    if params.heuristic_sims == 0 {
        return 0;
    }
    let sum = par_rollout_sum(game, None, params.heuristic_sims, RandomTreeMetric::AvgScore);
    let weighted = sat_mul(empty_tiles, sum);
    proof {
        crate::lemma_weighted_avg_bound(
            empty_tiles as int,
            sum as int,
            params.heuristic_sims as int,
            game@.score,
        );
    }
    weighted / params.heuristic_sims
}

/// One CHANCE-then-MAX step of the search.
///
/// The shared evaluation counter `evals` only grows; a call that starts at
/// or past the budget consults the heuristic, adds nothing, and (given any
/// heuristic rollouts at all) returns at least the empty-cell count times
/// the board's score, saturations aside.  A call that starts under the
/// budget overshoots it by no more than 128 counted visits for each budget
/// unit that was still free — the branches already in flight when the
/// budget ran out — and counts at least one visit whenever the board is
/// live and offers a spawn hypothesis with a move: a full board, or one
/// with two or more empty cells while any cells are sampled.  A board that
/// is already lost scores 0 outright.
pub fn expectimax_recurse(game: &Game, params: &ExpectimaxParams, evals: &mut usize) -> (r: usize)
    ensures
        *final(evals) >= *old(evals),
        *old(evals) >= params.max_evals ==> *final(evals) == *old(evals),
        *old(evals) >= params.max_evals && params.heuristic_sims > 0 ==> r as int >= imin(
            empty_count(game@.cells) * game@.score,
            usize::MAX as int / params.heuristic_sims as int,
        ),
        *old(evals) < params.max_evals ==> *final(evals) as int <= params.max_evals + 128 * (
        params.max_evals - *old(evals)),
        *old(evals) < params.max_evals && !game_over_spec(game@.cells) && (board_full(game@.cells)
            || (params.num_tiles >= 1 && empty_count(game@.cells) >= 2)) ==> *final(evals)
            > *old(evals),
        *old(evals) < params.max_evals && game_over_spec(game@.cells) ==> r == 0 && *final(evals)
            == *old(evals),
    decreases imax(params.max_evals - *evals, 0),
{
    let cap = params.max_evals;
    if *evals >= cap {
        let h = heuristic_score(game, params);
        return h;
    }
    let mut empty = game.empty_positions();
    let ghost pre_shuffle = empty@;
    if game.game_over() {
        return 0;
    }
    proof {
        lemma_empty_count_bounds(game@.cells);
    }
    shuffle_bytes(&mut empty);
    proof {
        assert forall|t: int|
            0 <= t < empty@.len() implies #[trigger] empty@[t] < 16 && game@.cells[empty@[t] as int]
            == 0 by {
            let k = choose|k: int| 0 <= k < pre_shuffle.len() && pre_shuffle[k] == empty@[t];
            assert(pre_shuffle[k] < 16 && game@.cells[pre_shuffle[k] as int] == 0);
        }
    }
    let take: usize = if empty.len() < params.num_tiles {
        empty.len()
    } else {
        params.num_tiles
    };
    let ghost must_progress = !game_over_spec(game@.cells) && (board_full(game@.cells) || (
    params.num_tiles >= 1 && empty_count(game@.cells) >= 2));
    let mut hyp_games: Vec<Game> = Vec::new();
    let mut hyp_weights: Vec<usize> = Vec::new();
    let mut idx: usize = 0;
    while idx < take
        invariant
            take <= empty@.len(),
            empty@.len() <= 16,
            empty@.len() == empty_count(game@.cells),
            forall|t: int|
                0 <= t < empty@.len() ==> #[trigger] empty@[t] < 16 && game@.cells[empty@[t] as int]
                    == 0,
            idx <= take,
            hyp_games@.len() == 2 * idx,
            hyp_weights@.len() == hyp_games@.len(),
            must_progress == (!game_over_spec(game@.cells) && (board_full(game@.cells) || (
            params.num_tiles >= 1 && empty_count(game@.cells) >= 2))),
            must_progress && hyp_games@.len() >= 1 ==> has_move(hyp_games@[0]@.cells),
        decreases take - idx,
    {
        let pos = empty[idx];
        let x = pos % 4;
        let y = pos / 4;
        let mut g1: Game = *game;
        g1.set_tile(x, y, 1);
        proof {
            assert(x + y * 4 == pos);
            assert(g1@.cells =~= game@.cells.update(pos as int, 1u8));
            if must_progress && idx == 0 {
                // the board is live and holds two or more empties, so the
                // first hypothetical still holds an empty beside its new
                // tile and therefore admits a move
                assert(empty_count(game@.cells) >= 2) by {
                    lemma_empty_count_bounds(game@.cells);
                }
                lemma_empty_count_update(game@.cells, pos as int, 1u8);
                lemma_empty_count_bounds(g1@.cells);
                assert(exists|i: int| 0 <= i < 16 && g1@.cells[i] == 0) by {
                    if forall|i: int| 0 <= i < 16 ==> g1@.cells[i] != 0 {
                        assert(empty_count(g1@.cells) == 0);
                    }
                }
                assert(g1@.cells[pos as int] == 1);
                lemma_mixed_has_move(g1@.cells);
            }
        }
        hyp_games.push(g1);
        hyp_weights.push(9);
        let mut g2: Game = *game;
        g2.set_tile(x, y, 2);
        hyp_games.push(g2);
        hyp_weights.push(1);
        idx += 1;
    }
    if hyp_games.len() == 0 {
        proof {
            if must_progress {
                // no hypothetical was sampled, so the board must be full
                // and, being live, still admits a move itself
                lemma_empty_count_bounds(game@.cells);
                assert(board_full(game@.cells));
                lemma_full_not_over_has_move(game@.cells);
            }
        }
        hyp_games.push(*game);
        hyp_weights.push(10);
    }
    let ghost entry: int = *evals as int;
    let ghost bigm: int = cap + 128 * (cap - entry - 1);
    let ghost mut done: int = 0;
    let hyp_count = hyp_games.len();
    let mut total: usize = 0;
    let mut h: usize = 0;
    while h < hyp_count
        invariant
            hyp_count == hyp_games@.len(),
            hyp_weights@.len() == hyp_count,
            1 <= hyp_count <= 32,
            h <= hyp_count,
            cap == params.max_evals,
            entry == *old(evals) as int,
            entry < cap,
            *evals >= entry,
            done >= 0,
            done <= 4 * h,
            *evals as int <= imax(entry, bigm) + done,
            bigm == cap + 128 * (cap - entry - 1),
            must_progress ==> has_move(hyp_games@[0]@.cells),
            must_progress && h >= 1 ==> *evals as int > entry,
        decreases hyp_count - h,
    {
        let hg = hyp_games[h];
        let avail = hg.available_moves();
        proof {
            if must_progress && h == 0 {
                let m2 = choose|m2: Move| move_changes(hg@.cells, m2);
                assert(avail@.contains(m2));
            }
        }
        let mut scores = MoveScores::default();
        let mut mi: usize = 0;
        while mi < avail.len()
            invariant
                avail@.len() <= 4,
                mi <= avail@.len(),
                cap == params.max_evals,
                entry == *old(evals) as int,
                entry < cap,
                *evals >= entry,
                done >= 0,
                done <= 4 * h + mi,
                h < hyp_count,
                hyp_count <= 32,
                *evals as int <= imax(entry, bigm) + done,
                bigm == cap + 128 * (cap - entry - 1),
                must_progress && h == 0 ==> avail@.len() >= 1,
                must_progress && (h >= 1 || mi >= 1) ==> *evals as int > entry,
            decreases avail@.len() - mi,
        {
            let mv = avail[mi];
            *evals = sat_add(*evals, 1);
            proof {
                done = done + 1;
                assert(*evals > entry || *evals >= cap);
            }
            let mut g2: Game = hg;
            g2.shift(mv);
            let sc = expectimax_recurse(&g2, params, evals);
            scores.set(mv, sc);
            mi += 1;
        }
        let best = scores.max_value();
        let w = hyp_weights[h];
        let weighted = sat_mul(best, w);
        total = sat_add(total, weighted);
        h += 1;
    }
    let denom: usize = 10 * hyp_count;
    let result = total / denom;
    proof {
        assert(done <= 128);
        assert(*evals as int <= cap + 128 * (cap - entry));
    }
    result
}

/// Depth search over hypothetical spawns, committing the best move found.
pub struct Expectimax {
    /// The board being played.
    pub game: Game,
    /// The search's configuration.
    pub params: ExpectimaxParams,
    /// The move scores of the latest decision.
    pub last_scores: MoveScores,
}

impl Expectimax {
    /// A search agent with the stock configuration.
    pub fn new(game: Game) -> (r: Expectimax)
        ensures
            r.game == game,
            r.params.seed is None,
            r.params.max_evals == 500,
            r.params.num_tiles == 16,
            r.params.heuristic_sims == 10,
            forall|m: Move| r.last_scores.spec_get(m) == 0,
    {
        Expectimax {
            game,
            params: ExpectimaxParams::default(),
            last_scores: MoveScores::default(),
        }
    }

    /// A search agent whose random draws are tied to `seed`.
    pub fn new_seeded(seed: u64, game: Game) -> (r: Expectimax)
        ensures
            r.game == game,
            r.params.seed == Some(seed),
            r.params.max_evals == 500,
            r.params.num_tiles == 16,
            r.params.heuristic_sims == 10,
            forall|m: Move| r.last_scores.spec_get(m) == 0,
    {
        let d = ExpectimaxParams::default();
        Expectimax {
            game,
            params: ExpectimaxParams {
                seed: Some(seed),
                max_evals: d.max_evals,
                num_tiles: d.num_tiles,
                heuristic_sims: d.heuristic_sims,
            },
            last_scores: MoveScores::default(),
        }
    }

    /// Scores every available direction by one budgeted search each; an
    /// ineffective direction keeps the default score 0.  The evaluation
    /// counter starts fresh for each decision.
    fn expectimax(&self) -> (scores: MoveScores)
        ensures
            forall|m: Move| !move_changes(self.game@.cells, m) ==> scores.spec_get(m) == 0,
    {
        let mut scores = MoveScores::default();
        let avail = self.game.available_moves();
        let mut evals: usize = 0;
        let mut i: usize = 0;
        while i < avail.len()
            invariant
                forall|m: Move| #[trigger] avail@.contains(m) <==> move_changes(
                    self.game@.cells,
                    m,
                ),
                i <= avail@.len(),
                forall|m: Move| !move_changes(self.game@.cells, m) ==> scores.spec_get(m) == 0,
            decreases avail@.len() - i,
        {
            let m = avail[i];
            proof {
                assert(avail@.contains(m));
            }
            let mut g: Game = self.game;
            g.shift(m);
            let score = expectimax_recurse(&g, &self.params, &mut evals);
            scores.set(m, score);
            i += 1;
        }
        scores
    }

    /// The four directions with the scores of the latest decision and a
    /// mark on the best one, in declaration order, ready for display.
    pub fn score_rows(&self) -> (r: Vec<(Move, usize, bool)>)
        ensures
            r@.len() == 4,
            forall|i: int| #![trigger r@[i]] 0 <= i < 4 ==> move_index(r@[i].0) == i,
            forall|i: int| #![trigger r@[i]]
                0 <= i < 4 ==> r@[i].1 == self.last_scores.spec_get(r@[i].0),
            forall|i: int| #![trigger r@[i]]
                0 <= i < 4 ==> (r@[i].2 <==> r@[i].0 == self.last_scores.spec_max_move()),
    {
        let best = self.last_scores.max_move();
        let mut r: Vec<(Move, usize, bool)> = Vec::new();
        r.push((Move::Up, self.last_scores.get(Move::Up), Move::Up == best));
        r.push((Move::Down, self.last_scores.get(Move::Down), Move::Down == best));
        r.push((Move::Left, self.last_scores.get(Move::Left), Move::Left == best));
        r.push((Move::Right, self.last_scores.get(Move::Right), Move::Right == best));
        proof {
            assert forall|i: int| #![trigger r@[i]] 0 <= i < 4 implies move_index(r@[i].0) == i
                && r@[i].1 == self.last_scores.spec_get(r@[i].0) && (r@[i].2 <==> r@[i].0
                == self.last_scores.spec_max_move()) by {
                assert(i == 0 || i == 1 || i == 2 || i == 3);
            }
        }
        r
    }
}

impl Agent for Expectimax {
    fn get_game(&self) -> (g: &Game)
        ensures
            *g == self.game,
    {
        &self.game
    }

    /// The best-scoring available direction of a fresh search, without
    /// mutating the board; an effective move is returned whenever one
    /// exists.
    fn next_move(&self) -> (m: Move)
        ensures
            has_move(self.game@.cells) ==> move_changes(self.game@.cells, m),
    {
        let scores = self.expectimax();
        let avail = self.game.available_moves();
        let m = crate::agent::max_available_move(&scores, &avail);
        proof {
            if has_move(self.game@.cells) {
                let m2 = choose|m2: Move| move_changes(self.game@.cells, m2);
                assert(avail@.contains(m2));
                assert(avail@.len() > 0);
                assert(avail@.contains(m));
            }
        }
        m
    }

    /// Resets the configuration to the stock one, keeping only the seed;
    /// then searches, remembers the scores and commits the best available
    /// direction, so a direction the search could say nothing for is never
    /// chosen over an available one.
    fn make_move(&mut self)
        ensures
            final(self).params.seed == old(self).params.seed,
            final(self).params.max_evals == 500,
            final(self).params.num_tiles == 16,
            final(self).params.heuristic_sims == 10,
            forall|m: Move|
                !move_changes(old(self).game@.cells, m) ==> final(self).last_scores.spec_get(m)
                    == 0,
            has_move(old(self).game@.cells) ==> exists|m: Move|
                move_changes(old(self).game@.cells, m) && (forall|m2: Move|
                    move_changes(old(self).game@.cells, m2)
                        ==> final(self).last_scores.spec_get(m2) <= final(self).last_scores.spec_get(
                        m,
                    )) && move_applied(old(self).game@, m, final(self).game@),
            !has_move(old(self).game@.cells) ==> move_applied(
                old(self).game@,
                final(self).last_scores.spec_max_move(),
                final(self).game@,
            ),
    {
        let d = ExpectimaxParams::default();
        self.params = ExpectimaxParams {
            seed: self.params.seed,
            max_evals: d.max_evals,
            num_tiles: d.num_tiles,
            heuristic_sims: d.heuristic_sims,
        };
        let scores = self.expectimax();
        self.last_scores = scores;
        let avail = self.game.available_moves();
        let m = crate::agent::max_available_move(&scores, &avail);
        proof {
            lemma_shift_gain_nonneg(self.game@.cells, m);
        }
        self.game.make_move(m);
        proof {
            if avail@.len() > 0 {
                assert(avail@.contains(m));
                assert(move_changes(old(self).game@.cells, m));
                assert forall|m2: Move|
                    move_changes(old(self).game@.cells, m2) implies self.last_scores.spec_get(m2)
                    <= self.last_scores.spec_get(m) by {
                    assert(avail@.contains(m2));
                    let k = choose|k: int| 0 <= k < avail@.len() && avail@[k] == m2;
                    assert(scores.spec_get(avail@[k]) <= scores.spec_get(m));
                }
                assert(move_applied(old(self).game@, m, self.game@));
            } else {
                assert forall|m2: Move| !move_changes(old(self).game@.cells, m2) by {
                    if move_changes(old(self).game@.cells, m2) {
                        assert(avail@.contains(m2));
                    }
                }
                assert(m == scores.spec_max_move());
            }
        }
    }
}

} // verus!
