//! Random play: a uniformly random agent, full random rollouts, and a
//! Monte-Carlo tree evaluator that scores each move by many rollouts.

use vstd::prelude::*;

use rayon::iter::IntoParallelIterator;
use rayon::iter::ParallelIterator;

use crate::agent::Agent;
use crate::agent::MaxMove;
use crate::agent::MoveScores;
use crate::game::empty_cells16;
use crate::game::game_over_spec;
use crate::game::has_move;
use crate::game::lemma_shift_gain_nonneg;
use crate::game::move_applied;
use crate::game::move_changes;
use crate::game::move_index;
use crate::game::Game;
use crate::game::Move;
use crate::rng::rand_below;
use crate::rng::seed_rng;
use crate::sat_add;
use crate::sat_add_spec;
use crate::sat_mul_spec;

verus! {

broadcast use crate::game::lemma_view_bounds;

/// An agent that plays a uniformly random direction each turn.
pub struct RandomAgent {
    /// The board being played.
    pub game: Game,
}

impl RandomAgent {
    /// Wraps a board in a random player.
    pub fn new(game: Game) -> (r: RandomAgent)
        ensures
            r.game == game,
    {
        RandomAgent { game }
    }

    /// Seeds the process-wide random source, then wraps the board; the
    /// agent's draws in a single-threaded run are determined by `seed`.
    pub fn new_seeded(seed: u64, game: Game) -> (r: RandomAgent)
        ensures
            r.game == game,
    {
        seed_rng(seed);
        RandomAgent { game }
    }
}

impl Agent for RandomAgent {
    fn get_game(&self) -> (g: &Game)
        ensures
            *g == self.game,
    {
        &self.game
    }

    /// A uniformly random direction.
    fn next_move(&self) -> Move {
        let d = rand_below(4);
        if d == 0 {
            Move::Up
        } else if d == 1 {
            Move::Down
        } else if d == 2 {
            Move::Left
        } else {
            Move::Right
        }
    }

    /// Commits a random direction; score and move count never decrease.
    fn make_move(&mut self)
        ensures
            final(self).game@.score >= old(self).game@.score,
            final(self).game@.num_moves >= old(self).game@.num_moves,
            exists|m: Move| move_applied(old(self).game@, m, final(self).game@),
    {
        let m = self.next_move();
        proof {
            lemma_shift_gain_nonneg(self.game@.cells, m);
        }
        self.game.make_move(m);
        proof {
            assert(move_applied(old(self).game@, m, self.game@));
        }
    }
}

/// Plays a board to the end with uniformly random moves and returns the
/// terminal board: the result is lost, or is the completely empty board
/// (the only other board no move can change), or the move counter has
/// saturated.  A board that is already lost comes back unchanged, and the
/// input board itself is never touched: the game runs on an owned copy.
pub fn simulate_random_game(game: Game) -> (r: Game)
    ensures
        r@.score >= game@.score,
        r@.num_moves >= game@.num_moves,
        r@.num_moves == usize::MAX || game_over_spec(r@.cells) || r@.cells == empty_cells16(),
        game_over_spec(game@.cells) ==> r == game,
{
    let mut g: Game = game;
    loop
        invariant
            g@.score >= game@.score,
            g@.num_moves >= game@.num_moves,
            game_over_spec(game@.cells) ==> g == game,
        decreases usize::MAX - g@.num_moves,
    {
        if g.game_over() {
            return g;
        }
        let avail = g.available_moves();
        if avail.len() == 0 {
            proof {
                assert forall|m: Move| !move_changes(g@.cells, m) by {
                    if move_changes(g@.cells, m) {
                        assert(avail@.contains(m));
                    }
                }
                crate::game::lemma_stuck_is_empty(g@.cells);
            }
            return g;
        }
        if *g.get_num_moves() == usize::MAX {
            return g;
        }
        let i = rand_below(avail.len());
        let m = avail[i];
        proof {
            assert(avail@.contains(m));
            lemma_shift_gain_nonneg(g@.cells, m);
        }
        g.make_move(m);
    }
}

/// Which terminal quantity a rollout reports.
#[derive(Clone, Copy, PartialEq, Eq, Debug, Structural)]
pub enum RandomTreeMetric {
    /// The terminal board's score.
    AvgScore,
    /// The terminal board's count of effective moves.
    AvgMoves,
}

/// One random playthrough: copies the board, first commits `mv` when one is
/// given, plays randomly to the end and reports the chosen metric of the
/// terminal board.
pub fn rollout_metric(game: &Game, mv: Option<Move>, metric: RandomTreeMetric) -> (r: usize)
    ensures
        metric == RandomTreeMetric::AvgScore ==> r >= game@.score,
        metric == RandomTreeMetric::AvgMoves ==> r >= game@.num_moves,
        metric == RandomTreeMetric::AvgMoves && (mv matches Some(m) && move_changes(
            game@.cells,
            m,
        )) ==> r as int >= sat_add_spec(game@.num_moves, 1),
{
    let mut g: Game = *game;
    if let Some(m) = mv {
        proof {
            lemma_shift_gain_nonneg(g@.cells, m);
        }
        g.make_move(m);
    }
    let t = simulate_random_game(g);
    match metric {
        RandomTreeMetric::AvgScore => *t.get_score(),
        RandomTreeMetric::AvgMoves => *t.get_num_moves(),
    }
}

/// Relies on rayon's parallel iterators: runs `n` independent rollouts
/// concurrently, each through the verified [`rollout_metric`], and folds
/// the results with the library's saturating addition.  An empty fold is
/// rayon's identity 0; otherwise every folded value obeys
/// [`rollout_metric`]'s lower bounds, and a saturating fold of `n` values
/// each at least `b` — in whatever order rayon combines them — is at least
/// the saturating product `n * b`.
#[verifier::external_body]
pub(crate) fn par_rollout_sum(game: &Game, mv: Option<Move>, n: usize, metric: RandomTreeMetric) -> (r:
    usize)
    ensures
        n == 0 ==> r == 0,
        metric == RandomTreeMetric::AvgScore ==> r as int >= sat_mul_spec(n as int, game@.score),
        metric == RandomTreeMetric::AvgMoves ==> r as int >= sat_mul_spec(
            n as int,
            game@.num_moves,
        ),
        metric == RandomTreeMetric::AvgMoves && (mv matches Some(m) && move_changes(
            game@.cells,
            m,
        )) ==> r as int >= sat_mul_spec(n as int, sat_add_spec(game@.num_moves, 1)),
{
    (0..n).into_par_iter().map(|_i| rollout_metric(game, mv, metric)).reduce(
        || 0usize,
        |a, b| crate::sat_add(a, b),
    )
}

/// Runs `n` rollouts one after the other and folds the results with the
/// saturating addition, like the parallel path but on this thread, with
/// the same lower bounds.
fn seq_rollout_sum(game: &Game, mv: Option<Move>, n: usize, metric: RandomTreeMetric) -> (r:
    usize)
    ensures
        n == 0 ==> r == 0,
        metric == RandomTreeMetric::AvgScore ==> r as int >= sat_mul_spec(n as int, game@.score),
        metric == RandomTreeMetric::AvgMoves ==> r as int >= sat_mul_spec(
            n as int,
            game@.num_moves,
        ),
        metric == RandomTreeMetric::AvgMoves && (mv matches Some(m) && move_changes(
            game@.cells,
            m,
        )) ==> r as int >= sat_mul_spec(n as int, sat_add_spec(game@.num_moves, 1)),
{
    let mut total: usize = 0;
    let mut i: usize = 0;
    while i < n
        invariant
            i <= n,
            n == 0 ==> total == 0,
            metric == RandomTreeMetric::AvgScore ==> total as int >= sat_mul_spec(
                i as int,
                game@.score,
            ),
            metric == RandomTreeMetric::AvgMoves ==> total as int >= sat_mul_spec(
                i as int,
                game@.num_moves,
            ),
            metric == RandomTreeMetric::AvgMoves && (mv matches Some(m) && move_changes(
                game@.cells,
                m,
            )) ==> total as int >= sat_mul_spec(i as int, sat_add_spec(game@.num_moves, 1)),
        decreases n - i,
    {
        let v = rollout_metric(game, mv, metric);
        proof {
            if metric == RandomTreeMetric::AvgScore {
                crate::lemma_sat_sum_step(total as int, v as int, i as int, game@.score);
            }
            if metric == RandomTreeMetric::AvgMoves {
                crate::lemma_sat_sum_step(total as int, v as int, i as int, game@.num_moves);
                if mv matches Some(m) && move_changes(game@.cells, m) {
                    crate::lemma_sat_sum_step(
                        total as int,
                        v as int,
                        i as int,
                        sat_add_spec(game@.num_moves, 1),
                    );
                }
            }
        }
        total = sat_add(total, v);
        i += 1;
    }
    total
}

/// Scores every direction by summing the metric of many random rollouts
/// taken after that direction's move.
pub struct RandomTree {
    /// The board being played.
    pub game: Game,
    /// How many rollouts back each direction.
    pub sim_count: usize,
    /// Which terminal quantity the rollouts report.
    pub metric: RandomTreeMetric,
    /// The move scores of the latest decision.
    pub last_scores: MoveScores,
    /// Whether the rollouts of one direction run concurrently.
    pub parallel: bool,
}

impl RandomTree {
    /// A rollout evaluator with the default setting: 1000 parallel
    /// rollouts per direction, compared by terminal score.
    pub fn new(game: Game) -> (r: RandomTree)
        ensures
            r.game == game,
            r.sim_count == 1000,
            r.metric == RandomTreeMetric::AvgScore,
            r.parallel == true,
            forall|m: Move| r.last_scores.spec_get(m) == 0,
    {
        RandomTree {
            game,
            sim_count: 1000,
            metric: RandomTreeMetric::AvgScore,
            last_scores: MoveScores::default(),
            parallel: true,
        }
    }

    /// A rollout evaluator with every setting chosen by the caller.
    pub fn new_with(game: Game, sim_count: usize, metric: RandomTreeMetric, parallel: bool) -> (r:
        RandomTree)
        ensures
            r.game == game,
            r.sim_count == sim_count,
            r.metric == metric,
            r.parallel == parallel,
            forall|m: Move| r.last_scores.spec_get(m) == 0,
    {
        let mut ag = RandomTree::new(game);
        ag.sim_count = sim_count;
        ag.metric = metric;
        ag.parallel = parallel;
        ag
    }

    /// Scores each direction: an ineffective direction keeps the default
    /// score 0 and is never simulated; an effective one gets the summed
    /// metric of `sim_count` rollouts, each spawning and playing on its own
    /// copy.
    pub fn score_moves(&self) -> (scores: MoveScores)
        ensures
            forall|m: Move| !move_changes(self.game@.cells, m) ==> scores.spec_get(m) == 0,
            self.metric == RandomTreeMetric::AvgScore ==> forall|m: Move|
                move_changes(self.game@.cells, m) ==> #[trigger] scores.spec_get(m) as int
                    >= sat_mul_spec(self.sim_count as int, self.game@.score),
            self.metric == RandomTreeMetric::AvgMoves ==> forall|m: Move|
                move_changes(self.game@.cells, m) ==> #[trigger] scores.spec_get(m) as int
                    >= sat_mul_spec(self.sim_count as int, sat_add_spec(self.game@.num_moves, 1)),
    {
        let mut scores = MoveScores::default();
        let moves = crate::game::all_moves();
        let mut i: usize = 0;
        while i < 4
            invariant
                i <= 4,
                moves@ == seq![Move::Up, Move::Down, Move::Left, Move::Right],
                forall|m: Move| !move_changes(self.game@.cells, m) ==> scores.spec_get(m) == 0,
                self.metric == RandomTreeMetric::AvgScore ==> forall|m: Move|
                    move_changes(self.game@.cells, m) && crate::game::move_index(m) < i
                        ==> #[trigger] scores.spec_get(m) as int >= sat_mul_spec(
                        self.sim_count as int,
                        self.game@.score,
                    ),
                self.metric == RandomTreeMetric::AvgMoves ==> forall|m: Move|
                    move_changes(self.game@.cells, m) && crate::game::move_index(m) < i
                        ==> #[trigger] scores.spec_get(m) as int >= sat_mul_spec(
                        self.sim_count as int,
                        sat_add_spec(self.game@.num_moves, 1),
                    ),
            decreases 4 - i,
        {
            let game_move = moves[i];
            proof {
                assert(crate::game::move_index(game_move) == i as int) by {
                    assert(i == 0 || i == 1 || i == 2 || i == 3);
                }
            }
            let mut sim_game: Game = self.game;
            proof {
                lemma_shift_gain_nonneg(sim_game@.cells, game_move);
            }
            let test = sim_game.make_move(game_move);
            if test {
                let score = if self.parallel {
                    par_rollout_sum(&self.game, Some(game_move), self.sim_count, self.metric)
                } else {
                    seq_rollout_sum(&self.game, Some(game_move), self.sim_count, self.metric)
                };
                scores.set(game_move, score);
            }
            i += 1;
        }
        proof {
            assert forall|m: Move| crate::game::move_index(m) < 4 by {}
        }
        scores
    }

    /// The four directions with the per-rollout average of the latest
    /// decision's scores and a mark on the best direction, in declaration
    /// order, ready for display.
    pub fn score_rows(&self) -> (r: Vec<(Move, usize, bool)>)
        requires
            self.sim_count > 0,
        ensures
            r@.len() == 4,
            forall|i: int| #![trigger r@[i]] 0 <= i < 4 ==> move_index(r@[i].0) == i,
            forall|i: int| #![trigger r@[i]]
                0 <= i < 4 ==> r@[i].1 == self.last_scores.spec_get(r@[i].0) / self.sim_count,
            forall|i: int| #![trigger r@[i]]
                0 <= i < 4 ==> (r@[i].2 <==> r@[i].0 == self.last_scores.spec_max_move()),
    {
        let best = self.last_scores.max_move();
        let mut r: Vec<(Move, usize, bool)> = Vec::new();
        r.push((Move::Up, self.last_scores.get(Move::Up) / self.sim_count, Move::Up == best));
        r.push((Move::Down, self.last_scores.get(Move::Down) / self.sim_count, Move::Down == best));
        r.push((Move::Left, self.last_scores.get(Move::Left) / self.sim_count, Move::Left == best));
        r.push((
            Move::Right,
            self.last_scores.get(Move::Right) / self.sim_count,
            Move::Right == best,
        ));
        proof {
            assert forall|i: int| #![trigger r@[i]] 0 <= i < 4 implies move_index(r@[i].0) == i
                && r@[i].1 == self.last_scores.spec_get(r@[i].0) / self.sim_count && (r@[i].2
                <==> r@[i].0 == self.last_scores.spec_max_move()) by {
                assert(i == 0 || i == 1 || i == 2 || i == 3);
            }
        }
        r
    }
}

impl Agent for RandomTree {
    fn get_game(&self) -> (g: &Game)
        ensures
            *g == self.game,
    {
        &self.game
    }

    /// The best-scoring available direction of a fresh evaluation; only
    /// when nothing is available does the overall best of the mapping
    /// stand in, so an effective move is returned whenever one exists.
    fn next_move(&self) -> (m: Move)
        ensures
            has_move(self.game@.cells) ==> move_changes(self.game@.cells, m),
    {
        let scores = self.score_moves();
        let avail = self.game.available_moves();
        let m = crate::agent::max_available_move(&scores, &avail);
        proof {
            if has_move(self.game@.cells) {
                let m2 = choose|m2: Move| move_changes(self.game@.cells, m2);
                assert(avail@.contains(m2));
                assert(avail@.len() > 0);
                assert(avail@.contains(m));
            }
        }
        m
    }

    /// Evaluates every direction, remembers the scores and commits the
    /// best available one: a direction nothing was simulated for — one
    /// still at the default score 0 — is never chosen over an available
    /// direction.
    fn make_move(&mut self)
        ensures
            forall|m: Move|
                !move_changes(old(self).game@.cells, m) ==> final(self).last_scores.spec_get(m)
                    == 0,
            has_move(old(self).game@.cells) ==> exists|m: Move|
                move_changes(old(self).game@.cells, m) && (forall|m2: Move|
                    move_changes(old(self).game@.cells, m2)
                        ==> final(self).last_scores.spec_get(m2) <= final(self).last_scores.spec_get(
                        m,
                    )) && move_applied(old(self).game@, m, final(self).game@),
            !has_move(old(self).game@.cells) ==> move_applied(
                old(self).game@,
                final(self).last_scores.spec_max_move(),
                final(self).game@,
            ),
    {
        let scores = self.score_moves();
        self.last_scores = scores;
        let avail = self.game.available_moves();
        let m = crate::agent::max_available_move(&scores, &avail);
        proof {
            lemma_shift_gain_nonneg(self.game@.cells, m);
        }
        self.game.make_move(m);
        proof {
            if avail@.len() > 0 {
                assert(avail@.contains(m));
                assert(move_changes(old(self).game@.cells, m));
                assert forall|m2: Move|
                    move_changes(old(self).game@.cells, m2) implies self.last_scores.spec_get(m2)
                    <= self.last_scores.spec_get(m) by {
                    assert(avail@.contains(m2));
                    let k = choose|k: int| 0 <= k < avail@.len() && avail@[k] == m2;
                    assert(scores.spec_get(avail@[k]) <= scores.spec_get(m));
                }
                assert(move_applied(old(self).game@, m, self.game@));
            } else {
                assert forall|m2: Move| !move_changes(old(self).game@.cells, m2) by {
                    if move_changes(old(self).game@.cells, m2) {
                        assert(avail@.contains(m2));
                    }
                }
                assert(m == scores.spec_max_move());
            }
        }
    }
}

} // verus!
