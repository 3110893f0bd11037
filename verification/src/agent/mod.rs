//! The decision layer: agents that choose moves for a board.
//!
//! Every agent owns a [`Game`](crate::game::Game) and exposes the same
//! small surface — read the board, name the next move, or commit one —
//! so a front-end can drive any of them interchangeably.

pub mod expectimax;
pub mod random;
pub mod rl;
pub mod user;

use vstd::prelude::*;

use crate::game::move_index;
use crate::game::Game;
use crate::game::Move;

verus! {

/// The uniform capability every playing agent offers.
pub trait Agent {
    /// The board the agent is playing.
    fn get_game(&self) -> &Game;

    /// The move the agent would choose now, without changing anything.
    fn next_move(&self) -> Move;

    /// Chooses a move and commits it to the owned board.
    fn make_move(&mut self);
}

/// A total mapping from each of the four moves to a score, used to compare
/// candidate moves.
#[derive(Clone, Copy, PartialEq, Eq, Debug, Structural)]
pub struct MoveScores {
    /// The score recorded for `Move::Up`.
    pub up: usize,
    /// The score recorded for `Move::Down`.
    pub down: usize,
    /// The score recorded for `Move::Left`.
    pub left: usize,
    /// The score recorded for `Move::Right`.
    pub right: usize,
}

impl MoveScores {
    /// The score recorded for `m`.
    pub open spec fn spec_get(self, m: Move) -> usize {
        match m {
            Move::Up => self.up,
            Move::Down => self.down,
            Move::Left => self.left,
            Move::Right => self.right,
        }
    }

    /// The first-declared move among those holding the maximum score.
    pub open spec fn spec_max_move(self) -> Move {
        if self.up >= self.down && self.up >= self.left && self.up >= self.right {
            Move::Up
        } else if self.down >= self.left && self.down >= self.right {
            Move::Down
        } else if self.left >= self.right {
            Move::Left
        } else {
            Move::Right
        }
    }

    /// The largest of the four scores.
    pub open spec fn spec_max_value(self) -> usize {
        self.spec_get(self.spec_max_move())
    }

    /// Reads the score of one move.
    pub fn get(&self, m: Move) -> (r: usize)
        ensures
            r == self.spec_get(m),
    {
        match m {
            Move::Up => self.up,
            Move::Down => self.down,
            Move::Left => self.left,
            Move::Right => self.right,
        }
    }

    /// Writes the score of one move, leaving the other three untouched.
    pub fn set(&mut self, m: Move, v: usize)
        ensures
            final(self).spec_get(m) == v,
            forall|m2: Move| m2 != m ==> final(self).spec_get(m2) == old(self).spec_get(m2),
    {
        match m {
            Move::Up => self.up = v,
            Move::Down => self.down = v,
            Move::Left => self.left = v,
            Move::Right => self.right = v,
        }
    }

    /// The largest of the four scores.
    pub fn max_value(&self) -> (r: usize)
        ensures
            r == self.spec_max_value(),
            forall|m: Move| self.spec_get(m) <= r,
    {
        let mut best: usize = self.up;
        if self.down > best {
            best = self.down;
        }
        if self.left > best {
            best = self.left;
        }
        if self.right > best {
            best = self.right;
        }
        best
    }
}

impl Default for MoveScores {
    /// Every move starts at score zero.
    fn default() -> (r: MoveScores)
        ensures
            forall|m: Move| r.spec_get(m) == 0,
    {
        MoveScores { up: 0, down: 0, left: 0, right: 0 }
    }
}

/// Picking the best-scored move out of a [`MoveScores`] mapping.
pub trait MaxMove {
    /// The move holding the highest score.
    fn max_move(&self) -> Move;
}

impl MaxMove for MoveScores {
    /// The move with the highest score; ties go to the earlier-declared
    /// direction, so repeated calls always agree.
    fn max_move(&self) -> (m: Move)
        ensures
            m == self.spec_max_move(),
    {
        if self.up >= self.down && self.up >= self.left && self.up >= self.right {
            Move::Up
        } else if self.down >= self.left && self.down >= self.right {
            Move::Down
        } else if self.left >= self.right {
            Move::Left
        } else {
            Move::Right
        }
    }
}

/// The best-scored move among the listed ones, ties going to the earliest
/// listed; when the list is empty, the mapping's overall best.  Feeding it
/// the available moves guarantees that a move nothing can be said for — one
/// left at the default score — is never chosen over an available one.
pub fn max_available_move(scores: &MoveScores, avail: &Vec<Move>) -> (m: Move)
    ensures
        avail@.len() == 0 ==> m == scores.spec_max_move(),
        avail@.len() > 0 ==> avail@.contains(m),
        forall|k: int|
            0 <= k < avail@.len() ==> scores.spec_get(#[trigger] avail@[k]) <= scores.spec_get(m),
        avail@.len() > 0 ==> exists|j: int|
            0 <= j < avail@.len() && avail@[j] == m && (forall|t: int|
                0 <= t < j ==> scores.spec_get(#[trigger] avail@[t]) < scores.spec_get(m)),
{
    if avail.len() == 0 {
        return scores.max_move();
    }
    let mut m: Move = avail[0];
    let mut best: usize = scores.get(m);
    let mut k: usize = 1;
    while k < avail.len()
        invariant
            1 <= k <= avail@.len(),
            best == scores.spec_get(m),
            forall|t: int| 0 <= t < k ==> scores.spec_get(#[trigger] avail@[t]) <= best,
            exists|j: int|
                0 <= j < k && avail@[j] == m && (forall|t: int|
                    0 <= t < j ==> scores.spec_get(#[trigger] avail@[t]) < best),
        decreases avail@.len() - k,
    {
        let cand = avail[k];
        let v = scores.get(cand);
        if v > best {
            m = cand;
            best = v;
            proof {
                assert(avail@[k as int] == m);
            }
        }
        k += 1;
    }
    proof {
        assert(avail@.contains(m)) by {
            let j = choose|j: int|
                0 <= j < avail@.len() && avail@[j] == m && (forall|t: int|
                    0 <= t < j ==> scores.spec_get(#[trigger] avail@[t]) < best);
            assert(avail@[j] == m);
        }
    }
    m
}

/// The chosen move always carries the maximum score, and among the moves
/// carrying it the first-declared one is chosen: the tie-break is
/// deterministic and favours the declaration order Up, Down, Left, Right.
pub proof fn lemma_max_move_tie_break(s: MoveScores)
    ensures
        forall|m: Move| #[trigger] s.spec_get(m) <= s.spec_get(s.spec_max_move()),
        forall|m: Move|
            #[trigger] s.spec_get(m) == s.spec_get(s.spec_max_move()) ==> move_index(
                s.spec_max_move(),
            ) <= move_index(m),
{
}

} // verus!
