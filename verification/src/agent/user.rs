//! Keyboard-driven play: the move bound to each key, and the agent that
//! commits those moves.  Reading raw key events is the front-end's job; it
//! hands this module plain characters and moves.

use vstd::prelude::*;

use crate::game::move_applied;
use crate::game::move_changes;
use crate::game::Game;
use crate::game::Move;

verus! {

broadcast use crate::game::lemma_view_bounds;

/// What the front-end should do after handling one input.
#[derive(Clone, Copy, PartialEq, Eq, Debug, Structural)]
pub enum IntAction {
    /// Keep playing.
    Continue,
    /// Leave the game.
    Exit,
}

/// The move bound to a letter key in the WASD layout, if any.
pub fn key_move(c: char) -> (r: Option<Move>)
    ensures
        c == 'w' ==> r == Some(Move::Up),
        c == 'a' ==> r == Some(Move::Left),
        c == 's' ==> r == Some(Move::Down),
        c == 'd' ==> r == Some(Move::Right),
        c != 'w' && c != 'a' && c != 's' && c != 'd' ==> r is None,
{
    if c == 'w' {
        Some(Move::Up)
    } else if c == 'a' {
        Some(Move::Left)
    } else if c == 's' {
        Some(Move::Down)
    } else if c == 'd' {
        Some(Move::Right)
    } else {
        None
    }
}

/// An agent driven by the player's own key presses.
pub struct UserAgent {
    /// The board being played.
    pub game: Game,
}

impl UserAgent {
    /// Wraps a board for keyboard play.
    pub fn new(game: Game) -> (r: UserAgent)
        ensures
            r.game == game,
    {
        UserAgent { game }
    }

    /// The board being played.
    pub fn get_game(&self) -> (g: &Game)
        ensures
            *g == self.game,
    {
        &self.game
    }

    /// Commits the move a recognized key stands for, synchronously, and
    /// reports whether it changed the board.
    pub fn input_move(&mut self, m: Move) -> (b: bool)
        ensures
            b == move_changes(old(self).game@.cells, m),
            move_applied(old(self).game@, m, final(self).game@),
    {
        proof {
            crate::game::lemma_shift_gain_nonneg(self.game@.cells, m);
        }
        self.game.make_move(m)
    }
}

} // verus!
