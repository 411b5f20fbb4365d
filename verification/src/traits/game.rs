//! The capability a game must offer to be searched.
//!
//! A game describes itself twice: by spec functions, which say what its
//! positions, moves and scores are, and by executable methods, which the
//! engine calls and which must agree with the spec functions.

use vstd::prelude::*;

verus! {

/// Largest magnitude a position's score may have. It leaves room for the
/// depth bias, which moves a score away from zero by at most `u16::MAX`.
pub const SCORE_LIMIT: i64 = 9223372036854710272;

/// What an evaluation says about a position.
pub trait Result {
    /// Whether the game has ended, as `is_over` reports it.
    spec fn over(&self) -> bool;

    /// The score, as `score` reports it.
    spec fn value(&self) -> int;

    /// Should return true if the game is over for any reason,
    /// i.e. a player has won or there is a draw.
    fn is_over(&self) -> (over: bool)
        ensures
            over == self.over(),
    ;

    /// Returns the score associated with this result. The maximizing player
    /// seeks the greatest score, the minimizing player the least.
    fn score(&self) -> (score: i64)
        ensures
            score == self.value(),
    ;
}

/// A game position that the engine explores by making and unmaking moves.
pub trait Board: Copy + Send + core::fmt::Debug + 'static {
    type Move: Copy + Send + core::fmt::Debug + 'static;

    type Result: Result;

    /// Whether the game has ended in this position.
    spec fn finished(self) -> bool;

    /// The score of this position, whoever is to move.
    spec fn worth(self) -> int;

    /// The legal moves of the given side, in the order in which
    /// `get_valid_moves` lists them.
    spec fn moves(self, is_maximizer: bool) -> Seq<Self::Move>;

    /// Whether `m` may be played in this position.
    spec fn accepts(self, m: Self::Move) -> bool;

    /// The position after `m` has been played.
    spec fn play(self, m: Self::Move) -> Self;

    /// Every score stays within `SCORE_LIMIT` of zero.
    proof fn lemma_worth_in_range(self)
        ensures
            -SCORE_LIMIT <= self.worth() <= SCORE_LIMIT,
    ;

    /// Every listed move may be played.
    proof fn lemma_moves_accepted(self, is_maximizer: bool, i: int)
        requires
            0 <= i < self.moves(is_maximizer).len(),
        ensures
            self.accepts(self.moves(is_maximizer)[i]),
    ;

    /// A position in which the game is not over offers each side a move.
    proof fn lemma_unfinished_has_moves(self, is_maximizer: bool)
        requires
            !self.finished(),
        ensures
            self.moves(is_maximizer).len() > 0,
    ;

    /// Applies `valid_move`, which must be valid for the current position.
    fn make_move(&mut self, valid_move: &Self::Move)
        requires
            old(self).accepts(*valid_move),
        ensures
            *final(self) == old(self).play(*valid_move),
    ;

    /// Takes back `made_move`, which must be the most recent move made and
    /// not yet taken back. The position is again the one it was played in.
    fn unmake_move(&mut self, made_move: &Self::Move)
        requires
            exists|before: Self|
                before.accepts(*made_move) && #[trigger] before.play(*made_move) == *old(self),
        ensures
            forall|before: Self|
                before.accepts(*made_move) && #[trigger] before.play(*made_move) == *old(self)
                    ==> *final(self) == before,
    ;

    /// Returns all valid moves for the given player.
    fn get_valid_moves(&self, is_maximizer: bool) -> (moves: Vec<Self::Move>)
        ensures
            moves@ == self.moves(is_maximizer),
    ;

    /// Evaluates the current position. The engine reads the score only
    /// where the game is over or the depth budget is spent.
    fn evaluate(&self) -> (result: Self::Result)
        ensures
            result.over() == self.finished(),
            result.value() == self.worth(),
    ;
}

} // verus!
