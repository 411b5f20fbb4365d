//! What a position is worth: the minimax value to a bounded depth.

use crate::traits::game::Board;
use vstd::prelude::*;

verus! {

/// A score as a search reports it for a position that it does not look
/// beyond, with `remaining` plies of its depth budget unspent: a score of
/// zero stays, any other moves away from zero by `remaining`. A win found
/// early so counts for more than the same win found late, and a loss
/// found late for more than the same loss found early.
pub open spec fn biased(score: int, remaining: nat) -> int {
    if score > 0 {
        score + remaining
    } else if score < 0 {
        score - remaining
    } else {
        0
    }
}

/// The value that every reply improves on: the least score for the
/// maximizer, the greatest for the minimizer.
pub open spec fn worst(is_max: bool) -> int {
    if is_max {
        i64::MIN as int
    } else {
        i64::MAX as int
    }
}

/// The one of two values that the side prefers.
pub open spec fn better(is_max: bool, a: int, b: int) -> int {
    if is_max {
        if a >= b {
            a
        } else {
            b
        }
    } else {
        if a <= b {
            a
        } else {
            b
        }
    }
}

/// The minimax value of `board` with `is_max` to move, looking `remaining`
/// plies ahead. A position that is over, or that the budget does not
/// reach beyond, is worth its biased score; any other is worth the best
/// of its replies to the side that moves.
pub open spec fn minimax<T: Board>(board: T, remaining: nat, is_max: bool) -> int
    decreases remaining, 0nat,
{
    if remaining == 0 || board.finished() {
        biased(board.worth(), remaining)
    } else {
        best_reply(board, board.moves(is_max), 0, (remaining - 1) as nat, is_max, worst(is_max))
    }
}

/// The best, to the side that moves, of `so_far` and the values of the
/// positions that `moves[from..]` lead to, each searched `budget` plies
/// deep with the other side to move.
pub open spec fn best_reply<T: Board>(
    board: T,
    moves: Seq<T::Move>,
    from: nat,
    budget: nat,
    is_max: bool,
    so_far: int,
) -> int
    decreases budget, moves.len() - from + 1,
{
    if from >= moves.len() {
        so_far
    } else {
        best_reply(
            board,
            moves,
            from + 1,
            budget,
            is_max,
            better(is_max, so_far, minimax(board.play(moves[from as int]), budget, !is_max)),
        )
    }
}

/// What the moves still to come can only improve: the best reply is at
/// least as good, to the side that moves, as the value it starts from.
pub proof fn lemma_best_reply_improves<T: Board>(
    board: T,
    moves: Seq<T::Move>,
    from: nat,
    budget: nat,
    is_max: bool,
    so_far: int,
)
    ensures
        better(is_max, so_far, best_reply(board, moves, from, budget, is_max, so_far))
            == best_reply(board, moves, from, budget, is_max, so_far),
    decreases moves.len() - from,
{
    if from < moves.len() {
        let reply = minimax(board.play(moves[from as int]), budget, !is_max);
        lemma_best_reply_improves(
            board,
            moves,
            from + 1,
            budget,
            is_max,
            better(is_max, so_far, reply),
        );
    }
}

/// Starting from a better value gives the better of that value and what
/// the worse start gives.
pub proof fn lemma_best_reply_absorbs<T: Board>(
    board: T,
    moves: Seq<T::Move>,
    from: nat,
    budget: nat,
    is_max: bool,
    low: int,
    high: int,
)
    requires
        better(is_max, low, high) == high,
    ensures
        best_reply(board, moves, from, budget, is_max, high) == better(
            is_max,
            high,
            best_reply(board, moves, from, budget, is_max, low),
        ),
    decreases moves.len() - from,
{
    if from < moves.len() {
        let reply = minimax(board.play(moves[from as int]), budget, !is_max);
        lemma_best_reply_absorbs(
            board,
            moves,
            from + 1,
            budget,
            is_max,
            better(is_max, low, reply),
            better(is_max, high, reply),
        );
        lemma_best_reply_improves(
            board,
            moves,
            from + 1,
            budget,
            is_max,
            better(is_max, low, reply),
        );
    }
}

/// A minimax value to a depth that a `u16` holds is a value that an `i64`
/// holds.
pub proof fn lemma_minimax_in_range<T: Board>(board: T, remaining: nat, is_max: bool)
    requires
        remaining <= u16::MAX,
    ensures
        i64::MIN <= minimax(board, remaining, is_max) <= i64::MAX,
    decreases remaining, 0nat,
{
    if remaining == 0 || board.finished() {
        board.lemma_worth_in_range();
    } else {
        lemma_best_reply_in_range(
            board,
            board.moves(is_max),
            0,
            (remaining - 1) as nat,
            is_max,
            worst(is_max),
        );
    }
}

/// The best reply stays a value that an `i64` holds.
pub proof fn lemma_best_reply_in_range<T: Board>(
    board: T,
    moves: Seq<T::Move>,
    from: nat,
    budget: nat,
    is_max: bool,
    so_far: int,
)
    requires
        budget < u16::MAX,
        i64::MIN <= so_far <= i64::MAX,
    ensures
        i64::MIN <= best_reply(board, moves, from, budget, is_max, so_far) <= i64::MAX,
    decreases budget, moves.len() - from + 1,
{
    if from < moves.len() {
        let reply = minimax(board.play(moves[from as int]), budget, !is_max);
        lemma_minimax_in_range(board.play(moves[from as int]), budget, !is_max);
        lemma_best_reply_in_range(
            board,
            moves,
            from + 1,
            budget,
            is_max,
            better(is_max, so_far, reply),
        );
    }
}

/// Of two outcomes with the same score, the one found with more of the
/// depth budget unspent, that is after fewer plies, is reported as no
/// worse where it is a win and as no better where it is a loss.
pub proof fn lemma_bias_prefers_early_wins(score: int, sooner: nat, later: nat)
    requires
        sooner >= later,
    ensures
        score > 0 ==> biased(score, sooner) >= biased(score, later),
        score < 0 ==> biased(score, sooner) <= biased(score, later),
        score == 0 ==> biased(score, sooner) == biased(score, later),
{
}

/// A game that has ended is worth more to its winner the sooner it has
/// ended: with more of the depth budget unspent, a won position has no
/// lower a value, and a lost position no higher, whoever is to move.
pub proof fn lemma_sooner_end_counts_more<T: Board>(
    board: T,
    sooner: nat,
    later: nat,
    to_move_sooner: bool,
    to_move_later: bool,
)
    requires
        board.finished(),
        sooner >= later,
    ensures
        board.worth() > 0 ==> minimax(board, sooner, to_move_sooner) >= minimax(
            board,
            later,
            to_move_later,
        ),
        board.worth() < 0 ==> minimax(board, sooner, to_move_sooner) <= minimax(
            board,
            later,
            to_move_later,
        ),
{
    lemma_bias_prefers_early_wins(board.worth(), sooner, later);
}

} // verus!
