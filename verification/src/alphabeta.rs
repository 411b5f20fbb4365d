//! Depth-first alpha-beta search on one thread.

use crate::traits::game::{Board, Result, SCORE_LIMIT};
use crate::metadata::{saturate, Metadata};
use crate::minimax::{
    best_reply, better, biased, lemma_best_reply_absorbs, lemma_best_reply_improves,
    lemma_minimax_in_range, minimax, worst,
};
use vstd::prelude::*;

verus! {

/// What a search found and what it cost: the score, the positions visited
/// and the prunes made.
pub struct Tally {
    pub score: int,
    pub nodes: nat,
    pub prunes: nat,
}

/// Whether a position's remaining moves are cut off: its score so far is
/// already as good as the bound that the other side holds.
pub open spec fn cut(is_max: bool, score: int, alpha: int, beta: int) -> bool {
    if is_max {
        score >= beta
    } else {
        score <= alpha
    }
}

/// The bound of the maximizer after a position's score so far has become
/// `score`.
pub open spec fn raised(is_max: bool, alpha: int, score: int) -> int {
    if is_max {
        better(true, alpha, score)
    } else {
        alpha
    }
}

/// The bound of the minimizer after a position's score so far has become
/// `score`.
pub open spec fn lowered(is_max: bool, beta: int, score: int) -> int {
    if is_max {
        beta
    } else {
        better(false, beta, score)
    }
}

/// The search of `board` with `is_max` to move, `remaining` plies deep,
/// between the bounds `alpha` and `beta`.
///
/// The position itself is counted. If it is over or the budget is spent,
/// its biased score is the result. Otherwise its moves are tried in order.
pub open spec fn search<T: Board>(
    board: T,
    remaining: nat,
    alpha: int,
    beta: int,
    is_max: bool,
) -> Tally
    decreases remaining, 0nat,
{
    if remaining == 0 || board.finished() {
        Tally { score: biased(board.worth(), remaining), nodes: 1, prunes: 0 }
    } else {
        scan(
            board,
            board.moves(is_max),
            0,
            (remaining - 1) as nat,
            alpha,
            beta,
            is_max,
            Tally { score: worst(is_max), nodes: 1, prunes: 0 },
        )
    }
}

/// The search of the moves `moves[from..]` of `board`, each reply searched
/// `budget` plies deep, after the earlier moves have given `so_far`.
///
/// Each reply is searched between the current bounds. The score so far
/// becomes the better of itself and the reply's score. If that cuts the
/// position off, one prune is counted and the later moves are not tried;
/// if not, the mover's bound moves to the score where it is better.
pub open spec fn scan<T: Board>(
    board: T,
    moves: Seq<T::Move>,
    from: nat,
    budget: nat,
    alpha: int,
    beta: int,
    is_max: bool,
    so_far: Tally,
) -> Tally
    decreases budget, moves.len() - from + 1,
{
    if from >= moves.len() {
        so_far
    } else {
        let reply = search(board.play(moves[from as int]), budget, alpha, beta, !is_max);
        let score = better(is_max, so_far.score, reply.score);
        let nodes = so_far.nodes + reply.nodes;
        let prunes = so_far.prunes + reply.prunes;
        if cut(is_max, score, alpha, beta) {
            Tally { score, nodes, prunes: prunes + 1 }
        } else {
            scan(
                board,
                moves,
                from + 1,
                budget,
                raised(is_max, alpha, score),
                lowered(is_max, beta, score),
                is_max,
                Tally { score, nodes, prunes },
            )
        }
    }
}

/// How far a search between the bounds `alpha` and `beta` can be trusted:
/// a score strictly between the bounds is the value itself; a score at or
/// below `alpha` says that the value is no greater than it; a score at or
/// above `beta` says that the value is no less than it.
pub open spec fn agrees(found: int, value: int, alpha: int, beta: int) -> bool {
    &&& found <= alpha ==> value <= found
    &&& alpha < found < beta ==> value == found
    &&& found >= beta ==> value >= found
}

/// The moves still to come can only improve the score so far.
pub proof fn lemma_scan_improves<T: Board>(
    board: T,
    moves: Seq<T::Move>,
    from: nat,
    budget: nat,
    alpha: int,
    beta: int,
    is_max: bool,
    so_far: Tally,
)
    ensures
        better(
            is_max,
            so_far.score,
            scan(board, moves, from, budget, alpha, beta, is_max, so_far).score,
        ) == scan(board, moves, from, budget, alpha, beta, is_max, so_far).score,
    decreases moves.len() - from,
{
    if from < moves.len() {
        let reply = search(board.play(moves[from as int]), budget, alpha, beta, !is_max);
        let score = better(is_max, so_far.score, reply.score);
        if !cut(is_max, score, alpha, beta) {
            lemma_scan_improves(
                board,
                moves,
                from + 1,
                budget,
                raised(is_max, alpha, score),
                lowered(is_max, beta, score),
                is_max,
                Tally {
                    score,
                    nodes: so_far.nodes + reply.nodes,
                    prunes: so_far.prunes + reply.prunes,
                },
            );
        }
    }
}

/// Pruning does not change what is found between the bounds: the score of
/// a search agrees with the minimax value of the position.
pub proof fn lemma_search_agrees<T: Board>(
    board: T,
    remaining: nat,
    alpha: int,
    beta: int,
    is_max: bool,
)
    requires
        i64::MIN <= alpha < beta <= i64::MAX,
    ensures
        agrees(
            search(board, remaining, alpha, beta, is_max).score,
            minimax(board, remaining, is_max),
            alpha,
            beta,
        ),
    decreases remaining, 0nat,
{
    if !(remaining == 0 || board.finished()) {
        lemma_scan_agrees(
            board,
            board.moves(is_max),
            0,
            (remaining - 1) as nat,
            alpha,
            beta,
            is_max,
            Tally { score: worst(is_max), nodes: 1, prunes: 0 },
        );
    }
}

/// The score of a scan agrees with the best reply, where the score so far
/// does not yet reach past the mover's own bound.
pub proof fn lemma_scan_agrees<T: Board>(
    board: T,
    moves: Seq<T::Move>,
    from: nat,
    budget: nat,
    alpha: int,
    beta: int,
    is_max: bool,
    so_far: Tally,
)
    requires
        i64::MIN <= alpha < beta <= i64::MAX,
        is_max ==> so_far.score <= alpha,
        !is_max ==> so_far.score >= beta,
    ensures
        agrees(
            scan(board, moves, from, budget, alpha, beta, is_max, so_far).score,
            best_reply(board, moves, from, budget, is_max, so_far.score),
            alpha,
            beta,
        ),
    decreases budget, moves.len() - from + 1,
{
    if from < moves.len() {
        let child = board.play(moves[from as int]);
        let reply = search(child, budget, alpha, beta, !is_max);
        let value = minimax(child, budget, !is_max);
        lemma_search_agrees(child, budget, alpha, beta, !is_max);
        let score = better(is_max, so_far.score, reply.score);
        let true_score = better(is_max, so_far.score, value);
        lemma_best_reply_improves(board, moves, from + 1, budget, is_max, true_score);
        if !cut(is_max, score, alpha, beta) {
            let next = Tally {
                score,
                nodes: so_far.nodes + reply.nodes,
                prunes: so_far.prunes + reply.prunes,
            };
            let low = raised(is_max, alpha, score);
            let high = lowered(is_max, beta, score);
            lemma_scan_agrees(board, moves, from + 1, budget, low, high, is_max, next);
            lemma_scan_improves(board, moves, from + 1, budget, low, high, is_max, next);
            lemma_best_reply_absorbs(board, moves, from + 1, budget, is_max, true_score, score);
        }
    }
}

/// Between the widest bounds the search finds the minimax value itself.
pub proof fn lemma_search_finds_minimax<T: Board>(board: T, remaining: nat, is_max: bool)
    requires
        remaining <= u16::MAX,
    ensures
        search(board, remaining, i64::MIN as int, i64::MAX as int, is_max).score == minimax(
            board,
            remaining,
            is_max,
        ),
{
    lemma_search_agrees(board, remaining, i64::MIN as int, i64::MAX as int, is_max);
    lemma_minimax_in_range(board, remaining, is_max);
}

/// The score of a position that the search does not look beyond.
pub fn bias(score: i64, remaining: u16) -> (biased_score: i64)
    requires
        -SCORE_LIMIT <= score <= SCORE_LIMIT,
    ensures
        biased_score == biased(score as int, remaining as nat),
{
    if score > 0 {
        score + remaining as i64
    } else if score < 0 {
        score - remaining as i64
    } else {
        score
    }
}

/// Searches `board` with `is_max` to move, `remaining` plies deep, between
/// the bounds `alpha` and `beta`, and adds what it visited and pruned to
/// `metadata`. The board is handed back as it was.
pub fn alphabeta<T: Board>(
    board: &mut T,
    remaining: u16,
    alpha: i64,
    beta: i64,
    is_max: bool,
    metadata: &mut Metadata,
) -> (score: i64)
    ensures
        *final(board) == *old(board),
        alpha < beta ==> agrees(
            score as int,
            minimax(*old(board), remaining as nat, is_max),
            alpha as int,
            beta as int,
        ),
        score == search(*old(board), remaining as nat, alpha as int, beta as int, is_max).score,
        final(metadata).visited() == saturate(
            old(metadata).visited() + search(
                *old(board),
                remaining as nat,
                alpha as int,
                beta as int,
                is_max,
            ).nodes,
        ),
        final(metadata).pruned() == saturate(
            old(metadata).pruned() + search(
                *old(board),
                remaining as nat,
                alpha as int,
                beta as int,
                is_max,
            ).prunes,
        ),
    decreases remaining,
{
    let ghost start = *board;
    let ghost visited = metadata.visited();
    let ghost pruned = metadata.pruned();
    let ghost whole = search(start, remaining as nat, alpha as int, beta as int, is_max);
    proof {
        if alpha < beta {
            lemma_search_agrees(start, remaining as nat, alpha as int, beta as int, is_max);
        }
    }
    let result = board.evaluate();
    let raw = result.score();
    metadata.count_move();
    if remaining == 0 || result.is_over() {
        proof {
            start.lemma_worth_in_range();
        }
        return bias(raw, remaining);
    }
    let moves = board.get_valid_moves(is_max);
    let mut low = alpha;
    let mut high = beta;
    let mut score = if is_max {
        i64::MIN
    } else {
        i64::MAX
    };
    let ghost mut so_far = Tally { score: worst(is_max), nodes: 1, prunes: 0 };
    let mut i: usize = 0;
    while i < moves.len()
        invariant
            i <= moves.len(),
            remaining > 0,
            *board == start,
            start == *old(board),
            visited == old(metadata).visited(),
            pruned == old(metadata).pruned(),
            whole == search(start, remaining as nat, alpha as int, beta as int, is_max),
            alpha < beta ==> agrees(
                whole.score,
                minimax(start, remaining as nat, is_max),
                alpha as int,
                beta as int,
            ),
            moves@ == start.moves(is_max),
            score == so_far.score,
            metadata.visited() == saturate(visited + so_far.nodes),
            metadata.pruned() == saturate(pruned + so_far.prunes),
            whole == scan(
                start,
                moves@,
                i as nat,
                (remaining - 1) as nat,
                low as int,
                high as int,
                is_max,
                so_far,
            ),
        decreases moves.len() - i,
    {
        let m = moves[i];
        proof {
            start.lemma_moves_accepted(is_max, i as int);
        }
        board.make_move(&m);
        let reply = alphabeta(board, remaining - 1, low, high, !is_max, metadata);
        board.unmake_move(&m);
        let ghost found = search(
            start.play(m),
            (remaining - 1) as nat,
            low as int,
            high as int,
            !is_max,
        );
        proof {
            so_far = Tally {
                score: better(is_max, so_far.score, found.score),
                nodes: so_far.nodes + found.nodes,
                prunes: so_far.prunes + found.prunes,
            };
        }
        if is_max {
            if reply > score {
                score = reply;
            }
            if score > low {
                low = score;
            }
            if score >= high {
                metadata.count_prune();
                return score;
            }
        } else {
            if reply < score {
                score = reply;
            }
            if score < high {
                high = score;
            }
            if score <= low {
                metadata.count_prune();
                return score;
            }
        }
        i += 1;
    }
    score
}

} // verus!
