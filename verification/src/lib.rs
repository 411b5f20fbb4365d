//! Adversarial search for two-player, zero-sum, perfect-information games:
//! minimax with alpha-beta pruning, returning every move tied for best.
//!
//! A game implements [`Board`]. [`get_best_moves`] then searches it on the
//! calling thread and returns the moves whose minimax value is best for the
//! side to move, all of them, with the counters of the search.
//!
//! - [`traits`]: what a game must offer, and the laws it must keep.
//! - [`minimax`]: the value of a position, as a definition.
//! - [`alphabeta`]: the search on one thread, and the proof that pruning
//!   does not change what it finds.
//! - [`ranking`]: scored moves, their order, and the ties for best.
//! - [`shared`]: the search on bounds that several threads share, cut into
//!   tasks that a pool of workers can run.
//! - [`pool`]: the size of such a pool.
//! - [`metadata`]: the counters.
//! - [`example`]: two small games.

pub mod alphabeta;
pub mod example;
pub mod metadata;
pub mod minimax;
pub mod pool;
pub mod ranking;
pub mod shared;
pub mod traits;

pub use traits::game::{Board, Result};
pub use metadata::Metadata;
pub use ranking::MoveScore;

use vstd::prelude::*;

verus! {

/// The depth that a depth limit stands for: zero asks for no limit, which
/// is the greatest depth that can be named.
pub open spec fn depth_limit(max_depth: u16) -> nat {
    if max_depth == 0 {
        u16::MAX as nat
    } else {
        max_depth as nat
    }
}

/// The depth that a depth limit stands for.
pub fn resolve_depth(max_depth: u16) -> (depth: u16)
    ensures
        depth == depth_limit(max_depth),
{
    if max_depth == 0 {
        u16::MAX
    } else {
        max_depth
    }
}

/// Each move of the side to move, in the order in which the game lists
/// them, with the minimax value of the position it leads to, looked at
/// `depth` plies deep with the other side to move.
pub open spec fn root_scores<T: Board>(board: T, depth: nat, is_max: bool) -> Seq<MoveScore<T>> {
    Seq::new(
        board.moves(is_max).len(),
        |i: int|
            MoveScore {
                game_move: board.moves(is_max)[i],
                score: minimax::minimax(board.play(board.moves(is_max)[i]), depth, !is_max) as i64,
            },
    )
}

/// What searching the first `count` moves costs, each between the widest
/// bounds: the positions visited and the prunes made, summed.
pub open spec fn root_cost<T: Board>(board: T, depth: nat, is_max: bool, count: nat) -> (nat, nat)
    decreases count,
{
    if count == 0 {
        (0, 0)
    } else {
        let before = root_cost(board, depth, is_max, (count - 1) as nat);
        let last = alphabeta::search(
            board.play(board.moves(is_max)[count - 1]),
            depth,
            i64::MIN as int,
            i64::MAX as int,
            !is_max,
        );
        (before.0 + last.nodes, before.1 + last.prunes)
    }
}

/// The best score among the moves of a position is the minimax value of
/// the position itself, looked at one ply deeper than the moves are.
pub proof fn lemma_best_root_score_is_minimax<T: Board>(board: T, depth: nat, is_max: bool)
    requires
        depth <= u16::MAX,
        !board.finished(),
    ensures
        ranking::best_score(root_scores(board, depth, is_max), is_max) == minimax::minimax(
            board,
            depth + 1,
            is_max,
        ),
{
    let scores = root_scores(board, depth, is_max);
    board.lemma_unfinished_has_moves(is_max);
    lemma_best_of_first(board, depth, is_max, scores.len());
    assert(scores.take(scores.len() as int) =~= scores);
}

/// The best reply is what the moves still to come make of the best score
/// among the first `count` moves.
proof fn lemma_best_of_first<T: Board>(board: T, depth: nat, is_max: bool, count: nat)
    requires
        depth <= u16::MAX,
        1 <= count <= board.moves(is_max).len(),
    ensures
        minimax::best_reply(
            board,
            board.moves(is_max),
            0,
            depth,
            is_max,
            minimax::worst(is_max),
        ) == minimax::best_reply(
            board,
            board.moves(is_max),
            count,
            depth,
            is_max,
            ranking::best_score(root_scores(board, depth, is_max).take(count as int), is_max),
        ),
    decreases count,
{
    let moves = board.moves(is_max);
    let scores = root_scores(board, depth, is_max);
    let last = (count - 1) as nat;
    minimax::lemma_minimax_in_range(board.play(moves[last as int]), depth, !is_max);
    assert(scores.take(count as int).last() == scores[last as int]);
    if count > 1 {
        lemma_best_of_first(board, depth, is_max, last);
        assert(scores.take(count as int).drop_last() =~= scores.take(last as int));
    }
}

/// The moves that tie for best are the optimal moves, all of them: each
/// is paired with the minimax value of the position it leads to, that
/// value is the same for all and is the minimax value of the position
/// itself, and no move that attains it is left out.
pub proof fn lemma_best_moves_are_optimal<T: Board>(board: T, max_depth: u16, is_max: bool)
    requires
        !board.finished(),
    ensures
        ({
            let depth = depth_limit(max_depth);
            let moves = board.moves(is_max);
            let best = ranking::tied_best(root_scores(board, depth, is_max), is_max);
            let value = minimax::minimax(board, depth + 1, is_max);
            &&& best.len() > 0
            &&& forall|k: int|
                0 <= k < best.len() ==> (#[trigger] best[k]).score == value && exists|i: int|
                    0 <= i < moves.len() && best[k].game_move == #[trigger] moves[i]
                        && minimax::minimax(board.play(moves[i]), depth, !is_max) == value
            &&& forall|i: int|
                0 <= i < moves.len() && minimax::minimax(
                    board.play(#[trigger] moves[i]),
                    depth,
                    !is_max,
                ) == value ==> best.contains(MoveScore { game_move: moves[i], score: value as i64 })
        }),
{
    let depth = depth_limit(max_depth);
    let moves = board.moves(is_max);
    let scores = root_scores(board, depth, is_max);
    let best = ranking::tied_best(scores, is_max);
    let value = minimax::minimax(board, depth + 1, is_max);
    board.lemma_unfinished_has_moves(is_max);
    lemma_best_root_score_is_minimax(board, depth, is_max);
    ranking::lemma_tied_best_complete(scores, is_max);
    assert forall|i: int| 0 <= i < moves.len() implies i64::MIN <= minimax::minimax(
        board.play(#[trigger] moves[i]),
        depth,
        !is_max,
    ) <= i64::MAX by {
        minimax::lemma_minimax_in_range(board.play(moves[i]), depth, !is_max);
    }
    assert forall|k: int| 0 <= k < best.len() implies (#[trigger] best[k]).score == value
        && exists|i: int|
        0 <= i < moves.len() && best[k].game_move == #[trigger] moves[i] && minimax::minimax(
            board.play(moves[i]),
            depth,
            !is_max,
        ) == value by {
        assert(scores.contains(best[k]));
        let i = choose|i: int| 0 <= i < scores.len() && scores[i] == best[k];
        assert(best[k].game_move == moves[i]);
    }
    assert forall|i: int|
        0 <= i < moves.len() && minimax::minimax(board.play(#[trigger] moves[i]), depth, !is_max)
            == value implies best.contains(
        MoveScore { game_move: moves[i], score: value as i64 },
    ) by {
        assert(scores[i] == MoveScore::<T> { game_move: moves[i], score: value as i64 });
    }
}

/// Scores every move of the side to move: makes it, searches the position
/// it leads to `depth` plies deep between the widest bounds with the other
/// side to move, and takes it back. What the searches visited and pruned
/// is added to `metadata`.
pub fn score_root_moves<T: Board>(
    board: &mut T,
    depth: u16,
    is_maximizers_turn: bool,
    metadata: &mut Metadata,
) -> (scores: Vec<MoveScore<T>>)
    ensures
        *final(board) == *old(board),
        scores@ == root_scores(*old(board), depth as nat, is_maximizers_turn),
        final(metadata).visited() == metadata::saturate(
            old(metadata).visited() + root_cost(
                *old(board),
                depth as nat,
                is_maximizers_turn,
                old(board).moves(is_maximizers_turn).len(),
            ).0,
        ),
        final(metadata).pruned() == metadata::saturate(
            old(metadata).pruned() + root_cost(
                *old(board),
                depth as nat,
                is_maximizers_turn,
                old(board).moves(is_maximizers_turn).len(),
            ).1,
        ),
{
    let ghost start = *board;
    let ghost wanted = root_scores(start, depth as nat, is_maximizers_turn);
    let moves = board.get_valid_moves(is_maximizers_turn);
    let mut scores: Vec<MoveScore<T>> = Vec::new();
    let mut i: usize = 0;
    while i < moves.len()
        invariant
            i <= moves.len(),
            *board == start,
            start == *old(board),
            moves@ == start.moves(is_maximizers_turn),
            wanted == root_scores(start, depth as nat, is_maximizers_turn),
            scores@ == wanted.take(i as int),
            metadata.visited() == metadata::saturate(
                old(metadata).visited() + root_cost(
                    start,
                    depth as nat,
                    is_maximizers_turn,
                    i as nat,
                ).0,
            ),
            metadata.pruned() == metadata::saturate(
                old(metadata).pruned() + root_cost(
                    start,
                    depth as nat,
                    is_maximizers_turn,
                    i as nat,
                ).1,
            ),
        decreases moves.len() - i,
    {
        let m = moves[i];
        proof {
            start.lemma_moves_accepted(is_maximizers_turn, i as int);
            alphabeta::lemma_search_finds_minimax(start.play(m), depth as nat, !is_maximizers_turn);
        }
        board.make_move(&m);
        let score = alphabeta::alphabeta(
            board,
            depth,
            i64::MIN,
            i64::MAX,
            !is_maximizers_turn,
            metadata,
        );
        board.unmake_move(&m);
        scores.push(MoveScore { game_move: m, score });
        proof {
            assert(scores@ =~= wanted.take(i + 1));
        }
        i += 1;
    }
    proof {
        assert(wanted.take(i as int) =~= wanted);
    }
    scores
}

/// Gets all equally good moves for the player named by
/// `is_maximizers_turn`, looking `max_depth` plies beyond each move, or
/// without a limit where `max_depth` is zero, together with what the
/// search visited and pruned.
///
/// A position in which the game is over has no moves to offer and is not
/// searched.
pub fn get_best_moves<T: Board>(board: T, max_depth: u16, is_maximizers_turn: bool) -> (found: (
    Vec<MoveScore<T>>,
    Metadata,
))
    ensures
        board.finished() ==> found.0@.len() == 0 && found.1.visited() == 0 && found.1.pruned()
            == 0,
        !board.finished() ==> found.0@ == ranking::tied_best(
            root_scores(board, depth_limit(max_depth), is_maximizers_turn),
            is_maximizers_turn,
        ),
        !board.finished() ==> found.1.visited() == metadata::saturate(
            root_cost(
                board,
                depth_limit(max_depth),
                is_maximizers_turn,
                board.moves(is_maximizers_turn).len(),
            ).0 as int,
        ),
        !board.finished() ==> found.1.pruned() == metadata::saturate(
            root_cost(
                board,
                depth_limit(max_depth),
                is_maximizers_turn,
                board.moves(is_maximizers_turn).len(),
            ).1 as int,
        ),
{
    let mut board = board;
    let depth = resolve_depth(max_depth);
    let mut metadata = Metadata::new();
    if board.evaluate().is_over() {
        return (Vec::new(), metadata);
    }
    proof {
        board.lemma_unfinished_has_moves(is_maximizers_turn);
    }
    let scores = score_root_moves(&mut board, depth, is_maximizers_turn, &mut metadata);
    (ranking::best_moves(scores, is_maximizers_turn), metadata)
}

} // verus!
