//! Alpha-beta search on bounds that several searches share.
//!
//! Each move of the side to move becomes a task. The tasks may run at the
//! same time, one per thread, on one pair of bounds: whatever one of them
//! learns tightens the bounds for all. What a task reads from the bounds
//! so depends on how far the others have come, and its contract states
//! what holds however they interleave.

use crate::metadata::Metadata;
use crate::minimax::{best_reply, better, biased, lemma_minimax_in_range, minimax, worst};
use crate::ranking::{best_moves, tied_best, MoveScore};
use crate::traits::game::{Board, Result};
use std::sync::atomic::AtomicI64;
use vstd::prelude::*;

verus! {

/// The counters of a search that several threads take part in.
#[derive(Debug)]
pub struct SharedMetadata {
    moves: AtomicI64,
    prunes: AtomicI64,
}

impl SharedMetadata {
    /// Counters at zero.
    pub fn new() -> SharedMetadata {
        SharedMetadata { moves: AtomicI64::new(0), prunes: AtomicI64::new(0) }
    }

    /// Counts one more position.
    pub fn count_move(&self) {
        self.moves.fetch_add(1, std::sync::atomic::Ordering::Relaxed);
    }

    /// Counts one more prune.
    pub fn count_prune(&self) {
        self.prunes.fetch_add(1, std::sync::atomic::Ordering::Relaxed);
    }

    /// The counts as they stand. They are final once every task is done.
    pub fn snapshot(&self) -> Metadata {
        Metadata::with_counts(
            self.moves.load(std::sync::atomic::Ordering::Relaxed),
            self.prunes.load(std::sync::atomic::Ordering::Relaxed),
        )
    }
}

/// The pair of bounds that the tasks of one search share: `alpha`, the
/// score that the maximizer is already sure of, and `beta`, the one that
/// the minimizer is sure of.
#[derive(Debug)]
pub struct SharedBounds {
    alpha: AtomicI64,
    beta: AtomicI64,
}

impl SharedBounds {
    /// The widest bounds.
    pub fn new() -> SharedBounds {
        SharedBounds { alpha: AtomicI64::new(i64::MIN), beta: AtomicI64::new(i64::MAX) }
    }

    /// The maximizer's bound as it stands.
    pub fn alpha(&self) -> i64 {
        self.alpha.load(std::sync::atomic::Ordering::SeqCst)
    }

    /// The minimizer's bound as it stands.
    pub fn beta(&self) -> i64 {
        self.beta.load(std::sync::atomic::Ordering::SeqCst)
    }

    /// Raises the maximizer's bound to `score` where that is higher.
    pub fn raise_alpha(&self, score: i64) {
        self.alpha.fetch_max(score, std::sync::atomic::Ordering::SeqCst);
    }

    /// Lowers the minimizer's bound to `score` where that is lower.
    pub fn lower_beta(&self, score: i64) {
        self.beta.fetch_min(score, std::sync::atomic::Ordering::SeqCst);
    }
}

/// The best, to the side, of the values listed.
pub open spec fn best_of(is_max: bool, values: Seq<int>) -> int
    recommends
        values.len() > 0,
    decreases values.len(),
{
    if values.len() <= 1 {
        values[0]
    } else {
        better(is_max, best_of(is_max, values.drop_last()), values.last())
    }
}

/// Whether `score` is what a search of `board` may report that can stop
/// early at any position. At a position at which the search does not look
/// further, it is the biased score. At any other it is the best, to the
/// side that moves, of the scores of the replies to the first moves, one
/// or more of them in the order in which the game lists them, where the
/// score of each reply is such a score of the position it leads to.
pub open spec fn attainable<T: Board>(board: T, remaining: nat, is_max: bool, score: int) -> bool
    decreases remaining,
{
    if remaining == 0 || board.finished() {
        score == biased(board.worth(), remaining)
    } else {
        exists|replies: Seq<int>|
            1 <= replies.len() <= board.moves(is_max).len() && (forall|i: int|
                0 <= i < replies.len() ==> attainable(
                    board.play(board.moves(is_max)[i]),
                    (remaining - 1) as nat,
                    !is_max,
                    #[trigger] replies[i],
                )) && score == #[trigger] best_of(is_max, replies)
    }
}

/// The values of the positions that the moves of the side to move lead
/// to, each looked at `budget` plies deep.
pub open spec fn reply_values<T: Board>(board: T, budget: nat, is_max: bool) -> Seq<int> {
    Seq::new(
        board.moves(is_max).len(),
        |i: int| minimax(board.play(board.moves(is_max)[i]), budget, !is_max),
    )
}

/// The best reply is what the moves still to come make of the best of the
/// values of the first `count` replies.
proof fn lemma_best_of_first_replies<T: Board>(board: T, budget: nat, is_max: bool, count: nat)
    requires
        budget <= u16::MAX,
        1 <= count <= board.moves(is_max).len(),
    ensures
        best_reply(board, board.moves(is_max), 0, budget, is_max, worst(is_max)) == best_reply(
            board,
            board.moves(is_max),
            count,
            budget,
            is_max,
            best_of(is_max, reply_values(board, budget, is_max).take(count as int)),
        ),
    decreases count,
{
    let moves = board.moves(is_max);
    let values = reply_values(board, budget, is_max);
    let last = (count - 1) as nat;
    lemma_minimax_in_range(board.play(moves[last as int]), budget, !is_max);
    assert(values.take(count as int).last() == values[last as int]);
    if count > 1 {
        lemma_best_of_first_replies(board, budget, is_max, last);
        assert(values.take(count as int).drop_last() =~= values.take(last as int));
    }
}

/// The minimax value of a position is among the scores that a search of
/// it may report: it is what a search reports that never stops early.
pub proof fn lemma_minimax_is_attainable<T: Board>(board: T, remaining: nat, is_max: bool)
    requires
        remaining <= u16::MAX,
    ensures
        attainable(board, remaining, is_max, minimax(board, remaining, is_max)),
    decreases remaining,
{
    if !(remaining == 0 || board.finished()) {
        let moves = board.moves(is_max);
        let budget = (remaining - 1) as nat;
        let values = reply_values(board, budget, is_max);
        board.lemma_unfinished_has_moves(is_max);
        lemma_best_of_first_replies(board, budget, is_max, moves.len());
        assert(values.take(moves.len() as int) =~= values);
        assert forall|i: int| 0 <= i < values.len() implies attainable(
            board.play(moves[i]),
            budget,
            !is_max,
            #[trigger] values[i],
        ) by {
            lemma_minimax_is_attainable(board.play(moves[i]), budget, !is_max);
        }
        assert(minimax(board, remaining, is_max) == best_of(is_max, values));
    }
}

/// Searches `board` with `is_max` to move, `remaining` plies deep, on the
/// shared bounds: the maximizer raises `alpha` to its score so far and
/// stops once that score reaches `beta` as it then stands; the minimizer
/// lowers `beta` and stops once its score falls to `alpha`. Every position
/// is counted, and every stop as one prune. The board is handed back as
/// it was.
///
/// Which moves are cut off depends on what the other searches on the same
/// bounds have done by then, and a bound that one position has set also
/// cuts moves off below others. The score therefore need not be the
/// minimax value. It is in every case the best, to the side that moves,
/// of the scores of the replies that were searched before the search
/// stopped, and so is each of those scores in its turn.
pub fn alphabeta_atomic<T: Board>(
    board: &mut T,
    remaining: u16,
    bounds: &SharedBounds,
    is_max: bool,
    metadata: &SharedMetadata,
) -> (score: i64)
    ensures
        *final(board) == *old(board),
        attainable(*old(board), remaining as nat, is_max, score as int),
    decreases remaining,
{
    let ghost start = *board;
    let result = board.evaluate();
    let raw = result.score();
    metadata.count_move();
    if remaining == 0 || result.is_over() {
        proof {
            start.lemma_worth_in_range();
        }
        return crate::alphabeta::bias(raw, remaining);
    }
    let moves = board.get_valid_moves(is_max);
    proof {
        start.lemma_unfinished_has_moves(is_max);
    }
    let mut score = if is_max {
        i64::MIN
    } else {
        i64::MAX
    };
    let ghost mut replies: Seq<int> = Seq::empty();
    let mut i: usize = 0;
    while i < moves.len()
        invariant
            i <= moves.len(),
            remaining > 0,
            !start.finished(),
            *board == start,
            start == *old(board),
            moves@ == start.moves(is_max),
            moves@.len() > 0,
            replies.len() == i,
            forall|k: int|
                0 <= k < i ==> attainable(
                    start.play(start.moves(is_max)[k]),
                    (remaining - 1) as nat,
                    !is_max,
                    #[trigger] replies[k],
                ),
            i == 0 ==> score == worst(is_max),
            i > 0 ==> score == best_of(is_max, replies),
        decreases moves.len() - i,
    {
        let m = moves[i];
        proof {
            start.lemma_moves_accepted(is_max, i as int);
        }
        board.make_move(&m);
        let reply = alphabeta_atomic(board, remaining - 1, bounds, !is_max, metadata);
        board.unmake_move(&m);
        let ghost earlier = replies;
        proof {
            replies = earlier.push(reply as int);
            assert(replies.drop_last() =~= earlier);
        }
        if is_max {
            if reply > score {
                score = reply;
            }
            bounds.raise_alpha(score);
            if score >= bounds.beta() {
                metadata.count_prune();
                assert(score == best_of(is_max, replies));
                return score;
            }
        } else {
            if reply < score {
                score = reply;
            }
            bounds.lower_beta(score);
            if score <= bounds.alpha() {
                metadata.count_prune();
                assert(score == best_of(is_max, replies));
                return score;
            }
        }
        i += 1;
    }
    score
}

/// One move of the side to move, with the position that it leads to.
#[derive(Debug)]
pub struct RootTask<T: Board> {
    pub game_move: T::Move,
    pub board: T,
}

/// The tasks of a search from `board`: none where the game is over, else
/// one for each move of the side to move, in the order in which the game
/// lists them. Each holds its own copy of the position after the move.
pub fn root_tasks<T: Board>(board: T, is_maximizers_turn: bool) -> (tasks: Option<Vec<RootTask<T>>>)
    ensures
        board.finished() <==> tasks is None,
        tasks matches Some(list) ==> {
            &&& list@.len() > 0
            &&& list@.len() == board.moves(is_maximizers_turn).len()
            &&& forall|i: int|
                0 <= i < list@.len() ==> (#[trigger] list@[i]).game_move == board.moves(
                    is_maximizers_turn,
                )[i] && list@[i].board == board.play(board.moves(is_maximizers_turn)[i])
        },
{
    let mut current = board;
    if current.evaluate().is_over() {
        return None;
    }
    let moves = current.get_valid_moves(is_maximizers_turn);
    proof {
        board.lemma_unfinished_has_moves(is_maximizers_turn);
    }
    let mut list: Vec<RootTask<T>> = Vec::new();
    let mut i: usize = 0;
    while i < moves.len()
        invariant
            i <= moves.len(),
            current == board,
            moves@ == board.moves(is_maximizers_turn),
            list@.len() == i,
            forall|k: int|
                0 <= k < i ==> (#[trigger] list@[k]).game_move == moves@[k] && list@[k].board
                    == board.play(moves@[k]),
        decreases moves.len() - i,
    {
        let m = moves[i];
        proof {
            board.lemma_moves_accepted(is_maximizers_turn, i as int);
        }
        current.make_move(&m);
        list.push(RootTask { game_move: m, board: current });
        current.unmake_move(&m);
        i += 1;
    }
    Some(list)
}

/// Runs one task: searches the position after the task's move `depth`
/// plies deep on the shared bounds, with the side to move that did not
/// make the move, and pairs the move with the score found.
pub fn run_root_task<T: Board>(
    task: RootTask<T>,
    depth: u16,
    bounds: &SharedBounds,
    is_maximizers_turn: bool,
    metadata: &SharedMetadata,
) -> (found: MoveScore<T>)
    ensures
        found.game_move == task.game_move,
        attainable(task.board, depth as nat, !is_maximizers_turn, found.score as int),
{
    let mut board = task.board;
    let score = alphabeta_atomic(&mut board, depth, bounds, !is_maximizers_turn, metadata);
    MoveScore { game_move: task.game_move, score }
}

/// The scores that the tasks of one search hand in, and how many are due.
#[derive(Debug)]
pub struct RootResults<T: Board> {
    expected: usize,
    found: Vec<MoveScore<T>>,
}

impl<T: Board> RootResults<T> {
    /// The number of tasks that hand a score in.
    pub closed spec fn expected(&self) -> nat {
        self.expected as nat
    }

    /// The scores handed in so far, in the order in which they came.
    pub closed spec fn found(&self) -> Seq<MoveScore<T>> {
        self.found@
    }

    /// Nothing handed in yet, `expected` scores due.
    pub fn new(expected: usize) -> (results: Self)
        ensures
            results.expected() == expected,
            results.found().len() == 0,
    {
        RootResults { expected, found: Vec::new() }
    }

    /// Takes the score of a task that is done.
    pub fn record(&mut self, entry: MoveScore<T>)
        ensures
            final(self).expected() == old(self).expected(),
            final(self).found() == old(self).found().push(entry),
    {
        self.found.push(entry);
    }

    /// Whether every task has handed its score in.
    pub fn is_complete(&self) -> (complete: bool)
        ensures
            complete <==> self.found().len() == self.expected(),
    {
        self.found.len() == self.expected
    }

    /// The number of scores handed in so far.
    pub fn count(&self) -> (count: usize)
        ensures
            count == self.found().len(),
    {
        self.found.len()
    }

    /// Once every task has handed its score in: every score that ties for
    /// best, in the order in which they came.
    pub fn finish(self, is_maximizers_turn: bool) -> (best: Vec<MoveScore<T>>)
        requires
            self.expected() > 0,
            self.found().len() == self.expected(),
        ensures
            best@ == tied_best(self.found(), is_maximizers_turn),
    {
        best_moves(self.found, is_maximizers_turn)
    }
}

} // verus!
