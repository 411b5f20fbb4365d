//! Scored moves: putting them in order and keeping those tied for best.

use crate::traits::game::Board;
use crate::minimax::better;
use vstd::prelude::*;

verus! {

/// A move together with the value that the search found for it.
#[derive(Clone, Debug)]
pub struct MoveScore<T: Board> {
    pub game_move: T::Move,
    pub score: i64,
}

/// Whether a score of `a` may stand before a score of `b`: the greater
/// comes first for the maximizer, the lesser for the minimizer.
pub open spec fn precedes(is_max: bool, a: int, b: int) -> bool {
    if is_max {
        a >= b
    } else {
        a <= b
    }
}

/// Whether a score of `a` may stand before a score of `b`.
pub fn stands_before(is_max: bool, a: i64, b: i64) -> (before: bool)
    ensures
        before == precedes(is_max, a as int, b as int),
{
    if is_max {
        a >= b
    } else {
        a <= b
    }
}

/// Best first: no entry stands before one that the side prefers to it.
pub open spec fn ordered<T: Board>(scores: Seq<MoveScore<T>>, is_max: bool) -> bool {
    forall|i: int, j: int|
        0 <= i < j < scores.len() ==> precedes(
            is_max,
            (#[trigger] scores[i]).score as int,
            (#[trigger] scores[j]).score as int,
        )
}

/// The entries whose score is `score`, in the order in which they stand.
pub open spec fn scoring<T: Board>(scores: Seq<MoveScore<T>>, score: int) -> Seq<MoveScore<T>> {
    scores.filter(|entry: MoveScore<T>| entry.score == score)
}

/// The score that the side prefers to all others among `scores`.
pub open spec fn best_score<T: Board>(scores: Seq<MoveScore<T>>, is_max: bool) -> int
    recommends
        scores.len() > 0,
    decreases scores.len(),
{
    if scores.len() <= 1 {
        scores[0].score as int
    } else {
        better(is_max, best_score(scores.drop_last(), is_max), scores.last().score as int)
    }
}

/// Every entry that ties for best, in the order in which they stand.
pub open spec fn tied_best<T: Board>(scores: Seq<MoveScore<T>>, is_max: bool) -> Seq<MoveScore<T>>
    recommends
        scores.len() > 0,
{
    scoring(scores, best_score(scores, is_max))
}

/// The best score is the score of some entry, and no entry has one that
/// the side prefers to it.
pub proof fn lemma_best_score_is_extreme<T: Board>(scores: Seq<MoveScore<T>>, is_max: bool)
    requires
        scores.len() > 0,
    ensures
        exists|i: int|
            0 <= i < scores.len() && (#[trigger] scores[i]).score == best_score(scores, is_max),
        forall|i: int|
            0 <= i < scores.len() ==> precedes(
                is_max,
                best_score(scores, is_max),
                (#[trigger] scores[i]).score as int,
            ),
    decreases scores.len(),
{
    if scores.len() > 1 {
        let front = scores.drop_last();
        lemma_best_score_is_extreme(front, is_max);
        let i = choose|i: int|
            0 <= i < front.len() && (#[trigger] front[i]).score == best_score(front, is_max);
        assert(scores[i] == front[i]);
        assert(scores[scores.len() - 1] == scores.last());
        assert forall|j: int| 0 <= j < scores.len() implies precedes(
            is_max,
            best_score(scores, is_max),
            (#[trigger] scores[j]).score as int,
        ) by {
            if j < front.len() {
                assert(scores[j] == front[j]);
            }
        }
    } else {
        assert(scores[0].score == best_score(scores, is_max));
    }
}

/// Ties are kept whole: every entry kept has the best score and is one
/// of the given entries, at least one is kept, and no given entry with the
/// best score is left out.
pub proof fn lemma_tied_best_complete<T: Board>(scores: Seq<MoveScore<T>>, is_max: bool)
    requires
        scores.len() > 0,
    ensures
        tied_best(scores, is_max).len() > 0,
        forall|i: int|
            0 <= i < tied_best(scores, is_max).len() ==> (#[trigger] tied_best(
                scores,
                is_max,
            )[i]).score == best_score(scores, is_max) && scores.contains(
                tied_best(scores, is_max)[i],
            ),
        forall|j: int|
            0 <= j < scores.len() && (#[trigger] scores[j]).score == best_score(scores, is_max)
                ==> tied_best(scores, is_max).contains(scores[j]),
{
    let best = best_score(scores, is_max);
    let has_best = |entry: MoveScore<T>| entry.score == best;
    let tied = tied_best(scores, is_max);
    lemma_best_score_is_extreme(scores, is_max);
    assert forall|i: int| 0 <= i < tied.len() implies (#[trigger] tied[i]).score == best
        && scores.contains(tied[i]) by {
        scores.lemma_filter_pred(has_best, i);
        assert(tied.contains(tied[i]));
        scores.lemma_filter_contains_rev(has_best, tied[i]);
    }
    assert forall|j: int| 0 <= j < scores.len() && (#[trigger] scores[j]).score
        == best implies tied.contains(scores[j]) by {
        scores.lemma_filter_contains(has_best, j);
    }
    let i = choose|i: int| 0 <= i < scores.len() && (#[trigger] scores[i]).score == best;
    assert(tied.contains(scores[i]));
}

/// The order in which the entries stand decides nothing but the order of
/// what is kept: two lists of the same entries have the same best score,
/// and the same entries tie for it.
pub proof fn lemma_tied_best_ignores_order<T: Board>(
    scores: Seq<MoveScore<T>>,
    shuffled: Seq<MoveScore<T>>,
    is_max: bool,
)
    requires
        scores.len() > 0,
        forall|entry: MoveScore<T>| scores.contains(entry) <==> shuffled.contains(entry),
    ensures
        best_score(scores, is_max) == best_score(shuffled, is_max),
        forall|entry: MoveScore<T>|
            tied_best(scores, is_max).contains(entry) <==> tied_best(shuffled, is_max).contains(
                entry,
            ),
{
    assert(scores.contains(scores[0]));
    assert(shuffled.len() > 0);
    let best = best_score(scores, is_max);
    let other = best_score(shuffled, is_max);
    lemma_best_score_is_extreme(scores, is_max);
    lemma_best_score_is_extreme(shuffled, is_max);
    let i = choose|i: int| 0 <= i < scores.len() && (#[trigger] scores[i]).score == best;
    assert(scores.contains(scores[i]));
    let j = choose|j: int| 0 <= j < shuffled.len() && (#[trigger] shuffled[j]).score == other;
    assert(shuffled.contains(shuffled[j]));
    assert(best == other);
    let has_best = |entry: MoveScore<T>| entry.score == best;
    assert forall|entry: MoveScore<T>|
        tied_best(scores, is_max).contains(entry) <==> tied_best(shuffled, is_max).contains(
            entry,
        ) by {
        lemma_kept_entries(scores, best, entry);
        lemma_kept_entries(shuffled, best, entry);
    }
}

/// The entries kept for a score are the given entries that have it.
proof fn lemma_kept_entries<T: Board>(scores: Seq<MoveScore<T>>, score: int, entry: MoveScore<T>)
    ensures
        scoring(scores, score).contains(entry) <==> scores.contains(entry) && entry.score == score,
{
    let wanted = |e: MoveScore<T>| e.score == score;
    let kept = scoring(scores, score);
    if kept.contains(entry) {
        let k = choose|k: int| 0 <= k < kept.len() && kept[k] == entry;
        scores.lemma_filter_pred(wanted, k);
        scores.lemma_filter_contains_rev(wanted, entry);
    }
    if scores.contains(entry) && entry.score == score {
        let i = choose|i: int| 0 <= i < scores.len() && scores[i] == entry;
        scores.lemma_filter_contains(wanted, i);
    }
}

/// No entry with the score: none is kept.
proof fn lemma_scoring_none<T: Board>(scores: Seq<MoveScore<T>>, score: int)
    requires
        forall|i: int| 0 <= i < scores.len() ==> (#[trigger] scores[i]).score != score,
    ensures
        scoring(scores, score).len() == 0,
{
    let wanted = |entry: MoveScore<T>| entry.score == score;
    let kept = scores.filter(wanted);
    if kept.len() > 0 {
        scores.lemma_filter_pred(wanted, 0);
        assert(kept.contains(kept[0]));
        scores.lemma_filter_contains_rev(wanted, kept[0]);
    }
}

/// An entry put in before entries of other scores only joins, as the
/// last, the entries of its own score.
proof fn lemma_scoring_insert<T: Board>(
    scores: Seq<MoveScore<T>>,
    at: int,
    entry: MoveScore<T>,
    score: int,
)
    requires
        0 <= at <= scores.len(),
        forall|i: int| at <= i < scores.len() ==> (#[trigger] scores[i]).score != entry.score,
    ensures
        scoring(scores.insert(at, entry), score) == if entry.score == score {
            scoring(scores, score).push(entry)
        } else {
            scoring(scores, score)
        },
{
    let wanted = |e: MoveScore<T>| e.score == score;
    let front = scores.take(at);
    let back = scores.skip(at);
    assert(scores.insert(at, entry) =~= front.push(entry) + back);
    assert(scores =~= front + back);
    Seq::filter_distributes_over_add(front.push(entry), back, wanted);
    Seq::filter_distributes_over_add(front, back, wanted);
    front.lemma_filter_push(entry, wanted);
    if entry.score == score {
        lemma_scoring_none(back, score);
        assert(scoring(scores.insert(at, entry), score) =~= scoring(scores, score).push(entry));
    }
}

/// Puts the entries best first: the greatest score first for the
/// maximizer, the least first for the minimizer. Entries of equal score
/// keep the order in which they stood.
pub fn sort_scores<T: Board>(scores: &Vec<MoveScore<T>>, is_max: bool) -> (sorted: Vec<
    MoveScore<T>,
>)
    ensures
        sorted@.len() == scores@.len(),
        ordered(sorted@, is_max),
        forall|score: int| #[trigger] scoring(sorted@, score) == scoring(scores@, score),
{
    let mut sorted: Vec<MoveScore<T>> = Vec::new();
    let mut i: usize = 0;
    proof {
        assert(scores@.take(0) =~= sorted@);
    }
    while i < scores.len()
        invariant
            i <= scores.len(),
            sorted@.len() == i,
            ordered(sorted@, is_max),
            forall|score: int| #[trigger]
                scoring(sorted@, score) == scoring(scores@.take(i as int), score),
        decreases scores.len() - i,
    {
        let entry = MoveScore { game_move: scores[i].game_move, score: scores[i].score };
        let mut at: usize = 0;
        while at < sorted.len() && stands_before(is_max, sorted[at].score, entry.score)
            invariant
                at <= sorted.len(),
                forall|k: int|
                    0 <= k < at ==> precedes(
                        is_max,
                        (#[trigger] sorted@[k]).score as int,
                        entry.score as int,
                    ),
            decreases sorted.len() - at,
        {
            at += 1;
        }
        let ghost before = sorted@;
        sorted.insert(at, entry);
        proof {
            assert forall|k: int| at <= k < before.len() implies (#[trigger] before[k]).score
                != entry.score && precedes(is_max, entry.score as int, before[k].score as int) by {
                if k > at {
                    assert(precedes(is_max, before[at as int].score as int, before[k].score as int));
                }
            }
            assert(scores@.take(i + 1) =~= scores@.take(i as int).push(entry));
            assert forall|score: int| #[trigger]
                scoring(sorted@, score) == scoring(scores@.take(i + 1), score) by {
                lemma_scoring_insert(before, at as int, entry, score);
                scores@.take(i as int).lemma_filter_push(
                    entry,
                    |e: MoveScore<T>| e.score == score,
                );
            }
            assert forall|a: int, b: int| 0 <= a < b < sorted@.len() implies precedes(
                is_max,
                (#[trigger] sorted@[a]).score as int,
                (#[trigger] sorted@[b]).score as int,
            ) by {
                let from_a = if a < at { a } else { a - 1 };
                let from_b = if b < at { b } else { b - 1 };
                if a != at {
                    assert(sorted@[a] == before[from_a]);
                }
                if b != at {
                    assert(sorted@[b] == before[from_b]);
                }
            }
        }
        i += 1;
    }
    proof {
        assert(scores@.take(i as int) =~= scores@);
    }
    sorted
}

/// Keeps every entry that ties for best: all those with the greatest
/// score for the maximizer, with the least for the minimizer, in the
/// order in which they stood.
pub fn best_moves<T: Board>(scores: Vec<MoveScore<T>>, is_max: bool) -> (best: Vec<MoveScore<T>>)
    requires
        scores.len() > 0,
    ensures
        best@ == tied_best(scores@, is_max),
{
    let sorted = sort_scores(&scores, is_max);
    let high_score = sorted[0].score;
    proof {
        lemma_first_is_best(scores@, sorted@, is_max);
    }
    let mut best: Vec<MoveScore<T>> = Vec::new();
    let mut i: usize = 0;
    proof {
        assert(scoring(sorted@.take(0), high_score as int) =~= best@) by {
            reveal(Seq::filter);
        }
    }
    while i < sorted.len()
        invariant
            i <= sorted.len(),
            best@ == scoring(sorted@.take(i as int), high_score as int),
        decreases sorted.len() - i,
    {
        proof {
            assert(sorted@.take(i + 1) =~= sorted@.take(i as int).push(sorted@[i as int]));
            sorted@.take(i as int).lemma_filter_push(
                sorted@[i as int],
                |e: MoveScore<T>| e.score == high_score as int,
            );
        }
        if sorted[i].score == high_score {
            best.push(MoveScore { game_move: sorted[i].game_move, score: sorted[i].score });
        }
        i += 1;
    }
    proof {
        assert(sorted@.take(i as int) =~= sorted@);
    }
    best
}

/// Once the entries stand best first, with those of each score kept as
/// they were, the first of them has the best score.
proof fn lemma_first_is_best<T: Board>(
    scores: Seq<MoveScore<T>>,
    sorted: Seq<MoveScore<T>>,
    is_max: bool,
)
    requires
        scores.len() > 0,
        sorted.len() == scores.len(),
        ordered(sorted, is_max),
        forall|score: int| #[trigger] scoring(sorted, score) == scoring(scores, score),
    ensures
        sorted[0].score == best_score(scores, is_max),
{
    let first = sorted[0].score as int;
    let best = best_score(scores, is_max);
    lemma_best_score_is_extreme(scores, is_max);
    // The first entry came from the given ones, so the best score is no worse.
    let has_first = |e: MoveScore<T>| e.score == first;
    sorted.lemma_filter_contains(has_first, 0);
    assert(scoring(sorted, first) == scoring(scores, first));
    scores.lemma_filter_contains_rev(has_first, sorted[0]);
    let j = choose|j: int| 0 <= j < scores.len() && scores[j] == sorted[0];
    assert(precedes(is_max, best, scores[j].score as int));
    // An entry with the best score is among the sorted ones, so the first is no worse.
    let i = choose|i: int| 0 <= i < scores.len() && (#[trigger] scores[i]).score == best;
    let has_best = |e: MoveScore<T>| e.score == best;
    scores.lemma_filter_contains(has_best, i);
    assert(scoring(sorted, best) == scoring(scores, best));
    sorted.lemma_filter_contains_rev(has_best, scores[i]);
    let k = choose|k: int| 0 <= k < sorted.len() && sorted[k] == scores[i];
    if k > 0 {
        assert(precedes(is_max, sorted[0].score as int, sorted[k].score as int));
    }
}

} // verus!
