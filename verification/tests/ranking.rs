use multithread_minimax::example::ttt::{Move, TTT};
use multithread_minimax::ranking::{best_moves, sort_scores, stands_before};
use multithread_minimax::MoveScore;

fn entries(scores: &[i64]) -> Vec<MoveScore<TTT>> {
    scores
        .iter()
        .enumerate()
        .map(|(i, s)| MoveScore { game_move: Move { player: 'x', to_position: i }, score: *s })
        .collect()
}

fn listed(entries: &[MoveScore<TTT>]) -> Vec<(usize, i64)> {
    entries.iter().map(|e| (e.game_move.to_position, e.score)).collect()
}

#[test]
fn greatest_first_for_the_maximizer() {
    let sorted = sort_scores(&entries(&[3, 7, 3, 9, 7]), true);
    assert_eq!(listed(&sorted), vec![(3, 9), (1, 7), (4, 7), (0, 3), (2, 3)]);
}

#[test]
fn least_first_for_the_minimizer() {
    let sorted = sort_scores(&entries(&[3, 7, 3, 9, 7]), false);
    assert_eq!(listed(&sorted), vec![(0, 3), (2, 3), (1, 7), (4, 7), (3, 9)]);
}

#[test]
fn sorting_nothing_gives_nothing() {
    assert!(sort_scores(&entries(&[]), true).is_empty());
    assert_eq!(listed(&sort_scores(&entries(&[5]), false)), vec![(0, 5)]);
}

#[test]
fn ties_for_best_are_all_kept() {
    assert_eq!(listed(&best_moves(entries(&[7, 3, 7]), true)), vec![(0, 7), (2, 7)]);
    assert_eq!(listed(&best_moves(entries(&[7, 3, 7]), false)), vec![(1, 3)]);
    assert_eq!(listed(&best_moves(entries(&[4, 4, 4]), false)), vec![(0, 4), (1, 4), (2, 4)]);
    assert_eq!(listed(&best_moves(entries(&[-1]), true)), vec![(0, -1)]);
    assert_eq!(
        listed(&best_moves(entries(&[i64::MIN, i64::MAX, i64::MIN]), false)),
        vec![(0, i64::MIN), (2, i64::MIN)]
    );
}

#[test]
fn order_of_two_scores() {
    assert!(stands_before(true, 5, 3));
    assert!(stands_before(true, 5, 5));
    assert!(!stands_before(true, 3, 5));
    assert!(stands_before(false, 3, 5));
    assert!(stands_before(false, 5, 5));
    assert!(!stands_before(false, 5, 3));
}
