use multithread_minimax::example::ttt::TTT;
use multithread_minimax::shared::{
    alphabeta_atomic, root_tasks, run_root_task, RootResults, SharedBounds, SharedMetadata,
};
use multithread_minimax::traits::game::Board;

const X: Option<char> = Some('x');
const O: Option<char> = Some('o');
const E: Option<char> = None;

fn small(maximizer: char, minimizer: char, board: [Option<char>; 9]) -> TTT {
    let mut game = TTT::new(maximizer, minimizer);
    game.board = board;
    game
}

#[test]
fn bounds_start_widest_and_only_tighten() {
    let bounds = SharedBounds::new();
    assert_eq!(bounds.alpha(), i64::MIN);
    assert_eq!(bounds.beta(), i64::MAX);
    bounds.raise_alpha(5);
    assert_eq!(bounds.alpha(), 5);
    bounds.raise_alpha(3);
    assert_eq!(bounds.alpha(), 5);
    bounds.lower_beta(7);
    assert_eq!(bounds.beta(), 7);
    bounds.lower_beta(9);
    assert_eq!(bounds.beta(), 7);
}

#[test]
fn shared_counters_count() {
    let metadata = SharedMetadata::new();
    assert_eq!(metadata.snapshot().moves(), 0);
    assert_eq!(metadata.snapshot().prunes(), 0);
    metadata.count_move();
    metadata.count_move();
    metadata.count_prune();
    assert_eq!(metadata.snapshot().moves(), 2);
    assert_eq!(metadata.snapshot().prunes(), 1);
}

#[test]
fn finished_game_has_no_tasks() {
    let game = small('x', 'o', [X, O, X, X, O, O, O, X, X]);
    assert!(root_tasks(game, true).is_none());
    let game = small('x', 'o', [X, X, X, O, O, E, E, E, E]);
    assert!(root_tasks(game, false).is_none());
}

#[test]
fn one_task_for_each_move() {
    let game = small('x', 'o', [X, X, E, O, O, E, E, E, E]);
    let tasks = root_tasks(game, true).unwrap();
    let cells: Vec<usize> = tasks.iter().map(|t| t.game_move.to_position).collect();
    assert_eq!(cells, vec![2, 5, 6, 7, 8]);
    for task in tasks.iter() {
        let mut expected = game.board();
        expected[task.game_move.to_position] = Some('x');
        assert_eq!(task.board.board(), expected);
        assert_eq!(task.game_move.player, 'x');
    }
}

#[test]
fn task_on_a_won_position_reports_its_score() {
    let game = small('x', 'o', [X, X, E, O, O, E, E, E, E]);
    let mut tasks = root_tasks(game, true).unwrap();
    let bounds = SharedBounds::new();
    let metadata = SharedMetadata::new();
    let found = run_root_task(tasks.remove(0), 65535, &bounds, true, &metadata);
    assert_eq!(found.game_move.to_position, 2);
    assert_eq!(found.score, 100 + 65535);
    assert_eq!(metadata.snapshot().moves(), 1);
    assert_eq!(metadata.snapshot().prunes(), 0);
    assert_eq!(bounds.alpha(), i64::MIN);
    assert_eq!(bounds.beta(), i64::MAX);
}

#[test]
fn shared_search_stops_at_the_bound() {
    // o to move after x took cell 6: the replies are 2, 5, 7, 8 and 5 wins.
    let mut game = small('x', 'o', [X, X, E, O, O, E, X, E, E]);
    let before = game.board();
    let bounds = SharedBounds::new();
    bounds.raise_alpha(-50);
    let metadata = SharedMetadata::new();
    let score = alphabeta_atomic(&mut game, 1, &bounds, false, &metadata);
    assert_eq!(score, -100);
    assert_eq!(metadata.snapshot().moves(), 3);
    assert_eq!(metadata.snapshot().prunes(), 1);
    assert_eq!(bounds.alpha(), -50);
    assert_eq!(bounds.beta(), -100);
    assert_eq!(game.board(), before);
}

#[test]
fn results_are_complete_once_all_are_in() {
    let game = small('x', 'o', [X, X, E, O, O, E, E, E, E]);
    let tasks = root_tasks(game, true).unwrap();
    let bounds = SharedBounds::new();
    let metadata = SharedMetadata::new();
    let mut results = RootResults::new(tasks.len());
    assert_eq!(results.count(), 0);
    assert!(!results.is_complete());
    for task in tasks {
        assert!(!results.is_complete());
        results.record(run_root_task(task, 65535, &bounds, true, &metadata));
    }
    assert_eq!(results.count(), 5);
    assert!(results.is_complete());
    let best = results.finish(true);
    assert_eq!(best.len(), 1);
    assert_eq!(best[0].game_move.to_position, 2);
    assert_eq!(best[0].score, 100 + 65535);
    assert!(metadata.snapshot().moves() >= 5);
}

#[test]
fn results_for_the_minimizer() {
    let game = small('x', 'o', [O, O, E, E, E, E, E, E, E]);
    let tasks = root_tasks(game, false).unwrap();
    assert_eq!(tasks.len(), 7);
    let bounds = SharedBounds::new();
    let metadata = SharedMetadata::new();
    let mut results = RootResults::new(tasks.len());
    // The tasks may finish in any order: hand them in last first.
    for task in tasks.into_iter().rev() {
        results.record(run_root_task(task, 65535, &bounds, false, &metadata));
    }
    assert!(results.is_complete());
    let best = results.finish(false);
    assert_eq!(best.len(), 1);
    assert_eq!(best[0].game_move.to_position, 2);
    assert_eq!(best[0].score, -100 - 65535);
    let mut again = game;
    again.make_move(&best[0].game_move);
    assert_eq!(again.board()[2], O);
}

fn on_shared_bounds(game: TTT, side: bool, depth: u16) -> Vec<(usize, i64)> {
    let tasks = root_tasks(game, side).unwrap();
    let bounds = SharedBounds::new();
    let metadata = SharedMetadata::new();
    let mut results = RootResults::new(tasks.len());
    for task in tasks {
        results.record(run_root_task(task, depth, &bounds, side, &metadata));
    }
    let mut best: Vec<(usize, i64)> =
        results.finish(side).iter().map(|e| (e.game_move.to_position, e.score)).collect();
    best.sort();
    best
}

fn on_one_thread(game: TTT, side: bool, depth: u16) -> Vec<(usize, i64)> {
    let (moves, _) = multithread_minimax::get_best_moves(game, depth, side);
    let mut best: Vec<(usize, i64)> =
        moves.iter().map(|e| (e.game_move.to_position, e.score)).collect();
    best.sort();
    best
}

#[test]
fn both_searches_agree_on_a_win_in_one() {
    let game = small('x', 'o', [X, X, E, O, O, E, E, E, E]);
    assert_eq!(on_shared_bounds(game, true, 65535), on_one_thread(game, true, 0));
    assert_eq!(on_shared_bounds(game, true, 65535), vec![(2, 65635)]);
    let game = small('x', 'o', [O, O, E, E, E, E, E, E, E]);
    assert_eq!(on_shared_bounds(game, false, 65535), on_one_thread(game, false, 0));
    let game = small('o', 'x', [O, O, X, E, E, X, E, E, E]);
    assert_eq!(on_shared_bounds(game, false, 65535), on_one_thread(game, false, 0));
    assert_eq!(on_shared_bounds(game, false, 65535), vec![(8, -65635)]);
}
