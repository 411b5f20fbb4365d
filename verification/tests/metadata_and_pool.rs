use multithread_minimax::example::tic_tac_toe_4x4::TTT;
use multithread_minimax::metadata::Metadata;
use multithread_minimax::pool::{pool_size_for, resolve_pool_size};
use multithread_minimax::traits::game::{Board, Result};

#[test]
fn counters_start_at_zero() {
    let metadata = Metadata::new();
    assert_eq!(metadata.moves(), 0);
    assert_eq!(metadata.prunes(), 0);
}

#[test]
fn counters_count_by_one() {
    let mut metadata = Metadata::new();
    metadata.count_move();
    metadata.count_move();
    metadata.count_prune();
    assert_eq!(metadata.moves(), 2);
    assert_eq!(metadata.prunes(), 1);
}

#[test]
fn counters_stop_at_the_greatest_count() {
    let mut metadata = Metadata::with_counts(i64::MAX, i64::MAX - 1);
    metadata.count_move();
    metadata.count_prune();
    metadata.count_prune();
    assert_eq!(metadata.moves(), i64::MAX);
    assert_eq!(metadata.prunes(), i64::MAX);
}

#[test]
fn pool_size_is_what_was_asked_for() {
    assert_eq!(pool_size_for(3, 8), 3);
    assert_eq!(pool_size_for(1, 0), 1);
    assert_eq!(pool_size_for(usize::MAX, 8), usize::MAX);
    assert_eq!(resolve_pool_size(4), 4);
    assert_eq!(resolve_pool_size(1), 1);
}

#[test]
fn pool_size_zero_counts_the_processors() {
    assert_eq!(pool_size_for(0, 8), 8);
    assert_eq!(pool_size_for(0, 1), 1);
    assert_eq!(resolve_pool_size(0), num_cpus::get());
    assert!(resolve_pool_size(0) >= 1);
}

#[test]
fn grid_as_text() {
    let x = Some('x');
    let o = Some('o');
    let mut game = TTT::new('x', 'o');
    game.board = [None, None, None, None, None, None, None, None, None, None, x, o, x, o, x, o];
    assert_eq!(game.to_text(), "\n0 1 2 3 \n4 5 6 7 \n8 9 x o \nx o x o ");
    game.board = [x, o, x, o, None, x, None, o, x, None, x, o, x, o, x, o];
    assert_eq!(game.to_text(), "\nx o x o \n4 x 6 o \nx 9 x o \nx o x o ");
}

#[test]
fn full_grid_with_a_line_is_won() {
    let x = Some('x');
    let o = Some('o');
    let mut game = TTT::new('x', 'o');
    // x owns the second column.
    game.board = [o, x, o, o, x, x, o, x, o, x, x, o, x, x, o, x];
    let result = game.evaluate();
    assert!(result.is_over());
    assert_eq!(result.score(), 100);
    game.board[15] = None;
    let result = game.evaluate();
    assert!(result.is_over());
    assert_eq!(result.score(), 100);
    // x owns the first column.
    game.board = [x, o, o, o, x, o, x, x, x, x, o, o, x, o, x, x];
    let result = game.evaluate();
    assert!(result.is_over());
    assert_eq!(result.score(), 100);
    // x owns the fourth column.
    game.board = [o, x, o, x, x, o, o, x, o, o, x, x, x, o, o, x];
    let result = game.evaluate();
    assert!(result.is_over());
    assert_eq!(result.score(), 100);
    // o owns a diagonal.
    game.board = [o, x, x, x, x, o, x, o, x, o, o, x, o, x, x, o];
    let result = game.evaluate();
    assert!(result.is_over());
    assert_eq!(result.score(), -100);
}

#[test]
fn full_grid_without_a_line_is_drawn() {
    let x = Some('x');
    let o = Some('o');
    let mut game = TTT::new('x', 'o');
    game.board = [x, x, x, o, o, o, o, x, x, x, x, o, x, o, x, x];
    let result = game.evaluate();
    assert!(result.is_over());
    assert_eq!(result.score(), 0);
    game.board[5] = None;
    let result = game.evaluate();
    assert!(!result.is_over());
    assert_eq!(result.score(), 0);
}

#[test]
fn first_owned_line_decides() {
    let x = Some('x');
    let o = Some('o');
    let mut game = TTT::new('x', 'o');
    game.board = [o, o, o, o, x, x, x, x, None, None, None, None, None, None, None, None];
    let result = game.evaluate();
    assert!(result.is_over());
    assert_eq!(result.score(), -100);
    game.board = [x, None, None, o, None, x, o, None, None, o, x, None, o, None, None, x];
    let result = game.evaluate();
    assert!(result.is_over());
    assert_eq!(result.score(), 100);
    game.board = [x, None, None, o, None, x, o, None, None, o, x, None, o, None, None, None];
    let result = game.evaluate();
    assert!(result.is_over());
    assert_eq!(result.score(), -100);
}
