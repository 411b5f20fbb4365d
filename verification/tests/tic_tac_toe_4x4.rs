use multithread_minimax::example::tic_tac_toe_4x4::{Move, TTT};
use multithread_minimax::{Board, Result};



#[test]
fn example_new_game() {
    let game = TTT::new('x', 'o');
    assert_eq!(game.board(), [None; 16]);
    assert_eq!(game.maximizer(), 'x');
    assert_eq!(game.minimizer(), 'o');
}

#[test]
fn example_moves() {
    let mut game = TTT::new('x', 'o');
    game.make_move(&Move {
        player: 'x',
        to_position: 4,
    });
    assert_eq!(
        game.board(),
        [None, None, None, None, Some('x'), None, None, None, None, None, None, None,  None, None, None, None]
    );
    game.unmake_move(&Move {
        player: 'x',
        to_position: 4,
    });
    assert_eq!(game.board(), [None; 16]);
}

#[test]
fn example_get_moves() {
    let mut game = TTT::new('x', 'o');
    game.make_move(&Move {
        player: 'x',
        to_position: 4,
    });
    let moves = game.get_valid_moves(true);
    assert_eq!(moves.len(), 15);
    assert!(moves.iter().all(|m| m.player == 'x' && m.to_position != 4));
}

#[test]
fn example_eval() {
    let mut game = TTT::new('x', 'o');
    let mut result = game.evaluate();
    assert!(!result.is_over());
    assert_eq!(result.score(), 0);
    game.make_move(&Move {
        player: 'x',
        to_position: 4,
    });
    result = game.evaluate();
    assert!(!result.is_over());
    assert_eq!(result.score(), 0);
    game.make_move(&Move {
        player: 'o',
        to_position: 5,
    });
    result = game.evaluate();
    assert!(!result.is_over());
    assert_eq!(result.score(), 0);
    game.make_move(&Move {
        player: 'x',
        to_position: 3,
    });
    result = game.evaluate();
    assert!(!result.is_over());
    assert_eq!(result.score(), 0);
    game.make_move(&Move {
        player: 'o',
        to_position: 2,
    });
    result = game.evaluate();
    assert!(!result.is_over());
    assert_eq!(result.score(), 0);
    game.make_move(&Move {
        player: 'x',
        to_position: 0,
    });
    result = game.evaluate();
    assert!(!result.is_over());
    assert_eq!(result.score(), 0);
    game.make_move(&Move {
        player: 'o',
        to_position: 8,
    });
    result = game.evaluate();
    assert!(!result.is_over());
    assert_eq!(result.score(), 0);
    game.make_move(&Move {
        player: 'x',
        to_position: 7
    });
    game.make_move(&Move {
        player: 'x',
        to_position: 11
    });
    game.make_move(&Move {
        player: 'x',
        to_position: 15
    });
    result = game.evaluate();
    assert!(result.is_over());
    assert_eq!(result.score(), 100);
    game.unmake_move(&Move {
        player: 'x',
        to_position: 15
    });
    game.make_move(&Move {
        player: 'o',
        to_position: 6
    });
    game.make_move(&Move {
        player: 'o',
        to_position: 10
    });
    game.make_move(&Move {
        player: 'o',
        to_position: 14
    });
    result = game.evaluate();
    assert!(result.is_over());
    assert_eq!(result.score(), -100);
}

#[test]
fn example_special1() {
    let mut game = TTT::new('x', 'o');
    game.board = [
        Some('x'),
        Some('x'),
        None,
        Some('o'),
        None,
        None,
        None,
        None,
        None,
        None,
        None,
        None,
        None,
        None,
        None,
        None
    ];
    let mut result = game.evaluate();
    assert!(!result.is_over());
    assert_eq!(result.score(), 0);
    game.make_move(&Move {
        player: 'x',
        to_position: 6,
    });
    result = game.evaluate();
    assert!(!result.is_over());
    assert_eq!(result.score(), 0);
}

#[test]
fn example_special2() {
    let mut game = TTT::new('x', 'o');
    game.board = [
        Some('x'),
        Some('x'),
        None,
        Some('o'),
        None,
        None,
        None,
        None,
        None,
        None,
        None,
        None,
        None,
        None,
        None,
        None
    ];
    let mut result = game.evaluate();
    assert!(!result.is_over());
    assert_eq!(result.score(), 0);
    game.make_move(&Move {
        player: 'o',
        to_position: 6,
    });
    result = game.evaluate();
    assert!(!result.is_over());
    assert_eq!(result.score(), 0);
}

#[test]
fn example_special3() {
    let mut game = TTT::new('o', 'x');
    game.board = [
        Some('x'),
        Some('x'),
        None,
        Some('o'),
        None,
        None,
        None,
        None,
        None,
        None,
        None,
        None,
        None,
        None,
        None,
        None
    ];
    let mut result = game.evaluate();
    assert!(!result.is_over());
    assert_eq!(result.score(), 0);
    game.make_move(&Move {
        player: 'x',
        to_position: 6,
    });
    result = game.evaluate();
    assert!(!result.is_over());
    assert_eq!(result.score(), 0);
}

#[test]
fn example_special4() {
    let mut game = TTT::new('o', 'x');
    game.board = [
        Some('x'),
        Some('x'),
        None,
        Some('o'),
        None,
        None,
        None,
        None,
        None,
        None,
        None,
        None,
        None,
        None,
        None,
        None
    ];
    let mut result = game.evaluate();
    assert!(!result.is_over());
    assert_eq!(result.score(), 0);
    game.make_move(&Move {
        player: 'o',
        to_position: 6,
    });
    result = game.evaluate();
    assert!(!result.is_over());
    assert_eq!(result.score(), 0);
}

#[test]
fn example_special5() {
    let mut game = TTT::new('o', 'x');
    game.board = [
        Some('x'),
        Some('x'),
        Some('x'),
        Some('o'),
        Some('o'),
        Some('o'),
        Some('o'),
        Some('x'),
        None,
        Some('o'),
        None,
        None,
        None,
        Some('o'),
        None,
        None
    ];
    let result = game.evaluate();
    assert!(!result.is_over());
    assert_eq!(result.score(), 0);
}

#[test]
fn special6() {
    let mut game = TTT::new('x', 'o');
    game.board = [
        Some('x'),
        Some('x'),
        Some('x'),
        Some('o'),
        Some('o'),
        Some('o'),
        Some('o'),
        Some('x'),
        Some('x'),
        Some('x'),
        Some('x'),
        Some('o'),
        None,
        Some('o'),
        None,
        None
    ];
    let result = game.evaluate();
    assert!(!result.is_over());
    assert_eq!(result.score(), 0);
}

#[test]
fn example_game_over() {
    let mut game = TTT::new('o', 'x');
    game.board = [
        Some('x'),
        Some('x'),
        Some('x'),
        Some('o'),
        Some('o'),
        Some('o'),
        Some('o'),
        Some('x'),
        Some('x'),
        Some('x'),
        Some('x'),
        Some('o'),
        Some('x'),
        Some('o'),
        Some('x'),
        Some('x')
    ];
    let result = game.evaluate();
    println!("result: {:?}", result);
    assert!(result.is_over());
    assert_eq!(result.score(), 0);
}
