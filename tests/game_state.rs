use tile_merge::board::{Board, BoardMove};
use tile_merge::cell::Cell;
use tile_merge::game_state::{GameState, GameStateAction};

fn state_from(rows: [[u8; 4]; 4]) -> GameState<4> {
    let board = Board { cell: rows.map(|row| row.map(Cell::new)), moves: 0, score: 0 };
    GameState { board, prev_boards: Vec::new() }
}

#[test]
fn undo_restores_every_earlier_board() {
    let mut game = state_from([[1, 1, 0, 0], [0, 2, 0, 0], [0, 0, 0, 0], [3, 0, 0, 0]]);
    let start = *game.board();
    let mut seen = vec![start];
    let mut done = 0;
    for dir in [BoardMove::Left, BoardMove::Right, BoardMove::Up, BoardMove::Down, BoardMove::Left] {
        if game.do_action(GameStateAction::Move(dir)) {
            done += 1;
            seen.push(*game.board());
        }
    }
    assert!(done >= 2);
    assert_eq!(game.prev_boards.len(), done);
    for _ in 0..done {
        seen.pop();
        assert!(game.do_action(GameStateAction::Undo));
        assert_eq!(game.board(), seen.last().unwrap());
    }
    assert_eq!(*game.board(), start);
    assert!(game.prev_boards.is_empty());
    assert!(!game.do_action(GameStateAction::Undo));
    assert_eq!(*game.board(), start);
}

#[test]
fn refused_move_changes_nothing() {
    let mut game = state_from([[1, 0, 0, 0], [2, 0, 0, 0], [0, 0, 0, 0], [0, 0, 0, 0]]);
    let start = *game.board();
    assert!(!game.do_action(GameStateAction::Move(BoardMove::Left)));
    assert_eq!(*game.board(), start);
    assert!(game.prev_boards.is_empty());
}

#[test]
fn reroll_replays_the_last_move() {
    let mut game = state_from([[1, 1, 0, 0], [0, 0, 0, 0], [0, 0, 0, 0], [0, 0, 0, 0]]);
    assert!(!game.do_action(GameStateAction::Reroll));
    let start = *game.board();
    assert!(game.do_action(GameStateAction::Move(BoardMove::Left)));
    assert!(game.do_action(GameStateAction::Reroll));
    assert_eq!(game.prev_boards.len(), 1);
    assert_eq!(game.prev_boards[0], (start, BoardMove::Left));
    assert_eq!(game.board().cell[0][0], Cell::new(2));
    assert_eq!(game.board().score, 4);
    assert_eq!(game.board().moves, 1);
}

#[test]
fn restart_clears_history() {
    let mut game = state_from([[1, 1, 0, 0], [0, 0, 0, 0], [0, 0, 0, 0], [0, 0, 0, 0]]);
    assert!(game.do_action(GameStateAction::Move(BoardMove::Right)));
    assert!(game.do_action(GameStateAction::Restart));
    assert!(game.prev_boards.is_empty());
    assert_eq!(game.board().moves, 0);
    assert_eq!(game.board().score, 0);
    let n = game.board().cell.iter().flatten().filter(|c| c.is_nonempty()).count();
    assert_eq!(n, 2);
}

#[test]
fn new_game_starts_fresh() {
    let game = GameState::<4>::new();
    assert!(game.prev_boards.is_empty());
    assert_eq!(game.board().moves, 0);
    let n = game.board().cell.iter().flatten().filter(|c| c.is_nonempty()).count();
    assert_eq!(n, 2);
}
