use tile_merge::board::{Board, BoardMove};
use tile_merge::cell::Cell;

fn board_from(rows: [[u8; 4]; 4]) -> Board<4> {
    Board { cell: rows.map(|row| row.map(Cell::new)), moves: 0, score: 0 }
}

fn tiles<const N: usize>(board: &Board<N>) -> usize {
    board.cell.iter().flatten().filter(|c| c.is_nonempty()).count()
}

#[test]
fn new_board_has_two_small_tiles() {
    for _ in 0..200 {
        let board = Board::<4>::new();
        assert_eq!(board.moves, 0);
        assert_eq!(board.score, 0);
        assert_eq!(tiles(&board), 2);
        for c in board.cell.iter().flatten() {
            assert!(matches!(c.order(), None | Some(1) | Some(2)));
        }
    }
}

#[test]
fn new_tile_orders_follow_the_ratio() {
    let mut twos = 0usize;
    let mut total = 0usize;
    for _ in 0..3000 {
        let board = Board::<4>::new();
        for c in board.cell.iter().flatten() {
            match c.order() {
                Some(2) => {
                    twos += 1;
                    total += 1;
                }
                Some(1) => total += 1,
                _ => {}
            }
        }
    }
    assert_eq!(total, 6000);
    let ratio = twos as f64 / total as f64;
    assert!((ratio - 0.1).abs() < 0.03, "ratio {}", ratio);
}

#[test]
fn move_without_effect_is_refused() {
    let board = board_from([[1, 0, 0, 0], [2, 0, 0, 0], [3, 0, 0, 0], [1, 0, 0, 0]]);
    assert!(board.do_move(BoardMove::Left).is_none());
    let board = board_from([[1, 2, 3, 4], [2, 3, 4, 5], [0, 0, 0, 0], [0, 0, 0, 0]]);
    assert!(board.do_move(BoardMove::Up).is_none());
    assert!(board.do_move(BoardMove::Left).is_none());
    assert!(board.do_move(BoardMove::Right).is_none());
    assert!(board.do_move(BoardMove::Down).is_some());
}

#[test]
fn committed_move_adds_one_tile() {
    let board = board_from([[1, 1, 0, 0], [0, 0, 0, 0], [0, 0, 2, 0], [0, 0, 0, 0]]);
    let moved = board.do_move(BoardMove::Left).unwrap();
    assert_eq!(moved.moves, 1);
    assert_eq!(moved.score, 4);
    assert_eq!(tiles(&moved), 3);
    assert_eq!(moved.cell[0][0], Cell::new(2));
    assert_eq!(moved.cell[2][0], Cell::new(2));

    let moved = board.do_move(BoardMove::Right).unwrap();
    assert_eq!(moved.score, 4);
    assert_eq!(moved.cell[0][3], Cell::new(2));
    assert_eq!(moved.cell[2][3], Cell::new(2));
    assert_eq!(tiles(&moved), 3);
}

#[test]
fn moves_in_each_direction() {
    let board = board_from([[1, 0, 1, 0], [0, 0, 0, 0], [1, 0, 0, 0], [1, 0, 0, 2]]);
    let up = board.do_move(BoardMove::Up).unwrap();
    assert_eq!(up.cell[0][0], Cell::new(2));
    assert_eq!(up.cell[1][0], Cell::new(1));
    assert_eq!(up.cell[0][2], Cell::new(1));
    assert_eq!(up.cell[0][3], Cell::new(2));
    assert_eq!(up.score, 4);
    assert_eq!(tiles(&up), 5);

    let down = board.do_move(BoardMove::Down).unwrap();
    assert_eq!(down.cell[3][0], Cell::new(2));
    assert_eq!(down.cell[2][0], Cell::new(1));
    assert_eq!(down.cell[3][2], Cell::new(1));
    assert_eq!(down.cell[3][3], Cell::new(2));
    assert_eq!(down.score, 4);
    assert_eq!(tiles(&down), 5);
}

#[test]
fn full_board_without_pairs_is_over() {
    let board = board_from([[1, 2, 1, 2], [2, 1, 2, 1], [1, 2, 1, 2], [2, 1, 2, 1]]);
    assert!(board.game_over());
    for dir in [BoardMove::Left, BoardMove::Right, BoardMove::Up, BoardMove::Down] {
        assert!(board.do_move(dir).is_none());
    }
}

#[test]
fn board_with_an_empty_cell_is_not_over() {
    let board = board_from([[1, 2, 1, 2], [2, 1, 2, 1], [1, 2, 0, 2], [2, 1, 2, 1]]);
    assert!(!board.game_over());
    let board = board_from([[1, 1, 3, 4], [5, 6, 7, 8], [9, 10, 11, 12], [13, 14, 15, 16]]);
    assert!(!board.game_over());
}

#[test]
fn move_fits_reports_counter_overflow() {
    let mut board = board_from([[1, 1, 0, 0], [0, 0, 0, 0], [0, 0, 0, 0], [0, 0, 0, 0]]);
    assert!(board.move_fits(BoardMove::Left));
    board.score = usize::MAX - 3;
    assert!(!board.move_fits(BoardMove::Left));
    assert!(board.move_fits(BoardMove::Up));
    board.score = 0;
    board.moves = usize::MAX;
    assert!(!board.move_fits(BoardMove::Up));
}

#[test]
fn game_over_ignores_the_counters() {
    let mut board = board_from([[1, 2, 1, 2], [2, 1, 2, 1], [1, 2, 1, 2], [2, 1, 2, 1]]);
    board.score = usize::MAX;
    board.moves = usize::MAX;
    assert!(board.game_over());
    let mut board = board_from([[1, 1, 1, 2], [2, 1, 2, 1], [1, 2, 1, 2], [2, 1, 2, 1]]);
    board.score = usize::MAX;
    assert!(!board.game_over());
}

#[test]
fn new_tile_follows_the_draw() {
    assert_eq!(tile_merge::board::new_tile(true), Cell::new(2));
    assert_eq!(tile_merge::board::new_tile(false), Cell::new(1));
}
