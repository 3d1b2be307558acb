use tile_merge::board::Board;
use tile_merge::cell::Cell;
use tile_merge::codec::{FlatBoard, LoadError};

fn board_from(rows: [[u8; 4]; 4], moves: usize, score: usize) -> Board<4> {
    Board { cell: rows.map(|row| row.map(Cell::new)), moves, score }
}

#[test]
fn flat_record_layout() {
    let board = board_from([[1, 0, 0, 0], [0, 2, 0, 0], [0, 0, 11, 0], [0, 0, 0, 3]], 7, 120);
    let flat = FlatBoard::new(&board);
    assert_eq!(flat.moves, 7);
    assert_eq!(flat.score, 120);
    assert_eq!(flat.dimension, 4);
    assert_eq!(flat.cells, vec![1, -1, -1, -1, -1, 2, -1, -1, -1, -1, 11, -1, -1, -1, -1, 3]);
}

#[test]
fn flat_round_trip() {
    let board = board_from([[1, 2, 3, 4], [0, 0, 0, 0], [5, 0, 6, 0], [0, 7, 0, 127]], 42, 9001);
    let flat = FlatBoard::new(&board);
    assert_eq!(Board::<4>::from_flat(&flat), Ok(board));
}

#[test]
fn flat_dimension_mismatch() {
    let board = board_from([[1, 0, 0, 0], [0, 0, 0, 0], [0, 0, 0, 0], [0, 0, 0, 1]], 0, 0);
    let flat = FlatBoard::new(&board);
    assert_eq!(
        Board::<5>::from_flat(&flat),
        Err(LoadError::DimensionMismatch { expected: 5, found: 4 })
    );
    assert_eq!(
        Board::<3>::from_flat(&flat),
        Err(LoadError::DimensionMismatch { expected: 3, found: 4 })
    );
}

#[test]
fn flat_malformed_records() {
    let short = FlatBoard { moves: 0, score: 0, dimension: 2, cells: vec![1, -1, -1] };
    assert_eq!(Board::<2>::from_flat(&short), Err(LoadError::Malformed));
    let bad_code = FlatBoard { moves: 0, score: 0, dimension: 2, cells: vec![1, -1, -2, 3] };
    assert_eq!(Board::<2>::from_flat(&bad_code), Err(LoadError::Malformed));
    let zero = FlatBoard { moves: 3, score: 8, dimension: 2, cells: vec![0, -1, 2, 3] };
    let board = Board::<2>::from_flat(&zero).unwrap();
    assert_eq!(board.cell, [[Cell::new_empty(), Cell::new_empty()], [Cell::new(2), Cell::new(3)]]);
    assert_eq!(board.moves, 3);
    assert_eq!(board.score, 8);
}

#[test]
fn flat_extra_cells_are_ignored() {
    let extra = FlatBoard { moves: 1, score: 4, dimension: 2, cells: vec![2, -1, -1, 1, 5, -7, 0] };
    let board = Board::<2>::from_flat(&extra).unwrap();
    assert_eq!(board.cell, [[Cell::new(2), Cell::new_empty()], [Cell::new_empty(), Cell::new(1)]]);
    assert_eq!(board.moves, 1);
    assert_eq!(board.score, 4);
}
