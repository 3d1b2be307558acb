use tile_merge::cell::Cell;

struct Case {
    input: [u8; 4],
    output: [u8; 4],
    score: usize,
}

#[test]
fn test() {
    let cases: [Case; 13] = [
        Case { input: [0, 0, 0, 1], output: [1, 0, 0, 0], score: 0 },
        Case { input: [0, 0, 1, 1], output: [2, 0, 0, 0], score: 4 },
        Case { input: [0, 1, 0, 1], output: [2, 0, 0, 0], score: 4 },
        Case { input: [1, 0, 0, 1], output: [2, 0, 0, 0], score: 4 },
        Case { input: [1, 0, 1, 0], output: [2, 0, 0, 0], score: 4 },
        Case { input: [1, 1, 1, 0], output: [2, 1, 0, 0], score: 4 },
        Case { input: [1, 0, 1, 1], output: [2, 1, 0, 0], score: 4 },
        Case { input: [1, 1, 0, 1], output: [2, 1, 0, 0], score: 4 },
        Case { input: [1, 1, 1, 1], output: [2, 2, 0, 0], score: 8 },
        Case { input: [2, 2, 1, 1], output: [3, 2, 0, 0], score: 12 },
        Case { input: [1, 1, 2, 2], output: [2, 3, 0, 0], score: 12 },
        Case { input: [3, 0, 1, 1], output: [3, 2, 0, 0], score: 4 },
        Case { input: [2, 0, 1, 1], output: [2, 2, 0, 0], score: 4 },
    ];

    for case in &cases {
        let input = case.input.map(|val| Cell::new(val));
        let expected = case.output.map(|val| Cell::new(val));

        let (output, score) = Cell::collapse_array(&input);

        assert_eq!(expected, output);
        assert_eq!(case.score, score);
    }
}

#[test]
fn collapse_pads_longer_lines() {
    let input = [1u8, 1, 1, 0, 0, 0].map(Cell::new);
    let (output, score) = Cell::collapse_array(&input);
    assert_eq!(output, [2u8, 1, 0, 0, 0, 0].map(Cell::new));
    assert_eq!(score, 4);

    let input = [3u8, 0, 1, 1, 0, 0, 0].map(Cell::new);
    let (output, score) = Cell::collapse_array(&input);
    assert_eq!(output, [3u8, 2, 0, 0, 0, 0, 0].map(Cell::new));
    assert_eq!(score, 4);
}

#[test]
fn collapse_does_not_cascade() {
    let line = [1u8, 1, 1, 1, 1].map(Cell::new);
    let (merged, score) = Cell::collapse(&line);
    assert_eq!(merged, vec![Cell::new(2), Cell::new(2), Cell::new(1)]);
    assert_eq!(score, 8);

    let line = [2u8, 1, 1].map(Cell::new);
    let (merged, score) = Cell::collapse(&line);
    assert_eq!(merged, vec![Cell::new(2), Cell::new(2)]);
    assert_eq!(score, 4);
}

#[test]
fn collapse_empty_line() {
    let (merged, score) = Cell::collapse(&[]);
    assert!(merged.is_empty());
    assert_eq!(score, 0);
    let (merged, score) = Cell::collapse(&[Cell::new_empty(), Cell::new(0)]);
    assert!(merged.is_empty());
    assert_eq!(score, 0);
}

#[test]
fn collapse_large_orders() {
    let line = [40u8, 40].map(Cell::new);
    let (merged, score) = Cell::collapse(&line);
    assert_eq!(merged, vec![Cell::new(41)]);
    assert_eq!(score, 1usize << 41);
}

#[test]
fn collapse_checked_reports_overflow() {
    let line = [63u8, 63].map(Cell::new);
    assert!(Cell::collapse_checked(&line).is_none());
    let line = [255u8, 255].map(Cell::new);
    assert!(Cell::collapse_checked(&line).is_none());
    let line = [62u8, 62].map(Cell::new);
    let (merged, score) = Cell::collapse_checked(&line).unwrap();
    assert_eq!(merged, vec![Cell::new(63)]);
    assert_eq!(score, 1usize << 63);
}

#[test]
fn cell_accessors() {
    let empty = Cell::new_empty();
    assert!(empty.is_empty());
    assert!(!empty.is_nonempty());
    assert_eq!(empty.order(), None);
    assert_eq!(Cell::new(0), empty);

    let tile = Cell::new(3);
    assert!(tile.is_nonempty());
    assert_eq!(tile.order(), Some(3));
    assert_eq!(tile.double(), Cell::new(4));
    assert_ne!(tile, Cell::new(4));
}

#[test]
fn collapse_equal_tiles_with_gaps() {
    let line = [1u8, 0, 1, 0, 0, 1, 1, 0, 1].map(Cell::new);
    let (merged, score) = Cell::collapse(&line);
    assert_eq!(merged, vec![Cell::new(2), Cell::new(2), Cell::new(1)]);
    assert_eq!(score, 8);
}

#[test]
fn collapse_parts_keeps_cells_on_overflow() {
    let line = [63u8, 0, 63, 5].map(Cell::new);
    let (merged, score) = Cell::collapse_parts(&line);
    assert_eq!(merged, vec![Cell::new(64), Cell::new(5)]);
    assert_eq!(score, None);
    let (merged, score) = Cell::collapse_parts(&[Cell::new(2), Cell::new(2)]);
    assert_eq!(merged, vec![Cell::new(3)]);
    assert_eq!(score, Some(8));
}
