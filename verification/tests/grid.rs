use genetic_sudoku::sudoku::inner::Scorer;
use genetic_sudoku::sudoku::{Board, Row};

fn good_board() -> Board {
    Board(vec![
        Row(vec![1, 2, 3, 4]),
        Row(vec![3, 4, 1, 2]),
        Row(vec![4, 3, 2, 1]),
        Row(vec![2, 1, 4, 3]),
    ])
}

fn good_board_transposed() -> Board {
    Board(vec![
        Row(vec![1, 3, 4, 2]),
        Row(vec![2, 4, 3, 1]),
        Row(vec![3, 1, 2, 4]),
        Row(vec![4, 2, 1, 3]),
    ])
}

fn bad_board() -> Board {
    Board(vec![
        Row(vec![1, 2, 3, 4]),
        Row(vec![1, 2, 3, 4]),
        Row(vec![1, 2, 3, 4]),
        Row(vec![1, 2, 3, 4]),
    ])
}

#[test]
fn test_board_new() {
    const N: usize = 4;

    let mut expected_rows: Vec<Row> = Vec::with_capacity(N);

    for _ in 0..N {
        expected_rows.push(Row(vec![0; N]));
    }

    let expected = Board::new(expected_rows);
    let actual = Board::new(vec![
        Row(vec![0; N]),
        Row(vec![0; N]),
        Row(vec![0; N]),
        Row(vec![0; N]),
    ]);

    assert_eq!(actual, expected);
}

#[test]
fn test_board_size() {
    const N: usize = 4;

    let mut rows: Vec<Row> = Vec::with_capacity(N);

    for _ in 0..N {
        rows.push(Row(vec![0; N]));
    }

    let board = Board::new(rows);

    assert_eq!(board.size(), N);
}

#[test]
fn test_board_overlay() {
    const N: usize = 4;

    let mut overlay_rows: Vec<Row> = Vec::with_capacity(N);
    let mut board_rows: Vec<Row> = Vec::with_capacity(N);

    for _ in 0..N - 1 {
        board_rows.push(Row(vec![0; N]));
        overlay_rows.push(Row(vec![1; N]));
    }

    board_rows.push(Row(vec![9; N])); // Row of numbers to not be replaced.
    overlay_rows.push(Row(vec![1; N]));

    let board = Board::new(board_rows);
    let overlay = Board::new(overlay_rows);

    // expected:
    // 1111
    // 1111
    // 1111
    // 9999

    let expected = Board::new(vec![
        Row(vec![1; N]),
        Row(vec![1; N]),
        Row(vec![1; N]),
        Row(vec![9; N]),
    ]);
    let actual = board.overlay(&overlay);

    assert_eq!(actual, expected);
}

#[test]
fn sudoku_test_board_fitness() {
    assert_eq!(0, good_board().fitness());
    assert_eq!(20, bad_board().fitness());
}

#[test]
fn sudoku_test_board_transpose() {
    assert_eq!(good_board_transposed(), good_board().transpose());
}

#[test]
fn transpose_twice_gives_back_the_board() {
    let board = bad_board();
    assert_eq!(board, board.transpose().transpose());
}

#[test]
fn overlay_keeps_fixed_cells_and_fills_blanks() {
    let base = Board(vec![Row(vec![0, 1]), Row(vec![1, 0])]);
    let candidate = Board(vec![Row(vec![2, 2]), Row(vec![2, 2])]);
    let expected = Board(vec![Row(vec![2, 1]), Row(vec![1, 2])]);
    assert_eq!(expected, base.overlay(&candidate));
}

#[test]
fn sudoku_test_scorer_no_duplicates() {
    let mut scorer = Scorer::default();

    // Since the seen mask is a u64, it supports up to 49 before overflowing.
    for i in 1..=49 {
        scorer.check(i);
    }

    assert_eq!(0, scorer.score());
}

#[test]
fn sudoku_test_scorer_with_duplicates() {
    let mut scorer = Scorer::default();

    scorer.check(1);
    scorer.check(1); // One duplicate
    scorer.check(2);
    scorer.check(2); // Two duplicates
    scorer.check(2); // Three duplicates

    assert_eq!(3, scorer.score());
}

#[test]
fn inner_test_scorer_no_duplicates() {
    let mut scorer = Scorer::default();

    for i in 1..=49 {
        scorer.check(i);
    }

    assert_eq!(0, scorer.score());
}

#[test]
fn inner_test_scorer_with_duplicates() {
    let mut scorer = Scorer::default();

    scorer.check(1);
    scorer.check(1);
    scorer.check(2);
    scorer.check(2);
    scorer.check(2);

    assert_eq!(3, scorer.score());
}

#[test]
fn score_group_counts_each_repeat_once() {
    assert_eq!(0, genetic_sudoku::sudoku::score_group(&[1, 2, 3, 4]));
    assert_eq!(3, genetic_sudoku::sudoku::score_group(&[1, 1, 2, 2, 2]));
}

#[test]
fn fitness_counts_rows_columns_and_boxes() {
    // Swapping the last row's 4 and 3 against the valid grid leaves every
    // row and box clean but puts one duplicate in each of two columns.
    let board = Board(vec![
        Row(vec![1, 2, 3, 4]),
        Row(vec![3, 4, 1, 2]),
        Row(vec![4, 3, 2, 1]),
        Row(vec![2, 1, 3, 4]),
    ]);
    assert_eq!(2, board.fitness());
}

#[test]
fn al_escargot_is_a_nine_by_nine_puzzle() {
    let rows = genetic_sudoku::al_escargot();
    assert_eq!(9, rows.len());
    for row in &rows {
        assert_eq!(9, row.0.len());
    }
    assert_eq!(vec![1, 0, 0, 0, 0, 7, 0, 9, 0], rows[0].0);

    let rows2 = genetic_sudoku::al_escargot_2();
    assert_eq!(9, rows2.len());
    assert_eq!(vec![0, 0, 5, 3, 0, 0, 0, 0, 0], rows2[0].0);
}
