use genetic_sudoku::errors::{ConfigError, ParseError};
use genetic_sudoku::sudoku::{Board, Row, validate_size};

#[test]
fn test_board_read_valid() {
    const N: usize = 4;

    let mut text = String::new();
    let mut expected_rows: Vec<Row> = Vec::with_capacity(N);

    for _ in 0..N {
        text.push_str(&"0".repeat(N));
        text.push('\n');
        expected_rows.push(Row(vec![0; N]));
    }

    let actual = Board::parse(text.as_bytes(), N).unwrap();
    let expected = Board::new(expected_rows);

    assert_eq!(actual, expected);
}

#[test]
fn test_board_read_valid_larger_size() {
    const N: usize = 9;

    let mut text = String::new();
    let mut expected_rows: Vec<Row> = Vec::with_capacity(N);

    for _ in 0..N {
        text.push_str(&"0".repeat(N));
        text.push('\n');
        expected_rows.push(Row(vec![0; N]));
    }

    let actual = Board::parse(text.as_bytes(), N).unwrap();
    let expected = Board::new(expected_rows);

    assert_eq!(actual, expected);
}

#[test]
fn test_board_read_malformed_too_few_rows() {
    const N: usize = 4;

    let mut text = String::new();

    for _ in 0..(N - 1) {
        text.push_str(&"0".repeat(N));
        text.push('\n');
    }

    let actual = Board::parse(text.as_bytes(), N);

    assert!(actual.is_err());
    assert_eq!(actual.unwrap_err(), ParseError::InvalidRows);
}

#[test]
fn test_board_read_malformed_too_many_rows() {
    const N: usize = 4;

    let mut text = String::new();

    for _ in 0..(N + 1) {
        text.push_str(&"0".repeat(N));
        text.push('\n');
    }

    let actual = Board::parse(text.as_bytes(), N);

    assert!(actual.is_err());
    assert_eq!(actual.unwrap_err(), ParseError::InvalidRows);
}

#[test]
fn test_board_read_malformed_too_few_columns() {
    const N: usize = 4;

    let mut text = String::new();

    for _ in 0..N {
        text.push_str(&"0".repeat(N - 1));
        text.push('\n');
    }

    let actual = Board::parse(text.as_bytes(), N);

    assert!(actual.is_err());
    assert_eq!(actual.unwrap_err(), ParseError::InvalidColumns);
}

#[test]
fn test_board_read_malformed_too_many_columns() {
    const N: usize = 4;

    let mut text = String::new();

    for _ in 0..N {
        text.push_str(&"0".repeat(N + 1));
        text.push('\n');
    }

    let actual = Board::parse(text.as_bytes(), N);

    assert!(actual.is_err());
    assert_eq!(actual.unwrap_err(), ParseError::InvalidColumns);
}

#[test]
fn test_board_read_malformed_invalid_char() {
    const N: usize = 4;

    let mut text = String::new();

    for _ in 0..N - 1 {
        text.push_str(&"0".repeat(N));
        text.push('\n');
    }

    text.push_str(&"A".repeat(N));
    text.push('\n');

    let actual = Board::parse(text.as_bytes(), N);

    assert!(actual.is_err());
    assert_eq!(actual.unwrap_err(), ParseError::InvalidChar);
}

#[test]
fn parse_reads_digits_and_tolerates_carriage_returns() {
    let text = b"1204\r\n0430\r\n2043\r\n4300";
    let board = Board::parse(text, 4).unwrap();
    let expected = Board(vec![
        Row(vec![1, 2, 0, 4]),
        Row(vec![0, 4, 3, 0]),
        Row(vec![2, 0, 4, 3]),
        Row(vec![4, 3, 0, 0]),
    ]);
    assert_eq!(expected, board);
}

#[test]
fn parse_then_fitness_on_a_solved_grid() {
    let text = b"1234\n3412\n4321\n2143\n";
    let board = Board::parse(text, 4).unwrap();
    assert_eq!(0, board.fitness());
}

#[test]
fn validate_size_accepts_only_supported_squares() {
    assert_eq!(Ok(2), validate_size(4));
    assert_eq!(Ok(3), validate_size(9));
    assert_eq!(Ok(4), validate_size(16));
    assert_eq!(Ok(5), validate_size(25));
    assert_eq!(Err(ConfigError::UnsupportedGridSize), validate_size(6));
    assert_eq!(Err(ConfigError::UnsupportedGridSize), validate_size(36));
}
