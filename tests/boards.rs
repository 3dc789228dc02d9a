use piece_paths::grid::{Grid, GridError};
use piece_paths::paths::{bishop_sum, king_sum, pawn_sum};
use piece_paths::text::parse_grid;

#[test]
fn new_keeps_cells_and_shape() {
    let g = Grid::new(vec![1, 2, 3, 4, 5, 6], 3).unwrap();
    assert_eq!(g.cols(), 3);
    assert_eq!(g.rows(), 2);
    assert_eq!(g.size(), 6);
    assert_eq!(g.cell(4), 5);
}

#[test]
fn empty_board_is_accepted() {
    let g = Grid::new(Vec::new(), 2).unwrap();
    assert_eq!(g.size(), 0);
    assert_eq!(g.rows(), 0);
}

#[test]
fn zero_columns_rejected() {
    assert_eq!(Grid::new(vec![1, 2], 0).err(), Some(GridError::NoColumns));
}

#[test]
fn ragged_rows_rejected() {
    assert_eq!(Grid::new(vec![1, 2, 3], 2).err(), Some(GridError::RaggedRows));
}

#[test]
fn overflowing_total_rejected() {
    assert_eq!(Grid::new(vec![usize::MAX, 1], 2).err(), Some(GridError::TooLarge));
    assert!(Grid::new(vec![usize::MAX, 0], 2).is_ok());
}

#[test]
fn parse_rows_of_numbers() {
    let g = parse_grid(b"1 2\n3 4\n").unwrap();
    assert_eq!(g.cols(), 2);
    assert_eq!(g.rows(), 2);
    assert_eq!(pawn_sum(&g, 0), 4);
    assert_eq!(pawn_sum(&g, 1), 6);
    assert_eq!(bishop_sum(&g, 0), 5);
    assert_eq!(king_sum(&g, 1), 6);
}

#[test]
fn parse_skips_words_that_are_not_numbers() {
    let g = parse_grid(b"  7 x 08\t+3\r\n-1 4 5 6 1.5 99999999999999999999999\n").unwrap();
    assert_eq!(g.cols(), 3);
    assert_eq!(g.size(), 6);
    let cells: Vec<usize> = (0..6).map(|i| g.cell(i)).collect();
    assert_eq!(cells, vec![7, 8, 3, 4, 5, 6]);
}

#[test]
fn parse_without_trailing_newline() {
    let g = parse_grid(b"5").unwrap();
    assert_eq!(g.cols(), 1);
    assert_eq!(pawn_sum(&g, 0), 5);
}

#[test]
fn parse_rejects_empty_first_line() {
    assert_eq!(parse_grid(b"").err(), Some(GridError::NoColumns));
    assert_eq!(parse_grid(b"\n1 2\n").err(), Some(GridError::NoColumns));
}

#[test]
fn parse_rejects_ragged_rows() {
    assert_eq!(parse_grid(b"1 2\n3\n").err(), Some(GridError::RaggedRows));
}

#[test]
fn parse_rejects_overflowing_total() {
    let text = format!("{} 1\n", usize::MAX);
    assert_eq!(parse_grid(text.as_bytes()).err(), Some(GridError::TooLarge));
}

#[test]
fn parse_splits_on_unicode_whitespace() {
    let g = parse_grid("1\u{a0}2\n3\u{3000}4\u{2003}\n".as_bytes()).unwrap();
    assert_eq!(g.cols(), 2);
    assert_eq!(g.rows(), 2);
    let cells: Vec<usize> = (0..4).map(|i| g.cell(i)).collect();
    assert_eq!(cells, vec![1, 2, 3, 4]);
}

#[test]
fn parse_splits_on_every_unicode_space() {
    let spaces = [
        '\u{85}', '\u{a0}', '\u{1680}', '\u{2000}', '\u{2005}', '\u{200a}', '\u{2028}',
        '\u{2029}', '\u{202f}', '\u{205f}', '\u{3000}', '\u{b}', '\u{c}',
    ];
    for sp in spaces {
        let text = format!("10{}20", sp);
        let g = parse_grid(text.as_bytes()).unwrap();
        assert_eq!(g.cols(), 2, "separator {:?}", sp);
        assert_eq!(g.cell(1), 20);
    }
}

#[test]
fn parse_keeps_other_unicode_inside_words() {
    // U+200B is not whitespace, so "1\u{200b}2" is one word that is not a number.
    let g = parse_grid("5 1\u{200b}2 6\n".as_bytes()).unwrap();
    assert_eq!(g.cols(), 2);
    assert_eq!(g.cell(0), 5);
    assert_eq!(g.cell(1), 6);
}

#[test]
fn parse_rejects_line_of_other_length() {
    assert_eq!(parse_grid(b"1 2\n3\n4\n").err(), Some(GridError::RaggedRows));
    assert_eq!(parse_grid(b"1 2\n3 4 5 6\n").err(), Some(GridError::RaggedRows));
}

#[test]
fn parse_skips_lines_without_numbers() {
    let g = parse_grid(b"1 2\n\nx y\n3 4\n\n").unwrap();
    assert_eq!(g.cols(), 2);
    assert_eq!(g.rows(), 2);
    assert_eq!(king_sum(&g, 0), 5);
}
