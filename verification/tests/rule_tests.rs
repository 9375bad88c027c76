//! Tests of the individual deduction rules, each on a board built to
//! trigger exactly the rule under test.

use sudoku::Sudoku;
use sudoku::Tile;

const NAKED_SINGLE: &str = ".23456789........................................................................";
const NAKED_PAIR: &str = ".234567..9.......................................................................";
const BLANK: &str = ".................................................................................";
const SINGLES_IN: &str = ".234567894567891237891234562143658973658.7214897214365531642978642978531978531642";
const LAST_COLUMN_IN: &str = "1234567894.6789123789123456214365897365897214897214365531642978642978531978531642";
const LAST_ROW_IN: &str = "12345678945678912378.123456214365897365897214897214365531642978642978531978531642";
const LAST_BOX_IN: &str = "123456789456789123789123456214.65897365897214897214365531642978642978531978531642";
const FULL: &str = "123456789456789123789123456214365897365897214897214365531642978642978531978531642";
const HIDDEN_PAIRS_IN: &str = ".........6........76........76........76........76........76........76........7..";
const HIDDEN_TRIPS_IN: &str = ".........2.6......5........6...25....2....56..5..6.....6..52.....2....56..5..6.2.";
const NAKED_PAIRS_IN: &str = ".........123...456..............................7.........7......................";

#[test]
fn test_get_naked_single() {
    let mut with_single = Sudoku::from_string(NAKED_SINGLE);
    let output = with_single.get_naked_single(0, 0);
    assert_eq!(output, (Tile::Num(1), false));
    let mut without = Sudoku::from_string(BLANK);
    let output = without.get_naked_single(0, 0);
    assert_eq!(output, (Tile::Void, false));
}

#[test]
fn test_get_naked_pair() {
    let mut with_pair = Sudoku::from_string(NAKED_PAIR);
    let output = with_pair.get_naked_pair(0, 0);
    assert_eq!(output, (Tile::Num(1), Tile::Num(8)));
    let mut without = Sudoku::from_string(BLANK);
    let output = without.get_naked_pair(0, 0);
    assert_eq!(output, (Tile::Void, Tile::Void));
}

#[test]
fn test_get_best_guess_spot() {
    let mut s = Sudoku::from_string(NAKED_PAIR);
    let output = s.get_best_guess_spot(false);
    assert_eq!(output, (0, 0));
}

#[test]
fn test_fill_naked_singles() {
    let mut s = Sudoku::from_string(SINGLES_IN);
    let expected = Sudoku::from_string(FULL);
    let _ = s.fill_naked_singles(false);
    assert_eq!(s.board, expected.board);
}

#[test]
fn test_fill_last_in_column() {
    let mut s = Sudoku::from_string(LAST_COLUMN_IN);
    let expected = Sudoku::from_string(FULL);
    let _ = s.fill_last_in_column(false);
    assert_eq!(s.board, expected.board);
}

#[test]
fn test_fill_last_in_row() {
    let mut s = Sudoku::from_string(LAST_ROW_IN);
    let expected = Sudoku::from_string(FULL);
    let _ = s.fill_last_in_row(false);
    assert_eq!(s.board, expected.board);
}

#[test]
fn test_fill_last_in_box() {
    let mut s = Sudoku::from_string(LAST_BOX_IN);
    let expected = Sudoku::from_string(FULL);
    let _ = s.fill_last_in_box(false);
    assert_eq!(s.board, expected.board);
}

#[test]
fn test_hidden_pairs() {
    let mut s = Sudoku::from_string(HIDDEN_PAIRS_IN);
    let _ = s.apply_hidden_pairs_rows(false);
    let correct = (0b1 << (6 - 1)) + (0b1 << (7 - 1));
    assert_eq!(s.possible[7][0], correct);
    assert_eq!(s.possible[8][0], correct);
}

#[test]
fn test_hidden_trips() {
    let mut s = Sudoku::from_string(HIDDEN_TRIPS_IN);
    let _ = s.apply_hidden_trips_rows(false);
    let correct_256 = (0b1 << (2 - 1)) + (0b1 << (5 - 1)) + (0b1 << (6 - 1));
    let correct_26 = (0b1 << (2 - 1)) + (0b1 << (6 - 1));
    let correct_25 = (0b1 << (2 - 1)) + (0b1 << (5 - 1));
    assert_eq!(s.possible[3][0], correct_256);
    assert_eq!(s.possible[6][0], correct_26);
    assert_eq!(s.possible[8][0], correct_25);
}

#[test]
fn test_naked_pairs() {
    let mut s = Sudoku::from_string(NAKED_PAIRS_IN);
    let _ = s.apply_naked_pairs(false);
    let correct_16 = 0b111111;
    let correct_17 = 0b1111111;
    assert_eq!(s.possible[3][0], correct_16);
    assert_eq!(s.possible[4][0], correct_16);
    assert_eq!(s.possible[5][0], correct_17);
}
