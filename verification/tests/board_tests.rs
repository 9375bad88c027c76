//! Tests of the board state itself: construction, the four-view
//! placement invariant, idempotent elimination, and the reduction
//! primitives.

use sudoku::SolutionCount;
use sudoku::Sudoku;
use sudoku::Tile;

const FULL: &str = "123456789456789123789123456214365897365897214897214365531642978642978531978531642";
const SEVENTEEN: &str = "000000010400000000020000000000050407008000300001090000300400200050100000000806000";

#[test]
fn construction_counts_clues() {
    let s = Sudoku::from_string(SEVENTEEN);
    assert_eq!(s.clues, 17);
    let f = Sudoku::from_string(FULL);
    assert_eq!(f.clues, 81);
}

#[test]
fn encoding_round_trips_the_digits() {
    let s = Sudoku::from_string(SEVENTEEN);
    assert_eq!(s.encode_digits(), SEVENTEEN.as_bytes().to_vec());
    let f = Sudoku::from_string(FULL);
    assert_eq!(f.encode_digits(), FULL.as_bytes().to_vec());
}

#[test]
fn placement_invariant_keeps_all_views_agreeing() {
    let mut s = Sudoku::from_string(SEVENTEEN);
    s.set_tile_at(0, 0, Tile::Num(6));
    s.remove_possible_at(5, 5, 3);
    for x in 0..9 {
        for y in 0..9 {
            for d in 1..=9usize {
                let cell = s.possible[x][y] >> (d - 1) & 1 == 1;
                let col = s.column_possible[x][d - 1] >> y & 1 == 1;
                let row = s.row_possible[y][d - 1] >> x & 1 == 1;
                let bi = x / 3 + 3 * (y / 3);
                let slot = x % 3 + 3 * (y % 3);
                let bx = s.box_possible[bi][d - 1] >> slot & 1 == 1;
                assert_eq!(cell, col);
                assert_eq!(cell, row);
                assert_eq!(cell, bx);
            }
        }
    }
}

#[test]
fn eliminating_an_absent_candidate_changes_nothing() {
    let mut s = Sudoku::from_string(SEVENTEEN);
    s.remove_possible_at(4, 4, 2);
    let before = s;
    s.remove_possible_at(4, 4, 2);
    assert_eq!(s, before);
    // digit 4 is a placed clue at (0, 1): long gone from its own row
    s.remove_possible_at(5, 1, 4);
    let again = s;
    s.remove_possible_at(5, 1, 4);
    assert_eq!(s, again);
}

#[test]
fn reduce_to_thirty_keeps_a_clue_subset() {
    let mut solved = Sudoku::from_string(FULL);
    let reduced = solved.reduce_to_n_random(30);
    assert_eq!(reduced.clues, 30);
    let mut placed = 0;
    for x in 0..9 {
        for y in 0..9 {
            if let Tile::Num(v) = reduced.board[x][y] {
                placed += 1;
                assert_eq!(solved.board[x][y], Tile::Num(v));
            }
        }
    }
    assert_eq!(placed, 30);
}

#[test]
fn one_clue_reductions_keep_the_solution_unique() {
    let full = Sudoku::from_string(FULL);
    let reduced = full.get_all_reduced_by_one_clue();
    assert_eq!(reduced.len(), 81);
    for p in &reduced {
        assert_eq!(p.clues, 80);
    }
    let mut first = Sudoku::from_sudoku(&reduced[0]);
    match first.solve(false) {
        SolutionCount::One(w) => assert_eq!(w.board, Sudoku::from_string(FULL).board),
        _ => panic!("a one-clue reduction must keep its unique solution"),
    }
}
