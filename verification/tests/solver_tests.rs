//! Tests of the solving entry points: exact solution counting, the
//! deduction-only solver, and the concrete scenarios the engine must get
//! right.

use sudoku::Difficulty;
use sudoku::SolutionCount;
use sudoku::Sudoku;
use sudoku::Tile;

const FULL: &str = "123456789456789123789123456214365897365897214897214365531642978642978531978531642";
const DUPLICATE_ROW: &str = "11234567.........8........9......................................................";
const EXCHANGEABLE: &str = "..3456789456789123789123456..4365897365897214897214365531642978642978531978531642";
const SEVENTEEN: &str = "000000010400000000020000000000050407008000300001090000300400200050100000000806000";
const SEVENTEEN_SOLUTION: &str = "693784512487512936125963874932651487568247391741398625319475268856129743274836159";
const STALLING: &str = ".......12........3..23..4....18....5.6..7.8.......9.....85.....9...4.5..47...6...";
const STALLING_SOLUTION: &str = "839465712146782953752391486391824675564173829287659341628537194913248567475916238";
const NO_SOLUTION: &str = ".123456789.......................................................................";
const NEEDS_FULL_TIERS: &str = ".......12........3..23..4.6..18....5.6417.8......59.....85.....9.3.4.5.747...6...";
const BLANK: &str = ".................................................................................";

fn digit_at(text: &str, x: usize, y: usize) -> Tile {
    let b = text.as_bytes()[9 * y + x];
    if b == b'.' || b == b'0' {
        Tile::Void
    } else {
        Tile::Num((b - b'0') as usize)
    }
}

fn is_solved(s: &Sudoku) -> bool {
    for x in 0..9 {
        for y in 0..9 {
            match s.board[x][y] {
                Tile::Void => return false,
                Tile::Num(v) => {
                    if v < 1 || v > 9 {
                        return false;
                    }
                    for i in 0..9 {
                        if i != y && s.board[x][i] == Tile::Num(v) {
                            return false;
                        }
                        if i != x && s.board[i][y] == Tile::Num(v) {
                            return false;
                        }
                    }
                    let bx = x - x % 3;
                    let by = y - y % 3;
                    for dx in 0..3 {
                        for dy in 0..3 {
                            if (bx + dx, by + dy) != (x, y)
                                && s.board[bx + dx][by + dy] == Tile::Num(v)
                            {
                                return false;
                            }
                        }
                    }
                },
            }
        }
    }
    true
}

#[test]
fn test_solver() {
    let mut s = Sudoku::from_string(SEVENTEEN);
    assert_eq!(s.clues, 17);
    match s.solve(false) {
        SolutionCount::One(solution) => {
            assert!(is_solved(&solution));
            for x in 0..9 {
                for y in 0..9 {
                    assert_eq!(solution.board[x][y], digit_at(SEVENTEEN_SOLUTION, x, y));
                }
            }
        },
        _ => panic!("solver found wrong number of solutions"),
    }
}

#[test]
fn test_multiple() {
    let mut s = Sudoku::from_string(EXCHANGEABLE);
    assert!(matches!(s.solve(false), SolutionCount::Multiple));
    let mut empty = Sudoku::from_string(BLANK);
    assert!(matches!(empty.solve(false), SolutionCount::Multiple));
}

#[test]
fn solved_board_solves_to_itself() {
    let mut s = Sudoku::from_string(FULL);
    let original = s;
    match s.solve(false) {
        SolutionCount::One(w) => assert_eq!(w.board, original.board),
        _ => panic!("a solved board must have exactly its own solution"),
    }
}

#[test]
fn wrong_length_fails_construction() {
    let eighty: String = FULL.chars().take(80).collect();
    assert!(Sudoku::try_from_string(&eighty).is_none());
    let eighty_two: String = format!("{}..", &eighty);
    assert!(Sudoku::try_from_string(&eighty_two).is_none());
    assert!(Sudoku::try_from_string("abc").is_none());
}

#[test]
fn clashing_clues_are_rejected_even_on_a_full_board() {
    // the full grid with one cell changed to repeat a row digit
    let mut text: Vec<u8> = FULL.as_bytes().to_vec();
    text[8] = text[7];
    let clashing = String::from_utf8(text).expect("ascii digits");
    let mut s = Sudoku::from_string(&clashing);
    assert!(s.has_clashing_clues());
    assert!(matches!(s.solve(false), SolutionCount::Zero));
    let mut fine = Sudoku::from_string(FULL);
    assert!(!fine.has_clashing_clues());
}

#[test]
fn duplicate_clues_in_a_row_give_zero() {
    let mut s = Sudoku::from_string(DUPLICATE_ROW);
    assert!(matches!(s.solve(false), SolutionCount::Zero));
}

#[test]
fn contradictory_cell_gives_zero() {
    let mut s = Sudoku::from_string(NO_SOLUTION);
    assert!(matches!(s.solve(false), SolutionCount::Zero));
    let mut s2 = Sudoku::from_string(NO_SOLUTION);
    assert!(matches!(s2.solve_no_guessing(false, 100, false), SolutionCount::Zero));
}

#[test]
fn deduction_alone_may_stall_without_contradicting_search() {
    let mut by_search = Sudoku::from_string(STALLING);
    assert!(matches!(by_search.solve(false), SolutionCount::One(_)));
    let mut by_deduction = Sudoku::from_string(STALLING);
    assert!(matches!(
        by_deduction.solve_no_guessing(false, 100, false),
        SolutionCount::Zero
    ));
}

#[test]
fn deduction_never_removes_solution_digits() {
    let mut s = Sudoku::from_string(STALLING);
    let _ = s.solve_no_guessing(false, 100, false);
    for x in 0..9 {
        for y in 0..9 {
            let expected = digit_at(STALLING_SOLUTION, x, y);
            match s.board[x][y] {
                Tile::Num(v) => assert_eq!(Tile::Num(v), expected),
                Tile::Void => {
                    if let Tile::Num(v) = expected {
                        assert!(s.is_possible_at(x, y, v));
                    }
                },
            }
        }
    }
}

#[test]
fn difficulty_of_near_complete_board_is_trivial() {
    let s = Sudoku::from_string(".234567894567891237891234562143658973658.7214897214365531642978642978531978531642");
    assert_eq!(s.get_difficulty(0), Difficulty::Trivial);
    assert_eq!(s.get_difficulty(2), Difficulty::Trivial);
}

#[test]
fn pair_and_triple_tiers_solve_more_than_the_basic_tiers() {
    let mut basic = Sudoku::from_string(NEEDS_FULL_TIERS);
    assert!(matches!(
        basic.solve_no_guessing(true, 100, false),
        SolutionCount::Zero
    ));
    let mut full_tiers = Sudoku::from_string(NEEDS_FULL_TIERS);
    match full_tiers.solve_no_guessing(false, 100, false) {
        SolutionCount::One(w) => assert!(is_solved(&w)),
        _ => panic!("the pair and triple tiers should finish this board"),
    }
}

#[test]
fn difficulty_distinguishes_easy_from_trivial() {
    let s = Sudoku::from_string(NEEDS_FULL_TIERS);
    assert_eq!(s.get_difficulty(0), Difficulty::Easy);
}

#[test]
fn difficulty_reports_search_outcomes() {
    let s = Sudoku::from_string(NO_SOLUTION);
    assert_eq!(s.get_difficulty(0), Difficulty::LiterallyZeroSolutions);
    let m = Sudoku::from_string(EXCHANGEABLE);
    assert_eq!(m.get_difficulty(0), Difficulty::LiterallyMultipleSolutions);
    let hard = Sudoku::from_string(STALLING);
    assert_eq!(hard.get_difficulty(0), Difficulty::TooDeep);
}
