//! Recursive difficulty classification: how hard the puzzle stays as its
//! empty cells are hypothetically revealed from the known solution.

use vstd::prelude::*;
use crate::board::Sudoku;
use crate::board::Tile;
use crate::board::complete;
use crate::board::placed_ok;
use crate::board::tile_at;
use crate::board::wf;
use crate::model::admits;
use crate::model::board_grid;
use crate::model::cell_respects;
use crate::model::lemma_place_admits;
use crate::solve::SolutionCount;

verus! {

/// A puzzle's difficulty tier: solvable by the basic rules alone, by the
/// full rule tiers, or classified recursively by how hard it remains once
/// one solution digit is revealed; the two `Literally` results pass a
/// search outcome through, and `TooDeep` reports an exhausted recursion
/// budget.
#[derive(Copy, Clone, PartialEq, Eq, Structural, Debug)]
pub enum Difficulty {
    Trivial,
    Easy,
    LevelOne(usize),
    LevelTwo(usize),
    LevelThree(usize),
    LiterallyZeroSolutions,
    LiterallyMultipleSolutions,
    TooDeep,
}

impl Sudoku {
    /// Classifies the puzzle, trying shallower depths first and only
    /// recursing over hypothetically revealed cells when the shallower
    /// classification is exhausted.  On a board whose placed digits do not
    /// clash, the pass-through results are exact: no solution, or more
    /// than one.
    pub fn get_difficulty(&self, depth: usize) -> (r: Difficulty)
        requires
            wf(*self),
        ensures
            placed_ok(*self) ==> ((r == Difficulty::LiterallyZeroSolutions) <==> (forall|
                a: Seq<Seq<int>>,
            | !admits(*self, a))),
            placed_ok(*self) ==> ((r == Difficulty::LiterallyMultipleSolutions) <==> (exists|
                a1: Seq<Seq<int>>,
                a2: Seq<Seq<int>>,
            |
                #![trigger admits(*self, a1), admits(*self, a2)]
                admits(*self, a1) && admits(*self, a2) && a1 != a2)),
            r matches Difficulty::LevelOne(c) ==> 1 <= c <= 81,
            r matches Difficulty::LevelTwo(c) ==> 1 <= c <= 81,
            r matches Difficulty::LevelThree(c) ==> 1 <= c <= 81,
            placed_ok(*self) ==> ((r is Trivial || r is Easy || r is LevelOne || r is LevelTwo
                || r is LevelThree) ==> ((exists|a: Seq<Seq<int>>| #[trigger] admits(*self, a))
                && (forall|a1: Seq<Seq<int>>, a2: Seq<Seq<int>>|
                admits(*self, a1) && admits(*self, a2) ==> a1 == a2))),
        decreases depth,
    {
        if depth > 0 {
            let cheat = self.get_difficulty(depth - 1);
            if cheat != Difficulty::TooDeep {
                return cheat;
            }
        }
        let mut new = Self::from_sudoku(self);
        let trivial = new.solve_no_guessing(true, 100, false);
        if let SolutionCount::One(w) = trivial {
            proof {
                if placed_ok(*self) {
                    assert(admits(*self, board_grid(w)));
                }
            }
            return Difficulty::Trivial;
        }
        let easy = new.solve_no_guessing(false, 100, false);
        if let SolutionCount::One(w) = easy {
            proof {
                if placed_ok(*self) {
                    assert(admits(*self, board_grid(w)));
                }
            }
            return Difficulty::Easy;
        }
        let solution_count = new.solve(false);
        match solution_count {
            SolutionCount::Zero => {
                return Difficulty::LiterallyZeroSolutions;
            },
            SolutionCount::Multiple => {
                return Difficulty::LiterallyMultipleSolutions;
            },
            SolutionCount::One(solution) => {
                if depth < 1 {
                    proof {
                        if placed_ok(*self) {
                            assert(admits(*self, board_grid(solution)));
                        }
                    }
                    return Difficulty::TooDeep;
                }
                let mut level: usize = 4;
                let mut level_1_count: usize = 0;
                let mut level_2_count: usize = 0;
                let mut level_3_count: usize = 0;
                let ghost sol = board_grid(solution);
                let mut x: usize = 0;
                while x < 9
                    invariant
                        wf(*self),
                        depth >= 1,
                        x <= 9,
                        complete(solution),
                        wf(solution),
                        sol == board_grid(solution),
                        placed_ok(*self) ==> admits(*self, sol) && (forall|a: Seq<Seq<int>>|
                            #[trigger] admits(*self, a) ==> a == sol),
                        1 <= level <= 4,
                        level_1_count <= 9 * x,
                        level_2_count <= 9 * x,
                        level_3_count <= 9 * x,
                        level == 1 ==> level_1_count >= 1,
                        level == 2 ==> level_2_count >= 1,
                        level == 3 ==> level_3_count >= 1,
                    decreases 9 - x,
                {
                    let mut y: usize = 0;
                    while y < 9
                        invariant
                            wf(*self),
                            depth >= 1,
                            x < 9,
                            y <= 9,
                            complete(solution),
                            wf(solution),
                            sol == board_grid(solution),
                            placed_ok(*self) ==> admits(*self, sol) && (forall|a: Seq<Seq<int>>|
                                #[trigger] admits(*self, a) ==> a == sol),
                            1 <= level <= 4,
                            level_1_count <= 9 * x + y,
                            level_2_count <= 9 * x + y,
                            level_3_count <= 9 * x + y,
                            level == 1 ==> level_1_count >= 1,
                            level == 2 ==> level_2_count >= 1,
                            level == 3 ==> level_3_count >= 1,
                        decreases 9 - y,
                    {
                        if self.board[x][y] == Tile::Void {
                            let mut child = Self::from_sudoku(self);
                            let revealed = solution.board[x][y];
                            proof {
                                assert(tile_at(solution, x as int, y as int) == revealed);
                                assert(!(revealed is Void));
                                assert(tile_at(*self, x as int, y as int) is Void);
                            }
                            child.set_tile_at(x, y, revealed);
                            proof {
                                if placed_ok(*self) {
                                    let v = revealed->Num_0;
                                    assert(cell_respects(*self, sol, x as int, y as int));
                                    assert(sol[x as int][y as int] == v as int);
                                    lemma_place_admits(
                                        *self,
                                        child,
                                        x as int,
                                        y as int,
                                        v as int,
                                    );
                                    assert(admits(child, sol));
                                }
                            }
                            let new_difficulty = child.get_difficulty(depth - 1);
                            match new_difficulty {
                                Difficulty::LiterallyZeroSolutions
                                | Difficulty::LiterallyMultipleSolutions => {
                                    proof {
                                        if placed_ok(*self) {
                                            assert(admits(child, sol));
                                            if new_difficulty
                                                == Difficulty::LiterallyMultipleSolutions {
                                                let (a1, a2) = choose|
                                                    a1: Seq<Seq<int>>,
                                                    a2: Seq<Seq<int>>,
                                                |
                                                    #![trigger admits(child, a1), admits(child, a2)]
                                                    admits(child, a1) && admits(child, a2) && a1
                                                        != a2;
                                                assert(admits(*self, a1) && admits(*self, a2));
                                                assert(a1 == sol && a2 == sol);
                                                assert(false);
                                            } else {
                                                assert(!admits(child, sol));
                                                assert(false);
                                            }
                                        }
                                    }
                                    return new_difficulty;
                                },
                                Difficulty::Trivial | Difficulty::Easy => {
                                    level = 1;
                                    level_1_count = level_1_count + 1;
                                },
                                Difficulty::LevelOne(_) => {
                                    if level > 2 {
                                        level = 2;
                                    }
                                    if level == 2 {
                                        level_2_count = level_2_count + 1;
                                    }
                                },
                                Difficulty::LevelTwo(_) => {
                                    if level > 3 {
                                        level = 3;
                                    }
                                    if level == 3 {
                                        level_3_count = level_3_count + 1;
                                    }
                                },
                                Difficulty::LevelThree(_) => {},
                                Difficulty::TooDeep => {},
                            }
                        }
                        y = y + 1;
                    }
                    x = x + 1;
                }
                proof {
                    if placed_ok(*self) {
                        assert(admits(*self, sol));
                    }
                }
                if level == 1 {
                    return Difficulty::LevelOne(level_1_count);
                }
                if level == 2 {
                    return Difficulty::LevelTwo(level_2_count);
                }
                if level == 3 {
                    return Difficulty::LevelThree(level_3_count);
                }
                return Difficulty::TooDeep;
            },
        }
    }
}

} // verus!
