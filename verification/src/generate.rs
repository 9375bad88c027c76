//! Minimal-clue puzzle generation: reducing a solved board to a random
//! clue subset, and the one-clue-removal search step that keeps only
//! puzzles whose solution stays unique.

use vstd::prelude::*;
use rand::seq::SliceRandom;
use rand::thread_rng;
use crate::board::Sudoku;
use crate::board::Tile;
use crate::board::clues_counted;
use crate::board::complete;
use crate::board::empty_count;
use crate::board::fresh_cands;
use crate::board::in_grid;
use crate::board::lemma_clues_irrelevant;
use crate::board::lemma_empty_count_notfull;
use crate::board::peers;
use crate::board::placed_ok;
use crate::board::tile_at;
use crate::board::wf;
use crate::model::admits;
use crate::model::lemma_admits_clues_irrelevant;
use crate::solve::SolutionCount;

verus! {

/// Relies on rand's `SliceRandom::shuffle`: a Fisher-Yates pass permutes
/// the slice in place, so the entries afterwards are exactly the entries
/// before, in an order drawn from the thread-local generator.
#[verifier::external_body]
fn shuffle_indices(v: &mut Vec<usize>)
    ensures
        final(v)@.len() == old(v)@.len(),
        final(v)@.to_multiset() == old(v)@.to_multiset(),
{
    v.shuffle(&mut thread_rng());
}


/// `a` solves the puzzle that remains when the clue at `(x, y)` of `s` is
/// ignored: a valid complete assignment agreeing with every other clue.
pub open spec fn reduced_solution(s: Sudoku, x: int, y: int, a: Seq<Seq<int>>) -> bool {
    &&& crate::model::grid_wf(a)
    &&& crate::model::latin_ok(a)
    &&& forall|i: int, j: int|
        in_grid(i, j) && !(i == x && j == y) ==> match #[trigger] tile_at(s, i, j) {
            Tile::Num(v) => a[i][j] == v as int,
            Tile::Void => true,
        }
}

/// The clue at `(x, y)` can be dropped: it is placed, and the puzzle
/// without it still has exactly one solution.
pub open spec fn droppable(s: Sudoku, x: int, y: int) -> bool {
    &&& in_grid(x, y)
    &&& !(tile_at(s, x, y) is Void)
    &&& (exists|a: Seq<Seq<int>>| #[trigger] reduced_solution(s, x, y, a))
    &&& (forall|a1: Seq<Seq<int>>, a2: Seq<Seq<int>>|
        reduced_solution(s, x, y, a1) && reduced_solution(s, x, y, a2) ==> a1 == a2)
}

/// How many cells among the first `m`, scanned column by column with index
/// `9 * x + y`, hold droppable clues.
pub open spec fn droppable_below(s: Sudoku, m: int) -> nat
    decreases m,
{
    if m <= 0 {
        0
    } else {
        droppable_below(s, m - 1) + (if droppable(s, (m - 1) / 9, (m - 1) % 9) {
            1nat
        } else {
            0nat
        })
    }
}

impl Sudoku {
    /// Keeps a uniformly random subset of `n` clues of a solved board:
    /// shuffles the 81 cell indices, keeps the first `n`, and rebuilds a
    /// fresh board holding only those clues, with its clue counter set to
    /// `n`.  The kept tiles agree with the solved board.
    pub fn reduce_to_n_random(&mut self, n: usize) -> (r: Sudoku)
        requires
            wf(*old(self)),
            n <= 81,
            complete(*old(self)),
        ensures
            *final(self) == *old(self),
            wf(r),
            r.clues == n,
            clues_counted(r),
            empty_count(r) == 81 - n,
            fresh_cands(r),
            forall|x: int, y: int|
                in_grid(x, y) && !(#[trigger] tile_at(r, x, y) is Void) ==> tile_at(r, x, y)
                    == tile_at(*old(self), x, y),
            placed_ok(*old(self)) ==> placed_ok(r),
    {
        let ghost full = *old(self);
        let mut indices: Vec<usize> = Vec::new();
        let mut k: usize = 0;
        while k < 81
            invariant
                k <= 81,
                indices@.len() == k,
                forall|m: int| 0 <= m < k ==> #[trigger] indices@[m] == m,
            decreases 81 - k,
        {
            indices.push(k);
            k = k + 1;
        }
        let ghost base = indices@;
        shuffle_indices(&mut indices);
        proof {
            broadcast use vstd::seq_lib::group_to_multiset_ensures;

            assert(base.no_duplicates());
            base.lemma_multiset_has_no_duplicates();
            assert forall|e: usize| indices@.to_multiset().contains(e) implies indices@.to_multiset().count(
                e,
            ) == 1 by {
                assert(base.to_multiset().contains(e));
            }
            indices@.lemma_multiset_has_no_duplicates_conv();
            assert forall|m: int| 0 <= m < 81 implies #[trigger] indices@[m] < 81 by {
                assert(indices@.contains(indices@[m]));
                assert(indices@.to_multiset().count(indices@[m]) > 0);
                assert(base.to_multiset().count(indices@[m]) > 0);
                assert(base.contains(indices@[m]));
                let w = choose|w: int| 0 <= w < base.len() && base[w] == indices@[m];
                assert(base[w] == w);
            }
        }
        let mut res = Sudoku::new_blank();
        let mut idx: usize = 0;
        while idx < n
            invariant
                *self == full,
                wf(full),
                complete(full),
                wf(res),
                n <= 81,
                idx <= n,
                res.clues == 0,
                fresh_cands(res),
                indices@.len() == 81,
                indices@.no_duplicates(),
                forall|m: int| 0 <= m < 81 ==> #[trigger] indices@[m] < 81,
                empty_count(res) == 81 - idx,
                forall|x: int, y: int|
                    in_grid(x, y) && !(#[trigger] tile_at(res, x, y) is Void) ==> tile_at(
                        res,
                        x,
                        y,
                    ) == tile_at(full, x, y) && (exists|m: int|
                        0 <= m < idx && #[trigger] indices@[m] == 9 * y + x),
            decreases n - idx,
        {
            let index = indices[idx];
            let x = index % 9;
            let y = index / 9;
            proof {
                assert(in_grid(x as int, y as int));
                assert(9 * (y as int) + x as int == index as int);
                if !(tile_at(res, x as int, y as int) is Void) {
                    let m = choose|m: int|
                        0 <= m < idx && #[trigger] indices@[m] == 9 * (y as int) + x as int;
                    assert(indices@[m] == indices@[idx as int]);
                    assert(false);
                }
                assert(!(tile_at(full, x as int, y as int) is Void));
            }
            let tile = self.board[x][y];
            proof {
                assert(tile_at(full, x as int, y as int) == tile);
            }
            let ghost pre_place = res;
            res.set_tile_at(x, y, tile);
            proof {
                crate::board::lemma_place_fresh(pre_place, res, x as int, y as int, tile);
            }
            idx = idx + 1;
        }
        let ghost before_clues = res;
        res.clues = n;
        proof {
            lemma_clues_irrelevant(before_clues, res);
            if placed_ok(full) {
                assert forall|x: int, y: int, x2: int, y2: int|
                    #![trigger tile_at(res, x, y), tile_at(res, x2, y2)]
                    peers(x, y, x2, y2) implies (tile_at(res, x, y) is Void || tile_at(res, x, y)
                    != tile_at(res, x2, y2)) by {
                    if !(tile_at(res, x, y) is Void) && !(tile_at(res, x2, y2) is Void) {
                        assert(tile_at(res, x, y) == tile_at(full, x, y));
                        assert(tile_at(res, x2, y2) == tile_at(full, x2, y2));
                        assert(tile_at(full, x, y) is Void || tile_at(full, x, y) != tile_at(
                            full,
                            x2,
                            y2,
                        ));
                    }
                }
            }
        }
        res
    }

    /// For every placed clue, builds the puzzle with that one clue
    /// removed, keeps it only if its full solve still finds exactly one
    /// solution, and returns all puzzles kept, each with one clue fewer.
    /// None of the returned puzzles has lost its unique solution: that is
    /// what the solve check guarantees.
    pub fn get_all_reduced_by_one_clue(&self) -> (res: Vec<Sudoku>)
        requires
            wf(*self),
            empty_count(*self) < 81 ==> self.clues >= 1,
        ensures
            forall|k: int|
                0 <= k < res@.len() ==> {
                    let p = #[trigger] res@[k];
                    &&& wf(p)
                    &&& fresh_cands(p)
                    &&& p.clues == self.clues - 1
                    &&& placed_ok(p)
                    &&& (exists|a: Seq<Seq<int>>| #[trigger] admits(p, a))
                    &&& (forall|a1: Seq<Seq<int>>, a2: Seq<Seq<int>>|
                        admits(p, a1) && admits(p, a2) ==> a1 == a2)
                },
            forall|k: int|
                0 <= k < res@.len() ==> (forall|i: int, j: int|
                    in_grid(i, j) ==> (tile_at(#[trigger] res@[k], i, j) == tile_at(*self, i, j)
                        || #[trigger] tile_at(res@[k], i, j) is Void)),
            forall|k: int|
                0 <= k < res@.len() ==> empty_count(#[trigger] res@[k]) == empty_count(*self) + 1,
            res@.len() <= 81,
            res@.len() == droppable_below(*self, 81),
            forall|k1: int, k2: int| 0 <= k1 < k2 < res@.len() ==> res@[k1] != res@[k2],
    {
        let mut res: Vec<Sudoku> = Vec::new();
        let ghost mut removed: Seq<(int, int)> = Seq::empty();
        let mut x: usize = 0;
        while x < 9
            invariant
                wf(*self),
                empty_count(*self) < 81 ==> self.clues >= 1,
                x <= 9,
                forall|k: int|
                    0 <= k < res@.len() ==> {
                        let p = #[trigger] res@[k];
                        &&& wf(p)
                        &&& fresh_cands(p)
                        &&& p.clues == self.clues - 1
                        &&& placed_ok(p)
                        &&& (exists|a: Seq<Seq<int>>| #[trigger] admits(p, a))
                        &&& (forall|a1: Seq<Seq<int>>, a2: Seq<Seq<int>>|
                            admits(p, a1) && admits(p, a2) ==> a1 == a2)
                    },
                forall|k: int|
                    0 <= k < res@.len() ==> (forall|i: int, j: int|
                        in_grid(i, j) ==> (tile_at(#[trigger] res@[k], i, j) == tile_at(
                            *self,
                            i,
                            j,
                        ) || #[trigger] tile_at(res@[k], i, j) is Void)),
                forall|k: int|
                    0 <= k < res@.len() ==> empty_count(#[trigger] res@[k]) == empty_count(*self)
                        + 1,
                res@.len() <= 9 * x,
                res@.len() == droppable_below(*self, 9 * x),
                removed.len() == res@.len(),
                forall|k: int|
                    0 <= k < res@.len() ==> {
                        let w = #[trigger] removed[k];
                        &&& in_grid(w.0, w.1)
                        &&& w.0 < x as int
                        &&& !(tile_at(*self, w.0, w.1) is Void)
                        &&& tile_at(res@[k], w.0, w.1) is Void
                        &&& forall|i: int, j: int|
                            in_grid(i, j) && !(i == w.0 && j == w.1) ==> #[trigger] tile_at(
                                res@[k],
                                i,
                                j,
                            ) == tile_at(*self, i, j)
                    },
                forall|k1: int, k2: int|
                    #![trigger removed[k1], removed[k2]]
                    0 <= k1 < k2 < removed.len() ==> (removed[k1].0 < removed[k2].0 || (
                    removed[k1].0 == removed[k2].0 && removed[k1].1 < removed[k2].1)),
            decreases 9 - x,
        {
            let mut y: usize = 0;
            while y < 9
                invariant
                    wf(*self),
                    empty_count(*self) < 81 ==> self.clues >= 1,
                    x < 9,
                    y <= 9,
                    forall|k: int|
                        0 <= k < res@.len() ==> {
                            let p = #[trigger] res@[k];
                            &&& wf(p)
                            &&& fresh_cands(p)
                            &&& p.clues == self.clues - 1
                            &&& placed_ok(p)
                            &&& (exists|a: Seq<Seq<int>>| #[trigger] admits(p, a))
                            &&& (forall|a1: Seq<Seq<int>>, a2: Seq<Seq<int>>|
                                admits(p, a1) && admits(p, a2) ==> a1 == a2)
                        },
                    forall|k: int|
                        0 <= k < res@.len() ==> (forall|i: int, j: int|
                            in_grid(i, j) ==> (tile_at(#[trigger] res@[k], i, j) == tile_at(
                                *self,
                                i,
                                j,
                            ) || #[trigger] tile_at(res@[k], i, j) is Void)),
                    forall|k: int|
                        0 <= k < res@.len() ==> empty_count(#[trigger] res@[k]) == empty_count(
                            *self,
                        ) + 1,
                    res@.len() <= 9 * x + y,
                    res@.len() == droppable_below(*self, 9 * x + y),
                    removed.len() == res@.len(),
                    forall|k: int|
                        0 <= k < res@.len() ==> {
                            let w = #[trigger] removed[k];
                            &&& in_grid(w.0, w.1)
                            &&& (w.0 < x as int || (w.0 == x as int && w.1 < y as int))
                            &&& !(tile_at(*self, w.0, w.1) is Void)
                            &&& tile_at(res@[k], w.0, w.1) is Void
                            &&& forall|i: int, j: int|
                                in_grid(i, j) && !(i == w.0 && j == w.1) ==> #[trigger] tile_at(
                                    res@[k],
                                    i,
                                    j,
                                ) == tile_at(*self, i, j)
                        },
                    forall|k1: int, k2: int|
                        #![trigger removed[k1], removed[k2]]
                        0 <= k1 < k2 < removed.len() ==> (removed[k1].0 < removed[k2].0 || (
                        removed[k1].0 == removed[k2].0 && removed[k1].1 < removed[k2].1)),
                decreases 9 - y,
            {
                if self.board[x][y] != Tile::Void {
                    proof {
                        lemma_empty_count_notfull(*self, x as int, y as int, 81);
                    }
                    let mut new_sudoku = Sudoku::new_blank();
                    let mut x1: usize = 0;
                    while x1 < 9
                        invariant
                            wf(*self),
                            x < 9,
                            y < 9,
                            x1 <= 9,
                            wf(new_sudoku),
                            new_sudoku.clues == 0,
                            fresh_cands(new_sudoku),
                            tile_at(new_sudoku, x as int, y as int) is Void,
                            forall|i: int, j: int|
                                in_grid(i, j) && i < x1 as int && !(i == x as int && j == y as int)
                                    ==> #[trigger] tile_at(new_sudoku, i, j) == tile_at(
                                    *self,
                                    i,
                                    j,
                                ),
                            forall|i: int, j: int|
                                in_grid(i, j) && i >= x1 as int ==> #[trigger] tile_at(
                                    new_sudoku,
                                    i,
                                    j,
                                ) is Void,
                        decreases 9 - x1,
                    {
                        let mut y1: usize = 0;
                        while y1 < 9
                            invariant
                                wf(*self),
                                x < 9,
                                y < 9,
                                x1 < 9,
                                y1 <= 9,
                                wf(new_sudoku),
                                new_sudoku.clues == 0,
                                fresh_cands(new_sudoku),
                                tile_at(new_sudoku, x as int, y as int) is Void,
                                forall|i: int, j: int|
                                    in_grid(i, j) && (i < x1 as int || (i == x1 as int && j
                                        < y1 as int)) && !(i == x as int && j == y as int)
                                        ==> #[trigger] tile_at(new_sudoku, i, j) == tile_at(
                                        *self,
                                        i,
                                        j,
                                    ),
                                forall|i: int, j: int|
                                    in_grid(i, j) && (i > x1 as int || (i == x1 as int && j
                                        >= y1 as int)) ==> #[trigger] tile_at(new_sudoku, i, j)
                                        is Void,
                            decreases 9 - y1,
                        {
                            if !(x == x1 && y == y1) {
                                let tile = self.board[x1][y1];
                                proof {
                                    assert(tile_at(*self, x1 as int, y1 as int) == tile);
                                }
                                let ghost pre_place = new_sudoku;
                                new_sudoku.set_tile_at(x1, y1, tile);
                                proof {
                                    crate::board::lemma_place_fresh(
                                        pre_place,
                                        new_sudoku,
                                        x1 as int,
                                        y1 as int,
                                        tile,
                                    );
                                }
                            }
                            y1 = y1 + 1;
                        }
                        x1 = x1 + 1;
                    }
                    let mut to_solve = Sudoku::from_sudoku(&new_sudoku);
                    let solution_count = to_solve.solve(false);
                    let ghost before_clues = new_sudoku;
                    new_sudoku.clues = self.clues - 1;
                    proof {
                        lemma_clues_irrelevant(before_clues, new_sudoku);
                        lemma_admits_clues_irrelevant(before_clues, new_sudoku);
                        assert forall|a: Seq<Seq<int>>|
                            #![trigger admits(before_clues, a)]
                            #![trigger reduced_solution(*self, x as int, y as int, a)]
                            admits(before_clues, a) == reduced_solution(
                            *self,
                            x as int,
                            y as int,
                            a,
                        ) by {
                            crate::model::lemma_fresh_admits_solutions(before_clues, a);
                            assert forall|i: int, j: int|
                                in_grid(i, j) && !(i == x as int && j == y as int) implies (match 
                            #[trigger] tile_at(*self, i, j) {
                                Tile::Num(v) => crate::model::is_solution_of(before_clues, a)
                                    ==> a[i][j] == v as int,
                                Tile::Void => true,
                            }) by {
                                assert(tile_at(before_clues, i, j) == tile_at(*self, i, j));
                            }
                            if crate::model::is_solution_of(before_clues, a) {
                                assert(reduced_solution(*self, x as int, y as int, a));
                            }
                            if reduced_solution(*self, x as int, y as int, a) {
                                assert forall|i: int, j: int| in_grid(i, j) implies match 
                                #[trigger] tile_at(before_clues, i, j) {
                                    Tile::Num(v) => a[i][j] == v as int,
                                    Tile::Void => true,
                                } by {
                                    if !(i == x as int && j == y as int) {
                                        assert(tile_at(before_clues, i, j) == tile_at(
                                            *self,
                                            i,
                                            j,
                                        ));
                                    } else {
                                        assert(tile_at(before_clues, i, j) is Void);
                                    }
                                }
                                assert(crate::model::is_solution_of(before_clues, a));
                            }
                        }
                    }
                    if let SolutionCount::One(w) = solution_count {
                        proof {
                            crate::board::lemma_empty_count_place(
                                new_sudoku,
                                *self,
                                x as int,
                                y as int,
                                81,
                            );
                            assert(empty_count(new_sudoku) == empty_count(*self) + 1);
                            let g = crate::model::board_grid(w);
                            assert(admits(before_clues, g));
                            assert(admits(new_sudoku, g));
                            if !placed_ok(new_sudoku) {
                                crate::model::lemma_clash_no_admits(new_sudoku);
                                assert(false);
                            }
                        }
                        res.push(new_sudoku);
                        proof {
                            removed = removed.push((x as int, y as int));
                        }
                    }
                }
                y = y + 1;
            }
            x = x + 1;
        }
        proof {
            assert forall|k1: int, k2: int|
                0 <= k1 < k2 < res@.len() implies res@[k1] != res@[k2] by {
                let w1 = removed[k1];
                let w2 = removed[k2];
                assert(!(w1.0 == w2.0 && w1.1 == w2.1));
                assert(tile_at(res@[k1], w1.0, w1.1) is Void);
                assert(tile_at(res@[k2], w1.0, w1.1) == tile_at(*self, w1.0, w1.1));
                assert(!(tile_at(*self, w1.0, w1.1) is Void));
                if res@[k1] == res@[k2] {
                    assert(tile_at(res@[k1], w1.0, w1.1) == tile_at(res@[k2], w1.0, w1.1));
                }
            }
        }
        res
    }
}

} // verus!
