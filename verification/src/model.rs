//! The mathematical model of solutions: complete digit assignments
//! satisfying the row, column and box constraints, and how a board's
//! candidate state delimits the assignments it still admits.

use vstd::prelude::*;
use vstd::set_lib::lemma_int_range;
use vstd::set_lib::lemma_subset_equality;
use vstd::set_lib::set_int_range;
use crate::board::Sudoku;
use crate::board::Tile;
use crate::board::box_of;
use crate::board::cand;
use crate::board::digit_in_peers;
use crate::board::fresh_cands;
use crate::board::in_grid;
use crate::board::in_unit_of;
use crate::board::is_digit;
use crate::board::peers;
use crate::board::tile_at;
use crate::board::wf;

verus! {

/// A complete assignment of digits to the grid: nine columns of nine
/// digits, indexed `a[x][y]` like the board.
pub open spec fn grid_wf(a: Seq<Seq<int>>) -> bool {
    &&& a.len() == 9
    &&& forall|x: int| 0 <= x < 9 ==> (#[trigger] a[x]).len() == 9
    &&& forall|x: int, y: int| in_grid(x, y) ==> is_digit(#[trigger] a[x][y])
}

/// No two peer cells hold the same digit; for a complete assignment this
/// says every row, column and box holds each digit exactly once.
pub open spec fn latin_ok(a: Seq<Seq<int>>) -> bool {
    forall|x: int, y: int, x2: int, y2: int|
        #[trigger] peers(x, y, x2, y2) ==> a[x][y] != a[x2][y2]
}

/// The cell `(x, y)` of the board leaves the assignment's digit there
/// possible: a placed tile pins the digit, an empty cell must still hold
/// it as a candidate.
pub open spec fn cell_respects(s: Sudoku, a: Seq<Seq<int>>, x: int, y: int) -> bool {
    match tile_at(s, x, y) {
        Tile::Num(v) => a[x][y] == v as int,
        Tile::Void => cand(s, x, y, a[x][y]),
    }
}

/// The board state still admits the assignment `a`: a valid complete
/// assignment that agrees with every placed tile and whose digit at every
/// empty cell is still a candidate there.  Sound deductions never change
/// the set of admitted assignments.
pub open spec fn admits(s: Sudoku, a: Seq<Seq<int>>) -> bool {
    &&& grid_wf(a)
    &&& latin_ok(a)
    &&& forall|x: int, y: int| in_grid(x, y) ==> #[trigger] cell_respects(s, a, x, y)
}

/// `a` agrees with every placed tile of the board.
pub open spec fn extends_tiles(s: Sudoku, a: Seq<Seq<int>>) -> bool {
    forall|x: int, y: int|
        in_grid(x, y) ==> match #[trigger] tile_at(s, x, y) {
            Tile::Num(v) => a[x][y] == v as int,
            Tile::Void => true,
        }
}

/// `a` is a solution of the puzzle the placed tiles pose: a valid complete
/// assignment extending them, with no reference to candidate state.
pub open spec fn is_solution_of(s: Sudoku, a: Seq<Seq<int>>) -> bool {
    grid_wf(a) && latin_ok(a) && extends_tiles(s, a)
}

/// The digit grid a complete board spells out (empty cells read as 0, but
/// a complete board has none).
pub open spec fn board_grid(s: Sudoku) -> Seq<Seq<int>> {
    Seq::new(
        9,
        |x: int|
            Seq::new(
                9,
                |y: int|
                    match tile_at(s, x, y) {
                        Tile::Num(v) => v as int,
                        Tile::Void => 0,
                    },
            ),
    )
}

/// On a freshly built board, whose candidates are maximal, the admitted
/// assignments are exactly the solutions of the puzzle its tiles pose.
pub proof fn lemma_fresh_admits_solutions(s: Sudoku, a: Seq<Seq<int>>)
    requires
        fresh_cands(s),
    ensures
        admits(s, a) == is_solution_of(s, a),
{
    if admits(s, a) {
        assert forall|x: int, y: int| in_grid(x, y) implies match #[trigger] tile_at(s, x, y) {
            Tile::Num(v) => a[x][y] == v as int,
            Tile::Void => true,
        } by {
            assert(cell_respects(s, a, x, y));
        }
    }
    if is_solution_of(s, a) {
        assert forall|x: int, y: int| in_grid(x, y) implies #[trigger] cell_respects(
            s,
            a,
            x,
            y,
        ) by {
            match tile_at(s, x, y) {
                Tile::Num(v) => {},
                Tile::Void => {
                    let d = a[x][y];
                    assert(is_digit(d));
                    assert(!digit_in_peers(s, x, y, d)) by {
                        if digit_in_peers(s, x, y, d) {
                            let (p, q) = choose|p: int, q: int|
                                peers(x, y, p, q) && #[trigger] tile_at(s, p, q) == Tile::Num(
                                    d as usize,
                                );
                            assert(a[p][q] == d);
                            assert(a[x][y] != a[p][q]);
                        }
                    }
                    assert(cand(s, x, y, d));
                },
            }
        }
    }
}

/// A complete board with no clashing placed digits admits exactly the
/// assignment it spells out.
pub proof fn lemma_complete_admits(s: Sudoku)
    requires
        wf(s),
        crate::board::placed_ok(s),
        crate::board::complete(s),
    ensures
        admits(s, board_grid(s)),
{
    let a = board_grid(s);
    assert(grid_wf(a)) by {
        assert forall|x: int, y: int| in_grid(x, y) implies is_digit(#[trigger] a[x][y]) by {
            assert(!(tile_at(s, x, y) is Void));
        }
    }
    assert(latin_ok(a)) by {
        assert forall|x: int, y: int, x2: int, y2: int| #[trigger] peers(x, y, x2, y2) implies a[x][y]
            != a[x2][y2] by {
            assert(!(tile_at(s, x, y) is Void));
            assert(!(tile_at(s, x2, y2) is Void));
            assert(tile_at(s, x, y) != tile_at(s, x2, y2));
        }
    }
    assert forall|x: int, y: int| in_grid(x, y) implies #[trigger] cell_respects(s, a, x, y) by {
        assert(!(tile_at(s, x, y) is Void));
    }
}

/// A complete board admits no assignment but the one it spells out.
pub proof fn lemma_complete_unique(s: Sudoku, a: Seq<Seq<int>>)
    requires
        crate::board::complete(s),
        admits(s, a),
    ensures
        a == board_grid(s),
{
    assert forall|x: int| 0 <= x < 9 implies a[x] == board_grid(s)[x] by {
        assert forall|y: int| 0 <= y < 9 implies a[x][y] == board_grid(s)[x][y] by {
            assert(cell_respects(s, a, x, y));
            assert(!(tile_at(s, x, y) is Void));
        }
        assert(a[x] =~= board_grid(s)[x]);
    }
    assert(a =~= board_grid(s));
}

/// Placing digit `v` at the empty cell `(x, y)` restricts the admitted
/// assignments to exactly those that put `v` there, provided `v` was still
/// a candidate; placements of a candidate digit lose nothing else.
pub proof fn lemma_place_admits(pre: Sudoku, post: Sudoku, x: int, y: int, v: int)
    requires
        in_grid(x, y),
        is_digit(v),
        tile_at(pre, x, y) is Void,
        tile_at(post, x, y) == Tile::Num(v as usize),
        forall|i: int, j: int|
            in_grid(i, j) && !(i == x && j == y) ==> #[trigger] tile_at(post, i, j) == tile_at(
                pre,
                i,
                j,
            ),
        forall|i: int, j: int, d: int|
            in_grid(i, j) && is_digit(d) ==> #[trigger] cand(post, i, j, d) == (cand(pre, i, j, d)
                && !((i == x && j == y) || (d == v && in_unit_of(i, j, x, y)))),
    ensures
        forall|a: Seq<Seq<int>>| admits(pre, a) && a[x][y] == v ==> #[trigger] admits(post, a),
        cand(pre, x, y, v) ==> forall|a: Seq<Seq<int>>|
            #[trigger] admits(post, a) ==> admits(pre, a) && a[x][y] == v,
{
    assert forall|a: Seq<Seq<int>>| admits(pre, a) && a[x][y] == v implies #[trigger] admits(
        post,
        a,
    ) by {
        assert forall|i: int, j: int| in_grid(i, j) implies #[trigger] cell_respects(
            post,
            a,
            i,
            j,
        ) by {
            assert(cell_respects(pre, a, i, j));
            if i == x && j == y {
            } else {
                match tile_at(post, i, j) {
                    Tile::Num(_) => {},
                    Tile::Void => {
                        assert(is_digit(a[i][j]));
                        if a[i][j] == v && in_unit_of(i, j, x, y) {
                            assert(peers(i, j, x, y));
                            assert(a[i][j] != a[x][y]);
                            assert(false);
                        }
                        assert(cand(post, i, j, a[i][j]));
                    },
                }
            }
        }
    }
    if cand(pre, x, y, v) {
        assert forall|a: Seq<Seq<int>>| #[trigger] admits(post, a) implies admits(pre, a) && a[x][y]
            == v by {
            assert(cell_respects(post, a, x, y));
            assert(a[x][y] == v);
            assert forall|i: int, j: int| in_grid(i, j) implies #[trigger] cell_respects(
                pre,
                a,
                i,
                j,
            ) by {
                assert(cell_respects(post, a, i, j));
                if i == x && j == y {
                    assert(cand(pre, x, y, v));
                } else {
                    match tile_at(pre, i, j) {
                        Tile::Num(_) => {},
                        Tile::Void => {
                            assert(is_digit(a[i][j]));
                            assert(cand(post, i, j, a[i][j]));
                            assert(cand(pre, i, j, a[i][j]));
                        },
                    }
                }
            }
        }
    }
}

/// Eliminating a candidate that no admitted assignment uses leaves the
/// admitted set exactly as it was.
pub proof fn lemma_remove_admits(pre: Sudoku, post: Sudoku, x: int, y: int, num: int)
    requires
        in_grid(x, y),
        is_digit(num),
        post.board == pre.board,
        forall|i: int, j: int, d: int|
            in_grid(i, j) && is_digit(d) ==> #[trigger] cand(post, i, j, d) == (cand(pre, i, j, d)
                && !(i == x && j == y && d == num)),
        forall|a: Seq<Seq<int>>|
            #[trigger] admits(pre, a) && tile_at(pre, x, y) is Void ==> a[x][y] != num,
    ensures
        forall|a: Seq<Seq<int>>|
            #![trigger admits(pre, a)]
            #![trigger admits(post, a)]
            admits(post, a) == admits(pre, a),
{
    assert forall|a: Seq<Seq<int>>|
        #![trigger admits(pre, a)]
        #![trigger admits(post, a)]
        admits(post, a) == admits(pre, a) by {
        if admits(pre, a) {
            assert forall|i: int, j: int| in_grid(i, j) implies #[trigger] cell_respects(
                post,
                a,
                i,
                j,
            ) by {
                assert(cell_respects(pre, a, i, j));
                assert(tile_at(post, i, j) == tile_at(pre, i, j));
                match tile_at(pre, i, j) {
                    Tile::Num(_) => {},
                    Tile::Void => {
                        assert(is_digit(a[i][j]));
                        if i == x && j == y {
                            assert(a[x][y] != num);
                        }
                        assert(cand(post, i, j, a[i][j]));
                    },
                }
            }
            assert(admits(post, a));
        }
        if admits(post, a) {
            assert forall|i: int, j: int| in_grid(i, j) implies #[trigger] cell_respects(
                pre,
                a,
                i,
                j,
            ) by {
                assert(cell_respects(post, a, i, j));
                assert(tile_at(post, i, j) == tile_at(pre, i, j));
                match tile_at(pre, i, j) {
                    Tile::Num(_) => {},
                    Tile::Void => {
                        assert(is_digit(a[i][j]));
                        assert(cand(post, i, j, a[i][j]));
                    },
                }
            }
            assert(admits(pre, a));
        }
    }
}

/// Which assignments a board admits does not depend on its clue counter.
pub proof fn lemma_admits_clues_irrelevant(s1: Sudoku, s2: Sudoku)
    requires
        s2.board == s1.board,
        s2.possible == s1.possible,
    ensures
        forall|a: Seq<Seq<int>>|
            #![trigger admits(s1, a)]
            #![trigger admits(s2, a)]
            admits(s2, a) == admits(s1, a),
{
    assert forall|a: Seq<Seq<int>>|
        #![trigger admits(s1, a)]
        #![trigger admits(s2, a)]
        admits(s2, a) == admits(s1, a) by {
        if admits(s1, a) {
            assert forall|x: int, y: int| in_grid(x, y) implies #[trigger] cell_respects(
                s2,
                a,
                x,
                y,
            ) by {
                assert(cell_respects(s1, a, x, y));
                assert(tile_at(s2, x, y) == tile_at(s1, x, y));
            }
        }
        if admits(s2, a) {
            assert forall|x: int, y: int| in_grid(x, y) implies #[trigger] cell_respects(
                s1,
                a,
                x,
                y,
            ) by {
                assert(cell_respects(s2, a, x, y));
                assert(tile_at(s2, x, y) == tile_at(s1, x, y));
            }
        }
    }
}

/// Clashing clues admit nothing: two peer cells holding the same placed
/// digit contradict any valid assignment that extends the board.
pub proof fn lemma_clash_no_admits(s: Sudoku)
    requires
        !crate::board::placed_ok(s),
    ensures
        forall|a: Seq<Seq<int>>| !admits(s, a),
{
    let (px, py, qx, qy) = choose|px: int, py: int, qx: int, qy: int|
        #![trigger peers(px, py, qx, qy)]
        peers(px, py, qx, qy) && !(tile_at(s, px, py) is Void) && tile_at(s, px, py) == tile_at(
            s,
            qx,
            qy,
        );
    assert forall|a: Seq<Seq<int>>| !admits(s, a) by {
        if admits(s, a) {
            assert(cell_respects(s, a, px, py));
            assert(cell_respects(s, a, qx, qy));
            assert(a[px][py] == a[qx][qy]);
            assert(a[px][py] != a[qx][qy]);
        }
    }
}

/// Nine pairwise distinct digits drawn from 1 through 9 cover them all.
proof fn lemma_nine_distinct_digits_cover(s: Seq<int>, d: int)
    requires
        s.len() == 9,
        forall|k: int| 0 <= k < 9 ==> is_digit(#[trigger] s[k]),
        forall|k1: int, k2: int| 0 <= k1 < 9 && 0 <= k2 < 9 && k1 != k2 ==> s[k1] != s[k2],
        is_digit(d),
    ensures
        exists|k: int| 0 <= k < 9 && s[k] == d,
{
    assert(s.no_duplicates());
    s.unique_seq_to_set();
    broadcast use vstd::seq_lib::seq_to_set_is_finite;

    let ts = s.to_set();
    let digits = set_int_range(1, 10);
    lemma_int_range(1, 10);
    assert(ts.subset_of(digits)) by {
        assert forall|e: int| ts.contains(e) implies digits.contains(e) by {
            assert(s.contains(e));
            let k = choose|k: int| 0 <= k < s.len() && s[k] == e;
            assert(is_digit(s[k]));
        }
    }
    lemma_subset_equality(ts, digits);
    assert(digits.contains(d));
    assert(ts.contains(d));
    assert(s.contains(d));
}

/// If digit `d` is still a candidate somewhere in column `x`, then any
/// admitted assignment places `d` in that column at an empty cell where it
/// is still a candidate.
pub proof fn lemma_column_digit_at_cand(
    s: Sudoku,
    a: Seq<Seq<int>>,
    x: int,
    d: int,
    y0: int,
)
    requires
        wf(s),
        admits(s, a),
        in_grid(x, y0),
        is_digit(d),
        cand(s, x, y0, d),
    ensures
        exists|y: int|
            0 <= y < 9 && #[trigger] a[x][y] == d && tile_at(s, x, y) is Void && cand(s, x, y, d),
{
    let sq = Seq::new(9, |k: int| a[x][k]);
    assert forall|k1: int, k2: int|
        0 <= k1 < 9 && 0 <= k2 < 9 && k1 != k2 implies sq[k1] != sq[k2] by {
        assert(peers(x, k1, x, k2));
    }
    lemma_nine_distinct_digits_cover(sq, d);
    let k = choose|k: int| 0 <= k < 9 && sq[k] == d;
    assert(a[x][k] == d);
    assert(cell_respects(s, a, x, k));
    match tile_at(s, x, k) {
        Tile::Num(w) => {
            assert(w as int == d);
            if k == y0 {
                assert(!cand(s, x, y0, d));
            } else {
                assert(peers(x, y0, x, k));
                assert(tile_at(s, x, k) != Tile::Num(d as usize));
            }
            assert(false);
        },
        Tile::Void => {
            assert(cand(s, x, k, d));
        },
    }
}

/// The same for row `y`.
pub proof fn lemma_row_digit_at_cand(s: Sudoku, a: Seq<Seq<int>>, y: int, d: int, x0: int)
    requires
        wf(s),
        admits(s, a),
        in_grid(x0, y),
        is_digit(d),
        cand(s, x0, y, d),
    ensures
        exists|x: int|
            0 <= x < 9 && #[trigger] a[x][y] == d && tile_at(s, x, y) is Void && cand(s, x, y, d),
{
    let sq = Seq::new(9, |k: int| a[k][y]);
    assert forall|k1: int, k2: int|
        0 <= k1 < 9 && 0 <= k2 < 9 && k1 != k2 implies sq[k1] != sq[k2] by {
        assert(peers(k1, y, k2, y));
    }
    lemma_nine_distinct_digits_cover(sq, d);
    let k = choose|k: int| 0 <= k < 9 && sq[k] == d;
    assert(a[k][y] == d);
    assert(cell_respects(s, a, k, y));
    match tile_at(s, k, y) {
        Tile::Num(w) => {
            assert(w as int == d);
            if k == x0 {
                assert(!cand(s, x0, y, d));
            } else {
                assert(peers(x0, y, k, y));
                assert(tile_at(s, k, y) != Tile::Num(d as usize));
            }
            assert(false);
        },
        Tile::Void => {
            assert(cand(s, k, y, d));
        },
    }
}

/// If digit `d` is placed nowhere in column `x`, any admitted assignment
/// places it there at an empty cell where it is still a candidate.
pub proof fn lemma_column_digit_unplaced(s: Sudoku, a: Seq<Seq<int>>, x: int, d: int)
    requires
        wf(s),
        admits(s, a),
        0 <= x < 9,
        is_digit(d),
        forall|p: int| 0 <= p < 9 ==> #[trigger] tile_at(s, x, p) != Tile::Num(d as usize),
    ensures
        exists|y: int|
            0 <= y < 9 && #[trigger] a[x][y] == d && tile_at(s, x, y) is Void && cand(s, x, y, d),
{
    let sq = Seq::new(9, |k: int| a[x][k]);
    assert forall|k1: int, k2: int|
        0 <= k1 < 9 && 0 <= k2 < 9 && k1 != k2 implies sq[k1] != sq[k2] by {
        assert(peers(x, k1, x, k2));
    }
    lemma_nine_distinct_digits_cover(sq, d);
    let k = choose|k: int| 0 <= k < 9 && sq[k] == d;
    assert(a[x][k] == d);
    assert(cell_respects(s, a, x, k));
    match tile_at(s, x, k) {
        Tile::Num(w) => {
            assert(w as int == d);
            assert(tile_at(s, x, k) != Tile::Num(d as usize));
            assert(false);
        },
        Tile::Void => {
            assert(cand(s, x, k, d));
        },
    }
}

/// The same for row `y`.
pub proof fn lemma_row_digit_unplaced(s: Sudoku, a: Seq<Seq<int>>, y: int, d: int)
    requires
        wf(s),
        admits(s, a),
        0 <= y < 9,
        is_digit(d),
        forall|p: int| 0 <= p < 9 ==> #[trigger] tile_at(s, p, y) != Tile::Num(d as usize),
    ensures
        exists|x: int|
            0 <= x < 9 && #[trigger] a[x][y] == d && tile_at(s, x, y) is Void && cand(s, x, y, d),
{
    let sq = Seq::new(9, |k: int| a[k][y]);
    assert forall|k1: int, k2: int|
        0 <= k1 < 9 && 0 <= k2 < 9 && k1 != k2 implies sq[k1] != sq[k2] by {
        assert(peers(k1, y, k2, y));
    }
    lemma_nine_distinct_digits_cover(sq, d);
    let k = choose|k: int| 0 <= k < 9 && sq[k] == d;
    assert(a[k][y] == d);
    assert(cell_respects(s, a, k, y));
    match tile_at(s, k, y) {
        Tile::Num(w) => {
            assert(w as int == d);
            assert(tile_at(s, k, y) != Tile::Num(d as usize));
            assert(false);
        },
        Tile::Void => {
            assert(cand(s, k, y, d));
        },
    }
}

/// The cell of box `b` at in-box scan position `k`, column-within first.
pub open spec fn box_cell_x(b: int, k: int) -> int {
    3 * (b % 3) + k % 3
}

pub open spec fn box_cell_y(b: int, k: int) -> int {
    3 * (b / 3) + k / 3
}

/// The box enumeration hits the grid, stays in its box, and is injective.
pub proof fn lemma_box_enum(b: int, k: int)
    requires
        0 <= b < 9,
        0 <= k < 9,
    ensures
        in_grid(box_cell_x(b, k), box_cell_y(b, k)),
        box_of(box_cell_x(b, k), box_cell_y(b, k)) == b,
        box_cell_x(b, k) % 3 == k % 3,
        box_cell_y(b, k) % 3 == k / 3,
{
    let x = box_cell_x(b, k);
    let y = box_cell_y(b, k);
    assert(x % 3 == k % 3 && x / 3 == b % 3) by (nonlinear_arith)
        requires
            0 <= b < 9,
            0 <= k < 9,
            x == 3 * (b % 3) + k % 3,
    ;
    assert(y % 3 == k / 3 && y / 3 == b / 3) by (nonlinear_arith)
        requires
            0 <= b < 9,
            0 <= k < 9,
            y == 3 * (b / 3) + k / 3,
    ;
    assert(b == 3 * (b / 3) + b % 3);
}

/// If digit `d` is placed nowhere in box `b`, any admitted assignment
/// places it there at an empty cell where it is still a candidate.
pub proof fn lemma_box_digit_unplaced(s: Sudoku, a: Seq<Seq<int>>, b: int, d: int)
    requires
        wf(s),
        admits(s, a),
        0 <= b < 9,
        is_digit(d),
        forall|p: int, q: int|
            in_grid(p, q) && box_of(p, q) == b ==> #[trigger] tile_at(s, p, q) != Tile::Num(
                d as usize,
            ),
    ensures
        exists|i: int, j: int|
            in_grid(i, j) && box_of(i, j) == b && #[trigger] a[i][j] == d && tile_at(s, i, j)
                is Void && cand(s, i, j, d),
{
    let sq = Seq::new(9, |k: int| a[box_cell_x(b, k)][box_cell_y(b, k)]);
    assert forall|k1: int, k2: int|
        0 <= k1 < 9 && 0 <= k2 < 9 && k1 != k2 implies sq[k1] != sq[k2] by {
        lemma_box_enum(b, k1);
        lemma_box_enum(b, k2);
        assert(!(box_cell_x(b, k1) == box_cell_x(b, k2) && box_cell_y(b, k1) == box_cell_y(
            b,
            k2,
        ))) by {
            if box_cell_x(b, k1) == box_cell_x(b, k2) && box_cell_y(b, k1) == box_cell_y(b, k2) {
                assert(k1 % 3 == k2 % 3 && k1 / 3 == k2 / 3);
                assert(k1 == 3 * (k1 / 3) + k1 % 3);
                assert(k2 == 3 * (k2 / 3) + k2 % 3);
            }
        }
        assert(peers(box_cell_x(b, k1), box_cell_y(b, k1), box_cell_x(b, k2), box_cell_y(b, k2)));
    }
    assert forall|k: int| 0 <= k < 9 implies is_digit(#[trigger] sq[k]) by {
        lemma_box_enum(b, k);
    }
    lemma_nine_distinct_digits_cover(sq, d);
    let k = choose|k: int| 0 <= k < 9 && sq[k] == d;
    lemma_box_enum(b, k);
    let i = box_cell_x(b, k);
    let j = box_cell_y(b, k);
    assert(a[i][j] == d);
    assert(cell_respects(s, a, i, j));
    match tile_at(s, i, j) {
        Tile::Num(w) => {
            assert(w as int == d);
            assert(tile_at(s, i, j) != Tile::Num(d as usize));
            assert(false);
        },
        Tile::Void => {
            assert(cand(s, i, j, d));
        },
    }
}

/// The same for the box containing `(x0, y0)`.
pub proof fn lemma_box_digit_at_cand(s: Sudoku, a: Seq<Seq<int>>, x0: int, y0: int, d: int)
    requires
        wf(s),
        admits(s, a),
        in_grid(x0, y0),
        is_digit(d),
        cand(s, x0, y0, d),
    ensures
        exists|i: int, j: int|
            in_grid(i, j) && box_of(i, j) == box_of(x0, y0) && #[trigger] a[i][j] == d && tile_at(
                s,
                i,
                j,
            ) is Void && cand(s, i, j, d),
{
    let b = box_of(x0, y0);
    assert(0 <= b < 9);
    let sq = Seq::new(9, |k: int| a[box_cell_x(b, k)][box_cell_y(b, k)]);
    assert forall|k1: int, k2: int|
        0 <= k1 < 9 && 0 <= k2 < 9 && k1 != k2 implies sq[k1] != sq[k2] by {
        lemma_box_enum(b, k1);
        lemma_box_enum(b, k2);
        assert(!(box_cell_x(b, k1) == box_cell_x(b, k2) && box_cell_y(b, k1) == box_cell_y(
            b,
            k2,
        ))) by {
            if box_cell_x(b, k1) == box_cell_x(b, k2) && box_cell_y(b, k1) == box_cell_y(b, k2) {
                assert(k1 % 3 == k2 % 3 && k1 / 3 == k2 / 3);
                assert(k1 == 3 * (k1 / 3) + k1 % 3);
                assert(k2 == 3 * (k2 / 3) + k2 % 3);
            }
        }
        assert(peers(box_cell_x(b, k1), box_cell_y(b, k1), box_cell_x(b, k2), box_cell_y(b, k2)));
    }
    assert forall|k: int| 0 <= k < 9 implies is_digit(#[trigger] sq[k]) by {
        lemma_box_enum(b, k);
    }
    lemma_nine_distinct_digits_cover(sq, d);
    let k = choose|k: int| 0 <= k < 9 && sq[k] == d;
    lemma_box_enum(b, k);
    let i = box_cell_x(b, k);
    let j = box_cell_y(b, k);
    assert(a[i][j] == d);
    assert(cell_respects(s, a, i, j));
    match tile_at(s, i, j) {
        Tile::Num(w) => {
            assert(w as int == d);
            if i == x0 && j == y0 {
                assert(!cand(s, x0, y0, d));
            } else {
                assert(peers(x0, y0, i, j));
                assert(tile_at(s, i, j) != Tile::Num(d as usize));
            }
            assert(false);
        },
        Tile::Void => {
            assert(cand(s, i, j, d));
        },
    }
}

} // verus!
