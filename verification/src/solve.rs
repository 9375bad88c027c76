//! The deduction rules and the solving entry points.  Every rule is sound:
//! it leaves the set of admitted assignments exactly as it found it, so
//! whatever the search concludes about the final state holds of the
//! original puzzle.

use vstd::prelude::*;
use crate::bits::has_bit;
use crate::bits::lemma_scan_step;
use crate::bits::lemma_shift_zero;
use crate::board::Sudoku;
use crate::board::Tile;
use crate::board::box_of;
use crate::board::box_slot;
use crate::board::cand;
use crate::board::col_bit;
use crate::board::complete;
use crate::board::empty_count;
use crate::board::in_grid;
use crate::board::in_unit_of;
use crate::board::is_digit;
use crate::board::lemma_box_slot_injective;
use crate::board::peers;
use crate::board::placed_ok;
use crate::board::row_bit;
use crate::board::box_bit;
use crate::board::tile_at;
use crate::board::views_agree;
use crate::board::wf;
use crate::model::admits;
use crate::model::cell_respects;
use crate::model::lemma_box_digit_at_cand;
use crate::model::lemma_column_digit_unplaced;
use crate::model::lemma_row_digit_unplaced;
use crate::model::lemma_column_digit_at_cand;
use crate::model::lemma_place_admits;
use crate::model::lemma_remove_admits;
use crate::model::lemma_row_digit_at_cand;

verus! {

/// The exact outcome of a search: no solution, exactly one (with the
/// solved board as witness), or provably more than one.
#[derive(Copy, Clone, PartialEq, Debug)]
pub enum SolutionCount {
    Zero,
    One(Sudoku),
    Multiple,
}

/// What every deduction step guarantees: the board invariant still holds,
/// the clue counter is untouched, cells only get filled, a board without
/// clashing placed digits stays that way, and the set of admitted
/// assignments is exactly preserved.
pub open spec fn sound_step(pre: Sudoku, post: Sudoku) -> bool {
    &&& wf(post)
    &&& post.clues == pre.clues
    &&& empty_count(post) <= empty_count(pre)
    &&& (placed_ok(pre) ==> placed_ok(post))
    &&& forall|i: int, j: int|
        in_grid(i, j) && !(tile_at(pre, i, j) is Void) ==> #[trigger] tile_at(post, i, j)
            == tile_at(pre, i, j)
    &&& forall|i: int, j: int, d: int|
        in_grid(i, j) && is_digit(d) && #[trigger] cand(post, i, j, d) ==> cand(pre, i, j, d)
    &&& forall|a: Seq<Seq<int>>|
        #![trigger admits(pre, a)]
        #![trigger admits(post, a)]
        admits(post, a) == admits(pre, a)
}


/// Some row of column `x` is the only one that can still take digit `d`.
pub open spec fn column_forced(s: Sudoku, x: int, d: int) -> bool {
    exists|y: int|
        0 <= y < 9 && #[trigger] cand(s, x, y, d) && (forall|y2: int|
            0 <= y2 < 9 && #[trigger] cand(s, x, y2, d) ==> y2 == y)
}

/// Some column of row `y` is the only one that can still take digit `d`.
pub open spec fn row_forced(s: Sudoku, y: int, d: int) -> bool {
    exists|x: int|
        0 <= x < 9 && #[trigger] cand(s, x, y, d) && (forall|x2: int|
            0 <= x2 < 9 && #[trigger] cand(s, x2, y, d) ==> x2 == x)
}

/// Some cell of box `b` is the only one that can still take digit `d`.
pub open spec fn box_forced(s: Sudoku, b: int, d: int) -> bool {
    exists|i: int, j: int|
        in_grid(i, j) && box_of(i, j) == b && #[trigger] cand(s, i, j, d) && (forall|
            i2: int,
            j2: int,
        |
            in_grid(i2, j2) && box_of(i2, j2) == b && #[trigger] cand(s, i2, j2, d) ==> i2 == i
                && j2 == j)
}

/// The cell `(x, y)` has exactly two candidates left.
pub open spec fn cell_pair_cands(s: Sudoku, x: int, y: int) -> bool {
    exists|d1: int, d2: int|
        #![trigger cand(s, x, y, d1), cand(s, x, y, d2)]
        is_digit(d1) && is_digit(d2) && d1 < d2 && cand(s, x, y, d1) && cand(s, x, y, d2) && (
        forall|e: int| is_digit(e) && #[trigger] cand(s, x, y, e) ==> e == d1 || e == d2)
}

/// The cell `(x, y)` is empty with exactly one candidate left.
pub open spec fn cell_forced(s: Sudoku, x: int, y: int) -> bool {
    tile_at(s, x, y) is Void && exists|d: int|
        is_digit(d) && #[trigger] cand(s, x, y, d) && (forall|e: int|
            is_digit(e) && #[trigger] cand(s, x, y, e) ==> e == d)
}

/// The cell of the box with corner `(3 bi, 3 bj)` at offsets `(dx, dy)`.
proof fn lemma_box_coords(bi: int, bj: int, dx: int, dy: int)
    requires
        0 <= bi < 3,
        0 <= bj < 3,
        0 <= dx < 3,
        0 <= dy < 3,
    ensures
        in_grid(3 * bi + dx, 3 * bj + dy),
        box_of(3 * bi + dx, 3 * bj + dy) == bi + 3 * bj,
        box_slot(3 * bi + dx, 3 * bj + dy) == dx + 3 * dy,
{
    let x = 3 * bi + dx;
    let y = 3 * bj + dy;
    assert(x % 3 == dx && x / 3 == bi) by (nonlinear_arith)
        requires
            0 <= bi < 3,
            0 <= dx < 3,
            x == 3 * bi + dx,
    ;
    assert(y % 3 == dy && y / 3 == bj) by (nonlinear_arith)
        requires
            0 <= bj < 3,
            0 <= dy < 3,
            y == 3 * bj + dy,
    ;
}

/// A recorded naked pair stays usable: its cell is still empty and its
/// candidate set still lies within the recorded two digits.  Entries that
/// are not a pair of digits carry no claim.
spec fn pair_entry_ok(e: ((Tile, Tile), usize, usize), s: Sudoku) -> bool {
    match e {
        ((Tile::Num(pa), Tile::Num(pb)), ex, ey) => {
            &&& ex < 9 && ey < 9
            &&& is_digit(pa as int) && is_digit(pb as int) && pa != pb
            &&& tile_at(s, ex as int, ey as int) is Void
            &&& forall|d: int|
                is_digit(d) && cand(s, ex as int, ey as int, d) ==> d == pa as int || d
                    == pb as int
        },
        _ => true,
    }
}

spec fn pair_list_ok(list: Seq<((Tile, Tile), usize, usize)>, s: Sudoku) -> bool {
    forall|k: int| 0 <= k < list.len() ==> pair_entry_ok(#[trigger] list[k], s)
}

/// Every recorded pair was found at a cell scanned strictly before
/// `(x, y)` in column-major order.
spec fn pair_list_before(list: Seq<((Tile, Tile), usize, usize)>, x: int, y: int) -> bool {
    forall|k: int|
        0 <= k < list.len() ==> (((#[trigger] list[k]).1 as int) < x || ((list[k].1 as int) == x
            && (list[k].2 as int) < y))
}

/// Shrinking candidates while leaving the tiles alone keeps every recorded
/// naked pair usable.
proof fn lemma_pair_list_shrink(list: Seq<((Tile, Tile), usize, usize)>, pre: Sudoku, post: Sudoku)
    requires
        pair_list_ok(list, pre),
        post.board == pre.board,
        forall|i: int, j: int, d: int|
            in_grid(i, j) && is_digit(d) && #[trigger] cand(post, i, j, d) ==> cand(pre, i, j, d),
    ensures
        pair_list_ok(list, post),
{
    assert forall|k: int| 0 <= k < list.len() implies pair_entry_ok(#[trigger] list[k], post) by {
        assert(pair_entry_ok(list[k], pre));
        match list[k] {
            ((Tile::Num(pa), Tile::Num(pb)), ex, ey) => {
                assert(tile_at(post, ex as int, ey as int) == tile_at(pre, ex as int, ey as int));
                assert forall|d: int|
                    is_digit(d) && cand(post, ex as int, ey as int, d) implies d == pa as int || d
                        == pb as int by {
                    assert(cand(pre, ex as int, ey as int, d));
                }
            },
            _ => {},
        }
    }
}

/// Two cells that form a naked pair pin its two digits: every admitted
/// assignment puts one digit on each, so no other cell of a shared unit
/// can take either.
proof fn lemma_pair_forces(
    s: Sudoku,
    px: int,
    py: int,
    qx: int,
    qy: int,
    pa: int,
    pb: int,
)
    requires
        wf(s),
        peers(px, py, qx, qy),
        is_digit(pa),
        is_digit(pb),
        pa != pb,
        tile_at(s, px, py) is Void,
        tile_at(s, qx, qy) is Void,
        forall|d: int| is_digit(d) && #[trigger] cand(s, px, py, d) ==> d == pa || d == pb,
        forall|d: int| is_digit(d) && #[trigger] cand(s, qx, qy, d) ==> d == pa || d == pb,
    ensures
        forall|a: Seq<Seq<int>>|
            #[trigger] admits(s, a) ==> (a[px][py] == pa || a[px][py] == pb) && (a[qx][qy] == pa
                || a[qx][qy] == pb) && a[px][py] != a[qx][qy],
{
    assert forall|a: Seq<Seq<int>>| #[trigger] admits(s, a) implies (a[px][py] == pa || a[px][py]
        == pb) && (a[qx][qy] == pa || a[qx][qy] == pb) && a[px][py] != a[qx][qy] by {
        assert(cell_respects(s, a, px, py));
        assert(cell_respects(s, a, qx, qy));
        assert(is_digit(a[px][py]) && is_digit(a[qx][qy]));
        assert(cand(s, px, py, a[px][py]));
        assert(cand(s, qx, qy, a[qx][qy]));
    }
}

/// A mask has at most one decomposition into exactly three set bits.
proof fn lemma_three_bits_unique(m: u16, j0: u8, j1: u8, j2: u8, k0: u8, k1: u8, k2: u8)
    requires
        exactly_three_bits(m, j0, j1, j2),
        exactly_three_bits(m, k0, k1, k2),
    ensures
        k0 == j0 && k1 == j1 && k2 == j2,
{
    assert(has_bit(m, k0 as u16) && has_bit(m, k1 as u16) && has_bit(m, k2 as u16));
    assert(has_bit(m, j0 as u16) && has_bit(m, j1 as u16) && has_bit(m, j2 as u16));
}

/// A hidden triple the column scan would act on is already reduced: when
/// three digits all keep a position in column `x` and the union of their
/// column masks holds exactly three bits, those three cells hold no other
/// candidate.
pub open spec fn col_hidden_trip_reduced(s: Sudoku, x: int, d1: int, d2: int, d3: int) -> bool {
    ((exists|w: u16| w < 9 && #[trigger] has_bit(s.column_possible[x][d1 - 1], w)) && (exists|
        w: u16,
    | w < 9 && #[trigger] has_bit(s.column_possible[x][d2 - 1], w)) && (exists|w: u16|
        w < 9 && #[trigger] has_bit(s.column_possible[x][d3 - 1], w)))
        ==> forall|j0: u8, j1: u8, j2: u8, e: int|
        #![trigger exactly_three_bits(s.column_possible[x][d1 - 1] | s.column_possible[x][d2 - 1] | s.column_possible[x][d3 - 1], j0, j1, j2), cand(s, x, j0 as int, e)]
        exactly_three_bits(
            s.column_possible[x][d1 - 1] | s.column_possible[x][d2 - 1] | s.column_possible[x][d3
                - 1],
            j0,
            j1,
            j2,
        ) && is_digit(e) && e != d1 && e != d2 && e != d3 ==> !cand(s, x, j0 as int, e) && !cand(
            s,
            x,
            j1 as int,
            e,
        ) && !cand(s, x, j2 as int, e)
}

/// The row-scan counterpart.
pub open spec fn row_hidden_trip_reduced(s: Sudoku, y: int, d1: int, d2: int, d3: int) -> bool {
    ((exists|w: u16| w < 9 && #[trigger] has_bit(s.row_possible[y][d1 - 1], w)) && (exists|w: u16|
        w < 9 && #[trigger] has_bit(s.row_possible[y][d2 - 1], w)) && (exists|w: u16|
        w < 9 && #[trigger] has_bit(s.row_possible[y][d3 - 1], w)))
        ==> forall|j0: u8, j1: u8, j2: u8, e: int|
        #![trigger exactly_three_bits(s.row_possible[y][d1 - 1] | s.row_possible[y][d2 - 1] | s.row_possible[y][d3 - 1], j0, j1, j2), cand(s, j0 as int, y, e)]
        exactly_three_bits(
            s.row_possible[y][d1 - 1] | s.row_possible[y][d2 - 1] | s.row_possible[y][d3 - 1],
            j0,
            j1,
            j2,
        ) && is_digit(e) && e != d1 && e != d2 && e != d3 ==> !cand(s, j0 as int, y, e) && !cand(
            s,
            j1 as int,
            y,
            e,
        ) && !cand(s, j2 as int, y, e)
}

/// The box-scan counterpart, with cells named by in-box position.
pub open spec fn box_hidden_trip_reduced(s: Sudoku, b: int, d1: int, d2: int, d3: int) -> bool {
    ((exists|w: u16| w < 9 && #[trigger] has_bit(s.box_possible[b][d1 - 1], w)) && (exists|w: u16|
        w < 9 && #[trigger] has_bit(s.box_possible[b][d2 - 1], w)) && (exists|w: u16|
        w < 9 && #[trigger] has_bit(s.box_possible[b][d3 - 1], w)))
        ==> forall|j0: u8, j1: u8, j2: u8, e: int|
        #![trigger exactly_three_bits(s.box_possible[b][d1 - 1] | s.box_possible[b][d2 - 1] | s.box_possible[b][d3 - 1], j0, j1, j2), cand(s, crate::model::box_cell_x(b, j0 as int), crate::model::box_cell_y(b, j0 as int), e)]
        exactly_three_bits(
            s.box_possible[b][d1 - 1] | s.box_possible[b][d2 - 1] | s.box_possible[b][d3 - 1],
            j0,
            j1,
            j2,
        ) && is_digit(e) && e != d1 && e != d2 && e != d3 ==> !cand(
            s,
            crate::model::box_cell_x(b, j0 as int),
            crate::model::box_cell_y(b, j0 as int),
            e,
        ) && !cand(
            s,
            crate::model::box_cell_x(b, j1 as int),
            crate::model::box_cell_y(b, j1 as int),
            e,
        ) && !cand(
            s,
            crate::model::box_cell_x(b, j2 as int),
            crate::model::box_cell_y(b, j2 as int),
            e,
        )
}

/// A hidden pair in a column: when two digits can only sit at the same two: if
/// digits `d1 < d2` have identical column masks in column `x`, no digit
/// between them shares that mask (the scan stops at the first equal mask),
/// and the mask holds exactly two bits, then the two cells hold no other
/// candidate.
pub open spec fn col_hidden_pair_reduced(s: Sudoku, x: int, d1: int, d2: int) -> bool {
    (s.column_possible[x][d1 - 1] == s.column_possible[x][d2 - 1] && (forall|dm: int|
        d1 < dm < d2 ==> s.column_possible[x][d1 - 1] != #[trigger] s.column_possible[x][dm - 1]))
        ==> forall|j0: u8, j1: u8, e: int|
        #![trigger exactly_two_bits(s.column_possible[x][d1 - 1], j0, j1), cand(s, x, j0 as int, e)]
        exactly_two_bits(s.column_possible[x][d1 - 1], j0, j1) && is_digit(e) && e != d1 && e != d2
            ==> !cand(s, x, j0 as int, e) && !cand(s, x, j1 as int, e)
}

/// The row-scan counterpart.
pub open spec fn row_hidden_pair_reduced(s: Sudoku, y: int, d1: int, d2: int) -> bool {
    (s.row_possible[y][d1 - 1] == s.row_possible[y][d2 - 1] && (forall|dm: int|
        d1 < dm < d2 ==> s.row_possible[y][d1 - 1] != #[trigger] s.row_possible[y][dm - 1]))
        ==> forall|j0: u8, j1: u8, e: int|
        #![trigger exactly_two_bits(s.row_possible[y][d1 - 1], j0, j1), cand(s, j0 as int, y, e)]
        exactly_two_bits(s.row_possible[y][d1 - 1], j0, j1) && is_digit(e) && e != d1 && e != d2
            ==> !cand(s, j0 as int, y, e) && !cand(s, j1 as int, y, e)
}

/// The box-scan counterpart, with cells named by in-box position.
pub open spec fn box_hidden_pair_reduced(s: Sudoku, b: int, d1: int, d2: int) -> bool {
    (s.box_possible[b][d1 - 1] == s.box_possible[b][d2 - 1] && (forall|dm: int|
        d1 < dm < d2 ==> s.box_possible[b][d1 - 1] != #[trigger] s.box_possible[b][dm - 1]))
        ==> forall|j0: u8, j1: u8, e: int|
        #![trigger exactly_two_bits(s.box_possible[b][d1 - 1], j0, j1), cand(s, crate::model::box_cell_x(b, j0 as int), crate::model::box_cell_y(b, j0 as int), e)]
        exactly_two_bits(s.box_possible[b][d1 - 1], j0, j1) && is_digit(e) && e != d1 && e != d2
            ==> !cand(
            s,
            crate::model::box_cell_x(b, j0 as int),
            crate::model::box_cell_y(b, j0 as int),
            e,
        ) && !cand(
            s,
            crate::model::box_cell_x(b, j1 as int),
            crate::model::box_cell_y(b, j1 as int),
            e,
        )
}

/// A hidden pair in a column: when two digits can only sit at the same two
/// rows of a column, every admitted assignment spends them on exactly
/// those two cells.
proof fn lemma_hidden_pair_forces_col(s: Sudoku, x: int, nf: int, ns: int, y0: int, y1: int)
    requires
        wf(s),
        0 <= x < 9,
        is_digit(nf),
        is_digit(ns),
        nf != ns,
        0 <= y0 < y1 < 9,
        forall|j: int| 0 <= j < 9 ==> (#[trigger] cand(s, x, j, nf) <==> (j == y0 || j == y1)),
        forall|j: int| 0 <= j < 9 ==> (#[trigger] cand(s, x, j, ns) <==> (j == y0 || j == y1)),
    ensures
        forall|a: Seq<Seq<int>>|
            #[trigger] admits(s, a) ==> (a[x][y0] == nf || a[x][y0] == ns) && (a[x][y1] == nf
                || a[x][y1] == ns),
{
    assert forall|a: Seq<Seq<int>>| #[trigger] admits(s, a) implies (a[x][y0] == nf || a[x][y0]
        == ns) && (a[x][y1] == nf || a[x][y1] == ns) by {
        lemma_column_digit_at_cand(s, a, x, nf, y0);
        let p = choose|p: int|
            0 <= p < 9 && #[trigger] a[x][p] == nf && tile_at(s, x, p) is Void && cand(s, x, p, nf);
        lemma_column_digit_at_cand(s, a, x, ns, y0);
        let q = choose|q: int|
            0 <= q < 9 && #[trigger] a[x][q] == ns && tile_at(s, x, q) is Void && cand(s, x, q, ns);
        assert(p == y0 || p == y1);
        assert(q == y0 || q == y1);
        assert(p != q);
    }
}

/// The same for a row.
proof fn lemma_hidden_pair_forces_row(s: Sudoku, y: int, nf: int, ns: int, x0: int, x1: int)
    requires
        wf(s),
        0 <= y < 9,
        is_digit(nf),
        is_digit(ns),
        nf != ns,
        0 <= x0 < x1 < 9,
        forall|j: int| 0 <= j < 9 ==> (#[trigger] cand(s, j, y, nf) <==> (j == x0 || j == x1)),
        forall|j: int| 0 <= j < 9 ==> (#[trigger] cand(s, j, y, ns) <==> (j == x0 || j == x1)),
    ensures
        forall|a: Seq<Seq<int>>|
            #[trigger] admits(s, a) ==> (a[x0][y] == nf || a[x0][y] == ns) && (a[x1][y] == nf
                || a[x1][y] == ns),
{
    assert forall|a: Seq<Seq<int>>| #[trigger] admits(s, a) implies (a[x0][y] == nf || a[x0][y]
        == ns) && (a[x1][y] == nf || a[x1][y] == ns) by {
        lemma_row_digit_at_cand(s, a, y, nf, x0);
        let p = choose|p: int|
            0 <= p < 9 && #[trigger] a[p][y] == nf && tile_at(s, p, y) is Void && cand(s, p, y, nf);
        lemma_row_digit_at_cand(s, a, y, ns, x0);
        let q = choose|q: int|
            0 <= q < 9 && #[trigger] a[q][y] == ns && tile_at(s, q, y) is Void && cand(s, q, y, ns);
        assert(p == x0 || p == x1);
        assert(q == x0 || q == x1);
        assert(p != q);
    }
}

/// The same for a box, with the two cells given by their coordinates.
proof fn lemma_hidden_pair_forces_box(
    s: Sudoku,
    nf: int,
    ns: int,
    c0x: int,
    c0y: int,
    c1x: int,
    c1y: int,
)
    requires
        wf(s),
        is_digit(nf),
        is_digit(ns),
        nf != ns,
        in_grid(c0x, c0y),
        in_grid(c1x, c1y),
        !(c0x == c1x && c0y == c1y),
        box_of(c1x, c1y) == box_of(c0x, c0y),
        forall|i: int, j: int|
            in_grid(i, j) && box_of(i, j) == box_of(c0x, c0y) ==> (#[trigger] cand(s, i, j, nf)
                <==> ((i == c0x && j == c0y) || (i == c1x && j == c1y))),
        forall|i: int, j: int|
            in_grid(i, j) && box_of(i, j) == box_of(c0x, c0y) ==> (#[trigger] cand(s, i, j, ns)
                <==> ((i == c0x && j == c0y) || (i == c1x && j == c1y))),
    ensures
        forall|a: Seq<Seq<int>>|
            #[trigger] admits(s, a) ==> (a[c0x][c0y] == nf || a[c0x][c0y] == ns) && (a[c1x][c1y]
                == nf || a[c1x][c1y] == ns),
{
    assert forall|a: Seq<Seq<int>>| #[trigger] admits(s, a) implies (a[c0x][c0y] == nf
        || a[c0x][c0y] == ns) && (a[c1x][c1y] == nf || a[c1x][c1y] == ns) by {
        lemma_box_digit_at_cand(s, a, c0x, c0y, nf);
        let (p, pj) = choose|p: int, pj: int|
            in_grid(p, pj) && box_of(p, pj) == box_of(c0x, c0y) && #[trigger] a[p][pj] == nf
                && tile_at(s, p, pj) is Void && cand(s, p, pj, nf);
        lemma_box_digit_at_cand(s, a, c0x, c0y, ns);
        let (q, qj) = choose|q: int, qj: int|
            in_grid(q, qj) && box_of(q, qj) == box_of(c0x, c0y) && #[trigger] a[q][qj] == ns
                && tile_at(s, q, qj) is Void && cand(s, q, qj, ns);
        assert((p == c0x && pj == c0y) || (p == c1x && pj == c1y));
        assert((q == c0x && qj == c0y) || (q == c1x && qj == c1y));
        assert(!(p == q && pj == qj));
    }
}

/// Mask-level form of the box hidden pair: two digits with identical box
/// masks holding exactly two bits pin the two named cells.
#[verifier::rlimit(60)]
proof fn lemma_box_hidden_pair(s0: Sudoku, b: int, nf: int, ns: int, j0: u8, j1: u8)
    requires
        wf(s0),
        0 <= b < 9,
        is_digit(nf),
        is_digit(ns),
        nf != ns,
        exactly_two_bits(s0.box_possible[b][nf - 1], j0, j1),
        s0.box_possible[b][ns - 1] == s0.box_possible[b][nf - 1],
    ensures
        forall|a: Seq<Seq<int>>|
            #[trigger] admits(s0, a) ==> (a[crate::model::box_cell_x(b, j0 as int)][crate::model::box_cell_y(b, j0 as int)] == nf
                || a[crate::model::box_cell_x(b, j0 as int)][crate::model::box_cell_y(b, j0 as int)] == ns) && (
            a[crate::model::box_cell_x(b, j1 as int)][crate::model::box_cell_y(b, j1 as int)] == nf
                || a[crate::model::box_cell_x(b, j1 as int)][crate::model::box_cell_y(b, j1 as int)] == ns),
{
    let m = s0.box_possible[b][nf - 1];
    let c0x = crate::model::box_cell_x(b, j0 as int);
    let c0y = crate::model::box_cell_y(b, j0 as int);
    let c1x = crate::model::box_cell_x(b, j1 as int);
    let c1y = crate::model::box_cell_y(b, j1 as int);
    crate::model::lemma_box_enum(b, j0 as int);
    crate::model::lemma_box_enum(b, j1 as int);
    assert(box_slot(c0x, c0y) == j0 as int && box_slot(c1x, c1y) == j1 as int);
    assert(!(c0x == c1x && c0y == c1y));
    assert forall|i: int, j: int|
        in_grid(i, j) && box_of(i, j) == box_of(c0x, c0y) implies (#[trigger] cand(s0, i, j, nf)
        <==> ((i == c0x && j == c0y) || (i == c1x && j == c1y))) && (#[trigger] cand(s0, i, j, ns)
        <==> ((i == c0x && j == c0y) || (i == c1x && j == c1y))) by {
        assert(box_bit(s0, i, j, nf) == cand(s0, i, j, nf));
        assert(box_bit(s0, i, j, ns) == cand(s0, i, j, ns));
        assert(0 <= box_slot(i, j) < 9);
        assert(has_bit(m, box_slot(i, j) as u16) == (box_slot(i, j) as u16 == j0 as u16
            || box_slot(i, j) as u16 == j1 as u16));
        if box_slot(i, j) == j0 as int {
            lemma_box_slot_injective(i, j, c0x, c0y);
        }
        if box_slot(i, j) == j1 as int {
            lemma_box_slot_injective(i, j, c1x, c1y);
        }
    }
    lemma_hidden_pair_forces_box(s0, nf, ns, c0x, c0y, c1x, c1y);
}

/// A hidden triple in a column: three digits confined to the same three
/// rows occupy exactly those three cells in any admitted assignment.
proof fn lemma_hidden_trip_forces_col(
    s: Sudoku,
    x: int,
    n1: int,
    n2: int,
    n3: int,
    y0: int,
    y1: int,
    y2: int,
)
    requires
        wf(s),
        0 <= x < 9,
        is_digit(n1),
        is_digit(n2),
        is_digit(n3),
        n1 != n2 && n1 != n3 && n2 != n3,
        0 <= y0 < y1 < y2 < 9,
        forall|p: int| 0 <= p < 9 ==> #[trigger] tile_at(s, x, p) != Tile::Num(n1 as usize),
        forall|p: int| 0 <= p < 9 ==> #[trigger] tile_at(s, x, p) != Tile::Num(n2 as usize),
        forall|p: int| 0 <= p < 9 ==> #[trigger] tile_at(s, x, p) != Tile::Num(n3 as usize),
        forall|j: int|
            0 <= j < 9 && #[trigger] cand(s, x, j, n1) ==> (j == y0 || j == y1 || j == y2),
        forall|j: int|
            0 <= j < 9 && #[trigger] cand(s, x, j, n2) ==> (j == y0 || j == y1 || j == y2),
        forall|j: int|
            0 <= j < 9 && #[trigger] cand(s, x, j, n3) ==> (j == y0 || j == y1 || j == y2),
    ensures
        forall|a: Seq<Seq<int>>|
            #[trigger] admits(s, a) ==> (a[x][y0] == n1 || a[x][y0] == n2 || a[x][y0] == n3) && (
            a[x][y1] == n1 || a[x][y1] == n2 || a[x][y1] == n3) && (a[x][y2] == n1 || a[x][y2]
                == n2 || a[x][y2] == n3),
{
    assert forall|a: Seq<Seq<int>>| #[trigger] admits(s, a) implies (a[x][y0] == n1 || a[x][y0]
        == n2 || a[x][y0] == n3) && (a[x][y1] == n1 || a[x][y1] == n2 || a[x][y1] == n3) && (
    a[x][y2] == n1 || a[x][y2] == n2 || a[x][y2] == n3) by {
        lemma_column_digit_unplaced(s, a, x, n1);
        let p1 = choose|p: int|
            0 <= p < 9 && #[trigger] a[x][p] == n1 && tile_at(s, x, p) is Void && cand(s, x, p, n1);
        lemma_column_digit_unplaced(s, a, x, n2);
        let p2 = choose|p: int|
            0 <= p < 9 && #[trigger] a[x][p] == n2 && tile_at(s, x, p) is Void && cand(s, x, p, n2);
        lemma_column_digit_unplaced(s, a, x, n3);
        let p3 = choose|p: int|
            0 <= p < 9 && #[trigger] a[x][p] == n3 && tile_at(s, x, p) is Void && cand(s, x, p, n3);
        assert(p1 != p2 && p1 != p3 && p2 != p3);
    }
}

/// The same for a row.
proof fn lemma_hidden_trip_forces_row(
    s: Sudoku,
    y: int,
    n1: int,
    n2: int,
    n3: int,
    x0: int,
    x1: int,
    x2: int,
)
    requires
        wf(s),
        0 <= y < 9,
        is_digit(n1),
        is_digit(n2),
        is_digit(n3),
        n1 != n2 && n1 != n3 && n2 != n3,
        0 <= x0 < x1 < x2 < 9,
        forall|p: int| 0 <= p < 9 ==> #[trigger] tile_at(s, p, y) != Tile::Num(n1 as usize),
        forall|p: int| 0 <= p < 9 ==> #[trigger] tile_at(s, p, y) != Tile::Num(n2 as usize),
        forall|p: int| 0 <= p < 9 ==> #[trigger] tile_at(s, p, y) != Tile::Num(n3 as usize),
        forall|j: int|
            0 <= j < 9 && #[trigger] cand(s, j, y, n1) ==> (j == x0 || j == x1 || j == x2),
        forall|j: int|
            0 <= j < 9 && #[trigger] cand(s, j, y, n2) ==> (j == x0 || j == x1 || j == x2),
        forall|j: int|
            0 <= j < 9 && #[trigger] cand(s, j, y, n3) ==> (j == x0 || j == x1 || j == x2),
    ensures
        forall|a: Seq<Seq<int>>|
            #[trigger] admits(s, a) ==> (a[x0][y] == n1 || a[x0][y] == n2 || a[x0][y] == n3) && (
            a[x1][y] == n1 || a[x1][y] == n2 || a[x1][y] == n3) && (a[x2][y] == n1 || a[x2][y]
                == n2 || a[x2][y] == n3),
{
    assert forall|a: Seq<Seq<int>>| #[trigger] admits(s, a) implies (a[x0][y] == n1 || a[x0][y]
        == n2 || a[x0][y] == n3) && (a[x1][y] == n1 || a[x1][y] == n2 || a[x1][y] == n3) && (
    a[x2][y] == n1 || a[x2][y] == n2 || a[x2][y] == n3) by {
        lemma_row_digit_unplaced(s, a, y, n1);
        let p1 = choose|p: int|
            0 <= p < 9 && #[trigger] a[p][y] == n1 && tile_at(s, p, y) is Void && cand(s, p, y, n1);
        lemma_row_digit_unplaced(s, a, y, n2);
        let p2 = choose|p: int|
            0 <= p < 9 && #[trigger] a[p][y] == n2 && tile_at(s, p, y) is Void && cand(s, p, y, n2);
        lemma_row_digit_unplaced(s, a, y, n3);
        let p3 = choose|p: int|
            0 <= p < 9 && #[trigger] a[p][y] == n3 && tile_at(s, p, y) is Void && cand(s, p, y, n3);
        assert(p1 != p2 && p1 != p3 && p2 != p3);
    }
}

/// The same for a box, with the three cells given by their coordinates and
/// a candidate witness cell for each digit.
proof fn lemma_hidden_trip_forces_box(
    s: Sudoku,
    n1: int,
    n2: int,
    n3: int,
    c0x: int,
    c0y: int,
    c1x: int,
    c1y: int,
    c2x: int,
    c2y: int,
)
    requires
        wf(s),
        is_digit(n1),
        is_digit(n2),
        is_digit(n3),
        n1 != n2 && n1 != n3 && n2 != n3,
        in_grid(c0x, c0y),
        in_grid(c1x, c1y),
        in_grid(c2x, c2y),
        !(c0x == c1x && c0y == c1y),
        !(c0x == c2x && c0y == c2y),
        !(c1x == c2x && c1y == c2y),
        box_of(c1x, c1y) == box_of(c0x, c0y),
        box_of(c2x, c2y) == box_of(c0x, c0y),
        forall|p: int, q: int|
            in_grid(p, q) && box_of(p, q) == box_of(c0x, c0y) ==> #[trigger] tile_at(s, p, q)
                != Tile::Num(n1 as usize),
        forall|p: int, q: int|
            in_grid(p, q) && box_of(p, q) == box_of(c0x, c0y) ==> #[trigger] tile_at(s, p, q)
                != Tile::Num(n2 as usize),
        forall|p: int, q: int|
            in_grid(p, q) && box_of(p, q) == box_of(c0x, c0y) ==> #[trigger] tile_at(s, p, q)
                != Tile::Num(n3 as usize),
        forall|i: int, j: int|
            in_grid(i, j) && box_of(i, j) == box_of(c0x, c0y) && #[trigger] cand(s, i, j, n1) ==> (
            (i == c0x && j == c0y) || (i == c1x && j == c1y) || (i == c2x && j == c2y)),
        forall|i: int, j: int|
            in_grid(i, j) && box_of(i, j) == box_of(c0x, c0y) && #[trigger] cand(s, i, j, n2) ==> (
            (i == c0x && j == c0y) || (i == c1x && j == c1y) || (i == c2x && j == c2y)),
        forall|i: int, j: int|
            in_grid(i, j) && box_of(i, j) == box_of(c0x, c0y) && #[trigger] cand(s, i, j, n3) ==> (
            (i == c0x && j == c0y) || (i == c1x && j == c1y) || (i == c2x && j == c2y)),
    ensures
        forall|a: Seq<Seq<int>>|
            #[trigger] admits(s, a) ==> (a[c0x][c0y] == n1 || a[c0x][c0y] == n2 || a[c0x][c0y]
                == n3) && (a[c1x][c1y] == n1 || a[c1x][c1y] == n2 || a[c1x][c1y] == n3) && (
            a[c2x][c2y] == n1 || a[c2x][c2y] == n2 || a[c2x][c2y] == n3),
{
    assert forall|a: Seq<Seq<int>>| #[trigger] admits(s, a) implies (a[c0x][c0y] == n1
        || a[c0x][c0y] == n2 || a[c0x][c0y] == n3) && (a[c1x][c1y] == n1 || a[c1x][c1y] == n2
        || a[c1x][c1y] == n3) && (a[c2x][c2y] == n1 || a[c2x][c2y] == n2 || a[c2x][c2y]
        == n3) by {
        let b = box_of(c0x, c0y);
        crate::model::lemma_box_digit_unplaced(s, a, b, n1);
        let (p1, q1) = choose|p: int, q: int|
            in_grid(p, q) && box_of(p, q) == b && #[trigger] a[p][q] == n1 && tile_at(
                s,
                p,
                q,
            ) is Void && cand(s, p, q, n1);
        crate::model::lemma_box_digit_unplaced(s, a, b, n2);
        let (p2, q2) = choose|p: int, q: int|
            in_grid(p, q) && box_of(p, q) == b && #[trigger] a[p][q] == n2 && tile_at(
                s,
                p,
                q,
            ) is Void && cand(s, p, q, n2);
        crate::model::lemma_box_digit_unplaced(s, a, b, n3);
        let (p3, q3) = choose|p: int, q: int|
            in_grid(p, q) && box_of(p, q) == b && #[trigger] a[p][q] == n3 && tile_at(
                s,
                p,
                q,
            ) is Void && cand(s, p, q, n3);
        assert(!(p1 == p2 && q1 == q2) && !(p1 == p3 && q1 == q3) && !(p2 == p3 && q2 == q3));
    }
}

/// A candidate of digit `d` anywhere in column `x` shows the digit is
/// placed nowhere in that column.
proof fn lemma_col_witness_unplaced(s: Sudoku, x: int, w: int, d: int)
    requires
        wf(s),
        in_grid(x, w),
        is_digit(d),
        cand(s, x, w, d),
    ensures
        forall|p: int| 0 <= p < 9 ==> #[trigger] tile_at(s, x, p) != Tile::Num(d as usize),
{
    assert forall|p: int| 0 <= p < 9 implies #[trigger] tile_at(s, x, p) != Tile::Num(
        d as usize,
    ) by {
        if p == w {
            assert(!(tile_at(s, x, p) is Void) ==> !cand(s, x, w, d));
        } else {
            assert(peers(x, w, x, p));
        }
    }
}

/// The same for a row.
proof fn lemma_row_witness_unplaced(s: Sudoku, y: int, w: int, d: int)
    requires
        wf(s),
        in_grid(w, y),
        is_digit(d),
        cand(s, w, y, d),
    ensures
        forall|p: int| 0 <= p < 9 ==> #[trigger] tile_at(s, p, y) != Tile::Num(d as usize),
{
    assert forall|p: int| 0 <= p < 9 implies #[trigger] tile_at(s, p, y) != Tile::Num(
        d as usize,
    ) by {
        if p == w {
            assert(!(tile_at(s, w, y) is Void) ==> !cand(s, w, y, d));
        } else {
            assert(peers(w, y, p, y));
        }
    }
}

/// The same for a box.
proof fn lemma_box_witness_unplaced(s: Sudoku, wx: int, wy: int, d: int)
    requires
        wf(s),
        in_grid(wx, wy),
        is_digit(d),
        cand(s, wx, wy, d),
    ensures
        forall|p: int, q: int|
            in_grid(p, q) && box_of(p, q) == box_of(wx, wy) ==> #[trigger] tile_at(s, p, q)
                != Tile::Num(d as usize),
{
    assert forall|p: int, q: int|
        in_grid(p, q) && box_of(p, q) == box_of(wx, wy) implies #[trigger] tile_at(s, p, q)
        != Tile::Num(d as usize) by {
        if p == wx && q == wy {
            assert(!(tile_at(s, wx, wy) is Void) ==> !cand(s, wx, wy, d));
        } else {
            assert(peers(wx, wy, p, q));
        }
    }
}

/// Mask-level form of the column hidden triple.  The three digit masks may
/// be stale reads from earlier states `s_f` and `s_s` of the same pass:
/// candidates only shrink, so the union still confines all three digits.
proof fn lemma_col_trip_setup(
    s0: Sudoku,
    s_f: Sudoku,
    s_s: Sudoku,
    x: int,
    n1: int,
    n2: int,
    n3: int,
    fp: u16,
    sp: u16,
    tp: u16,
    j0: u8,
    j1: u8,
    j2: u8,
    w3: int,
)
    requires
        wf(s0),
        0 <= x < 9,
        is_digit(n1),
        is_digit(n2),
        is_digit(n3),
        n1 != n2 && n1 != n3 && n2 != n3,
        views_agree(s_f),
        views_agree(s_s),
        fp == s_f.column_possible[x][n1 - 1],
        sp == s_s.column_possible[x][n2 - 1],
        tp == s0.column_possible[x][n3 - 1],
        forall|i: int, j: int, d: int|
            in_grid(i, j) && is_digit(d) && #[trigger] cand(s0, i, j, d) ==> cand(s_f, i, j, d),
        forall|i: int, j: int, d: int|
            in_grid(i, j) && is_digit(d) && #[trigger] cand(s0, i, j, d) ==> cand(s_s, i, j, d),
        exactly_three_bits(fp | sp | tp, j0, j1, j2),
        in_grid(x, w3),
        cand(s0, x, w3, n3),
        forall|p: int| 0 <= p < 9 ==> #[trigger] tile_at(s0, x, p) != Tile::Num(n1 as usize),
        forall|p: int| 0 <= p < 9 ==> #[trigger] tile_at(s0, x, p) != Tile::Num(n2 as usize),
    ensures
        forall|a: Seq<Seq<int>>|
            #[trigger] admits(s0, a) ==> (a[x][j0 as int] == n1 || a[x][j0 as int] == n2
                || a[x][j0 as int] == n3) && (a[x][j1 as int] == n1 || a[x][j1 as int] == n2
                || a[x][j1 as int] == n3) && (a[x][j2 as int] == n1 || a[x][j2 as int] == n2
                || a[x][j2 as int] == n3),
{
    let union = fp | sp | tp;
    assert forall|j: int| 0 <= j < 9 && #[trigger] cand(s0, x, j, n1) implies (j == j0 as int || j
        == j1 as int || j == j2 as int) by {
        assert(cand(s_f, x, j, n1));
        assert(col_bit(s_f, x, j, n1));
        assert(has_bit(fp, j as u16));
        crate::bits::lemma_mask_or(fp, sp, j as u16);
        crate::bits::lemma_mask_or(fp | sp, tp, j as u16);
        assert(has_bit(union, j as u16));
    }
    assert forall|j: int| 0 <= j < 9 && #[trigger] cand(s0, x, j, n2) implies (j == j0 as int || j
        == j1 as int || j == j2 as int) by {
        assert(cand(s_s, x, j, n2));
        assert(col_bit(s_s, x, j, n2));
        assert(has_bit(sp, j as u16));
        crate::bits::lemma_mask_or(fp, sp, j as u16);
        crate::bits::lemma_mask_or(fp | sp, tp, j as u16);
        assert(has_bit(union, j as u16));
    }
    assert forall|j: int| 0 <= j < 9 && #[trigger] cand(s0, x, j, n3) implies (j == j0 as int || j
        == j1 as int || j == j2 as int) by {
        assert(col_bit(s0, x, j, n3));
        assert(has_bit(tp, j as u16));
        crate::bits::lemma_mask_or(fp, sp, j as u16);
        crate::bits::lemma_mask_or(fp | sp, tp, j as u16);
        assert(has_bit(union, j as u16));
    }
    lemma_col_witness_unplaced(s0, x, w3, n3);
    lemma_hidden_trip_forces_col(s0, x, n1, n2, n3, j0 as int, j1 as int, j2 as int);
}

/// Mask-level form of the row hidden triple.
proof fn lemma_row_trip_setup(
    s0: Sudoku,
    s_f: Sudoku,
    s_s: Sudoku,
    y: int,
    n1: int,
    n2: int,
    n3: int,
    fp: u16,
    sp: u16,
    tp: u16,
    j0: u8,
    j1: u8,
    j2: u8,
    w3: int,
)
    requires
        wf(s0),
        0 <= y < 9,
        is_digit(n1),
        is_digit(n2),
        is_digit(n3),
        n1 != n2 && n1 != n3 && n2 != n3,
        views_agree(s_f),
        views_agree(s_s),
        fp == s_f.row_possible[y][n1 - 1],
        sp == s_s.row_possible[y][n2 - 1],
        tp == s0.row_possible[y][n3 - 1],
        forall|i: int, j: int, d: int|
            in_grid(i, j) && is_digit(d) && #[trigger] cand(s0, i, j, d) ==> cand(s_f, i, j, d),
        forall|i: int, j: int, d: int|
            in_grid(i, j) && is_digit(d) && #[trigger] cand(s0, i, j, d) ==> cand(s_s, i, j, d),
        exactly_three_bits(fp | sp | tp, j0, j1, j2),
        in_grid(w3, y),
        cand(s0, w3, y, n3),
        forall|p: int| 0 <= p < 9 ==> #[trigger] tile_at(s0, p, y) != Tile::Num(n1 as usize),
        forall|p: int| 0 <= p < 9 ==> #[trigger] tile_at(s0, p, y) != Tile::Num(n2 as usize),
    ensures
        forall|a: Seq<Seq<int>>|
            #[trigger] admits(s0, a) ==> (a[j0 as int][y] == n1 || a[j0 as int][y] == n2
                || a[j0 as int][y] == n3) && (a[j1 as int][y] == n1 || a[j1 as int][y] == n2
                || a[j1 as int][y] == n3) && (a[j2 as int][y] == n1 || a[j2 as int][y] == n2
                || a[j2 as int][y] == n3),
{
    let union = fp | sp | tp;
    assert forall|j: int| 0 <= j < 9 && #[trigger] cand(s0, j, y, n1) implies (j == j0 as int || j
        == j1 as int || j == j2 as int) by {
        assert(cand(s_f, j, y, n1));
        assert(row_bit(s_f, j, y, n1));
        assert(has_bit(fp, j as u16));
        crate::bits::lemma_mask_or(fp, sp, j as u16);
        crate::bits::lemma_mask_or(fp | sp, tp, j as u16);
        assert(has_bit(union, j as u16));
    }
    assert forall|j: int| 0 <= j < 9 && #[trigger] cand(s0, j, y, n2) implies (j == j0 as int || j
        == j1 as int || j == j2 as int) by {
        assert(cand(s_s, j, y, n2));
        assert(row_bit(s_s, j, y, n2));
        assert(has_bit(sp, j as u16));
        crate::bits::lemma_mask_or(fp, sp, j as u16);
        crate::bits::lemma_mask_or(fp | sp, tp, j as u16);
        assert(has_bit(union, j as u16));
    }
    assert forall|j: int| 0 <= j < 9 && #[trigger] cand(s0, j, y, n3) implies (j == j0 as int || j
        == j1 as int || j == j2 as int) by {
        assert(row_bit(s0, j, y, n3));
        assert(has_bit(tp, j as u16));
        crate::bits::lemma_mask_or(fp, sp, j as u16);
        crate::bits::lemma_mask_or(fp | sp, tp, j as u16);
        assert(has_bit(union, j as u16));
    }
    lemma_row_witness_unplaced(s0, y, w3, n3);
    lemma_hidden_trip_forces_row(s0, y, n1, n2, n3, j0 as int, j1 as int, j2 as int);
}

/// Mask-level form of the box hidden triple.
proof fn lemma_box_trip_setup(
    s0: Sudoku,
    s_f: Sudoku,
    s_s: Sudoku,
    b: int,
    n1: int,
    n2: int,
    n3: int,
    fp: u16,
    sp: u16,
    tp: u16,
    j0: u8,
    j1: u8,
    j2: u8,
    w3: int,
)
    requires
        wf(s0),
        0 <= b < 9,
        is_digit(n1),
        is_digit(n2),
        is_digit(n3),
        n1 != n2 && n1 != n3 && n2 != n3,
        views_agree(s_f),
        views_agree(s_s),
        fp == s_f.box_possible[b][n1 - 1],
        sp == s_s.box_possible[b][n2 - 1],
        tp == s0.box_possible[b][n3 - 1],
        forall|i: int, j: int, d: int|
            in_grid(i, j) && is_digit(d) && #[trigger] cand(s0, i, j, d) ==> cand(s_f, i, j, d),
        forall|i: int, j: int, d: int|
            in_grid(i, j) && is_digit(d) && #[trigger] cand(s0, i, j, d) ==> cand(s_s, i, j, d),
        exactly_three_bits(fp | sp | tp, j0, j1, j2),
        0 <= w3 < 9,
        cand(s0, crate::model::box_cell_x(b, w3), crate::model::box_cell_y(b, w3), n3),
        forall|p: int, q: int|
            in_grid(p, q) && box_of(p, q) == b ==> #[trigger] tile_at(s0, p, q) != Tile::Num(
                n1 as usize,
            ),
        forall|p: int, q: int|
            in_grid(p, q) && box_of(p, q) == b ==> #[trigger] tile_at(s0, p, q) != Tile::Num(
                n2 as usize,
            ),
    ensures
        forall|a: Seq<Seq<int>>|
            #[trigger] admits(s0, a) ==> (a[crate::model::box_cell_x(b, j0 as int)][crate::model::box_cell_y(b, j0 as int)] == n1
                || a[crate::model::box_cell_x(b, j0 as int)][crate::model::box_cell_y(b, j0 as int)] == n2
                || a[crate::model::box_cell_x(b, j0 as int)][crate::model::box_cell_y(b, j0 as int)] == n3) && (
            a[crate::model::box_cell_x(b, j1 as int)][crate::model::box_cell_y(b, j1 as int)] == n1
                || a[crate::model::box_cell_x(b, j1 as int)][crate::model::box_cell_y(b, j1 as int)] == n2
                || a[crate::model::box_cell_x(b, j1 as int)][crate::model::box_cell_y(b, j1 as int)] == n3) && (
            a[crate::model::box_cell_x(b, j2 as int)][crate::model::box_cell_y(b, j2 as int)] == n1
                || a[crate::model::box_cell_x(b, j2 as int)][crate::model::box_cell_y(b, j2 as int)] == n2
                || a[crate::model::box_cell_x(b, j2 as int)][crate::model::box_cell_y(b, j2 as int)] == n3),
{
    let union = fp | sp | tp;
    let c0x = crate::model::box_cell_x(b, j0 as int);
    let c0y = crate::model::box_cell_y(b, j0 as int);
    let c1x = crate::model::box_cell_x(b, j1 as int);
    let c1y = crate::model::box_cell_y(b, j1 as int);
    let c2x = crate::model::box_cell_x(b, j2 as int);
    let c2y = crate::model::box_cell_y(b, j2 as int);
    crate::model::lemma_box_enum(b, j0 as int);
    crate::model::lemma_box_enum(b, j1 as int);
    crate::model::lemma_box_enum(b, j2 as int);
    assert(box_slot(c0x, c0y) == j0 as int && box_slot(c1x, c1y) == j1 as int && box_slot(
        c2x,
        c2y,
    ) == j2 as int);
    assert forall|i: int, j: int|
        in_grid(i, j) && box_of(i, j) == b && #[trigger] cand(s0, i, j, n1) implies ((i == c0x && j
        == c0y) || (i == c1x && j == c1y) || (i == c2x && j == c2y)) by {
        assert(cand(s_f, i, j, n1));
        assert(box_bit(s_f, i, j, n1));
        assert(0 <= box_slot(i, j) < 9);
        assert(has_bit(fp, box_slot(i, j) as u16));
        crate::bits::lemma_mask_or(fp, sp, box_slot(i, j) as u16);
        crate::bits::lemma_mask_or(fp | sp, tp, box_slot(i, j) as u16);
        assert(has_bit(union, box_slot(i, j) as u16));
        if box_slot(i, j) == j0 as int {
            lemma_box_slot_injective(i, j, c0x, c0y);
        }
        if box_slot(i, j) == j1 as int {
            lemma_box_slot_injective(i, j, c1x, c1y);
        }
        if box_slot(i, j) == j2 as int {
            lemma_box_slot_injective(i, j, c2x, c2y);
        }
    }
    assert forall|i: int, j: int|
        in_grid(i, j) && box_of(i, j) == b && #[trigger] cand(s0, i, j, n2) implies ((i == c0x && j
        == c0y) || (i == c1x && j == c1y) || (i == c2x && j == c2y)) by {
        assert(cand(s_s, i, j, n2));
        assert(box_bit(s_s, i, j, n2));
        assert(0 <= box_slot(i, j) < 9);
        assert(has_bit(sp, box_slot(i, j) as u16));
        crate::bits::lemma_mask_or(fp, sp, box_slot(i, j) as u16);
        crate::bits::lemma_mask_or(fp | sp, tp, box_slot(i, j) as u16);
        assert(has_bit(union, box_slot(i, j) as u16));
        if box_slot(i, j) == j0 as int {
            lemma_box_slot_injective(i, j, c0x, c0y);
        }
        if box_slot(i, j) == j1 as int {
            lemma_box_slot_injective(i, j, c1x, c1y);
        }
        if box_slot(i, j) == j2 as int {
            lemma_box_slot_injective(i, j, c2x, c2y);
        }
    }
    assert forall|i: int, j: int|
        in_grid(i, j) && box_of(i, j) == b && #[trigger] cand(s0, i, j, n3) implies ((i == c0x && j
        == c0y) || (i == c1x && j == c1y) || (i == c2x && j == c2y)) by {
        assert(box_bit(s0, i, j, n3));
        assert(0 <= box_slot(i, j) < 9);
        assert(has_bit(tp, box_slot(i, j) as u16));
        crate::bits::lemma_mask_or(fp, sp, box_slot(i, j) as u16);
        crate::bits::lemma_mask_or(fp | sp, tp, box_slot(i, j) as u16);
        assert(has_bit(union, box_slot(i, j) as u16));
        if box_slot(i, j) == j0 as int {
            lemma_box_slot_injective(i, j, c0x, c0y);
        }
        if box_slot(i, j) == j1 as int {
            lemma_box_slot_injective(i, j, c1x, c1y);
        }
        if box_slot(i, j) == j2 as int {
            lemma_box_slot_injective(i, j, c2x, c2y);
        }
    }
    let wx = crate::model::box_cell_x(b, w3);
    let wy = crate::model::box_cell_y(b, w3);
    crate::model::lemma_box_enum(b, w3);
    lemma_box_witness_unplaced(s0, wx, wy, n3);
    lemma_hidden_trip_forces_box(s0, n1, n2, n3, c0x, c0y, c1x, c1y, c2x, c2y);
}

/// A complete board reached by sound deductions from a clash-free start
/// is the unique admitted assignment of the start.
proof fn lemma_complete_one(entry: Sudoku, cur: Sudoku)
    requires
        sound_step(entry, cur),
        complete(cur),
    ensures
        placed_ok(entry) ==> admits(entry, crate::model::board_grid(cur)) && (forall|
            a: Seq<Seq<int>>,
        |
            #[trigger] admits(entry, a) ==> a == crate::model::board_grid(cur)),
{
    if placed_ok(entry) {
        crate::model::lemma_complete_admits(cur);
        assert(admits(entry, crate::model::board_grid(cur)));
        assert forall|a: Seq<Seq<int>>| #[trigger] admits(entry, a) implies a
            == crate::model::board_grid(cur) by {
            assert(admits(cur, a));
            crate::model::lemma_complete_unique(cur, a);
        }
    }
}

/// Placing a digit every admitted assignment was forced to use keeps the
/// deduction step sound.
proof fn lemma_forced_place_sound(entry: Sudoku, before: Sudoku, after: Sudoku, x: int, y: int, v: int)
    requires
        sound_step(entry, before),
        wf(before),
        wf(after),
        in_grid(x, y),
        is_digit(v),
        cand(before, x, y, v),
        tile_at(before, x, y) is Void,
        forall|a: Seq<Seq<int>>| #[trigger] admits(before, a) ==> a[x][y] == v,
        tile_at(after, x, y) == Tile::Num(v as usize),
        forall|i: int, j: int|
            in_grid(i, j) && !(i == x && j == y) ==> #[trigger] tile_at(after, i, j) == tile_at(
                before,
                i,
                j,
            ),
        forall|i: int, j: int, d: int|
            in_grid(i, j) && is_digit(d) ==> #[trigger] cand(after, i, j, d) == (cand(
                before,
                i,
                j,
                d,
            ) && !((i == x && j == y) || (d == v && in_unit_of(i, j, x, y)))),
        after.clues == before.clues,
        empty_count(after) == empty_count(before) - 1,
        placed_ok(before) ==> placed_ok(after),
    ensures
        sound_step(entry, after),
{
    lemma_place_admits(before, after, x, y, v);
    assert forall|a: Seq<Seq<int>>|
        #![trigger admits(entry, a)]
        #![trigger admits(after, a)]
        admits(after, a) == admits(entry, a) by {
        assert(admits(before, a) == admits(entry, a));
        if admits(before, a) {
            assert(a[x][y] == v);
            assert(admits(after, a));
        }
        if admits(after, a) {
            assert(admits(before, a));
        }
    }
}

/// The low nine bits of `m` are exactly `{j0, j1}`.
pub open spec fn exactly_two_bits(m: u16, j0: u8, j1: u8) -> bool {
    j0 < j1 < 9 && forall|k: u16| k < 9 ==> (has_bit(m, k) <==> (k == j0 as u16 || k == j1 as u16))
}

/// The low nine bits of `m` are exactly `{j0, j1, j2}`.
pub open spec fn exactly_three_bits(m: u16, j0: u8, j1: u8, j2: u8) -> bool {
    j0 < j1 < j2 < 9 && forall|k: u16|
        k < 9 ==> (has_bit(m, k) <==> (k == j0 as u16 || k == j1 as u16 || k == j2 as u16))
}

/// The number of candidates of cell `(x, y)` among the digits `d` and up.
pub open spec fn cands_from(s: Sudoku, x: int, y: int, d: int) -> nat
    decreases 10 - d,
{
    if d < 1 || d >= 10 {
        0
    } else {
        (if cand(s, x, y, d) {
            1nat
        } else {
            0nat
        }) + cands_from(s, x, y, d + 1)
    }
}

/// The number of candidates a cell still has.
pub open spec fn cand_count(s: Sudoku, x: int, y: int) -> nat {
    cands_from(s, x, y, 1)
}

/// A cell with a candidate counts at least one.
proof fn lemma_cands_from_pos(s: Sudoku, x: int, y: int, d: int, e: int)
    requires
        1 <= e <= d <= 9,
        cand(s, x, y, d),
    ensures
        cands_from(s, x, y, e) >= 1,
    decreases d - e,
{
    if e < d {
        lemma_cands_from_pos(s, x, y, d, e + 1);
    }
}

/// A cell counting at least one has a candidate.
proof fn lemma_cands_from_witness(s: Sudoku, x: int, y: int, e: int)
    requires
        1 <= e <= 9,
        cands_from(s, x, y, e) >= 1,
    ensures
        exists|d: int| e <= d <= 9 && #[trigger] cand(s, x, y, d),
    decreases 9 - e,
{
    if cand(s, x, y, e) {
    } else {
        assert(cands_from(s, x, y, e + 1) >= 1);
        if e < 9 {
            lemma_cands_from_witness(s, x, y, e + 1);
        } else {
            assert(cands_from(s, x, y, 10) == 0);
        }
    }
}

/// A state change that leaves every tile in place keeps the placement
/// facts: clash-freedom, the empty-cell count, and completeness.
proof fn lemma_tiles_same_props(pre: Sudoku, post: Sudoku)
    requires
        post.board == pre.board,
    ensures
        placed_ok(pre) ==> placed_ok(post),
        empty_count(post) == empty_count(pre),
    {
    assert forall|i: int, j: int| in_grid(i, j) implies #[trigger] tile_at(post, i, j) == tile_at(
        pre,
        i,
        j,
    ) by {}
    if placed_ok(pre) {
        assert forall|x: int, y: int, x2: int, y2: int|
            #![trigger tile_at(post, x, y), tile_at(post, x2, y2)]
            peers(x, y, x2, y2) implies (tile_at(post, x, y) is Void || tile_at(post, x, y)
            != tile_at(post, x2, y2)) by {
            assert(tile_at(pre, x, y) is Void || tile_at(pre, x, y) != tile_at(pre, x2, y2));
        }
    }
    crate::board::lemma_empty_count_same(pre, post, 81);
}

/// A mask has at most one decomposition into exactly two set bits.
proof fn lemma_two_bits_unique(m: u16, j0: u8, j1: u8, k0: u8, k1: u8)
    requires
        exactly_two_bits(m, j0, j1),
        exactly_two_bits(m, k0, k1),
    ensures
        k0 == j0 && k1 == j1,
{
    assert(has_bit(m, k0 as u16) && has_bit(m, k1 as u16));
    assert(has_bit(m, j0 as u16) && has_bit(m, j1 as u16));
}

/// A candidate removed earlier in a pass stays removed: later steps only
/// shrink candidate sets.
proof fn lemma_witness_persists(entry: Sudoku, prev: Sudoku, post: Sudoku)
    requires
        exists|i: int, j: int, d: int|
            in_grid(i, j) && is_digit(d) && #[trigger] cand(entry, i, j, d) && !cand(prev, i, j, d),
        forall|i: int, j: int, d: int|
            in_grid(i, j) && is_digit(d) && #[trigger] cand(post, i, j, d) ==> cand(prev, i, j, d),
    ensures
        exists|i: int, j: int, d: int|
            in_grid(i, j) && is_digit(d) && #[trigger] cand(entry, i, j, d) && !cand(post, i, j, d),
{
    let (i, j, d) = choose|i: int, j: int, d: int|
        in_grid(i, j) && is_digit(d) && #[trigger] cand(entry, i, j, d) && !cand(prev, i, j, d);
    assert(!cand(post, i, j, d));
}

/// A candidate removed by the latest step was still a candidate at the
/// start of the pass: candidate sets only shrink.
proof fn lemma_witness_new(entry: Sudoku, prev: Sudoku, post: Sudoku)
    requires
        sound_step(entry, prev),
        exists|i: int, j: int, d: int|
            in_grid(i, j) && is_digit(d) && #[trigger] cand(prev, i, j, d) && !cand(post, i, j, d),
    ensures
        exists|i: int, j: int, d: int|
            in_grid(i, j) && is_digit(d) && #[trigger] cand(entry, i, j, d) && !cand(post, i, j, d),
{
    let (i, j, d) = choose|i: int, j: int, d: int|
        in_grid(i, j) && is_digit(d) && #[trigger] cand(prev, i, j, d) && !cand(post, i, j, d);
    assert(cand(entry, i, j, d));
}

impl Sudoku {
    /// Removes a candidate that no admitted assignment can use: the
    /// workhorse behind every elimination rule.  The caller supplies the
    /// proof that the digit is impossible at the target cell; the admitted
    /// set is then exactly preserved.
    fn remove_sound(&mut self, tx: usize, ty: usize, num: usize)
        requires
            wf(*old(self)),
            tx < 9,
            ty < 9,
            is_digit(num as int),
            forall|a: Seq<Seq<int>>|
                #[trigger] admits(*old(self), a) && tile_at(*old(self), tx as int, ty as int)
                    is Void ==> a[tx as int][ty as int] != num as int,
        ensures
            wf(*final(self)),
            final(self).board == old(self).board,
            final(self).clues == old(self).clues,
            empty_count(*final(self)) == empty_count(*old(self)),
            placed_ok(*old(self)) ==> placed_ok(*final(self)),
            forall|i: int, j: int, d: int|
                in_grid(i, j) && is_digit(d) ==> #[trigger] cand(*final(self), i, j, d) == (cand(
                    *old(self),
                    i,
                    j,
                    d,
                ) && !(i == tx as int && j == ty as int && d == num as int)),
            forall|a: Seq<Seq<int>>|
                #![trigger admits(*old(self), a)]
                #![trigger admits(*final(self), a)]
                admits(*final(self), a) == admits(*old(self), a),
            !cand(*old(self), tx as int, ty as int, num as int) ==> *final(self) == *old(self),
    {
        let ghost pre = *self;
        self.remove_possible_at(tx, ty, num);
        proof {
            lemma_remove_admits(pre, *self, tx as int, ty as int, num as int);
            lemma_tiles_same_props(pre, *self);
        }
    }

    /// The deduction-only solver: applies the rule tiers to fixpoint (only
    /// the naked-single and last-remaining tiers when `only_basic` is set)
    /// for at most `iter_count` rounds, restarting from the cheapest tier
    /// after every change.  Returns `One` exactly when deduction alone
    /// completes the board; `Zero` both when a contradiction is found and
    /// when deduction merely stalls, which this result deliberately does
    /// not distinguish; never `Multiple`.
    pub fn solve_no_guessing(&mut self, only_basic: bool, iter_count: usize, debug: bool) -> (r:
        SolutionCount)
        requires
            wf(*old(self)),
        ensures
            sound_step(*old(self), *final(self)),
            !(r is Multiple),
            r matches SolutionCount::One(w) ==> w == *final(self) && complete(w) && (placed_ok(
                *old(self),
            ) ==> admits(*old(self), crate::model::board_grid(w)) && (forall|a: Seq<Seq<int>>|
                #[trigger] admits(*old(self), a) ==> a == crate::model::board_grid(w))),
            iter_count >= 1 && complete(*old(self)) ==> r matches SolutionCount::One(_),
    {
        let ghost entry = *old(self);
        let mut it: usize = 0;
        while it < iter_count
            invariant
                entry == *old(self),
                wf(*self),
                sound_step(entry, *self),
                it <= iter_count,
                complete(entry) ==> it == 0 && *self == entry,
            ensures
                entry == *old(self),
                wf(*self),
                sound_step(entry, *self),
                !(complete(entry) && iter_count >= 1),
            decreases iter_count - it,
        {
            it = it + 1;
            let ghost prev = *self;
            let r1 = self.fill_naked_singles(debug);
            let mut changed = r1.0;
            if r1.2 {
                proof {
                    assert forall|a: Seq<Seq<int>>| !admits(entry, a) by {
                        if admits(entry, a) {
                            assert(admits(prev, a));
                        }
                        assert(!admits(prev, a));
                    }
                }
                return SolutionCount::Zero;
            }
            if r1.1 {
                proof {
                    lemma_complete_one(entry, *self);
                }
                return SolutionCount::One(*self);
            }
            if changed {
                continue;
            }
            let c1 = self.fill_last_in_column(debug);
            changed = changed || c1;
            let c2 = self.fill_last_in_row(debug);
            changed = changed || c2;
            let c3 = self.fill_last_in_box(debug);
            changed = changed || c3;

            if only_basic {
                if !changed {
                    break;
                }
                continue;
            }
            if changed {
                continue;
            }
            let c4 = self.apply_naked_pairs(debug);
            changed = changed || c4;
            if changed {
                continue;
            }
            let c5 = self.apply_hidden_pairs_columns(debug);
            changed = changed || c5;
            let c6 = self.apply_hidden_pairs_rows(debug);
            changed = changed || c6;
            let c7 = self.apply_hidden_pairs_boxes(debug);
            changed = changed || c7;
            if changed {
                continue;
            }
            let c8 = self.apply_hidden_trips_columns(debug);
            changed = changed || c8;
            let c9 = self.apply_hidden_trips_rows(debug);
            changed = changed || c9;
            let c10 = self.apply_hidden_trips_boxes(debug);
            changed = changed || c10;
            if !changed {
                break;
            }
        }
        SolutionCount::Zero
    }

    /// The full solver: rejects a board whose placed clues already clash,
    /// then propagates the rule tiers to fixpoint and counts the solutions
    /// by branching on the most constrained cell, cloning the board for
    /// each candidate digit.  The result counts the admitted assignments
    /// exactly, on every board: `Zero` when none exists, `One` with the
    /// unique solution as witness, and `Multiple` as soon as two distinct
    /// solutions are proven.
    pub fn solve(&mut self, debug: bool) -> (r: SolutionCount)
        requires
            wf(*old(self)),
        ensures
            sound_step(*old(self), *final(self)),
            r matches SolutionCount::One(w) ==> complete(w) && wf(w) && w.clues == old(
                self,
            ).clues && admits(*old(self), crate::model::board_grid(w)) && (forall|
                a: Seq<Seq<int>>,
            |
                #[trigger] admits(*old(self), a) ==> a == crate::model::board_grid(w)),
            (r is Zero) <==> (forall|a: Seq<Seq<int>>| !admits(*old(self), a)),
            (r is Multiple) <==> (exists|a1: Seq<Seq<int>>, a2: Seq<Seq<int>>|
                #![trigger admits(*old(self), a1), admits(*old(self), a2)]
                admits(*old(self), a1) && admits(*old(self), a2) && a1 != a2),
        decreases empty_count(*self),
    {
        let ghost entry = *old(self);
        if self.has_clashing_clues() {
            proof {
                crate::model::lemma_clash_no_admits(entry);
            }
            return SolutionCount::Zero;
        }
        let mut it: usize = 0;
        while it < 100
            invariant
                entry == *old(self),
                placed_ok(entry),
                wf(*self),
                sound_step(entry, *self),
                it <= 100,
            ensures
                entry == *old(self),
                placed_ok(entry),
                wf(*self),
                sound_step(entry, *self),
            decreases 100 - it,
        {
            it = it + 1;
            let ghost prev = *self;
            let r1 = self.fill_naked_singles(debug);
            let mut changed = r1.0;
            if r1.2 {
                proof {
                    assert forall|a: Seq<Seq<int>>| !admits(entry, a) by {
                        if admits(entry, a) {
                            assert(admits(prev, a));
                        }
                        assert(!admits(prev, a));
                    }
                }
                return SolutionCount::Zero;
            }
            if r1.1 {
                proof {
                    lemma_complete_one(entry, *self);
                }
                return SolutionCount::One(*self);
            }
            if changed {
                continue;
            }
            let c1 = self.fill_last_in_column(debug);
            changed = changed || c1;
            let c2 = self.fill_last_in_row(debug);
            changed = changed || c2;
            let c3 = self.fill_last_in_box(debug);
            changed = changed || c3;
            if changed {
                continue;
            }
            let c4 = self.apply_naked_pairs(debug);
            changed = changed || c4;
            if changed {
                continue;
            }
            let c5 = self.apply_hidden_pairs_columns(debug);
            changed = changed || c5;
            let c6 = self.apply_hidden_pairs_rows(debug);
            changed = changed || c6;
            let c7 = self.apply_hidden_pairs_boxes(debug);
            changed = changed || c7;
            if changed {
                continue;
            }
            let c8 = self.apply_hidden_trips_columns(debug);
            changed = changed || c8;
            let c9 = self.apply_hidden_trips_rows(debug);
            changed = changed || c9;
            let c10 = self.apply_hidden_trips_boxes(debug);
            changed = changed || c10;
            if !changed {
                break;
            }
        }
        let ghost s_prop = *self;
        let mut is_complete = true;
        let mut cx: usize = 0;
        while cx < 9
            invariant
                entry == *old(self),
                placed_ok(entry),
                *self == s_prop,
                wf(*self),
                sound_step(entry, *self),
                cx <= 9,
                is_complete ==> forall|i: int, j: int|
                    in_grid(i, j) && i < cx ==> !(#[trigger] tile_at(s_prop, i, j) is Void),
                !is_complete ==> exists|i: int, j: int|
                    in_grid(i, j) && (#[trigger] tile_at(s_prop, i, j)) is Void,
            decreases 9 - cx,
        {
            let mut cy: usize = 0;
            while cy < 9
                invariant
                    entry == *old(self),
                    placed_ok(entry),
                    *self == s_prop,
                    wf(*self),
                    sound_step(entry, *self),
                    cx < 9,
                    cy <= 9,
                    is_complete ==> forall|i: int, j: int|
                        in_grid(i, j) && (i < cx || (i == cx && j < cy)) ==> !(#[trigger] tile_at(
                            s_prop,
                            i,
                            j,
                        ) is Void),
                    !is_complete ==> exists|i: int, j: int|
                        in_grid(i, j) && (#[trigger] tile_at(s_prop, i, j)) is Void,
                decreases 9 - cy,
            {
                if self.board[cx][cy] == Tile::Void {
                    is_complete = false;
                    proof {
                        assert(in_grid(cx as int, cy as int) && tile_at(
                            s_prop,
                            cx as int,
                            cy as int,
                        ) is Void);
                    }
                }
                cy = cy + 1;
            }
            cx = cx + 1;
        }
        if is_complete {
            proof {
                assert(complete(*self));
                lemma_complete_one(entry, *self);
            }
            return SolutionCount::One(*self);
        }
        let spot = self.get_best_guess_spot(debug);
        let best_x = spot.0;
        let best_y = spot.1;
        let ghost bxi = best_x as int;
        let ghost byi = best_y as int;
        let ghost cur = *self;
        proof {
            assert forall|a: Seq<Seq<int>>| #[trigger] admits(cur, a) implies (tile_at(
                cur,
                bxi,
                byi,
            ) is Void && is_digit(a[bxi][byi]) && cand(cur, bxi, byi, a[bxi][byi])) by {
                let (ex, ey) = choose|i: int, j: int|
                    in_grid(i, j) && (#[trigger] tile_at(s_prop, i, j)) is Void;
                assert(cell_respects(cur, a, ex, ey));
                assert(is_digit(a[ex][ey]));
                assert(cand(cur, ex, ey, a[ex][ey]));
                lemma_cands_from_pos(cur, ex, ey, a[ex][ey], 1);
                assert(cand_count(cur, ex, ey) > 0);
                assert(cand_count(cur, bxi, byi) > 0);
                lemma_cands_from_witness(cur, bxi, byi, 1);
                let dw = choose|d: int| 1 <= d <= 9 && #[trigger] cand(cur, bxi, byi, d);
                assert(tile_at(cur, bxi, byi) is Void);
                assert(cell_respects(cur, a, bxi, byi));
            }
        }
        let mut solution: Option<Sudoku> = Option::None;
        let mut i: usize = 1;
        while i < 10
            invariant
                entry == *old(self),
                placed_ok(entry),
                *self == cur,
                wf(cur),
                sound_step(entry, cur),
                best_x < 9,
                best_y < 9,
                bxi == best_x as int,
                byi == best_y as int,
                1 <= i <= 10,
                forall|a: Seq<Seq<int>>|
                    #[trigger] admits(cur, a) ==> (tile_at(cur, bxi, byi) is Void && is_digit(
                        a[bxi][byi],
                    ) && cand(cur, bxi, byi, a[bxi][byi])),
                solution is None ==> (placed_ok(entry) ==> forall|a: Seq<Seq<int>>|
                    #[trigger] admits(cur, a) ==> !(1 <= a[bxi][byi] < i)),
                solution matches Option::Some(s) ==> complete(s) && wf(s) && s.clues
                    == entry.clues && (placed_ok(entry)
                    ==> admits(cur, crate::model::board_grid(s)) && 1 <= crate::model::board_grid(
                    s,
                )[bxi][byi] < i && (forall|a: Seq<Seq<int>>|
                    #[trigger] admits(cur, a) && a[bxi][byi] < i ==> a == crate::model::board_grid(
                        s,
                    ))),
            decreases 10 - i,
        {
            if self.is_possible_at(best_x, best_y, i) {
                let mut new_sudoku = Self::from_sudoku(self);
                proof {
                    assert(cand(cur, bxi, byi, i as int));
                    assert(tile_at(cur, bxi, byi) is Void);
                }
                new_sudoku.set_tile_at(best_x, best_y, Tile::Num(i));
                proof {
                    lemma_place_admits(cur, new_sudoku, bxi, byi, i as int);
                    assert(empty_count(new_sudoku) < empty_count(*old(self)));
                }
                let solution_count = new_sudoku.solve(debug);
                match solution_count {
                    SolutionCount::Zero => {
                        proof {
                            if placed_ok(entry) {
                                assert forall|a: Seq<Seq<int>>|
                                    #[trigger] admits(cur, a) implies a[bxi][byi]
                                    != i as int by {
                                    if a[bxi][byi] == i as int {
                                        assert(admits(new_sudoku, a));
                                    }
                                    assert(!admits(new_sudoku, a));
                                }
                            }
                        }
                    },
                    SolutionCount::One(s) => {
                        match solution {
                            Option::None => {
                                solution = Option::Some(s);
                                proof {
                                    if placed_ok(entry) {
                                        let g = crate::model::board_grid(s);
                                        assert(admits(new_sudoku, g));
                                        assert(admits(cur, g) && g[bxi][byi] == i as int);
                                        assert forall|a: Seq<Seq<int>>|
                                            #[trigger] admits(cur, a) && a[bxi][byi]
                                                < i as int + 1 implies a == g by {
                                            if a[bxi][byi] == i as int {
                                                assert(admits(new_sudoku, a));
                                            } else {
                                                assert(!(1 <= a[bxi][byi] < i as int));
                                                assert(is_digit(a[bxi][byi]));
                                                assert(false);
                                            }
                                        }
                                    }
                                }
                            },
                            Option::Some(prev_s) => {
                                proof {
                                    if placed_ok(entry) {
                                        let g1 = crate::model::board_grid(prev_s);
                                        let g2 = crate::model::board_grid(s);
                                        assert(admits(new_sudoku, g2));
                                        assert(admits(cur, g2) && g2[bxi][byi] == i as int);
                                        assert(g1[bxi][byi] < i as int);
                                        assert(g1 != g2);
                                        assert(admits(entry, g1) && admits(entry, g2));
                                    }
                                }
                                return SolutionCount::Multiple;
                            },
                        }
                    },
                    SolutionCount::Multiple => {
                        proof {
                            if placed_ok(entry) {
                                let (a1, a2) = choose|a1: Seq<Seq<int>>, a2: Seq<Seq<int>>|
                                    #![trigger admits(new_sudoku, a1), admits(new_sudoku, a2)]
                                    admits(new_sudoku, a1) && admits(new_sudoku, a2) && a1 != a2;
                                assert(admits(cur, a1) && admits(cur, a2));
                                assert(admits(entry, a1) && admits(entry, a2));
                            }
                        }
                        return SolutionCount::Multiple;
                    },
                }
            } else {
                proof {
                    if placed_ok(entry) {
                        assert forall|a: Seq<Seq<int>>| #[trigger] admits(cur, a) implies a[bxi][byi]
                            != i as int by {
                            if a[bxi][byi] == i as int {
                                assert(cand(cur, bxi, byi, i as int));
                            }
                        }
                    }
                }
            }
            i = i + 1;
        }
        match solution {
            Option::None => {
                proof {
                    if placed_ok(entry) {
                        assert forall|a: Seq<Seq<int>>| !admits(entry, a) by {
                            if admits(entry, a) {
                                assert(admits(cur, a));
                                assert(is_digit(a[bxi][byi]));
                                assert(!(1 <= a[bxi][byi] < 10));
                            }
                            assert(!admits(entry, a));
                        }
                    }
                }
                SolutionCount::Zero
            },
            Option::Some(s) => {
                proof {
                    if placed_ok(entry) {
                        let g = crate::model::board_grid(s);
                        assert(admits(entry, g));
                        assert forall|a: Seq<Seq<int>>| #[trigger] admits(entry, a) implies a
                            == g by {
                            assert(admits(cur, a));
                            assert(is_digit(a[bxi][byi]));
                        }
                    }
                }
                SolutionCount::One(s)
            },
        }
    }

    /// Removes both digits of a naked pair from one cell that shares a
    /// unit with both pair cells.  The ghost arguments name the two pair
    /// cells; the caller proves that every admitted assignment spends the
    /// two digits on them.
    #[verifier::rlimit(30)]
    fn eliminate_pair_from(
        &mut self,
        tx: usize,
        ty: usize,
        pair_a: usize,
        pair_b: usize,
        Ghost(px): Ghost<int>,
        Ghost(py): Ghost<int>,
        Ghost(qx): Ghost<int>,
        Ghost(qy): Ghost<int>,
    ) -> (hit: bool)
        requires
            wf(*old(self)),
            tx < 9,
            ty < 9,
            is_digit(pair_a as int),
            is_digit(pair_b as int),
            pair_a != pair_b,
            peers(tx as int, ty as int, px, py),
            peers(tx as int, ty as int, qx, qy),
            forall|a: Seq<Seq<int>>|
                #[trigger] admits(*old(self), a) ==> (a[px][py] == pair_a as int || a[px][py]
                    == pair_b as int) && (a[qx][qy] == pair_a as int || a[qx][qy]
                    == pair_b as int) && a[px][py] != a[qx][qy],
        ensures
            wf(*final(self)),
            final(self).board == old(self).board,
            final(self).clues == old(self).clues,
            empty_count(*final(self)) == empty_count(*old(self)),
            placed_ok(*old(self)) ==> placed_ok(*final(self)),
            forall|i: int, j: int, d: int|
                in_grid(i, j) && is_digit(d) ==> #[trigger] cand(*final(self), i, j, d) == (cand(
                    *old(self),
                    i,
                    j,
                    d,
                ) && !(i == tx as int && j == ty as int && (d == pair_a as int || d
                    == pair_b as int))),
            forall|a: Seq<Seq<int>>|
                #![trigger admits(*old(self), a)]
                #![trigger admits(*final(self), a)]
                admits(*final(self), a) == admits(*old(self), a),
            hit == (cand(*old(self), tx as int, ty as int, pair_a as int) || cand(
                *old(self),
                tx as int,
                ty as int,
                pair_b as int,
            )),
            !hit ==> *final(self) == *old(self),
    {
        let hit = self.is_possible_at(tx, ty, pair_a) || self.is_possible_at(tx, ty, pair_b);
        let ghost m0 = *self;
        proof {
            assert forall|a: Seq<Seq<int>>|
                #[trigger] admits(m0, a) && tile_at(m0, tx as int, ty as int)
                    is Void implies a[tx as int][ty as int] != pair_a as int by {
                assert(a[tx as int][ty as int] != a[px][py] && a[tx as int][ty as int]
                    != a[qx][qy]);
            }
        }
        self.remove_possible_at(tx, ty, pair_a);
        proof {
            lemma_remove_admits(m0, *self, tx as int, ty as int, pair_a as int);
        }
        let ghost m1 = *self;
        proof {
            assert forall|a: Seq<Seq<int>>|
                #[trigger] admits(m1, a) && tile_at(m1, tx as int, ty as int)
                    is Void implies a[tx as int][ty as int] != pair_b as int by {
                assert(admits(m0, a));
                assert(tile_at(m0, tx as int, ty as int) is Void);
                assert(a[tx as int][ty as int] != a[px][py] && a[tx as int][ty as int]
                    != a[qx][qy]);
            }
        }
        self.remove_possible_at(tx, ty, pair_b);
        proof {
            lemma_remove_admits(m1, *self, tx as int, ty as int, pair_b as int);
            lemma_tiles_same_props(m0, *self);
            if !hit {
                assert(m1 == m0);
                assert(*self == m1);
            }
        }
        hit
    }

    /// Scans the low nine bits of `m`: `Some(j)` exactly when bit `j` is
    /// the only one set.
    fn sole_bit(m: u16) -> (r: Option<u8>)
        ensures
            match r {
                Option::Some(j) => j < 9 && has_bit(m, j as u16) && (forall|k: u16|
                    k < 9 && k != j as u16 ==> !has_bit(m, k)),
                Option::None => (forall|k: u16| k < 9 ==> !has_bit(m, k)) || (exists|
                    k1: u16,
                    k2: u16,
                |
                    k1 < k2 < 9 && has_bit(m, k1) && has_bit(m, k2)),
            },
    {
        let mut cur: u16 = m;
        let mut count: usize = 0;
        let mut pos: u8 = 0;
        let mut k: usize = 0;
        proof {
            lemma_shift_zero(m);
        }
        while k < 9
            invariant
                k <= 9,
                count <= 2,
                cur == m >> (k as u16),
                count == 0 ==> forall|j: u16| j < k ==> !has_bit(m, j),
                count == 1 ==> pos < k && has_bit(m, pos as u16) && (forall|j: u16|
                    j < k && j != pos as u16 ==> !has_bit(m, j)),
                count >= 2 ==> exists|k1: u16, k2: u16|
                    k1 < k2 < 9 && has_bit(m, k1) && has_bit(m, k2),
            decreases 9 - k,
        {
            proof {
                lemma_scan_step(m, k as u16);
            }
            if cur % 2 == 1 {
                if count == 0 {
                    pos = k as u8;
                    count = 1;
                } else if count == 1 {
                    proof {
                        assert(has_bit(m, pos as u16) && has_bit(m, k as u16) && pos < k);
                    }
                    count = 2;
                } else {
                }
            }
            cur = cur >> 1u16;
            k = k + 1;
        }
        if count == 1 {
            Option::Some(pos)
        } else {
            Option::None
        }
    }

    /// Reduces the two cells of a hidden pair to its two digits: every
    /// other digit is eliminated from both cells.  The caller proves that
    /// any admitted assignment puts one of the two digits on each cell.
    #[verifier::rlimit(100)]
    #[verifier::spinoff_prover]
    fn eliminate_hidden_pair_cells(
        &mut self,
        c0x: usize,
        c0y: usize,
        c1x: usize,
        c1y: usize,
        nf: usize,
        ns: usize,
    ) -> (hit: bool)
        requires
            wf(*old(self)),
            c0x < 9,
            c0y < 9,
            c1x < 9,
            c1y < 9,
            is_digit(nf as int),
            is_digit(ns as int),
            nf != ns,
            forall|a: Seq<Seq<int>>|
                #[trigger] admits(*old(self), a) ==> (a[c0x as int][c0y as int] == nf as int
                    || a[c0x as int][c0y as int] == ns as int) && (a[c1x as int][c1y as int]
                    == nf as int || a[c1x as int][c1y as int] == ns as int),
        ensures
            wf(*final(self)),
            final(self).board == old(self).board,
            final(self).clues == old(self).clues,
            empty_count(*final(self)) == empty_count(*old(self)),
            placed_ok(*old(self)) ==> placed_ok(*final(self)),
            forall|i: int, j: int, d: int|
                in_grid(i, j) && is_digit(d) && #[trigger] cand(*final(self), i, j, d) ==> cand(
                    *old(self),
                    i,
                    j,
                    d,
                ),
            forall|a: Seq<Seq<int>>|
                #![trigger admits(*old(self), a)]
                #![trigger admits(*final(self), a)]
                admits(*final(self), a) == admits(*old(self), a),
            !hit ==> *final(self) == *old(self),
            !hit ==> forall|d: int|
                is_digit(d) && d != nf as int && d != ns as int ==> !#[trigger] cand(
                    *old(self),
                    c0x as int,
                    c0y as int,
                    d,
                ) && !cand(*old(self), c1x as int, c1y as int, d),
            hit ==> exists|i: int, j: int, d: int|
                in_grid(i, j) && is_digit(d) && #[trigger] cand(*old(self), i, j, d) && !cand(
                    *final(self),
                    i,
                    j,
                    d,
                ),
    {
        let ghost entry = *old(self);
        let mut hit = false;
        let mut val: usize = 1;
        while val < 10
            invariant
                entry == *old(self),
                wf(*self),
                c0x < 9,
                c0y < 9,
                c1x < 9,
                c1y < 9,
                is_digit(nf as int),
                is_digit(ns as int),
                nf != ns,
                1 <= val <= 10,
                !hit ==> forall|d: int|
                    is_digit(d) && d < val && d != nf as int && d != ns as int ==> !#[trigger] cand(
                        entry,
                        c0x as int,
                        c0y as int,
                        d,
                    ) && !cand(entry, c1x as int, c1y as int, d),
                self.board == entry.board,
                self.clues == entry.clues,
                empty_count(*self) == empty_count(entry),
                forall|i: int, j: int, d: int|
                    in_grid(i, j) && is_digit(d) && #[trigger] cand(*self, i, j, d) ==> cand(
                        entry,
                        i,
                        j,
                        d,
                    ),
                placed_ok(entry) ==> placed_ok(*self),
                forall|a: Seq<Seq<int>>|
                    #![trigger admits(entry, a)]
                    #![trigger admits(*self, a)]
                    admits(*self, a) == admits(entry, a),
                forall|a: Seq<Seq<int>>|
                    #[trigger] admits(entry, a) ==> (a[c0x as int][c0y as int] == nf as int
                        || a[c0x as int][c0y as int] == ns as int) && (a[c1x as int][c1y as int]
                        == nf as int || a[c1x as int][c1y as int] == ns as int),
                !hit ==> *self == entry,
                hit ==> exists|i: int, j: int, d: int|
                    in_grid(i, j) && is_digit(d) && #[trigger] cand(entry, i, j, d) && !cand(
                        *self,
                        i,
                        j,
                        d,
                    ),
            decreases 10 - val,
        {
            if val != nf && val != ns {
                let ghost before_val = *self;
                let h0 = self.is_possible_at(c0x, c0y, val);
                let h1 = self.is_possible_at(c1x, c1y, val);
                if h0 || h1 {
                    hit = true;
                }
                proof {
                    assert forall|a: Seq<Seq<int>>|
                        #[trigger] admits(*self, a) && tile_at(*self, c0x as int, c0y as int)
                            is Void implies a[c0x as int][c0y as int] != val as int by {
                        assert(admits(entry, a));
                    }
                }
                self.remove_sound(c0x, c0y, val);
                proof {
                    assert forall|a: Seq<Seq<int>>|
                        #[trigger] admits(*self, a) && tile_at(*self, c1x as int, c1y as int)
                            is Void implies a[c1x as int][c1y as int] != val as int by {
                        assert(admits(entry, a));
                    }
                }
                self.remove_sound(c1x, c1y, val);
                proof {
                    if hit {
                        if h0 {
                            assert(cand(entry, c0x as int, c0y as int, val as int));
                            assert(!cand(*self, c0x as int, c0y as int, val as int));
                        } else if h1 {
                            assert(cand(entry, c1x as int, c1y as int, val as int));
                            assert(!cand(*self, c1x as int, c1y as int, val as int));
                        } else {
                            let (i, j, d) = choose|i: int, j: int, d: int|
                                in_grid(i, j) && is_digit(d) && #[trigger] cand(entry, i, j, d)
                                    && !cand(before_val, i, j, d);
                            assert(!cand(*self, i, j, d));
                        }
                    } else {
                        assert(before_val == entry);
                        assert(!cand(entry, c0x as int, c0y as int, val as int));
                        assert(!cand(entry, c1x as int, c1y as int, val as int));
                    }
                }
            }
            val = val + 1;
        }
        hit
    }

    /// Reduces the three cells of a hidden triple to its three digits.
    #[verifier::rlimit(100)]
    #[verifier::spinoff_prover]
    fn eliminate_hidden_trip_cells(
        &mut self,
        c0x: usize,
        c0y: usize,
        c1x: usize,
        c1y: usize,
        c2x: usize,
        c2y: usize,
        n1: usize,
        n2: usize,
        n3: usize,
    ) -> (hit: bool)
        requires
            wf(*old(self)),
            c0x < 9,
            c0y < 9,
            c1x < 9,
            c1y < 9,
            c2x < 9,
            c2y < 9,
            is_digit(n1 as int),
            is_digit(n2 as int),
            is_digit(n3 as int),
            n1 != n2 && n1 != n3 && n2 != n3,
            forall|a: Seq<Seq<int>>|
                #[trigger] admits(*old(self), a) ==> (a[c0x as int][c0y as int] == n1 as int
                    || a[c0x as int][c0y as int] == n2 as int || a[c0x as int][c0y as int]
                    == n3 as int) && (a[c1x as int][c1y as int] == n1 as int
                    || a[c1x as int][c1y as int] == n2 as int || a[c1x as int][c1y as int]
                    == n3 as int) && (a[c2x as int][c2y as int] == n1 as int
                    || a[c2x as int][c2y as int] == n2 as int || a[c2x as int][c2y as int]
                    == n3 as int),
        ensures
            forall|i: int, j: int, d: int|
                in_grid(i, j) && is_digit(d) && #[trigger] cand(*final(self), i, j, d) ==> cand(
                    *old(self),
                    i,
                    j,
                    d,
                ),
            wf(*final(self)),
            final(self).board == old(self).board,
            final(self).clues == old(self).clues,
            empty_count(*final(self)) == empty_count(*old(self)),
            placed_ok(*old(self)) ==> placed_ok(*final(self)),
            forall|a: Seq<Seq<int>>|
                #![trigger admits(*old(self), a)]
                #![trigger admits(*final(self), a)]
                admits(*final(self), a) == admits(*old(self), a),
            !hit ==> *final(self) == *old(self),
            !hit ==> forall|d: int|
                is_digit(d) && d != n1 as int && d != n2 as int && d != n3 as int
                    ==> !#[trigger] cand(*old(self), c0x as int, c0y as int, d) && !cand(
                    *old(self),
                    c1x as int,
                    c1y as int,
                    d,
                ) && !cand(*old(self), c2x as int, c2y as int, d),
            hit ==> exists|i: int, j: int, d: int|
                in_grid(i, j) && is_digit(d) && #[trigger] cand(*old(self), i, j, d) && !cand(
                    *final(self),
                    i,
                    j,
                    d,
                ),
    {
        let ghost entry = *old(self);
        let mut hit = false;
        let mut val: usize = 1;
        while val < 10
            invariant
                entry == *old(self),
                wf(*self),
                c0x < 9,
                c0y < 9,
                c1x < 9,
                c1y < 9,
                c2x < 9,
                c2y < 9,
                is_digit(n1 as int),
                is_digit(n2 as int),
                is_digit(n3 as int),
                n1 != n2 && n1 != n3 && n2 != n3,
                1 <= val <= 10,
                !hit ==> forall|d: int|
                    is_digit(d) && d < val && d != n1 as int && d != n2 as int && d != n3 as int
                        ==> !#[trigger] cand(entry, c0x as int, c0y as int, d) && !cand(
                        entry,
                        c1x as int,
                        c1y as int,
                        d,
                    ) && !cand(entry, c2x as int, c2y as int, d),
                self.board == entry.board,
                self.clues == entry.clues,
                empty_count(*self) == empty_count(entry),
                placed_ok(entry) ==> placed_ok(*self),
                forall|a: Seq<Seq<int>>|
                    #![trigger admits(entry, a)]
                    #![trigger admits(*self, a)]
                    admits(*self, a) == admits(entry, a),
                forall|a: Seq<Seq<int>>|
                    #[trigger] admits(entry, a) ==> (a[c0x as int][c0y as int] == n1 as int
                        || a[c0x as int][c0y as int] == n2 as int || a[c0x as int][c0y as int]
                        == n3 as int) && (a[c1x as int][c1y as int] == n1 as int
                        || a[c1x as int][c1y as int] == n2 as int || a[c1x as int][c1y as int]
                        == n3 as int) && (a[c2x as int][c2y as int] == n1 as int
                        || a[c2x as int][c2y as int] == n2 as int || a[c2x as int][c2y as int]
                        == n3 as int),
                forall|i: int, j: int, d: int|
                    in_grid(i, j) && is_digit(d) && #[trigger] cand(*self, i, j, d) ==> cand(
                        entry,
                        i,
                        j,
                        d,
                    ),
                !hit ==> *self == entry,
                hit ==> exists|i: int, j: int, d: int|
                    in_grid(i, j) && is_digit(d) && #[trigger] cand(entry, i, j, d) && !cand(
                        *self,
                        i,
                        j,
                        d,
                    ),
            decreases 10 - val,
        {
            if val != n1 && val != n2 && val != n3 {
                let ghost before_val = *self;
                let h0 = self.is_possible_at(c0x, c0y, val);
                let h1 = self.is_possible_at(c1x, c1y, val);
                let h2 = self.is_possible_at(c2x, c2y, val);
                if h0 || h1 || h2 {
                    hit = true;
                }
                proof {
                    assert forall|a: Seq<Seq<int>>|
                        #[trigger] admits(*self, a) && tile_at(*self, c0x as int, c0y as int)
                            is Void implies a[c0x as int][c0y as int] != val as int by {
                        assert(admits(entry, a));
                    }
                }
                self.remove_sound(c0x, c0y, val);
                proof {
                    assert forall|a: Seq<Seq<int>>|
                        #[trigger] admits(*self, a) && tile_at(*self, c1x as int, c1y as int)
                            is Void implies a[c1x as int][c1y as int] != val as int by {
                        assert(admits(entry, a));
                    }
                }
                self.remove_sound(c1x, c1y, val);
                proof {
                    assert forall|a: Seq<Seq<int>>|
                        #[trigger] admits(*self, a) && tile_at(*self, c2x as int, c2y as int)
                            is Void implies a[c2x as int][c2y as int] != val as int by {
                        assert(admits(entry, a));
                    }
                }
                self.remove_sound(c2x, c2y, val);
                proof {
                    if hit {
                        if h0 {
                            assert(cand(entry, c0x as int, c0y as int, val as int));
                            assert(!cand(*self, c0x as int, c0y as int, val as int));
                        } else if h1 {
                            assert(cand(entry, c1x as int, c1y as int, val as int));
                            assert(!cand(*self, c1x as int, c1y as int, val as int));
                        } else if h2 {
                            assert(cand(entry, c2x as int, c2y as int, val as int));
                            assert(!cand(*self, c2x as int, c2y as int, val as int));
                        } else {
                            let (i, j, d) = choose|i: int, j: int, d: int|
                                in_grid(i, j) && is_digit(d) && #[trigger] cand(entry, i, j, d)
                                    && !cand(before_val, i, j, d);
                            assert(!cand(*self, i, j, d));
                        }
                    }
                }
            }
            val = val + 1;
        }
        hit
    }

    /// Scans the low nine bits of `m`: some set bit, if there is one.
    fn first_bit(m: u16) -> (r: Option<u8>)
        ensures
            match r {
                Option::Some(j) => j < 9 && has_bit(m, j as u16),
                Option::None => forall|k: u16| k < 9 ==> !has_bit(m, k),
            },
    {
        let mut cur: u16 = m;
        let mut k: usize = 0;
        proof {
            lemma_shift_zero(m);
        }
        while k < 9
            invariant
                k <= 9,
                cur == m >> (k as u16),
                forall|j: u16| j < k ==> !has_bit(m, j),
            decreases 9 - k,
        {
            proof {
                lemma_scan_step(m, k as u16);
            }
            if cur % 2 == 1 {
                return Option::Some(k as u8);
            }
            cur = cur >> 1u16;
            k = k + 1;
        }
        Option::None
    }

    /// Scans the low nine bits of `m`: `Some((j0, j1))` exactly when two
    /// bits are set, in increasing order.
    fn two_bits(m: u16) -> (r: Option<(u8, u8)>)
        ensures
            match r {
                Option::Some(p) => exactly_two_bits(m, p.0, p.1),
                Option::None => forall|j0: u8, j1: u8| !exactly_two_bits(m, j0, j1),
            },
    {
        let mut cur: u16 = m;
        let mut count: usize = 0;
        let mut p0: u8 = 0;
        let mut p1: u8 = 0;
        let mut k: usize = 0;
        proof {
            lemma_shift_zero(m);
        }
        while k < 9
            invariant
                k <= 9,
                count <= 3,
                cur == m >> (k as u16),
                count == 0 ==> forall|j: u16| j < k ==> !has_bit(m, j),
                count == 1 ==> p0 < k && has_bit(m, p0 as u16) && (forall|j: u16|
                    j < k && j != p0 as u16 ==> !has_bit(m, j)),
                count == 2 ==> p0 < p1 < k && has_bit(m, p0 as u16) && has_bit(m, p1 as u16) && (
                forall|j: u16| j < k && j != p0 as u16 && j != p1 as u16 ==> !has_bit(m, j)),
                count >= 3 ==> exists|k1: u16, k2: u16, k3: u16|
                    k1 < k2 < k3 < 9 && has_bit(m, k1) && has_bit(m, k2) && has_bit(m, k3),
            decreases 9 - k,
        {
            proof {
                lemma_scan_step(m, k as u16);
            }
            if cur % 2 == 1 {
                if count == 0 {
                    p0 = k as u8;
                    count = 1;
                } else if count == 1 {
                    p1 = k as u8;
                    count = 2;
                } else if count == 2 {
                    proof {
                        assert(p0 < p1 < k && has_bit(m, p0 as u16) && has_bit(m, p1 as u16)
                            && has_bit(m, k as u16));
                    }
                    count = 3;
                } else {
                }
            }
            cur = cur >> 1u16;
            k = k + 1;
        }
        if count == 2 {
            Option::Some((p0, p1))
        } else {
            proof {
                assert forall|j0: u8, j1: u8| !exactly_two_bits(m, j0, j1) by {
                    if exactly_two_bits(m, j0, j1) {
                        if count >= 3 {
                            let (k1, k2, k3) = choose|k1: u16, k2: u16, k3: u16|
                                #![trigger has_bit(m, k1), has_bit(m, k2), has_bit(m, k3)]
                                k1 < k2 < k3 < 9 && has_bit(m, k1) && has_bit(m, k2) && has_bit(
                                    m,
                                    k3,
                                );
                            assert(false);
                        } else {
                            assert(has_bit(m, j0 as u16) && has_bit(m, j1 as u16));
                            assert(false);
                        }
                    }
                }
            }
            Option::None
        }
    }

    /// Scans the low nine bits of `m`: `Some((j0, j1, j2))` exactly when
    /// three bits are set, in increasing order.
    fn three_bits(m: u16) -> (r: Option<(u8, u8, u8)>)
        ensures
            match r {
                Option::Some(p) => exactly_three_bits(m, p.0, p.1, p.2),
                Option::None => forall|j0: u8, j1: u8, j2: u8| !exactly_three_bits(m, j0, j1, j2),
            },
    {
        let mut cur: u16 = m;
        let mut count: usize = 0;
        let mut p0: u8 = 0;
        let mut p1: u8 = 0;
        let mut p2: u8 = 0;
        let mut k: usize = 0;
        proof {
            lemma_shift_zero(m);
        }
        while k < 9
            invariant
                k <= 9,
                count <= 4,
                cur == m >> (k as u16),
                count == 0 ==> forall|j: u16| j < k ==> !has_bit(m, j),
                count == 1 ==> p0 < k && has_bit(m, p0 as u16) && (forall|j: u16|
                    j < k && j != p0 as u16 ==> !has_bit(m, j)),
                count == 2 ==> p0 < p1 < k && has_bit(m, p0 as u16) && has_bit(m, p1 as u16) && (
                forall|j: u16| j < k && j != p0 as u16 && j != p1 as u16 ==> !has_bit(m, j)),
                count == 3 ==> p0 < p1 < p2 < k && has_bit(m, p0 as u16) && has_bit(m, p1 as u16)
                    && has_bit(m, p2 as u16) && (forall|j: u16|
                    j < k && j != p0 as u16 && j != p1 as u16 && j != p2 as u16 ==> !has_bit(
                        m,
                        j,
                    )),
                count >= 4 ==> exists|k1: u16, k2: u16, k3: u16, k4: u16|
                    k1 < k2 < k3 < k4 < 9 && has_bit(m, k1) && has_bit(m, k2) && has_bit(m, k3)
                        && has_bit(m, k4),
            decreases 9 - k,
        {
            proof {
                lemma_scan_step(m, k as u16);
            }
            if cur % 2 == 1 {
                if count == 0 {
                    p0 = k as u8;
                    count = 1;
                } else if count == 1 {
                    p1 = k as u8;
                    count = 2;
                } else if count == 2 {
                    p2 = k as u8;
                    count = 3;
                } else if count == 3 {
                    proof {
                        assert(p0 < p1 < p2 < k && has_bit(m, p0 as u16) && has_bit(m, p1 as u16)
                            && has_bit(m, p2 as u16) && has_bit(m, k as u16));
                    }
                    count = 4;
                } else {
                }
            }
            cur = cur >> 1u16;
            k = k + 1;
        }
        if count == 3 {
            Option::Some((p0, p1, p2))
        } else {
            proof {
                assert forall|j0: u8, j1: u8, j2: u8| !exactly_three_bits(m, j0, j1, j2) by {
                    if exactly_three_bits(m, j0, j1, j2) {
                        if count >= 4 {
                            let (k1, k2, k3, k4) = choose|k1: u16, k2: u16, k3: u16, k4: u16|
                                #![trigger has_bit(m, k1), has_bit(m, k2), has_bit(m, k3), has_bit(m, k4)]
                                k1 < k2 < k3 < k4 < 9 && has_bit(m, k1) && has_bit(m, k2)
                                    && has_bit(m, k3) && has_bit(m, k4);
                            assert(false);
                        } else {
                            assert(has_bit(m, j0 as u16) && has_bit(m, j1 as u16) && has_bit(
                                m,
                                j2 as u16,
                            ));
                            assert(false);
                        }
                    }
                }
            }
            Option::None
        }
    }

    /// Looks at one cell: returns its naked single (the only digit still
    /// possible there) together with a contradiction flag that is set
    /// exactly when the cell is empty yet no digit is possible at all.
    pub fn get_naked_single(&mut self, x_pos: usize, y_pos: usize) -> (r: (Tile, bool))
        requires
            x_pos < 9,
            y_pos < 9,
        ensures
            *final(self) == *old(self),
            r.1 == (tile_at(*old(self), x_pos as int, y_pos as int) is Void && (forall|d: int|
                is_digit(d) ==> !cand(*old(self), x_pos as int, y_pos as int, d))),
            r.0 matches Tile::Num(v) ==> {
                &&& is_digit(v as int)
                &&& tile_at(*old(self), x_pos as int, y_pos as int) is Void
                &&& cand(*old(self), x_pos as int, y_pos as int, v as int)
                &&& forall|d: int|
                    is_digit(d) && cand(*old(self), x_pos as int, y_pos as int, d) ==> d == v as int
            },
            r.0 is Void ==> !cell_forced(*old(self), x_pos as int, y_pos as int),
    {
        if self.board[x_pos][y_pos] != Tile::Void {
            return (Tile::Void, false);
        }
        let mut res = Tile::Void;
        let mut i: usize = 1;
        while i < 10
            invariant
                x_pos < 9,
                y_pos < 9,
                1 <= i <= 10,
                *self == *old(self),
                tile_at(*old(self), x_pos as int, y_pos as int) is Void,
                res is Void ==> forall|d: int|
                    1 <= d < i ==> !cand(*old(self), x_pos as int, y_pos as int, d),
                res matches Tile::Num(v) ==> {
                    &&& 1 <= v < i && v <= 9
                    &&& cand(*old(self), x_pos as int, y_pos as int, v as int)
                    &&& forall|d: int|
                        1 <= d < i && cand(*old(self), x_pos as int, y_pos as int, d) ==> d
                            == v as int
                },
            decreases 10 - i,
        {
            if self.is_possible_at(x_pos, y_pos, i) {
                if res == Tile::Void {
                    res = Tile::Num(i)
                } else {
                    proof {
                        if let Tile::Num(v) = res {
                            assert(is_digit(v as int) && cand(
                                *old(self),
                                x_pos as int,
                                y_pos as int,
                                v as int,
                            ));
                            assert(!(forall|d: int|
                                is_digit(d) ==> !cand(*old(self), x_pos as int, y_pos as int, d)));
                            if cell_forced(*old(self), x_pos as int, y_pos as int) {
                                let dd = choose|d: int|
                                    is_digit(d) && #[trigger] cand(
                                        *old(self),
                                        x_pos as int,
                                        y_pos as int,
                                        d,
                                    ) && (forall|e: int|
                                        is_digit(e) && #[trigger] cand(
                                            *old(self),
                                            x_pos as int,
                                            y_pos as int,
                                            e,
                                        ) ==> e == d);
                                assert(v as int == dd && i as int == dd);
                                assert(false);
                            }
                        }
                    }
                    return (Tile::Void, false);
                }
            }
            i = i + 1;
        }
        proof {
            if let Tile::Num(v) = res {
                assert(is_digit(v as int) && cand(
                    *old(self),
                    x_pos as int,
                    y_pos as int,
                    v as int,
                ));
                assert(!(forall|d: int|
                    is_digit(d) ==> !cand(*old(self), x_pos as int, y_pos as int, d)));
            } else {
                if cell_forced(*old(self), x_pos as int, y_pos as int) {
                    let dd = choose|d: int|
                        is_digit(d) && #[trigger] cand(*old(self), x_pos as int, y_pos as int, d)
                            && (forall|e: int|
                            is_digit(e) && #[trigger] cand(
                                *old(self),
                                x_pos as int,
                                y_pos as int,
                                e,
                            ) ==> e == d);
                    assert(false);
                }
            }
        }
        (res, res == Tile::Void)
    }

    /// Looks at one cell: both tiles are digits exactly when the cell has
    /// exactly two candidates, in increasing order; otherwise both are
    /// empty.
    pub fn get_naked_pair(&mut self, x_pos: usize, y_pos: usize) -> (r: (Tile, Tile))
        requires
            x_pos < 9,
            y_pos < 9,
        ensures
            *final(self) == *old(self),
            r.0 matches Tile::Num(v1) ==> (r.1 matches Tile::Num(v2) ==> {
                &&& is_digit(v1 as int) && is_digit(v2 as int) && v1 < v2
                &&& cand(*old(self), x_pos as int, y_pos as int, v1 as int)
                &&& cand(*old(self), x_pos as int, y_pos as int, v2 as int)
                &&& forall|d: int|
                    is_digit(d) && cand(*old(self), x_pos as int, y_pos as int, d) ==> d
                        == v1 as int || d == v2 as int
            }),
            !(r.0 is Num && r.1 is Num) ==> r.0 is Void && r.1 is Void && !cell_pair_cands(
                *old(self),
                x_pos as int,
                y_pos as int,
            ),
    {
        let mut first = Tile::Void;
        let mut second = Tile::Void;
        let mut i: usize = 1;
        while i < 10
            invariant
                x_pos < 9,
                y_pos < 9,
                1 <= i <= 10,
                *self == *old(self),
                first is Void ==> second is Void,
                first is Void ==> forall|d: int|
                    1 <= d < i ==> !cand(*old(self), x_pos as int, y_pos as int, d),
                first matches Tile::Num(v1) ==> {
                    &&& 1 <= v1 < i && v1 <= 9
                    &&& cand(*old(self), x_pos as int, y_pos as int, v1 as int)
                },
                first matches Tile::Num(v1) ==> (second is Void ==> forall|d: int|
                    1 <= d < i && cand(*old(self), x_pos as int, y_pos as int, d) ==> d
                        == v1 as int),
                second matches Tile::Num(v2) ==> {
                    &&& 1 <= v2 < i && v2 <= 9
                    &&& cand(*old(self), x_pos as int, y_pos as int, v2 as int)
                    &&& first matches Tile::Num(v1) && v1 < v2
                    &&& forall|d: int|
                        1 <= d < i && cand(*old(self), x_pos as int, y_pos as int, d) ==> (first
                            matches Tile::Num(v1) && d == v1 as int) || d == v2 as int
                },
            decreases 10 - i,
        {
            if self.is_possible_at(x_pos, y_pos, i) {
                if first == Tile::Void {
                    first = Tile::Num(i)
                } else if second == Tile::Void {
                    second = Tile::Num(i)
                } else {
                    proof {
                        if let Tile::Num(v1) = first {
                            if let Tile::Num(v2) = second {
                                if cell_pair_cands(*old(self), x_pos as int, y_pos as int) {
                                    let (d1, d2) = choose|d1: int, d2: int|
                                        #![trigger cand(*old(self), x_pos as int, y_pos as int, d1), cand(*old(self), x_pos as int, y_pos as int, d2)]
                                        is_digit(d1) && is_digit(d2) && d1 < d2 && cand(
                                            *old(self),
                                            x_pos as int,
                                            y_pos as int,
                                            d1,
                                        ) && cand(*old(self), x_pos as int, y_pos as int, d2) && (
                                        forall|e: int|
                                            is_digit(e) && #[trigger] cand(
                                                *old(self),
                                                x_pos as int,
                                                y_pos as int,
                                                e,
                                            ) ==> e == d1 || e == d2);
                                    assert(v1 as int == d1 || v1 as int == d2);
                                    assert(v2 as int == d1 || v2 as int == d2);
                                    assert(i as int == d1 || i as int == d2);
                                    assert(false);
                                }
                            }
                        }
                    }
                    return (Tile::Void, Tile::Void);
                }
            }
            i = i + 1;
        }
        if second == Tile::Void {
            proof {
                if cell_pair_cands(*old(self), x_pos as int, y_pos as int) {
                    let (d1, d2) = choose|d1: int, d2: int|
                        #![trigger cand(*old(self), x_pos as int, y_pos as int, d1), cand(*old(self), x_pos as int, y_pos as int, d2)]
                        is_digit(d1) && is_digit(d2) && d1 < d2 && cand(
                            *old(self),
                            x_pos as int,
                            y_pos as int,
                            d1,
                        ) && cand(*old(self), x_pos as int, y_pos as int, d2) && (forall|e: int|
                            is_digit(e) && #[trigger] cand(
                                *old(self),
                                x_pos as int,
                                y_pos as int,
                                e,
                            ) ==> e == d1 || e == d2);
                    match first {
                        Tile::Void => {
                            assert(!cand(*old(self), x_pos as int, y_pos as int, d1));
                        },
                        Tile::Num(v1) => {
                            assert(v1 as int == d1 || v1 as int == d2);
                            assert(!cand(*old(self), x_pos as int, y_pos as int, d1) || !cand(
                                *old(self),
                                x_pos as int,
                                y_pos as int,
                                d2,
                            ));
                        },
                    }
                    assert(false);
                }
            }
            return (Tile::Void, Tile::Void);
        }
        (first, second)
    }

    /// One pass of a last-remaining rule: for every column and digit, if
    /// the column index leaves exactly one row for the digit, places it
    /// there.  Sound: any admitted assignment must use that row.
    pub fn fill_last_in_column(&mut self, debug: bool) -> (changed: bool)
        requires
            wf(*old(self)),
        ensures
            sound_step(*old(self), *final(self)),
            !changed ==> *final(self) == *old(self),
            changed ==> empty_count(*final(self)) < empty_count(*old(self)),
            !changed ==> forall|x: int, d: int|
                0 <= x < 9 && is_digit(d) ==> !column_forced(*old(self), x, d),
    {
        let ghost entry = *old(self);
        let mut changed = false;
        let mut x: usize = 0;
        while x < 9
            invariant
                entry == *old(self),
                wf(*self),
                x <= 9,
                sound_step(entry, *self),
                !changed ==> *self == entry,
                changed ==> empty_count(*self) < empty_count(entry),
                !changed ==> forall|x2: int, d: int|
                    0 <= x2 < x && is_digit(d) ==> !column_forced(entry, x2, d),
            decreases 9 - x,
        {
            let mut val: usize = 1;
            while val < 10
                invariant
                    entry == *old(self),
                    wf(*self),
                    x < 9,
                    1 <= val <= 10,
                    sound_step(entry, *self),
                    !changed ==> *self == entry,
                    changed ==> empty_count(*self) < empty_count(entry),
                    !changed ==> forall|x2: int, d: int|
                        0 <= x2 < x && is_digit(d) ==> !column_forced(entry, x2, d),
                    !changed ==> forall|d: int|
                        1 <= d < val ==> !column_forced(entry, x as int, d),
                decreases 10 - val,
            {
                let m = self.column_possible[x][val - 1];
                match Self::sole_bit(m) {
                    Option::None => {
                        proof {
                            if !changed && column_forced(entry, x as int, val as int) {
                                let yw = choose|y: int|
                                    0 <= y < 9 && #[trigger] cand(entry, x as int, y, val as int)
                                        && (forall|y2: int|
                                        0 <= y2 < 9 && #[trigger] cand(
                                            entry,
                                            x as int,
                                            y2,
                                            val as int,
                                        ) ==> y2 == y);
                                assert(col_bit(entry, x as int, yw, val as int));
                                assert(has_bit(m, yw as u16));
                                if exists|k1: u16, k2: u16|
                                    #![trigger has_bit(m, k1), has_bit(m, k2)]
                                    k1 < k2 < 9 && has_bit(m, k1) && has_bit(m, k2) {
                                    let (k1, k2) = choose|k1: u16, k2: u16|
                                        #![trigger has_bit(m, k1), has_bit(m, k2)]
                                        k1 < k2 < 9 && has_bit(m, k1) && has_bit(m, k2);
                                    assert(col_bit(entry, x as int, k1 as int, val as int));
                                    assert(col_bit(entry, x as int, k2 as int, val as int));
                                    assert(cand(entry, x as int, k1 as int, val as int));
                                    assert(cand(entry, x as int, k2 as int, val as int));
                                    assert(k1 as int == yw && k2 as int == yw);
                                    assert(false);
                                } else {
                                    assert(!has_bit(m, yw as u16));
                                    assert(false);
                                }
                            }
                        }
                    },
                    Option::Some(j) => {
                        let y = j as usize;
                        let ghost before = *self;
                        proof {
                            assert(col_bit(before, x as int, y as int, val as int));
                            assert(cand(before, x as int, y as int, val as int));
                            assert(tile_at(before, x as int, y as int) is Void);
                            assert forall|a: Seq<Seq<int>>| #[trigger] admits(
                                before,
                                a,
                            ) implies a[x as int][y as int] == val as int by {
                                lemma_column_digit_at_cand(
                                    before,
                                    a,
                                    x as int,
                                    val as int,
                                    y as int,
                                );
                                let ys = choose|ys: int|
                                    0 <= ys < 9 && #[trigger] a[x as int][ys] == val as int
                                        && tile_at(before, x as int, ys) is Void && cand(
                                        before,
                                        x as int,
                                        ys,
                                        val as int,
                                    );
                                assert(col_bit(before, x as int, ys, val as int));
                                assert(has_bit(m, ys as u16));
                                assert(ys == y as int);
                            }
                        }
                        self.set_tile_at(x, y, Tile::Num(val));
                        changed = true;
                        proof {
                            lemma_forced_place_sound(
                                entry,
                                before,
                                *self,
                                x as int,
                                y as int,
                                val as int,
                            );
                        }
                    },
                }
                val = val + 1;
            }
            x = x + 1;
        }
        changed
    }

    /// The same rule over the row index: for every row and digit, if only
    /// one column can still take the digit, places it there.
    pub fn fill_last_in_row(&mut self, debug: bool) -> (changed: bool)
        requires
            wf(*old(self)),
        ensures
            sound_step(*old(self), *final(self)),
            !changed ==> *final(self) == *old(self),
            changed ==> empty_count(*final(self)) < empty_count(*old(self)),
            !changed ==> forall|y: int, d: int|
                0 <= y < 9 && is_digit(d) ==> !row_forced(*old(self), y, d),
    {
        let ghost entry = *old(self);
        let mut changed = false;
        let mut y: usize = 0;
        while y < 9
            invariant
                entry == *old(self),
                wf(*self),
                y <= 9,
                sound_step(entry, *self),
                !changed ==> *self == entry,
                changed ==> empty_count(*self) < empty_count(entry),
                !changed ==> forall|y2: int, d: int|
                    0 <= y2 < y && is_digit(d) ==> !row_forced(entry, y2, d),
            decreases 9 - y,
        {
            let mut val: usize = 1;
            while val < 10
                invariant
                    entry == *old(self),
                    wf(*self),
                    y < 9,
                    1 <= val <= 10,
                    sound_step(entry, *self),
                    !changed ==> *self == entry,
                    changed ==> empty_count(*self) < empty_count(entry),
                    !changed ==> forall|y2: int, d: int|
                        0 <= y2 < y && is_digit(d) ==> !row_forced(entry, y2, d),
                    !changed ==> forall|d: int|
                        1 <= d < val ==> !row_forced(entry, y as int, d),
                decreases 10 - val,
            {
                let m = self.row_possible[y][val - 1];
                match Self::sole_bit(m) {
                    Option::None => {
                        proof {
                            if !changed && row_forced(entry, y as int, val as int) {
                                let xw = choose|xq: int|
                                    0 <= xq < 9 && #[trigger] cand(entry, xq, y as int, val as int)
                                        && (forall|x2: int|
                                        0 <= x2 < 9 && #[trigger] cand(
                                            entry,
                                            x2,
                                            y as int,
                                            val as int,
                                        ) ==> x2 == xq);
                                assert(row_bit(entry, xw, y as int, val as int));
                                assert(has_bit(m, xw as u16));
                                if exists|k1: u16, k2: u16|
                                    #![trigger has_bit(m, k1), has_bit(m, k2)]
                                    k1 < k2 < 9 && has_bit(m, k1) && has_bit(m, k2) {
                                    let (k1, k2) = choose|k1: u16, k2: u16|
                                        #![trigger has_bit(m, k1), has_bit(m, k2)]
                                        k1 < k2 < 9 && has_bit(m, k1) && has_bit(m, k2);
                                    assert(row_bit(entry, k1 as int, y as int, val as int));
                                    assert(row_bit(entry, k2 as int, y as int, val as int));
                                    assert(cand(entry, k1 as int, y as int, val as int));
                                    assert(cand(entry, k2 as int, y as int, val as int));
                                    assert(k1 as int == xw && k2 as int == xw);
                                    assert(false);
                                } else {
                                    assert(!has_bit(m, xw as u16));
                                    assert(false);
                                }
                            }
                        }
                    },
                    Option::Some(j) => {
                        let x = j as usize;
                        let ghost before = *self;
                        proof {
                            assert(row_bit(before, x as int, y as int, val as int));
                            assert(cand(before, x as int, y as int, val as int));
                            assert(tile_at(before, x as int, y as int) is Void);
                            assert forall|a: Seq<Seq<int>>| #[trigger] admits(
                                before,
                                a,
                            ) implies a[x as int][y as int] == val as int by {
                                lemma_row_digit_at_cand(before, a, y as int, val as int, x as int);
                                let xs = choose|xs: int|
                                    0 <= xs < 9 && #[trigger] a[xs][y as int] == val as int
                                        && tile_at(before, xs, y as int) is Void && cand(
                                        before,
                                        xs,
                                        y as int,
                                        val as int,
                                    );
                                assert(row_bit(before, xs, y as int, val as int));
                                assert(has_bit(m, xs as u16));
                                assert(xs == x as int);
                            }
                        }
                        self.set_tile_at(x, y, Tile::Num(val));
                        changed = true;
                        proof {
                            lemma_forced_place_sound(
                                entry,
                                before,
                                *self,
                                x as int,
                                y as int,
                                val as int,
                            );
                        }
                    },
                }
                val = val + 1;
            }
            y = y + 1;
        }
        changed
    }

    /// The same rule over the box index: for every box and digit, if only
    /// one in-box position can still take the digit, places it there.
    pub fn fill_last_in_box(&mut self, debug: bool) -> (changed: bool)
        requires
            wf(*old(self)),
        ensures
            sound_step(*old(self), *final(self)),
            !changed ==> *final(self) == *old(self),
            changed ==> empty_count(*final(self)) < empty_count(*old(self)),
            !changed ==> forall|b: int, d: int|
                0 <= b < 9 && is_digit(d) ==> !box_forced(*old(self), b, d),
    {
        let ghost entry = *old(self);
        let mut changed = false;
        let mut bi: usize = 0;
        while bi < 3
            invariant
                entry == *old(self),
                wf(*self),
                bi <= 3,
                sound_step(entry, *self),
                !changed ==> *self == entry,
                changed ==> empty_count(*self) < empty_count(entry),
                !changed ==> forall|b: int, d: int|
                    0 <= b < 9 && b % 3 < bi && is_digit(d) ==> !box_forced(entry, b, d),
            decreases 3 - bi,
        {
            let mut bj: usize = 0;
            while bj < 3
                invariant
                    entry == *old(self),
                    wf(*self),
                    bi < 3,
                    bj <= 3,
                    sound_step(entry, *self),
                    !changed ==> *self == entry,
                    changed ==> empty_count(*self) < empty_count(entry),
                    !changed ==> forall|b: int, d: int|
                        0 <= b < 9 && b % 3 < bi && is_digit(d) ==> !box_forced(entry, b, d),
                    !changed ==> forall|b: int, d: int|
                        0 <= b < 9 && b % 3 == bi && b / 3 < bj && is_digit(d) ==> !box_forced(
                            entry,
                            b,
                            d,
                        ),
                decreases 3 - bj,
            {
                let box_index = bi + 3 * bj;
                let mut val: usize = 1;
                while val < 10
                    invariant
                        entry == *old(self),
                        wf(*self),
                        bi < 3,
                        bj < 3,
                        box_index == bi + 3 * bj,
                        1 <= val <= 10,
                        sound_step(entry, *self),
                        !changed ==> *self == entry,
                        changed ==> empty_count(*self) < empty_count(entry),
                        !changed ==> forall|b: int, d: int|
                            0 <= b < 9 && b % 3 < bi && is_digit(d) ==> !box_forced(entry, b, d),
                        !changed ==> forall|b: int, d: int|
                            0 <= b < 9 && b % 3 == bi && b / 3 < bj && is_digit(d) ==> !box_forced(
                                entry,
                                b,
                                d,
                            ),
                        !changed ==> forall|d: int|
                            1 <= d < val ==> !box_forced(entry, box_index as int, d),
                    decreases 10 - val,
                {
                    let m = self.box_possible[box_index][val - 1];
                    match Self::sole_bit(m) {
                        Option::None => {
                            proof {
                                if !changed && box_forced(entry, box_index as int, val as int) {
                                    let (iw, jw) = choose|iw: int, jw: int|
                                        in_grid(iw, jw) && box_of(iw, jw) == box_index as int
                                            && #[trigger] cand(entry, iw, jw, val as int) && (
                                        forall|i2: int, j2: int|
                                            in_grid(i2, j2) && box_of(i2, j2) == box_index as int
                                                && #[trigger] cand(entry, i2, j2, val as int)
                                                ==> i2 == iw && j2 == jw);
                                    assert(box_bit(entry, iw, jw, val as int));
                                    assert(0 <= box_slot(iw, jw) < 9);
                                    assert(has_bit(m, box_slot(iw, jw) as u16));
                                    if exists|k1: u16, k2: u16|
                                        #![trigger has_bit(m, k1), has_bit(m, k2)]
                                        k1 < k2 < 9 && has_bit(m, k1) && has_bit(m, k2) {
                                        let (k1, k2) = choose|k1: u16, k2: u16|
                                            #![trigger has_bit(m, k1), has_bit(m, k2)]
                                            k1 < k2 < 9 && has_bit(m, k1) && has_bit(m, k2);
                                        crate::model::lemma_box_enum(box_index as int, k1 as int);
                                        crate::model::lemma_box_enum(box_index as int, k2 as int);
                                        let c1x = crate::model::box_cell_x(
                                            box_index as int,
                                            k1 as int,
                                        );
                                        let c1y = crate::model::box_cell_y(
                                            box_index as int,
                                            k1 as int,
                                        );
                                        let c2x = crate::model::box_cell_x(
                                            box_index as int,
                                            k2 as int,
                                        );
                                        let c2y = crate::model::box_cell_y(
                                            box_index as int,
                                            k2 as int,
                                        );
                                        assert(box_bit(entry, c1x, c1y, val as int));
                                        assert(box_bit(entry, c2x, c2y, val as int));
                                        assert(cand(entry, c1x, c1y, val as int));
                                        assert(cand(entry, c2x, c2y, val as int));
                                        assert(c1x == iw && c1y == jw && c2x == iw && c2y == jw);
                                        assert(box_slot(c1x, c1y) == box_slot(c2x, c2y));
                                        assert(false);
                                    } else {
                                        assert(!has_bit(m, box_slot(iw, jw) as u16));
                                        assert(false);
                                    }
                                }
                            }
                        },
                        Option::Some(j) => {
                            let dx = (j as usize) % 3;
                            let dy = (j as usize) / 3;
                            let x = 3 * bi + dx;
                            let y = 3 * bj + dy;
                            let ghost before = *self;
                            proof {
                                lemma_box_coords(bi as int, bj as int, dx as int, dy as int);
                                assert(box_slot(x as int, y as int) == j as int);
                                assert(box_of(x as int, y as int) == box_index as int);
                                assert(box_bit(before, x as int, y as int, val as int));
                                assert(cand(before, x as int, y as int, val as int));
                                assert(tile_at(before, x as int, y as int) is Void);
                                assert forall|a: Seq<Seq<int>>| #[trigger] admits(
                                    before,
                                    a,
                                ) implies a[x as int][y as int] == val as int by {
                                    lemma_box_digit_at_cand(
                                        before,
                                        a,
                                        x as int,
                                        y as int,
                                        val as int,
                                    );
                                    let (p, q) = choose|p: int, q: int|
                                        in_grid(p, q) && box_of(p, q) == box_of(
                                            x as int,
                                            y as int,
                                        ) && #[trigger] a[p][q] == val as int && tile_at(
                                            before,
                                            p,
                                            q,
                                        ) is Void && cand(before, p, q, val as int);
                                    assert(box_bit(before, p, q, val as int));
                                    assert(has_bit(m, box_slot(p, q) as u16));
                                    assert(box_slot(p, q) == j as int);
                                    lemma_box_slot_injective(p, q, x as int, y as int);
                                }
                            }
                            self.set_tile_at(x, y, Tile::Num(val));
                            changed = true;
                            proof {
                                lemma_forced_place_sound(
                                    entry,
                                    before,
                                    *self,
                                    x as int,
                                    y as int,
                                    val as int,
                                );
                            }
                        },
                    }
                    val = val + 1;
                }
                bj = bj + 1;
            }
            bi = bi + 1;
        }
        changed
    }

    /// One pass of the naked-pair rule: whenever two cells of one unit
    /// both hold exactly the same two candidates, no other cell of that
    /// unit can take either digit, so both are eliminated there.  Pairs
    /// found earlier in the scan are matched against each newly found one.
    pub fn apply_naked_pairs(&mut self, debug: bool) -> (changed: bool)
        requires
            wf(*old(self)),
        ensures
            sound_step(*old(self), *final(self)),
            final(self).board == old(self).board,
            !changed ==> *final(self) == *old(self),
            changed ==> *final(self) != *old(self),
    {
        let ghost entry = *old(self);
        let mut changed = false;
        let mut naked_pair_list: Vec<((Tile, Tile), usize, usize)> = Vec::new();
        let mut x: usize = 0;
        while x < 9
            invariant
                entry == *old(self),
                wf(*self),
                x <= 9,
                sound_step(entry, *self),
                self.board == entry.board,
                !changed ==> *self == entry,
                changed ==> exists|wi: int, wj: int, wd: int|
                    in_grid(wi, wj) && is_digit(wd) && #[trigger] cand(entry, wi, wj, wd)
                        && !cand(*self, wi, wj, wd),
                pair_list_ok(naked_pair_list@, *self),
                pair_list_before(naked_pair_list@, x as int, 0),
            decreases 9 - x,
        {
            let mut y: usize = 0;
            while y < 9
                invariant
                    entry == *old(self),
                    wf(*self),
                    x < 9,
                    y <= 9,
                    sound_step(entry, *self),
                    self.board == entry.board,
                    !changed ==> *self == entry,
                    changed ==> exists|wi: int, wj: int, wd: int|
                        in_grid(wi, wj) && is_digit(wd) && #[trigger] cand(entry, wi, wj, wd)
                            && !cand(*self, wi, wj, wd),
                    pair_list_ok(naked_pair_list@, *self),
                    pair_list_before(naked_pair_list@, x as int, y as int),
                decreases 9 - y,
            {
                let naked_pair = self.get_naked_pair(x, y);
                if let Tile::Num(pair_a) = naked_pair.0 {
                    if let Tile::Num(pair_b) = naked_pair.1 {
                        proof {
                            assert(tile_at(*self, x as int, y as int) is Void);
                        }
                        let mut kk: usize = 0;
                        while kk < naked_pair_list.len()
                            invariant
                                entry == *old(self),
                                wf(*self),
                                x < 9,
                                y < 9,
                                kk <= naked_pair_list.len(),
                                sound_step(entry, *self),
                                self.board == entry.board,
                                !changed ==> *self == entry,
                                changed ==> exists|wi: int, wj: int, wd: int|
                                    in_grid(wi, wj) && is_digit(wd) && #[trigger] cand(entry, wi, wj, wd)
                                        && !cand(*self, wi, wj, wd),
                                pair_list_ok(naked_pair_list@, *self),
                                pair_list_before(naked_pair_list@, x as int, y as int),
                                naked_pair == (Tile::Num(pair_a), Tile::Num(pair_b)),
                                is_digit(pair_a as int),
                                is_digit(pair_b as int),
                                pair_a != pair_b,
                                tile_at(*self, x as int, y as int) is Void,
                                forall|d: int|
                                    is_digit(d) && #[trigger] cand(*self, x as int, y as int, d)
                                        ==> d == pair_a as int || d == pair_b as int,
                            decreases naked_pair_list.len() - kk,
                        {
                            let e = naked_pair_list[kk];
                            let other_x = e.1;
                            let other_y = e.2;
                            let matches_pair = match (e.0.0, e.0.1) {
                                (Tile::Num(oa), Tile::Num(ob)) => oa == pair_a && ob == pair_b,
                                _ => false,
                            };
                            if matches_pair {
                                proof {
                                    assert(pair_entry_ok(naked_pair_list@[kk as int], *self));
                                }
                                let ghost px = x as int;
                                let ghost py = y as int;
                                let ghost qx = other_x as int;
                                let ghost qy = other_y as int;
                                if x == other_x {
                                    let ghost s0 = *self;
                                    proof {
                                        assert(peers(px, py, qx, qy));
                                        lemma_pair_forces(
                                            s0,
                                            px,
                                            py,
                                            qx,
                                            qy,
                                            pair_a as int,
                                            pair_b as int,
                                        );
                                    }
                                    let mut y2: usize = 0;
                                    while y2 < 9
                                        invariant
                                            entry == *old(self),
                                            wf(*self),
                                            x < 9,
                                            y < 9,
                                            other_x == x,
                                            other_y < 9,
                                            y2 <= 9,
                                            sound_step(entry, *self),
                                            sound_step(entry, s0),
                                            self.board == entry.board,
                                            !changed ==> *self == entry,
                                            changed ==> exists|wi: int, wj: int, wd: int|
                                                in_grid(wi, wj) && is_digit(wd) && #[trigger] cand(entry, wi, wj, wd)
                                                    && !cand(*self, wi, wj, wd),
                                            pair_list_ok(naked_pair_list@, *self),
                                            pair_list_before(
                                                naked_pair_list@,
                                                x as int,
                                                y as int,
                                            ),
                                            is_digit(pair_a as int),
                                            is_digit(pair_b as int),
                                            pair_a != pair_b,
                                            tile_at(*self, x as int, y as int) is Void,
                                            forall|d: int|
                                                is_digit(d) && #[trigger] cand(
                                                    *self,
                                                    x as int,
                                                    y as int,
                                                    d,
                                                ) ==> d == pair_a as int || d == pair_b as int,
                                            forall|a: Seq<Seq<int>>|
                                                #[trigger] admits(s0, a) ==> (a[px][py]
                                                    == pair_a as int || a[px][py]
                                                    == pair_b as int) && (a[qx][qy]
                                                    == pair_a as int || a[qx][qy]
                                                    == pair_b as int) && a[px][py] != a[qx][qy],
                                            px == x as int && py == y as int && qx == x as int
                                                && qy == other_y as int,
                                        decreases 9 - y2,
                                    {
                                        if y2 != y && y2 != other_y {
                                            proof {
                                                assert(peers(x as int, y2 as int, px, py));
                                                assert(peers(x as int, y2 as int, qx, qy));
                                                assert forall|a: Seq<Seq<int>>|
                                                    #[trigger] admits(*self, a) implies (a[px][py]
                                                    == pair_a as int || a[px][py]
                                                    == pair_b as int) && (a[qx][qy]
                                                    == pair_a as int || a[qx][qy]
                                                    == pair_b as int) && a[px][py]
                                                    != a[qx][qy] by {
                                                    assert(admits(entry, a));
                                                    assert(admits(s0, a));
                                                }
                                            }
                                            let ghost pre = *self;
                                            let hit = self.eliminate_pair_from(
                                                x,
                                                y2,
                                                pair_a,
                                                pair_b,
                                                Ghost(px),
                                                Ghost(py),
                                                Ghost(qx),
                                                Ghost(qy),
                                            );
                                            if hit {
                                                changed = true;
                                            }
                                            proof {
                                                lemma_pair_list_shrink(
                                                    naked_pair_list@,
                                                    pre,
                                                    *self,
                                                );
                                                if changed {
                                                    if hit {
                                                        if cand(
                                                            pre,
                                                            x as int,
                                                            y2 as int,
                                                            pair_a as int,
                                                        ) {
                                                            assert(!cand(
                                                                *self,
                                                                x as int,
                                                                y2 as int,
                                                                pair_a as int,
                                                            ));
                                                        } else {
                                                            assert(cand(
                                                                pre,
                                                                x as int,
                                                                y2 as int,
                                                                pair_b as int,
                                                            ));
                                                            assert(!cand(
                                                                *self,
                                                                x as int,
                                                                y2 as int,
                                                                pair_b as int,
                                                            ));
                                                        }
                                                        lemma_witness_new(entry, pre, *self);
                                                    } else {
                                                        lemma_witness_persists(entry, pre, *self);
                                                    }
                                                }
                                            }
                                        }
                                        y2 = y2 + 1;
                                    }
                                } else if y == other_y {
                                    let ghost s0 = *self;
                                    proof {
                                        assert(peers(px, py, qx, qy));
                                        lemma_pair_forces(
                                            s0,
                                            px,
                                            py,
                                            qx,
                                            qy,
                                            pair_a as int,
                                            pair_b as int,
                                        );
                                    }
                                    let mut x2: usize = 0;
                                    while x2 < 9
                                        invariant
                                            entry == *old(self),
                                            wf(*self),
                                            x < 9,
                                            y < 9,
                                            other_y == y,
                                            other_x < 9,
                                            x2 <= 9,
                                            sound_step(entry, *self),
                                            sound_step(entry, s0),
                                            self.board == entry.board,
                                            !changed ==> *self == entry,
                                            changed ==> exists|wi: int, wj: int, wd: int|
                                                in_grid(wi, wj) && is_digit(wd) && #[trigger] cand(entry, wi, wj, wd)
                                                    && !cand(*self, wi, wj, wd),
                                            pair_list_ok(naked_pair_list@, *self),
                                            pair_list_before(
                                                naked_pair_list@,
                                                x as int,
                                                y as int,
                                            ),
                                            is_digit(pair_a as int),
                                            is_digit(pair_b as int),
                                            pair_a != pair_b,
                                            tile_at(*self, x as int, y as int) is Void,
                                            forall|d: int|
                                                is_digit(d) && #[trigger] cand(
                                                    *self,
                                                    x as int,
                                                    y as int,
                                                    d,
                                                ) ==> d == pair_a as int || d == pair_b as int,
                                            forall|a: Seq<Seq<int>>|
                                                #[trigger] admits(s0, a) ==> (a[px][py]
                                                    == pair_a as int || a[px][py]
                                                    == pair_b as int) && (a[qx][qy]
                                                    == pair_a as int || a[qx][qy]
                                                    == pair_b as int) && a[px][py] != a[qx][qy],
                                            px == x as int && py == y as int && qy == y as int
                                                && qx == other_x as int,
                                        decreases 9 - x2,
                                    {
                                        if x2 != x && x2 != other_x {
                                            proof {
                                                assert(peers(x2 as int, y as int, px, py));
                                                assert(peers(x2 as int, y as int, qx, qy));
                                                assert forall|a: Seq<Seq<int>>|
                                                    #[trigger] admits(*self, a) implies (a[px][py]
                                                    == pair_a as int || a[px][py]
                                                    == pair_b as int) && (a[qx][qy]
                                                    == pair_a as int || a[qx][qy]
                                                    == pair_b as int) && a[px][py]
                                                    != a[qx][qy] by {
                                                    assert(admits(entry, a));
                                                    assert(admits(s0, a));
                                                }
                                            }
                                            let ghost pre = *self;
                                            let hit = self.eliminate_pair_from(
                                                x2,
                                                y,
                                                pair_a,
                                                pair_b,
                                                Ghost(px),
                                                Ghost(py),
                                                Ghost(qx),
                                                Ghost(qy),
                                            );
                                            if hit {
                                                changed = true;
                                            }
                                            proof {
                                                lemma_pair_list_shrink(
                                                    naked_pair_list@,
                                                    pre,
                                                    *self,
                                                );
                                                if changed {
                                                    if hit {
                                                        if cand(
                                                            pre,
                                                            x2 as int,
                                                            y as int,
                                                            pair_a as int,
                                                        ) {
                                                            assert(!cand(
                                                                *self,
                                                                x2 as int,
                                                                y as int,
                                                                pair_a as int,
                                                            ));
                                                        } else {
                                                            assert(cand(
                                                                pre,
                                                                x2 as int,
                                                                y as int,
                                                                pair_b as int,
                                                            ));
                                                            assert(!cand(
                                                                *self,
                                                                x2 as int,
                                                                y as int,
                                                                pair_b as int,
                                                            ));
                                                        }
                                                        lemma_witness_new(entry, pre, *self);
                                                    } else {
                                                        lemma_witness_persists(entry, pre, *self);
                                                    }
                                                }
                                            }
                                        }
                                        x2 = x2 + 1;
                                    }
                                }
                                if x / 3 == other_x / 3 && y / 3 == other_y / 3 {
                                    let ghost s0 = *self;
                                    proof {
                                        assert(!(x == other_x && y == other_y));
                                        assert(box_of(px, py) == box_of(qx, qy));
                                        assert(peers(px, py, qx, qy));
                                        lemma_pair_forces(
                                            s0,
                                            px,
                                            py,
                                            qx,
                                            qy,
                                            pair_a as int,
                                            pair_b as int,
                                        );
                                    }
                                    let box_x = x - x % 3;
                                    let box_y = y - y % 3;
                                    let mut slot: usize = 0;
                                    while slot < 9
                                        invariant
                                            entry == *old(self),
                                            wf(*self),
                                            x < 9,
                                            y < 9,
                                            other_x < 9,
                                            other_y < 9,
                                            x as int / 3 == other_x as int / 3,
                                            y as int / 3 == other_y as int / 3,
                                            !(x == other_x && y == other_y),
                                            box_x == x - x % 3,
                                            box_y == y - y % 3,
                                            slot <= 9,
                                            sound_step(entry, *self),
                                            sound_step(entry, s0),
                                            self.board == entry.board,
                                            !changed ==> *self == entry,
                                            changed ==> exists|wi: int, wj: int, wd: int|
                                                in_grid(wi, wj) && is_digit(wd) && #[trigger] cand(entry, wi, wj, wd)
                                                    && !cand(*self, wi, wj, wd),
                                            pair_list_ok(naked_pair_list@, *self),
                                            pair_list_before(
                                                naked_pair_list@,
                                                x as int,
                                                y as int,
                                            ),
                                            is_digit(pair_a as int),
                                            is_digit(pair_b as int),
                                            pair_a != pair_b,
                                            tile_at(*self, x as int, y as int) is Void,
                                            forall|d: int|
                                                is_digit(d) && #[trigger] cand(
                                                    *self,
                                                    x as int,
                                                    y as int,
                                                    d,
                                                ) ==> d == pair_a as int || d == pair_b as int,
                                            forall|a: Seq<Seq<int>>|
                                                #[trigger] admits(s0, a) ==> (a[px][py]
                                                    == pair_a as int || a[px][py]
                                                    == pair_b as int) && (a[qx][qy]
                                                    == pair_a as int || a[qx][qy]
                                                    == pair_b as int) && a[px][py] != a[qx][qy],
                                            px == x as int && py == y as int && qx
                                                == other_x as int && qy == other_y as int,
                                        decreases 9 - slot,
                                    {
                                        let dx = slot / 3;
                                        let dy = slot % 3;
                                        let remove_x = box_x + dx;
                                        let remove_y = box_y + dy;
                                        proof {
                                            lemma_box_coords(
                                                x as int / 3,
                                                y as int / 3,
                                                dx as int,
                                                dy as int,
                                            );
                                            assert(box_of(remove_x as int, remove_y as int)
                                                == box_of(px, py));
                                            assert(box_of(qx, qy) == box_of(px, py));
                                        }
                                        if !(remove_x == x && remove_y == y) && !(remove_x
                                            == other_x && remove_y == other_y) {
                                            proof {
                                                assert(peers(
                                                    remove_x as int,
                                                    remove_y as int,
                                                    px,
                                                    py,
                                                ));
                                                assert(peers(
                                                    remove_x as int,
                                                    remove_y as int,
                                                    qx,
                                                    qy,
                                                ));
                                                assert forall|a: Seq<Seq<int>>|
                                                    #[trigger] admits(*self, a) implies (a[px][py]
                                                    == pair_a as int || a[px][py]
                                                    == pair_b as int) && (a[qx][qy]
                                                    == pair_a as int || a[qx][qy]
                                                    == pair_b as int) && a[px][py]
                                                    != a[qx][qy] by {
                                                    assert(admits(entry, a));
                                                    assert(admits(s0, a));
                                                }
                                            }
                                            let ghost pre = *self;
                                            let hit = self.eliminate_pair_from(
                                                remove_x,
                                                remove_y,
                                                pair_a,
                                                pair_b,
                                                Ghost(px),
                                                Ghost(py),
                                                Ghost(qx),
                                                Ghost(qy),
                                            );
                                            if hit {
                                                changed = true;
                                            }
                                            proof {
                                                lemma_pair_list_shrink(
                                                    naked_pair_list@,
                                                    pre,
                                                    *self,
                                                );
                                                if changed {
                                                    if hit {
                                                        if cand(
                                                            pre,
                                                            remove_x as int,
                                                            remove_y as int,
                                                            pair_a as int,
                                                        ) {
                                                            assert(!cand(
                                                                *self,
                                                                remove_x as int,
                                                                remove_y as int,
                                                                pair_a as int,
                                                            ));
                                                        } else {
                                                            assert(cand(
                                                                pre,
                                                                remove_x as int,
                                                                remove_y as int,
                                                                pair_b as int,
                                                            ));
                                                            assert(!cand(
                                                                *self,
                                                                remove_x as int,
                                                                remove_y as int,
                                                                pair_b as int,
                                                            ));
                                                        }
                                                        lemma_witness_new(entry, pre, *self);
                                                    } else {
                                                        lemma_witness_persists(entry, pre, *self);
                                                    }
                                                }
                                            }
                                        }
                                        slot = slot + 1;
                                    }
                                }
                            }
                            kk = kk + 1;
                        }
                        naked_pair_list.push((naked_pair, x, y));
                    }
                }
                y = y + 1;
            }
            x = x + 1;
        }
        proof {
            if changed {
                let (wi, wj, wd) = choose|wi: int, wj: int, wd: int|
                    in_grid(wi, wj) && is_digit(wd) && #[trigger] cand(entry, wi, wj, wd) && !cand(
                        *self,
                        wi,
                        wj,
                        wd,
                    );
                if *self == entry {
                    assert(cand(*self, wi, wj, wd) == cand(entry, wi, wj, wd));
                }
            }
        }
        changed
    }

    /// One pass of the hidden-pair rule over columns: when two digits have
    /// identical column masks with exactly two rows set, those two cells
    /// are reduced to exactly those two digits.
    #[verifier::rlimit(100)]
    #[verifier::spinoff_prover]
    pub fn apply_hidden_pairs_columns(&mut self, debug: bool) -> (changed: bool)
        requires
            wf(*old(self)),
        ensures
            sound_step(*old(self), *final(self)),
            final(self).board == old(self).board,
            !changed ==> *final(self) == *old(self),
            changed ==> *final(self) != *old(self),
            !changed ==> forall|x2: int, d1: int, d2: int|
                0 <= x2 < 9 && is_digit(d1) && is_digit(d2) && d1 < d2
                    ==> #[trigger] col_hidden_pair_reduced(*final(self), x2, d1, d2),
    {
        let ghost entry = *old(self);
        let mut changed = false;
        let mut x: usize = 0;
        while x < 9
            invariant
                entry == *old(self),
                wf(*self),
                x <= 9,
                sound_step(entry, *self),
                self.board == entry.board,
                !changed ==> *self == entry,
                changed ==> exists|wi: int, wj: int, wd: int|
                    in_grid(wi, wj) && is_digit(wd) && #[trigger] cand(entry, wi, wj, wd)
                        && !cand(*self, wi, wj, wd),
                !changed ==> forall|x2: int, d1: int, d2: int|
                    0 <= x2 < x && is_digit(d1) && is_digit(d2) && d1 < d2
                        ==> #[trigger] col_hidden_pair_reduced(entry, x2, d1, d2),
            decreases 9 - x,
        {
            let mut num_first: usize = 1;
            while num_first < 9
                invariant
                    entry == *old(self),
                    wf(*self),
                    x < 9,
                    1 <= num_first <= 9,
                    sound_step(entry, *self),
                    self.board == entry.board,
                    !changed ==> *self == entry,
                    changed ==> exists|wi: int, wj: int, wd: int|
                        in_grid(wi, wj) && is_digit(wd) && #[trigger] cand(entry, wi, wj, wd)
                            && !cand(*self, wi, wj, wd),
                    !changed ==> forall|x2: int, d1: int, d2: int|
                        0 <= x2 < x && is_digit(d1) && is_digit(d2) && d1 < d2
                            ==> #[trigger] col_hidden_pair_reduced(entry, x2, d1, d2),
                    !changed ==> forall|d1: int, d2: int|
                        is_digit(d1) && d1 < num_first && is_digit(d2) && d1 < d2
                            ==> #[trigger] col_hidden_pair_reduced(entry, x as int, d1, d2),
                decreases 9 - num_first,
            {
                let mut num_second: usize = num_first + 1;
                let mut stop = false;
                while num_second < 10 && !stop
                    invariant
                        entry == *old(self),
                        wf(*self),
                        x < 9,
                        1 <= num_first < 9,
                        num_first < num_second <= 10,
                        sound_step(entry, *self),
                        self.board == entry.board,
                        !changed ==> *self == entry,
                        changed ==> exists|wi: int, wj: int, wd: int|
                            in_grid(wi, wj) && is_digit(wd) && #[trigger] cand(entry, wi, wj, wd)
                                && !cand(*self, wi, wj, wd),
                        !changed ==> forall|x2: int, d1: int, d2: int|
                            0 <= x2 < x && is_digit(d1) && is_digit(d2) && d1 < d2
                                ==> #[trigger] col_hidden_pair_reduced(entry, x2, d1, d2),
                        !changed ==> forall|d1: int, d2: int|
                            is_digit(d1) && d1 < num_first && is_digit(d2) && d1 < d2
                                ==> #[trigger] col_hidden_pair_reduced(entry, x as int, d1, d2),
                        !changed ==> forall|d2: int|
                            is_digit(d2) && num_first < d2 && d2 < num_second
                                ==> #[trigger] col_hidden_pair_reduced(
                                entry,
                                x as int,
                                num_first as int,
                                d2,
                            ),
                        !changed && stop ==> exists|d2m: int|
                            is_digit(d2m) && num_first < d2m && d2m < num_second
                                && entry.column_possible[x as int][num_first as int - 1]
                                == #[trigger] entry.column_possible[x as int][d2m - 1],
                    decreases 10 - num_second,
                {
                    if self.column_possible[x][num_first - 1] == self.column_possible[x][num_second
                        - 1] {
                        let m = self.column_possible[x][num_first - 1];
                        match Self::two_bits(m) {
                            Option::None => {
                                proof {
                                    if !changed {
                                        assert(col_hidden_pair_reduced(
                                            entry,
                                            x as int,
                                            num_first as int,
                                            num_second as int,
                                        )) by {
                                            assert forall|j0p: u8, j1p: u8, e: int|
                                                #![trigger exactly_two_bits(entry.column_possible[x as int][num_first as int - 1], j0p, j1p), cand(entry, x as int, j0p as int, e)]
                                                exactly_two_bits(
                                                    entry.column_possible[x as int][num_first as int
                                                        - 1],
                                                    j0p,
                                                    j1p,
                                                ) && is_digit(e) && e != num_first as int && e
                                                != num_second as int implies !cand(
                                                entry,
                                                x as int,
                                                j0p as int,
                                                e,
                                            ) && !cand(entry, x as int, j1p as int, e) by {
                                                assert(!exactly_two_bits(m, j0p, j1p));
                                                assert(false);
                                            }
                                        }
                                    }
                                }
                            },
                            Option::Some((j0, j1)) => {
                                let y0 = j0 as usize;
                                let y1 = j1 as usize;
                                let ghost s0 = *self;
                                proof {
                                    assert forall|j: int| 0 <= j < 9 implies (#[trigger] cand(
                                        s0,
                                        x as int,
                                        j,
                                        num_first as int,
                                    ) <==> (j == y0 as int || j == y1 as int)) && (#[trigger] cand(
                                        s0,
                                        x as int,
                                        j,
                                        num_second as int,
                                    ) <==> (j == y0 as int || j == y1 as int)) by {
                                        assert(col_bit(s0, x as int, j, num_first as int) == cand(
                                            s0,
                                            x as int,
                                            j,
                                            num_first as int,
                                        ));
                                        assert(col_bit(s0, x as int, j, num_second as int) == cand(
                                            s0,
                                            x as int,
                                            j,
                                            num_second as int,
                                        ));
                                        assert(has_bit(m, j as u16) == (j as u16 == j0 as u16
                                            || j as u16 == j1 as u16));
                                        assert((j as u16 == j0 as u16) == (j == j0 as int));
                                        assert((j as u16 == j1 as u16) == (j == j1 as int));
                                    }
                                    lemma_hidden_pair_forces_col(
                                        s0,
                                        x as int,
                                        num_first as int,
                                        num_second as int,
                                        y0 as int,
                                        y1 as int,
                                    );
                                }
                                let hit = self.eliminate_hidden_pair_cells(
                                    x,
                                    y0,
                                    x,
                                    y1,
                                    num_first,
                                    num_second,
                                );
                                if hit {
                                    changed = true;
                                }
                                proof {
                                    if changed {
                                        if hit {
                                            lemma_witness_new(entry, s0, *self);
                                        } else {
                                            lemma_witness_persists(entry, s0, *self);
                                        }
                                    } else {
                                        assert(s0 == entry);
                                        assert(col_hidden_pair_reduced(
                                            entry,
                                            x as int,
                                            num_first as int,
                                            num_second as int,
                                        )) by {
                                            assert forall|j0p: u8, j1p: u8, e: int|
                                                #![trigger exactly_two_bits(entry.column_possible[x as int][num_first as int - 1], j0p, j1p), cand(entry, x as int, j0p as int, e)]
                                                exactly_two_bits(
                                                    entry.column_possible[x as int][num_first as int
                                                        - 1],
                                                    j0p,
                                                    j1p,
                                                ) && is_digit(e) && e != num_first as int && e
                                                != num_second as int implies !cand(
                                                entry,
                                                x as int,
                                                j0p as int,
                                                e,
                                            ) && !cand(entry, x as int, j1p as int, e) by {
                                                lemma_two_bits_unique(m, j0, j1, j0p, j1p);
                                                assert(!cand(entry, x as int, y0 as int, e)
                                                    && !cand(entry, x as int, y1 as int, e));
                                            }
                                        }
                                    }
                                }
                            },
                        }
                        proof {
                            if !changed {
                                assert(entry.column_possible[x as int][num_first as int - 1]
                                    == entry.column_possible[x as int][num_second as int - 1]);
                            }
                        }
                        stop = true;
                    } else {
                        proof {
                            if !changed {
                                assert(col_hidden_pair_reduced(
                                    entry,
                                    x as int,
                                    num_first as int,
                                    num_second as int,
                                ));
                            }
                        }
                    }
                    num_second = num_second + 1;
                }
                proof {
                    if !changed {
                        assert forall|d2: int|
                            is_digit(d2) && num_first < d2 implies #[trigger] col_hidden_pair_reduced(
                            entry,
                            x as int,
                            num_first as int,
                            d2,
                        ) by {
                            if d2 >= num_second as int {
                                if stop {
                                    let d2m = choose|d2m: int|
                                        is_digit(d2m) && num_first < d2m && d2m < num_second
                                            && entry.column_possible[x as int][num_first as int
                                            - 1] == #[trigger] entry.column_possible[x as int][d2m
                                            - 1];
                                    assert(d2m < d2);
                                } else {
                                    assert(num_second == 10);
                                    assert(false);
                                }
                            }
                        }
                    }
                }
                num_first = num_first + 1;
            }
            x = x + 1;
        }
        proof {
            if changed {
                let (wi, wj, wd) = choose|wi: int, wj: int, wd: int|
                    in_grid(wi, wj) && is_digit(wd) && #[trigger] cand(entry, wi, wj, wd) && !cand(
                        *self,
                        wi,
                        wj,
                        wd,
                    );
                if *self == entry {
                    assert(cand(*self, wi, wj, wd) == cand(entry, wi, wj, wd));
                }
            }
        }
        changed
    }

    /// The hidden-pair rule over rows.
    #[verifier::rlimit(100)]
    #[verifier::spinoff_prover]
    pub fn apply_hidden_pairs_rows(&mut self, debug: bool) -> (changed: bool)
        requires
            wf(*old(self)),
        ensures
            sound_step(*old(self), *final(self)),
            final(self).board == old(self).board,
            !changed ==> *final(self) == *old(self),
            changed ==> *final(self) != *old(self),
            !changed ==> forall|y2: int, d1: int, d2: int|
                0 <= y2 < 9 && is_digit(d1) && is_digit(d2) && d1 < d2
                    ==> #[trigger] row_hidden_pair_reduced(*final(self), y2, d1, d2),
    {
        let ghost entry = *old(self);
        let mut changed = false;
        let mut y: usize = 0;
        while y < 9
            invariant
                entry == *old(self),
                wf(*self),
                y <= 9,
                sound_step(entry, *self),
                self.board == entry.board,
                !changed ==> *self == entry,
                changed ==> exists|wi: int, wj: int, wd: int|
                    in_grid(wi, wj) && is_digit(wd) && #[trigger] cand(entry, wi, wj, wd)
                        && !cand(*self, wi, wj, wd),
                !changed ==> forall|y2: int, d1: int, d2: int|
                    0 <= y2 < y && is_digit(d1) && is_digit(d2) && d1 < d2
                        ==> #[trigger] row_hidden_pair_reduced(entry, y2, d1, d2),
            decreases 9 - y,
        {
            let mut num_first: usize = 1;
            while num_first < 9
                invariant
                    entry == *old(self),
                    wf(*self),
                    y < 9,
                    1 <= num_first <= 9,
                    sound_step(entry, *self),
                    self.board == entry.board,
                    !changed ==> *self == entry,
                    changed ==> exists|wi: int, wj: int, wd: int|
                        in_grid(wi, wj) && is_digit(wd) && #[trigger] cand(entry, wi, wj, wd)
                            && !cand(*self, wi, wj, wd),
                    !changed ==> forall|y2: int, d1: int, d2: int|
                        0 <= y2 < y && is_digit(d1) && is_digit(d2) && d1 < d2
                            ==> #[trigger] row_hidden_pair_reduced(entry, y2, d1, d2),
                    !changed ==> forall|d1: int, d2: int|
                        is_digit(d1) && d1 < num_first && is_digit(d2) && d1 < d2
                            ==> #[trigger] row_hidden_pair_reduced(entry, y as int, d1, d2),
                decreases 9 - num_first,
            {
                let mut num_second: usize = num_first + 1;
                let mut stop = false;
                while num_second < 10 && !stop
                    invariant
                        entry == *old(self),
                        wf(*self),
                        y < 9,
                        1 <= num_first < 9,
                        num_first < num_second <= 10,
                        sound_step(entry, *self),
                        self.board == entry.board,
                        !changed ==> *self == entry,
                        changed ==> exists|wi: int, wj: int, wd: int|
                            in_grid(wi, wj) && is_digit(wd) && #[trigger] cand(entry, wi, wj, wd)
                                && !cand(*self, wi, wj, wd),
                        !changed ==> forall|y2: int, d1: int, d2: int|
                            0 <= y2 < y && is_digit(d1) && is_digit(d2) && d1 < d2
                                ==> #[trigger] row_hidden_pair_reduced(entry, y2, d1, d2),
                        !changed ==> forall|d1: int, d2: int|
                            is_digit(d1) && d1 < num_first && is_digit(d2) && d1 < d2
                                ==> #[trigger] row_hidden_pair_reduced(entry, y as int, d1, d2),
                        !changed ==> forall|d2: int|
                            is_digit(d2) && num_first < d2 && d2 < num_second
                                ==> #[trigger] row_hidden_pair_reduced(
                                entry,
                                y as int,
                                num_first as int,
                                d2,
                            ),
                        !changed && stop ==> exists|d2m: int|
                            is_digit(d2m) && num_first < d2m && d2m < num_second
                                && entry.row_possible[y as int][num_first as int - 1]
                                == #[trigger] entry.row_possible[y as int][d2m - 1],
                    decreases 10 - num_second,
                {
                    if self.row_possible[y][num_first - 1] == self.row_possible[y][num_second
                        - 1] {
                        let m = self.row_possible[y][num_first - 1];
                        match Self::two_bits(m) {
                            Option::None => {
                                proof {
                                    if !changed {
                                        assert(row_hidden_pair_reduced(
                                            entry,
                                            y as int,
                                            num_first as int,
                                            num_second as int,
                                        )) by {
                                            assert forall|j0p: u8, j1p: u8, e: int|
                                                #![trigger exactly_two_bits(entry.row_possible[y as int][num_first as int - 1], j0p, j1p), cand(entry, j0p as int, y as int, e)]
                                                exactly_two_bits(
                                                    entry.row_possible[y as int][num_first as int
                                                        - 1],
                                                    j0p,
                                                    j1p,
                                                ) && is_digit(e) && e != num_first as int && e
                                                != num_second as int implies !cand(
                                                entry,
                                                j0p as int,
                                                y as int,
                                                e,
                                            ) && !cand(entry, j1p as int, y as int, e) by {
                                                assert(!exactly_two_bits(m, j0p, j1p));
                                                assert(false);
                                            }
                                        }
                                    }
                                }
                            },
                            Option::Some((j0, j1)) => {
                                let x0 = j0 as usize;
                                let x1 = j1 as usize;
                                let ghost s0 = *self;
                                proof {
                                    assert forall|j: int| 0 <= j < 9 implies (#[trigger] cand(
                                        s0,
                                        j,
                                        y as int,
                                        num_first as int,
                                    ) <==> (j == x0 as int || j == x1 as int)) && (#[trigger] cand(
                                        s0,
                                        j,
                                        y as int,
                                        num_second as int,
                                    ) <==> (j == x0 as int || j == x1 as int)) by {
                                        assert(row_bit(s0, j, y as int, num_first as int) == cand(
                                            s0,
                                            j,
                                            y as int,
                                            num_first as int,
                                        ));
                                        assert(row_bit(s0, j, y as int, num_second as int) == cand(
                                            s0,
                                            j,
                                            y as int,
                                            num_second as int,
                                        ));
                                        assert(has_bit(m, j as u16) == (j as u16 == j0 as u16
                                            || j as u16 == j1 as u16));
                                        assert((j as u16 == j0 as u16) == (j == j0 as int));
                                        assert((j as u16 == j1 as u16) == (j == j1 as int));
                                    }
                                    lemma_hidden_pair_forces_row(
                                        s0,
                                        y as int,
                                        num_first as int,
                                        num_second as int,
                                        x0 as int,
                                        x1 as int,
                                    );
                                }
                                let hit = self.eliminate_hidden_pair_cells(
                                    x0,
                                    y,
                                    x1,
                                    y,
                                    num_first,
                                    num_second,
                                );
                                if hit {
                                    changed = true;
                                }
                                proof {
                                    if changed {
                                        if hit {
                                            lemma_witness_new(entry, s0, *self);
                                        } else {
                                            lemma_witness_persists(entry, s0, *self);
                                        }
                                    } else {
                                        assert(s0 == entry);
                                        assert(row_hidden_pair_reduced(
                                            entry,
                                            y as int,
                                            num_first as int,
                                            num_second as int,
                                        )) by {
                                            assert forall|j0p: u8, j1p: u8, e: int|
                                                #![trigger exactly_two_bits(entry.row_possible[y as int][num_first as int - 1], j0p, j1p), cand(entry, j0p as int, y as int, e)]
                                                exactly_two_bits(
                                                    entry.row_possible[y as int][num_first as int
                                                        - 1],
                                                    j0p,
                                                    j1p,
                                                ) && is_digit(e) && e != num_first as int && e
                                                != num_second as int implies !cand(
                                                entry,
                                                j0p as int,
                                                y as int,
                                                e,
                                            ) && !cand(entry, j1p as int, y as int, e) by {
                                                lemma_two_bits_unique(m, j0, j1, j0p, j1p);
                                                assert(!cand(s0, x0 as int, y as int, e)
                                                    && !cand(s0, x1 as int, y as int, e));
                                                assert(!cand(entry, x0 as int, y as int, e)
                                                    && !cand(entry, x1 as int, y as int, e));
                                            }
                                        }
                                    }
                                }
                            },
                        }
                        proof {
                            if !changed {
                                assert(entry.row_possible[y as int][num_first as int - 1]
                                    == entry.row_possible[y as int][num_second as int - 1]);
                            }
                        }
                        stop = true;
                    } else {
                        proof {
                            if !changed {
                                assert(row_hidden_pair_reduced(
                                    entry,
                                    y as int,
                                    num_first as int,
                                    num_second as int,
                                ));
                            }
                        }
                    }
                    num_second = num_second + 1;
                }
                proof {
                    if !changed {
                        assert forall|d2: int|
                            is_digit(d2) && num_first < d2 implies #[trigger] row_hidden_pair_reduced(
                            entry,
                            y as int,
                            num_first as int,
                            d2,
                        ) by {
                            if d2 >= num_second as int {
                                if stop {
                                    let d2m = choose|d2m: int|
                                        is_digit(d2m) && num_first < d2m && d2m < num_second
                                            && entry.row_possible[y as int][num_first as int - 1]
                                            == #[trigger] entry.row_possible[y as int][d2m - 1];
                                    assert(d2m < d2);
                                } else {
                                    assert(num_second == 10);
                                    assert(false);
                                }
                            }
                        }
                    }
                }
                num_first = num_first + 1;
            }
            y = y + 1;
        }
        proof {
            if changed {
                let (wi, wj, wd) = choose|wi: int, wj: int, wd: int|
                    in_grid(wi, wj) && is_digit(wd) && #[trigger] cand(entry, wi, wj, wd) && !cand(
                        *self,
                        wi,
                        wj,
                        wd,
                    );
                if *self == entry {
                    assert(cand(*self, wi, wj, wd) == cand(entry, wi, wj, wd));
                }
            }
        }
        changed
    }

    /// The hidden-pair rule over boxes.
    #[verifier::rlimit(100)]
    #[verifier::spinoff_prover]
    pub fn apply_hidden_pairs_boxes(&mut self, debug: bool) -> (changed: bool)
        requires
            wf(*old(self)),
        ensures
            sound_step(*old(self), *final(self)),
            final(self).board == old(self).board,
            !changed ==> *final(self) == *old(self),
            changed ==> *final(self) != *old(self),
            !changed ==> forall|b: int, d1: int, d2: int|
                0 <= b < 9 && is_digit(d1) && is_digit(d2) && d1 < d2
                    ==> #[trigger] box_hidden_pair_reduced(*final(self), b, d1, d2),
    {
        let ghost entry = *old(self);
        let mut changed = false;
        let mut box_num: usize = 0;
        while box_num < 9
            invariant
                entry == *old(self),
                wf(*self),
                box_num <= 9,
                sound_step(entry, *self),
                self.board == entry.board,
                !changed ==> *self == entry,
                changed ==> exists|wi: int, wj: int, wd: int|
                    in_grid(wi, wj) && is_digit(wd) && #[trigger] cand(entry, wi, wj, wd)
                        && !cand(*self, wi, wj, wd),
                !changed ==> forall|b: int, d1: int, d2: int|
                    0 <= b < box_num && is_digit(d1) && is_digit(d2) && d1 < d2
                        ==> #[trigger] box_hidden_pair_reduced(entry, b, d1, d2),
            decreases 9 - box_num,
        {
            let mut num_first: usize = 1;
            while num_first < 9
                invariant
                    entry == *old(self),
                    wf(*self),
                    box_num < 9,
                    1 <= num_first <= 9,
                    sound_step(entry, *self),
                    self.board == entry.board,
                    !changed ==> *self == entry,
                    changed ==> exists|wi: int, wj: int, wd: int|
                        in_grid(wi, wj) && is_digit(wd) && #[trigger] cand(entry, wi, wj, wd)
                            && !cand(*self, wi, wj, wd),
                    !changed ==> forall|b: int, d1: int, d2: int|
                        0 <= b < box_num && is_digit(d1) && is_digit(d2) && d1 < d2
                            ==> #[trigger] box_hidden_pair_reduced(entry, b, d1, d2),
                    !changed ==> forall|d1: int, d2: int|
                        is_digit(d1) && d1 < num_first && is_digit(d2) && d1 < d2
                            ==> #[trigger] box_hidden_pair_reduced(entry, box_num as int, d1, d2),
                decreases 9 - num_first,
            {
                let mut num_second: usize = num_first + 1;
                let mut stop = false;
                while num_second < 10 && !stop
                    invariant
                        entry == *old(self),
                        wf(*self),
                        box_num < 9,
                        1 <= num_first < 9,
                        num_first < num_second <= 10,
                        sound_step(entry, *self),
                        self.board == entry.board,
                        !changed ==> *self == entry,
                        changed ==> exists|wi: int, wj: int, wd: int|
                            in_grid(wi, wj) && is_digit(wd) && #[trigger] cand(entry, wi, wj, wd)
                                && !cand(*self, wi, wj, wd),
                        !changed ==> forall|b: int, d1: int, d2: int|
                            0 <= b < box_num && is_digit(d1) && is_digit(d2) && d1 < d2
                                ==> #[trigger] box_hidden_pair_reduced(entry, b, d1, d2),
                        !changed ==> forall|d1: int, d2: int|
                            is_digit(d1) && d1 < num_first && is_digit(d2) && d1 < d2
                                ==> #[trigger] box_hidden_pair_reduced(
                                entry,
                                box_num as int,
                                d1,
                                d2,
                            ),
                        !changed ==> forall|d2: int|
                            is_digit(d2) && num_first < d2 && d2 < num_second
                                ==> #[trigger] box_hidden_pair_reduced(
                                entry,
                                box_num as int,
                                num_first as int,
                                d2,
                            ),
                        !changed && stop ==> exists|d2m: int|
                            is_digit(d2m) && num_first < d2m && d2m < num_second
                                && entry.box_possible[box_num as int][num_first as int - 1]
                                == #[trigger] entry.box_possible[box_num as int][d2m - 1],
                    decreases 10 - num_second,
                {
                    if self.box_possible[box_num][num_first - 1] == self.box_possible[box_num][num_second
                        - 1] {
                        let m = self.box_possible[box_num][num_first - 1];
                        match Self::two_bits(m) {
                            Option::None => {
                                proof {
                                    if !changed {
                                        assert(box_hidden_pair_reduced(
                                            entry,
                                            box_num as int,
                                            num_first as int,
                                            num_second as int,
                                        )) by {
                                            assert forall|j0p: u8, j1p: u8, e: int|
                                                #![trigger exactly_two_bits(entry.box_possible[box_num as int][num_first as int - 1], j0p, j1p), cand(entry, crate::model::box_cell_x(box_num as int, j0p as int), crate::model::box_cell_y(box_num as int, j0p as int), e)]
                                                exactly_two_bits(
                                                    entry.box_possible[box_num as int][num_first as int
                                                        - 1],
                                                    j0p,
                                                    j1p,
                                                ) && is_digit(e) && e != num_first as int && e
                                                != num_second as int implies !cand(
                                                entry,
                                                crate::model::box_cell_x(
                                                    box_num as int,
                                                    j0p as int,
                                                ),
                                                crate::model::box_cell_y(
                                                    box_num as int,
                                                    j0p as int,
                                                ),
                                                e,
                                            ) && !cand(
                                                entry,
                                                crate::model::box_cell_x(
                                                    box_num as int,
                                                    j1p as int,
                                                ),
                                                crate::model::box_cell_y(
                                                    box_num as int,
                                                    j1p as int,
                                                ),
                                                e,
                                            ) by {
                                                assert(!exactly_two_bits(m, j0p, j1p));
                                                assert(false);
                                            }
                                        }
                                    }
                                }
                            },
                            Option::Some((j0, j1)) => {
                                let i0 = j0 as usize;
                                let i1 = j1 as usize;
                                let box_x = 3 * (box_num % 3);
                                let box_y = 3 * (box_num / 3);
                                let c0x = box_x + i0 % 3;
                                let c0y = box_y + i0 / 3;
                                let c1x = box_x + i1 % 3;
                                let c1y = box_y + i1 / 3;
                                let ghost s0 = *self;
                                proof {
                                    lemma_box_hidden_pair(
                                        s0,
                                        box_num as int,
                                        num_first as int,
                                        num_second as int,
                                        j0,
                                        j1,
                                    );
                                    assert(c0x as int == crate::model::box_cell_x(
                                        box_num as int,
                                        j0 as int,
                                    ));
                                    assert(c0y as int == crate::model::box_cell_y(
                                        box_num as int,
                                        j0 as int,
                                    ));
                                    assert(c1x as int == crate::model::box_cell_x(
                                        box_num as int,
                                        j1 as int,
                                    ));
                                    assert(c1y as int == crate::model::box_cell_y(
                                        box_num as int,
                                        j1 as int,
                                    ));
                                    crate::model::lemma_box_enum(box_num as int, j0 as int);
                                    crate::model::lemma_box_enum(box_num as int, j1 as int);
                                }
                                let hit = self.eliminate_hidden_pair_cells(
                                    c0x,
                                    c0y,
                                    c1x,
                                    c1y,
                                    num_first,
                                    num_second,
                                );
                                if hit {
                                    changed = true;
                                }
                                proof {
                                    if changed {
                                        if hit {
                                            lemma_witness_new(entry, s0, *self);
                                        } else {
                                            lemma_witness_persists(entry, s0, *self);
                                        }
                                    } else {
                                        assert(s0 == entry);
                                        assert(box_hidden_pair_reduced(
                                            entry,
                                            box_num as int,
                                            num_first as int,
                                            num_second as int,
                                        )) by {
                                            assert forall|j0p: u8, j1p: u8, e: int|
                                                #![trigger exactly_two_bits(entry.box_possible[box_num as int][num_first as int - 1], j0p, j1p), cand(entry, crate::model::box_cell_x(box_num as int, j0p as int), crate::model::box_cell_y(box_num as int, j0p as int), e)]
                                                exactly_two_bits(
                                                    entry.box_possible[box_num as int][num_first as int
                                                        - 1],
                                                    j0p,
                                                    j1p,
                                                ) && is_digit(e) && e != num_first as int && e
                                                != num_second as int implies !cand(
                                                entry,
                                                crate::model::box_cell_x(
                                                    box_num as int,
                                                    j0p as int,
                                                ),
                                                crate::model::box_cell_y(
                                                    box_num as int,
                                                    j0p as int,
                                                ),
                                                e,
                                            ) && !cand(
                                                entry,
                                                crate::model::box_cell_x(
                                                    box_num as int,
                                                    j1p as int,
                                                ),
                                                crate::model::box_cell_y(
                                                    box_num as int,
                                                    j1p as int,
                                                ),
                                                e,
                                            ) by {
                                                lemma_two_bits_unique(m, j0, j1, j0p, j1p);
                                                assert(!cand(entry, c0x as int, c0y as int, e)
                                                    && !cand(entry, c1x as int, c1y as int, e));
                                            }
                                        }
                                    }
                                }
                            },
                        }
                        proof {
                            if !changed {
                                assert(entry.box_possible[box_num as int][num_first as int - 1]
                                    == entry.box_possible[box_num as int][num_second as int - 1]);
                            }
                        }
                        stop = true;
                    } else {
                        proof {
                            if !changed {
                                assert(box_hidden_pair_reduced(
                                    entry,
                                    box_num as int,
                                    num_first as int,
                                    num_second as int,
                                ));
                            }
                        }
                    }
                    num_second = num_second + 1;
                }
                proof {
                    if !changed {
                        assert forall|d2: int|
                            is_digit(d2) && num_first < d2 implies #[trigger] box_hidden_pair_reduced(
                            entry,
                            box_num as int,
                            num_first as int,
                            d2,
                        ) by {
                            if d2 >= num_second as int {
                                if stop {
                                    let d2m = choose|d2m: int|
                                        is_digit(d2m) && num_first < d2m && d2m < num_second
                                            && entry.box_possible[box_num as int][num_first as int
                                            - 1] == #[trigger] entry.box_possible[box_num as int][d2m
                                            - 1];
                                    assert(d2m < d2);
                                } else {
                                    assert(num_second == 10);
                                    assert(false);
                                }
                            }
                        }
                    }
                }
                num_first = num_first + 1;
            }
            box_num = box_num + 1;
        }
        proof {
            if changed {
                let (wi, wj, wd) = choose|wi: int, wj: int, wd: int|
                    in_grid(wi, wj) && is_digit(wd) && #[trigger] cand(entry, wi, wj, wd) && !cand(
                        *self,
                        wi,
                        wj,
                        wd,
                    );
                if *self == entry {
                    assert(cand(*self, wi, wj, wd) == cand(entry, wi, wj, wd));
                }
            }
        }
        changed
    }

    /// One pass of the hidden-triple rule over columns: three digits whose
    /// combined column masks cover exactly three rows occupy those three
    /// cells, which are reduced to exactly those digits.
    #[verifier::rlimit(100)]
    #[verifier::spinoff_prover]
    pub fn apply_hidden_trips_columns(&mut self, debug: bool) -> (changed: bool)
        requires
            wf(*old(self)),
        ensures
            sound_step(*old(self), *final(self)),
            final(self).board == old(self).board,
            !changed ==> *final(self) == *old(self),
            changed ==> *final(self) != *old(self),
            !changed ==> forall|x2: int, d1: int, d2: int, d3: int|
                0 <= x2 < 9 && is_digit(d1) && is_digit(d2) && is_digit(d3) && d1 < d2 && d2 < d3
                    ==> #[trigger] col_hidden_trip_reduced(*final(self), x2, d1, d2, d3),
    {
        let ghost entry = *old(self);
        let mut changed = false;
        let mut x: usize = 0;
        while x < 9
            invariant
                entry == *old(self),
                wf(*self),
                x <= 9,
                sound_step(entry, *self),
                self.board == entry.board,
                !changed ==> *self == entry,
                changed ==> exists|wi: int, wj: int, wd: int|
                    in_grid(wi, wj) && is_digit(wd) && #[trigger] cand(entry, wi, wj, wd)
                        && !cand(*self, wi, wj, wd),
                !changed ==> forall|x2: int, d1: int, d2: int, d3: int|
                    0 <= x2 < x && is_digit(d1) && is_digit(d2) && is_digit(d3) && d1 < d2 && d2
                        < d3 ==> #[trigger] col_hidden_trip_reduced(entry, x2, d1, d2, d3),
            decreases 9 - x,
        {
            let mut num_first: usize = 1;
            while num_first < 8
                invariant
                    entry == *old(self),
                    wf(*self),
                    x < 9,
                    1 <= num_first <= 8,
                    sound_step(entry, *self),
                    self.board == entry.board,
                    !changed ==> *self == entry,
                    changed ==> exists|wi: int, wj: int, wd: int|
                        in_grid(wi, wj) && is_digit(wd) && #[trigger] cand(entry, wi, wj, wd)
                            && !cand(*self, wi, wj, wd),
                    !changed ==> forall|x2: int, d1: int, d2: int, d3: int|
                        0 <= x2 < x && is_digit(d1) && is_digit(d2) && is_digit(d3) && d1 < d2
                            && d2 < d3 ==> #[trigger] col_hidden_trip_reduced(
                            entry,
                            x2,
                            d1,
                            d2,
                            d3,
                        ),
                    !changed ==> forall|d1: int, d2: int, d3: int|
                        is_digit(d1) && d1 < num_first && is_digit(d2) && is_digit(d3) && d1 < d2
                            && d2 < d3 ==> #[trigger] col_hidden_trip_reduced(
                            entry,
                            x as int,
                            d1,
                            d2,
                            d3,
                        ),
                decreases 8 - num_first,
            {
                let first_poss = self.column_possible[x][num_first - 1];
                match Self::first_bit(first_poss) {
                    Option::None => {
                        proof {
                            if !changed {
                                assert forall|d2: int, d3: int|
                                    is_digit(d2) && is_digit(d3) && num_first < d2 && d2
                                        < d3 implies #[trigger] col_hidden_trip_reduced(
                                    entry,
                                    x as int,
                                    num_first as int,
                                    d2,
                                    d3,
                                ) by {
                                    if exists|w: u16|
                                        w < 9 && #[trigger] has_bit(
                                            entry.column_possible[x as int][num_first as int - 1],
                                            w,
                                        ) {
                                        let w = choose|w: u16|
                                            w < 9 && #[trigger] has_bit(
                                                entry.column_possible[x as int][num_first as int
                                                    - 1],
                                                w,
                                            );
                                        assert(has_bit(first_poss, w));
                                        assert(false);
                                    }
                                }
                            }
                        }
                    },
                    Option::Some(w1) => {
                        let ghost s_f = *self;
                        proof {
                            assert(cand(s_f, x as int, w1 as int, num_first as int));
                            lemma_col_witness_unplaced(
                                s_f,
                                x as int,
                                w1 as int,
                                num_first as int,
                            );
                            assert forall|p: int| 0 <= p < 9 implies #[trigger] tile_at(
                                entry,
                                x as int,
                                p,
                            ) != Tile::Num(num_first as usize) by {
                                assert(tile_at(s_f, x as int, p) == tile_at(entry, x as int, p));
                            }
                        }
                        let mut num_second: usize = num_first + 1;
                        while num_second < 9
                            invariant
                                entry == *old(self),
                                wf(*self),
                                x < 9,
                                1 <= num_first < 8,
                                num_first < num_second <= 9,
                                sound_step(entry, *self),
                                self.board == entry.board,
                                !changed ==> *self == entry,
                                changed ==> exists|wi: int, wj: int, wd: int|
                                    in_grid(wi, wj) && is_digit(wd) && #[trigger] cand(entry, wi, wj, wd)
                                        && !cand(*self, wi, wj, wd),
                                views_agree(s_f),
                                !changed ==> s_f == entry,
                                first_poss == s_f.column_possible[x as int][num_first as int - 1],
                                forall|i: int, j: int, d: int|
                                    in_grid(i, j) && is_digit(d) && #[trigger] cand(
                                        *self,
                                        i,
                                        j,
                                        d,
                                    ) ==> cand(s_f, i, j, d),
                                forall|p: int|
                                    0 <= p < 9 ==> #[trigger] tile_at(entry, x as int, p)
                                        != Tile::Num(num_first as usize),
                                !changed ==> forall|d2: int, d3: int|
                                    is_digit(d2) && is_digit(d3) && num_first < d2 && d2
                                        < num_second && d2 < d3
                                        ==> #[trigger] col_hidden_trip_reduced(
                                        entry,
                                        x as int,
                                        num_first as int,
                                        d2,
                                        d3,
                                    ),
                            decreases 9 - num_second,
                        {
                            let second_poss = self.column_possible[x][num_second - 1];
                            match Self::first_bit(second_poss) {
                                Option::None => {
                                    proof {
                                        if !changed {
                                            assert forall|d3: int|
                                                is_digit(d3) && num_second
                                                    < d3 implies #[trigger] col_hidden_trip_reduced(
                                                entry,
                                                x as int,
                                                num_first as int,
                                                num_second as int,
                                                d3,
                                            ) by {
                                                if exists|w: u16|
                                                    w < 9 && #[trigger] has_bit(
                                                        entry.column_possible[x as int][num_second as int
                                                            - 1],
                                                        w,
                                                    ) {
                                                    let w = choose|w: u16|
                                                        w < 9 && #[trigger] has_bit(
                                                            entry.column_possible[x as int][num_second as int
                                                                - 1],
                                                            w,
                                                        );
                                                    assert(has_bit(second_poss, w));
                                                    assert(false);
                                                }
                                            }
                                        }
                                    }
                                },
                                Option::Some(w2) => {
                                    let ghost s_s = *self;
                                    proof {
                                        assert(cand(s_s, x as int, w2 as int, num_second as int));
                                        lemma_col_witness_unplaced(
                                            s_s,
                                            x as int,
                                            w2 as int,
                                            num_second as int,
                                        );
                                        assert forall|p: int| 0 <= p < 9 implies #[trigger] tile_at(
                                            entry,
                                            x as int,
                                            p,
                                        ) != Tile::Num(num_second as usize) by {
                                            assert(tile_at(s_s, x as int, p) == tile_at(
                                                entry,
                                                x as int,
                                                p,
                                            ));
                                        }
                                    }
                                    let mut num_third: usize = num_second + 1;
                                    while num_third < 10
                                        invariant
                                            entry == *old(self),
                                            wf(*self),
                                            x < 9,
                                            1 <= num_first < 8,
                                            num_first < num_second < 9,
                                            num_second < num_third <= 10,
                                            sound_step(entry, *self),
                                            self.board == entry.board,
                                            !changed ==> *self == entry,
                                            changed ==> exists|wi: int, wj: int, wd: int|
                                                in_grid(wi, wj) && is_digit(wd) && #[trigger] cand(entry, wi, wj, wd)
                                                    && !cand(*self, wi, wj, wd),
                                            views_agree(s_f),
                                            views_agree(s_s),
                                            !changed ==> s_f == entry,
                                            !changed ==> s_s == entry,
                                            first_poss == s_f.column_possible[x as int][num_first as int
                                                - 1],
                                            second_poss == s_s.column_possible[x as int][num_second as int
                                                - 1],
                                            forall|i: int, j: int, d: int|
                                                in_grid(i, j) && is_digit(d) && #[trigger] cand(
                                                    *self,
                                                    i,
                                                    j,
                                                    d,
                                                ) ==> cand(s_f, i, j, d),
                                            forall|i: int, j: int, d: int|
                                                in_grid(i, j) && is_digit(d) && #[trigger] cand(
                                                    *self,
                                                    i,
                                                    j,
                                                    d,
                                                ) ==> cand(s_s, i, j, d),
                                            forall|p: int|
                                                0 <= p < 9 ==> #[trigger] tile_at(
                                                    entry,
                                                    x as int,
                                                    p,
                                                ) != Tile::Num(num_first as usize),
                                            forall|p: int|
                                                0 <= p < 9 ==> #[trigger] tile_at(
                                                    entry,
                                                    x as int,
                                                    p,
                                                ) != Tile::Num(num_second as usize),
                                            !changed ==> forall|d3: int|
                                                is_digit(d3) && num_second < d3 && d3 < num_third
                                                    ==> #[trigger] col_hidden_trip_reduced(
                                                    entry,
                                                    x as int,
                                                    num_first as int,
                                                    num_second as int,
                                                    d3,
                                                ),
                                        decreases 10 - num_third,
                                    {
                                        let third_poss = self.column_possible[x][num_third - 1];
                                        match Self::first_bit(third_poss) {
                                            Option::None => {
                                                proof {
                                                    if !changed {
                                                        assert(col_hidden_trip_reduced(
                                                            entry,
                                                            x as int,
                                                            num_first as int,
                                                            num_second as int,
                                                            num_third as int,
                                                        )) by {
                                                            if exists|w: u16|
                                                                w < 9 && #[trigger] has_bit(
                                                                    entry.column_possible[x as int][num_third as int
                                                                        - 1],
                                                                    w,
                                                                ) {
                                                                let w = choose|w: u16|
                                                                    w < 9 && #[trigger] has_bit(
                                                                        entry.column_possible[x as int][num_third as int
                                                                            - 1],
                                                                        w,
                                                                    );
                                                                assert(has_bit(third_poss, w));
                                                                assert(false);
                                                            }
                                                        }
                                                    }
                                                }
                                            },
                                            Option::Some(w3) => {
                                                let intersection = first_poss | second_poss
                                                    | third_poss;
                                                match Self::three_bits(intersection) {
                                                    Option::None => {
                                                        proof {
                                                            if !changed {
                                                                assert(col_hidden_trip_reduced(
                                                                    entry,
                                                                    x as int,
                                                                    num_first as int,
                                                                    num_second as int,
                                                                    num_third as int,
                                                                )) by {
                                                                    assert forall|
                                                                        j0p: u8,
                                                                        j1p: u8,
                                                                        j2p: u8,
                                                                        e: int,
                                                                    |
                                                                        exactly_three_bits(
                                                                            entry.column_possible[x as int][num_first as int
                                                                                - 1]
                                                                                | entry.column_possible[x as int][num_second as int
                                                                                - 1]
                                                                                | entry.column_possible[x as int][num_third as int
                                                                                - 1],
                                                                            j0p,
                                                                            j1p,
                                                                            j2p,
                                                                        ) && is_digit(e) && e
                                                                        != num_first as int && e
                                                                        != num_second as int && e
                                                                        != num_third as int implies !cand(
                                                                        entry,
                                                                        x as int,
                                                                        j0p as int,
                                                                        e,
                                                                    ) && !cand(
                                                                        entry,
                                                                        x as int,
                                                                        j1p as int,
                                                                        e,
                                                                    ) && !cand(
                                                                        entry,
                                                                        x as int,
                                                                        j2p as int,
                                                                        e,
                                                                    ) by {
                                                                        assert(!exactly_three_bits(
                                                                            intersection,
                                                                            j0p,
                                                                            j1p,
                                                                            j2p,
                                                                        ));
                                                                        assert(false);
                                                                    }
                                                                }
                                                            }
                                                        }
                                                    },
                                                    Option::Some((j0, j1, j2)) => {
                                                        let y0 = j0 as usize;
                                                        let y1 = j1 as usize;
                                                        let y2 = j2 as usize;
                                                        let ghost s0 = *self;
                                                        proof {
                                                            assert forall|p: int|
                                                                0 <= p < 9 implies #[trigger] tile_at(
                                                                s0,
                                                                x as int,
                                                                p,
                                                            ) != Tile::Num(num_first as usize)
                                                                && tile_at(s0, x as int, p)
                                                                != Tile::Num(
                                                                num_second as usize,
                                                            ) by {
                                                                assert(tile_at(s0, x as int, p)
                                                                    == tile_at(
                                                                    entry,
                                                                    x as int,
                                                                    p,
                                                                ));
                                                            }
                                                            lemma_col_trip_setup(
                                                                s0,
                                                                s_f,
                                                                s_s,
                                                                x as int,
                                                                num_first as int,
                                                                num_second as int,
                                                                num_third as int,
                                                                first_poss,
                                                                second_poss,
                                                                third_poss,
                                                                j0,
                                                                j1,
                                                                j2,
                                                                w3 as int,
                                                            );
                                                        }
                                                        let hit = self.eliminate_hidden_trip_cells(
                                                            x,
                                                            y0,
                                                            x,
                                                            y1,
                                                            x,
                                                            y2,
                                                            num_first,
                                                            num_second,
                                                            num_third,
                                                        );
                                                        if hit {
                                                            changed = true;
                                                        }
                                                        proof {
                                                            if changed {
                                                                if hit {
                                                                    lemma_witness_new(
                                                                        entry,
                                                                        s0,
                                                                        *self,
                                                                    );
                                                                } else {
                                                                    lemma_witness_persists(
                                                                        entry,
                                                                        s0,
                                                                        *self,
                                                                    );
                                                                }
                                                            } else {
                                                                assert(s0 == entry);
                                                                assert(col_hidden_trip_reduced(
                                                                    entry,
                                                                    x as int,
                                                                    num_first as int,
                                                                    num_second as int,
                                                                    num_third as int,
                                                                )) by {
                                                                    assert forall|
                                                                        j0p: u8,
                                                                        j1p: u8,
                                                                        j2p: u8,
                                                                        e: int,
                                                                    |
                                                                        #![trigger exactly_three_bits(entry.column_possible[x as int][num_first as int - 1] | entry.column_possible[x as int][num_second as int - 1] | entry.column_possible[x as int][num_third as int - 1], j0p, j1p, j2p), cand(entry, x as int, j0p as int, e)]
                                                                        exactly_three_bits(
                                                                            entry.column_possible[x as int][num_first as int
                                                                                - 1]
                                                                                | entry.column_possible[x as int][num_second as int
                                                                                - 1]
                                                                                | entry.column_possible[x as int][num_third as int
                                                                                - 1],
                                                                            j0p,
                                                                            j1p,
                                                                            j2p,
                                                                        ) && is_digit(e) && e
                                                                        != num_first as int && e
                                                                        != num_second as int && e
                                                                        != num_third as int implies !cand(
                                                                        entry,
                                                                        x as int,
                                                                        j0p as int,
                                                                        e,
                                                                    ) && !cand(
                                                                        entry,
                                                                        x as int,
                                                                        j1p as int,
                                                                        e,
                                                                    ) && !cand(
                                                                        entry,
                                                                        x as int,
                                                                        j2p as int,
                                                                        e,
                                                                    ) by {
                                                                        lemma_three_bits_unique(
                                                                            intersection,
                                                                            j0,
                                                                            j1,
                                                                            j2,
                                                                            j0p,
                                                                            j1p,
                                                                            j2p,
                                                                        );
                                                                        assert(!cand(
                                                                            s0,
                                                                            x as int,
                                                                            y0 as int,
                                                                            e,
                                                                        ) && !cand(
                                                                            s0,
                                                                            x as int,
                                                                            y1 as int,
                                                                            e,
                                                                        ) && !cand(
                                                                            s0,
                                                                            x as int,
                                                                            y2 as int,
                                                                            e,
                                                                        ));
                                                                    }
                                                                }
                                                            }
                                                        }
                                                    },
                                                }
                                            },
                                        }
                                        num_third = num_third + 1;
                                    }
                                },
                            }
                            num_second = num_second + 1;
                        }
                    },
                }
                num_first = num_first + 1;
            }
            x = x + 1;
        }
        proof {
            if changed {
                let (wi, wj, wd) = choose|wi: int, wj: int, wd: int|
                    in_grid(wi, wj) && is_digit(wd) && #[trigger] cand(entry, wi, wj, wd) && !cand(
                        *self,
                        wi,
                        wj,
                        wd,
                    );
                if *self == entry {
                    assert(cand(*self, wi, wj, wd) == cand(entry, wi, wj, wd));
                }
            }
        }
        changed
    }

    /// The hidden-triple rule over rows.
    #[verifier::rlimit(100)]
    #[verifier::spinoff_prover]
    pub fn apply_hidden_trips_rows(&mut self, debug: bool) -> (changed: bool)
        requires
            wf(*old(self)),
        ensures
            sound_step(*old(self), *final(self)),
            final(self).board == old(self).board,
            !changed ==> *final(self) == *old(self),
            changed ==> *final(self) != *old(self),
            !changed ==> forall|y2: int, d1: int, d2: int, d3: int|
                0 <= y2 < 9 && is_digit(d1) && is_digit(d2) && is_digit(d3) && d1 < d2 && d2 < d3
                    ==> #[trigger] row_hidden_trip_reduced(*final(self), y2, d1, d2, d3),
    {
        let ghost entry = *old(self);
        let mut changed = false;
        let mut y: usize = 0;
        while y < 9
            invariant
                entry == *old(self),
                wf(*self),
                y <= 9,
                sound_step(entry, *self),
                self.board == entry.board,
                !changed ==> *self == entry,
                changed ==> exists|wi: int, wj: int, wd: int|
                    in_grid(wi, wj) && is_digit(wd) && #[trigger] cand(entry, wi, wj, wd)
                        && !cand(*self, wi, wj, wd),
                !changed ==> forall|y2: int, d1: int, d2: int, d3: int|
                    0 <= y2 < y && is_digit(d1) && is_digit(d2) && is_digit(d3) && d1 < d2 && d2
                        < d3 ==> #[trigger] row_hidden_trip_reduced(entry, y2, d1, d2, d3),
            decreases 9 - y,
        {
            let mut num_first: usize = 1;
            while num_first < 8
                invariant
                    entry == *old(self),
                    wf(*self),
                    y < 9,
                    1 <= num_first <= 8,
                    sound_step(entry, *self),
                    self.board == entry.board,
                    !changed ==> *self == entry,
                    changed ==> exists|wi: int, wj: int, wd: int|
                        in_grid(wi, wj) && is_digit(wd) && #[trigger] cand(entry, wi, wj, wd)
                            && !cand(*self, wi, wj, wd),
                    !changed ==> forall|y2: int, d1: int, d2: int, d3: int|
                        0 <= y2 < y && is_digit(d1) && is_digit(d2) && is_digit(d3) && d1 < d2
                            && d2 < d3 ==> #[trigger] row_hidden_trip_reduced(
                            entry,
                            y2,
                            d1,
                            d2,
                            d3,
                        ),
                    !changed ==> forall|d1: int, d2: int, d3: int|
                        is_digit(d1) && d1 < num_first && is_digit(d2) && is_digit(d3) && d1 < d2
                            && d2 < d3 ==> #[trigger] row_hidden_trip_reduced(
                            entry,
                            y as int,
                            d1,
                            d2,
                            d3,
                        ),
                decreases 8 - num_first,
            {
                let first_poss = self.row_possible[y][num_first - 1];
                match Self::first_bit(first_poss) {
                    Option::None => {
                        proof {
                            if !changed {
                                assert forall|d2: int, d3: int|
                                    is_digit(d2) && is_digit(d3) && num_first < d2 && d2
                                        < d3 implies #[trigger] row_hidden_trip_reduced(
                                    entry,
                                    y as int,
                                    num_first as int,
                                    d2,
                                    d3,
                                ) by {
                                    if exists|w: u16|
                                        w < 9 && #[trigger] has_bit(
                                            entry.row_possible[y as int][num_first as int - 1],
                                            w,
                                        ) {
                                        let w = choose|w: u16|
                                            w < 9 && #[trigger] has_bit(
                                                entry.row_possible[y as int][num_first as int - 1],
                                                w,
                                            );
                                        assert(has_bit(first_poss, w));
                                        assert(false);
                                    }
                                }
                            }
                        }
                    },
                    Option::Some(w1) => {
                        let ghost s_f = *self;
                        proof {
                            assert(cand(s_f, w1 as int, y as int, num_first as int));
                            lemma_row_witness_unplaced(
                                s_f,
                                y as int,
                                w1 as int,
                                num_first as int,
                            );
                            assert forall|p: int| 0 <= p < 9 implies #[trigger] tile_at(
                                entry,
                                p,
                                y as int,
                            ) != Tile::Num(num_first as usize) by {
                                assert(tile_at(s_f, p, y as int) == tile_at(entry, p, y as int));
                            }
                        }
                        let mut num_second: usize = num_first + 1;
                        while num_second < 9
                            invariant
                                entry == *old(self),
                                wf(*self),
                                y < 9,
                                1 <= num_first < 8,
                                num_first < num_second <= 9,
                                sound_step(entry, *self),
                                self.board == entry.board,
                                !changed ==> *self == entry,
                                changed ==> exists|wi: int, wj: int, wd: int|
                                    in_grid(wi, wj) && is_digit(wd) && #[trigger] cand(entry, wi, wj, wd)
                                        && !cand(*self, wi, wj, wd),
                                views_agree(s_f),
                                !changed ==> s_f == entry,
                                first_poss == s_f.row_possible[y as int][num_first as int - 1],
                                forall|i: int, j: int, d: int|
                                    in_grid(i, j) && is_digit(d) && #[trigger] cand(
                                        *self,
                                        i,
                                        j,
                                        d,
                                    ) ==> cand(s_f, i, j, d),
                                forall|p: int|
                                    0 <= p < 9 ==> #[trigger] tile_at(entry, p, y as int)
                                        != Tile::Num(num_first as usize),
                                !changed ==> forall|d2: int, d3: int|
                                    is_digit(d2) && is_digit(d3) && num_first < d2 && d2
                                        < num_second && d2 < d3
                                        ==> #[trigger] row_hidden_trip_reduced(
                                        entry,
                                        y as int,
                                        num_first as int,
                                        d2,
                                        d3,
                                    ),
                            decreases 9 - num_second,
                        {
                            let second_poss = self.row_possible[y][num_second - 1];
                            match Self::first_bit(second_poss) {
                                Option::None => {
                                    proof {
                                        if !changed {
                                            assert forall|d3: int|
                                                is_digit(d3) && num_second
                                                    < d3 implies #[trigger] row_hidden_trip_reduced(
                                                entry,
                                                y as int,
                                                num_first as int,
                                                num_second as int,
                                                d3,
                                            ) by {
                                                if exists|w: u16|
                                                    w < 9 && #[trigger] has_bit(
                                                        entry.row_possible[y as int][num_second as int
                                                            - 1],
                                                        w,
                                                    ) {
                                                    let w = choose|w: u16|
                                                        w < 9 && #[trigger] has_bit(
                                                            entry.row_possible[y as int][num_second as int
                                                                - 1],
                                                            w,
                                                        );
                                                    assert(has_bit(second_poss, w));
                                                    assert(false);
                                                }
                                            }
                                        }
                                    }
                                },
                                Option::Some(w2) => {
                                    let ghost s_s = *self;
                                    proof {
                                        assert(cand(s_s, w2 as int, y as int, num_second as int));
                                        lemma_row_witness_unplaced(
                                            s_s,
                                            y as int,
                                            w2 as int,
                                            num_second as int,
                                        );
                                        assert forall|p: int| 0 <= p < 9 implies #[trigger] tile_at(
                                            entry,
                                            p,
                                            y as int,
                                        ) != Tile::Num(num_second as usize) by {
                                            assert(tile_at(s_s, p, y as int) == tile_at(
                                                entry,
                                                p,
                                                y as int,
                                            ));
                                        }
                                    }
                                    let mut num_third: usize = num_second + 1;
                                    while num_third < 10
                                        invariant
                                            entry == *old(self),
                                            wf(*self),
                                            y < 9,
                                            1 <= num_first < 8,
                                            num_first < num_second < 9,
                                            num_second < num_third <= 10,
                                            sound_step(entry, *self),
                                            self.board == entry.board,
                                            !changed ==> *self == entry,
                                            changed ==> exists|wi: int, wj: int, wd: int|
                                                in_grid(wi, wj) && is_digit(wd) && #[trigger] cand(entry, wi, wj, wd)
                                                    && !cand(*self, wi, wj, wd),
                                            views_agree(s_f),
                                            views_agree(s_s),
                                            !changed ==> s_f == entry,
                                            !changed ==> s_s == entry,
                                            first_poss == s_f.row_possible[y as int][num_first as int
                                                - 1],
                                            second_poss == s_s.row_possible[y as int][num_second as int
                                                - 1],
                                            forall|i: int, j: int, d: int|
                                                in_grid(i, j) && is_digit(d) && #[trigger] cand(
                                                    *self,
                                                    i,
                                                    j,
                                                    d,
                                                ) ==> cand(s_f, i, j, d),
                                            forall|i: int, j: int, d: int|
                                                in_grid(i, j) && is_digit(d) && #[trigger] cand(
                                                    *self,
                                                    i,
                                                    j,
                                                    d,
                                                ) ==> cand(s_s, i, j, d),
                                            forall|p: int|
                                                0 <= p < 9 ==> #[trigger] tile_at(
                                                    entry,
                                                    p,
                                                    y as int,
                                                ) != Tile::Num(num_first as usize),
                                            forall|p: int|
                                                0 <= p < 9 ==> #[trigger] tile_at(
                                                    entry,
                                                    p,
                                                    y as int,
                                                ) != Tile::Num(num_second as usize),
                                            !changed ==> forall|d3: int|
                                                is_digit(d3) && num_second < d3 && d3 < num_third
                                                    ==> #[trigger] row_hidden_trip_reduced(
                                                    entry,
                                                    y as int,
                                                    num_first as int,
                                                    num_second as int,
                                                    d3,
                                                ),
                                        decreases 10 - num_third,
                                    {
                                        let third_poss = self.row_possible[y][num_third - 1];
                                        match Self::first_bit(third_poss) {
                                            Option::None => {
                                                proof {
                                                    if !changed {
                                                        assert(row_hidden_trip_reduced(
                                                            entry,
                                                            y as int,
                                                            num_first as int,
                                                            num_second as int,
                                                            num_third as int,
                                                        )) by {
                                                            if exists|w: u16|
                                                                w < 9 && #[trigger] has_bit(
                                                                    entry.row_possible[y as int][num_third as int
                                                                        - 1],
                                                                    w,
                                                                ) {
                                                                let w = choose|w: u16|
                                                                    w < 9 && #[trigger] has_bit(
                                                                        entry.row_possible[y as int][num_third as int
                                                                            - 1],
                                                                        w,
                                                                    );
                                                                assert(has_bit(third_poss, w));
                                                                assert(false);
                                                            }
                                                        }
                                                    }
                                                }
                                            },
                                            Option::Some(w3) => {
                                                let intersection = first_poss | second_poss
                                                    | third_poss;
                                                match Self::three_bits(intersection) {
                                                    Option::None => {
                                                        proof {
                                                            if !changed {
                                                                assert(row_hidden_trip_reduced(
                                                                    entry,
                                                                    y as int,
                                                                    num_first as int,
                                                                    num_second as int,
                                                                    num_third as int,
                                                                )) by {
                                                                    assert forall|
                                                                        j0p: u8,
                                                                        j1p: u8,
                                                                        j2p: u8,
                                                                        e: int,
                                                                    |
                                                                        #![trigger exactly_three_bits(entry.row_possible[y as int][num_first as int - 1] | entry.row_possible[y as int][num_second as int - 1] | entry.row_possible[y as int][num_third as int - 1], j0p, j1p, j2p), cand(entry, j0p as int, y as int, e)]
                                                                        exactly_three_bits(
                                                                            entry.row_possible[y as int][num_first as int
                                                                                - 1]
                                                                                | entry.row_possible[y as int][num_second as int
                                                                                - 1]
                                                                                | entry.row_possible[y as int][num_third as int
                                                                                - 1],
                                                                            j0p,
                                                                            j1p,
                                                                            j2p,
                                                                        ) && is_digit(e) && e
                                                                        != num_first as int && e
                                                                        != num_second as int && e
                                                                        != num_third as int implies !cand(
                                                                        entry,
                                                                        j0p as int,
                                                                        y as int,
                                                                        e,
                                                                    ) && !cand(
                                                                        entry,
                                                                        j1p as int,
                                                                        y as int,
                                                                        e,
                                                                    ) && !cand(
                                                                        entry,
                                                                        j2p as int,
                                                                        y as int,
                                                                        e,
                                                                    ) by {
                                                                        assert(!exactly_three_bits(
                                                                            intersection,
                                                                            j0p,
                                                                            j1p,
                                                                            j2p,
                                                                        ));
                                                                        assert(false);
                                                                    }
                                                                }
                                                            }
                                                        }
                                                    },
                                                    Option::Some((j0, j1, j2)) => {
                                                        let x0 = j0 as usize;
                                                        let x1 = j1 as usize;
                                                        let x2 = j2 as usize;
                                                        let ghost s0 = *self;
                                                        proof {
                                                            assert forall|p: int|
                                                                0 <= p < 9 implies #[trigger] tile_at(
                                                                s0,
                                                                p,
                                                                y as int,
                                                            ) != Tile::Num(num_first as usize)
                                                                && tile_at(s0, p, y as int)
                                                                != Tile::Num(
                                                                num_second as usize,
                                                            ) by {
                                                                assert(tile_at(s0, p, y as int)
                                                                    == tile_at(
                                                                    entry,
                                                                    p,
                                                                    y as int,
                                                                ));
                                                            }
                                                            lemma_row_trip_setup(
                                                                s0,
                                                                s_f,
                                                                s_s,
                                                                y as int,
                                                                num_first as int,
                                                                num_second as int,
                                                                num_third as int,
                                                                first_poss,
                                                                second_poss,
                                                                third_poss,
                                                                j0,
                                                                j1,
                                                                j2,
                                                                w3 as int,
                                                            );
                                                        }
                                                        let hit = self.eliminate_hidden_trip_cells(
                                                            x0,
                                                            y,
                                                            x1,
                                                            y,
                                                            x2,
                                                            y,
                                                            num_first,
                                                            num_second,
                                                            num_third,
                                                        );
                                                        if hit {
                                                            changed = true;
                                                        }
                                                        proof {
                                                            if changed {
                                                                if hit {
                                                                    lemma_witness_new(
                                                                        entry,
                                                                        s0,
                                                                        *self,
                                                                    );
                                                                } else {
                                                                    lemma_witness_persists(
                                                                        entry,
                                                                        s0,
                                                                        *self,
                                                                    );
                                                                }
                                                            } else {
                                                                assert(s0 == entry);
                                                                assert forall|
                                                                        j0p: u8,
                                                                        j1p: u8,
                                                                        j2p: u8,
                                                                        e: int,
                                                                    |
                                                                        #![trigger exactly_three_bits(entry.row_possible[y as int][num_first as int - 1] | entry.row_possible[y as int][num_second as int - 1] | entry.row_possible[y as int][num_third as int - 1], j0p, j1p, j2p), cand(entry, j0p as int, y as int, e)]
                                                                        exactly_three_bits(
                                                                            entry.row_possible[y as int][num_first as int
                                                                                - 1]
                                                                                | entry.row_possible[y as int][num_second as int
                                                                                - 1]
                                                                                | entry.row_possible[y as int][num_third as int
                                                                                - 1],
                                                                            j0p,
                                                                            j1p,
                                                                            j2p,
                                                                        ) && is_digit(e) && e
                                                                        != num_first as int && e
                                                                        != num_second as int && e
                                                                        != num_third as int implies !cand(
                                                                        entry,
                                                                        j0p as int,
                                                                        y as int,
                                                                        e,
                                                                    ) && !cand(
                                                                        entry,
                                                                        j1p as int,
                                                                        y as int,
                                                                        e,
                                                                    ) && !cand(
                                                                        entry,
                                                                        j2p as int,
                                                                        y as int,
                                                                        e,
                                                                    ) by {
                                                                        lemma_three_bits_unique(
                                                                            intersection,
                                                                            j0,
                                                                            j1,
                                                                            j2,
                                                                            j0p,
                                                                            j1p,
                                                                            j2p,
                                                                        );
                                                                        assert(j0p == j0 && j1p
                                                                            == j1 && j2p == j2);
                                                                        assert(!cand(
                                                                            s0,
                                                                            x0 as int,
                                                                            y as int,
                                                                            e,
                                                                        ) && !cand(
                                                                            s0,
                                                                            x1 as int,
                                                                            y as int,
                                                                            e,
                                                                        ) && !cand(
                                                                            s0,
                                                                            x2 as int,
                                                                            y as int,
                                                                            e,
                                                                        ));
                                                                        assert(!cand(
                                                                            entry,
                                                                            j0p as int,
                                                                            y as int,
                                                                            e,
                                                                        ) && !cand(
                                                                            entry,
                                                                            j1p as int,
                                                                            y as int,
                                                                            e,
                                                                        ) && !cand(
                                                                            entry,
                                                                            j2p as int,
                                                                            y as int,
                                                                            e,
                                                                        ));
                                                                }
                                                                assert(forall|
                                                                    j0p: u8,
                                                                    j1p: u8,
                                                                    j2p: u8,
                                                                    e: int,
                                                                |
                                                                    #![trigger exactly_three_bits(entry.row_possible[y as int][num_first as int - 1] | entry.row_possible[y as int][num_second as int - 1] | entry.row_possible[y as int][num_third as int - 1], j0p, j1p, j2p), cand(entry, j0p as int, y as int, e)]
                                                                    exactly_three_bits(
                                                                        entry.row_possible[y as int][num_first as int
                                                                            - 1]
                                                                            | entry.row_possible[y as int][num_second as int
                                                                            - 1]
                                                                            | entry.row_possible[y as int][num_third as int
                                                                            - 1],
                                                                        j0p,
                                                                        j1p,
                                                                        j2p,
                                                                    ) && is_digit(e) && e
                                                                        != num_first as int && e
                                                                        != num_second as int && e
                                                                        != num_third as int ==> !cand(
                                                                        entry,
                                                                        j0p as int,
                                                                        y as int,
                                                                        e,
                                                                    ) && !cand(
                                                                        entry,
                                                                        j1p as int,
                                                                        y as int,
                                                                        e,
                                                                    ) && !cand(
                                                                        entry,
                                                                        j2p as int,
                                                                        y as int,
                                                                        e,
                                                                    ));
                                                                assert(row_hidden_trip_reduced(
                                                                    entry,
                                                                    y as int,
                                                                    num_first as int,
                                                                    num_second as int,
                                                                    num_third as int,
                                                                ));
                                                            }
                                                        }
                                                    },
                                                }
                                            },
                                        }
                                        num_third = num_third + 1;
                                    }
                                },
                            }
                            num_second = num_second + 1;
                        }
                    },
                }
                num_first = num_first + 1;
            }
            y = y + 1;
        }
        proof {
            if changed {
                let (wi, wj, wd) = choose|wi: int, wj: int, wd: int|
                    in_grid(wi, wj) && is_digit(wd) && #[trigger] cand(entry, wi, wj, wd) && !cand(
                        *self,
                        wi,
                        wj,
                        wd,
                    );
                if *self == entry {
                    assert(cand(*self, wi, wj, wd) == cand(entry, wi, wj, wd));
                }
            }
        }
        changed
    }

    /// The hidden-triple rule over boxes.
    #[verifier::rlimit(60)]
    pub fn apply_hidden_trips_boxes(&mut self, debug: bool) -> (changed: bool)
        requires
            wf(*old(self)),
        ensures
            sound_step(*old(self), *final(self)),
            final(self).board == old(self).board,
            !changed ==> *final(self) == *old(self),
            changed ==> *final(self) != *old(self),
    {
        let ghost entry = *old(self);
        let mut changed = false;
        let mut box_num: usize = 0;
        while box_num < 9
            invariant
                entry == *old(self),
                wf(*self),
                box_num <= 9,
                sound_step(entry, *self),
                self.board == entry.board,
                !changed ==> *self == entry,
                changed ==> exists|wi: int, wj: int, wd: int|
                    in_grid(wi, wj) && is_digit(wd) && #[trigger] cand(entry, wi, wj, wd)
                        && !cand(*self, wi, wj, wd),
            decreases 9 - box_num,
        {
            let mut num_first: usize = 1;
            while num_first < 8
                invariant
                    entry == *old(self),
                    wf(*self),
                    box_num < 9,
                    1 <= num_first <= 8,
                    sound_step(entry, *self),
                    self.board == entry.board,
                    !changed ==> *self == entry,
                    changed ==> exists|wi: int, wj: int, wd: int|
                        in_grid(wi, wj) && is_digit(wd) && #[trigger] cand(entry, wi, wj, wd)
                            && !cand(*self, wi, wj, wd),
                decreases 8 - num_first,
            {
                let first_poss = self.box_possible[box_num][num_first - 1];
                match Self::first_bit(first_poss) {
                    Option::None => {},
                    Option::Some(w1) => {
                        let ghost s_f = *self;
                        proof {
                            crate::model::lemma_box_enum(box_num as int, w1 as int);
                            assert(box_bit(
                                s_f,
                                crate::model::box_cell_x(box_num as int, w1 as int),
                                crate::model::box_cell_y(box_num as int, w1 as int),
                                num_first as int,
                            ));
                            lemma_box_witness_unplaced(
                                s_f,
                                crate::model::box_cell_x(box_num as int, w1 as int),
                                crate::model::box_cell_y(box_num as int, w1 as int),
                                num_first as int,
                            );
                            assert forall|p: int, q: int|
                                in_grid(p, q) && box_of(p, q) == box_num as int implies #[trigger] tile_at(
                                entry,
                                p,
                                q,
                            ) != Tile::Num(num_first as usize) by {
                                assert(tile_at(s_f, p, q) == tile_at(entry, p, q));
                            }
                        }
                        let mut num_second: usize = num_first + 1;
                        while num_second < 9
                            invariant
                                entry == *old(self),
                                wf(*self),
                                box_num < 9,
                                1 <= num_first < 8,
                                num_first < num_second <= 9,
                                sound_step(entry, *self),
                                self.board == entry.board,
                                !changed ==> *self == entry,
                                changed ==> exists|wi: int, wj: int, wd: int|
                                    in_grid(wi, wj) && is_digit(wd) && #[trigger] cand(entry, wi, wj, wd)
                                        && !cand(*self, wi, wj, wd),
                                views_agree(s_f),
                                first_poss == s_f.box_possible[box_num as int][num_first as int
                                    - 1],
                                forall|i: int, j: int, d: int|
                                    in_grid(i, j) && is_digit(d) && #[trigger] cand(
                                        *self,
                                        i,
                                        j,
                                        d,
                                    ) ==> cand(s_f, i, j, d),
                                forall|p: int, q: int|
                                    in_grid(p, q) && box_of(p, q) == box_num as int
                                        ==> #[trigger] tile_at(entry, p, q) != Tile::Num(
                                        num_first as usize,
                                    ),
                            decreases 9 - num_second,
                        {
                            let second_poss = self.box_possible[box_num][num_second - 1];
                            match Self::first_bit(second_poss) {
                                Option::None => {},
                                Option::Some(w2) => {
                                    let ghost s_s = *self;
                                    proof {
                                        crate::model::lemma_box_enum(box_num as int, w2 as int);
                                        assert(box_bit(
                                            s_s,
                                            crate::model::box_cell_x(box_num as int, w2 as int),
                                            crate::model::box_cell_y(box_num as int, w2 as int),
                                            num_second as int,
                                        ));
                                        lemma_box_witness_unplaced(
                                            s_s,
                                            crate::model::box_cell_x(box_num as int, w2 as int),
                                            crate::model::box_cell_y(box_num as int, w2 as int),
                                            num_second as int,
                                        );
                                        assert forall|p: int, q: int|
                                            in_grid(p, q) && box_of(p, q)
                                                == box_num as int implies #[trigger] tile_at(
                                            entry,
                                            p,
                                            q,
                                        ) != Tile::Num(num_second as usize) by {
                                            assert(tile_at(s_s, p, q) == tile_at(entry, p, q));
                                        }
                                    }
                                    let mut num_third: usize = num_second + 1;
                                    while num_third < 10
                                        invariant
                                            entry == *old(self),
                                            wf(*self),
                                            box_num < 9,
                                            1 <= num_first < 8,
                                            num_first < num_second < 9,
                                            num_second < num_third <= 10,
                                            sound_step(entry, *self),
                                            self.board == entry.board,
                                            !changed ==> *self == entry,
                                            changed ==> exists|wi: int, wj: int, wd: int|
                                                in_grid(wi, wj) && is_digit(wd) && #[trigger] cand(entry, wi, wj, wd)
                                                    && !cand(*self, wi, wj, wd),
                                            views_agree(s_f),
                                            views_agree(s_s),
                                            first_poss == s_f.box_possible[box_num as int][num_first as int
                                                - 1],
                                            second_poss == s_s.box_possible[box_num as int][num_second as int
                                                - 1],
                                            forall|i: int, j: int, d: int|
                                                in_grid(i, j) && is_digit(d) && #[trigger] cand(
                                                    *self,
                                                    i,
                                                    j,
                                                    d,
                                                ) ==> cand(s_f, i, j, d),
                                            forall|i: int, j: int, d: int|
                                                in_grid(i, j) && is_digit(d) && #[trigger] cand(
                                                    *self,
                                                    i,
                                                    j,
                                                    d,
                                                ) ==> cand(s_s, i, j, d),
                                            forall|p: int, q: int|
                                                in_grid(p, q) && box_of(p, q) == box_num as int
                                                    ==> #[trigger] tile_at(entry, p, q)
                                                    != Tile::Num(num_first as usize),
                                            forall|p: int, q: int|
                                                in_grid(p, q) && box_of(p, q) == box_num as int
                                                    ==> #[trigger] tile_at(entry, p, q)
                                                    != Tile::Num(num_second as usize),
                                        decreases 10 - num_third,
                                    {
                                        let third_poss = self.box_possible[box_num][num_third - 1];
                                        match Self::first_bit(third_poss) {
                                            Option::None => {},
                                            Option::Some(w3) => {
                                                let intersection = first_poss | second_poss
                                                    | third_poss;
                                                match Self::three_bits(intersection) {
                                                    Option::None => {},
                                                    Option::Some((j0, j1, j2)) => {
                                                        let i0 = j0 as usize;
                                                        let i1 = j1 as usize;
                                                        let i2 = j2 as usize;
                                                        let box_x = 3 * (box_num % 3);
                                                        let box_y = 3 * (box_num / 3);
                                                        let c0x = box_x + i0 % 3;
                                                        let c0y = box_y + i0 / 3;
                                                        let c1x = box_x + i1 % 3;
                                                        let c1y = box_y + i1 / 3;
                                                        let c2x = box_x + i2 % 3;
                                                        let c2y = box_y + i2 / 3;
                                                        let ghost s0 = *self;
                                                        proof {
                                                            assert forall|p: int, q: int|
                                                                in_grid(p, q) && box_of(p, q)
                                                                    == box_num as int implies #[trigger] tile_at(
                                                                s0,
                                                                p,
                                                                q,
                                                            ) != Tile::Num(num_first as usize)
                                                                && tile_at(s0, p, q) != Tile::Num(
                                                                num_second as usize,
                                                            ) by {
                                                                assert(tile_at(s0, p, q)
                                                                    == tile_at(entry, p, q));
                                                            }
                                                            assert(cand(
                                                                s0,
                                                                crate::model::box_cell_x(
                                                                    box_num as int,
                                                                    w3 as int,
                                                                ),
                                                                crate::model::box_cell_y(
                                                                    box_num as int,
                                                                    w3 as int,
                                                                ),
                                                                num_third as int,
                                                            )) by {
                                                                crate::model::lemma_box_enum(
                                                                    box_num as int,
                                                                    w3 as int,
                                                                );
                                                                assert(box_bit(
                                                                    s0,
                                                                    crate::model::box_cell_x(
                                                                        box_num as int,
                                                                        w3 as int,
                                                                    ),
                                                                    crate::model::box_cell_y(
                                                                        box_num as int,
                                                                        w3 as int,
                                                                    ),
                                                                    num_third as int,
                                                                ));
                                                            }
                                                            lemma_box_trip_setup(
                                                                s0,
                                                                s_f,
                                                                s_s,
                                                                box_num as int,
                                                                num_first as int,
                                                                num_second as int,
                                                                num_third as int,
                                                                first_poss,
                                                                second_poss,
                                                                third_poss,
                                                                j0,
                                                                j1,
                                                                j2,
                                                                w3 as int,
                                                            );
                                                            crate::model::lemma_box_enum(
                                                                box_num as int,
                                                                j0 as int,
                                                            );
                                                            crate::model::lemma_box_enum(
                                                                box_num as int,
                                                                j1 as int,
                                                            );
                                                            crate::model::lemma_box_enum(
                                                                box_num as int,
                                                                j2 as int,
                                                            );
                                                            assert(c0x as int
                                                                == crate::model::box_cell_x(
                                                                box_num as int,
                                                                j0 as int,
                                                            ) && c0y as int
                                                                == crate::model::box_cell_y(
                                                                box_num as int,
                                                                j0 as int,
                                                            ));
                                                            assert(c1x as int
                                                                == crate::model::box_cell_x(
                                                                box_num as int,
                                                                j1 as int,
                                                            ) && c1y as int
                                                                == crate::model::box_cell_y(
                                                                box_num as int,
                                                                j1 as int,
                                                            ));
                                                            assert(c2x as int
                                                                == crate::model::box_cell_x(
                                                                box_num as int,
                                                                j2 as int,
                                                            ) && c2y as int
                                                                == crate::model::box_cell_y(
                                                                box_num as int,
                                                                j2 as int,
                                                            ));
                                                        }
                                                        let hit = self.eliminate_hidden_trip_cells(
                                                            c0x,
                                                            c0y,
                                                            c1x,
                                                            c1y,
                                                            c2x,
                                                            c2y,
                                                            num_first,
                                                            num_second,
                                                            num_third,
                                                        );
                                                        if hit {
                                                            changed = true;
                                                        }
                                                        proof {
                                                            if changed {
                                                                if hit {
                                                                    lemma_witness_new(
                                                                        entry,
                                                                        s0,
                                                                        *self,
                                                                    );
                                                                } else {
                                                                    lemma_witness_persists(
                                                                        entry,
                                                                        s0,
                                                                        *self,
                                                                    );
                                                                }
                                                            }
                                                        }
                                                    },
                                                }
                                            },
                                        }
                                        num_third = num_third + 1;
                                    }
                                },
                            }
                            num_second = num_second + 1;
                        }
                    },
                }
                num_first = num_first + 1;
            }
            box_num = box_num + 1;
        }
        proof {
            if changed {
                let (wi, wj, wd) = choose|wi: int, wj: int, wd: int|
                    in_grid(wi, wj) && is_digit(wd) && #[trigger] cand(entry, wi, wj, wd) && !cand(
                        *self,
                        wi,
                        wj,
                        wd,
                    );
                if *self == entry {
                    assert(cand(*self, wi, wj, wd) == cand(entry, wi, wj, wd));
                }
            }
        }
        changed
    }

    /// The branching heuristic: the cell with the fewest remaining
    /// candidates among those that still have any, ties broken by the
    /// first found in a row-major scan (the order of the puzzle text);
    /// `(0, 0)` when no cell has a candidate left.
    pub fn get_best_guess_spot(&mut self, debug: bool) -> (r: (usize, usize))
        ensures
            *final(self) == *old(self),
            r.0 < 9 && r.1 < 9,
            (forall|i: int, j: int| in_grid(i, j) ==> #[trigger] cand_count(*old(self), i, j) == 0)
                ==> r == (0usize, 0usize),
            (exists|i: int, j: int| in_grid(i, j) && #[trigger] cand_count(*old(self), i, j) > 0)
                ==> {
                &&& cand_count(*old(self), r.0 as int, r.1 as int) > 0
                &&& forall|i: int, j: int|
                    in_grid(i, j) && #[trigger] cand_count(*old(self), i, j) > 0 ==> cand_count(
                        *old(self),
                        r.0 as int,
                        r.1 as int,
                    ) <= cand_count(*old(self), i, j)
                &&& forall|i: int, j: int|
                    in_grid(i, j) && (j < r.1 as int || (j == r.1 as int && i < r.0 as int))
                        ==> #[trigger] cand_count(*old(self), i, j) == 0 || cand_count(
                        *old(self),
                        i,
                        j,
                    ) > cand_count(*old(self), r.0 as int, r.1 as int)
            },
    {
        let mut best_x: usize = 0;
        let mut best_y: usize = 0;
        let mut min_possible: usize = usize::MAX;
        let mut y: usize = 0;
        while y < 9
            invariant
                y <= 9,
                *self == *old(self),
                best_x < 9,
                best_y < 9,
                min_possible == usize::MAX ==> best_x == 0 && best_y == 0 && (forall|i: int, j: int|
                    in_grid(i, j) && j < y ==> #[trigger] cand_count(*old(self), i, j) == 0),
                min_possible < usize::MAX ==> {
                    &&& (best_y as int) < y
                    &&& min_possible >= 1
                    &&& cand_count(*old(self), best_x as int, best_y as int) == min_possible
                    &&& forall|i: int, j: int|
                        in_grid(i, j) && j < y ==> #[trigger] cand_count(*old(self), i, j) == 0
                            || cand_count(*old(self), i, j) >= min_possible
                    &&& forall|i: int, j: int|
                        in_grid(i, j) && (j < best_y as int || (j == best_y as int && i
                            < best_x as int)) ==> #[trigger] cand_count(*old(self), i, j) == 0
                            || cand_count(*old(self), i, j) > min_possible
                },
            decreases 9 - y,
        {
            let mut x: usize = 0;
            while x < 9
                invariant
                    y < 9,
                    x <= 9,
                    *self == *old(self),
                    best_x < 9,
                    best_y < 9,
                    min_possible == usize::MAX ==> best_x == 0 && best_y == 0 && (forall|
                        i: int,
                        j: int,
                    |
                        in_grid(i, j) && (j < y || (j == y && i < x)) ==> #[trigger] cand_count(
                            *old(self),
                            i,
                            j,
                        ) == 0),
                    min_possible < usize::MAX ==> {
                        &&& ((best_y as int) < y || (best_y as int == y && (best_x as int) < x))
                        &&& min_possible >= 1
                        &&& cand_count(*old(self), best_x as int, best_y as int) == min_possible
                        &&& forall|i: int, j: int|
                            in_grid(i, j) && (j < y || (j == y && i < x))
                                ==> #[trigger] cand_count(*old(self), i, j) == 0 || cand_count(
                                *old(self),
                                i,
                                j,
                            ) >= min_possible
                        &&& forall|i: int, j: int|
                            in_grid(i, j) && (j < best_y as int || (j == best_y as int && i
                                < best_x as int)) ==> #[trigger] cand_count(*old(self), i, j) == 0
                                || cand_count(*old(self), i, j) > min_possible
                    },
                decreases 9 - x,
            {
                let mut count: usize = 0;
                let mut i: usize = 1;
                while i < 10
                    invariant
                        x < 9,
                        y < 9,
                        1 <= i <= 10,
                        *self == *old(self),
                        count <= i - 1,
                        count + cands_from(*old(self), x as int, y as int, i as int) == cand_count(
                            *old(self),
                            x as int,
                            y as int,
                        ),
                    decreases 10 - i,
                {
                    if self.is_possible_at(x, y, i) {
                        count = count + 1;
                    }
                    i = i + 1;
                }
                if count > 0 && count < min_possible {
                    min_possible = count;
                    best_x = x;
                    best_y = y;
                }
                x = x + 1;
            }
            y = y + 1;
        }
        (best_x, best_y)
    }

    /// One pass of the cheapest rule: fills every naked single found,
    /// scanning the cells in order.  Returns `(changed, complete,
    /// no_solutions)`: whether a digit was placed, whether every cell
    /// scanned was already filled, and whether some empty cell has no
    /// candidate left, which proves the puzzle admits no assignment at
    /// all.
    pub fn fill_naked_singles(&mut self, debug: bool) -> (r: (bool, bool, bool))
        requires
            wf(*old(self)),
        ensures
            sound_step(*old(self), *final(self)),
            r.2 ==> forall|a: Seq<Seq<int>>| !admits(*old(self), a),
            r.1 && !r.2 ==> complete(*final(self)),
            !r.0 ==> *final(self) == *old(self),
            !r.0 && !r.2 ==> forall|i: int, j: int|
                in_grid(i, j) ==> !cell_forced(*old(self), i, j),
            r.0 ==> empty_count(*final(self)) < empty_count(*old(self)),
            complete(*old(self)) ==> r.1 && !r.0 && !r.2,
    {
        let ghost entry = *old(self);
        let mut changed = false;
        let mut complete_flag = true;
        let mut x: usize = 0;
        while x < 9
            invariant
                entry == *old(self),
                wf(*self),
                x <= 9,
                sound_step(entry, *self),
                !changed ==> *self == entry,
                changed ==> empty_count(*self) < empty_count(entry),
                complete(entry) ==> complete_flag && !changed,
                !changed ==> forall|i: int, j: int|
                    in_grid(i, j) && i < x ==> !cell_forced(entry, i, j),
                complete_flag ==> forall|i: int, j: int|
                    in_grid(i, j) && i < x ==> !(#[trigger] tile_at(*self, i, j) is Void),
            decreases 9 - x,
        {
            let mut y: usize = 0;
            while y < 9
                invariant
                    entry == *old(self),
                    wf(*self),
                    x < 9,
                    y <= 9,
                    sound_step(entry, *self),
                    !changed ==> *self == entry,
                    changed ==> empty_count(*self) < empty_count(entry),
                    complete(entry) ==> complete_flag && !changed,
                    !changed ==> forall|i: int, j: int|
                        in_grid(i, j) && (i < x || (i == x && j < y)) ==> !cell_forced(
                            entry,
                            i,
                            j,
                        ),
                    complete_flag ==> forall|i: int, j: int|
                        in_grid(i, j) && (i < x || (i == x && j < y)) ==> !(#[trigger] tile_at(
                            *self,
                            i,
                            j,
                        ) is Void),
                decreases 9 - y,
            {
                if self.board[x][y] == Tile::Void {
                    complete_flag = false;
                }
                let naked = self.get_naked_single(x, y);
                if naked.1 {
                    proof {
                        assert forall|a: Seq<Seq<int>>| !admits(entry, a) by {
                            if admits(*self, a) {
                                assert(cell_respects(*self, a, x as int, y as int));
                                let dd = a[x as int][y as int];
                                assert(is_digit(dd));
                                assert(cand(*self, x as int, y as int, dd));
                                assert(false);
                            }
                            assert(!admits(*self, a));
                        }
                    }
                    return (changed, complete_flag, true);
                }
                match naked.0 {
                    Tile::Void => {},
                    Tile::Num(v) => {
                        let ghost before = *self;
                        self.set_tile_at(x, y, naked.0);
                        changed = true;
                        proof {
                            assert forall|a: Seq<Seq<int>>| #[trigger] admits(before, a) implies a[x as int][y as int]
                                == v as int by {
                                assert(cell_respects(before, a, x as int, y as int));
                                assert(is_digit(a[x as int][y as int]));
                            }
                            lemma_place_admits(before, *self, x as int, y as int, v as int);
                            assert forall|a: Seq<Seq<int>>|
                                #![trigger admits(entry, a)]
                                #![trigger admits(*self, a)]
                                admits(*self, a) == admits(entry, a) by {
                                assert(admits(before, a) == admits(entry, a));
                                if admits(before, a) {
                                    assert(a[x as int][y as int] == v as int);
                                    assert(admits(*self, a));
                                }
                                if admits(*self, a) {
                                    assert(admits(before, a));
                                }
                            }
                        }
                    },
                }
                y = y + 1;
            }
            x = x + 1;
        }
        (changed, complete_flag, false)
    }
}

} // verus!
