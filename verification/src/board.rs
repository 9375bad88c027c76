//! The board state: placed digits plus the four redundant candidate views,
//! kept in lock-step by the two mutation primitives `set_tile_at` and
//! `remove_possible_at`.

use vstd::prelude::*;
use crate::bits::has_bit;
use crate::bits::lemma_mask_clear;
use crate::bits::lemma_mask_clear_absent;
use crate::bits::lemma_mask_const;
use crate::bits::lemma_mask_test;

verus! {

/// Bitmask with all nine candidate bits set.
pub const ALL_POSSIBLE: u16 = 0x1ff;

/// Bitmask with no candidate bit set.
pub const NONE_POSSIBLE: u16 = 0;

/// A cell's value: empty, or a digit 1 through 9.
#[derive(Copy, Clone, PartialEq, Eq, Structural, Debug)]
pub enum Tile {
    Void,
    Num(usize),
}

/// A 9x9 board, indexed `board[x][y]` with `x` the column and `y` the row,
/// together with three redundant per-unit candidate indices:
/// `possible[x][y]` has bit `d - 1` set when digit `d` is still a candidate
/// at `(x, y)`; `column_possible[x][d - 1]` has bit `y` set for the same
/// fact, `row_possible[y][d - 1]` bit `x`, and `box_possible[b][d - 1]` the
/// in-box position bit, where `b` is the box index of `(x, y)`.
#[derive(Copy, Clone, PartialEq, Eq, Debug)]
pub struct Sudoku {
    pub board: [[Tile; 9]; 9],
    pub possible: [[u16; 9]; 9],
    pub column_possible: [[u16; 9]; 9],
    pub row_possible: [[u16; 9]; 9],
    pub box_possible: [[u16; 9]; 9],
    pub clues: usize,
}

pub open spec fn in_grid(x: int, y: int) -> bool {
    0 <= x < 9 && 0 <= y < 9
}

pub open spec fn is_digit(d: int) -> bool {
    1 <= d <= 9
}

/// The index of the 3x3 box holding `(x, y)`.
pub open spec fn box_of(x: int, y: int) -> int {
    x / 3 + 3 * (y / 3)
}

/// The position of `(x, y)` within its box, row-major.
pub open spec fn box_slot(x: int, y: int) -> int {
    x % 3 + 3 * (y % 3)
}

/// Two distinct grid cells that share a row, a column, or a box.
pub open spec fn peers(x: int, y: int, x2: int, y2: int) -> bool {
    in_grid(x, y) && in_grid(x2, y2) && !(x == x2 && y == y2) && (x == x2 || y == y2 || box_of(
        x,
        y,
    ) == box_of(x2, y2))
}

pub open spec fn tile_at(s: Sudoku, x: int, y: int) -> Tile {
    s.board[x][y]
}

/// Digit `d` is still a candidate at `(x, y)` according to the per-cell view.
pub open spec fn cand(s: Sudoku, x: int, y: int, d: int) -> bool {
    has_bit(s.possible[x][y], (d - 1) as u16)
}

/// The same fact according to the column index.
pub open spec fn col_bit(s: Sudoku, x: int, y: int, d: int) -> bool {
    has_bit(s.column_possible[x][d - 1], y as u16)
}

/// The same fact according to the row index.
pub open spec fn row_bit(s: Sudoku, x: int, y: int, d: int) -> bool {
    has_bit(s.row_possible[y][d - 1], x as u16)
}

/// The same fact according to the box index.
pub open spec fn box_bit(s: Sudoku, x: int, y: int, d: int) -> bool {
    has_bit(s.box_possible[box_of(x, y)][d - 1], box_slot(x, y) as u16)
}

/// All four candidate views agree on every cell/digit pair.
pub open spec fn views_agree(s: Sudoku) -> bool {
    forall|x: int, y: int, d: int|
        #![trigger cand(s, x, y, d)]
        #![trigger col_bit(s, x, y, d)]
        #![trigger row_bit(s, x, y, d)]
        #![trigger box_bit(s, x, y, d)]
        in_grid(x, y) && is_digit(d) ==> (col_bit(s, x, y, d) == cand(s, x, y, d)) && (row_bit(
            s,
            x,
            y,
            d,
        ) == cand(s, x, y, d)) && (box_bit(s, x, y, d) == cand(s, x, y, d))
}

/// Every placed digit is in range 1 through 9.
pub open spec fn tiles_ok(s: Sudoku) -> bool {
    forall|x: int, y: int|
        in_grid(x, y) ==> match #[trigger] tile_at(s, x, y) {
            Tile::Num(v) => is_digit(v as int),
            Tile::Void => true,
        }
}

/// A placed cell retains no candidates of its own.
pub open spec fn placed_no_cands(s: Sudoku) -> bool {
    forall|x: int, y: int, d: int|
        in_grid(x, y) && is_digit(d) && !(tile_at(s, x, y) is Void) ==> !#[trigger] cand(
            s,
            x,
            y,
            d,
        )
}

/// No cell keeps a candidate for a digit already placed in a peer cell.
pub open spec fn cands_exclude_placed(s: Sudoku) -> bool {
    forall|x: int, y: int, x2: int, y2: int, d: int|
        #![trigger cand(s, x, y, d), tile_at(s, x2, y2)]
        peers(x, y, x2, y2) && is_digit(d) && cand(s, x, y, d) ==> tile_at(s, x2, y2) != Tile::Num(
            d as usize,
        )
}

/// The board invariant maintained by every mutation: the four candidate
/// views agree, placed digits are in range, placed cells have no candidates
/// left, and no candidate contradicts a placed peer.
pub open spec fn wf(s: Sudoku) -> bool {
    views_agree(s) && tiles_ok(s) && placed_no_cands(s) && cands_exclude_placed(s)
}

/// No two peer cells hold the same placed digit.
pub open spec fn placed_ok(s: Sudoku) -> bool {
    forall|x: int, y: int, x2: int, y2: int|
        #![trigger tile_at(s, x, y), tile_at(s, x2, y2)]
        peers(x, y, x2, y2) ==> (tile_at(s, x, y) is Void || tile_at(s, x, y) != tile_at(
            s,
            x2,
            y2,
        ))
}

/// Every cell is placed.
pub open spec fn complete(s: Sudoku) -> bool {
    forall|x: int, y: int| in_grid(x, y) ==> !(#[trigger] tile_at(s, x, y) is Void)
}

/// The number of empty cells among the linear cell indices below `n`,
/// scanning row-major with index `9 * y + x`.
pub open spec fn empties_below(s: Sudoku, n: int) -> nat
    decreases n,
{
    if n <= 0 {
        0
    } else {
        empties_below(s, n - 1) + (if tile_at(s, (n - 1) % 9, (n - 1) / 9) is Void {
            1nat
        } else {
            0nat
        })
    }
}

/// The number of empty cells of the board.
pub open spec fn empty_count(s: Sudoku) -> nat {
    empties_below(s, 81)
}

/// Two boards whose tiles agree except at one cell, empty in the first and
/// placed in the second, differ by exactly one in their empty-cell count.
pub proof fn lemma_empty_count_place(s1: Sudoku, s2: Sudoku, x: int, y: int, n: int)
    requires
        in_grid(x, y),
        0 <= n <= 81,
        tile_at(s1, x, y) is Void,
        !(tile_at(s2, x, y) is Void),
        forall|i: int, j: int|
            in_grid(i, j) && !(i == x && j == y) ==> #[trigger] tile_at(s2, i, j) == tile_at(
                s1,
                i,
                j,
            ),
    ensures
        empties_below(s2, n) == if 9 * y + x < n {
            empties_below(s1, n) - 1
        } else {
            empties_below(s1, n) as int
        },
    decreases n,
{
    if n > 0 {
        lemma_empty_count_place(s1, s2, x, y, n - 1);
        let i = (n - 1) % 9;
        let j = (n - 1) / 9;
        assert(in_grid(i, j));
        if i == x && j == y {
            assert(9 * y + x == n - 1);
        } else {
            assert(tile_at(s2, i, j) == tile_at(s1, i, j));
            assert(9 * j + i == n - 1);
        }
    }
}

/// Two boards with the same tiles everywhere have the same empty-cell count.
pub proof fn lemma_empty_count_same(s1: Sudoku, s2: Sudoku, n: int)
    requires
        n <= 81,
        forall|i: int, j: int|
            in_grid(i, j) ==> #[trigger] tile_at(s2, i, j) == tile_at(s1, i, j),
    ensures
        empties_below(s2, n) == empties_below(s1, n),
    decreases n,
{
    if n > 0 {
        lemma_empty_count_same(s1, s2, n - 1);
        assert(in_grid((n - 1) % 9, (n - 1) / 9));
        assert(tile_at(s2, (n - 1) % 9, (n - 1) / 9) == tile_at(s1, (n - 1) % 9, (n - 1) / 9));
    }
}

/// The clue counter matches the number of placed tiles.
pub open spec fn clues_counted(s: Sudoku) -> bool {
    s.clues + empty_count(s) == 81
}

/// Two boards whose tiles agree on every cell of linear index below `n`
/// count the same empties below `n`.
pub proof fn lemma_empties_below_agree(s1: Sudoku, s2: Sudoku, n: int)
    requires
        n <= 81,
        forall|i: int, j: int|
            in_grid(i, j) && 9 * j + i < n ==> #[trigger] tile_at(s2, i, j) == tile_at(s1, i, j),
    ensures
        empties_below(s2, n) == empties_below(s1, n),
    decreases n,
{
    if n > 0 {
        lemma_empties_below_agree(s1, s2, n - 1);
        let i = (n - 1) % 9;
        let j = (n - 1) / 9;
        assert(in_grid(i, j) && 9 * j + i == n - 1);
        assert(tile_at(s2, i, j) == tile_at(s1, i, j));
    }
}

/// No more cells can be empty than are counted.
pub proof fn lemma_empty_count_bound(s: Sudoku, n: int)
    requires
        0 <= n,
    ensures
        empties_below(s, n) <= n,
    decreases n,
{
    if n > 0 {
        lemma_empty_count_bound(s, n - 1);
    }
}

/// A board with no digit placed has every cell counted empty.
pub proof fn lemma_empty_count_blank(s: Sudoku, n: int)
    requires
        0 <= n <= 81,
        forall|x: int, y: int| in_grid(x, y) ==> #[trigger] tile_at(s, x, y) is Void,
    ensures
        empties_below(s, n) == n,
    decreases n,
{
    if n > 0 {
        lemma_empty_count_blank(s, n - 1);
        assert(in_grid((n - 1) % 9, (n - 1) / 9));
        assert(tile_at(s, (n - 1) % 9, (n - 1) / 9) is Void);
    }
}

/// A placed cell keeps the empty-cell count strictly below the maximum.
pub proof fn lemma_empty_count_notfull(s: Sudoku, x: int, y: int, n: int)
    requires
        in_grid(x, y),
        !(tile_at(s, x, y) is Void),
        9 * y + x < n <= 81,
    ensures
        empties_below(s, n) <= n - 1,
    decreases n,
{
    if 9 * y + x == n - 1 {
        assert((n - 1) % 9 == x && (n - 1) / 9 == y);
        lemma_empty_count_bound(s, n - 1);
    } else {
        lemma_empty_count_notfull(s, x, y, n - 1);
    }
}

impl Sudoku {
    /// A board with no digits placed and every candidate open.
    pub fn new_blank() -> (s: Self)
        ensures
            wf(s),
            s.clues == 0,
            empty_count(s) == 81,
            fresh_cands(s),
            forall|x: int, y: int| in_grid(x, y) ==> #[trigger] tile_at(s, x, y) is Void,
            forall|x: int, y: int, d: int|
                in_grid(x, y) && is_digit(d) ==> #[trigger] cand(s, x, y, d),
    {
        let board = [[Tile::Void; 9]; 9];
        let possible = [[ALL_POSSIBLE; 9]; 9];
        let column_possible = [[ALL_POSSIBLE; 9]; 9];
        let row_possible = [[ALL_POSSIBLE; 9]; 9];
        let box_possible = [[ALL_POSSIBLE; 9]; 9];
        let s = Self { board, possible, column_possible, row_possible, box_possible, clues: 0 };
        proof {
            assert forall|x: int, y: int, d: int| in_grid(x, y) && is_digit(d) implies #[trigger] cand(
                s,
                x,
                y,
                d,
            ) && col_bit(s, x, y, d) && row_bit(s, x, y, d) && box_bit(s, x, y, d) by {
                lemma_mask_const((d - 1) as u16);
                lemma_mask_const(y as u16);
                lemma_mask_const(x as u16);
                assert(in_grid(box_of(x, y), box_slot(x, y)));
                lemma_mask_const(box_slot(x, y) as u16);
            }
            lemma_empty_count_blank(s, 81);
            assert forall|x: int, y: int, d: int| in_grid(x, y) && is_digit(d) implies (
            #[trigger] cand(s, x, y, d) <==> (tile_at(s, x, y) is Void && !digit_in_peers(
                s,
                x,
                y,
                d,
            ))) by {
                if digit_in_peers(s, x, y, d) {
                    let (p, q) = choose|p: int, q: int|
                        peers(x, y, p, q) && #[trigger] tile_at(s, p, q) == Tile::Num(d as usize);
                    assert(tile_at(s, p, q) is Void);
                }
            }
        }
        s
    }

    /// Whether digit `num` is still a candidate at `(x, y)`.
    #[inline]
    pub fn is_possible_at(&mut self, x: usize, y: usize, num: usize) -> (r: bool)
        requires
            x < 9,
            y < 9,
            is_digit(num as int),
        ensures
            *final(self) == *old(self),
            r == cand(*old(self), x as int, y as int, num as int),
    {
        let shift: u16 = (num - 1) as u16;
        let mask: u16 = 1u16 << shift;
        proof {
            lemma_mask_test(self.possible[x as int][y as int], shift);
        }
        (mask & self.possible[x][y]) != 0
    }

    /// Removes digit `num` from the candidates of `(x, y)`, updating all
    /// four views in one atomic step.  Removing an absent candidate is a
    /// no-op: the state is left exactly as it was.
    #[inline]
    pub fn remove_possible_at(&mut self, x: usize, y: usize, num: usize)
        requires
            x < 9,
            y < 9,
            is_digit(num as int),
            views_agree(*old(self)),
        ensures
            views_agree(*final(self)),
            final(self).board == old(self).board,
            final(self).clues == old(self).clues,
            forall|i: int, j: int, d: int|
                in_grid(i, j) && is_digit(d) ==> #[trigger] cand(*final(self), i, j, d) == (cand(
                    *old(self),
                    i,
                    j,
                    d,
                ) && !(i == x as int && j == y as int && d == num as int)),
            !cand(*old(self), x as int, y as int, num as int) ==> *final(self) == *old(self),
            wf(*old(self)) ==> wf(*final(self)),
    {
        let ghost pre = *self;
        let xi = x;
        let yi = y;
        let shift: u16 = (num - 1) as u16;
        let mask: u16 = !(1u16 << shift);
        self.possible[xi][yi] &= mask;

        let cshift: u16 = y as u16;
        let cmask: u16 = !(1u16 << cshift);
        self.column_possible[xi][num - 1] &= cmask;

        let rshift: u16 = x as u16;
        let rmask: u16 = !(1u16 << rshift);
        self.row_possible[yi][num - 1] &= rmask;

        let box_index = x / 3 + 3 * (y / 3);
        let index_in_box = x % 3 + 3 * (y % 3);
        let bshift: u16 = index_in_box as u16;
        let bmask: u16 = !(1u16 << bshift);
        self.box_possible[box_index][num - 1] &= bmask;

        proof {
            let post = *self;
            let xx = x as int;
            let yy = y as int;
            let dd = num as int;
            assert(remove_shape(pre, post, xx, yy, dd));
            lemma_remove_bits(pre, post, xx, yy, dd);
            if !cand(pre, xx, yy, dd) {
                lemma_remove_noop(pre, post, xx, yy, dd);
            }
            if wf(pre) {
                lemma_wf_shrink(pre, post);
            }
        }
    }

    /// Whether the placed tile at `(x, y)`, if any, is repeated in a peer
    /// cell of its row, column, or box.
    fn tile_clashes_at(&self, x: usize, y: usize) -> (r: bool)
        requires
            x < 9,
            y < 9,
        ensures
            r == (!(tile_at(*self, x as int, y as int) is Void) && exists|p: int, q: int|
                peers(x as int, y as int, p, q) && #[trigger] tile_at(*self, p, q) == tile_at(
                    *self,
                    x as int,
                    y as int,
                )),
    {
        let tile = self.board[x][y];
        if tile == Tile::Void {
            return false;
        }
        let mut i: usize = 0;
        while i < 9
            invariant
                x < 9,
                y < 9,
                i <= 9,
                tile == tile_at(*self, x as int, y as int),
                !(tile is Void),
                forall|p: int|
                    0 <= p < i && p != x as int ==> #[trigger] tile_at(*self, p, y as int) != tile,
            decreases 9 - i,
        {
            if i != x && self.board[i][y] == tile {
                proof {
                    assert(peers(x as int, y as int, i as int, y as int));
                    assert(tile_at(*self, i as int, y as int) == tile_at(
                        *self,
                        x as int,
                        y as int,
                    ));
                }
                return true;
            }
            i = i + 1;
        }
        let mut j: usize = 0;
        while j < 9
            invariant
                x < 9,
                y < 9,
                j <= 9,
                tile == tile_at(*self, x as int, y as int),
                !(tile is Void),
                forall|q: int|
                    0 <= q < j && q != y as int ==> #[trigger] tile_at(*self, x as int, q) != tile,
            decreases 9 - j,
        {
            if j != y && self.board[x][j] == tile {
                proof {
                    assert(peers(x as int, y as int, x as int, j as int));
                    assert(tile_at(*self, x as int, j as int) == tile_at(
                        *self,
                        x as int,
                        y as int,
                    ));
                }
                return true;
            }
            j = j + 1;
        }
        let box_x = x - x % 3;
        let box_y = y - y % 3;
        let mut slot: usize = 0;
        while slot < 9
            invariant
                x < 9,
                y < 9,
                slot <= 9,
                box_x == x - x % 3,
                box_y == y - y % 3,
                tile == tile_at(*self, x as int, y as int),
                !(tile is Void),
                forall|d1: int, d2: int|
                    0 <= d1 < 3 && 0 <= d2 < 3 && 3 * d1 + d2 < slot as int && !(box_x + d1
                        == x as int && box_y + d2 == y as int) ==> #[trigger] tile_at(
                        *self,
                        box_x as int + d1,
                        box_y as int + d2,
                    ) != tile,
            decreases 9 - slot,
        {
            let dx = slot / 3;
            let dy = slot % 3;
            proof {
                lemma_box_cell_coords(x as int, y as int, dx as int, dy as int);
            }
            let px = box_x + dx;
            let py = box_y + dy;
            if !(px == x && py == y) && self.board[px][py] == tile {
                proof {
                    assert(box_of(px as int, py as int) == box_of(x as int, y as int));
                    assert(peers(x as int, y as int, px as int, py as int));
                    assert(tile_at(*self, px as int, py as int) == tile_at(
                        *self,
                        x as int,
                        y as int,
                    ));
                }
                return true;
            }
            slot = slot + 1;
        }
        proof {
            assert forall|p: int, q: int|
                peers(x as int, y as int, p, q) implies #[trigger] tile_at(*self, p, q)
                != tile by {
                if q == y as int {
                    assert(tile_at(*self, p, y as int) != tile);
                } else if p == x as int {
                    assert(tile_at(*self, x as int, q) != tile);
                } else {
                    assert(box_of(p, q) == box_of(x as int, y as int));
                    let d1 = p - (x as int - x as int % 3);
                    let d2 = q - (y as int - y as int % 3);
                    assert(p / 3 == x as int / 3 && q / 3 == y as int / 3);
                    assert(p == 3 * (p / 3) + p % 3 && q == 3 * (q / 3) + q % 3);
                    assert(0 <= d1 < 3 && 0 <= d2 < 3);
                    assert(3 * d1 + d2 < 9);
                    assert(tile_at(*self, x as int - x as int % 3 + d1, y as int - y as int % 3
                        + d2) != tile);
                }
            }
        }
        false
    }

    /// Whether any two peer cells hold the same placed digit: exactly the
    /// boards the search specification leaves no solution for by clue
    /// clash alone.
    pub fn has_clashing_clues(&self) -> (r: bool)
        ensures
            r == !placed_ok(*self),
    {
        let mut x: usize = 0;
        while x < 9
            invariant
                x <= 9,
                forall|i: int, j: int, p: int, q: int|
                    #![trigger tile_at(*self, i, j), tile_at(*self, p, q)]
                    in_grid(i, j) && i < x && peers(i, j, p, q) ==> (tile_at(*self, i, j) is Void
                        || tile_at(*self, i, j) != tile_at(*self, p, q)),
            decreases 9 - x,
        {
            let mut y: usize = 0;
            while y < 9
                invariant
                    x < 9,
                    y <= 9,
                    forall|i: int, j: int, p: int, q: int|
                        #![trigger tile_at(*self, i, j), tile_at(*self, p, q)]
                        in_grid(i, j) && (i < x || (i == x && j < y)) && peers(i, j, p, q) ==> (
                        tile_at(*self, i, j) is Void || tile_at(*self, i, j) != tile_at(
                            *self,
                            p,
                            q,
                        )),
                decreases 9 - y,
            {
                if self.tile_clashes_at(x, y) {
                    proof {
                        let (p, q) = choose|p: int, q: int|
                            peers(x as int, y as int, p, q) && #[trigger] tile_at(*self, p, q)
                                == tile_at(*self, x as int, y as int);
                        assert(!placed_ok(*self));
                    }
                    return true;
                }
                y = y + 1;
            }
            x = x + 1;
        }
        proof {
            assert forall|i: int, j: int, p: int, q: int|
                #![trigger tile_at(*self, i, j), tile_at(*self, p, q)]
                peers(i, j, p, q) implies (tile_at(*self, i, j) is Void || tile_at(*self, i, j)
                != tile_at(*self, p, q)) by {}
        }
        false
    }

    /// An independent value copy of `s`: search branches diverge from a
    /// shared ancestor without sharing state.
    pub fn from_sudoku(s: &Self) -> (r: Self)
        ensures
            r == *s,
    {
        let board = s.board;
        let possible = s.possible;
        let column_possible = s.column_possible;
        let row_possible = s.row_possible;
        let box_possible = s.box_possible;
        let clues = s.clues;
        Self { board, possible, column_possible, row_possible, box_possible, clues }
    }

    /// Places `tile` at the empty cell `(x_pos, y_pos)`: stores the tile,
    /// clears the cell's own candidates in all four views, and eliminates
    /// the placed digit from every cell sharing the row, the column, or the
    /// box.  Placing `Tile::Void` leaves the state unchanged.
    pub fn set_tile_at(&mut self, x_pos: usize, y_pos: usize, tile: Tile)
        requires
            wf(*old(self)),
            x_pos < 9,
            y_pos < 9,
            tile_at(*old(self), x_pos as int, y_pos as int) is Void,
            tile matches Tile::Num(v) ==> is_digit(v as int),
        ensures
            wf(*final(self)),
            final(self).clues == old(self).clues,
            tile_at(*final(self), x_pos as int, y_pos as int) == tile,
            forall|i: int, j: int|
                in_grid(i, j) && !(i == x_pos as int && j == y_pos as int)
                    ==> #[trigger] tile_at(*final(self), i, j) == tile_at(*old(self), i, j),
            tile is Void ==> *final(self) == *old(self),
            forall|i: int, j: int, d: int|
                in_grid(i, j) && is_digit(d) ==> #[trigger] cand(*final(self), i, j, d) == (cand(
                    *old(self),
                    i,
                    j,
                    d,
                ) && !(tile matches Tile::Num(v) && ((i == x_pos as int && j == y_pos as int) || (d
                    == v as int && in_unit_of(i, j, x_pos as int, y_pos as int))))),
            tile matches Tile::Num(v) ==> empty_count(*final(self)) == empty_count(*old(self)) - 1,
            placed_ok(*old(self)) && (tile matches Tile::Num(v) ==> cand(
                *old(self),
                x_pos as int,
                y_pos as int,
                v as int,
            )) ==> placed_ok(*final(self)),
    {
        let ghost s0 = *self;
        let ghost xx = x_pos as int;
        let ghost yy = y_pos as int;
        self.board[x_pos][y_pos] = tile;

        match tile {
            Tile::Void => {
                proof {
                    assert(self.board[xx] =~= s0.board[xx]);
                    assert(self.board =~= s0.board);
                    assert(*self == s0);
                }
            },
            Tile::Num(val) => {
                self.possible[x_pos][y_pos] = NONE_POSSIBLE;
                let column_mask: u16 = !(1u16 << (y_pos as u16));
                let row_mask: u16 = !(1u16 << (x_pos as u16));
                let box_index = x_pos / 3 + 3 * (y_pos / 3);
                let index_in_box = x_pos % 3 + 3 * (y_pos % 3);
                let box_mask: u16 = !(1u16 << (index_in_box as u16));
                let ghost s1 = *self;
                proof {
                    assert(box_index as int == box_of(xx, yy));
                    assert(index_in_box as int == box_slot(xx, yy));
                }
                for d in 1..10usize
                    invariant
                        x_pos < 9,
                        y_pos < 9,
                        1 <= d <= 10,
                        box_index as int == box_of(x_pos as int, y_pos as int),
                        box_index < 9,
                        column_mask == !(1u16 << (y_pos as u16)),
                        row_mask == !(1u16 << (x_pos as u16)),
                        box_mask == !(1u16 << ((box_slot(x_pos as int, y_pos as int)) as u16)),
                        self.board == s1.board,
                        self.possible == s1.possible,
                        self.clues == s1.clues,
                        forall|e: int|
                            0 <= e < d - 1 ==> #[trigger] self.column_possible[x_pos as int][e]
                                == s1.column_possible[x_pos as int][e] & column_mask,
                        forall|e: int|
                            d - 1 <= e < 9 ==> #[trigger] self.column_possible[x_pos as int][e]
                                == s1.column_possible[x_pos as int][e],
                        forall|i: int, e: int|
                            0 <= i < 9 && 0 <= e < 9 && i != x_pos as int
                                ==> #[trigger] self.column_possible[i][e]
                                == s1.column_possible[i][e],
                        forall|e: int|
                            0 <= e < d - 1 ==> #[trigger] self.row_possible[y_pos as int][e]
                                == s1.row_possible[y_pos as int][e] & row_mask,
                        forall|e: int|
                            d - 1 <= e < 9 ==> #[trigger] self.row_possible[y_pos as int][e]
                                == s1.row_possible[y_pos as int][e],
                        forall|j: int, e: int|
                            0 <= j < 9 && 0 <= e < 9 && j != y_pos as int
                                ==> #[trigger] self.row_possible[j][e] == s1.row_possible[j][e],
                        forall|e: int|
                            0 <= e < d - 1 ==> #[trigger] self.box_possible[box_index as int][e]
                                == s1.box_possible[box_index as int][e] & box_mask,
                        forall|e: int|
                            d - 1 <= e < 9 ==> #[trigger] self.box_possible[box_index as int][e]
                                == s1.box_possible[box_index as int][e],
                        forall|b: int, e: int|
                            0 <= b < 9 && 0 <= e < 9 && b != box_index as int
                                ==> #[trigger] self.box_possible[b][e] == s1.box_possible[b][e],
                {
                    self.column_possible[x_pos][d - 1] &= column_mask;
                    self.row_possible[y_pos][d - 1] &= row_mask;
                    self.box_possible[box_index][d - 1] &= box_mask;
                }
                proof {
                    assert(cell_clear_shape(s0, *self, xx, yy, tile));
                    lemma_cell_clear(s0, *self, xx, yy, tile);
                }
                let ghost mid1 = *self;
                for x2 in 0..9usize
                    invariant
                        x_pos < 9,
                        y_pos < 9,
                        is_digit(val as int),
                        x2 <= 9,
                        views_agree(*self),
                        self.board == mid1.board,
                        self.clues == mid1.clues,
                        forall|i: int, j: int, e: int|
                            in_grid(i, j) && is_digit(e) ==> #[trigger] cand(*self, i, j, e) == (
                            cand(mid1, i, j, e) && !(e == val as int && j == y_pos as int && i
                                < x2 as int)),
                {
                    self.remove_possible_at(x2, y_pos, val);
                }
                let ghost mid2 = *self;
                for y2 in 0..9usize
                    invariant
                        x_pos < 9,
                        y_pos < 9,
                        is_digit(val as int),
                        y2 <= 9,
                        views_agree(*self),
                        self.board == mid2.board,
                        self.clues == mid2.clues,
                        forall|i: int, j: int, e: int|
                            in_grid(i, j) && is_digit(e) ==> #[trigger] cand(*self, i, j, e) == (
                            cand(mid2, i, j, e) && !(e == val as int && i == x_pos as int && j
                                < y2 as int)),
                {
                    self.remove_possible_at(x_pos, y2, val);
                }
                let ghost mid3 = *self;
                let box_x = x_pos - x_pos % 3;
                let box_y = y_pos - y_pos % 3;
                for slot in 0..9usize
                    invariant
                        x_pos < 9,
                        y_pos < 9,
                        is_digit(val as int),
                        slot <= 9,
                        box_x == x_pos - x_pos % 3,
                        box_y == y_pos - y_pos % 3,
                        views_agree(*self),
                        self.board == mid3.board,
                        self.clues == mid3.clues,
                        forall|i: int, j: int, e: int|
                            in_grid(i, j) && is_digit(e) ==> #[trigger] cand(*self, i, j, e) == (
                            cand(mid3, i, j, e) && !(e == val as int && box_of(i, j) == box_of(
                                x_pos as int,
                                y_pos as int,
                            ) && 3 * (i % 3) + j % 3 < slot as int)),
                {
                    let dx = slot / 3;
                    let dy = slot % 3;
                    proof {
                        lemma_box_cell_coords(x_pos as int, y_pos as int, dx as int, dy as int);
                    }
                    self.remove_possible_at(box_x + dx, box_y + dy, val);
                    proof {
                        let px = x_pos as int;
                        let py = y_pos as int;
                        let i0 = (box_x + dx) as int;
                        let j0 = (box_y + dy) as int;
                        assert(3 * (i0 % 3) + j0 % 3 == slot as int);
                        assert forall|i: int, j: int, e: int|
                            in_grid(i, j) && is_digit(e) implies #[trigger] cand(*self, i, j, e)
                            == (cand(mid3, i, j, e) && !(e == val as int && box_of(i, j) == box_of(
                            px,
                            py,
                        ) && 3 * (i % 3) + j % 3 < slot as int + 1)) by {
                            if !(i == i0 && j == j0) && box_of(i, j) == box_of(px, py) && 3 * (i
                                % 3) + j % 3 == slot as int {
                                lemma_box_loop_slot(px, py, i, j, dx as int, dy as int);
                            }
                        }
                    }
                }
                proof {
                    let post = *self;
                    assert forall|i: int, j: int, e: int|
                        in_grid(i, j) && is_digit(e) implies #[trigger] cand(post, i, j, e) == (
                    cand(s0, i, j, e) && !((i == xx && j == yy) || (e == val as int && in_unit_of(
                        i,
                        j,
                        xx,
                        yy,
                    )))) by {
                        assert(cand(post, i, j, e) == (cand(mid3, i, j, e) && !(e == val as int
                            && box_of(i, j) == box_of(xx, yy))));
                        assert(cand(mid3, i, j, e) == (cand(mid2, i, j, e) && !(e == val as int && i
                            == xx)));
                        assert(cand(mid2, i, j, e) == (cand(mid1, i, j, e) && !(e == val as int && j
                            == yy)));
                        assert(cand(mid1, i, j, e) == (cand(s0, i, j, e) && !(i == xx && j == yy)));
                    }
                    lemma_place_wf(s0, post, xx, yy, val as int);
                    lemma_empty_count_place(s0, post, xx, yy, 81);
                }
            },
        }
    }
}

/// Some peer of `(x, y)` holds the placed digit `d`.
pub open spec fn digit_in_peers(s: Sudoku, x: int, y: int, d: int) -> bool {
    exists|i: int, j: int| peers(x, y, i, j) && #[trigger] tile_at(s, i, j) == Tile::Num(d as usize)
}

/// Candidates are maximal: a digit is a candidate exactly when its cell is
/// empty and no peer has placed the digit.  This is how construction from a
/// string leaves the board; deduction rules then only shrink candidates.
pub open spec fn fresh_cands(s: Sudoku) -> bool {
    forall|x: int, y: int, d: int|
        in_grid(x, y) && is_digit(d) ==> (#[trigger] cand(s, x, y, d) <==> (tile_at(s, x, y) is Void
            && !digit_in_peers(s, x, y, d)))
}

/// The board invariant and the candidate views read only the grids: a
/// change of the clue counter touches none of them.
pub proof fn lemma_clues_irrelevant(s1: Sudoku, s2: Sudoku)
    requires
        s2.board == s1.board,
        s2.possible == s1.possible,
        s2.column_possible == s1.column_possible,
        s2.row_possible == s1.row_possible,
        s2.box_possible == s1.box_possible,
    ensures
        forall|x: int, y: int|
            #![trigger tile_at(s1, x, y)]
            #![trigger tile_at(s2, x, y)]
            tile_at(s2, x, y) == tile_at(s1, x, y),
        forall|x: int, y: int, d: int|
            #![trigger cand(s1, x, y, d)]
            #![trigger cand(s2, x, y, d)]
            cand(s2, x, y, d) == cand(s1, x, y, d),
        forall|x: int, y: int, d: int|
            #![trigger digit_in_peers(s1, x, y, d)]
            #![trigger digit_in_peers(s2, x, y, d)]
            digit_in_peers(s2, x, y, d) == digit_in_peers(s1, x, y, d),
        wf(s1) ==> wf(s2),
        fresh_cands(s1) ==> fresh_cands(s2),
        empty_count(s2) == empty_count(s1),
{
    assert forall|x: int, y: int, d: int|
        #![trigger digit_in_peers(s1, x, y, d)]
        #![trigger digit_in_peers(s2, x, y, d)]
        digit_in_peers(s2, x, y, d) == digit_in_peers(s1, x, y, d) by {
        if digit_in_peers(s2, x, y, d) {
            let (p, q) = choose|p: int, q: int|
                peers(x, y, p, q) && #[trigger] tile_at(s2, p, q) == Tile::Num(d as usize);
            assert(tile_at(s1, p, q) == Tile::Num(d as usize));
        }
        if digit_in_peers(s1, x, y, d) {
            let (p, q) = choose|p: int, q: int|
                peers(x, y, p, q) && #[trigger] tile_at(s1, p, q) == Tile::Num(d as usize);
            assert(tile_at(s2, p, q) == Tile::Num(d as usize));
        }
    }
    assert forall|x: int, y: int, d: int|
        #![trigger col_bit(s1, x, y, d)]
        #![trigger col_bit(s2, x, y, d)]
        #![trigger row_bit(s1, x, y, d)]
        #![trigger row_bit(s2, x, y, d)]
        #![trigger box_bit(s1, x, y, d)]
        #![trigger box_bit(s2, x, y, d)]
        col_bit(s2, x, y, d) == col_bit(s1, x, y, d) && row_bit(s2, x, y, d) == row_bit(
        s1,
        x,
        y,
        d,
    ) && box_bit(s2, x, y, d) == box_bit(s1, x, y, d) by {}
    if wf(s1) {
        assert(views_agree(s2)) by {
            assert forall|x: int, y: int, d: int|
                #![trigger cand(s2, x, y, d)]
                #![trigger col_bit(s2, x, y, d)]
                #![trigger row_bit(s2, x, y, d)]
                #![trigger box_bit(s2, x, y, d)]
                in_grid(x, y) && is_digit(d) implies (col_bit(s2, x, y, d) == cand(s2, x, y, d))
                && (row_bit(s2, x, y, d) == cand(s2, x, y, d)) && (box_bit(s2, x, y, d) == cand(
                s2,
                x,
                y,
                d,
            )) by {
                assert(cand(s1, x, y, d) == cand(s2, x, y, d));
            }
        }
        assert(tiles_ok(s2)) by {
            assert forall|x: int, y: int| in_grid(x, y) implies match #[trigger] tile_at(
                s2,
                x,
                y,
            ) {
                Tile::Num(v) => is_digit(v as int),
                Tile::Void => true,
            } by {
                assert(tile_at(s2, x, y) == tile_at(s1, x, y));
            }
        }
        assert(placed_no_cands(s2)) by {
            assert forall|x: int, y: int, d: int|
                in_grid(x, y) && is_digit(d) && !(tile_at(s2, x, y) is Void) implies !#[trigger] cand(
                s2,
                x,
                y,
                d,
            ) by {
                assert(tile_at(s2, x, y) == tile_at(s1, x, y));
                assert(!cand(s1, x, y, d));
            }
        }
        assert(cands_exclude_placed(s2)) by {
            assert forall|x: int, y: int, x2: int, y2: int, d: int|
                #![trigger cand(s2, x, y, d), tile_at(s2, x2, y2)]
                peers(x, y, x2, y2) && is_digit(d) && cand(s2, x, y, d) implies tile_at(s2, x2, y2)
                != Tile::Num(d as usize) by {
                assert(cand(s1, x, y, d));
                assert(tile_at(s1, x2, y2) != Tile::Num(d as usize));
            }
        }
    }
    if fresh_cands(s1) {
        assert forall|x: int, y: int, d: int| in_grid(x, y) && is_digit(d) implies (
        #[trigger] cand(s2, x, y, d) <==> (tile_at(s2, x, y) is Void && !digit_in_peers(
            s2,
            x,
            y,
            d,
        ))) by {
            assert(cand(s2, x, y, d) == cand(s1, x, y, d));
            assert(tile_at(s2, x, y) == tile_at(s1, x, y));
            assert(digit_in_peers(s2, x, y, d) == digit_in_peers(s1, x, y, d));
        }
    }
    lemma_empty_count_same(s1, s2, 81);
}


/// Placing a tile at an empty cell of a board whose candidates are
/// maximal leaves the candidates maximal: the placed digit is excluded
/// exactly across its units, and nothing else moves.
pub proof fn lemma_place_fresh(before: Sudoku, after: Sudoku, x: int, y: int, tile: Tile)
    requires
        in_grid(x, y),
        wf(before),
        tile_at(before, x, y) is Void,
        tile matches Tile::Num(v) ==> is_digit(v as int),
        forall|a: int, b: int, d: int|
            in_grid(a, b) && is_digit(d) ==> (#[trigger] cand(before, a, b, d) <==> (tile_at(
                before,
                a,
                b,
            ) is Void && !digit_in_peers(before, a, b, d))),
        tile_at(after, x, y) == tile,
        forall|a: int, b: int|
            in_grid(a, b) && !(a == x && b == y) ==> #[trigger] tile_at(after, a, b) == tile_at(
                before,
                a,
                b,
            ),
        forall|a: int, b: int, d: int|
            in_grid(a, b) && is_digit(d) ==> #[trigger] cand(after, a, b, d) == (cand(
                before,
                a,
                b,
                d,
            ) && !(tile matches Tile::Num(v) && ((a == x && b == y) || (d == v as int && in_unit_of(
                a,
                b,
                x,
                y,
            ))))),
    ensures
        fresh_cands(after),
{
    assert forall|a: int, b: int, d: int| in_grid(a, b) && is_digit(d) implies (#[trigger] cand(
        after,
        a,
        b,
        d,
    ) <==> (tile_at(after, a, b) is Void && !digit_in_peers(after, a, b, d))) by {
        match tile {
            Tile::Void => {
                assert(tile_at(after, a, b) == tile_at(before, a, b));
                assert(cand(after, a, b, d) == cand(before, a, b, d));
                assert forall|p: int, q: int|
                    peers(a, b, p, q) implies #[trigger] tile_at(after, p, q) == tile_at(
                    before,
                    p,
                    q,
                ) by {
                    if p == x && q == y {
                        assert(tile_at(after, p, q) == tile);
                    }
                }
                assert(digit_in_peers(after, a, b, d) == digit_in_peers(before, a, b, d)) by {
                    if digit_in_peers(after, a, b, d) {
                        let (p, q) = choose|p: int, q: int|
                            peers(a, b, p, q) && #[trigger] tile_at(after, p, q) == Tile::Num(
                                d as usize,
                            );
                        assert(tile_at(before, p, q) == Tile::Num(d as usize));
                    }
                    if digit_in_peers(before, a, b, d) {
                        let (p, q) = choose|p: int, q: int|
                            peers(a, b, p, q) && #[trigger] tile_at(before, p, q) == Tile::Num(
                                d as usize,
                            );
                        assert(tile_at(after, p, q) == Tile::Num(d as usize));
                    }
                }
            },
            Tile::Num(v) => {
                if a == x && b == y {
                    assert(!cand(after, a, b, d));
                    assert(!(tile_at(after, a, b) is Void));
                } else {
                    assert(tile_at(after, a, b) == tile_at(before, a, b));
                    if cand(after, a, b, d) {
                        assert(cand(before, a, b, d));
                        assert(tile_at(after, a, b) is Void);
                        assert(!(d == v as int && in_unit_of(a, b, x, y)));
                        if digit_in_peers(after, a, b, d) {
                            let (p, q) = choose|p: int, q: int|
                                peers(a, b, p, q) && #[trigger] tile_at(after, p, q) == Tile::Num(
                                    d as usize,
                                );
                            if p == x && q == y {
                                assert(tile_at(after, p, q) == tile);
                                assert(d == v as int);
                                assert(in_unit_of(a, b, x, y));
                                assert(false);
                            } else {
                                assert(tile_at(before, p, q) == Tile::Num(d as usize));
                                assert(digit_in_peers(before, a, b, d));
                                assert(!cand(before, a, b, d));
                                assert(false);
                            }
                        }
                    } else {
                        if tile_at(after, a, b) is Void && !digit_in_peers(after, a, b, d) {
                            assert(!(tile_at(after, x, y) is Void));
                            if d == v as int && in_unit_of(a, b, x, y) {
                                assert(peers(a, b, x, y));
                                assert(tile_at(after, x, y) == Tile::Num(d as usize));
                                assert(digit_in_peers(after, a, b, d));
                                assert(false);
                            } else {
                                assert(cand(before, a, b, d) == cand(after, a, b, d));
                                assert(!digit_in_peers(before, a, b, d)) by {
                                    if digit_in_peers(before, a, b, d) {
                                        let (p, q) = choose|p: int, q: int|
                                            peers(a, b, p, q) && #[trigger] tile_at(before, p, q)
                                                == Tile::Num(d as usize);
                                        assert(!(p == x && q == y));
                                        assert(tile_at(after, p, q) == Tile::Num(d as usize));
                                        assert(digit_in_peers(after, a, b, d));
                                        assert(false);
                                    }
                                }
                                assert(cand(before, a, b, d));
                                assert(false);
                            }
                        }
                    }
                }
            },
        }
    }
}

/// The cell `(i, j)` shares a row, a column, or a box with `(x, y)`
/// (possibly being `(x, y)` itself).
pub open spec fn in_unit_of(i: int, j: int, x: int, y: int) -> bool {
    i == x || j == y || box_of(i, j) == box_of(x, y)
}

/// The exact relation between the stores of `remove_possible_at`: one bit
/// cleared in each of the four views, everything else untouched.
spec fn remove_shape(pre: Sudoku, post: Sudoku, x: int, y: int, num: int) -> bool {
    &&& in_grid(x, y)
    &&& is_digit(num)
    &&& post.board == pre.board
    &&& post.clues == pre.clues
    &&& post.possible[x][y] == pre.possible[x][y] & !(1u16 << ((num - 1) as u16))
    &&& forall|i: int, j: int|
        in_grid(i, j) && !(i == x && j == y) ==> #[trigger] post.possible[i][j]
            == pre.possible[i][j]
    &&& post.column_possible[x][num - 1] == pre.column_possible[x][num - 1] & !(1u16 << (
    y as u16))
    &&& forall|i: int, e: int|
        0 <= i < 9 && 0 <= e < 9 && !(i == x && e == num - 1)
            ==> #[trigger] post.column_possible[i][e] == pre.column_possible[i][e]
    &&& post.row_possible[y][num - 1] == pre.row_possible[y][num - 1] & !(1u16 << (x as u16))
    &&& forall|j: int, e: int|
        0 <= j < 9 && 0 <= e < 9 && !(j == y && e == num - 1) ==> #[trigger] post.row_possible[j][e]
            == pre.row_possible[j][e]
    &&& post.box_possible[box_of(x, y)][num - 1] == pre.box_possible[box_of(x, y)][num - 1] & !(
    1u16 << (box_slot(x, y) as u16))
    &&& forall|b: int, e: int|
        0 <= b < 9 && 0 <= e < 9 && !(b == box_of(x, y) && e == num - 1)
            ==> #[trigger] post.box_possible[b][e] == pre.box_possible[b][e]
}

/// After one elimination step, every view lost exactly the bit for digit
/// `num` at `(x, y)` and kept all others.
proof fn lemma_remove_bits(pre: Sudoku, post: Sudoku, x: int, y: int, num: int)
    requires
        remove_shape(pre, post, x, y, num),
        views_agree(pre),
    ensures
        forall|i: int, j: int, d: int|
            in_grid(i, j) && is_digit(d) ==> #[trigger] cand(post, i, j, d) == (cand(pre, i, j, d)
                && !(i == x && j == y && d == num)),
        views_agree(post),
{
    assert forall|i: int, j: int, d: int|
        #![trigger cand(post, i, j, d)]
        #![trigger col_bit(post, i, j, d)]
        #![trigger row_bit(post, i, j, d)]
        #![trigger box_bit(post, i, j, d)]
        in_grid(i, j) && is_digit(d) implies {
        &&& cand(post, i, j, d) == (cand(pre, i, j, d) && !(i == x && j == y && d == num))
        &&& col_bit(post, i, j, d) == (col_bit(pre, i, j, d) && !(i == x && j == y && d == num))
        &&& row_bit(post, i, j, d) == (row_bit(pre, i, j, d) && !(i == x && j == y && d == num))
        &&& box_bit(post, i, j, d) == (box_bit(pre, i, j, d) && !(i == x && j == y && d == num))
    } by {
        if i == x && j == y {
            lemma_mask_clear(pre.possible[i][j], ((num - 1) as u16), (d - 1) as u16);
        } else {
            assert(post.possible[i][j] == pre.possible[i][j]);
        }
        if i == x && d == num {
            lemma_mask_clear(pre.column_possible[i][d - 1], y as u16, j as u16);
        } else {
            assert(post.column_possible[i][d - 1] == pre.column_possible[i][d - 1]);
        }
        if j == y && d == num {
            lemma_mask_clear(pre.row_possible[j][d - 1], x as u16, i as u16);
        } else {
            assert(post.row_possible[j][d - 1] == pre.row_possible[j][d - 1]);
        }
        if box_of(i, j) == box_of(x, y) && d == num {
            lemma_mask_clear(pre.box_possible[box_of(i, j)][d - 1], box_slot(x, y) as u16, box_slot(
                i,
                j,
            ) as u16);
            if box_slot(i, j) == box_slot(x, y) {
                lemma_box_slot_injective(i, j, x, y);
            }
        } else {
            assert(post.box_possible[box_of(i, j)][d - 1] == pre.box_possible[box_of(i, j)][d
                - 1]);
        }
    }
}

/// Eliminating a candidate that is already absent leaves the state exactly
/// as it was.
proof fn lemma_remove_noop(pre: Sudoku, post: Sudoku, x: int, y: int, num: int)
    requires
        remove_shape(pre, post, x, y, num),
        views_agree(pre),
        !cand(pre, x, y, num),
    ensures
        post == pre,
{
    assert(!col_bit(pre, x, y, num) && !row_bit(pre, x, y, num) && !box_bit(pre, x, y, num));
    lemma_mask_clear_absent(pre.possible[x][y], (num - 1) as u16);
    lemma_mask_clear_absent(pre.column_possible[x][num - 1], y as u16);
    lemma_mask_clear_absent(pre.row_possible[y][num - 1], x as u16);
    lemma_mask_clear_absent(pre.box_possible[box_of(x, y)][num - 1], box_slot(x, y) as u16);
    assert forall|i: int| 0 <= i < 9 implies #[trigger] post.possible[i] == pre.possible[i] by {
        assert(post.possible[i] =~= pre.possible[i]);
    }
    assert(post.possible =~= pre.possible);
    assert forall|i: int| 0 <= i < 9 implies #[trigger] post.column_possible[i]
        == pre.column_possible[i] by {
        assert(post.column_possible[i] =~= pre.column_possible[i]);
    }
    assert(post.column_possible =~= pre.column_possible);
    assert forall|i: int| 0 <= i < 9 implies #[trigger] post.row_possible[i]
        == pre.row_possible[i] by {
        assert(post.row_possible[i] =~= pre.row_possible[i]);
    }
    assert(post.row_possible =~= pre.row_possible);
    assert forall|i: int| 0 <= i < 9 implies #[trigger] post.box_possible[i]
        == pre.box_possible[i] by {
        assert(post.box_possible[i] =~= pre.box_possible[i]);
    }
    assert(post.box_possible =~= pre.box_possible);
}

/// A step that only removes candidates and leaves the board's tiles alone
/// preserves the board invariant, as long as the views still agree.
pub proof fn lemma_wf_shrink(pre: Sudoku, post: Sudoku)
    requires
        wf(pre),
        views_agree(post),
        post.board == pre.board,
        forall|i: int, j: int, d: int|
            in_grid(i, j) && is_digit(d) && #[trigger] cand(post, i, j, d) ==> cand(pre, i, j, d),
    ensures
        wf(post),
{
    assert forall|i: int, j: int| in_grid(i, j) implies #[trigger] tile_at(post, i, j) == tile_at(
        pre,
        i,
        j,
    ) by {}
    assert forall|i: int, j: int, d: int|
        in_grid(i, j) && is_digit(d) && !(tile_at(post, i, j) is Void) implies !#[trigger] cand(
        post,
        i,
        j,
        d,
    ) by {
        assert(tile_at(pre, i, j) == tile_at(post, i, j));
        assert(!cand(pre, i, j, d));
    }
    assert forall|i: int, j: int, i2: int, j2: int, d: int|
        #![trigger cand(post, i, j, d), tile_at(post, i2, j2)]
        peers(i, j, i2, j2) && is_digit(d) && cand(post, i, j, d) implies tile_at(post, i2, j2)
        != Tile::Num(d as usize) by {
        assert(cand(pre, i, j, d));
        assert(tile_at(pre, i2, j2) != Tile::Num(d as usize));
    }
}

/// The relation between the states before and after a placement's first
/// phase: the tile stored, the placed cell's candidate mask zeroed, and the
/// cell's bit cleared for every digit in the three axis views.
spec fn cell_clear_shape(pre: Sudoku, post: Sudoku, x: int, y: int, t: Tile) -> bool {
    &&& in_grid(x, y)
    &&& post.clues == pre.clues
    &&& tile_at(post, x, y) == t
    &&& forall|i: int, j: int|
        in_grid(i, j) && !(i == x && j == y) ==> #[trigger] tile_at(post, i, j) == tile_at(
            pre,
            i,
            j,
        )
    &&& post.possible[x][y] == NONE_POSSIBLE
    &&& forall|i: int, j: int|
        in_grid(i, j) && !(i == x && j == y) ==> #[trigger] post.possible[i][j]
            == pre.possible[i][j]
    &&& forall|e: int|
        0 <= e < 9 ==> #[trigger] post.column_possible[x][e] == pre.column_possible[x][e] & !(1u16
            << (y as u16))
    &&& forall|i: int, e: int|
        0 <= i < 9 && 0 <= e < 9 && i != x ==> #[trigger] post.column_possible[i][e]
            == pre.column_possible[i][e]
    &&& forall|e: int|
        0 <= e < 9 ==> #[trigger] post.row_possible[y][e] == pre.row_possible[y][e] & !(1u16 << (
        x as u16))
    &&& forall|j: int, e: int|
        0 <= j < 9 && 0 <= e < 9 && j != y ==> #[trigger] post.row_possible[j][e]
            == pre.row_possible[j][e]
    &&& forall|e: int|
        0 <= e < 9 ==> #[trigger] post.box_possible[box_of(x, y)][e] == pre.box_possible[box_of(
            x,
            y,
        )][e] & !(1u16 << (box_slot(x, y) as u16))
    &&& forall|b: int, e: int|
        0 <= b < 9 && 0 <= e < 9 && b != box_of(x, y) ==> #[trigger] post.box_possible[b][e]
            == pre.box_possible[b][e]
}

/// After a placement's first phase the placed cell has lost every candidate
/// in all four views, and no other cell's candidates moved.
proof fn lemma_cell_clear(pre: Sudoku, post: Sudoku, x: int, y: int, t: Tile)
    requires
        cell_clear_shape(pre, post, x, y, t),
        views_agree(pre),
    ensures
        forall|i: int, j: int, d: int|
            in_grid(i, j) && is_digit(d) ==> #[trigger] cand(post, i, j, d) == (cand(pre, i, j, d)
                && !(i == x && j == y)),
        views_agree(post),
{
    assert forall|i: int, j: int, d: int|
        #![trigger cand(post, i, j, d)]
        #![trigger col_bit(post, i, j, d)]
        #![trigger row_bit(post, i, j, d)]
        #![trigger box_bit(post, i, j, d)]
        in_grid(i, j) && is_digit(d) implies {
        &&& cand(post, i, j, d) == (cand(pre, i, j, d) && !(i == x && j == y))
        &&& col_bit(post, i, j, d) == (col_bit(pre, i, j, d) && !(i == x && j == y))
        &&& row_bit(post, i, j, d) == (row_bit(pre, i, j, d) && !(i == x && j == y))
        &&& box_bit(post, i, j, d) == (box_bit(pre, i, j, d) && !(i == x && j == y))
    } by {
        if i == x && j == y {
            lemma_mask_const((d - 1) as u16);
        } else {
            assert(post.possible[i][j] == pre.possible[i][j]);
        }
        if i == x {
            lemma_mask_clear(pre.column_possible[i][d - 1], y as u16, j as u16);
        } else {
            assert(post.column_possible[i][d - 1] == pre.column_possible[i][d - 1]);
        }
        if j == y {
            lemma_mask_clear(pre.row_possible[j][d - 1], x as u16, i as u16);
        } else {
            assert(post.row_possible[j][d - 1] == pre.row_possible[j][d - 1]);
        }
        if box_of(i, j) == box_of(x, y) {
            lemma_mask_clear(pre.box_possible[box_of(i, j)][d - 1], box_slot(x, y) as u16, box_slot(
                i,
                j,
            ) as u16);
            if box_slot(i, j) == box_slot(x, y) {
                lemma_box_slot_injective(i, j, x, y);
            }
        } else {
            assert(post.box_possible[box_of(i, j)][d - 1] == pre.box_possible[box_of(i, j)][d
                - 1]);
        }
    }
}

/// After a full placement the board invariant holds again, and a board
/// whose placed digits did not clash keeps that property when the placed
/// digit was still a candidate of its cell.
proof fn lemma_place_wf(s0: Sudoku, post: Sudoku, x: int, y: int, v: int)
    requires
        wf(s0),
        in_grid(x, y),
        is_digit(v),
        tile_at(s0, x, y) is Void,
        tile_at(post, x, y) == Tile::Num(v as usize),
        forall|i: int, j: int|
            in_grid(i, j) && !(i == x && j == y) ==> #[trigger] tile_at(post, i, j) == tile_at(
                s0,
                i,
                j,
            ),
        forall|i: int, j: int, d: int|
            in_grid(i, j) && is_digit(d) ==> #[trigger] cand(post, i, j, d) == (cand(s0, i, j, d)
                && !((i == x && j == y) || (d == v && in_unit_of(i, j, x, y)))),
        views_agree(post),
    ensures
        wf(post),
        placed_ok(s0) && cand(s0, x, y, v) ==> placed_ok(post),
{
    assert(tiles_ok(post)) by {
        assert forall|i: int, j: int| in_grid(i, j) implies match #[trigger] tile_at(post, i, j) {
            Tile::Num(w) => is_digit(w as int),
            Tile::Void => true,
        } by {
            if !(i == x && j == y) {
                assert(tile_at(post, i, j) == tile_at(s0, i, j));
            }
        }
    }
    assert(placed_no_cands(post)) by {
        assert forall|i: int, j: int, d: int|
            in_grid(i, j) && is_digit(d) && !(tile_at(post, i, j) is Void) implies !#[trigger] cand(
            post,
            i,
            j,
            d,
        ) by {
            if !(i == x && j == y) {
                assert(tile_at(post, i, j) == tile_at(s0, i, j));
                assert(!cand(s0, i, j, d));
            }
        }
    }
    assert(cands_exclude_placed(post)) by {
        assert forall|i: int, j: int, i2: int, j2: int, d: int|
            #![trigger cand(post, i, j, d), tile_at(post, i2, j2)]
            peers(i, j, i2, j2) && is_digit(d) && cand(post, i, j, d) implies tile_at(post, i2, j2)
            != Tile::Num(d as usize) by {
            assert(cand(s0, i, j, d));
            if i2 == x && j2 == y {
                assert(in_unit_of(i, j, x, y));
                assert(d != v);
            } else {
                assert(tile_at(post, i2, j2) == tile_at(s0, i2, j2));
                assert(tile_at(s0, i2, j2) != Tile::Num(d as usize));
            }
        }
    }
    if placed_ok(s0) && cand(s0, x, y, v) {
        assert forall|i: int, j: int, i2: int, j2: int|
            #![trigger tile_at(post, i, j), tile_at(post, i2, j2)]
            peers(i, j, i2, j2) implies (tile_at(post, i, j) is Void || tile_at(post, i, j)
            != tile_at(post, i2, j2)) by {
            if i == x && j == y {
                assert(tile_at(post, i2, j2) == tile_at(s0, i2, j2));
                assert(tile_at(s0, i2, j2) != Tile::Num(v as usize));
            } else if i2 == x && j2 == y {
                assert(tile_at(post, i, j) == tile_at(s0, i, j));
                assert(tile_at(s0, i, j) != Tile::Num(v as usize));
            } else {
                assert(tile_at(post, i, j) == tile_at(s0, i, j));
                assert(tile_at(post, i2, j2) == tile_at(s0, i2, j2));
            }
        }
    }
}

/// The cell reached from the box corner of `(x, y)` by offsets `(dx, dy)`
/// lies in the grid, in the same box, and its coordinates reduce to the
/// offsets modulo three.
proof fn lemma_box_cell_coords(x: int, y: int, dx: int, dy: int)
    requires
        in_grid(x, y),
        0 <= dx < 3,
        0 <= dy < 3,
    ensures
        in_grid(x - x % 3 + dx, y - y % 3 + dy),
        box_of(x - x % 3 + dx, y - y % 3 + dy) == box_of(x, y),
        (x - x % 3 + dx) % 3 == dx,
        (y - y % 3 + dy) % 3 == dy,
        (x - x % 3 + dx) / 3 == x / 3,
        (y - y % 3 + dy) / 3 == y / 3,
{
    assert(x - x % 3 == 3 * (x / 3));
    assert(y - y % 3 == 3 * (y / 3));
    let i0 = 3 * (x / 3) + dx;
    let j0 = 3 * (y / 3) + dy;
    assert(i0 % 3 == dx && i0 / 3 == x / 3) by (nonlinear_arith)
        requires
            0 <= dx < 3,
            0 <= x / 3,
            i0 == 3 * (x / 3) + dx,
    ;
    assert(j0 % 3 == dy && j0 / 3 == y / 3) by (nonlinear_arith)
        requires
            0 <= dy < 3,
            0 <= y / 3,
            j0 == 3 * (y / 3) + dy,
    ;
}

/// A cell of the same box whose in-box scan position matches the offsets
/// `(dx, dy)` is exactly the cell those offsets name.
proof fn lemma_box_loop_slot(x: int, y: int, i: int, j: int, dx: int, dy: int)
    requires
        in_grid(x, y),
        in_grid(i, j),
        0 <= dx < 3,
        0 <= dy < 3,
        box_of(i, j) == box_of(x, y),
        3 * (i % 3) + j % 3 == 3 * dx + dy,
    ensures
        i == x - x % 3 + dx,
        j == y - y % 3 + dy,
{
    assert(0 <= i % 3 < 3 && 0 <= j % 3 < 3);
    assert(i % 3 == dx && j % 3 == dy);
    assert(0 <= i / 3 < 3 && 0 <= x / 3 < 3 && 0 <= j / 3 < 3 && 0 <= y / 3 < 3);
    assert(i / 3 == x / 3 && j / 3 == y / 3);
    assert(i == 3 * (i / 3) + i % 3);
    assert(j == 3 * (j / 3) + j % 3);
    assert(x - x % 3 == 3 * (x / 3));
    assert(y - y % 3 == 3 * (y / 3));
}

/// Two cells of one box with the same in-box position are the same cell.
pub proof fn lemma_box_slot_injective(x: int, y: int, x2: int, y2: int)
    requires
        in_grid(x, y),
        in_grid(x2, y2),
        box_of(x, y) == box_of(x2, y2),
        box_slot(x, y) == box_slot(x2, y2),
    ensures
        x == x2 && y == y2,
{
    assert(0 <= x / 3 < 3 && 0 <= x2 / 3 < 3 && 0 <= y / 3 < 3 && 0 <= y2 / 3 < 3);
    assert(x / 3 == x2 / 3 && y / 3 == y2 / 3);
    assert(0 <= x % 3 < 3 && 0 <= x2 % 3 < 3 && 0 <= y % 3 < 3 && 0 <= y2 % 3 < 3);
    assert(x % 3 == x2 % 3 && y % 3 == y2 % 3);
    assert(x == 3 * (x / 3) + x % 3 && x2 == 3 * (x2 / 3) + x2 % 3);
    assert(y == 3 * (y / 3) + y % 3 && y2 == 3 * (y2 / 3) + y2 % 3);
}

} // verus!

