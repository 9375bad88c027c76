//! Construction of a board from its 81-character puzzle text, and the
//! digit encoding used to render a board as one line of text.

use vstd::prelude::*;
use vstd::string::StrSliceExecFns;
use crate::board::Sudoku;
use crate::board::Tile;
use crate::board::cand;
use crate::board::clues_counted;
use crate::board::digit_in_peers;
use crate::board::empties_below;
use crate::board::in_grid;
use crate::board::in_unit_of;
use crate::board::is_digit;
use crate::board::lemma_empties_below_agree;
use crate::board::peers;
use crate::board::tile_at;
use crate::board::wf;

verus! {

/// A character allowed in puzzle text: a digit, or `.` for an empty cell.
pub open spec fn is_puzzle_char(c: char) -> bool {
    c == '.' || ('0' as int <= c as int && c as int <= '9' as int)
}

/// The tile denoted by one puzzle character: `.` and `0` mean empty,
/// `1` through `9` the digit itself.
pub open spec fn tile_of_char(c: char) -> Tile {
    if c == '.' || c == '0' {
        Tile::Void
    } else {
        Tile::Num((c as int - '0' as int) as usize)
    }
}

/// The whole puzzle text is well-formed: 81 characters, each a digit or a
/// dot.
pub open spec fn puzzle_text_ok(cs: Seq<char>) -> bool {
    cs.len() == 81 && forall|i: int| 0 <= i < 81 ==> is_puzzle_char(#[trigger] cs[i])
}

/// The board a well-formed puzzle text denotes: tiles as written, reading
/// row-major with `x = i % 9` and `y = i / 9`, candidates maximal, and the
/// clue count equal to the number of placed tiles.
pub open spec fn built_from(s: Sudoku, cs: Seq<char>) -> bool {
    &&& wf(s)
    &&& forall|x: int, y: int|
        in_grid(x, y) ==> #[trigger] tile_at(s, x, y) == tile_of_char(cs[9 * y + x])
    &&& crate::board::fresh_cands(s)
    &&& clues_counted(s)
}

impl Sudoku {
    /// The tile denoted by one puzzle character.
    pub fn get_tile_from_digit(c: char) -> (t: Tile)
        requires
            is_puzzle_char(c),
        ensures
            t == tile_of_char(c),
    {
        if c == '.' {
            return Tile::Void;
        }
        let digit = (c as u32) - 48;
        if digit == 0 {
            return Tile::Void;
        }
        Tile::Num(digit as usize)
    }

    /// Builds the board a puzzle text denotes, placing its digits
    /// left-to-right, top-to-bottom, and counting the clues.  The text must
    /// be 81 characters of digits and dots.
    pub fn from_string(input: &str) -> (s: Self)
        requires
            puzzle_text_ok(input@),
        ensures
            built_from(s, input@),
    {
        let ghost cs = input@;
        let mut res = Self::new_blank();
        for i in 0..81usize
            invariant
                puzzle_text_ok(cs),
                cs == input@,
                wf(res),
                res.clues <= i,
                res.clues + empties_below(res, i as int) == i,
                forall|x: int, y: int|
                    in_grid(x, y) && 9 * y + x < i ==> #[trigger] tile_at(res, x, y)
                        == tile_of_char(cs[9 * y + x]),
                forall|x: int, y: int|
                    in_grid(x, y) && 9 * y + x >= i ==> #[trigger] tile_at(res, x, y) is Void,
                forall|x: int, y: int, d: int|
                    in_grid(x, y) && is_digit(d) ==> (#[trigger] cand(res, x, y, d) <==> (tile_at(
                        res,
                        x,
                        y,
                    ) is Void && !digit_in_peers(res, x, y, d))),
        {
            let x_pos = i % 9;
            let y_pos = i / 9;
            let c = input.get_char(i);
            let tile = Self::get_tile_from_digit(c);
            let ghost before = res;
            proof {
                assert(9 * (y_pos as int) + x_pos as int == i as int);
            }
            if tile != Tile::Void {
                res.clues += 1;
            }
            proof {
                crate::board::lemma_clues_irrelevant(before, res);
            }
            res.set_tile_at(x_pos, y_pos, tile);
            proof {
                lemma_fill_step(before, res, x_pos as int, y_pos as int, tile, i as int);
                lemma_empties_below_agree(before, res, i as int);
                assert(empties_below(res, i as int + 1) == empties_below(res, i as int) + (
                if tile_at(res, i as int % 9, i as int / 9) is Void {
                    1nat
                } else {
                    0nat
                }));
                assert(i as int % 9 == x_pos as int && i as int / 9 == y_pos as int);
            }
        }
        proof {
            assert(empties_below(res, 81) == crate::board::empty_count(res));
        }
        res
    }

    /// Builds the board only when the text is well-formed: `None` exactly
    /// when the text is not 81 characters of digits and dots.
    pub fn try_from_string(input: &str) -> (r: Option<Self>)
        ensures
            match r {
                Option::Some(s) => puzzle_text_ok(input@) && built_from(s, input@),
                Option::None => !puzzle_text_ok(input@),
            },
    {
        if input.unicode_len() != 81 {
            return Option::None;
        }
        for i in 0..81usize
            invariant
                input@.len() == 81,
                forall|k: int| 0 <= k < i ==> is_puzzle_char(#[trigger] input@[k]),
        {
            let c = input.get_char(i);
            if c != '.' {
                let u = c as u32;
                if u < 48 || u > 57 {
                    return Option::None;
                }
            }
        }
        Option::Some(Self::from_string(input))
    }

    /// The board as 81 digit bytes, row-major, `b'0'` for an empty cell:
    /// the canonical one-line encoding of the placed digits.
    pub fn encode_digits(&self) -> (r: Vec<u8>)
        requires
            wf(*self),
        ensures
            r@.len() == 81,
            forall|k: int|
                0 <= k < 81 ==> #[trigger] r@[k] == byte_of_tile(tile_at(*self, k % 9, k / 9)),
    {
        let mut r: Vec<u8> = Vec::new();
        for k in 0..81usize
            invariant
                wf(*self),
                r@.len() == k,
                forall|m: int|
                    0 <= m < k ==> #[trigger] r@[m] == byte_of_tile(tile_at(*self, m % 9, m / 9)),
        {
            let x = k % 9;
            let y = k / 9;
            let b: u8 = match self.board[x][y] {
                Tile::Void => 48,
                Tile::Num(v) => {
                    proof {
                        assert(in_grid(x as int, y as int));
                        assert(tile_at(*self, x as int, y as int) == Tile::Num(v));
                        assert(is_digit(v as int));
                    }
                    48 + (v as u8)
                },
            };
            r.push(b);
        }
        r
    }
}

/// The digit byte a tile renders as: `b'0'` for empty.
pub open spec fn byte_of_tile(t: Tile) -> u8 {
    match t {
        Tile::Void => 48,
        Tile::Num(v) => (48 + v) as u8,
    }
}

/// One step of building a board from text: placing the tile of character
/// `i` keeps the tiles-so-far, the maximal-candidate property, and the
/// clue count in step.
proof fn lemma_fill_step(before: Sudoku, after: Sudoku, x: int, y: int, tile: Tile, i: int)
    requires
        0 <= i < 81,
        in_grid(x, y),
        9 * y + x == i,
        wf(before),
        tile_at(before, x, y) is Void,
        tile matches Tile::Num(v) ==> is_digit(v as int),
        forall|a: int, b: int|
            in_grid(a, b) && 9 * b + a >= i ==> #[trigger] tile_at(before, a, b) is Void,
        forall|a: int, b: int, d: int|
            in_grid(a, b) && is_digit(d) ==> (#[trigger] cand(before, a, b, d) <==> (tile_at(
                before,
                a,
                b,
            ) is Void && !digit_in_peers(before, a, b, d))),
        tile_at(after, x, y) == tile,
        forall|a: int, b: int|
            in_grid(a, b) && !(a == x && b == y) ==> #[trigger] tile_at(after, a, b) == tile_at(
                before,
                a,
                b,
            ),
        forall|a: int, b: int, d: int|
            in_grid(a, b) && is_digit(d) ==> #[trigger] cand(after, a, b, d) == (cand(
                before,
                a,
                b,
                d,
            ) && !(tile matches Tile::Num(v) && ((a == x && b == y) || (d == v as int && in_unit_of(
                a,
                b,
                x,
                y,
            ))))),
    ensures
        forall|a: int, b: int|
            in_grid(a, b) && 9 * b + a >= i + 1 ==> #[trigger] tile_at(after, a, b) is Void,
        forall|a: int, b: int, d: int|
            in_grid(a, b) && is_digit(d) ==> (#[trigger] cand(after, a, b, d) <==> (tile_at(
                after,
                a,
                b,
            ) is Void && !digit_in_peers(after, a, b, d))),
{
    assert forall|a: int, b: int| in_grid(a, b) && 9 * b + a >= i + 1 implies #[trigger] tile_at(
        after,
        a,
        b,
    ) is Void by {
        assert(!(a == x && b == y));
    }
    crate::board::lemma_place_fresh(before, after, x, y, tile);
}

} // verus!
