//! The puzzle loader: nine lines of nine comma-separated tokens become a
//! grid of 81 cells. A token reading as a digit 1..=9 becomes a clue, a
//! token reading as 0 or failing to read leaves the cell open, a readable
//! value above 9 is rejected, and a wrong line or token count is rejected
//! before any token is judged.

use vstd::prelude::*;

use array2d::Array2D;

use crate::cell::Field;
use crate::grid::{grid_filled, grid_ok, grid_seq, grid_set, grid_view, lemma_grid_view_update};
use crate::model::{cell_idx, clue_cell, grid_wf, in_grid, open_cell, CellView};
use crate::parse::{
    classify_token, line_split, split_at_char, split_lines, split_on, token_clue,
    token_out_of_range, token_value, views_of, TokenKind,
};

verus! {

/// Why a puzzle failed to load.
#[derive(Debug, Clone, Copy, PartialEq, Eq, Structural)]
pub enum PuzzleError {
    /// The puzzle source could not be read at all. The loader itself never
    /// produces this: it is for the caller that reads the source.
    IoError,
    /// The text does not have nine lines of nine tokens.
    MalformedPuzzle,
    /// Some token reads as a positive number greater than 9.
    InvalidClueValue,
}

/// The tokens of line `r`.
pub open spec fn row_tokens(t: Seq<char>, r: int) -> Seq<Seq<char>> {
    split_on(line_split(t)[r], ',')
}

/// The text has exactly nine lines of exactly nine tokens.
pub open spec fn shape_ok(t: Seq<char>) -> bool {
    &&& line_split(t).len() == 9
    &&& forall|r: int| 0 <= r < 9 ==> (#[trigger] row_tokens(t, r)).len() == 9
}

/// The token for the cell at (r, c).
pub open spec fn token_at(t: Seq<char>, r: int, c: int) -> Seq<char> {
    row_tokens(t, r)[c]
}

/// No token reads as a positive number greater than 9.
pub open spec fn tokens_ok(t: Seq<char>) -> bool {
    forall|r: int, c: int|
        in_grid(r, c) ==> !token_out_of_range(#[trigger] token_at(t, r, c))
}

/// The cell the loader builds for position `k`: a fixed clue for a token
/// reading as 1..=9, an open cell otherwise.
pub open spec fn loaded_cell(t: Seq<char>, k: int) -> CellView {
    if token_clue(token_at(t, k / 9, k % 9)) {
        clue_cell(token_value(token_at(t, k / 9, k % 9)) as i32)
    } else {
        open_cell()
    }
}

/// The grid the loader builds from well-shaped text.
pub open spec fn loaded_grid(t: Seq<char>) -> Seq<CellView> {
    Seq::new(81, |k: int| loaded_cell(t, k))
}

/// Relies on str::chars, which yields the characters of the string in
/// order; the view of a `&str` is that same character sequence.
#[verifier::external_body]
fn chars_of(s: &str) -> (r: Vec<char>)
    ensures
        r@ == s@,
{
    s.chars().collect()
}

/// Parse a textual puzzle into a 9x9 grid.
///
/// Succeeds exactly on text of nine lines of nine comma-separated tokens
/// none of which reads as a number above 9; the grid then has a clue at
/// every position whose token reads as a digit 1..=9 and an open cell
/// everywhere else. A wrong shape fails with `MalformedPuzzle`; a
/// well-shaped text with an oversized token fails with `InvalidClueValue`.
pub fn read_puzzle(text: &str) -> (res: Result<Array2D<Field>, PuzzleError>)
    ensures
        res is Ok <==> shape_ok(text@) && tokens_ok(text@),
        res is Ok ==> grid_ok(res->Ok_0) && grid_view(res->Ok_0) == loaded_grid(text@),
        res == Err::<Array2D<Field>, PuzzleError>(PuzzleError::MalformedPuzzle) <==> !shape_ok(
            text@,
        ),
        res == Err::<Array2D<Field>, PuzzleError>(PuzzleError::InvalidClueValue) <==> shape_ok(
            text@,
        ) && !tokens_ok(text@),
{
    let chars = chars_of(text);
    let lines = split_lines(&chars);
    if lines.len() != 9 {
        return Err(PuzzleError::MalformedPuzzle);
    }
    let mut rows: Vec<Vec<Vec<char>>> = Vec::new();
    let mut r: usize = 0;
    while r < 9
        invariant
            r <= 9,
            views_of(lines@) == line_split(text@),
            lines@.len() == 9,
            rows@.len() == r,
            forall|a: int|
                0 <= a < r ==> views_of((#[trigger] rows@[a])@) == row_tokens(text@, a)
                    && rows@[a]@.len() == 9,
        decreases 9 - r,
    {
        let toks = split_at_char(&lines[r], ',');
        proof {
            assert(lines@[r as int]@ == views_of(lines@)[r as int]);
            assert(views_of(toks@) == row_tokens(text@, r as int));
            assert(toks@.len() == views_of(toks@).len());
        }
        if toks.len() != 9 {
            return Err(PuzzleError::MalformedPuzzle);
        }
        rows.push(toks);
        r += 1;
    }
    proof {
        assert forall|a: int| 0 <= a < 9 implies (#[trigger] row_tokens(text@, a)).len() == 9 by {
            assert(views_of(rows@[a]@) == row_tokens(text@, a));
            assert(views_of(rows@[a]@).len() == rows@[a]@.len());
        }
        assert(shape_ok(text@));
    }
    let mut grid = grid_filled(Field::default());
    proof {
        assert(grid_wf(grid_view(grid))) by {
            assert(forall|k: int|
                0 <= k < 81 ==> #[trigger] grid_view(grid)[k] == grid_seq(grid)[k]@);
        }
    }
    let mut rr: usize = 0;
    while rr < 9
        invariant
            rr <= 9,
            rows@.len() == 9,
            forall|a: int|
                0 <= a < 9 ==> views_of((#[trigger] rows@[a])@) == row_tokens(text@, a)
                    && rows@[a]@.len() == 9,
            shape_ok(text@),
            grid_ok(grid),
            forall|k: int|
                0 <= k < rr * 9 ==> #[trigger] grid_view(grid)[k] == loaded_cell(text@, k),
            forall|k: int| rr * 9 <= k < 81 ==> #[trigger] grid_view(grid)[k] == open_cell(),
            forall|a: int, b: int|
                0 <= a * 9 + b < rr * 9 && 0 <= a < 9 && 0 <= b < 9 ==> !token_out_of_range(
                    #[trigger] token_at(text@, a, b),
                ),
        decreases 9 - rr,
    {
        let mut cc: usize = 0;
        while cc < 9
            invariant
                rr < 9,
                cc <= 9,
                rows@.len() == 9,
                forall|a: int|
                    0 <= a < 9 ==> views_of((#[trigger] rows@[a])@) == row_tokens(text@, a)
                        && rows@[a]@.len() == 9,
                shape_ok(text@),
                grid_ok(grid),
                forall|k: int|
                    0 <= k < rr * 9 + cc ==> #[trigger] grid_view(grid)[k] == loaded_cell(text@, k),
                forall|k: int| rr * 9 + cc <= k < 81 ==> #[trigger] grid_view(grid)[k] == open_cell(),
                forall|a: int, b: int|
                    0 <= a * 9 + b < rr * 9 + cc && 0 <= a < 9 && 0 <= b < 9 ==> !token_out_of_range(
                        #[trigger] token_at(text@, a, b),
                    ),
            decreases 9 - cc,
        {
            let ghost ri = rr as int;
            let ghost ci = cc as int;
            let ghost k = cell_idx(ri, ci);
            proof {
                assert(k / 9 == ri && k % 9 == ci) by (nonlinear_arith)
                    requires
                        k == ri * 9 + ci && 0 <= ri < 9 && 0 <= ci < 9,
                ;
                assert(rows@[ri]@[ci]@ == views_of(rows@[ri]@)[ci]);
                assert(rows@[ri]@[ci]@ == token_at(text@, ri, ci));
            }
            let row = &rows[rr];
            let tok = &row[cc];
            match classify_token(tok) {
                TokenKind::Open => {
                    proof {
                        assert(loaded_cell(text@, k) == open_cell());
                        assert(grid_view(grid)[k] == loaded_cell(text@, k));
                    }
                },
                TokenKind::Clue(v) => {
                    let ghost seq_before = grid_seq(grid);
                    let ghost view_before = grid_view(grid);
                    grid_set(&mut grid, rr, cc, Field::fixed(v));
                    proof {
                        lemma_grid_view_update(seq_before, k, grid_seq(grid)[k]);
                        assert(grid_view(grid) =~= view_before.update(k, clue_cell(v)));
                        assert(loaded_cell(text@, k) == clue_cell(v));
                        assert(grid_wf(grid_view(grid))) by {
                            assert(forall|m: int|
                                0 <= m < 81 && m != k ==> #[trigger] grid_view(grid)[m]
                                    == view_before[m]);
                        }
                    }
                },
                TokenKind::OutOfRange => {
                    proof {
                        assert(!tokens_ok(text@));
                    }
                    return Err(PuzzleError::InvalidClueValue);
                },
            }
            proof {
                assert(forall|m: int|
                    0 <= m < ri * 9 + ci + 1 ==> #[trigger] grid_view(grid)[m] == loaded_cell(
                        text@,
                        m,
                    ));
            }
            cc += 1;
        }
        rr += 1;
    }
    proof {
        assert forall|a: int, b: int| in_grid(a, b) implies !token_out_of_range(
            #[trigger] token_at(text@, a, b),
        ) by {
            assert(0 <= a * 9 + b < 81) by (nonlinear_arith)
                requires
                    0 <= a < 9 && 0 <= b < 9,
            ;
        }
        assert(tokens_ok(text@));
        assert(grid_view(grid) =~= loaded_grid(text@));
    }
    Ok(grid)
}

} // verus!
