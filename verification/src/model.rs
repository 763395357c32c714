//! Ghost model of the sudoku grid and of one solving step.
//!
//! The executable code works on `Field` values stored in a 9x9 array; every
//! contract in this crate is stated over the functional model defined here:
//! a grid is a row-major sequence of 81 `CellView`s, one solving step is
//! `step_grid`, and its "nothing left to collapse" report is `step_done`.

use vstd::prelude::*;

use crate::seq_facts::{lemma_filter_no_dup, lemma_filter_sub};

verus! {

/// Ghost view of one grid position: the committed digit (if any), whether it
/// was given as a clue, and the digits still considered possible.
#[verifier::ext_equal]
pub struct CellView {
    pub value: Option<i32>,
    pub is_clue: bool,
    pub cands: Seq<i32>,
}

/// A well-formed cell: the candidates are distinct digits in 1..=9, a
/// committed value is a digit in 1..=9 and comes with an empty candidate set,
/// and a clue always carries a value.
pub open spec fn cell_wf(cv: CellView) -> bool {
    &&& cv.cands.no_duplicates()
    &&& forall|i: int| 0 <= i < cv.cands.len() ==> 1 <= #[trigger] cv.cands[i] <= 9
    &&& cv.value is Some ==> cv.cands.len() == 0 && 1 <= cv.value->0 <= 9
    &&& cv.is_clue ==> cv.value is Some
}

/// The state an open position starts in: no value, all nine digits possible.
pub open spec fn open_cell() -> CellView {
    CellView { value: None, is_clue: false, cands: seq![1i32, 2, 3, 4, 5, 6, 7, 8, 9] }
}

/// The state a clue position starts in: the given digit, no candidates.
pub open spec fn clue_cell(v: i32) -> CellView {
    CellView { value: Some(v), is_clue: true, cands: Seq::empty() }
}

/// Row-major position of (r, c) in the 81-cell sequence.
pub open spec fn cell_idx(r: int, c: int) -> int {
    r * 9 + c
}

/// Both coordinates lie on the 9x9 board.
pub open spec fn in_grid(r: int, c: int) -> bool {
    0 <= r < 9 && 0 <= c < 9
}

/// The cell of grid `g` at row `r`, column `c`.
pub open spec fn grid_at(g: Seq<CellView>, r: int, c: int) -> CellView {
    g[cell_idx(r, c)]
}

/// A well-formed grid: 81 cells, each well formed.
pub open spec fn grid_wf(g: Seq<CellView>) -> bool {
    &&& g.len() == 81
    &&& forall|k: int| 0 <= k < 81 ==> cell_wf(#[trigger] g[k])
}

/// First row (or column) of the 3x3 block containing row (or column) `x`.
pub open spec fn block_base(x: int) -> int {
    (x / 3) * 3
}

/// (i, j) is a constraint peer of (r, c): a different cell in the same row,
/// the same column, or the same 3x3 block.
pub open spec fn is_peer(r: int, c: int, i: int, j: int) -> bool {
    &&& !(i == r && j == c)
    &&& (i == r || j == c || (i / 3 == r / 3 && j / 3 == c / 3))
}

/// Some peer of (r, c) has committed value `v`.
pub open spec fn peer_sees(g: Seq<CellView>, r: int, c: int, v: i32) -> bool {
    exists|i: int, j: int|
        in_grid(i, j) && is_peer(r, c, i, j) && (#[trigger] grid_at(g, i, j)).value == Some(v)
}

/// Some cell among the first `n` of row `r` or of column `c` (the cell
/// (r, c) itself included, which matters not for an open cell) has committed
/// value `v`. The executable row-and-column pass walks `t` upward, so its
/// progress is this predicate cut off at `n`.
pub open spec fn rowcol_sees_upto(g: Seq<CellView>, r: int, c: int, v: i32, n: int) -> bool {
    exists|t: int|
        #![trigger grid_at(g, t, c)]
        #![trigger grid_at(g, r, t)]
        0 <= t < n && (grid_at(g, t, c).value == Some(v) || grid_at(g, r, t).value == Some(v))
}

/// Some cell in row `r` or column `c` has committed value `v`.
pub open spec fn rowcol_sees(g: Seq<CellView>, r: int, c: int, v: i32) -> bool {
    rowcol_sees_upto(g, r, c, v, 9)
}

/// Row of the `t`-th cell (row-major, 0 <= t < 9) of the block of (r, c).
pub open spec fn block_pos_row(r: int, t: int) -> int {
    block_base(r) + t / 3
}

/// Column of the `t`-th cell of the block of (r, c).
pub open spec fn block_pos_col(c: int, t: int) -> int {
    block_base(c) + t % 3
}

/// Some cell among the first `n` block positions of (r, c), the position of
/// (r, c) itself excluded, has committed value `v`.
pub open spec fn block_sees_upto(g: Seq<CellView>, r: int, c: int, v: i32, n: int) -> bool {
    exists|t: int|
        0 <= t < n && !(block_pos_row(r, t) == r && block_pos_col(c, t) == c) && (#[trigger] grid_at(
            g,
            block_pos_row(r, t),
            block_pos_col(c, t),
        )).value == Some(v)
}

/// Some cell of the 3x3 block of (r, c), other than (r, c) itself, has
/// committed value `v`.
pub open spec fn block_sees(g: Seq<CellView>, r: int, c: int, v: i32) -> bool {
    block_sees_upto(g, r, c, v, 9)
}

/// "No cell among the first `n` of row `r` / column `c` has committed `v`",
/// as a named predicate value, so every mention is one term.
pub open spec fn not_rowcol_seen_upto(g: Seq<CellView>, r: int, c: int, n: int) -> spec_fn(
    i32,
) -> bool {
    |v: i32| !rowcol_sees_upto(g, r, c, v, n)
}

/// "No cell among the first `n` block positions of (r, c) has committed
/// `v`", as a named predicate value.
pub open spec fn not_block_seen_upto(g: Seq<CellView>, r: int, c: int, n: int) -> spec_fn(
    i32,
) -> bool {
    |v: i32| !block_sees_upto(g, r, c, v, n)
}

/// "No peer of (r, c) has committed `v`", as a named predicate value.
pub open spec fn not_peer_seen(g: Seq<CellView>, r: int, c: int) -> spec_fn(i32) -> bool {
    |v: i32| !peer_sees(g, r, c, v)
}

/// The cell (r, c) with every candidate its block peers have committed
/// removed: what one `update_from_block` call leaves there.
pub open spec fn block_narrowed(g: Seq<CellView>, r: int, c: int) -> CellView {
    let cv = grid_at(g, r, c);
    CellView {
        value: cv.value,
        is_clue: cv.is_clue,
        cands: cv.cands.filter(not_block_seen_upto(g, r, c, 9)),
    }
}

/// The cell (r, c) with every candidate its row and column have committed
/// removed: what one `update_from_row_and_column` call leaves there.
pub open spec fn rowcol_narrowed(g: Seq<CellView>, r: int, c: int) -> CellView {
    let cv = grid_at(g, r, c);
    CellView {
        value: cv.value,
        is_clue: cv.is_clue,
        cands: cv.cands.filter(not_rowcol_seen_upto(g, r, c, 9)),
    }
}

/// An open cell that has run out of candidates: the grid cannot be completed.
pub open spec fn dead_cell(cv: CellView) -> bool {
    cv.value is None && cv.cands.len() == 0
}

/// The narrow phase at one cell: an open cell keeps exactly the candidates no
/// peer has committed; a cell with a value is untouched.
pub open spec fn narrow_cell(g: Seq<CellView>, r: int, c: int) -> CellView {
    let cv = grid_at(g, r, c);
    if cv.value is None {
        CellView {
            value: cv.value,
            is_clue: cv.is_clue,
            cands: cv.cands.filter(not_peer_seen(g, r, c)),
        }
    } else {
        cv
    }
}

/// The narrow phase over the whole grid. All candidate removals are decided
/// by the committed values of `g`, so the iteration order of the executable
/// pass does not matter.
pub open spec fn narrow_grid(g: Seq<CellView>) -> Seq<CellView> {
    Seq::new(81, |k: int| narrow_cell(g, k / 9, k % 9))
}

/// The collapse phase at one cell: an open cell whose candidate set has
/// exactly one member commits that member; every other cell is untouched.
pub open spec fn collapse_cell(cv: CellView) -> CellView {
    if cv.value is None && cv.cands.len() == 1 {
        CellView { value: Some(cv.cands[0]), is_clue: cv.is_clue, cands: Seq::empty() }
    } else {
        cv
    }
}

/// One full solving step: narrow every cell, then collapse forced singles.
pub open spec fn step_grid(g: Seq<CellView>) -> Seq<CellView> {
    Seq::new(81, |k: int| collapse_cell(narrow_grid(g)[k]))
}

/// The report of one step: true when, after narrowing, no cell kept two or
/// more candidates, i.e. the naked-single technique is exhausted. It does not
/// say that every cell has a value.
pub open spec fn step_done(g: Seq<CellView>) -> bool {
    forall|k: int| 0 <= k < 81 ==> (#[trigger] narrow_grid(g)[k]).cands.len() <= 1
}

/// The grid after `n` solving steps.
pub open spec fn iterate_grid(g: Seq<CellView>, n: nat) -> Seq<CellView>
    decreases n,
{
    if n == 0 {
        g
    } else {
        step_grid(iterate_grid(g, (n - 1) as nat))
    }
}

/// Extending the row-and-column scan by one position adds exactly the
/// committed values of the cells (n, c) and (r, n) to what is seen.
pub proof fn lemma_rowcol_upto_step(g: Seq<CellView>, r: int, c: int, n: int)
    requires
        0 <= n,
    ensures
        forall|v: i32| #[trigger]
            rowcol_sees_upto(g, r, c, v, n + 1) <==> (rowcol_sees_upto(g, r, c, v, n) || grid_at(
                g,
                n,
                c,
            ).value == Some(v) || grid_at(g, r, n).value == Some(v)),
{
    assert forall|v: i32| #[trigger]
        rowcol_sees_upto(g, r, c, v, n + 1) <==> (rowcol_sees_upto(g, r, c, v, n) || grid_at(
            g,
            n,
            c,
        ).value == Some(v) || grid_at(g, r, n).value == Some(v)) by {
        if rowcol_sees_upto(g, r, c, v, n + 1) {
            let t = choose|t: int|
                0 <= t < n + 1 && ((#[trigger] grid_at(g, t, c)).value == Some(v) || grid_at(
                    g,
                    r,
                    t,
                ).value == Some(v));
            if t < n {
                assert(rowcol_sees_upto(g, r, c, v, n));
            }
        }
        if rowcol_sees_upto(g, r, c, v, n) {
            let t = choose|t: int|
                0 <= t < n && ((#[trigger] grid_at(g, t, c)).value == Some(v) || grid_at(
                    g,
                    r,
                    t,
                ).value == Some(v));
            assert(0 <= t < n + 1 && (grid_at(g, t, c).value == Some(v) || grid_at(
                g,
                r,
                t,
            ).value == Some(v)));
        }
        if grid_at(g, n, c).value == Some(v) || grid_at(g, r, n).value == Some(v) {
            assert(0 <= n < n + 1 && (grid_at(g, n, c).value == Some(v) || grid_at(
                g,
                r,
                n,
            ).value == Some(v)));
        }
    }
}

/// Extending the block scan by one position adds exactly the committed value
/// of block position `n`, unless that position is (r, c) itself.
pub proof fn lemma_block_upto_step(g: Seq<CellView>, r: int, c: int, n: int)
    requires
        0 <= n,
    ensures
        forall|v: i32| #[trigger]
            block_sees_upto(g, r, c, v, n + 1) <==> (block_sees_upto(g, r, c, v, n) || (!(
            block_pos_row(r, n) == r && block_pos_col(c, n) == c) && grid_at(
                g,
                block_pos_row(r, n),
                block_pos_col(c, n),
            ).value == Some(v))),
{
    assert forall|v: i32| #[trigger]
        block_sees_upto(g, r, c, v, n + 1) <==> (block_sees_upto(g, r, c, v, n) || (!(block_pos_row(
            r,
            n,
        ) == r && block_pos_col(c, n) == c) && grid_at(
            g,
            block_pos_row(r, n),
            block_pos_col(c, n),
        ).value == Some(v))) by {
        if block_sees_upto(g, r, c, v, n + 1) {
            let t = choose|t: int|
                0 <= t < n + 1 && !(block_pos_row(r, t) == r && block_pos_col(c, t) == c) && (
                #[trigger] grid_at(g, block_pos_row(r, t), block_pos_col(c, t))).value == Some(v);
            if t < n {
                assert(block_sees_upto(g, r, c, v, n));
            }
        }
        if block_sees_upto(g, r, c, v, n) {
            let t = choose|t: int|
                0 <= t < n && !(block_pos_row(r, t) == r && block_pos_col(c, t) == c) && (
                #[trigger] grid_at(g, block_pos_row(r, t), block_pos_col(c, t))).value == Some(v);
            assert(0 <= t < n + 1 && !(block_pos_row(r, t) == r && block_pos_col(c, t) == c)
                && grid_at(g, block_pos_row(r, t), block_pos_col(c, t)).value == Some(v));
        }
        if !(block_pos_row(r, n) == r && block_pos_col(c, n) == c) && grid_at(
            g,
            block_pos_row(r, n),
            block_pos_col(c, n),
        ).value == Some(v) {
            assert(0 <= n < n + 1 && !(block_pos_row(r, n) == r && block_pos_col(c, n) == c)
                && grid_at(g, block_pos_row(r, n), block_pos_col(c, n)).value == Some(v));
        }
    }
}

/// Filtering the candidate set keeps a well-formed cell well formed.
pub proof fn lemma_cell_wf_filter(cv: CellView, p: spec_fn(i32) -> bool)
    requires
        cell_wf(cv),
    ensures
        cell_wf(CellView { value: cv.value, is_clue: cv.is_clue, cands: cv.cands.filter(p) }),
{
    lemma_filter_no_dup(cv.cands, p);
    lemma_filter_sub(cv.cands, p);
    let f = cv.cands.filter(p);
    assert forall|i: int| 0 <= i < f.len() implies 1 <= #[trigger] f[i] <= 9 by {
        assert(cv.cands.contains(f[i]));
    }
    broadcast use Seq::<_>::lemma_filter_len;

}

/// What the three visibility predicates say of a grid depends only on its
/// committed values: two grids that agree on every `value` agree on them.
pub proof fn lemma_sees_values(g1: Seq<CellView>, g2: Seq<CellView>, r: int, c: int)
    requires
        g1.len() == 81,
        g2.len() == 81,
        in_grid(r, c),
        forall|k: int| 0 <= k < 81 ==> (#[trigger] g1[k]).value == g2[k].value,
    ensures
        forall|v: i32| #[trigger] rowcol_sees(g1, r, c, v) == rowcol_sees(g2, r, c, v),
        forall|v: i32| #[trigger] block_sees(g1, r, c, v) == block_sees(g2, r, c, v),
        forall|v: i32| #[trigger] peer_sees(g1, r, c, v) == peer_sees(g2, r, c, v),
{
    assert forall|v: i32| #[trigger] rowcol_sees(g1, r, c, v) == rowcol_sees(g2, r, c, v) by {
        if rowcol_sees(g1, r, c, v) {
            lemma_rowcol_sees_values(g1, g2, r, c, v);
        }
        if rowcol_sees(g2, r, c, v) {
            lemma_rowcol_sees_values(g2, g1, r, c, v);
        }
    }
    assert forall|v: i32| #[trigger] block_sees(g1, r, c, v) == block_sees(g2, r, c, v) by {
        if block_sees(g1, r, c, v) {
            lemma_block_sees_values(g1, g2, r, c, v);
        }
        if block_sees(g2, r, c, v) {
            lemma_block_sees_values(g2, g1, r, c, v);
        }
    }
    assert forall|v: i32| #[trigger] peer_sees(g1, r, c, v) == peer_sees(g2, r, c, v) by {
        if peer_sees(g1, r, c, v) {
            lemma_peer_sees_values(g1, g2, r, c, v);
        }
        if peer_sees(g2, r, c, v) {
            lemma_peer_sees_values(g2, g1, r, c, v);
        }
    }
}

proof fn lemma_rowcol_sees_values(g1: Seq<CellView>, g2: Seq<CellView>, r: int, c: int, v: i32)
    requires
        g1.len() == 81,
        g2.len() == 81,
        in_grid(r, c),
        forall|k: int| 0 <= k < 81 ==> (#[trigger] g1[k]).value == g2[k].value,
        rowcol_sees(g1, r, c, v),
    ensures
        rowcol_sees(g2, r, c, v),
{
    let t = choose|t: int|
        0 <= t < 9 && ((#[trigger] grid_at(g1, t, c)).value == Some(v) || grid_at(
            g1,
            r,
            t,
        ).value == Some(v));
    assert(grid_at(g2, t, c).value == g1[cell_idx(t, c)].value);
    assert(grid_at(g2, r, t).value == g1[cell_idx(r, t)].value);
    assert(0 <= t < 9 && (grid_at(g2, t, c).value == Some(v) || grid_at(g2, r, t).value == Some(
        v,
    )));
}

proof fn lemma_block_sees_values(g1: Seq<CellView>, g2: Seq<CellView>, r: int, c: int, v: i32)
    requires
        g1.len() == 81,
        g2.len() == 81,
        in_grid(r, c),
        forall|k: int| 0 <= k < 81 ==> (#[trigger] g1[k]).value == g2[k].value,
        block_sees(g1, r, c, v),
    ensures
        block_sees(g2, r, c, v),
{
    let t = choose|t: int|
        0 <= t < 9 && !(block_pos_row(r, t) == r && block_pos_col(c, t) == c) && (#[trigger] grid_at(
            g1,
            block_pos_row(r, t),
            block_pos_col(c, t),
        )).value == Some(v);
    let i = block_pos_row(r, t);
    let j = block_pos_col(c, t);
    assert(0 <= t / 3 < 3 && 0 <= t % 3 < 3);
    assert(in_grid(i, j));
    assert(grid_at(g2, i, j).value == g1[cell_idx(i, j)].value);
    assert(0 <= t < 9 && !(block_pos_row(r, t) == r && block_pos_col(c, t) == c) && grid_at(
        g2,
        block_pos_row(r, t),
        block_pos_col(c, t),
    ).value == Some(v));
}

proof fn lemma_peer_sees_values(g1: Seq<CellView>, g2: Seq<CellView>, r: int, c: int, v: i32)
    requires
        g1.len() == 81,
        g2.len() == 81,
        in_grid(r, c),
        forall|k: int| 0 <= k < 81 ==> (#[trigger] g1[k]).value == g2[k].value,
        peer_sees(g1, r, c, v),
    ensures
        peer_sees(g2, r, c, v),
{
    let (i, j) = choose|i: int, j: int|
        in_grid(i, j) && is_peer(r, c, i, j) && (#[trigger] grid_at(g1, i, j)).value == Some(v);
    assert(0 <= cell_idx(i, j) < 81);
    assert(in_grid(i, j) && is_peer(r, c, i, j) && grid_at(g2, i, j).value == Some(v));
}

/// For an open cell, seeing a digit through some peer is exactly seeing it
/// through the block pass or through the row-and-column pass.
pub proof fn lemma_peer_split(g: Seq<CellView>, r: int, c: int)
    requires
        g.len() == 81,
        in_grid(r, c),
        grid_at(g, r, c).value is None,
    ensures
        forall|v: i32| #[trigger]
            peer_sees(g, r, c, v) <==> (block_sees(g, r, c, v) || rowcol_sees(g, r, c, v)),
{
    assert forall|v: i32| #[trigger]
        peer_sees(g, r, c, v) <==> (block_sees(g, r, c, v) || rowcol_sees(g, r, c, v)) by {
        if peer_sees(g, r, c, v) {
            let (i, j) = choose|i: int, j: int|
                in_grid(i, j) && is_peer(r, c, i, j) && (#[trigger] grid_at(g, i, j)).value == Some(
                    v,
                );
            if i == r {
                assert(grid_at(g, r, j).value == Some(v));
                assert(rowcol_sees_upto(g, r, c, v, 9));
            } else if j == c {
                assert(grid_at(g, i, c).value == Some(v));
                assert(rowcol_sees_upto(g, r, c, v, 9));
            } else {
                assert(i / 3 == r / 3 && j / 3 == c / 3);
                let t = (i - block_base(r)) * 3 + (j - block_base(c));
                assert(block_base(r) <= i < block_base(r) + 3);
                assert(block_base(c) <= j < block_base(c) + 3);
                assert(block_pos_row(r, t) == i && block_pos_col(c, t) == j) by {
                    let a = i - block_base(r);
                    let b = j - block_base(c);
                    assert(0 <= a < 3 && 0 <= b < 3);
                    assert((a * 3 + b) / 3 == a && (a * 3 + b) % 3 == b) by (nonlinear_arith)
                        requires
                            0 <= a < 3 && 0 <= b < 3,
                    ;
                }
                assert(0 <= t < 9);
                assert(block_sees_upto(g, r, c, v, 9));
            }
        }
        if block_sees(g, r, c, v) {
            let t = choose|t: int|
                0 <= t < 9 && !(block_pos_row(r, t) == r && block_pos_col(c, t) == c) && (
                #[trigger] grid_at(g, block_pos_row(r, t), block_pos_col(c, t))).value == Some(v);
            let i = block_pos_row(r, t);
            let j = block_pos_col(c, t);
            assert(0 <= t / 3 < 3 && 0 <= t % 3 < 3);
            assert(in_grid(i, j));
            assert(i / 3 == r / 3 && j / 3 == c / 3) by {
                assert(block_base(r) <= i < block_base(r) + 3);
                assert(block_base(c) <= j < block_base(c) + 3);
            }
            assert(is_peer(r, c, i, j));
            assert(peer_sees(g, r, c, v));
        }
        if rowcol_sees(g, r, c, v) {
            let t = choose|t: int|
                0 <= t < 9 && ((#[trigger] grid_at(g, t, c)).value == Some(v) || grid_at(
                    g,
                    r,
                    t,
                ).value == Some(v));
            if grid_at(g, t, c).value == Some(v) {
                assert(t != r);
                assert(in_grid(t, c) && is_peer(r, c, t, c));
                assert(peer_sees(g, r, c, v));
            } else {
                assert(t != c);
                assert(in_grid(r, t) && is_peer(r, c, r, t));
                assert(peer_sees(g, r, c, v));
            }
        }
    }
}

} // verus!
