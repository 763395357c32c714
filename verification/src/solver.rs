//! The elimination solver: peer-based candidate narrowing and one full
//! solving step over the 9x9 grid.

use vstd::prelude::*;

use array2d::Array2D;

use crate::cell::Field;
use crate::grid::{grid_get, grid_ok, grid_seq, grid_set, grid_view, lemma_grid_view_update};
use crate::model::{
    block_narrowed, block_pos_col, block_pos_row, block_sees_upto, cell_idx, cell_wf,
    collapse_cell, grid_at, grid_wf, lemma_block_upto_step, lemma_cell_wf_filter,
    lemma_peer_split, lemma_rowcol_upto_step, lemma_sees_values, narrow_cell, narrow_grid,
    block_sees, not_block_seen_upto, not_peer_seen, not_rowcol_seen_upto, peer_sees,
    rowcol_narrowed, rowcol_sees, rowcol_sees_upto, step_done, step_grid,
};
use crate::seq_facts::{lemma_filter_congruent, lemma_filter_filter_into, and_pred, ne_pred};

verus! {

/// Remove from the open cell at `address` every candidate that is the
/// committed value of some cell in its row or its column.
fn update_from_row_and_column(data: &mut Array2D<Field>, address: (usize, usize))
    requires
        grid_ok(*old(data)),
        address.0 < 9,
        address.1 < 9,
        grid_at(grid_view(*old(data)), address.0 as int, address.1 as int).value is None,
    ensures
        grid_ok(*final(data)),
        grid_view(*final(data)) == grid_view(*old(data)).update(
            cell_idx(address.0 as int, address.1 as int),
            rowcol_narrowed(grid_view(*old(data)), address.0 as int, address.1 as int),
        ),
{
    let r = address.0;
    let c = address.1;
    let ghost g0 = grid_view(*data);
    let ghost ri = r as int;
    let ghost ci = c as int;
    let ghost cands0 = grid_at(g0, ri, ci).cands;
    let mut f = grid_get(data, r, c).duplicate();
    proof {
        assert(f@ == grid_at(g0, ri, ci));
        assert(cell_wf(f@));
        assert(forall|v: i32| !rowcol_sees_upto(g0, ri, ci, v, 0));
        assert(forall|v: i32| #[trigger] not_rowcol_seen_upto(g0, ri, ci, 0)(v));
        lemma_filter_all_kept_pred(cands0, not_rowcol_seen_upto(g0, ri, ci, 0));
    }
    let mut i: usize = 0;
    while i < 9
        invariant
            i <= 9,
            r < 9,
            c < 9,
            ri == r as int,
            ci == c as int,
            grid_ok(*data),
            grid_view(*data) == g0,
            cands0 == grid_at(g0, ri, ci).cands,
            grid_at(g0, ri, ci).value is None,
            f.value == grid_at(g0, ri, ci).value,
            f.is_original == grid_at(g0, ri, ci).is_clue,
            cell_wf(f@),
            f.options@ == cands0.filter(not_rowcol_seen_upto(g0, ri, ci, i as int)),
        decreases 9 - i,
    {
        let ghost ii = i as int;
        let ghost pn = not_rowcol_seen_upto(g0, ri, ci, ii);
        let ghost pn1 = not_rowcol_seen_upto(g0, ri, ci, ii + 1);
        let col_value: Option<i32> = grid_get(data, i, c).value;
        if let Some(v1) = col_value {
            f.remove(v1);
        }
        let row_value: Option<i32> = grid_get(data, r, i).value;
        if let Some(v2) = row_value {
            f.remove(v2);
        }
        proof {
            assert(col_value == grid_at(g0, ii, ci).value) by {
                assert(grid_view(*data)[cell_idx(ii, ci)] == grid_seq(*data)[cell_idx(ii, ci)]@);
            }
            assert(row_value == grid_at(g0, ri, ii).value) by {
                assert(grid_view(*data)[cell_idx(ri, ii)] == grid_seq(*data)[cell_idx(ri, ii)]@);
            }
            lemma_rowcol_upto_step(g0, ri, ci, ii);
            match (col_value, row_value) {
                (Some(v1), Some(v2)) => {
                    let m = and_pred(pn, ne_pred(v1));
                    assert(forall|x: i32| #[trigger] m(x) <==> pn(x) && ne_pred(v1)(x));
                    lemma_filter_filter_into(cands0, pn, ne_pred(v1), m);
                    assert(forall|x: i32| #[trigger] pn1(x) <==> m(x) && ne_pred(v2)(x));
                    lemma_filter_filter_into(cands0, m, ne_pred(v2), pn1);
                },
                (Some(v1), None) => {
                    assert(forall|x: i32| #[trigger] pn1(x) <==> pn(x) && ne_pred(v1)(x));
                    lemma_filter_filter_into(cands0, pn, ne_pred(v1), pn1);
                },
                (None, Some(v2)) => {
                    assert(forall|x: i32| #[trigger] pn1(x) <==> pn(x) && ne_pred(v2)(x));
                    lemma_filter_filter_into(cands0, pn, ne_pred(v2), pn1);
                },
                (None, None) => {
                    assert(forall|x: i32| #[trigger] pn(x) <==> pn1(x));
                    lemma_filter_congruent(cands0, pn, pn1);
                },
            }
        }
        i += 1;
    }
    proof {
        assert(f@ =~= rowcol_narrowed(g0, ri, ci));
    }
    let ghost seq_before = grid_seq(*data);
    grid_set(data, r, c, f);
    proof {
        lemma_grid_view_update(seq_before, cell_idx(ri, ci), f);
        lemma_cell_wf_filter(grid_at(g0, ri, ci), not_rowcol_seen_upto(g0, ri, ci, 9));
        assert(grid_wf(grid_view(*data))) by {
            assert(forall|k: int|
                0 <= k < 81 && k != cell_idx(ri, ci) ==> #[trigger] grid_view(*data)[k] == g0[k]);
            assert(cell_wf(grid_view(*data)[cell_idx(ri, ci)]));
        }
    }
}

/// Remove from the open cell at `address` every candidate that is the
/// committed value of another cell of its 3x3 block.
fn update_from_block(data: &mut Array2D<Field>, address: (usize, usize))
    requires
        grid_ok(*old(data)),
        address.0 < 9,
        address.1 < 9,
        grid_at(grid_view(*old(data)), address.0 as int, address.1 as int).value is None,
    ensures
        grid_ok(*final(data)),
        grid_view(*final(data)) == grid_view(*old(data)).update(
            cell_idx(address.0 as int, address.1 as int),
            block_narrowed(grid_view(*old(data)), address.0 as int, address.1 as int),
        ),
{
    let r = address.0;
    let c = address.1;
    let block_i = r / 3 * 3;
    let block_j = c / 3 * 3;
    let ghost g0 = grid_view(*data);
    let ghost ri = r as int;
    let ghost ci = c as int;
    let ghost cands0 = grid_at(g0, ri, ci).cands;
    let mut f = grid_get(data, r, c).duplicate();
    proof {
        assert(f@ == grid_at(g0, ri, ci));
        assert(cell_wf(f@));
        assert(forall|v: i32| !block_sees_upto(g0, ri, ci, v, 0));
        assert(forall|v: i32| #[trigger] not_block_seen_upto(g0, ri, ci, 0)(v));
        lemma_filter_all_kept_pred(cands0, not_block_seen_upto(g0, ri, ci, 0));
    }
    let mut t: usize = 0;
    while t < 9
        invariant
            t <= 9,
            r < 9,
            c < 9,
            block_i == r / 3 * 3,
            block_j == c / 3 * 3,
            ri == r as int,
            ci == c as int,
            grid_ok(*data),
            grid_view(*data) == g0,
            cands0 == grid_at(g0, ri, ci).cands,
            grid_at(g0, ri, ci).value is None,
            f.value == grid_at(g0, ri, ci).value,
            f.is_original == grid_at(g0, ri, ci).is_clue,
            cell_wf(f@),
            f.options@ == cands0.filter(not_block_seen_upto(g0, ri, ci, t as int)),
        decreases 9 - t,
    {
        let ghost ti = t as int;
        let ghost pn = not_block_seen_upto(g0, ri, ci, ti);
        let ghost pn1 = not_block_seen_upto(g0, ri, ci, ti + 1);
        let bi = block_i + t / 3;
        let bj = block_j + t % 3;
        proof {
            assert(bi as int == block_pos_row(ri, ti));
            assert(bj as int == block_pos_col(ci, ti));
            lemma_block_upto_step(g0, ri, ci, ti);
        }
        if bi == r && bj == c {
            proof {
                assert(forall|x: i32| #[trigger] pn(x) <==> pn1(x));
                lemma_filter_congruent(cands0, pn, pn1);
            }
        } else {
            let block_value: Option<i32> = grid_get(data, bi, bj).value;
            proof {
                assert(block_value == grid_at(g0, bi as int, bj as int).value) by {
                    assert(grid_view(*data)[cell_idx(bi as int, bj as int)] == grid_seq(
                        *data,
                    )[cell_idx(bi as int, bj as int)]@);
                }
            }
            if let Some(v) = block_value {
                f.remove(v);
                proof {
                    assert(forall|x: i32| #[trigger] pn1(x) <==> pn(x) && ne_pred(v)(x));
                    lemma_filter_filter_into(cands0, pn, ne_pred(v), pn1);
                }
            } else {
                proof {
                    assert(forall|x: i32| #[trigger] pn(x) <==> pn1(x));
                    lemma_filter_congruent(cands0, pn, pn1);
                }
            }
        }
        t += 1;
    }
    proof {
        assert(f@ =~= block_narrowed(g0, ri, ci));
    }
    let ghost seq_before = grid_seq(*data);
    grid_set(data, r, c, f);
    proof {
        lemma_grid_view_update(seq_before, cell_idx(ri, ci), f);
        lemma_cell_wf_filter(grid_at(g0, ri, ci), not_block_seen_upto(g0, ri, ci, 9));
        assert(grid_wf(grid_view(*data))) by {
            assert(forall|k: int|
                0 <= k < 81 && k != cell_idx(ri, ci) ==> #[trigger] grid_view(*data)[k] == g0[k]);
            assert(cell_wf(grid_view(*data)[cell_idx(ri, ci)]));
        }
    }
}

/// One full solving step over the grid, in two strict phases: narrow every
/// open cell against the committed values of its peers, then collapse every
/// cell left with exactly one candidate. Returns true exactly when no cell
/// came out of the narrow phase with two or more candidates — the fixed
/// point of naked-single elimination, which does not mean every cell has a
/// value.
pub fn update(data: &mut Array2D<Field>) -> (done: bool)
    requires
        grid_ok(*old(data)),
    ensures
        grid_ok(*final(data)),
        grid_view(*final(data)) == step_grid(grid_view(*old(data))),
        done == step_done(grid_view(*old(data))),
{
    let ghost g0 = grid_view(*data);
    let mut i: usize = 0;
    while i < 9
        invariant
            i <= 9,
            grid_ok(*data),
            g0.len() == 81,
            grid_wf(g0),
            forall|k: int|
                0 <= k < i * 9 ==> #[trigger] grid_view(*data)[k] == narrow_cell(g0, k / 9, k % 9),
            forall|k: int| i * 9 <= k < 81 ==> #[trigger] grid_view(*data)[k] == g0[k],
        decreases 9 - i,
    {
        let mut j: usize = 0;
        while j < 9
            invariant
                i < 9,
                j <= 9,
                grid_ok(*data),
                g0.len() == 81,
                grid_wf(g0),
                forall|k: int|
                    0 <= k < i * 9 + j ==> #[trigger] grid_view(*data)[k] == narrow_cell(
                        g0,
                        k / 9,
                        k % 9,
                    ),
                forall|k: int| i * 9 + j <= k < 81 ==> #[trigger] grid_view(*data)[k] == g0[k],
            decreases 9 - j,
        {
            let ghost gc = grid_view(*data);
            let ghost ii = i as int;
            let ghost jj = j as int;
            let ghost k = cell_idx(ii, jj);
            proof {
                assert(k == ii * 9 + jj);
                assert(k / 9 == ii && k % 9 == jj) by (nonlinear_arith)
                    requires
                        k == ii * 9 + jj && 0 <= ii < 9 && 0 <= jj < 9,
                ;
                assert(gc[k] == g0[k]);
                assert(forall|m: int| 0 <= m < 81 ==> (#[trigger] gc[m]).value == g0[m].value);
            }
            if grid_get(data, i, j).value.is_none() {
                proof {
                    assert(grid_at(gc, ii, jj).value is None) by {
                        assert(grid_view(*data)[k] == grid_seq(*data)[k]@);
                    }
                }
                update_from_block(data, (i, j));
                let ghost gc2 = grid_view(*data);
                update_from_row_and_column(data, (i, j));
                proof {
                    let gc3 = grid_view(*data);
                    let cands0 = g0[k].cands;
                    // The block pass filtered against `gc`, whose committed
                    // values are those of `g0`.
                    lemma_sees_values(gc, g0, ii, jj);
                    assert forall|x: i32| #[trigger]
                        not_block_seen_upto(gc, ii, jj, 9)(x) <==> not_block_seen_upto(
                        g0,
                        ii,
                        jj,
                        9,
                    )(x) by {
                        assert(block_sees(gc, ii, jj, x) == block_sees(g0, ii, jj, x));
                    }
                    lemma_filter_congruent(
                        cands0,
                        not_block_seen_upto(gc, ii, jj, 9),
                        not_block_seen_upto(g0, ii, jj, 9),
                    );
                    // The row-and-column pass filtered against `gc2`, whose
                    // committed values are also those of `g0`.
                    assert(forall|m: int| 0 <= m < 81 ==> (#[trigger] gc2[m]).value == g0[m].value);
                    lemma_sees_values(gc2, g0, ii, jj);
                    lemma_peer_split(g0, ii, jj);
                    assert forall|x: i32| #[trigger]
                        not_peer_seen(g0, ii, jj)(x) <==> not_block_seen_upto(g0, ii, jj, 9)(x)
                        && not_rowcol_seen_upto(gc2, ii, jj, 9)(x) by {
                        assert(rowcol_sees(gc2, ii, jj, x) == rowcol_sees(g0, ii, jj, x));
                        assert(peer_sees(g0, ii, jj, x) <==> (block_sees(g0, ii, jj, x)
                            || rowcol_sees(g0, ii, jj, x)));
                    }
                    lemma_filter_filter_into(
                        cands0,
                        not_block_seen_upto(g0, ii, jj, 9),
                        not_rowcol_seen_upto(gc2, ii, jj, 9),
                        not_peer_seen(g0, ii, jj),
                    );
                    assert(grid_at(gc2, ii, jj) == block_narrowed(gc, ii, jj));
                    assert(gc3[k] == rowcol_narrowed(gc2, ii, jj));
                    assert(gc3[k].cands == cands0.filter(not_peer_seen(g0, ii, jj)));
                    assert(gc3[k] =~= narrow_cell(g0, ii, jj));
                    assert forall|m: int| 0 <= m < ii * 9 + jj + 1 implies #[trigger] grid_view(
                        *data,
                    )[m] == narrow_cell(g0, m / 9, m % 9) by {
                        if m < k {
                            assert(gc3[m] == gc[m]);
                        }
                    }
                    assert(forall|m: int|
                        ii * 9 + jj + 1 <= m < 81 ==> #[trigger] grid_view(*data)[m] == g0[m]);
                }
            } else {
                proof {
                    assert(grid_at(g0, ii, jj).value is Some) by {
                        assert(grid_view(*data)[k] == grid_seq(*data)[k]@);
                    }
                    assert(narrow_cell(g0, ii, jj) == g0[k]);
                }
            }
            j += 1;
        }
        i += 1;
    }
    proof {
        assert(grid_view(*data) =~= narrow_grid(g0));
    }
    // Collapse phase: commit every cell left with exactly one candidate.
    let ghost n0 = narrow_grid(g0);
    let mut done = true;
    let mut r: usize = 0;
    while r < 9
        invariant
            r <= 9,
            grid_ok(*data),
            n0.len() == 81,
            n0 == narrow_grid(g0),
            g0.len() == 81,
            forall|k: int|
                0 <= k < r * 9 ==> #[trigger] grid_view(*data)[k] == collapse_cell(n0[k]),
            forall|k: int| r * 9 <= k < 81 ==> #[trigger] grid_view(*data)[k] == n0[k],
            done == (forall|k: int| 0 <= k < r * 9 ==> (#[trigger] n0[k]).cands.len() <= 1),
        decreases 9 - r,
    {
        let mut c: usize = 0;
        while c < 9
            invariant
                r < 9,
                c <= 9,
                grid_ok(*data),
                n0.len() == 81,
                n0 == narrow_grid(g0),
                g0.len() == 81,
                forall|k: int|
                    0 <= k < r * 9 + c ==> #[trigger] grid_view(*data)[k] == collapse_cell(n0[k]),
                forall|k: int| r * 9 + c <= k < 81 ==> #[trigger] grid_view(*data)[k] == n0[k],
                done == (forall|k: int| 0 <= k < r * 9 + c ==> (#[trigger] n0[k]).cands.len() <= 1),
            decreases 9 - c,
        {
            let ghost ri = r as int;
            let ghost ci = c as int;
            let ghost k = cell_idx(ri, ci);
            let ghost gc = grid_view(*data);
            let mut f = grid_get(data, r, c).duplicate();
            proof {
                assert(f@ == gc[k]) by {
                    assert(grid_view(*data)[k] == grid_seq(*data)[k]@);
                }
                assert(cell_wf(f@));
            }
            let settled = f.fix_if_unique();
            let ghost seq_before = grid_seq(*data);
            grid_set(data, r, c, f);
            done = settled && done;
            proof {
                lemma_grid_view_update(seq_before, k, f);
                assert(grid_view(*data)[k] == collapse_cell(n0[k]));
                assert(forall|m: int|
                    0 <= m < 81 && m != k ==> #[trigger] grid_view(*data)[m] == gc[m]);
                assert(grid_wf(grid_view(*data))) by {
                    assert(cell_wf(grid_view(*data)[k]));
                }
                assert(done == (forall|m: int|
                    0 <= m < ri * 9 + ci + 1 ==> (#[trigger] n0[m]).cands.len() <= 1));
            }
            c += 1;
        }
        r += 1;
    }
    proof {
        assert(grid_view(*data) =~= step_grid(g0));
        assert(done == step_done(g0)) by {
            if forall|k: int| 0 <= k < 81 ==> (#[trigger] n0[k]).cands.len() <= 1 {
                assert(step_done(g0));
            }
            if step_done(g0) {
                assert(forall|k: int| 0 <= k < 81 ==> (#[trigger] n0[k]).cands.len() <= 1);
            }
        }
    }
    done
}

/// `lemma_filter_all_kept`, phrased for a named predicate value.
proof fn lemma_filter_all_kept_pred(s: Seq<i32>, p: spec_fn(i32) -> bool)
    requires
        forall|x: i32| #[trigger] p(x),
    ensures
        s.filter(p) == s,
{
    crate::seq_facts::lemma_filter_all_kept(s, p);
}

} // verus!
