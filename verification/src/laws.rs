//! Laws of the solving step, proved over the ghost grid model: narrowing is
//! idempotent, clues never change, candidate sets only shrink, narrowed
//! cells exclude every peer's value, collapse commits the sole candidate,
//! and a step that reports "stable" is a fixed point from then on.

use vstd::prelude::*;

use crate::model::{
    cell_wf, collapse_cell, grid_at, grid_wf, in_grid, is_peer, iterate_grid, lemma_cell_wf_filter,
    lemma_sees_values, narrow_cell, narrow_grid, not_peer_seen, peer_sees, step_done, step_grid,
    CellView,
};
use crate::seq_facts::{
    lemma_filter_congruent, lemma_filter_filter_into, lemma_filter_same_len_id, lemma_filter_sub,
};

verus! {

/// Every cell of the narrowed grid keeps its committed value and clue flag,
/// and the narrowed grid is well formed.
pub proof fn lemma_narrow_wf(g: Seq<CellView>)
    requires
        grid_wf(g),
    ensures
        grid_wf(narrow_grid(g)),
        forall|k: int|
            0 <= k < 81 ==> (#[trigger] narrow_grid(g)[k]).value == g[k].value && narrow_grid(
                g,
            )[k].is_clue == g[k].is_clue,
{
    assert forall|k: int| 0 <= k < 81 implies cell_wf(#[trigger] narrow_grid(g)[k]) && narrow_grid(
        g,
    )[k].value == g[k].value && narrow_grid(g)[k].is_clue == g[k].is_clue by {
        let r = k / 9;
        let c = k % 9;
        assert(cell_idx_inverse(k));
        let cv = grid_at(g, r, c);
        if cv.value is None {
            lemma_cell_wf_filter(cv, not_peer_seen(g, r, c));
        }
    }
}

/// `k / 9` and `k % 9` recover the row and column of position `k`.
pub open spec fn cell_idx_inverse(k: int) -> bool {
    0 <= k < 81 ==> (k / 9) * 9 + (k % 9) == k && 0 <= k / 9 < 9 && 0 <= k % 9 < 9
}

/// One solving step keeps the grid well formed.
pub proof fn lemma_step_wf(g: Seq<CellView>)
    requires
        grid_wf(g),
    ensures
        grid_wf(step_grid(g)),
        forall|k: int| 0 <= k < 81 ==> (#[trigger] step_grid(g)[k]).is_clue == g[k].is_clue,
{
    lemma_narrow_wf(g);
    let n0 = narrow_grid(g);
    assert forall|k: int| 0 <= k < 81 implies cell_wf(#[trigger] step_grid(g)[k]) && step_grid(
        g,
    )[k].is_clue == g[k].is_clue by {
        let cv = n0[k];
        assert(step_grid(g)[k] == collapse_cell(cv));
        if cv.value is None && cv.cands.len() == 1 {
            assert(1 <= cv.cands[0] <= 9);
        }
    }
}

/// Running the narrow phase twice in a row, without an intervening collapse,
/// leaves exactly the candidate sets of a single run: with no new committed
/// values there is nothing further to remove.
pub proof fn lemma_narrow_idempotent(g: Seq<CellView>)
    requires
        grid_wf(g),
    ensures
        narrow_grid(narrow_grid(g)) == narrow_grid(g),
{
    let n1 = narrow_grid(g);
    let n2 = narrow_grid(n1);
    lemma_narrow_wf(g);
    assert forall|k: int| 0 <= k < 81 implies #[trigger] n2[k] == n1[k] by {
        let r = k / 9;
        let c = k % 9;
        assert(cell_idx_inverse(k));
        let cv = grid_at(g, r, c);
        assert(n1[k] == narrow_cell(g, r, c));
        assert(n2[k] == narrow_cell(n1, r, c));
        if cv.value is None {
            lemma_sees_values(n1, g, r, c);
            assert forall|x: i32| #[trigger]
                not_peer_seen(n1, r, c)(x) <==> not_peer_seen(g, r, c)(x) by {
                assert(peer_sees(n1, r, c, x) == peer_sees(g, r, c, x));
            }
            lemma_filter_congruent(n1[k].cands, not_peer_seen(n1, r, c), not_peer_seen(g, r, c));
            assert(forall|x: i32| #[trigger]
                not_peer_seen(g, r, c)(x) <==> (not_peer_seen(g, r, c)(x) && not_peer_seen(
                    g,
                    r,
                    c,
                )(x)));
            lemma_filter_filter_into(
                cv.cands,
                not_peer_seen(g, r, c),
                not_peer_seen(g, r, c),
                not_peer_seen(g, r, c),
            );
            assert(n2[k] =~= n1[k]);
        }
    }
    assert(n2 =~= n1);
}

/// Clue cells are never altered: any number of solving steps keeps their
/// committed value and their clue flag.
pub proof fn lemma_clue_immutable(g: Seq<CellView>, n: nat)
    requires
        grid_wf(g),
    ensures
        grid_wf(iterate_grid(g, n)),
        forall|k: int|
            0 <= k < 81 && g[k].is_clue ==> (#[trigger] iterate_grid(g, n)[k]).value == g[k].value
                && iterate_grid(g, n)[k].is_clue,
    decreases n,
{
    if n > 0 {
        let prev = iterate_grid(g, (n - 1) as nat);
        lemma_clue_immutable(g, (n - 1) as nat);
        lemma_step_wf(prev);
        lemma_narrow_wf(prev);
        assert forall|k: int| 0 <= k < 81 && g[k].is_clue implies (#[trigger] iterate_grid(
            g,
            n,
        )[k]).value == g[k].value && iterate_grid(g, n)[k].is_clue by {
            assert(cell_idx_inverse(k));
            assert(prev[k].is_clue && prev[k].value == g[k].value);
            assert(cell_wf(prev[k]));
            assert(prev[k].value is Some);
            assert(narrow_grid(prev)[k] == prev[k]);
            assert(iterate_grid(g, n)[k] == collapse_cell(prev[k]));
        }
    }
}

/// One solving step never grows a candidate set: every candidate of a cell
/// after the step was a candidate of that cell before it.
pub proof fn lemma_step_monotonic(g: Seq<CellView>)
    requires
        grid_wf(g),
    ensures
        forall|k: int, v: i32|
            0 <= k < 81 && #[trigger] step_grid(g)[k].cands.contains(v) ==> g[k].cands.contains(v),
{
    assert forall|k: int, v: i32|
        0 <= k < 81 && #[trigger] step_grid(g)[k].cands.contains(v) implies g[k].cands.contains(
        v,
    ) by {
        let r = k / 9;
        let c = k % 9;
        assert(cell_idx_inverse(k));
        let cv = grid_at(g, r, c);
        let nc = narrow_cell(g, r, c);
        assert(step_grid(g)[k] == collapse_cell(nc));
        if step_grid(g)[k].cands.contains(v) {
            assert(nc.cands.contains(v));
            if cv.value is None {
                lemma_filter_sub(cv.cands, not_peer_seen(g, r, c));
                let i = choose|i: int| 0 <= i < nc.cands.len() && nc.cands[i] == v;
                assert(cv.cands.contains(nc.cands[i]));
            }
        }
    }
}

/// Peer exclusion: after the narrow phase, no open cell still holds a
/// candidate equal to the committed value of one of its row, column or
/// block peers.
pub proof fn lemma_peer_exclusion(g: Seq<CellView>)
    requires
        grid_wf(g),
    ensures
        forall|r: int, c: int, i: int, j: int, v: i32|
            in_grid(r, c) && in_grid(i, j) && is_peer(r, c, i, j) && (#[trigger] grid_at(
                g,
                i,
                j,
            )).value == Some(v) && narrow_cell(g, r, c).value is None ==> !(#[trigger] narrow_cell(
                g,
                r,
                c,
            ).cands.contains(v)),
{
    assert forall|r: int, c: int, i: int, j: int, v: i32|
        in_grid(r, c) && in_grid(i, j) && is_peer(r, c, i, j) && (#[trigger] grid_at(
            g,
            i,
            j,
        )).value == Some(v) && narrow_cell(g, r, c).value is None implies !(#[trigger] narrow_cell(
        g,
        r,
        c,
    ).cands.contains(v)) by {
        let cv = grid_at(g, r, c);
        let nc = narrow_cell(g, r, c);
        assert(peer_sees(g, r, c, v));
        if nc.cands.contains(v) {
            lemma_filter_sub(cv.cands, not_peer_seen(g, r, c));
            let ix = choose|ix: int| 0 <= ix < nc.cands.len() && nc.cands[ix] == v;
            assert(not_peer_seen(g, r, c)(nc.cands[ix]));
        }
    }
}

/// Collapse correctness: a cell that goes into the collapse phase with
/// exactly one candidate comes out with that candidate as its committed
/// value and an empty candidate set.
pub proof fn lemma_collapse_correct(cv: CellView)
    requires
        cv.value is None,
        cv.cands.len() == 1,
    ensures
        collapse_cell(cv).value == Some(cv.cands[0]),
        collapse_cell(cv).cands.len() == 0,
        collapse_cell(cv).is_clue == cv.is_clue,
{
}

/// A grid whose cells all have empty candidate sets is a fixed point: a
/// step changes nothing and reports "stable".
pub proof fn lemma_empty_cands_fixpoint(g: Seq<CellView>)
    requires
        grid_wf(g),
        forall|k: int| 0 <= k < 81 ==> (#[trigger] g[k]).cands.len() == 0,
    ensures
        step_grid(g) == g,
        step_done(g),
{
    broadcast use vstd::seq_lib::group_filter_ensures;

    assert forall|k: int| 0 <= k < 81 implies #[trigger] narrow_grid(g)[k] == g[k] by {
        let r = k / 9;
        let c = k % 9;
        assert(cell_idx_inverse(k));
        let cv = grid_at(g, r, c);
        if cv.value is None {
            assert(cv.cands.filter(not_peer_seen(g, r, c)).len() <= cv.cands.len());
            assert(cv.cands.filter(not_peer_seen(g, r, c)) =~= cv.cands);
            assert(narrow_cell(g, r, c) =~= cv);
        }
    }
    assert forall|k: int| 0 <= k < 81 implies #[trigger] step_grid(g)[k] == g[k] by {
        assert(narrow_grid(g)[k] == g[k]);
    }
    assert(step_grid(g) =~= g);
}

/// After a step that reports "stable", every candidate set is empty.
pub proof fn lemma_done_step_empties(g: Seq<CellView>)
    requires
        grid_wf(g),
        step_done(g),
    ensures
        forall|k: int| 0 <= k < 81 ==> (#[trigger] step_grid(g)[k]).cands.len() == 0,
{
    lemma_narrow_wf(g);
    let n0 = narrow_grid(g);
    assert forall|k: int| 0 <= k < 81 implies (#[trigger] step_grid(g)[k]).cands.len() == 0 by {
        assert(step_grid(g)[k] == collapse_cell(n0[k]));
        assert(n0[k].cands.len() <= 1);
        assert(cell_wf(n0[k]));
        if n0[k].cands.len() == 1 {
            assert(n0[k].value is None);
        }
    }
}

/// Stability is absorbing: once a step reports "stable", the grid it leaves
/// is unchanged by every later step, and every later step reports "stable"
/// again.
pub proof fn lemma_stable_absorbing(g: Seq<CellView>, n: nat)
    requires
        grid_wf(g),
        step_done(g),
    ensures
        step_done(step_grid(g)),
        iterate_grid(step_grid(g), n) == step_grid(g),
    decreases n,
{
    let h = step_grid(g);
    lemma_step_wf(g);
    lemma_done_step_empties(g);
    lemma_empty_cands_fixpoint(h);
    if n > 0 {
        lemma_stable_absorbing(g, (n - 1) as nat);
        assert(iterate_grid(h, n) == step_grid(iterate_grid(h, (n - 1) as nat)));
    }
}

/// The number of candidates among the first `n` cells of the grid.
pub open spec fn cand_count_upto(g: Seq<CellView>, n: int) -> int
    decreases n,
{
    if n <= 0 {
        0
    } else {
        cand_count_upto(g, n - 1) + g[n - 1].cands.len()
    }
}

/// The total number of candidates in the grid; at most 729 when well
/// formed.
pub open spec fn cand_count(g: Seq<CellView>) -> int {
    cand_count_upto(g, 81)
}

proof fn lemma_count_nonneg(g: Seq<CellView>, n: int)
    ensures
        cand_count_upto(g, n) >= 0,
    decreases n,
{
    if n > 0 {
        lemma_count_nonneg(g, n - 1);
    }
}

proof fn lemma_count_le(g1: Seq<CellView>, g2: Seq<CellView>, n: int)
    requires
        forall|k: int| 0 <= k < n ==> (#[trigger] g1[k]).cands.len() <= g2[k].cands.len(),
    ensures
        cand_count_upto(g1, n) <= cand_count_upto(g2, n),
    decreases n,
{
    if n > 0 {
        lemma_count_le(g1, g2, n - 1);
    }
}

proof fn lemma_count_lt(g1: Seq<CellView>, g2: Seq<CellView>, n: int, j: int)
    requires
        0 <= j < n,
        forall|k: int| 0 <= k < n ==> (#[trigger] g1[k]).cands.len() <= g2[k].cands.len(),
        g1[j].cands.len() < g2[j].cands.len(),
    ensures
        cand_count_upto(g1, n) < cand_count_upto(g2, n),
    decreases n,
{
    if j == n - 1 {
        lemma_count_le(g1, g2, n - 1);
    } else {
        lemma_count_lt(g1, g2, n - 1, j);
    }
}

/// A well-formed cell has at most nine candidates: they are distinct
/// digits 1..=9.
pub proof fn lemma_cell_cands_bound(cv: CellView)
    requires
        cell_wf(cv),
    ensures
        cv.cands.len() <= 9,
{
    broadcast use vstd::set::group_set_axioms;

    let s = cv.cands;
    s.unique_seq_to_set();
    let digits: Set<i32> = set![1i32, 2i32, 3i32, 4i32, 5i32, 6i32, 7i32, 8i32, 9i32];
    assert forall|x: i32| s.to_set().contains(x) implies digits.contains(x) by {
        assert(s.contains(x));
        let i = choose|i: int| 0 <= i < s.len() && s[i] == x;
        assert(1 <= x <= 9);
    }
    assert(digits.finite());
    assert(digits.len() <= 9);
    vstd::set_lib::lemma_len_subset(s.to_set(), digits);
}

proof fn lemma_count_bound(g: Seq<CellView>, n: int)
    requires
        0 <= n <= 81,
        grid_wf(g),
    ensures
        cand_count_upto(g, n) <= 9 * n,
    decreases n,
{
    if n > 0 {
        lemma_count_bound(g, n - 1);
        lemma_cell_cands_bound(g[n - 1]);
    }
}

/// One solving step either leaves the grid exactly as it is, or strictly
/// decreases the total number of candidates.
pub proof fn lemma_step_progress(g: Seq<CellView>)
    requires
        grid_wf(g),
    ensures
        step_grid(g) == g || cand_count(step_grid(g)) < cand_count(g),
{
    broadcast use Seq::<_>::lemma_filter_len;

    lemma_narrow_wf(g);
    let h = step_grid(g);
    assert forall|k: int| 0 <= k < 81 implies (#[trigger] h[k]).cands.len()
        <= g[k].cands.len() by {
        assert(cell_idx_inverse(k));
        let cv = grid_at(g, k / 9, k % 9);
        let nc = narrow_grid(g)[k];
        if cv.value is None {
            assert(nc.cands.len() <= cv.cands.len());
        }
    }
    if h != g {
        assert(exists|k: int| 0 <= k < 81 && h[k] != g[k]) by {
            if forall|k: int| 0 <= k < 81 ==> #[trigger] h[k] == g[k] {
                assert(h =~= g);
            }
        }
        let k = choose|k: int| 0 <= k < 81 && h[k] != g[k];
        assert(cell_idx_inverse(k));
        let cv = grid_at(g, k / 9, k % 9);
        let nc = narrow_grid(g)[k];
        assert(h[k] == collapse_cell(nc));
        if nc == g[k] {
            assert(nc.value is None && nc.cands.len() == 1);
            assert(h[k].cands.len() == 0);
        } else {
            assert(cv.value is None);
            if nc.cands.len() == cv.cands.len() {
                lemma_filter_same_len_id(cv.cands, not_peer_seen(g, k / 9, k % 9));
                assert(nc =~= cv);
                assert(false);
            }
            assert(h[k].cands.len() <= nc.cands.len() < cv.cands.len());
        }
        lemma_count_lt(h, g, 81, k);
    }
}

proof fn lemma_iterate_fixpoint(g: Seq<CellView>, n: nat)
    requires
        step_grid(g) == g,
    ensures
        iterate_grid(g, n) == g,
    decreases n,
{
    if n > 0 {
        lemma_iterate_fixpoint(g, (n - 1) as nat);
    }
}

proof fn lemma_iterate_front(g: Seq<CellView>, n: nat)
    requires
        n >= 1,
    ensures
        iterate_grid(g, n) == iterate_grid(step_grid(g), (n - 1) as nat),
    decreases n,
{
    if n == 1 {
        assert(iterate_grid(g, 1) == step_grid(iterate_grid(g, 0)));
        assert(iterate_grid(g, 0) == g);
        assert(iterate_grid(step_grid(g), 0) == step_grid(g));
    } else {
        lemma_iterate_front(g, (n - 1) as nat);
        assert(iterate_grid(g, n) == step_grid(iterate_grid(g, (n - 1) as nat)));
        assert(iterate_grid(step_grid(g), (n - 1) as nat) == step_grid(
            iterate_grid(step_grid(g), (n - 2) as nat),
        ));
    }
}

proof fn lemma_fixpoint_within(g: Seq<CellView>, n: nat)
    requires
        grid_wf(g),
        cand_count(g) < n,
    ensures
        step_grid(iterate_grid(g, n)) == iterate_grid(g, n),
    decreases n,
{
    lemma_step_progress(g);
    lemma_count_nonneg(g, 81);
    if step_grid(g) == g {
        lemma_iterate_fixpoint(g, n);
    } else {
        lemma_step_wf(g);
        lemma_iterate_front(g, n);
        lemma_fixpoint_within(step_grid(g), (n - 1) as nat);
    }
}

/// Repeated stepping reaches a fixed point of the grid state within 730
/// steps: a step that changes anything removes at least one candidate, and
/// a well-formed grid holds at most 729. The step's report can stay false
/// at that fixed point — a grid whose open cells keep two or more
/// candidates is never reported "stable" — so this is the bound that holds
/// of every grid.
pub proof fn lemma_reaches_fixed_point(g: Seq<CellView>)
    requires
        grid_wf(g),
    ensures
        step_grid(iterate_grid(g, 730)) == iterate_grid(g, 730),
{
    lemma_count_bound(g, 81);
    lemma_fixpoint_within(g, 730);
}

proof fn lemma_iterate_constant_after(g: Seq<CellView>, n: nat)
    requires
        step_grid(iterate_grid(g, 730)) == iterate_grid(g, 730),
        n >= 730,
    ensures
        iterate_grid(g, n) == iterate_grid(g, 730),
    decreases n,
{
    if n > 730 {
        lemma_iterate_constant_after(g, (n - 1) as nat);
        assert(iterate_grid(g, n) == step_grid(iterate_grid(g, (n - 1) as nat)));
    }
}

/// A grid that ever reports "stable" has done so by the step taken from
/// the 730th state: past the fixed point the grid no longer changes, so a
/// report that would ever come has come by then.
pub proof fn lemma_stable_comes_early_or_never(g: Seq<CellView>, n: nat)
    requires
        grid_wf(g),
        step_done(iterate_grid(g, n)),
    ensures
        step_done(iterate_grid(g, 730)),
{
    if n > 730 {
        lemma_reaches_fixed_point(g);
        lemma_iterate_constant_after(g, n);
    } else {
        // The report is absorbing: once some step reports "stable", every
        // later step does too, so it still holds at step 730.
        lemma_stable_stays(g, n, (730 - n) as nat);
    }
}

proof fn lemma_stable_stays(g: Seq<CellView>, n: nat, m: nat)
    requires
        grid_wf(g),
        step_done(iterate_grid(g, n)),
    ensures
        step_done(iterate_grid(g, (n + m) as nat)),
    decreases m,
{
    if m > 0 {
        lemma_stable_stays(g, n, (m - 1) as nat);
        let prev = iterate_grid(g, (n + m - 1) as nat);
        lemma_iterate_wf(g, (n + m - 1) as nat);
        lemma_stable_absorbing(prev, 0);
        assert(iterate_grid(g, (n + m) as nat) == step_grid(prev));
        assert(iterate_grid(step_grid(prev), 0) == step_grid(prev));
    }
}

proof fn lemma_iterate_wf(g: Seq<CellView>, n: nat)
    requires
        grid_wf(g),
    ensures
        grid_wf(iterate_grid(g, n)),
    decreases n,
{
    if n > 0 {
        lemma_iterate_wf(g, (n - 1) as nat);
        lemma_step_wf(iterate_grid(g, (n - 1) as nat));
    }
}

} // verus!
