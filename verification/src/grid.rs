//! The 9x9 grid of `Field`s, held in an `array2d::Array2D`.
//!
//! The array type is opaque to the verifier, so its contents get a name,
//! `grid_seq`, and each array2d operation the solver uses is wrapped in a
//! trusted function whose contract states, over that name, what the crate's
//! source shows: row-major storage, reads and writes at `row * 9 + column`.
//! Everything else in this module is verified against those contracts.

use vstd::prelude::*;

use array2d::Array2D;

use crate::cell::Field;
use crate::model::{dead_cell, grid_at, grid_wf, CellView};

verus! {

#[verifier::external_type_specification]
#[verifier::external_body]
#[verifier::reject_recursive_types(T)]
pub struct ExArray2D<T>(Array2D<T>);

/// The cells an `Array2D<Field>` holds, in row-major order.
pub uninterp spec fn grid_seq(a: Array2D<Field>) -> Seq<Field>;

/// The array was created with nine rows and nine columns.
pub uninterp spec fn grid_is_9x9(a: Array2D<Field>) -> bool;

/// Ghost view of the grid: the row-major sequence of cell views.
pub open spec fn grid_view(a: Array2D<Field>) -> Seq<CellView> {
    grid_seq(a).map_values(|f: Field| f@)
}

/// A grid the solver can work on: nine by nine, holding 81 well-formed
/// cells.
pub open spec fn grid_ok(a: Array2D<Field>) -> bool {
    &&& grid_is_9x9(a)
    &&& grid_seq(a).len() == 81
    &&& grid_wf(grid_view(a))
}

/// Relies on array2d::Array2D::filled_with, which builds a num_rows by
/// num_columns array (here nine by nine) whose elements are clones of the
/// given one, stored row-major; `Field`'s derived clone rebuilds the same
/// committed value, clue flag and candidate vector.
#[verifier::external_body]
pub(crate) fn grid_filled(f: Field) -> (r: Array2D<Field>)
    ensures
        grid_is_9x9(r),
        grid_seq(r).len() == 81,
        forall|k: int| 0 <= k < 81 ==> (#[trigger] grid_seq(r)[k])@ == f@,
{
    Array2D::filled_with(f, 9, 9)
}

/// Relies on array2d::Array2D::get, which returns a reference to the element
/// stored at row-major position `row * 9 + column`, `Some` exactly when both
/// indices are in range.
#[verifier::external_body]
pub(crate) fn grid_get<'a>(a: &'a Array2D<Field>, r: usize, c: usize) -> (f: &'a Field)
    requires
        grid_is_9x9(*a),
        r < 9,
        c < 9,
    ensures
        *f == grid_seq(*a)[r as int * 9 + c as int],
{
    a.get(r, c).unwrap()
}

/// Relies on array2d's `IndexMut` for `(usize, usize)`, which stores the
/// given element at row-major position `row * 9 + column` and leaves every
/// other element and the dimensions alone; it panics only when an index is
/// out of range, which the precondition rules out.
#[verifier::external_body]
pub(crate) fn grid_set(a: &mut Array2D<Field>, r: usize, c: usize, f: Field)
    requires
        grid_is_9x9(*old(a)),
        r < 9,
        c < 9,
    ensures
        grid_is_9x9(*final(a)),
        grid_seq(*final(a)) == grid_seq(*old(a)).update(r as int * 9 + c as int, f),
{
    a[(r, c)] = f;
}

/// Writing one `Field` moves the grid view to the written cell's view.
pub proof fn lemma_grid_view_update(s: Seq<Field>, k: int, f: Field)
    requires
        0 <= k < s.len(),
    ensures
        s.update(k, f).map_values(|x: Field| x@) == s.map_values(|x: Field| x@).update(k, f@),
{
    assert(s.update(k, f).map_values(|x: Field| x@) =~= s.map_values(|x: Field| x@).update(
        k,
        f@,
    ));
}

/// The committed value at (r, c), or `None` while the cell is open.
pub fn value_at(data: &Array2D<Field>, r: usize, c: usize) -> (v: Option<i32>)
    requires
        grid_ok(*data),
        r < 9,
        c < 9,
    ensures
        v == grid_at(grid_view(*data), r as int, c as int).value,
{
    grid_get(data, r, c).value
}

/// Whether the cell at (r, c) was given by the original puzzle.
pub fn is_clue_at(data: &Array2D<Field>, r: usize, c: usize) -> (b: bool)
    requires
        grid_ok(*data),
        r < 9,
        c < 9,
    ensures
        b == grid_at(grid_view(*data), r as int, c as int).is_clue,
{
    grid_get(data, r, c).is_original
}

/// True when some open cell has no candidate left: the puzzle cannot be
/// completed from this state, and further steps will not resolve it.
pub fn has_contradiction(data: &Array2D<Field>) -> (b: bool)
    requires
        grid_ok(*data),
    ensures
        b == exists|k: int| 0 <= k < 81 && dead_cell(#[trigger] grid_view(*data)[k]),
{
    let mut k: usize = 0;
    while k < 81
        invariant
            grid_ok(*data),
            k <= 81,
            forall|m: int| 0 <= m < k ==> !dead_cell(#[trigger] grid_view(*data)[m]),
        decreases 81 - k,
    {
        let f = grid_get(data, k / 9, k % 9);
        if f.value.is_none() && f.options.len() == 0 {
            proof {
                assert((k / 9) as int * 9 + (k % 9) as int == k as int);
                assert(dead_cell(grid_view(*data)[k as int]));
            }
            return true;
        }
        proof {
            assert((k / 9) as int * 9 + (k % 9) as int == k as int);
        }
        k += 1;
    }
    false
}

} // verus!
