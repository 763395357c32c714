//! One position of the puzzle grid: the committed digit, whether it was a
//! given clue, and the list of digits not yet ruled out.

use vstd::prelude::*;

use crate::model::{cell_wf, clue_cell, collapse_cell, lemma_cell_wf_filter, open_cell, CellView};
use crate::seq_facts::{lemma_filter_all_kept, lemma_remove_once_is_filter, ne_pred};

verus! {

/// One grid position. `options` is the candidate list; it is kept free of
/// duplicates and is meaningful only while `value` is `None`.
#[derive(Debug, Clone)]
pub struct Field {
    pub value: Option<i32>,
    pub is_original: bool,
    pub options: Vec<i32>,
}

impl View for Field {
    type V = CellView;

    open spec fn view(&self) -> CellView {
        CellView { value: self.value, is_clue: self.is_original, cands: self.options@ }
    }
}

impl Field {
    /// The cell is well formed as a `CellView`.
    pub open spec fn wf(self) -> bool {
        cell_wf(self@)
    }

    /// A clue cell: the digit is committed from the start and the candidate
    /// list is empty.
    pub fn fixed(value: i32) -> (r: Field)
        requires
            1 <= value <= 9,
        ensures
            r@ == clue_cell(value),
            r.wf(),
    {
        let r = Field { value: Some(value), is_original: true, options: Vec::new() };
        proof {
            assert(r@ =~= clue_cell(value));
        }
        r
    }

    /// Drop `val` from the candidate list; dropping an absent value changes
    /// nothing. The committed value and the clue flag are untouched.
    pub fn remove(&mut self, val: i32)
        requires
            old(self).options@.no_duplicates(),
        ensures
            final(self).value == old(self).value,
            final(self).is_original == old(self).is_original,
            final(self).options@ == old(self).options@.filter(ne_pred(val)),
            old(self).wf() ==> final(self).wf(),
    {
        let n = self.options.len();
        let mut i: usize = 0;
        while i < n
            invariant
                n == self.options@.len(),
                i <= n,
                *self == *old(self),
                old(self).options@.no_duplicates(),
                forall|j: int| 0 <= j < i ==> old(self).options@[j] != val,
            decreases n - i,
        {
            if self.options[i] == val {
                proof {
                    assert forall|j: int|
                        0 <= j < old(self).options@.len() && j != i implies old(
                        self,
                    ).options@[j] != val by {
                        assert(old(self).options@[j] != old(self).options@[i as int]);
                    }
                }
                self.options.remove(i);
                proof {
                    lemma_remove_once_is_filter(old(self).options@, i as int, val);
                    if old(self).wf() {
                        lemma_cell_wf_filter(old(self)@, ne_pred(val));
                        assert(final(self)@ =~= CellView {
                            value: old(self)@.value,
                            is_clue: old(self)@.is_clue,
                            cands: old(self)@.cands.filter(ne_pred(val)),
                        });
                    }
                }
                return ;
            }
            i += 1;
        }
        proof {
            assert forall|j: int| 0 <= j < self.options@.len() implies ne_pred(val)(
                #[trigger] self.options@[j],
            ) by {}
            lemma_filter_all_kept(old(self).options@, ne_pred(val));
        }
    }

    /// Commit `val` and clear the candidate list.
    pub fn fix(&mut self, val: i32)
        requires
            1 <= val <= 9,
        ensures
            final(self).value == Some(val),
            final(self).is_original == old(self).is_original,
            final(self).options@ == Seq::<i32>::empty(),
            final(self).wf(),
    {
        self.value = Some(val);
        self.options.clear();
    }

    /// The collapse step at one cell: a single remaining candidate is
    /// committed; otherwise nothing changes. Reports whether this cell is
    /// settled, i.e. went in with at most one candidate.
    pub fn fix_if_unique(&mut self) -> (r: bool)
        requires
            old(self).wf(),
        ensures
            final(self).wf(),
            r == (old(self).options@.len() <= 1),
            final(self)@ == collapse_cell(old(self)@),
    {
        if self.options.len() == 1 {
            let v = self.options[0];
            self.fix(v);
            proof {
                assert(old(self)@.value is None);
                assert(final(self)@ =~= collapse_cell(old(self)@));
            }
            return true;
        } else {
            return self.options.len() == 0;
        }
    }

    /// An equal cell, rebuilt field by field.
    pub fn duplicate(&self) -> (r: Field)
        ensures
            r@ == self@,
            r.options@ == self.options@,
    {
        let mut options: Vec<i32> = Vec::new();
        let mut i: usize = 0;
        while i < self.options.len()
            invariant
                i <= self.options@.len(),
                options@ == self.options@.subrange(0, i as int),
            decreases self.options@.len() - i,
        {
            options.push(self.options[i]);
            proof {
                assert(options@ =~= self.options@.subrange(0, i + 1));
            }
            i += 1;
        }
        proof {
            assert(options@ =~= self.options@);
        }
        let r = Field { value: self.value, is_original: self.is_original, options };
        proof {
            assert(r@ =~= self@);
        }
        r
    }
}

impl Default for Field {
    /// An open cell: no value, not a clue, all nine digits possible.
    fn default() -> (r: Field)
        ensures
            r@ == open_cell(),
            r.wf(),
    {
        let mut options: Vec<i32> = Vec::new();
        options.push(1);
        options.push(2);
        options.push(3);
        options.push(4);
        options.push(5);
        options.push(6);
        options.push(7);
        options.push(8);
        options.push(9);
        let r = Field { value: None, is_original: false, options };
        proof {
            assert(r@.cands =~= open_cell().cands);
            assert(r@ =~= open_cell());
        }
        r
    }
}

} // verus!
