//! One cell of the grid: a final value, or the values still possible.

use vstd::prelude::*;

use bit_set::BitSet;

use crate::candidates::{
    bits, set_clear, set_clone, set_first, set_insert, set_len, set_remove, set_with_capacity,
};

verus! {

/// The number of cells in a row, a column or a block, and of values.
pub const GROUP_SIZE: usize = 9;

/// The values a cell may hold: `0..GROUP_SIZE`.
pub open spec fn all_values() -> Set<usize> {
    Set::new(|v: usize| v < GROUP_SIZE)
}

pub proof fn lemma_all_values_finite()
    ensures
        all_values().finite(),
        all_values().len() == GROUP_SIZE,
{
    assert(all_values() =~= set![0usize, 1, 2, 3, 4, 5, 6, 7, 8]);
}

/// A finite set with one element is that element alone.
pub proof fn lemma_single(s: Set<usize>, a: usize)
    requires
        s.finite(),
        s.len() == 1,
        s.contains(a),
    ensures
        s == set![a],
        s.choose() == a,
{
    assert(s.remove(a).len() == 0);
    assert(s.remove(a) =~= Set::<usize>::empty());
    assert(s =~= set![a]);
    assert(s.contains(s.choose()));
}

/// What a cell holds.
pub struct CellView {
    pub resolved: Option<usize>,
    pub possible: Set<usize>,
}

impl CellView {
    /// A cell before anything is known of it.
    pub open spec fn fresh() -> CellView {
        CellView { resolved: None, possible: all_values() }
    }

    /// A cell finalized to `v`.
    pub open spec fn fixed(v: usize) -> CellView {
        CellView { resolved: Some(v), possible: set![v] }
    }

    pub open spec fn is_final(self) -> bool {
        self.resolved.is_some()
    }

    /// Every value the cell speaks of lies in `0..GROUP_SIZE`.
    pub open spec fn wf(self) -> bool {
        &&& self.possible.subset_of(all_values())
        &&& (self.resolved matches Some(v) ==> v < GROUP_SIZE)
    }

    /// The value an open cell is left with when one candidate remains.
    pub open spec fn single(self) -> Option<usize> {
        if self.resolved.is_none() && self.possible.len() == 1 {
            Some(self.possible.choose())
        } else {
            None
        }
    }

    /// The cell with `v` no longer possible.
    pub open spec fn without(self, v: usize) -> CellView {
        CellView { resolved: self.resolved, possible: self.possible.remove(v) }
    }
}

pub proof fn lemma_wf_finite(c: CellView)
    requires
        c.wf(),
    ensures
        c.possible.finite(),
        c.possible.len() <= GROUP_SIZE,
{
    lemma_all_values_finite();
    vstd::set_lib::lemma_len_subset(c.possible, all_values());
}

/// Represents a cell in a sudoku puzzle.
#[derive(Debug)]
pub struct Element {
    resolved: Option<usize>,
    possible: BitSet,
}

impl View for Element {
    type V = CellView;

    closed spec fn view(&self) -> CellView {
        CellView { resolved: self.resolved, possible: bits(self.possible) }
    }
}

impl Element {
    /// Fix the cell to `val`: it is final, and `val` is its only candidate.
    pub fn finalize(&mut self, val: usize)
        requires
            val < GROUP_SIZE,
        ensures
            final(self)@ == CellView::fixed(val),
    {
        self.resolved = Some(val);
        set_clear(&mut self.possible);
        set_insert(&mut self.possible, val);
        assert(Set::<usize>::empty().insert(val) =~= set![val]);
    }

    /// Whether the cell has a final value.
    pub fn is_finalized(&self) -> (r: bool)
        ensures
            r == self@.is_final(),
    {
        self.resolved.is_some()
    }

    /// The final value, if the cell has one.
    pub fn value(&self) -> (r: Option<usize>)
        ensures
            r == self@.resolved,
    {
        self.resolved
    }

    /// Drop `val` from the candidates.
    pub fn remove(&mut self, val: usize)
        ensures
            final(self)@ == old(self)@.without(val),
    {
        set_remove(&mut self.possible, val);
    }

    /// A copy of the candidates.
    pub fn possible(&self) -> (r: BitSet)
        ensures
            bits(r) == self@.possible,
    {
        set_clone(&self.possible)
    }

    /// The final value the cell is left with, when it is still open and one
    /// candidate remains.
    pub fn ready(&self) -> (r: Option<usize>)
        requires
            self@.wf(),
        ensures
            r == self@.single(),
    {
        match self.resolved {
            Some(_) => None,
            None => {
                if set_len(&self.possible) == 1 {
                    let first = set_first(&self.possible);
                    match first {
                        Some(v) => {
                            proof {
                                lemma_wf_finite(self@);
                                lemma_single(self@.possible, v);
                            }
                            Some(v)
                        },
                        None => None,
                    }
                } else {
                    None
                }
            },
        }
    }
}

impl Default for Element {
    fn default() -> (r: Self)
        ensures
            r@ == CellView::fresh(),
    {
        let mut possible = set_with_capacity(GROUP_SIZE);
        let mut i: usize = 0;
        while i < GROUP_SIZE
            invariant
                i <= GROUP_SIZE,
                bits(possible) == Set::new(|v: usize| v < i),
            decreases GROUP_SIZE - i,
        {
            set_insert(&mut possible, i);
            assert(Set::new(|v: usize| v < i).insert(i) =~= Set::new(|v: usize| v < i + 1));
            i += 1;
        }
        Element { resolved: None, possible }
    }
}

} // verus!
