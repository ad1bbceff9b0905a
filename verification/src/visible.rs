use vstd::prelude::*;

use crate::types::Coord;

verus! {

/// A set of map cells, kept as a list without repeats in insertion order.
pub struct VisibleSet {
    cells: Vec<Coord>,
}

impl VisibleSet {
    /// The cells, in the order they were first inserted.
    pub closed spec fn cells_view(&self) -> Seq<Coord> {
        self.cells@
    }

    /// The set of cells held.
    pub open spec fn set_view(&self) -> Set<Coord> {
        self.cells_view().to_set()
    }

    /// No cell is listed twice.
    pub open spec fn wf(&self) -> bool {
        self.cells_view().no_duplicates()
    }

    pub fn new() -> (r: Self)
        ensures
            r.wf(),
            r.cells_view() == Seq::<Coord>::empty(),
    {
        VisibleSet { cells: Vec::new() }
    }

    /// Empty the set.
    pub fn clear(&mut self)
        ensures
            final(self).wf(),
            final(self).cells_view() == Seq::<Coord>::empty(),
    {
        self.cells.clear();
    }

    pub fn contains(&self, c: &Coord) -> (r: bool)
        ensures
            r == self.cells_view().contains(*c),
    {
        let mut i: usize = 0;
        while i < self.cells.len()
            invariant
                i <= self.cells@.len(),
                forall|j: int| 0 <= j < i ==> self.cells@[j] != *c,
            decreases self.cells@.len() - i,
        {
            if self.cells[i] == *c {
                return true;
            }
            i = i + 1;
        }
        false
    }

    /// Add a cell; true when it was not there yet.
    pub fn insert(&mut self, c: Coord) -> (r: bool)
        requires
            old(self).wf(),
        ensures
            final(self).wf(),
            r == !old(self).cells_view().contains(c),
            final(self).cells_view() == (if r {
                old(self).cells_view().push(c)
            } else {
                old(self).cells_view()
            }),
    {
        if self.contains(&c) {
            false
        } else {
            self.cells.push(c);
            proof {
                let s = old(self).cells@;
                assert forall|i: int, j: int|
                    0 <= i < self.cells@.len() && 0 <= j < self.cells@.len() && i != j implies self.cells@[i]
                    != self.cells@[j] by {
                    if i == s.len() as int {
                        assert(!s.contains(c));
                        assert(self.cells@[j] == s[j]);
                    } else if j == s.len() as int {
                        assert(!s.contains(c));
                        assert(self.cells@[i] == s[i]);
                    }
                }
            }
            true
        }
    }

    pub fn len(&self) -> (r: usize)
        ensures
            r == self.cells_view().len(),
    {
        self.cells.len()
    }

    /// The cells, in the order they were first inserted.
    pub fn cells(&self) -> (r: &[Coord])
        ensures
            r@ == self.cells_view(),
    {
        self.cells.as_slice()
    }
}

} // verus!
