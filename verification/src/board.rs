//! The record external persistence keeps for one run: the grid size, the
//! initial living cells, the detected period when there was one, and how
//! many generations the run was driven.

use crate::cells::Cells;
use vstd::prelude::*;

verus! {

/// One persisted run description.
pub struct Board {
    pub size: u32,
    pub cells: Vec<(u32, u32)>,
    pub period: Option<usize>,
    pub iterations: usize,
}

impl Board {
    /// A fresh grid re-seeded from this record's initial cells.
    pub fn seed_grid(&self) -> (r: Cells)
        ensures
            r.wf(),
            r@ == self.cells@.to_set(),
            r.spec_size() == self.size,
    {
        let mut grid = Cells::new(self.size);
        grid.birth_multiple(self.cells.as_slice());
        proof {
            assert(grid@ =~= self.cells@.to_set());
        }
        grid
    }
}

} // verus!
