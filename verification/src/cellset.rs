//! A set of grid cells, held as one flag per cell.

use vstd::prelude::*;
use crate::grid::{cells_of, inside, lemma_cell_subset_count, Pos};

verus! {

/// A set of cells of a fixed grid.
#[derive(Clone, Debug)]
pub struct CellSet {
    pub flags: Vec<Vec<bool>>,
}

impl View for CellSet {
    type V = Set<Pos>;

    /// The cells whose flag is set.
    open spec fn view(&self) -> Set<Pos> {
        Set::new(
            |p: Pos|
                inside(self.height(), self.width(), p) && self.flags@[p.y as int]@[p.x as int],
        )
    }
}

impl CellSet {
    /// Number of rows of the grid.
    pub open spec fn height(self) -> int {
        self.flags@.len() as int
    }

    /// Number of columns of the grid.
    pub open spec fn width(self) -> int {
        if self.flags@.len() > 0 {
            self.flags@[0]@.len() as int
        } else {
            0
        }
    }

    /// The flags form a non-empty rectangle.
    pub open spec fn wf(self) -> bool {
        &&& 1 <= self.height() <= usize::MAX
        &&& 1 <= self.width() <= usize::MAX
        &&& forall|y: int| 0 <= y < self.height() ==> (#[trigger] self.flags@[y])@.len()
            == self.width()
    }

    /// The set is finite and no larger than its grid.
    pub proof fn lemma_bounded(self)
        requires
            self.wf(),
        ensures
            self@.finite(),
            self@.len() <= self.height() * self.width(),
            self@.subset_of(cells_of(self.height(), self.width())),
            self@.len() == self.height() * self.width() ==> self@ == cells_of(
                self.height(),
                self.width(),
            ),
    {
        lemma_cell_subset_count(self.height(), self.width(), self@);
    }

    /// The empty set over a `rows` x `cols` grid.
    pub fn new(rows: usize, cols: usize) -> (s: CellSet)
        requires
            rows >= 1,
            cols >= 1,
        ensures
            s.wf(),
            s.height() == rows,
            s.width() == cols,
            s@ == Set::<Pos>::empty(),
    {
        let mut row: Vec<bool> = Vec::new();
        while row.len() < cols
            invariant
                row@.len() <= cols,
                forall|x: int| 0 <= x < row@.len() ==> !row@[x],
            decreases cols - row@.len(),
        {
            row.push(false);
        }
        let mut flags: Vec<Vec<bool>> = Vec::new();
        while flags.len() < rows
            invariant
                flags@.len() <= rows,
                row@.len() == cols,
                forall|x: int| 0 <= x < row@.len() ==> !row@[x],
                forall|y: int| 0 <= y < flags@.len() ==> (#[trigger] flags@[y])@ == row@,
            decreases rows - flags@.len(),
        {
            flags.push(row.clone());
        }
        let s = CellSet { flags };
        assert(s@ =~= Set::<Pos>::empty());
        s
    }

    /// Whether `p` is in the set. A cell outside the grid never is.
    pub fn contains(&self, p: Pos) -> (r: bool)
        requires
            self.wf(),
        ensures
            r == self@.contains(p),
    {
        p.y < self.flags.len() && p.x < self.flags[p.y].len() && self.flags[p.y][p.x]
    }

    /// Adds the cell `p` of the grid to the set.
    pub fn insert(&mut self, p: Pos)
        requires
            old(self).wf(),
            inside(old(self).height(), old(self).width(), p),
        ensures
            final(self).wf(),
            final(self).height() == old(self).height(),
            final(self).width() == old(self).width(),
            final(self)@ == old(self)@.insert(p),
    {
        self.flags[p.y][p.x] = true;
        assert(self@ =~= old(self)@.insert(p));
    }
}

} // verus!
