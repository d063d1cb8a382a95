//! Counting: how many edges of a maze are open, and how many cells a set
//! holds.

use vstd::prelude::*;
use crate::cellset::CellSet;
use crate::graph::{before, Graph};
use crate::grid::{adjacent, Pos};
use crate::maze::Cells;
use crate::shore::scanned;

verus! {

/// The open edges whose smaller end comes before column `x` of row `y`.
pub open spec fn edges_scanned(g: Graph, y: int, x: int) -> Set<(Pos, Pos)> {
    Set::new(|e: (Pos, Pos)| g.edges.contains(e) && scanned(e.0, y, x))
}

/// The cells of a set that come before column `x` of row `y`.
pub open spec fn cells_scanned(s: Set<Pos>, y: int, x: int) -> Set<Pos> {
    Set::new(|p: Pos| s.contains(p) && scanned(p, y, x))
}

/// Cells scanned so far never outnumber the cells passed.
proof fn lemma_scan_bound(rows: int, cols: int, y: int, x: int)
    requires
        0 <= y < rows,
        0 <= x < cols,
    ensures
        y * cols + x + 1 <= rows * cols,
        y * cols >= 0,
{
    assert(y * cols + cols <= rows * cols) by (nonlinear_arith)
        requires
            0 <= y < rows,
            0 <= cols,
    ;
    assert(y * cols >= 0) by (nonlinear_arith)
        requires
            0 <= y,
            0 <= cols,
    ;
}

impl Cells {
    /// The number of open edges.
    pub fn count_open_edges(&self) -> (count: usize)
        requires
            self.wf(),
        ensures
            self@.edges.finite(),
            count == self@.edges.len(),
    {
        let rows = self.rows();
        let cols = self.cols();
        let ghost g = self@;
        let mut count: usize = 0;
        let mut y: usize = 0;
        proof {
            self.lemma_view_wf();
            assert(edges_scanned(g, 0, 0) =~= Set::<(Pos, Pos)>::empty());
        }
        while y < rows
            invariant
                self.wf(),
                g == self@,
                g.wf(),
                rows == g.rows,
                cols == g.cols,
                2 * (rows * cols) <= usize::MAX,
                0 <= y <= rows,
                edges_scanned(g, y as int, 0).finite(),
                count == edges_scanned(g, y as int, 0).len(),
                count <= 2 * (y * cols),
            decreases rows - y,
        {
            let mut x: usize = 0;
            while x < cols
                invariant
                    self.wf(),
                    g == self@,
                    g.wf(),
                    rows == g.rows,
                    cols == g.cols,
                    2 * (rows * cols) <= usize::MAX,
                    0 <= y < rows,
                    0 <= x <= cols,
                    edges_scanned(g, y as int, x as int).finite(),
                    count == edges_scanned(g, y as int, x as int).len(),
                    count <= 2 * (y * cols + x),
                decreases cols - x,
            {
                let here = Pos { x, y };
                let ghost seen = edges_scanned(g, y as int, x as int);
                let ghost east = Pos { x: (x + 1) as usize, y };
                let ghost south = Pos { x, y: (y + 1) as usize };
                let ghost mut now = seen;
                proof {
                    lemma_scan_bound(rows as int, cols as int, y as int, x as int);
                }
                if x + 1 < cols && self.is_open(here, Pos { x: x + 1, y }) {
                    count += 1;
                    proof {
                        now = now.insert((here, east));
                    }
                }
                if y + 1 < rows && self.is_open(here, Pos { x, y: y + 1 }) {
                    count += 1;
                    proof {
                        now = now.insert((here, south));
                    }
                }
                proof {
                    assert forall|e: (Pos, Pos)| edges_scanned(g, y as int, x + 1).contains(e)
                        == now.contains(e) by {
                        if g.edges.contains(e) && e.0 == here {
                            assert(adjacent(e.0, e.1) && before(e.0, e.1));
                            assert(e.1 == east || e.1 == south);
                        }
                    }
                    assert(edges_scanned(g, y as int, x + 1) =~= now);
                }
                x += 1;
            }
            proof {
                assert(edges_scanned(g, y + 1, 0) =~= edges_scanned(g, y as int, cols as int));
                assert(2 * (y * cols + cols) == 2 * ((y + 1) * cols)) by (nonlinear_arith);
            }
            y += 1;
        }
        proof {
            assert(edges_scanned(g, rows as int, 0) =~= g.edges);
        }
        count
    }
}

impl CellSet {
    /// The number of cells in the set.
    pub fn len(&self) -> (count: usize)
        requires
            self.wf(),
            self.height() * self.width() <= usize::MAX,
        ensures
            self@.finite(),
            count == self@.len(),
    {
        let rows = self.flags.len();
        let cols = self.flags[0].len();
        let ghost s = self@;
        let mut count: usize = 0;
        let mut y: usize = 0;
        proof {
            assert(cells_scanned(s, 0, 0) =~= Set::<Pos>::empty());
        }
        while y < rows
            invariant
                self.wf(),
                s == self@,
                rows == self.height(),
                cols == self.width(),
                rows * cols <= usize::MAX,
                0 <= y <= rows,
                cells_scanned(s, y as int, 0).finite(),
                count == cells_scanned(s, y as int, 0).len(),
                count <= y * cols,
            decreases rows - y,
        {
            let mut x: usize = 0;
            while x < cols
                invariant
                    self.wf(),
                    s == self@,
                    rows == self.height(),
                    cols == self.width(),
                    rows * cols <= usize::MAX,
                    0 <= y < rows,
                    0 <= x <= cols,
                    cells_scanned(s, y as int, x as int).finite(),
                    count == cells_scanned(s, y as int, x as int).len(),
                    count <= y * cols + x,
                decreases cols - x,
            {
                let here = Pos { x, y };
                let ghost seen = cells_scanned(s, y as int, x as int);
                proof {
                    lemma_scan_bound(rows as int, cols as int, y as int, x as int);
                }
                if self.contains(here) {
                    count += 1;
                    proof {
                        assert(cells_scanned(s, y as int, x + 1) =~= seen.insert(here));
                    }
                } else {
                    proof {
                        assert(cells_scanned(s, y as int, x + 1) =~= seen);
                    }
                }
                x += 1;
            }
            proof {
                assert(cells_scanned(s, y + 1, 0) =~= cells_scanned(s, y as int, cols as int));
                assert(y * cols + cols == (y + 1) * cols) by (nonlinear_arith);
            }
            y += 1;
        }
        proof {
            assert(cells_scanned(s, rows as int, 0) =~= s);
        }
        count
    }
}

} // verus!
