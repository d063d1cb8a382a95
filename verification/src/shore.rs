//! The shore of a lake: the pairs of adjacent cells that straddle its border.

use vstd::prelude::*;
use crate::cellset::CellSet;
use crate::grid::{adjacent, lemma_neighbors_of, lists_neighbors, neighbors, Pos};
use crate::maze::Cells;

verus! {

/// Two pairs of cells have the same two ends, in either order.
pub open spec fn same_ends(a: (Pos, Pos), b: (Pos, Pos)) -> bool {
    (a.0 == b.0 && a.1 == b.1) || (a.0 == b.1 && a.1 == b.0)
}

/// `u` comes before the cell in column `x` of row `y` in row-major order.
pub open spec fn scanned(u: Pos, y: int, x: int) -> bool {
    u.y < y || (u.y == y && u.x < x)
}

impl Cells {
    /// `pair` is a shore pair: two adjacent cells of the grid, the first in
    /// the lake and the second not, other than the two ends of `wall`.
    pub open spec fn on_shore(self, lake: Set<Pos>, wall: (Pos, Pos), pair: (Pos, Pos)) -> bool {
        &&& self.holds(pair.0)
        &&& self.holds(pair.1)
        &&& adjacent(pair.0, pair.1)
        &&& lake.contains(pair.0)
        &&& !lake.contains(pair.1)
        &&& !same_ends(pair, wall)
    }

    /// `shore` holds, each once, exactly the shore pairs of `lake`.
    pub open spec fn is_shore(self, lake: Set<Pos>, wall: (Pos, Pos), shore: Seq<(Pos, Pos)>)
        -> bool {
        &&& shore.no_duplicates()
        &&& forall|pair: (Pos, Pos)| shore.contains(pair) <==> self.on_shore(lake, wall, pair)
    }

    /// Appends the shore pairs that start at `u`.
    fn push_shore_of(
        &self,
        u: Pos,
        wall: (Pos, Pos),
        lake: &CellSet,
        shore: &mut Vec<(Pos, Pos)>,
    )
        requires
            self.wf(),
            self.holds(u),
            lake.wf(),
            old(shore)@.no_duplicates(),
            forall|i: int| 0 <= i < old(shore)@.len() ==> (#[trigger] old(shore)@[i]).0 != u,
        ensures
            final(shore)@.no_duplicates(),
            forall|pair: (Pos, Pos)|
                final(shore)@.contains(pair) <==> (old(shore)@.contains(pair) || (pair.0 == u
                    && self.on_shore(lake@, wall, pair))),
    {
        let ghost start = shore@;
        if !lake.contains(u) {
            return ;
        }
        let around = neighbors(self.rows(), self.cols(), u);
        let ghost mut from: Seq<int> = Seq::empty();
        let mut k: usize = 0;
        proof {
            self.lemma_view_wf();
            lemma_neighbors_of(self@.rows, self@.cols, u);
        }
        while k < around.len()
            invariant
                self.wf(),
                self.holds(u),
                lake.wf(),
                lake@.contains(u),
                0 <= k <= around@.len(),
                lists_neighbors(self@.rows, self@.cols, u, around@),
                start.no_duplicates(),
                forall|i: int| 0 <= i < start.len() ==> (#[trigger] start[i]).0 != u,
                shore@.len() == start.len() + from.len(),
                forall|i: int| 0 <= i < start.len() ==> #[trigger] shore@[i] == start[i],
                forall|i: int|
                    0 <= i < from.len() ==> 0 <= #[trigger] from[i] < k && shore@[start.len() + i]
                        == (u, around@[from[i]]) && self.on_shore(
                        lake@,
                        wall,
                        (u, around@[from[i]]),
                    ),
                forall|i: int, j: int| 0 <= i < j < from.len() ==> from[i] < from[j],
                forall|j: int|
                    0 <= j < k && self.on_shore(lake@, wall, (u, #[trigger] around@[j]))
                        ==> shore@.contains((u, around@[j])),
            decreases around@.len() - k,
        {
            let v = around[k];
            proof {
                assert(around@.contains(v));
            }
            let at_wall = (u == wall.0 && v == wall.1) || (u == wall.1 && v == wall.0);
            if !lake.contains(v) && !at_wall {
                let ghost before_shore = shore@;
                let ghost before_from = from;
                shore.push((u, v));
                proof {
                    from = from.push(k as int);
                    assert forall|i: int| 0 <= i < from.len() implies 0 <= #[trigger] from[i] < k
                        + 1 && shore@[start.len() + i] == (u, around@[from[i]]) && self.on_shore(
                        lake@,
                        wall,
                        (u, around@[from[i]]),
                    ) by {
                        if i < before_from.len() {
                            assert(from[i] == before_from[i]);
                            assert(shore@[start.len() + i] == before_shore[start.len() + i]);
                        }
                    }
                    assert forall|i: int, j: int| 0 <= i < j < from.len() implies from[i]
                        < from[j] by {
                        assert(from[i] == before_from[i]);
                        if j < before_from.len() {
                            assert(from[j] == before_from[j]);
                        }
                    }
                    assert forall|j: int|
                        0 <= j < k + 1 && self.on_shore(
                            lake@,
                            wall,
                            (u, #[trigger] around@[j]),
                        ) implies shore@.contains((u, around@[j])) by {
                        if j < k {
                            let i = choose|i: int|
                                0 <= i < before_shore.len() && before_shore[i] == (u, around@[j]);
                            assert(shore@[i] == (u, around@[j]));
                        } else {
                            assert(shore@[before_shore.len() as int] == (u, v));
                        }
                    }
                }
            }
            k += 1;
        }
        proof {
            assert forall|i: int, j: int|
                0 <= i < shore@.len() && 0 <= j < shore@.len() && i != j implies shore@[i]
                != shore@[j] by {
                let n = start.len() as int;
                if i < n && j < n {
                    assert(start[i] != start[j]);
                } else if i < n {
                    assert(start[i].0 != u);
                    assert(from[j - n] < k);
                } else if j < n {
                    assert(start[j].0 != u);
                    assert(from[i - n] < k);
                } else {
                    if i < j {
                        assert(from[i - n] < from[j - n]);
                    } else {
                        assert(from[j - n] < from[i - n]);
                    }
                }
            }
            assert forall|pair: (Pos, Pos)|
                shore@.contains(pair) <==> (start.contains(pair) || (pair.0 == u && self.on_shore(
                    lake@,
                    wall,
                    pair,
                ))) by {
                let n = start.len() as int;
                if shore@.contains(pair) {
                    let i = choose|i: int| 0 <= i < shore@.len() && shore@[i] == pair;
                    if i < n {
                        assert(start[i] == pair);
                    } else {
                        assert(from[i - n] < k);
                    }
                }
                if start.contains(pair) {
                    let i = choose|i: int| 0 <= i < start.len() && start[i] == pair;
                    assert(shore@[i] == pair);
                }
                if pair.0 == u && self.on_shore(lake@, wall, pair) {
                    assert(around@.contains(pair.1));
                    let j = choose|j: int| 0 <= j < around@.len() && around@[j] == pair.1;
                    assert(self.on_shore(lake@, wall, (u, around@[j])));
                }
            }
        }
    }

    /// The shore of `lake`: every pair of adjacent cells of which the first
    /// lies in the lake and the second does not, except the pair that the
    /// wall `wall` has just parted, in either order.
    pub fn collect_lake_shore(&self, wall: (Pos, Pos), lake: &CellSet) -> (shore: Vec<(Pos, Pos)>)
        requires
            self.wf(),
            lake.wf(),
        ensures
            self.is_shore(lake@, wall, shore@),
    {
        let rows = self.rows();
        let cols = self.cols();
        let mut shore: Vec<(Pos, Pos)> = Vec::new();
        let mut y: usize = 0;
        while y < rows
            invariant
                self.wf(),
                lake.wf(),
                rows == self@.rows,
                cols == self@.cols,
                0 <= y <= rows,
                shore@.no_duplicates(),
                forall|pair: (Pos, Pos)|
                    shore@.contains(pair) <==> (self.on_shore(lake@, wall, pair) && scanned(
                        pair.0,
                        y as int,
                        0,
                    )),
            decreases rows - y,
        {
            let mut x: usize = 0;
            while x < cols
                invariant
                    self.wf(),
                    lake.wf(),
                    rows == self@.rows,
                    cols == self@.cols,
                    0 <= y < rows,
                    0 <= x <= cols,
                    shore@.no_duplicates(),
                    forall|pair: (Pos, Pos)|
                        shore@.contains(pair) <==> (self.on_shore(lake@, wall, pair) && scanned(
                            pair.0,
                            y as int,
                            x as int,
                        )),
                decreases cols - x,
            {
                let u = Pos { x, y };
                proof {
                    assert forall|i: int| 0 <= i < shore@.len() implies (#[trigger] shore@[i]).0
                        != u by {
                        assert(shore@.contains(shore@[i]));
                    }
                }
                self.push_shore_of(u, wall, lake, &mut shore);
                x += 1;
            }
            y += 1;
        }
        shore
    }
}

} // verus!
