//! Flood fill: the cells that can be reached from an anchor over open edges.

use vstd::prelude::*;
use crate::cellset::CellSet;
use crate::graph::{
    lemma_closed_set_holds_reachable, lemma_reach_edge, lemma_reach_self, lemma_reach_trans,
    lemma_reachable_inside, Graph,
};
use crate::grid::{cells_of, lemma_cells_count, neighbors, Pos};
use crate::maze::Cells;
use crate::path::{degree, lemma_slots, lemma_slots_listed, slot};

verus! {

/// Every cell across an open edge of `w` is in `seen`.
pub open spec fn closed_at(g: Graph, seen: Set<Pos>, w: Pos) -> bool {
    forall|v: Pos| #[trigger] g.linked(w, v) ==> seen.contains(v)
}

/// What the fill knows between two cells: every seen cell is a cell of the
/// grid reachable from the anchor, the cells still to be expanded are seen,
/// and every other seen cell has only seen cells across its open edges.
#[verifier::opaque]
pub open spec fn flooded(g: Graph, anchor: Pos, seen: Set<Pos>, todo: Seq<Pos>) -> bool {
    &&& forall|w: Pos| #[trigger] seen.contains(w) ==> g.reachable(anchor, w) && g.has(w)
    &&& forall|i: int| 0 <= i < todo.len() ==> seen.contains(#[trigger] todo[i])
    &&& forall|w: Pos|
        #![trigger seen.contains(w)]
        seen.contains(w) && !todo.contains(w) ==> closed_at(g, seen, w)
}

/// What the fill knows while it expands the cell `u`, of which the first `k`
/// neighbours are done.
#[verifier::opaque]
pub open spec fn draining(g: Graph, anchor: Pos, seen: Set<Pos>, todo: Seq<Pos>, u: Pos, k: int)
    -> bool {
    &&& forall|w: Pos| #[trigger] seen.contains(w) ==> g.reachable(anchor, w) && g.has(w)
    &&& forall|i: int| 0 <= i < todo.len() ==> seen.contains(#[trigger] todo[i])
    &&& seen.contains(u)
    &&& forall|w: Pos|
        #![trigger seen.contains(w)]
        seen.contains(w) && !todo.contains(w) && w != u ==> closed_at(g, seen, w)
    &&& forall|j: int|
        0 <= j < k && g.linked(u, #[trigger] slot(g, u, j)) ==> seen.contains(slot(g, u, j))
}

proof fn lemma_flood_start(g: Graph, anchor: Pos)
    requires
        g.has(anchor),
    ensures
        flooded(g, anchor, set![anchor], seq![anchor]),
{
    reveal(flooded);
    lemma_reach_self(g, anchor);
    let todo = seq![anchor];
    assert(todo[0] == anchor);
}

proof fn lemma_flood_pop(g: Graph, anchor: Pos, seen: Set<Pos>, todo: Seq<Pos>)
    requires
        flooded(g, anchor, seen, todo),
        todo.len() > 0,
    ensures
        draining(g, anchor, seen, todo.drop_last(), todo.last(), 0),
        g.has(todo.last()),
{
    reveal(flooded);
    reveal(draining);
    let rest = todo.drop_last();
    let u = todo.last();
    assert(seen.contains(todo[todo.len() - 1]));
    assert forall|i: int| 0 <= i < rest.len() implies seen.contains(#[trigger] rest[i]) by {
        assert(rest[i] == todo[i]);
    }
    assert forall|w: Pos|
        #![trigger seen.contains(w)]
        seen.contains(w) && !rest.contains(w) && w != u implies closed_at(g, seen, w) by {
        if todo.contains(w) {
            let i = choose|i: int| 0 <= i < todo.len() && todo[i] == w;
            assert(rest[i] == w);
        }
    }
}

proof fn lemma_flood_skip(g: Graph, anchor: Pos, seen: Set<Pos>, todo: Seq<Pos>, u: Pos, k: int)
    requires
        draining(g, anchor, seen, todo, u, k),
        0 <= k,
        !g.linked(u, slot(g, u, k)) || seen.contains(slot(g, u, k)),
    ensures
        draining(g, anchor, seen, todo, u, k + 1),
{
    reveal(draining);
}

proof fn lemma_flood_push(g: Graph, anchor: Pos, seen: Set<Pos>, todo: Seq<Pos>, u: Pos, k: int)
    requires
        g.wf(),
        draining(g, anchor, seen, todo, u, k),
        0 <= k < degree(g, u),
        g.linked(u, slot(g, u, k)),
        !seen.contains(slot(g, u, k)),
    ensures
        draining(g, anchor, seen.insert(slot(g, u, k)), todo.push(slot(g, u, k)), u, k + 1),
{
    reveal(draining);
    let n = slot(g, u, k);
    let more = seen.insert(n);
    let longer = todo.push(n);
    assert(seen.contains(u));
    lemma_slots(g, u);
    lemma_reach_edge(g, u, n);
    lemma_reach_trans(g, anchor, u, n);
    assert forall|w: Pos| #[trigger] more.contains(w) implies g.reachable(anchor, w) && g.has(
        w,
    ) by {
        if w != n {
            assert(seen.contains(w));
        }
    }
    assert forall|i: int| 0 <= i < longer.len() implies more.contains(#[trigger] longer[i]) by {
        if i < todo.len() {
            assert(seen.contains(todo[i]));
        }
    }
    assert forall|w: Pos|
        #![trigger more.contains(w)]
        more.contains(w) && !longer.contains(w) && w != u implies closed_at(g, more, w) by {
        assert(longer[todo.len() as int] == n);
        assert(seen.contains(w));
        if todo.contains(w) {
            let i = choose|i: int| 0 <= i < todo.len() && todo[i] == w;
            assert(longer[i] == w);
        }
        assert(closed_at(g, seen, w));
    }
}

proof fn lemma_flood_done(g: Graph, anchor: Pos, seen: Set<Pos>, todo: Seq<Pos>, u: Pos, k: int)
    requires
        g.wf(),
        g.has(u),
        draining(g, anchor, seen, todo, u, k),
        k >= degree(g, u),
    ensures
        flooded(g, anchor, seen, todo),
{
    reveal(flooded);
    reveal(draining);
    lemma_slots(g, u);
    assert forall|w: Pos|
        #![trigger seen.contains(w)]
        seen.contains(w) && !todo.contains(w) implies closed_at(g, seen, w) by {
        if w == u {
            assert forall|v: Pos| #[trigger] g.linked(u, v) implies seen.contains(v) by {
                let j = choose|j: int| 0 <= j < degree(g, u) && slot(g, u, j) == v;
                assert(g.linked(u, slot(g, u, j)));
            }
        }
    }
}

proof fn lemma_flood_end(g: Graph, anchor: Pos, seen: Set<Pos>)
    requires
        seen.contains(anchor),
        flooded(g, anchor, seen, Seq::<Pos>::empty()),
    ensures
        seen == g.component(anchor),
{
    reveal(flooded);
    let none = Seq::<Pos>::empty();
    assert forall|p: Pos| g.reachable(anchor, p) implies seen.contains(p) by {
        assert forall|u: Pos, v: Pos| seen.contains(u) && #[trigger] g.linked(
            u,
            v,
        ) implies seen.contains(v) by {
            assert(!none.contains(u));
            assert(closed_at(g, seen, u));
        }
        lemma_closed_set_holds_reachable(g, seen, anchor, p);
    }
    assert(seen =~= g.component(anchor));
}

/// In a connected maze, and so in a perfect one, the lake of any cell is the
/// whole grid.
pub proof fn lemma_connected_lake_covers_grid(g: Graph, a: Pos)
    requires
        g.wf(),
        g.connected(),
        g.has(a),
    ensures
        g.component(a) == cells_of(g.rows, g.cols),
        g.component(a).finite(),
        g.component(a).len() == g.rows * g.cols,
{
    assert forall|p: Pos| g.component(a).contains(p) <==> cells_of(g.rows, g.cols).contains(
        p,
    ) by {
        if g.reachable(a, p) {
            lemma_reachable_inside(g, a, p);
        }
        if g.has(p) {
            assert(g.reachable(a, p));
        }
    }
    assert(g.component(a) =~= cells_of(g.rows, g.cols));
    lemma_cells_count(g.rows, g.cols);
}

impl Cells {
    /// The lake of `anchor`: every cell that can be reached from it over
    /// open edges, and no other.
    pub fn lake(&self, anchor: Pos) -> (lake: CellSet)
        requires
            self.wf(),
            self.holds(anchor),
        ensures
            lake.wf(),
            lake.height() == self@.rows,
            lake.width() == self@.cols,
            lake@ == self@.component(anchor),
            self@.connected() ==> lake@ == cells_of(self@.rows, self@.cols) && lake@.len()
                == self@.rows * self@.cols,
    {
        let rows = self.rows();
        let cols = self.cols();
        let ghost g = self@;
        let mut seen = CellSet::new(rows, cols);
        let mut todo: Vec<Pos> = Vec::new();
        seen.insert(anchor);
        todo.push(anchor);
        proof {
            self.lemma_view_wf();
            lemma_flood_start(g, anchor);
            assert(todo@ =~= seq![anchor]);
            assert(seen@ =~= set![anchor]);
        }
        while todo.len() > 0
            invariant
                self.wf(),
                g == self@,
                g.wf(),
                rows == g.rows,
                cols == g.cols,
                seen.wf(),
                seen.height() == g.rows,
                seen.width() == g.cols,
                seen@.contains(anchor),
                flooded(g, anchor, seen@, todo@),
            decreases g.rows * g.cols - seen@.len(), todo@.len(),
        {
            proof {
                lemma_flood_pop(g, anchor, seen@, todo@);
                seen.lemma_bounded();
            }
            let ghost left = g.rows * g.cols - seen@.len();
            let ghost fewer = todo@.len() - 1;
            let u = todo.pop().unwrap();
            let around = neighbors(rows, cols, u);
            let mut k: usize = 0;
            proof {
                lemma_slots_listed(g, u, around@);
            }
            while k < around.len()
                invariant
                    self.wf(),
                    g == self@,
                    g.wf(),
                    g.has(u),
                    rows == g.rows,
                    cols == g.cols,
                    seen.wf(),
                    seen.height() == g.rows,
                    seen.width() == g.cols,
                    seen@.contains(anchor),
                    0 <= k <= around@.len(),
                    around@.len() == degree(g, u),
                    forall|j: int| 0 <= j < around@.len() ==> around@[j] == #[trigger] slot(g, u, j),
                    draining(g, anchor, seen@, todo@, u, k as int),
                    seen@.len() <= g.rows * g.cols,
                    g.rows * g.cols - seen@.len() < left || (g.rows * g.cols - seen@.len() == left
                        && todo@.len() == fewer),
                decreases around@.len() - k,
            {
                let n = around[k];
                proof {
                    lemma_slots(g, u);
                    assert(n == slot(g, u, k as int));
                    assert(g.has(n));
                }
                if self.is_open(u, n) && !seen.contains(n) {
                    proof {
                        lemma_flood_push(g, anchor, seen@, todo@, u, k as int);
                        seen.lemma_bounded();
                    }
                    seen.insert(n);
                    todo.push(n);
                    proof {
                        seen.lemma_bounded();
                    }
                } else {
                    proof {
                        lemma_flood_skip(g, anchor, seen@, todo@, u, k as int);
                    }
                }
                k += 1;
            }
            proof {
                lemma_flood_done(g, anchor, seen@, todo@, u, k as int);
            }
        }
        proof {
            assert(todo@ =~= Seq::<Pos>::empty());
            lemma_flood_end(g, anchor, seen@);
            if g.connected() {
                lemma_connected_lake_covers_grid(g, anchor);
            }
        }
        seen
    }
}

} // verus!
