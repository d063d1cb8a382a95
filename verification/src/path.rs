//! Path queries: depth-first search over the open edges of the maze.

use vstd::prelude::*;
use crate::cellset::CellSet;
use crate::graph::{edge, lemma_closed_set_holds_reachable, lemma_edge_symmetric, lemma_walk_push, Graph};
use crate::grid::{adjacent, lemma_neighbors_of, neighbors, neighbors_of, Pos};
use crate::maze::Cells;
use crate::tree::lemma_tree_path_unique;

verus! {

/// The `j`-th neighbour of `p`, in the order in which the search tries them.
#[verifier::opaque]
pub open spec fn slot(g: Graph, p: Pos, j: int) -> Pos {
    neighbors_of(g.rows, g.cols, p)[j]
}

/// The number of neighbours of `p` inside the grid.
#[verifier::opaque]
pub open spec fn degree(g: Graph, p: Pos) -> int {
    neighbors_of(g.rows, g.cols, p).len() as int
}

/// The slots of a cell are its in-bounds neighbours, and every cell linked
/// to it sits in one of them.
pub proof fn lemma_slots(g: Graph, p: Pos)
    requires
        g.wf(),
        g.has(p),
    ensures
        0 <= degree(g, p) <= 4,
        forall|j: int|
            0 <= j < degree(g, p) ==> g.has(#[trigger] slot(g, p, j)) && adjacent(
                p,
                slot(g, p, j),
            ),
        forall|v: Pos| #[trigger]
            g.linked(p, v) ==> exists|j: int| 0 <= j < degree(g, p) && slot(g, p, j) == v,
{
    reveal(slot);
    reveal(degree);
    lemma_neighbors_of(g.rows, g.cols, p);
    let around = neighbors_of(g.rows, g.cols, p);
    assert forall|j: int| 0 <= j < degree(g, p) implies g.has(#[trigger] slot(g, p, j))
        && adjacent(p, slot(g, p, j)) by {
        assert(around.contains(around[j]));
    }
    assert forall|v: Pos| #[trigger] g.linked(p, v) implies exists|j: int|
        0 <= j < degree(g, p) && slot(g, p, j) == v by {
        lemma_edge_symmetric(p, v);
        assert(g.edges.contains(edge(p, v)));
        assert(around.contains(v));
        let j = choose|j: int| 0 <= j < around.len() && around[j] == v;
        assert(slot(g, p, j) == v);
    }
}

/// The list of neighbours that the search walks through holds the slots of
/// the cell, in order.
pub proof fn lemma_slots_listed(g: Graph, p: Pos, around: Seq<Pos>)
    requires
        around == neighbors_of(g.rows, g.cols, p),
    ensures
        around.len() == degree(g, p),
        forall|j: int| 0 <= j < around.len() ==> around[j] == #[trigger] slot(g, p, j),
{
    reveal(slot);
    reveal(degree);
}

/// What the search knows about the cells it has left behind: each cell it
/// has seen and is no longer on the current path is not the destination and
/// has only seen cells across its open edges.
#[verifier::opaque]
pub open spec fn settled(g: Graph, seen: Set<Pos>, path: Seq<Pos>, dest: Pos) -> bool {
    forall|u: Pos|
        #![trigger seen.contains(u)]
        seen.contains(u) && !path.contains(u) ==> {
            &&& u != dest
            &&& forall|v: Pos| #[trigger] g.linked(u, v) ==> seen.contains(v)
        }
}

/// What the search knows about the cells on its current path: all are seen,
/// none but the last can be the destination, and the neighbours that a cell
/// has already tried are seen wherever the edge to them is open.
#[verifier::opaque]
pub open spec fn tried(g: Graph, seen: Set<Pos>, path: Seq<Pos>, next: Seq<usize>, dest: Pos)
    -> bool {
    &&& next.len() == path.len()
    &&& forall|i: int|
        0 <= i < path.len() ==> {
            &&& seen.contains(#[trigger] path[i])
            &&& g.has(path[i])
            &&& (i < path.len() - 1 ==> path[i] != dest)
            &&& next[i] <= degree(g, path[i])
        }
    &&& forall|i: int, j: int|
        0 <= i < path.len() && 0 <= j < next[i] && g.linked(path[i], #[trigger] slot(g, path[i], j))
            ==> seen.contains(slot(g, path[i], j))
}

/// The plain facts that the search reads off what it knows.
proof fn lemma_search_facts(g: Graph, seen: Set<Pos>, path: Seq<Pos>, next: Seq<usize>, dest: Pos)
    requires
        g.wf(),
        tried(g, seen, path, next, dest),
    ensures
        next.len() == path.len(),
        path.len() > 0 ==> next.last() <= degree(g, path.last()) <= 4 && g.has(path.last()),
{
    reveal(tried);
    if path.len() > 0 {
        assert(seen.contains(path[path.len() - 1]));
        lemma_slots(g, path.last());
    }
}

/// The search starts knowing only its source.
proof fn lemma_search_start(g: Graph, source: Pos, dest: Pos)
    requires
        g.wf(),
        g.has(source),
    ensures
        tried(g, set![source], seq![source], seq![0usize], dest),
        settled(g, set![source], seq![source], dest),
        seq![source].no_duplicates(),
        g.is_walk(seq![source]),
{
    reveal(tried);
    reveal(settled);
    lemma_slots(g, source);
    let path = seq![source];
    assert forall|u: Pos| set![source].contains(u) implies path.contains(u) by {
        assert(path[0] == source);
    }
}

/// When the search has left every cell it has seen, the destination cannot
/// be reached.
proof fn lemma_search_end(g: Graph, seen: Set<Pos>, source: Pos, dest: Pos)
    requires
        seen.contains(source),
        settled(g, seen, Seq::<Pos>::empty(), dest),
    ensures
        !g.reachable(source, dest),
{
    reveal(settled);
    let none = Seq::<Pos>::empty();
    if g.reachable(source, dest) {
        assert forall|u: Pos, v: Pos| seen.contains(u) && #[trigger] g.linked(
            u,
            v,
        ) implies seen.contains(v) by {
            assert(!none.contains(u));
        }
        lemma_closed_set_holds_reachable(g, seen, source, dest);
        assert(!none.contains(dest));
    }
}

/// Leaving the last cell of the path, once all its neighbours are tried and
/// it is not the destination, keeps what the search knows.
proof fn lemma_search_pop(g: Graph, seen: Set<Pos>, path: Seq<Pos>, next: Seq<usize>, dest: Pos)
    requires
        g.wf(),
        path.len() > 0,
        g.is_walk(path),
        path.no_duplicates(),
        tried(g, seen, path, next, dest),
        settled(g, seen, path, dest),
        path.last() != dest,
        next.last() >= degree(g, path.last()),
    ensures
        path.len() > 1 ==> g.is_walk(path.drop_last()),
        path.drop_last().no_duplicates(),
        tried(g, seen, path.drop_last(), next.drop_last(), dest),
        settled(g, seen, path.drop_last(), dest),
{
    reveal(tried);
    reveal(settled);
    let top = path.last();
    let last = path.len() - 1;
    let rest = path.drop_last();
    let nx = next.drop_last();
    assert(seen.contains(path[last]));
    lemma_slots(g, top);
    if path.len() > 1 {
        assert forall|i: int| 0 <= i < rest.len() - 1 implies #[trigger] g.hop(
            rest,
            i,
        ) by {
            assert(g.hop(path, i));
        }
    }
    assert forall|u: Pos|
        #![trigger seen.contains(u)]
        seen.contains(u) && !rest.contains(u) implies {
        &&& u != dest
        &&& forall|v: Pos| #[trigger] g.linked(u, v) ==> seen.contains(v)
    } by {
        if u == top {
            assert forall|v: Pos| #[trigger] g.linked(top, v) implies seen.contains(v) by {
                let j = choose|j: int| 0 <= j < degree(g, top) && slot(g, top, j) == v;
                assert(g.linked(path[last], slot(g, path[last], j)));
            }
        } else if path.contains(u) {
            let i = choose|i: int| 0 <= i < path.len() && path[i] == u;
            assert(rest[i] == u);
        }
    }
    assert forall|i: int| 0 <= i < rest.len() implies {
        &&& seen.contains(#[trigger] rest[i])
        &&& g.has(rest[i])
        &&& (i < rest.len() - 1 ==> rest[i] != dest)
        &&& nx[i] <= degree(g, rest[i])
    } by {
        assert(seen.contains(path[i]));
    }
    assert forall|i: int, j: int|
        0 <= i < rest.len() && 0 <= j < nx[i] && g.linked(
            rest[i],
            #[trigger] slot(g, rest[i], j),
        ) implies seen.contains(slot(g, rest[i], j)) by {
        assert(rest[i] == path[i]);
        assert(g.linked(path[i], slot(g, path[i], j)));
    }
}

/// Passing over the next neighbour of the last cell, because the edge to it
/// is closed or it is already seen, keeps what the search knows.
proof fn lemma_search_skip(g: Graph, seen: Set<Pos>, path: Seq<Pos>, next: Seq<usize>, dest: Pos)
    requires
        path.len() > 0,
        tried(g, seen, path, next, dest),
        next.last() < degree(g, path.last()),
        next.last() < usize::MAX,
        !g.linked(path.last(), slot(g, path.last(), next.last() as int)) || seen.contains(
            slot(g, path.last(), next.last() as int),
        ),
    ensures
        tried(g, seen, path, next.update(path.len() - 1, (next.last() + 1) as usize), dest),
{
    reveal(tried);
    let last = path.len() - 1;
    let nx = next.update(last, (next.last() + 1) as usize);
    assert forall|i: int| 0 <= i < path.len() implies {
        &&& seen.contains(#[trigger] path[i])
        &&& g.has(path[i])
        &&& (i < path.len() - 1 ==> path[i] != dest)
        &&& nx[i] <= degree(g, path[i])
    } by {}
    assert forall|i: int, j: int|
        0 <= i < path.len() && 0 <= j < nx[i] && g.linked(
            path[i],
            #[trigger] slot(g, path[i], j),
        ) implies seen.contains(slot(g, path[i], j)) by {
        if i == last && j == next.last() {
        } else {
            assert(0 <= j < next[i]);
        }
    }
}

/// Stepping over an open edge to an unseen neighbour of the last cell keeps
/// what the search knows.
proof fn lemma_search_push(g: Graph, seen: Set<Pos>, path: Seq<Pos>, next: Seq<usize>, dest: Pos)
    requires
        g.wf(),
        path.len() > 0,
        g.is_walk(path),
        path.no_duplicates(),
        tried(g, seen, path, next, dest),
        settled(g, seen, path, dest),
        path.last() != dest,
        next.last() < degree(g, path.last()),
        next.last() < usize::MAX,
        g.linked(path.last(), slot(g, path.last(), next.last() as int)),
        !seen.contains(slot(g, path.last(), next.last() as int)),
    ensures
        ({
            let n = slot(g, path.last(), next.last() as int);
            let nx = next.update(path.len() - 1, (next.last() + 1) as usize).push(0);
            &&& g.is_walk(path.push(n))
            &&& path.push(n).no_duplicates()
            &&& tried(g, seen.insert(n), path.push(n), nx, dest)
            &&& settled(g, seen.insert(n), path.push(n), dest)
        }),
{
    reveal(tried);
    reveal(settled);
    let last = path.len() - 1;
    let top = path.last();
    let n = slot(g, top, next.last() as int);
    let nx = next.update(last, (next.last() + 1) as usize).push(0);
    let longer = path.push(n);
    let more = seen.insert(n);
    lemma_walk_push(g, path, n);
    assert(seen.contains(path[last]));
    lemma_slots(g, top);
    lemma_slots(g, n);
    assert forall|i: int, j: int|
        0 <= i < longer.len() && 0 <= j < longer.len() && i != j implies longer[i]
        != longer[j] by {
        if i < path.len() {
            assert(seen.contains(path[i]));
        }
        if j < path.len() {
            assert(seen.contains(path[j]));
        }
    }
    assert forall|u: Pos|
        #![trigger more.contains(u)]
        more.contains(u) && !longer.contains(u) implies {
        &&& u != dest
        &&& forall|v: Pos| #[trigger] g.linked(u, v) ==> more.contains(v)
    } by {
        assert(longer[last + 1] == n);
        assert(seen.contains(u));
        if path.contains(u) {
            let i = choose|i: int| 0 <= i < path.len() && path[i] == u;
            assert(longer[i] == u);
        }
    }
    assert forall|i: int| 0 <= i < longer.len() implies {
        &&& more.contains(#[trigger] longer[i])
        &&& g.has(longer[i])
        &&& (i < longer.len() - 1 ==> longer[i] != dest)
        &&& nx[i] <= degree(g, longer[i])
    } by {
        if i < path.len() {
            assert(seen.contains(path[i]));
        }
    }
    assert forall|i: int, j: int|
        0 <= i < longer.len() && 0 <= j < nx[i] && g.linked(
            longer[i],
            #[trigger] slot(g, longer[i], j),
        ) implies more.contains(slot(g, longer[i], j)) by {
        if i == last && j == next.last() {
        } else {
            assert(longer[i] == path[i]);
            assert(0 <= j < next[i]);
            assert(g.linked(path[i], slot(g, path[i], j)));
        }
    }
}

impl Cells {
    /// Searches depth-first for a path from `source` to `dest` over open
    /// edges. Returns the path, which repeats no cell, or `None` exactly when
    /// `dest` cannot be reached.
    pub fn search_path(&self, source: Pos, dest: Pos) -> (found: Option<Vec<Pos>>)
        requires
            self.wf(),
            self.holds(source),
            self.holds(dest),
        ensures
            found.is_some() == self@.reachable(source, dest),
            match found {
                Some(path) => self@.is_path(path@, source, dest),
                None => true,
            },
    {
        let rows = self.rows();
        let cols = self.cols();
        let ghost g = self@;
        let mut seen = CellSet::new(rows, cols);
        let mut path: Vec<Pos> = Vec::new();
        let mut next: Vec<usize> = Vec::new();
        seen.insert(source);
        path.push(source);
        next.push(0);
        proof {
            self.lemma_view_wf();
            lemma_search_start(g, source, dest);
            assert(path@ =~= seq![source]);
            assert(next@ =~= seq![0usize]);
            assert(seen@ =~= set![source]);
        }
        while path.len() > 0
            invariant
                self.wf(),
                g == self@,
                g.wf(),
                rows == g.rows,
                cols == g.cols,
                g.has(source),
                seen.wf(),
                seen.height() == g.rows,
                seen.width() == g.cols,
                seen@.contains(source),
                path@.len() > 0 ==> g.is_walk(path@) && path@[0] == source,
                path@.no_duplicates(),
                tried(g, seen@, path@, next@, dest),
                settled(g, seen@, path@, dest),
            decreases
                    g.rows * g.cols - seen@.len(),
                    path@.len(),
                    (if path@.len() > 0 {
                        4 - next@[path@.len() - 1]
                    } else {
                        0
                    }),
        {
            proof {
                lemma_search_facts(g, seen@, path@, next@, dest);
                seen.lemma_bounded();
            }
            let last = path.len() - 1;
            let top = path[last];
            if top == dest {
                assert(g.joins(path@, source, dest));
                return Some(path);
            }
            let around = neighbors(rows, cols, top);
            let k = next[last];
            proof {
                lemma_slots(g, top);
                lemma_slots_listed(g, top, around@);
            }
            if k >= around.len() {
                proof {
                    lemma_search_pop(g, seen@, path@, next@, dest);
                }
                path.pop();
                next.pop();
                proof {
                    lemma_search_facts(g, seen@, path@, next@, dest);
                }
            } else {
                let n = around[k];
                assert(n == slot(g, top, k as int));
                if self.is_open(top, n) && !seen.contains(n) {
                    proof {
                        lemma_search_push(g, seen@, path@, next@, dest);
                    }
                    next[last] = k + 1;
                    seen.insert(n);
                    path.push(n);
                    next.push(0);
                    proof {
                        seen.lemma_bounded();
                    }
                } else {
                    proof {
                        lemma_search_skip(g, seen@, path@, next@, dest);
                    }
                    next[last] = k + 1;
                }
            }
        }
        proof {
            assert(path@ =~= Seq::<Pos>::empty());
            lemma_search_end(g, seen@, source, dest);
        }
        None
    }

    /// The path from `source` to `dest`, which repeats no cell. In a perfect
    /// maze every cell can be reached from every other, so the path exists
    /// for every pair of cells, and it is the only one.
    pub fn find_path(&self, source: Pos, dest: Pos) -> (path: Vec<Pos>)
        requires
            self.wf(),
            self.holds(source),
            self.holds(dest),
            self@.reachable(source, dest),
        ensures
            self@.is_path(path@, source, dest),
            source == dest ==> path@ == seq![source],
            self@.is_tree() ==> forall|other: Seq<Pos>| #[trigger]
                self@.is_path(other, source, dest) ==> other == path@,
    {
        let found = self.search_path(source, dest);
        let path = found.unwrap();
        proof {
            if self@.is_tree() {
                assert forall|other: Seq<Pos>| #[trigger]
                    self@.is_path(other, source, dest) implies other == path@ by {
                    lemma_tree_path_unique(self@, source, dest, other, path@);
                }
            }
            if source == dest {
                if path@.len() > 1 {
                    assert(path@[0] == path@[path@.len() - 1]);
                }
                assert(path@ =~= seq![source]);
            }
        }
        path
    }
}

} // verus!
