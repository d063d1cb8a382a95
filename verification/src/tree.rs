//! What follows from being a spanning tree: no connected graph gets by with
//! fewer edges, so every edge of the tree is a bridge, the path between two
//! cells is unique, and there is no cycle.

use vstd::prelude::*;
use vstd::set_lib::lemma_len_subset;
use crate::graph::{
    edge, lemma_edge_same_ends, lemma_edge_symmetric, lemma_reach_edge, lemma_reach_sym,
    lemma_reach_trans, lemma_reach_transfer, Graph,
};
use crate::grid::{cells_of, lemma_cells_count, Pos};
use crate::swap::lemma_cut_leaves_two_sides;

verus! {

/// A walk that starts inside a set of cells and is outside it at step `k`
/// leaves the set over some edge before that.
proof fn lemma_walk_leaves_set(g: Graph, s: Set<Pos>, w: Seq<Pos>, k: int) -> (i: int)
    requires
        g.is_walk(w),
        0 <= k < w.len(),
        s.contains(w[0]),
        !s.contains(w[k]),
    ensures
        0 <= i < k,
        s.contains(w[i]),
        !s.contains(w[i + 1]),
    decreases k,
{
    if s.contains(w[k - 1]) {
        k - 1
    } else {
        lemma_walk_leaves_set(g, s, w, k - 1)
    }
}

/// In a connected graph any `k` cells around the root can be had together
/// with `k - 1` edges among them: grow the set by one cell and one edge at a
/// time.
proof fn lemma_grow(g: Graph, root: Pos, k: int) -> (grown: (Set<Pos>, Set<(Pos, Pos)>))
    requires
        g.wf(),
        g.connected(),
        g.has(root),
        1 <= k <= g.rows * g.cols,
    ensures
        grown.0.contains(root),
        grown.0.subset_of(cells_of(g.rows, g.cols)),
        grown.0.finite(),
        grown.0.len() == k,
        grown.1.finite(),
        grown.1.len() == k - 1,
        grown.1.subset_of(g.edges),
        forall|e: (Pos, Pos)| #[trigger]
            grown.1.contains(e) ==> grown.0.contains(e.0) && grown.0.contains(e.1),
    decreases k,
{
    if k == 1 {
        (set![root], Set::<(Pos, Pos)>::empty())
    } else {
        let (s, f) = lemma_grow(g, root, k - 1);
        let all = cells_of(g.rows, g.cols);
        lemma_cells_count(g.rows, g.cols);
        if forall|v: Pos| all.contains(v) ==> s.contains(v) {
            assert(s =~= all);
        }
        let v = choose|v: Pos| all.contains(v) && !s.contains(v);
        assert(g.reachable(root, v));
        let w = choose|w: Seq<Pos>| g.joins(w, root, v);
        let i = lemma_walk_leaves_set(g, s, w, w.len() - 1);
        let a = w[i];
        let b = w[i + 1];
        assert(g.hop(w, i));
        lemma_edge_symmetric(a, b);
        let e = edge(a, b);
        assert(g.edges.contains(e));
        assert(g.has(b));
        assert(!f.contains(e));
        (s.insert(b), f.insert(e))
    }
}

/// A connected graph over the grid has at least one edge less than cells.
pub proof fn lemma_connected_needs_edges(g: Graph)
    requires
        g.wf(),
        g.edges.finite(),
        g.connected(),
    ensures
        g.edges.len() >= g.rows * g.cols - 1,
{
    let root = Pos { x: 0, y: 0 };
    assert(g.rows * g.cols >= 1) by (nonlinear_arith)
        requires
            g.rows >= 1,
            g.cols >= 1,
    ;
    let (s, f) = lemma_grow(g, root, g.rows * g.cols);
    lemma_len_subset(f, g.edges);
}

/// Every edge of a spanning tree is a bridge: once it is closed, its two
/// ends cannot reach each other.
pub proof fn lemma_tree_edge_is_bridge(g: Graph, p: Pos, q: Pos)
    requires
        g.is_tree(),
        g.linked(p, q),
    ensures
        !g.without_edge(p, q).reachable(p, q),
        !g.without_edge(p, q).connected(),
{
    let h = g.without_edge(p, q);
    lemma_edge_symmetric(p, q);
    assert(g.edges.contains(edge(p, q)));
    assert(h.wf());
    if h.reachable(p, q) {
        lemma_reach_sym(h, p, q);
        assert forall|x: Pos, y: Pos| #[trigger] g.linked(x, y) implies h.reachable(x, y) by {
            if edge(x, y) == edge(p, q) {
                lemma_edge_same_ends(x, y, p, q);
            } else {
                assert(h.linked(x, y));
                lemma_reach_edge(h, x, y);
            }
        }
        assert forall|x: Pos, y: Pos| h.has(x) && h.has(y) implies #[trigger] h.reachable(
            x,
            y,
        ) by {
            assert(g.reachable(x, y));
            lemma_reach_transfer(g, h, x, y);
        }
        lemma_connected_needs_edges(h);
    }
    if h.connected() {
        assert(h.reachable(p, q));
    }
}

/// Closing an edge of a spanning tree splits it in exactly two parts: every
/// cell stays joined to one end of the edge, and none to both.
pub proof fn lemma_cut_splits_in_two(g: Graph, p: Pos, q: Pos, x: Pos)
    requires
        g.is_tree(),
        g.linked(p, q),
        g.has(x),
    ensures
        g.without_edge(p, q).reachable(x, p) != g.without_edge(p, q).reachable(x, q),
{
    let h = g.without_edge(p, q);
    lemma_edge_symmetric(p, q);
    assert(g.edges.contains(edge(p, q)));
    lemma_cut_leaves_two_sides(g, p, q, x);
    lemma_tree_edge_is_bridge(g, p, q);
    if h.reachable(x, p) && h.reachable(x, q) {
        lemma_reach_sym(h, x, p);
        lemma_reach_trans(h, p, x, q);
    }
}

/// The end of a walk can be reached from any of its cells `lo` without the
/// edge between `p` and `q`, if the walk does not use that edge from `lo` on.
proof fn lemma_tail_avoids_edge(g: Graph, w: Seq<Pos>, lo: int, p: Pos, q: Pos)
    requires
        g.is_walk(w),
        0 <= lo < w.len(),
        forall|j: int| lo <= j < w.len() - 1 ==> edge(#[trigger] w[j], w[j + 1]) != edge(p, q),
    ensures
        g.without_edge(p, q).reachable(w[lo], w.last()),
{
    let h = g.without_edge(p, q);
    let tail = w.subrange(lo, w.len() as int);
    assert forall|i: int| 0 <= i < tail.len() - 1 implies #[trigger] h.hop(tail, i) by {
        assert(g.hop(w, lo + i));
        assert(edge(w[lo + i], w[lo + i + 1]) != edge(p, q));
    }
    assert(h.joins(tail, w[lo], w.last()));
}

/// The first place at which two different paths between the same two cells
/// part: up to `i` they agree, and at `i` they differ.
proof fn lemma_paths_part(g: Graph, a: Pos, b: Pos, v: Seq<Pos>, w: Seq<Pos>, upto: int) -> (i:
    int)
    requires
        g.is_path(v, a, b),
        g.is_path(w, a, b),
        v != w,
        1 <= upto <= v.len(),
        upto <= w.len(),
        forall|j: int| 0 <= j < upto ==> v[j] == w[j],
    ensures
        1 <= i < v.len(),
        i < w.len(),
        v[i] != w[i],
        forall|j: int| 0 <= j < i ==> v[j] == w[j],
    decreases v.len() - upto,
{
    if upto == v.len() || upto == w.len() {
        // One path would be the start of the other, and so would pass its
        // own last cell twice, unless the two are the same.
        if upto == v.len() && upto == w.len() {
            assert(v =~= w);
        } else if upto == v.len() {
            assert(w[upto - 1] == b);
            assert(w[w.len() - 1] == b);
        } else {
            assert(v[upto - 1] == b);
            assert(v[v.len() - 1] == b);
        }
        0
    } else if v[upto] != w[upto] {
        upto
    } else {
        lemma_paths_part(g, a, b, v, w, upto + 1)
    }
}

/// In a spanning tree there is one path between two cells and no other.
pub proof fn lemma_tree_path_unique(g: Graph, a: Pos, b: Pos, v: Seq<Pos>, w: Seq<Pos>)
    requires
        g.is_tree(),
        g.is_path(v, a, b),
        g.is_path(w, a, b),
    ensures
        v == w,
{
    if v != w {
        let i = lemma_paths_part(g, a, b, v, w, 1);
        let p = v[i - 1];
        let q = v[i];
        assert(w[i - 1] == p);
        assert(g.hop(v, i - 1));
        let h = g.without_edge(p, q);
        // Along the first path from `q` on, the edge is not used again.
        assert forall|j: int| i <= j < v.len() - 1 implies edge(#[trigger] v[j], v[j + 1])
            != edge(p, q) by {
            if edge(v[j], v[j + 1]) == edge(p, q) {
                lemma_edge_same_ends(v[j], v[j + 1], p, q);
            }
        }
        lemma_tail_avoids_edge(g, v, i, p, q);
        // Along the second path from `p` on, the edge is not used at all.
        assert forall|j: int| i - 1 <= j < w.len() - 1 implies edge(#[trigger] w[j], w[j + 1])
            != edge(p, q) by {
            if edge(w[j], w[j + 1]) == edge(p, q) {
                lemma_edge_same_ends(w[j], w[j + 1], p, q);
            }
        }
        lemma_tail_avoids_edge(g, w, i - 1, p, q);
        lemma_reach_sym(h, q, b);
        lemma_reach_trans(h, p, b, q);
        lemma_tree_edge_is_bridge(g, p, q);
    }
}

impl Graph {
    /// `c` is a cycle: a walk of at least three edges that returns to its
    /// start and otherwise repeats no cell.
    pub open spec fn is_cycle(self, c: Seq<Pos>) -> bool {
        &&& self.is_walk(c)
        &&& c.len() >= 4
        &&& c[0] == c.last()
        &&& c.drop_last().no_duplicates()
    }

    /// The graph has no cycle.
    pub open spec fn acyclic(self) -> bool {
        forall|c: Seq<Pos>| !self.is_cycle(c)
    }
}

/// A spanning tree has no cycle.
pub proof fn lemma_tree_is_acyclic(g: Graph)
    requires
        g.is_tree(),
    ensures
        g.acyclic(),
{
    assert forall|c: Seq<Pos>| !g.is_cycle(c) by {
        if g.is_cycle(c) {
            let n = c.len() as int;
            let first = c.drop_last();
            // Two ways from the second cell of the cycle to its start: one
            // step back, or all the way round.
            let short = seq![c[1], c[0]];
            assert(g.hop(c, 0));
            lemma_edge_symmetric(c[0], c[1]);
            assert(g.is_walk(short)) by {
                assert forall|i: int| 0 <= i < short.len() - 1 implies #[trigger] g.hop(
                    short,
                    i,
                ) by {}
            }
            assert(first[0] == c[0] && first[1] == c[1]);
            assert(short.no_duplicates());
            let round = c.subrange(1, n);
            assert(g.is_walk(round)) by {
                assert forall|i: int| 0 <= i < round.len() - 1 implies #[trigger] g.hop(
                    round,
                    i,
                ) by {
                    assert(g.hop(c, i + 1));
                }
            }
            assert(round.no_duplicates()) by {
                assert forall|i: int, j: int|
                    0 <= i < round.len() && 0 <= j < round.len() && i != j implies round[i]
                    != round[j] by {
                    let x = if i + 1 == n - 1 { 0 } else { i + 1 };
                    let y = if j + 1 == n - 1 { 0 } else { j + 1 };
                    assert(first[x] == round[i]);
                    assert(first[y] == round[j]);
                }
            }
            assert(g.is_path(short, c[1], c[0]));
            assert(g.is_path(round, c[1], c[0]));
            lemma_tree_path_unique(g, c[1], c[0], short, round);
            assert(round.len() == n - 1);
        }
    }
}

} // verus!
