//! The mathematical model of a maze: a set of open edges over the grid graph,
//! with walks, reachability, connectivity and the spanning-tree property.

use vstd::prelude::*;
use crate::grid::{adjacent, inside, Pos};

verus! {

/// `a` comes before `b` in row-major order.
pub open spec fn before(a: Pos, b: Pos) -> bool {
    a.y < b.y || (a.y == b.y && a.x < b.x)
}

/// The unordered edge between `a` and `b`, written with its row-major
/// smaller end first.
pub open spec fn edge(a: Pos, b: Pos) -> (Pos, Pos) {
    if before(a, b) {
        (a, b)
    } else {
        (b, a)
    }
}

/// The open edges of a maze over a `rows` x `cols` grid.
pub struct Graph {
    pub rows: int,
    pub cols: int,
    pub edges: Set<(Pos, Pos)>,
}

impl Graph {
    /// The grid is non-empty and every edge joins two adjacent in-bounds
    /// cells, smaller end first.
    pub open spec fn wf(self) -> bool {
        &&& 1 <= self.rows <= usize::MAX
        &&& 1 <= self.cols <= usize::MAX
        &&& forall|e: (Pos, Pos)| #[trigger]
            self.edges.contains(e) ==> {
                &&& inside(self.rows, self.cols, e.0)
                &&& inside(self.rows, self.cols, e.1)
                &&& adjacent(e.0, e.1)
                &&& before(e.0, e.1)
            }
    }

    /// `p` is a cell of this grid.
    pub open spec fn has(self, p: Pos) -> bool {
        inside(self.rows, self.cols, p)
    }

    /// The edge between the adjacent cells `a` and `b` is open.
    pub open spec fn linked(self, a: Pos, b: Pos) -> bool {
        adjacent(a, b) && self.edges.contains(edge(a, b))
    }

    /// The `i`-th step of `w` goes over an open edge.
    pub open spec fn hop(self, w: Seq<Pos>, i: int) -> bool {
        self.linked(w[i], w[i + 1])
    }

    /// `w` is a non-empty sequence of cells in which each consecutive pair is
    /// joined by an open edge.
    pub open spec fn is_walk(self, w: Seq<Pos>) -> bool {
        &&& w.len() >= 1
        &&& forall|i: int| 0 <= i < w.len() - 1 ==> #[trigger] self.hop(w, i)
    }

    /// `w` is a walk from `a` to `b`.
    pub open spec fn joins(self, w: Seq<Pos>, a: Pos, b: Pos) -> bool {
        &&& self.is_walk(w)
        &&& w[0] == a
        &&& w[w.len() - 1] == b
    }

    /// `w` is a path from `a` to `b`: a walk that repeats no cell.
    pub open spec fn is_path(self, w: Seq<Pos>, a: Pos, b: Pos) -> bool {
        self.joins(w, a, b) && w.no_duplicates()
    }

    /// Some walk over open edges leads from `a` to `b`.
    pub open spec fn reachable(self, a: Pos, b: Pos) -> bool {
        exists|w: Seq<Pos>| self.joins(w, a, b)
    }

    /// The cells that can be reached from `a`.
    pub open spec fn component(self, a: Pos) -> Set<Pos> {
        Set::new(|p: Pos| self.reachable(a, p))
    }

    /// Every cell is reachable from every other cell.
    pub open spec fn connected(self) -> bool {
        forall|a: Pos, b: Pos| self.has(a) && self.has(b) ==> #[trigger] self.reachable(a, b)
    }

    /// The open edges form a spanning tree of the grid graph: the graph is
    /// connected and has exactly `rows * cols - 1` edges.
    pub open spec fn is_tree(self) -> bool {
        &&& self.wf()
        &&& self.edges.finite()
        &&& self.edges.len() == self.rows * self.cols - 1
        &&& self.connected()
    }

    /// The same grid with the edge between `a` and `b` opened.
    pub open spec fn with_edge(self, a: Pos, b: Pos) -> Graph {
        Graph { rows: self.rows, cols: self.cols, edges: self.edges.insert(edge(a, b)) }
    }

    /// The same grid with the edge between `a` and `b` closed.
    pub open spec fn without_edge(self, a: Pos, b: Pos) -> Graph {
        Graph { rows: self.rows, cols: self.cols, edges: self.edges.remove(edge(a, b)) }
    }
}

/// An edge does not depend on the order of its ends.
pub proof fn lemma_edge_symmetric(a: Pos, b: Pos)
    requires
        adjacent(a, b),
    ensures
        edge(a, b) == edge(b, a),
        adjacent(b, a),
        before(edge(a, b).0, edge(a, b).1),
        edge(a, b) == (a, b) || edge(a, b) == (b, a),
{
}

/// Two adjacent pairs name the same edge only if they have the same ends.
pub proof fn lemma_edge_same_ends(a: Pos, b: Pos, c: Pos, d: Pos)
    requires
        edge(a, b) == edge(c, d),
    ensures
        (a == c && b == d) || (a == d && b == c),
{
}

/// Every cell reaches itself.
pub proof fn lemma_reach_self(g: Graph, a: Pos)
    ensures
        g.reachable(a, a),
{
    assert(g.joins(seq![a], a, a));
}

/// A walk can be extended at its front by one open edge.
pub proof fn lemma_walk_prepend(g: Graph, a: Pos, w: Seq<Pos>)
    requires
        g.is_walk(w),
        g.linked(a, w[0]),
    ensures
        g.is_walk(seq![a] + w),
        (seq![a] + w)[0] == a,
        (seq![a] + w).last() == w.last(),
{
    let v = seq![a] + w;
    assert forall|i: int| 0 <= i < v.len() - 1 implies #[trigger] g.hop(v, i) by {
        if i > 0 {
            assert(g.hop(w, i - 1));
            assert(v[i] == w[i - 1]);
            assert(v[i + 1] == w[i]);
        }
    }
}

/// A walk can be extended at its end by one open edge.
pub proof fn lemma_walk_push(g: Graph, w: Seq<Pos>, b: Pos)
    requires
        g.is_walk(w),
        g.linked(w.last(), b),
    ensures
        g.is_walk(w.push(b)),
        w.push(b)[0] == w[0],
        w.push(b).last() == b,
{
    let v = w.push(b);
    assert forall|i: int| 0 <= i < v.len() - 1 implies #[trigger] g.hop(v, i) by {
        if i < w.len() - 1 {
            assert(g.hop(w, i));
            assert(v[i] == w[i]);
            assert(v[i + 1] == w[i + 1]);
        }
    }
}

/// An open edge followed by a walk is a walk.
pub proof fn lemma_reach_step(g: Graph, a: Pos, b: Pos, c: Pos)
    requires
        g.linked(a, b),
        g.reachable(b, c),
    ensures
        g.reachable(a, c),
{
    let w = choose|w: Seq<Pos>| g.joins(w, b, c);
    lemma_walk_prepend(g, a, w);
    assert(g.joins(seq![a] + w, a, c));
}

/// Two walks that meet end to start make one walk.
pub proof fn lemma_walk_concat(g: Graph, v: Seq<Pos>, w: Seq<Pos>)
    requires
        g.is_walk(v),
        g.is_walk(w),
        v.last() == w[0],
    ensures
        g.is_walk(v + w.drop_first()),
        (v + w.drop_first())[0] == v[0],
        (v + w.drop_first()).last() == w.last(),
{
    let t = w.drop_first();
    let u = v + t;
    assert forall|i: int| 0 <= i < u.len() - 1 implies #[trigger] g.hop(u, i) by {
        if i < v.len() - 1 {
            assert(g.hop(v, i));
            assert(u[i] == v[i]);
            assert(u[i + 1] == v[i + 1]);
        } else if i == v.len() - 1 {
            assert(g.hop(w, 0));
            assert(u[i] == w[0]);
            assert(u[i + 1] == w[1]);
        } else {
            assert(g.hop(w, i - v.len() + 1));
            assert(u[i] == w[i - v.len() + 1]);
            assert(u[i + 1] == w[i - v.len() + 1 + 1]);
        }
    }
}

/// Reachability is transitive.
pub proof fn lemma_reach_trans(g: Graph, a: Pos, b: Pos, c: Pos)
    requires
        g.reachable(a, b),
        g.reachable(b, c),
    ensures
        g.reachable(a, c),
{
    let v = choose|v: Seq<Pos>| g.joins(v, a, b);
    let w = choose|w: Seq<Pos>| g.joins(w, b, c);
    lemma_walk_concat(g, v, w);
    assert(g.joins(v + w.drop_first(), a, c));
}

/// A walk read backwards is a walk.
pub proof fn lemma_walk_reverse(g: Graph, w: Seq<Pos>)
    requires
        g.is_walk(w),
    ensures
        g.is_walk(w.reverse()),
        w.reverse()[0] == w.last(),
        w.reverse().last() == w[0],
        w.reverse().len() == w.len(),
{
    let r = w.reverse();
    assert forall|i: int| 0 <= i < r.len() - 1 implies #[trigger] g.hop(r, i) by {
        let j = w.len() - 2 - i;
        assert(g.hop(w, j));
        lemma_edge_symmetric(w[j], w[j + 1]);
    }
}

/// Reachability is symmetric.
pub proof fn lemma_reach_sym(g: Graph, a: Pos, b: Pos)
    requires
        g.reachable(a, b),
    ensures
        g.reachable(b, a),
{
    let w = choose|w: Seq<Pos>| g.joins(w, a, b);
    lemma_walk_reverse(g, w);
    assert(g.joins(w.reverse(), b, a));
}

/// An open edge makes its ends reachable from each other.
pub proof fn lemma_reach_edge(g: Graph, a: Pos, b: Pos)
    requires
        g.linked(a, b),
    ensures
        g.reachable(a, b),
        g.reachable(b, a),
{
    lemma_reach_self(g, b);
    lemma_reach_step(g, a, b, b);
    lemma_reach_sym(g, a, b);
}

/// If whatever one graph links the other can reach, then whatever the first
/// can reach the second can reach too.
pub proof fn lemma_reach_transfer(g: Graph, h: Graph, a: Pos, b: Pos)
    requires
        g.reachable(a, b),
        forall|u: Pos, v: Pos| #[trigger] g.linked(u, v) ==> h.reachable(u, v),
    ensures
        h.reachable(a, b),
{
    let w = choose|w: Seq<Pos>| g.joins(w, a, b);
    lemma_walk_transfer(g, h, w, w.len() - 1);
}

proof fn lemma_walk_transfer(g: Graph, h: Graph, w: Seq<Pos>, k: int)
    requires
        g.is_walk(w),
        0 <= k < w.len(),
        forall|u: Pos, v: Pos| #[trigger] g.linked(u, v) ==> h.reachable(u, v),
    ensures
        h.reachable(w[0], w[k]),
    decreases k,
{
    if k == 0 {
        lemma_reach_self(h, w[0]);
    } else {
        lemma_walk_transfer(g, h, w, k - 1);
        assert(g.hop(w, k - 1));
        lemma_reach_trans(h, w[0], w[k - 1], w[k]);
    }
}

/// Opening more edges keeps every cell reachable that was reachable.
pub proof fn lemma_reach_monotone(g: Graph, h: Graph, a: Pos, b: Pos)
    requires
        g.reachable(a, b),
        g.edges.subset_of(h.edges),
    ensures
        h.reachable(a, b),
{
    assert forall|u: Pos, v: Pos| #[trigger] g.linked(u, v) implies h.reachable(u, v) by {
        assert(h.linked(u, v));
        lemma_reach_edge(h, u, v);
    }
    lemma_reach_transfer(g, h, a, b);
}

/// A set of cells that holds `a` and is closed under open edges holds every
/// cell reachable from `a`.
pub proof fn lemma_closed_set_holds_reachable(g: Graph, s: Set<Pos>, a: Pos, b: Pos)
    requires
        s.contains(a),
        forall|u: Pos, v: Pos| s.contains(u) && #[trigger] g.linked(u, v) ==> s.contains(v),
        g.reachable(a, b),
    ensures
        s.contains(b),
{
    let w = choose|w: Seq<Pos>| g.joins(w, a, b);
    lemma_closed_set_holds_walk(g, s, w, w.len() - 1);
}

proof fn lemma_closed_set_holds_walk(g: Graph, s: Set<Pos>, w: Seq<Pos>, k: int)
    requires
        g.is_walk(w),
        0 <= k < w.len(),
        s.contains(w[0]),
        forall|u: Pos, v: Pos| s.contains(u) && #[trigger] g.linked(u, v) ==> s.contains(v),
    ensures
        s.contains(w[k]),
    decreases k,
{
    if k > 0 {
        lemma_closed_set_holds_walk(g, s, w, k - 1);
        assert(g.hop(w, k - 1));
    }
}

/// In a well-formed graph a walk that starts inside the grid stays inside.
pub proof fn lemma_reachable_inside(g: Graph, a: Pos, b: Pos)
    requires
        g.wf(),
        g.has(a),
        g.reachable(a, b),
    ensures
        g.has(b),
{
    let s = Set::new(|p: Pos| g.has(p));
    assert forall|u: Pos, v: Pos| s.contains(u) && #[trigger] g.linked(u, v) implies s.contains(
        v,
    ) by {
        lemma_edge_symmetric(u, v);
        assert(g.edges.contains(edge(u, v)));
    }
    lemma_closed_set_holds_reachable(g, s, a, b);
}

/// A graph in which every cell is reachable from one cell is connected.
pub proof fn lemma_connected_from_root(g: Graph, root: Pos)
    requires
        forall|p: Pos| g.has(p) ==> #[trigger] g.reachable(root, p),
    ensures
        g.connected(),
{
    assert forall|a: Pos, b: Pos| g.has(a) && g.has(b) implies #[trigger] g.reachable(a, b) by {
        assert(g.reachable(root, a));
        assert(g.reachable(root, b));
        lemma_reach_sym(g, root, a);
        lemma_reach_trans(g, a, root, b);
    }
}

} // verus!
