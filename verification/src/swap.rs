//! Why a one-edge swap keeps a spanning tree a spanning tree.

use vstd::prelude::*;
use crate::graph::{
    edge, lemma_connected_from_root, lemma_edge_same_ends, lemma_edge_symmetric, lemma_reach_edge,
    lemma_reach_monotone, lemma_reach_self, lemma_reach_step, lemma_reach_sym,
    lemma_reach_trans, lemma_reach_transfer, lemma_walk_reverse, Graph,
};
use crate::grid::{adjacent, Pos};

verus! {

/// After the edge between `p` and `q` is closed, every cell on a walk that
/// ended in `p` still reaches `p` or `q`.
proof fn lemma_cut_walk(g: Graph, p: Pos, q: Pos, w: Seq<Pos>, i: int)
    requires
        g.is_walk(w),
        w.last() == p,
        adjacent(p, q),
        0 <= i < w.len(),
    ensures
        g.without_edge(p, q).reachable(w[i], p) || g.without_edge(p, q).reachable(w[i], q),
    decreases w.len() - i,
{
    let h = g.without_edge(p, q);
    if i == w.len() - 1 {
        lemma_reach_self(h, p);
    } else {
        lemma_cut_walk(g, p, q, w, i + 1);
        assert(g.hop(w, i));
        if edge(w[i], w[i + 1]) == edge(p, q) {
            lemma_edge_same_ends(w[i], w[i + 1], p, q);
            lemma_reach_self(h, w[i]);
        } else {
            assert(h.linked(w[i], w[i + 1]));
            if h.reachable(w[i + 1], p) {
                lemma_reach_step(h, w[i], w[i + 1], p);
            } else {
                lemma_reach_step(h, w[i], w[i + 1], q);
            }
        }
    }
}

/// Closing one edge of a connected graph leaves every cell joined to one of
/// the two ends of that edge.
pub proof fn lemma_cut_leaves_two_sides(g: Graph, p: Pos, q: Pos, x: Pos)
    requires
        g.connected(),
        g.has(p),
        g.has(x),
        adjacent(p, q),
    ensures
        g.without_edge(p, q).reachable(x, p) || g.without_edge(p, q).reachable(x, q),
{
    assert(g.reachable(x, p));
    let w = choose|w: Seq<Pos>| g.joins(w, x, p);
    lemma_cut_walk(g, p, q, w, 0);
}

/// Shore swap: closing the tree edge between `p` and `q` and then opening an
/// edge between two adjacent cells `u` and `v` that the cut has separated
/// gives a spanning tree again.
pub proof fn lemma_shore_swap_keeps_tree(g: Graph, p: Pos, q: Pos, u: Pos, v: Pos)
    requires
        g.is_tree(),
        g.linked(p, q),
        g.has(u),
        g.has(v),
        adjacent(u, v),
        !g.without_edge(p, q).reachable(u, v),
    ensures
        !g.without_edge(p, q).linked(u, v),
        g.without_edge(p, q).with_edge(u, v).is_tree(),
{
    let h = g.without_edge(p, q);
    let t = h.with_edge(u, v);
    lemma_edge_symmetric(p, q);
    lemma_edge_symmetric(u, v);
    assert(g.edges.contains(edge(p, q)));
    assert(g.has(p) && g.has(q));
    if h.linked(u, v) {
        lemma_reach_edge(h, u, v);
    }
    assert(t.wf());
    lemma_cut_leaves_two_sides(g, p, q, u);
    lemma_cut_leaves_two_sides(g, p, q, v);
    assert(h.edges.subset_of(t.edges));
    assert(t.linked(u, v));
    lemma_reach_edge(t, u, v);
    // The two ends of the closed edge meet again over the new edge.
    assert(t.reachable(q, p)) by {
        if h.reachable(u, p) {
            if h.reachable(v, p) {
                lemma_reach_sym(h, v, p);
                lemma_reach_trans(h, u, p, v);
            }
            assert(h.reachable(v, q));
            lemma_reach_monotone(h, t, u, p);
            lemma_reach_monotone(h, t, v, q);
            lemma_reach_sym(t, v, q);
            lemma_reach_trans(t, q, v, u);
            lemma_reach_trans(t, q, u, p);
        } else {
            assert(h.reachable(u, q));
            if h.reachable(v, q) {
                lemma_reach_sym(h, v, q);
                lemma_reach_trans(h, u, q, v);
            }
            assert(h.reachable(v, p));
            lemma_reach_monotone(h, t, u, q);
            lemma_reach_monotone(h, t, v, p);
            lemma_reach_sym(t, u, q);
            lemma_reach_trans(t, q, u, v);
            lemma_reach_trans(t, q, v, p);
        }
    }
    assert forall|x: Pos| t.has(x) implies #[trigger] t.reachable(p, x) by {
        lemma_cut_leaves_two_sides(g, p, q, x);
        if h.reachable(x, p) {
            lemma_reach_monotone(h, t, x, p);
        } else {
            lemma_reach_monotone(h, t, x, q);
            lemma_reach_trans(t, x, q, p);
        }
        lemma_reach_sym(t, x, p);
    }
    lemma_connected_from_root(t, p);
}

/// Cycle swap: opening the closed edge between the two ends of a path and
/// then closing any one edge of that path gives a spanning tree again.
pub proof fn lemma_cycle_swap_keeps_tree(g: Graph, w: Seq<Pos>, k: int)
    requires
        g.is_tree(),
        g.is_path(w, w[0], w.last()),
        g.has(w[0]),
        g.has(w.last()),
        adjacent(w[0], w.last()),
        !g.linked(w[0], w.last()),
        0 <= k < w.len() - 1,
    ensures
        g.edges.contains(edge(w[k], w[k + 1])),
        edge(w[k], w[k + 1]) != edge(w[0], w.last()),
        g.with_edge(w[0], w.last()).without_edge(w[k], w[k + 1]).is_tree(),
{
    let p = w[0];
    let q = w.last();
    let a = w[k];
    let b = w[k + 1];
    let h = g.with_edge(p, q);
    let t = h.without_edge(a, b);
    lemma_edge_symmetric(p, q);
    assert(g.hop(w, k));
    lemma_edge_symmetric(a, b);
    assert(t.wf());
    assert(t.linked(p, q));
    lemma_reach_edge(t, p, q);
    let front = w.subrange(0, k + 1);
    let back = w.subrange(k + 1, w.len() as int);
    assert(t.is_walk(front)) by {
        assert forall|i: int| 0 <= i < front.len() - 1 implies #[trigger] t.hop(
            front,
            i,
        ) by {
            assert(g.hop(w, i));
            if edge(w[i], w[i + 1]) == edge(a, b) {
                lemma_edge_same_ends(w[i], w[i + 1], a, b);
            }
        }
    }
    assert(t.is_walk(back)) by {
        assert forall|i: int| 0 <= i < back.len() - 1 implies #[trigger] t.hop(
            back,
            i,
        ) by {
            let j = i + k + 1;
            assert(g.hop(w, j));
            if edge(w[j], w[j + 1]) == edge(a, b) {
                lemma_edge_same_ends(w[j], w[j + 1], a, b);
            }
        }
    }
    // The closed edge is bypassed around the rest of the cycle.
    assert(t.reachable(a, b)) by {
        lemma_walk_reverse(t, front);
        assert(t.joins(front.reverse(), a, p));
        assert(t.joins(back, b, q));
        lemma_reach_sym(t, b, q);
        lemma_reach_trans(t, a, p, q);
        lemma_reach_trans(t, a, q, b);
    }
    lemma_reach_sym(t, a, b);
    assert forall|x: Pos, y: Pos| #[trigger] g.linked(x, y) implies t.reachable(x, y) by {
        if edge(x, y) == edge(a, b) {
            lemma_edge_same_ends(x, y, a, b);
        } else {
            assert(t.linked(x, y));
            lemma_reach_edge(t, x, y);
        }
    }
    assert forall|x: Pos, y: Pos| t.has(x) && t.has(y) implies #[trigger] t.reachable(x, y) by {
        assert(g.reachable(x, y));
        lemma_reach_transfer(g, t, x, y);
    }
}

} // verus!
