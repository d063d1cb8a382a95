//! Maze generation: a randomised depth-first walk over the grid that opens
//! an edge whenever it enters a cell for the first time.

use vstd::prelude::*;
use rand::rngs::StdRng;
use crate::graph::{
    edge, lemma_connected_from_root, lemma_edge_symmetric, lemma_reach_edge,
    lemma_reach_monotone, lemma_reach_self, lemma_reach_trans, Graph,
};
use crate::grid::{
    adjacent, cells_of, lemma_cell_subset_count, lemma_cells_count, lemma_grid_connected,
    lemma_neighbors_of, lists_neighbors, neighbors, neighbors_of, Pos,
};
use crate::maze::Cells;
use crate::rng::shuffle;

verus! {

/// One level of the depth-first walk: a cell, its neighbours in the order in
/// which they are tried, and how many of them have been tried.
pub struct Frame {
    pub pos: Pos,
    pub around: Vec<Pos>,
    pub next: usize,
}

/// Some frame of the stack stands on `v`.
pub open spec fn on_stack(stack: Seq<Frame>, v: Pos) -> bool {
    exists|i: int| 0 <= i < stack.len() && (#[trigger] stack[i]).pos == v
}

/// Every neighbour of `v` inside the grid is in `marks`.
pub open spec fn surrounded(g: Graph, marks: Set<Pos>, v: Pos) -> bool {
    forall|u: Pos| g.has(u) && #[trigger] adjacent(v, u) ==> marks.contains(u)
}

/// The part of the maze built so far is a tree over the marked cells: it
/// has one edge less than there are marked cells, every edge joins marked
/// cells, and every marked cell is reachable from the origin.
#[verifier::opaque]
pub open spec fn grown(g: Graph, marks: Set<Pos>, origin: Pos) -> bool {
    &&& g.wf()
    &&& g.edges.finite()
    &&& marks.finite()
    &&& marks.subset_of(cells_of(g.rows, g.cols))
    &&& marks.contains(origin)
    &&& g.edges.len() + 1 == marks.len()
    &&& forall|e: (Pos, Pos)| #[trigger]
        g.edges.contains(e) ==> marks.contains(e.0) && marks.contains(e.1)
    &&& forall|v: Pos| #[trigger] marks.contains(v) ==> g.reachable(origin, v)
}

/// The stack of the walk fits the marks: every frame stands on a marked
/// cell and lists that cell's neighbours, those already tried are marked,
/// and every marked cell that no frame stands on has only marked neighbours.
#[verifier::opaque]
pub open spec fn walking(g: Graph, marks: Set<Pos>, stack: Seq<Frame>) -> bool {
    &&& forall|i: int|
        0 <= i < stack.len() ==> {
            &&& marks.contains((#[trigger] stack[i]).pos)
            &&& g.has(stack[i].pos)
            &&& lists_neighbors(g.rows, g.cols, stack[i].pos, stack[i].around@)
            &&& stack[i].next <= stack[i].around@.len()
            &&& tried_marked(marks, stack[i])
        }
    &&& forall|v: Pos|
        #![trigger marks.contains(v)]
        marks.contains(v) && !on_stack(stack, v) ==> surrounded(g, marks, v)
}

/// The neighbours that a frame has already tried are marked.
pub open spec fn tried_marked(marks: Set<Pos>, f: Frame) -> bool {
    forall|j: int| 0 <= j < f.next ==> marks.contains(#[trigger] f.around@[j])
}

/// A shuffled list of neighbours still lists the neighbours.
proof fn lemma_shuffled_lists(g: Graph, p: Pos, shuffled: Seq<Pos>)
    requires
        g.wf(),
        g.has(p),
        shuffled.to_multiset() == neighbors_of(g.rows, g.cols, p).to_multiset(),
    ensures
        lists_neighbors(g.rows, g.cols, p, shuffled),
        shuffled.len() <= 4,
{
    let plain = neighbors_of(g.rows, g.cols, p);
    lemma_neighbors_of(g.rows, g.cols, p);
    plain.to_multiset_ensures();
    shuffled.to_multiset_ensures();
    plain.lemma_multiset_has_no_duplicates();
    assert forall|x: Pos| shuffled.to_multiset().contains(x) implies shuffled.to_multiset().count(
        x,
    ) == 1 by {}
    shuffled.lemma_multiset_has_no_duplicates_conv();
    assert forall|q: Pos| shuffled.contains(q) <==> (g.has(q) && adjacent(p, q)) by {
        assert(shuffled.contains(q) <==> shuffled.to_multiset().count(q) > 0);
        assert(plain.contains(q) <==> plain.to_multiset().count(q) > 0);
    }
}

proof fn lemma_walk_start(g: Graph, origin: Pos, first: Frame)
    requires
        g.wf(),
        g.edges == Set::<(Pos, Pos)>::empty(),
        g.has(origin),
        first.pos == origin,
        first.next == 0,
        lists_neighbors(g.rows, g.cols, origin, first.around@),
    ensures
        grown(g, set![origin], origin),
        walking(g, set![origin], seq![first]),
{
    reveal(grown);
    reveal(walking);
    lemma_reach_self(g, origin);
    let stack = seq![first];
    assert(stack[0].pos == origin);
    assert(on_stack(stack, origin));
}

proof fn lemma_walk_facts(g: Graph, marks: Set<Pos>, origin: Pos, stack: Seq<Frame>)
    requires
        grown(g, marks, origin),
        walking(g, marks, stack),
    ensures
        marks.finite(),
        marks.len() <= g.rows * g.cols,
        g.wf(),
        stack.len() > 0 ==> {
            &&& g.has(stack.last().pos)
            &&& stack.last().next <= stack.last().around@.len()
            &&& lists_neighbors(g.rows, g.cols, stack.last().pos, stack.last().around@)
        },
{
    reveal(grown);
    reveal(walking);
    lemma_cell_subset_count(g.rows, g.cols, marks);
    if stack.len() > 0 {
        let top = stack[stack.len() - 1];
        assert(marks.contains(top.pos));
    }
}

proof fn lemma_walk_pop(g: Graph, marks: Set<Pos>, stack: Seq<Frame>)
    requires
        g.wf(),
        walking(g, marks, stack),
        stack.len() > 0,
        stack.last().next >= stack.last().around@.len(),
    ensures
        walking(g, marks, stack.drop_last()),
{
    reveal(walking);
    let rest = stack.drop_last();
    let top = stack[stack.len() - 1];
    assert(marks.contains(top.pos));
    assert forall|i: int| 0 <= i < rest.len() implies {
        &&& marks.contains((#[trigger] rest[i]).pos)
        &&& g.has(rest[i].pos)
        &&& lists_neighbors(g.rows, g.cols, rest[i].pos, rest[i].around@)
        &&& rest[i].next <= rest[i].around@.len()
        &&& tried_marked(marks, rest[i])
    } by {
        assert(rest[i] == stack[i]);
    }
    assert forall|v: Pos|
        #![trigger marks.contains(v)]
        marks.contains(v) && !on_stack(rest, v) implies surrounded(g, marks, v) by {
        if on_stack(stack, v) {
            let i = choose|i: int| 0 <= i < stack.len() && (#[trigger] stack[i]).pos == v;
            if i < rest.len() {
                assert(rest[i].pos == v);
            }
            assert(v == top.pos);
            assert forall|u: Pos| g.has(u) && #[trigger] adjacent(v, u) implies marks.contains(
                u,
            ) by {
                assert(top.around@.contains(u));
                let j = choose|j: int| 0 <= j < top.around@.len() && top.around@[j] == u;
                assert(marks.contains(top.around@[j]));
            }
        }
    }
}

proof fn lemma_walk_skip(g: Graph, marks: Set<Pos>, stack: Seq<Frame>, moved: Frame)
    requires
        walking(g, marks, stack),
        stack.len() > 0,
        stack.last().next < stack.last().around@.len(),
        marks.contains(stack.last().around@[stack.last().next as int]),
        moved.pos == stack.last().pos,
        moved.around@ == stack.last().around@,
        moved.next == stack.last().next + 1,
    ensures
        walking(g, marks, stack.update(stack.len() - 1, moved)),
{
    reveal(walking);
    let last = stack.len() - 1;
    let after = stack.update(last, moved);
    assert(marks.contains(stack[last].pos));
    assert forall|i: int| 0 <= i < after.len() implies {
        &&& marks.contains((#[trigger] after[i]).pos)
        &&& g.has(after[i].pos)
        &&& lists_neighbors(g.rows, g.cols, after[i].pos, after[i].around@)
        &&& after[i].next <= after[i].around@.len()
        &&& tried_marked(marks, after[i])
    } by {
        if i < last {
            assert(after[i] == stack[i]);
        } else {
            assert(tried_marked(marks, stack[last]));
        }
    }
    assert forall|v: Pos|
        #![trigger marks.contains(v)]
        marks.contains(v) && !on_stack(after, v) implies surrounded(g, marks, v) by {
        if on_stack(stack, v) {
            let i = choose|i: int| 0 <= i < stack.len() && (#[trigger] stack[i]).pos == v;
            assert(after[i].pos == v);
        }
    }
}

proof fn lemma_walk_visit(
    g: Graph,
    marks: Set<Pos>,
    origin: Pos,
    stack: Seq<Frame>,
    moved: Frame,
    entered: Frame,
)
    requires
        grown(g, marks, origin),
        walking(g, marks, stack),
        stack.len() > 0,
        stack.last().next < stack.last().around@.len(),
        !marks.contains(stack.last().around@[stack.last().next as int]),
        moved.pos == stack.last().pos,
        moved.around@ == stack.last().around@,
        moved.next == stack.last().next + 1,
        entered.pos == stack.last().around@[stack.last().next as int],
        entered.next == 0,
        lists_neighbors(g.rows, g.cols, entered.pos, entered.around@),
    ensures
        g.has(entered.pos),
        adjacent(moved.pos, entered.pos),
        grown(g.with_edge(moved.pos, entered.pos), marks.insert(entered.pos), origin),
        walking(
            g.with_edge(moved.pos, entered.pos),
            marks.insert(entered.pos),
            stack.update(stack.len() - 1, moved).push(entered),
        ),
        marks.insert(entered.pos).len() == marks.len() + 1,
{
    reveal(grown);
    reveal(walking);
    let last = stack.len() - 1;
    let top = stack[last];
    let n = entered.pos;
    let h = g.with_edge(top.pos, n);
    let more = marks.insert(n);
    let after = stack.update(last, moved).push(entered);
    assert(marks.contains(top.pos));
    assert(top.around@.contains(top.around@[top.next as int]));
    assert(g.has(n) && adjacent(top.pos, n));
    lemma_edge_symmetric(top.pos, n);
    assert(!g.edges.contains(edge(top.pos, n)));
    assert(h.wf());
    assert(h.linked(top.pos, n));
    lemma_reach_edge(h, top.pos, n);
    assert(g.edges.subset_of(h.edges));
    assert forall|v: Pos| #[trigger] more.contains(v) implies h.reachable(origin, v) by {
        if v == n {
            lemma_reach_monotone(g, h, origin, top.pos);
            lemma_reach_trans(h, origin, top.pos, n);
        } else {
            lemma_reach_monotone(g, h, origin, v);
        }
    }
    assert forall|i: int| 0 <= i < after.len() implies {
        &&& more.contains((#[trigger] after[i]).pos)
        &&& h.has(after[i].pos)
        &&& lists_neighbors(h.rows, h.cols, after[i].pos, after[i].around@)
        &&& after[i].next <= after[i].around@.len()
        &&& tried_marked(more, after[i])
    } by {
        if i < last {
            assert(after[i] == stack[i]);
            assert(tried_marked(marks, stack[i]));
        } else if i == last {
            assert(tried_marked(marks, stack[last]));
        }
    }
    assert forall|v: Pos|
        #![trigger more.contains(v)]
        more.contains(v) && !on_stack(after, v) implies surrounded(h, more, v) by {
        assert(after[last + 1].pos == n);
        assert(v != n);
        if on_stack(stack, v) {
            let i = choose|i: int| 0 <= i < stack.len() && (#[trigger] stack[i]).pos == v;
            assert(after[i].pos == v);
        }
        assert(surrounded(g, marks, v));
    }
}

proof fn lemma_walk_end(g: Graph, marks: Set<Pos>, origin: Pos)
    requires
        g.has(origin),
        grown(g, marks, origin),
        walking(g, marks, Seq::<Frame>::empty()),
    ensures
        g.is_tree(),
        marks == cells_of(g.rows, g.cols),
{
    reveal(grown);
    reveal(walking);
    let none = Seq::<Frame>::empty();
    assert forall|p: Pos| g.has(p) implies marks.contains(p) by {
        assert forall|u: Pos, v: Pos|
            marks.contains(u) && g.has(v) && #[trigger] adjacent(u, v) implies marks.contains(
            v,
        ) by {
            assert(!on_stack(none, u));
            assert(surrounded(g, marks, u));
        }
        lemma_grid_connected(g.rows, g.cols, marks, origin, p);
    }
    assert(marks =~= cells_of(g.rows, g.cols));
    lemma_cell_subset_count(g.rows, g.cols, marks);
    lemma_cells_count(g.rows, g.cols);
    assert forall|p: Pos| g.has(p) implies #[trigger] g.reachable(origin, p) by {
        assert(marks.contains(p));
    }
    lemma_connected_from_root(g, origin);
}

impl Cells {
    /// Builds a perfect maze on a blank grid by a randomised depth-first
    /// walk from `origin`: the walk enters each cell once, over an edge that
    /// it opens, and so leaves a spanning tree behind. Every cell ends up
    /// marked.
    pub fn build(&mut self, origin: Pos, rng: &mut StdRng)
        requires
            old(self).blank(),
            old(self).holds(origin),
        ensures
            final(self).is_perfect(),
            final(self)@.rows == old(self)@.rows,
            final(self)@.cols == old(self)@.cols,
            final(self).marks() == cells_of(old(self)@.rows, old(self)@.cols),
    {
        let rows = self.rows();
        let cols = self.cols();
        proof {
            self.lemma_view_wf();
        }
        self.mark(origin);
        let mut around = neighbors(rows, cols, origin);
        shuffle(&mut around, rng);
        let first = Frame { pos: origin, around, next: 0 };
        let mut stack: Vec<Frame> = Vec::new();
        proof {
            lemma_shuffled_lists(self@, origin, first.around@);
            lemma_walk_start(self@, origin, first);
            assert(self.marks() =~= set![origin]);
            assert(stack@.push(first) =~= seq![first]);
        }
        stack.push(first);
        while stack.len() > 0
            invariant
                self.wf(),
                self@.rows == rows,
                self@.cols == cols,
                self.holds(origin),
                grown(self@, self.marks(), origin),
                walking(self@, self.marks(), stack@),
            decreases
                    rows * cols - self.marks().len(),
                    stack@.len(),
                    (if stack@.len() > 0 {
                        stack@.last().around@.len() - stack@.last().next
                    } else {
                        0
                    }),
        {
            proof {
                lemma_walk_facts(self@, self.marks(), origin, stack@);
            }
            let last = stack.len() - 1;
            let k = stack[last].next;
            if k >= stack[last].around.len() {
                proof {
                    lemma_walk_pop(self@, self.marks(), stack@);
                }
                stack.pop();
            } else {
                let here = stack[last].pos;
                let n = stack[last].around[k];
                let ghost before_stack = stack@;
                stack[last].next = k + 1;
                proof {
                    assert(stack@ == before_stack.update(last as int, stack@[last as int]));
                    assert(before_stack[last as int].around@.contains(n));
                }
                if self.is_marked(n) {
                    proof {
                        lemma_walk_skip(self@, self.marks(), before_stack, stack@[last as int]);
                    }
                } else {
                    let mut around = neighbors(rows, cols, n);
                    shuffle(&mut around, rng);
                    let entered = Frame { pos: n, around, next: 0 };
                    proof {
                        lemma_shuffled_lists(self@, n, entered.around@);
                        lemma_walk_visit(
                            self@,
                            self.marks(),
                            origin,
                            before_stack,
                            stack@[last as int],
                            entered,
                        );
                    }
                    self.open_edge(here, n);
                    self.mark(n);
                    stack.push(entered);
                    proof {
                        lemma_walk_facts(self@, self.marks(), origin, stack@);
                    }
                }
            }
        }
        proof {
            assert(stack@ =~= Seq::<Frame>::empty());
            lemma_walk_end(self@, self.marks(), origin);
        }
    }

    /// A fresh perfect maze of `rows` x `cols` cells, generated from the
    /// top-left cell. `None` exactly when `Cells::new` refuses the
    /// dimensions.
    pub fn generate(rows: usize, cols: usize, rng: &mut StdRng) -> (made: Option<Cells>)
        ensures
            made.is_some() == (rows >= 1 && cols >= 1 && 2 * (rows * cols) <= usize::MAX),
            match made {
                Some(maze) => maze.is_perfect() && maze@.rows == rows && maze@.cols == cols,
                None => true,
            },
    {
        match Cells::new(rows, cols) {
            None => None,
            Some(blank) => {
                let mut maze = blank;
                maze.build(Pos { x: 0, y: 0 }, rng);
                Some(maze)
            },
        }
    }

    /// Discards the maze and generates a new one of the same size from the
    /// top-left cell.
    pub fn regenerate(&mut self, rng: &mut StdRng)
        requires
            old(self).rectangular(),
        ensures
            final(self).is_perfect(),
            final(self)@.rows == old(self)@.rows,
            final(self)@.cols == old(self)@.cols,
    {
        let made = Cells::generate(self.rows(), self.cols(), rng);
        *self = made.unwrap();
    }
}

} // verus!
