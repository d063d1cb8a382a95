//! Mutation: one edge of the spanning tree is closed and another opened, so
//! that the maze changes and stays perfect.

use vstd::prelude::*;
use rand::rngs::StdRng;
use crate::graph::{
    edge, lemma_edge_same_ends, lemma_edge_symmetric, lemma_reach_edge, lemma_reach_trans, Graph,
};
use crate::grid::{adjacent, Pos};
use crate::maze::Cells;
use crate::rng::{choose_from_iter, choose_from_slice, random_below};
use crate::swap::{lemma_cycle_swap_keeps_tree, lemma_shore_swap_keeps_tree};

verus! {

/// What one mutation did: the edge it closed and the edge it opened, each
/// given by its two ends.
#[derive(Clone, Copy, Debug, PartialEq, Eq)]
pub struct EdgeSwap {
    pub closed: (Pos, Pos),
    pub opened: (Pos, Pos),
}

/// `after` is `before` with the open edge `swap.closed` closed and the
/// closed edge `swap.opened` opened, and nothing else changed.
pub open spec fn is_swap(before: Graph, after: Graph, swap: EdgeSwap) -> bool {
    &&& before.linked(swap.closed.0, swap.closed.1)
    &&& before.has(swap.opened.0)
    &&& before.has(swap.opened.1)
    &&& adjacent(swap.opened.0, swap.opened.1)
    &&& !before.linked(swap.opened.0, swap.opened.1)
    &&& after.rows == before.rows
    &&& after.cols == before.cols
    &&& after.edges == before.edges.remove(edge(swap.closed.0, swap.closed.1)).insert(
        edge(swap.opened.0, swap.opened.1),
    )
}

impl Cells {
    /// Every wall between `p` and a neighbour is open: there is no closed
    /// edge at `p` that a cycle swap could open.
    pub open spec fn fully_open(self, p: Pos) -> bool {
        forall|q: Pos| self.holds(q) && adjacent(p, q) ==> #[trigger] self@.linked(p, q)
    }

    /// Once the edge between `p` and `q` is closed, no other pair of
    /// adjacent cells straddles the border of the lake of `anchor`: there is
    /// no edge that a shore swap could open instead.
    pub open spec fn sole_crossing(self, p: Pos, q: Pos, anchor: Pos) -> bool {
        forall|pair: (Pos, Pos)|
            !#[trigger] self.on_shore(self@.without_edge(p, q).component(anchor), (p, q), pair)
    }

    /// Whether a pick can miss depends on the open edges alone.
    pub proof fn lemma_miss_is_of_the_graph(self, other: Cells)
        requires
            self@ == other@,
        ensures
            self.shore_swap_can_miss() == other.shore_swap_can_miss(),
            self.cycle_swap_can_miss() == other.cycle_swap_can_miss(),
    {
        assert forall|p: Pos| self.fully_open(p) == other.fully_open(p) by {}
        assert forall|p: Pos, q: Pos, anchor: Pos|
            self.sole_crossing(p, q, anchor) == other.sole_crossing(p, q, anchor) by {
            let lake = self@.without_edge(p, q).component(anchor);
            assert forall|pair: (Pos, Pos)|
                self.on_shore(lake, (p, q), pair) == other.on_shore(lake, (p, q), pair) by {}
        }
        if self.shore_swap_can_miss() && self@.rows * self@.cols >= 2 {
            let (p, q, anchor) = choose|p: Pos, q: Pos, anchor: Pos|
                self@.linked(p, q) && self.holds(anchor) && #[trigger] self.sole_crossing(
                    p,
                    q,
                    anchor,
                );
            assert(other.sole_crossing(p, q, anchor));
        }
        if other.shore_swap_can_miss() && self@.rows * self@.cols >= 2 {
            let (p, q, anchor) = choose|p: Pos, q: Pos, anchor: Pos|
                other@.linked(p, q) && other.holds(anchor) && #[trigger] other.sole_crossing(
                    p,
                    q,
                    anchor,
                );
            assert(self.sole_crossing(p, q, anchor));
        }
        if self.cycle_swap_can_miss() {
            let p = choose|p: Pos| self.holds(p) && #[trigger] self.fully_open(p);
            assert(other.fully_open(p));
        }
        if other.cycle_swap_can_miss() {
            let p = choose|p: Pos| other.holds(p) && #[trigger] other.fully_open(p);
            assert(self.fully_open(p));
        }
    }

    /// Some pick of a shore swap finds no edge to open: the maze is a single
    /// cell, or some open edge and some anchor leave an empty shore.
    pub open spec fn shore_swap_can_miss(self) -> bool {
        ||| self@.rows * self@.cols < 2
        ||| exists|p: Pos, q: Pos, anchor: Pos|
            self@.linked(p, q) && self.holds(anchor) && #[trigger] self.sole_crossing(p, q, anchor)
    }

    /// Some pick of a cycle swap finds no edge to open: some cell has no
    /// closed wall to a neighbour.
    pub open spec fn cycle_swap_can_miss(self) -> bool {
        exists|p: Pos| self.holds(p) && #[trigger] self.fully_open(p)
    }
}

/// In a connected maze of more than one cell every cell has an open edge.
pub proof fn lemma_connected_cell_has_edge(g: Graph, p: Pos)
    requires
        g.wf(),
        g.connected(),
        g.has(p),
        g.rows * g.cols >= 2,
    ensures
        exists|q: Pos| g.linked(p, q),
{
    let other = if g.cols >= 2 {
        Pos { x: if p.x == 0 { 1usize } else { 0usize }, y: p.y }
    } else {
        Pos { x: p.x, y: if p.y == 0 { 1usize } else { 0usize } }
    };
    if g.cols < 2 {
        assert(g.rows >= 2) by (nonlinear_arith)
            requires
                g.rows * g.cols >= 2,
                g.cols == 1,
        ;
    }
    assert(g.has(other) && other != p);
    assert(g.reachable(p, other));
    let w = choose|w: Seq<Pos>| g.joins(w, p, other);
    assert(g.hop(w, 0));
}

/// How a mutation picks the edges that it swaps.
#[derive(Clone, Copy, Debug, PartialEq, Eq)]
pub enum Strategy {
    /// Close a random edge of the tree, then open a random edge between
    /// the two parts that the cut has left.
    Shore,
    /// Open a random closed edge, then close a random edge of the cycle
    /// that this has made.
    Cycle,
}

/// Mutates a maze by one strategy, trying again a bounded number of times
/// when a random pick allows no swap.
#[derive(Clone, Copy, Debug)]
pub struct TopologyMutator {
    pub strategy: Strategy,
    pub attempts: usize,
}

impl TopologyMutator {
    /// A mutator that follows `strategy` and gives up after `attempts`
    /// picks without a swap.
    pub fn new(strategy: Strategy, attempts: usize) -> (m: TopologyMutator)
        ensures
            m.strategy == strategy,
            m.attempts == attempts,
    {
        TopologyMutator { strategy, attempts }
    }

    /// Swaps one edge of a perfect maze for another, so that the maze stays
    /// perfect. Returns the swap, or `None` with the maze unchanged when no
    /// attempt found one.
    pub fn mutate(&self, maze: &mut Cells, rng: &mut StdRng) -> (done: Option<EdgeSwap>)
        requires
            old(maze).is_perfect(),
        ensures
            final(maze).is_perfect(),
            match done {
                Some(swap) => is_swap(old(maze)@, final(maze)@, swap),
                None => final(maze)@ == old(maze)@,
            },
            self.attempts == 0 ==> done.is_none(),
            done.is_none() && self.attempts > 0 ==> (match self.strategy {
                Strategy::Shore => old(maze).shore_swap_can_miss(),
                Strategy::Cycle => old(maze).cycle_swap_can_miss(),
            }),
    {
        let ghost start = maze@;
        let mut left = self.attempts;
        while left > 0
            invariant
                maze.is_perfect(),
                maze@ == start,
                start == old(maze)@,
                left <= self.attempts,
                left < self.attempts ==> (match self.strategy {
                    Strategy::Shore => old(maze).shore_swap_can_miss(),
                    Strategy::Cycle => old(maze).cycle_swap_can_miss(),
                }),
            decreases left,
        {
            let ghost tried = *maze;
            let done = match self.strategy {
                Strategy::Shore => maze.shore_swap(rng),
                Strategy::Cycle => maze.cycle_swap(rng),
            };
            if done.is_some() {
                return done;
            }
            proof {
                tried.lemma_miss_is_of_the_graph(*old(maze));
            }
            left -= 1;
        }
        None
    }
}

impl Cells {
    /// Closes a random edge: picks a cell at random and, among its
    /// neighbours over an open edge, one at random. Returns the two ends of
    /// the new wall, or `None` with the maze unchanged if the cell picked has
    /// no open edge, which cannot happen in a connected maze of more than
    /// one cell.
    pub fn add_wall(&mut self, rng: &mut StdRng) -> (wall: Option<(Pos, Pos)>)
        requires
            old(self).wf(),
        ensures
            final(self).wf(),
            match wall {
                Some((p, q)) => {
                    &&& old(self).holds(p)
                    &&& old(self).holds(q)
                    &&& old(self)@.linked(p, q)
                    &&& final(self)@ == old(self)@.without_edge(p, q)
                },
                None => final(self)@ == old(self)@,
            },
            old(self)@.connected() && old(self)@.rows * old(self)@.cols >= 2 ==> wall.is_some(),
    {
        let p = self.random_cell(rng);
        let candidates = self.open_neighbors(p);
        proof {
            self.lemma_view_wf();
            if self@.connected() && self@.rows * self@.cols >= 2 {
                lemma_connected_cell_has_edge(self@, p);
                let q = choose|q: Pos| self@.linked(p, q);
                self.lemma_linked_inside(p, q);
                assert(candidates@.contains(q));
            }
        }
        match choose_from_iter(&candidates, rng) {
            None => None,
            Some(q) => {
                self.close_edge(p, q);
                Some((p, q))
            },
        }
    }

    /// Joins the two parts of a maze that the wall `wall` has cut in two.
    /// With a pick, a pair of adjacent cells that cannot reach each other,
    /// the edge between them is opened. Without one, the wall is taken down
    /// again. Either way the maze is perfect afterwards.
    pub fn reconnect(&mut self, wall: (Pos, Pos), pick: Option<(Pos, Pos)>) -> (done: Option<
        EdgeSwap,
    >)
        requires
            old(self).wf(),
            old(self).holds(wall.0),
            old(self).holds(wall.1),
            adjacent(wall.0, wall.1),
            !old(self)@.linked(wall.0, wall.1),
            old(self)@.with_edge(wall.0, wall.1).is_tree(),
            match pick {
                Some((u, v)) => {
                    &&& old(self).holds(u)
                    &&& old(self).holds(v)
                    &&& adjacent(u, v)
                    &&& !old(self)@.reachable(u, v)
                },
                None => true,
            },
        ensures
            final(self).is_perfect(),
            match pick {
                Some(pair) => done == Some(EdgeSwap { closed: wall, opened: pair })
                    && final(self)@ == old(self)@.with_edge(pair.0, pair.1),
                None => done.is_none() && final(self)@ == old(self)@.with_edge(wall.0, wall.1),
            },
    {
        match pick {
            None => {
                self.open_edge(wall.0, wall.1);
                None
            },
            Some(pair) => {
                proof {
                    let whole = self@.with_edge(wall.0, wall.1);
                    lemma_edge_symmetric(wall.0, wall.1);
                    assert(whole.without_edge(wall.0, wall.1).edges =~= self@.edges);
                    assert(whole.without_edge(wall.0, wall.1) == self@);
                    lemma_shore_swap_keeps_tree(whole, wall.0, wall.1, pair.0, pair.1);
                }
                self.open_edge(pair.0, pair.1);
                Some(EdgeSwap { closed: wall, opened: pair })
            },
        }
    }

    /// One attempt at a shore swap: closes a random edge of the tree, fills
    /// the lake of a random anchor, and opens a random shore pair of that
    /// lake. `None`, with the maze unchanged, if no edge could be closed or
    /// if the shore is empty.
    pub fn shore_swap(&mut self, rng: &mut StdRng) -> (done: Option<EdgeSwap>)
        requires
            old(self).is_perfect(),
        ensures
            final(self).is_perfect(),
            match done {
                Some(swap) => is_swap(old(self)@, final(self)@, swap),
                None => final(self)@ == old(self)@ && old(self).shore_swap_can_miss(),
            },
    {
        let wall = match self.add_wall(rng) {
            None => {
                return None;
            },
            Some(wall) => wall,
        };
        let anchor = self.random_cell(rng);
        let lake = self.lake(anchor);
        let shore = self.collect_lake_shore(wall, &lake);
        let pick = choose_from_iter(&shore, rng);
        proof {
            lemma_edge_symmetric(wall.0, wall.1);
            assert(self@.with_edge(wall.0, wall.1).edges =~= old(self)@.edges);
            assert(self@.with_edge(wall.0, wall.1) == old(self)@);
            if pick.is_none() {
                assert forall|pair: (Pos, Pos)|
                    !#[trigger] old(self).on_shore(
                        old(self)@.without_edge(wall.0, wall.1).component(anchor),
                        (wall.0, wall.1),
                        pair,
                    ) by {
                    assert(!shore@.contains(pair));
                    assert(!self.on_shore(lake@, wall, pair));
                }
                assert(old(self).sole_crossing(wall.0, wall.1, anchor));
            }
            if let Some(pair) = pick {
                assert(self.on_shore(lake@, wall, pair));
                if self@.reachable(pair.0, pair.1) {
                    lemma_reach_trans(self@, anchor, pair.0, pair.1);
                }
                if old(self)@.linked(pair.0, pair.1) {
                    if edge(pair.0, pair.1) == edge(wall.0, wall.1) {
                        lemma_edge_same_ends(pair.0, pair.1, wall.0, wall.1);
                    }
                    assert(self@.linked(pair.0, pair.1));
                    lemma_reach_edge(self@, pair.0, pair.1);
                }
            }
        }
        let done = self.reconnect(wall, pick);
        proof {
            if let Some(pair) = pick {
                assert(self@.edges =~= old(self)@.edges.remove(edge(wall.0, wall.1)).insert(
                    edge(pair.0, pair.1),
                ));
            } else {
                assert(self@ == old(self)@);
            }
        }
        done
    }

    /// A cell of the grid picked at random: first its column, then its row.
    pub fn random_cell(&self, rng: &mut StdRng) -> (p: Pos)
        requires
            self.rectangular(),
        ensures
            self.holds(p),
    {
        let x = random_below(rng, self.cols());
        let y = random_below(rng, self.rows());
        Pos { x, y }
    }

    /// Cycle swap on a given path and pick. `path` is a path of the maze
    /// between two adjacent cells. If the edge between its two ends is
    /// already open there is no cycle to break, and the maze is left as it
    /// is. Otherwise that edge is opened and the `k`-th edge of the path is
    /// closed.
    pub fn swap_on_cycle(&mut self, path: &Vec<Pos>, k: usize) -> (done: Option<EdgeSwap>)
        requires
            old(self).is_perfect(),
            path@.len() >= 2,
            old(self)@.is_path(path@, path@[0], path@.last()),
            old(self).holds(path@[0]),
            old(self).holds(path@.last()),
            adjacent(path@[0], path@.last()),
            k < path@.len() - 1,
        ensures
            final(self).is_perfect(),
            old(self)@.linked(path@[0], path@.last()) ==> done.is_none() && final(self)@ == old(
                self,
            )@,
            !old(self)@.linked(path@[0], path@.last()) ==> {
                &&& done == Some(
                    EdgeSwap {
                        closed: (path@[k as int], path@[k + 1]),
                        opened: (path@[0], path@.last()),
                    },
                )
                &&& is_swap(old(self)@, final(self)@, done.unwrap())
            },
    {
        let p = path[0];
        let q = path[path.len() - 1];
        if self.is_open(p, q) {
            return None;
        }
        let a = path[k];
        let b = path[k + 1];
        proof {
            lemma_cycle_swap_keeps_tree(self@, path@, k as int);
            assert(self@.hop(path@, k as int));
            self.lemma_linked_inside(a, b);
            lemma_edge_symmetric(a, b);
            lemma_edge_symmetric(p, q);
        }
        self.open_edge(p, q);
        self.close_edge(a, b);
        proof {
            assert(self@.edges =~= old(self)@.edges.remove(edge(a, b)).insert(edge(p, q)));
        }
        Some(EdgeSwap { closed: (a, b), opened: (p, q) })
    }

    /// One attempt at a cycle swap: picks a cell and one of its neighbours
    /// behind a closed wall at random, opens the wall, and closes a random
    /// edge of the path that joined the two cells before. `None`, with the
    /// maze unchanged, if the cell picked has no closed wall to a neighbour.
    pub fn cycle_swap(&mut self, rng: &mut StdRng) -> (done: Option<EdgeSwap>)
        requires
            old(self).is_perfect(),
        ensures
            final(self).is_perfect(),
            match done {
                Some(swap) => is_swap(old(self)@, final(self)@, swap),
                None => final(self)@ == old(self)@ && old(self).cycle_swap_can_miss(),
            },
    {
        let p = self.random_cell(rng);
        let candidates = self.closed_neighbors(p);
        match choose_from_slice(&candidates, rng) {
            None => {
                proof {
                    assert forall|q: Pos| self.holds(q) && adjacent(p, q) implies #[trigger] self@.linked(
                        p,
                        q,
                    ) by {
                        assert(!candidates@.contains(q));
                    }
                    assert(self.fully_open(p));
                }
                None
            },
            Some(q) => {
                let path = self.find_path(p, q);
                let k = random_below(rng, path.len() - 1);
                self.swap_on_cycle(&path, k)
            },
        }
    }
}

} // verus!
