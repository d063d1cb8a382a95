//! The maze itself: a grid of cells with four walls each, kept consistent
//! on both sides of every edge.

use vstd::prelude::*;
use crate::graph::{before, edge, lemma_edge_symmetric, Graph};
use crate::grid::{
    adjacent, direction_of, flip, inside, lemma_direction_opposite, lemma_neighbors_of, neighbors,
    neighbors_of, opposite, step_of, Pos,
};

verus! {

/// One cell of the grid.
#[derive(Clone, Copy, Debug)]
pub struct Cell {
    /// Set while the maze is being generated; inert afterwards.
    pub visited: bool,
    /// Clockwise: north, east, south, west. `true` means the wall is closed.
    pub walls: [bool; 4],
}

/// A rectangular grid of cells, indexed by row and then by column.
#[derive(Clone, Debug)]
pub struct Cells {
    pub cells: Vec<Vec<Cell>>,
}

impl View for Cells {
    type V = Graph;

    /// The open edges of the grid, each with its row-major smaller end first.
    open spec fn view(&self) -> Graph {
        Graph {
            rows: self.height(),
            cols: self.width(),
            edges: Set::new(
                |e: (Pos, Pos)|
                    {
                        &&& self.holds(e.0)
                        &&& self.holds(e.1)
                        &&& adjacent(e.0, e.1)
                        &&& before(e.0, e.1)
                        &&& !self.wall(e.0, direction_of(e.0, e.1))
                    },
            ),
        }
    }
}

/// Nothing is kept of the first no elements of a sequence.
proof fn lemma_filter_none(s: Seq<Pos>, keep: spec_fn(Pos) -> bool)
    ensures
        s.take(0).filter(keep) == Seq::<Pos>::empty(),
{
    reveal(Seq::filter);
    assert(s.take(0) =~= Seq::<Pos>::empty());
}

/// What is kept of the first `k + 1` elements is what is kept of the first
/// `k`, and then the next element if it is to be kept.
proof fn lemma_filter_step(
    s: Seq<Pos>,
    k: int,
    keep: spec_fn(Pos) -> bool,
    kept: Seq<Pos>,
    then: Seq<Pos>,
)
    requires
        0 <= k < s.len(),
        kept == s.take(k).filter(keep),
        then == (if keep(s[k]) {
            kept.push(s[k])
        } else {
            kept
        }),
    ensures
        then == s.take(k + 1).filter(keep),
{
    assert(s.take(k + 1) =~= s.take(k).push(s[k]));
    s.take(k).lemma_filter_push(s[k], keep);
}

/// What is kept of the first `k` elements of a sequence without duplicates
/// has no duplicates, and holds exactly those of them that are to be kept.
proof fn lemma_filter_lists(s: Seq<Pos>, keep: spec_fn(Pos) -> bool, k: int)
    requires
        s.no_duplicates(),
        0 <= k <= s.len(),
    ensures
        s.take(k).filter(keep).no_duplicates(),
        forall|q: Pos|
            s.take(k).filter(keep).contains(q) <==> (s.take(k).contains(q) && keep(q)),
    decreases k,
{
    if k == 0 {
        lemma_filter_none(s, keep);
        assert(s.take(0) =~= Seq::<Pos>::empty());
    } else {
        lemma_filter_lists(s, keep, k - 1);
        let before = s.take(k - 1);
        let kept = before.filter(keep);
        let x = s[k - 1];
        let then = if keep(x) {
            kept.push(x)
        } else {
            kept
        };
        lemma_filter_step(s, k - 1, keep, kept, then);
        assert(s.take(k) =~= before.push(x));
        assert(!before.contains(x)) by {
            if before.contains(x) {
                let i = choose|i: int| 0 <= i < before.len() && before[i] == x;
                assert(s[i] == s[k - 1]);
            }
        }
        assert forall|q: Pos| then.contains(q) <==> (s.take(k).contains(q) && keep(q)) by {
            if then.contains(q) {
                let i = choose|i: int| 0 <= i < then.len() && then[i] == q;
                if i < kept.len() {
                    assert(kept[i] == q);
                    assert(kept.contains(q));
                    assert(before.contains(q));
                    let j = choose|j: int| 0 <= j < before.len() && before[j] == q;
                    assert(s.take(k)[j] == q);
                } else {
                    assert(s.take(k)[k - 1] == q);
                }
            }
            if s.take(k).contains(q) && keep(q) {
                let j = choose|j: int| 0 <= j < k && s.take(k)[j] == q;
                if j < k - 1 {
                    assert(before[j] == q);
                    assert(kept.contains(q));
                    let i = choose|i: int| 0 <= i < kept.len() && kept[i] == q;
                    assert(then[i] == q);
                } else {
                    assert(then[kept.len() as int] == q);
                }
            }
        }
        assert forall|i: int, j: int|
            0 <= i < then.len() && 0 <= j < then.len() && i != j implies then[i] != then[j] by {
            if i < kept.len() && j < kept.len() {
            } else if i < kept.len() {
                assert(kept.contains(kept[i]));
            } else {
                assert(kept.contains(kept[j]));
            }
        }
    }
}

/// The first `len` elements of a sequence are the sequence.
proof fn lemma_filter_all(s: Seq<Pos>, keep: spec_fn(Pos) -> bool)
    ensures
        s.take(s.len() as int).filter(keep) == s.filter(keep),
{
    assert(s.take(s.len() as int) =~= s);
}

impl Cells {
    /// Number of rows.
    pub open spec fn height(self) -> int {
        self.cells@.len() as int
    }

    /// Number of columns: the length of the first row.
    pub open spec fn width(self) -> int {
        if self.cells@.len() > 0 {
            self.cells@[0]@.len() as int
        } else {
            0
        }
    }

    /// `p` is a cell of this grid.
    pub open spec fn holds(self, p: Pos) -> bool {
        inside(self.height(), self.width(), p)
    }

    /// The wall of cell `p` in compass direction `d` is closed.
    pub open spec fn wall(self, p: Pos, d: int) -> bool {
        self.cells@[p.y as int]@[p.x as int].walls@[d]
    }

    /// Cell `p` carries the generation mark.
    pub open spec fn marked(self, p: Pos) -> bool {
        self.cells@[p.y as int]@[p.x as int].visited
    }

    /// The grid is a non-empty rectangle whose cell count, doubled, fits a
    /// machine word.
    pub open spec fn rectangular(self) -> bool {
        &&& self.height() >= 1
        &&& self.width() >= 1
        &&& forall|y: int| 0 <= y < self.height() ==> (#[trigger] self.cells@[y])@.len()
            == self.width()
        &&& 2 * (self.height() * self.width()) <= usize::MAX
    }

    /// Well-formedness: the grid is rectangular, the two sides of every edge
    /// agree, and every wall on the outer border is closed.
    pub open spec fn wf(self) -> bool {
        &&& self.rectangular()
        &&& forall|p: Pos, d: int|
            self.holds(p) && 0 <= d < 4 ==> #[trigger] self.wall(p, d) == self.far_side(p, d)
    }

    /// What the wall of `p` in direction `d` must equal: the facing wall of
    /// the neighbour, or closed where there is no neighbour.
    pub open spec fn far_side(self, p: Pos, d: int) -> bool {
        if self.leads_inside(p, d) {
            self.wall(step_of(p, d), flip(d))
        } else {
            true
        }
    }

    /// A step from `p` in direction `d` stays inside the grid.
    pub open spec fn leads_inside(self, p: Pos, d: int) -> bool {
        if d == 0 {
            p.y > 0
        } else if d == 1 {
            p.x + 1 < self.width()
        } else if d == 2 {
            p.y + 1 < self.height()
        } else {
            p.x > 0
        }
    }

    /// The cells of the grid that carry the generation mark.
    pub open spec fn marks(self) -> Set<Pos> {
        Set::new(|p: Pos| self.holds(p) && self.marked(p))
    }

    /// No edge is open and no cell is marked.
    pub open spec fn blank(self) -> bool {
        &&& self.wf()
        &&& self@.edges == Set::<(Pos, Pos)>::empty()
        &&& self.marks() == Set::<Pos>::empty()
    }

    /// The maze is perfect: its open edges form a spanning tree.
    pub open spec fn is_perfect(self) -> bool {
        self.wf() && self@.is_tree()
    }

    /// In a well-formed maze two adjacent cells are linked exactly when the
    /// wall between them is open, seen from either side.
    pub proof fn lemma_linked_iff_open(self, a: Pos, b: Pos)
        requires
            self.wf(),
            self.holds(a),
            self.holds(b),
            adjacent(a, b),
        ensures
            self@.linked(a, b) == !self.wall(a, direction_of(a, b)),
            self@.linked(a, b) == !self.wall(b, direction_of(b, a)),
            self.leads_inside(a, direction_of(a, b)),
            step_of(a, direction_of(a, b)) == b,
    {
        lemma_direction_opposite(a, b);
        lemma_edge_symmetric(a, b);
        assert(self.wall(a, direction_of(a, b)) == self.far_side(a, direction_of(a, b)));
    }

    /// An open edge joins two cells of the grid.
    pub proof fn lemma_linked_inside(self, a: Pos, b: Pos)
        requires
            self@.linked(a, b),
        ensures
            self.holds(a),
            self.holds(b),
            adjacent(a, b),
    {
        lemma_edge_symmetric(a, b);
    }

    /// The view of a well-formed maze is a well-formed graph.
    pub proof fn lemma_view_wf(self)
        requires
            self.rectangular(),
        ensures
            self@.wf(),
            self.height() * self.width() >= 1,
    {
        let h = self.height();
        let w = self.width();
        assert(h * w >= h && h * w >= w) by (nonlinear_arith)
            requires
                h >= 1,
                w >= 1,
        ;
    }

    /// Number of rows.
    pub fn rows(&self) -> (r: usize)
        ensures
            r == self@.rows,
    {
        self.cells.len()
    }

    /// Number of columns.
    pub fn cols(&self) -> (c: usize)
        ensures
            c == self@.cols,
    {
        if self.cells.len() > 0 {
            self.cells[0].len()
        } else {
            0
        }
    }

    /// Whether `p` lies inside the grid.
    pub fn contains(&self, p: Pos) -> (r: bool)
        ensures
            r == self.holds(p),
    {
        p.y < self.rows() && p.x < self.cols()
    }

    /// Whether the wall of `p` in compass direction `d` is closed.
    pub fn is_wall(&self, p: Pos, d: usize) -> (r: bool)
        requires
            self.rectangular(),
            self.holds(p),
            d < 4,
        ensures
            r == self.wall(p, d as int),
    {
        self.cells[p.y][p.x].walls[d]
    }

    /// Whether the edge between the adjacent cells `a` and `b` is open.
    pub fn is_open(&self, a: Pos, b: Pos) -> (r: bool)
        requires
            self.wf(),
            self.holds(a),
            self.holds(b),
            adjacent(a, b),
        ensures
            r == self@.linked(a, b),
    {
        proof {
            self.lemma_linked_iff_open(a, b);
        }
        let (here, _) = opposite(a, b);
        !self.cells[a.y][a.x].walls[here]
    }

    fn set_wall(&mut self, p: Pos, d: usize, closed: bool)
        requires
            old(self).rectangular(),
            old(self).holds(p),
            d < 4,
        ensures
            final(self).rectangular(),
            final(self)@.rows == old(self)@.rows,
            final(self)@.cols == old(self)@.cols,
            forall|q: Pos|
                old(self).holds(q) ==> #[trigger] final(self).marked(q) == old(self).marked(q),
            forall|q: Pos, e: int|
                old(self).holds(q) && 0 <= e < 4 ==> #[trigger] final(self).wall(q, e) == (if q
                    == p && e == d {
                    closed
                } else {
                    old(self).wall(q, e)
                }),
    {
        self.cells[p.y][p.x].walls[d] = closed;
    }

    /// Sets both sides of the edge between `a` and `b` at once.
    fn set_edge(&mut self, a: Pos, b: Pos, closed: bool)
        requires
            old(self).wf(),
            old(self).holds(a),
            old(self).holds(b),
            adjacent(a, b),
        ensures
            final(self).wf(),
            final(self)@.rows == old(self)@.rows,
            final(self)@.cols == old(self)@.cols,
            final(self)@.edges == (if closed {
                old(self)@.edges.remove(edge(a, b))
            } else {
                old(self)@.edges.insert(edge(a, b))
            }),
            forall|q: Pos|
                old(self).holds(q) ==> #[trigger] final(self).marked(q) == old(self).marked(q),
    {
        let (here, there) = opposite(a, b);
        let ghost before_all = *self;
        self.set_wall(a, here, closed);
        let ghost half = *self;
        self.set_wall(b, there, closed);
        proof {
            before_all.lemma_view_wf();
            assert forall|q: Pos, e: int| before_all.holds(q) && 0 <= e < 4 implies self.wall(q, e)
                == (if (q == a && e == here) || (q == b && e == there) {
                closed
            } else {
                before_all.wall(q, e)
            }) by {
                assert(half.wall(q, e) == (if q == a && e == here {
                    closed
                } else {
                    before_all.wall(q, e)
                }));
            }
            lemma_direction_opposite(a, b);
            lemma_edge_symmetric(a, b);
            before_all.lemma_linked_iff_open(a, b);
            before_all.lemma_linked_iff_open(b, a);
            assert forall|p: Pos, d: int| self.holds(p) && 0 <= d < 4 implies #[trigger] self.wall(
                p,
                d,
            ) == self.far_side(p, d) by {
                assert(before_all.wall(p, d) == before_all.far_side(p, d));
                if self.leads_inside(p, d) {
                    let r = step_of(p, d);
                    assert(before_all.holds(r));
                    assert(adjacent(p, r));
                    lemma_direction_opposite(p, r);
                }
            }
            let target = if closed {
                before_all@.edges.remove(edge(a, b))
            } else {
                before_all@.edges.insert(edge(a, b))
            };
            assert forall|e: (Pos, Pos)| self@.edges.contains(e) == target.contains(e) by {
                if e == edge(a, b) {
                } else if before_all.holds(e.0) && before_all.holds(e.1) && adjacent(e.0, e.1)
                    && before(e.0, e.1) {
                    assert(edge(e.0, e.1) == e);
                    lemma_direction_opposite(e.0, e.1);
                }
            }
            assert(self@.edges =~= target);
        }
    }

    /// Opens the edge between the adjacent cells `a` and `b`, on both sides.
    pub fn open_edge(&mut self, a: Pos, b: Pos)
        requires
            old(self).wf(),
            old(self).holds(a),
            old(self).holds(b),
            adjacent(a, b),
        ensures
            final(self).wf(),
            final(self)@ == old(self)@.with_edge(a, b),
            final(self).marks() == old(self).marks(),
    {
        self.set_edge(a, b, false);
        assert(self.marks() =~= old(self).marks());
    }

    /// Closes the edge between the adjacent cells `a` and `b`, on both sides.
    pub fn close_edge(&mut self, a: Pos, b: Pos)
        requires
            old(self).wf(),
            old(self).holds(a),
            old(self).holds(b),
            adjacent(a, b),
        ensures
            final(self).wf(),
            final(self)@ == old(self)@.without_edge(a, b),
            final(self).marks() == old(self).marks(),
    {
        self.set_edge(a, b, true);
        assert(self.marks() =~= old(self).marks());
    }

    /// A blank grid of `rows` x `cols` cells: every wall closed, no cell
    /// marked. `None` if a dimension is zero or the cell count, doubled,
    /// does not fit a machine word.
    pub fn new(rows: usize, cols: usize) -> (made: Option<Cells>)
        ensures
            made.is_some() == (rows >= 1 && cols >= 1 && 2 * (rows * cols) <= usize::MAX),
            match made {
                Some(maze) => maze.blank() && maze@.rows == rows && maze@.cols == cols,
                None => true,
            },
    {
        if rows == 0 || cols == 0 {
            return None;
        }
        let fits = match rows.checked_mul(cols) {
            Some(count) => count.checked_mul(2).is_some(),
            None => false,
        };
        if !fits {
            assert(rows * cols >= 0) by (nonlinear_arith)
                requires
                    rows >= 0,
                    cols >= 0,
            ;
            return None;
        }
        let cell = Cell { visited: false, walls: [true, true, true, true] };
        let mut row: Vec<Cell> = Vec::new();
        while row.len() < cols
            invariant
                row@.len() <= cols,
                forall|x: int| 0 <= x < row@.len() ==> #[trigger] row@[x] == cell,
            decreases cols - row@.len(),
        {
            row.push(cell);
        }
        let mut cells: Vec<Vec<Cell>> = Vec::new();
        while cells.len() < rows
            invariant
                cells@.len() <= rows,
                row@.len() == cols,
                forall|y: int| 0 <= y < cells@.len() ==> (#[trigger] cells@[y])@ == row@,
            decreases rows - cells@.len(),
        {
            cells.push(row.clone());
        }
        let maze = Cells { cells };
        proof {
            assert(maze.height() == rows && maze.width() == cols);
            assert forall|p: Pos, d: int| maze.holds(p) && 0 <= d < 4 implies maze.wall(p, d) by {
                assert(maze.cells@[p.y as int]@[p.x as int] == cell);
            }
            assert forall|p: Pos| maze.holds(p) implies !maze.marked(p) by {
                assert(maze.cells@[p.y as int]@[p.x as int] == cell);
            }
            assert forall|p: Pos, d: int| maze.holds(p) && 0 <= d < 4 implies #[trigger] maze.wall(
                p,
                d,
            ) == maze.far_side(p, d) by {
                if maze.leads_inside(p, d) {
                    assert(maze.holds(step_of(p, d)));
                }
            }
            assert(maze@.edges =~= Set::<(Pos, Pos)>::empty());
            assert(maze.marks() =~= Set::<Pos>::empty());
        }
        Some(maze)
    }

    /// Whether cell `p` carries the generation mark.
    pub fn is_marked(&self, p: Pos) -> (r: bool)
        requires
            self.rectangular(),
            self.holds(p),
        ensures
            r == self.marked(p),
            r == self.marks().contains(p),
    {
        self.cells[p.y][p.x].visited
    }

    /// Marks cell `p` as visited by the generator. The walls stay as they are.
    pub fn mark(&mut self, p: Pos)
        requires
            old(self).wf(),
            old(self).holds(p),
        ensures
            final(self).wf(),
            final(self)@ == old(self)@,
            final(self).marks() == old(self).marks().insert(p),
    {
        self.cells[p.y][p.x].visited = true;
        proof {
            assert forall|q: Pos, d: int| self.holds(q) && 0 <= d < 4 implies self.wall(q, d)
                == old(self).wall(q, d) by {}
            assert forall|q: Pos, d: int| self.holds(q) && 0 <= d < 4 implies #[trigger] self.wall(
                q,
                d,
            ) == self.far_side(q, d) by {
                assert(old(self).wall(q, d) == old(self).far_side(q, d));
                if self.leads_inside(q, d) {
                    old(self).lemma_view_wf();
                    assert(self.holds(step_of(q, d)));
                }
            }
            assert(self@.edges =~= old(self)@.edges);
            assert(self.marks() =~= old(self).marks().insert(p));
        }
    }

    /// `list` holds, each once, exactly the neighbours of `p` inside the
    /// grid for which "the edge to `p` is open" equals `open`.
    pub open spec fn lists_neighbors_by_edge(self, p: Pos, open: bool, list: Seq<Pos>) -> bool {
        &&& list.no_duplicates()
        &&& forall|q: Pos|
            list.contains(q) <==> (self.holds(q) && adjacent(p, q) && self@.linked(p, q) == open)
    }

    /// Tells whether "the edge from `p` to a cell is open" equals `open`.
    pub open spec fn edge_is(self, p: Pos, open: bool) -> spec_fn(Pos) -> bool {
        |q: Pos| self@.linked(p, q) == open
    }

    /// The neighbours of `p` for which "the edge to `p` is open" equals
    /// `open`, in the order north, south, west, east.
    pub open spec fn neighbors_by_edge_of(self, p: Pos, open: bool) -> Seq<Pos> {
        neighbors_of(self@.rows, self@.cols, p).filter(self.edge_is(p, open))
    }

    fn neighbors_by_edge(&self, p: Pos, open: bool) -> (out: Vec<Pos>)
        requires
            self.wf(),
            self.holds(p),
        ensures
            out@ == self.neighbors_by_edge_of(p, open),
            self.lists_neighbors_by_edge(p, open, out@),
    {
        let around = neighbors(self.rows(), self.cols(), p);
        let mut out: Vec<Pos> = Vec::new();
        let mut k: usize = 0;
        proof {
            self.lemma_view_wf();
            lemma_neighbors_of(self@.rows, self@.cols, p);
            lemma_filter_none(around@, self.edge_is(p, open));
        }
        while k < around.len()
            invariant
                self.wf(),
                self.holds(p),
                0 <= k <= around@.len(),
                forall|j: int| 0 <= j < around@.len() ==> self.holds(#[trigger] around@[j]) && adjacent(p, around@[j]),
                out@ == around@.take(k as int).filter(self.edge_is(p, open)),
            decreases around@.len() - k,
        {
            let q = around[k];
            let ghost kept = out@;
            if self.is_open(p, q) == open {
                out.push(q);
            }
            proof {
                lemma_filter_step(around@, k as int, self.edge_is(p, open), kept, out@);
            }
            k += 1;
        }
        proof {
            lemma_filter_all(around@, self.edge_is(p, open));
            lemma_filter_lists(around@, self.edge_is(p, open), around@.len() as int);
            assert forall|q: Pos| out@.contains(q) <==> (self.holds(q) && adjacent(p, q)
                && self@.linked(p, q) == open) by {
                assert(around@.take(around@.len() as int) =~= around@);
            }
        }
        out
    }

    /// The neighbours of `p` that can be reached over an open edge.
    pub fn open_neighbors(&self, p: Pos) -> (out: Vec<Pos>)
        requires
            self.wf(),
            self.holds(p),
        ensures
            out@ == self.neighbors_by_edge_of(p, true),
            self.lists_neighbors_by_edge(p, true, out@),
    {
        self.neighbors_by_edge(p, true)
    }

    /// The neighbours of `p` behind a closed wall.
    pub fn closed_neighbors(&self, p: Pos) -> (out: Vec<Pos>)
        requires
            self.wf(),
            self.holds(p),
        ensures
            out@ == self.neighbors_by_edge_of(p, false),
            self.lists_neighbors_by_edge(p, false, out@),
    {
        self.neighbors_by_edge(p, false)
    }

    /// Where an agent standing on `at` ends up when it tries to move one
    /// cell in compass direction `d`: on the neighbour if the wall in that
    /// direction is open, and on `at` if it is closed.
    pub fn step(&self, at: Pos, d: usize) -> (to: Pos)
        requires
            self.wf(),
            self.holds(at),
            d < 4,
        ensures
            self.holds(to),
            to == (if self.wall(at, d as int) {
                at
            } else {
                step_of(at, d as int)
            }),
            to != at ==> self@.linked(at, to),
    {
        proof {
            self.lemma_view_wf();
            assert(self.wall(at, d as int) == self.far_side(at, d as int));
        }
        if self.is_wall(at, d) {
            return at;
        }
        let to = if d == 0 {
            Pos { x: at.x, y: at.y - 1 }
        } else if d == 1 {
            Pos { x: at.x + 1, y: at.y }
        } else if d == 2 {
            Pos { x: at.x, y: at.y + 1 }
        } else {
            Pos { x: at.x - 1, y: at.y }
        };
        proof {
            self.lemma_linked_iff_open(at, to);
        }
        to
    }
}

} // verus!
