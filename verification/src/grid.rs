//! Grid geometry: positions, adjacency, compass directions and neighbour
//! enumeration on a rectangular grid.

use vstd::prelude::*;

verus! {

/// A grid coordinate: `x` is the column, `y` is the row.
#[derive(Clone, Copy, PartialEq, Eq, Structural, Debug)]
pub struct Pos {
    pub x: usize,
    pub y: usize,
}

/// Compass index of the northern wall (towards row `y - 1`).
pub const NORTH: usize = 0;

/// Compass index of the eastern wall (towards column `x + 1`).
pub const EAST: usize = 1;

/// Compass index of the southern wall (towards row `y + 1`).
pub const SOUTH: usize = 2;

/// Compass index of the western wall (towards column `x - 1`).
pub const WEST: usize = 3;

/// `p` lies inside a grid of `rows` rows and `cols` columns.
pub open spec fn inside(rows: int, cols: int, p: Pos) -> bool {
    p.x < cols && p.y < rows
}

/// `a` and `b` are four-directionally adjacent.
pub open spec fn adjacent(a: Pos, b: Pos) -> bool {
    ||| a.x == b.x && a.y == b.y + 1
    ||| a.x == b.x && a.y + 1 == b.y
    ||| a.y == b.y && a.x == b.x + 1
    ||| a.y == b.y && a.x + 1 == b.x
}

/// Compass index of the wall of `from` that faces the adjacent cell `to`.
pub open spec fn direction_of(from: Pos, to: Pos) -> int {
    if from.x == to.x {
        if to.y < from.y {
            0
        } else {
            2
        }
    } else if from.x < to.x {
        1
    } else {
        3
    }
}

/// The compass index opposite to `d`.
pub open spec fn flip(d: int) -> int {
    (d + 2) % 4
}

/// The cell reached from `p` by one step in compass direction `d`.
/// Only meaningful when that step does not leave the non-negative quadrant.
pub open spec fn step_of(p: Pos, d: int) -> Pos {
    if d == 0 {
        Pos { x: p.x, y: (p.y - 1) as usize }
    } else if d == 1 {
        Pos { x: (p.x + 1) as usize, y: p.y }
    } else if d == 2 {
        Pos { x: p.x, y: (p.y + 1) as usize }
    } else {
        Pos { x: (p.x - 1) as usize, y: p.y }
    }
}

/// The in-bounds neighbours of `p`, in the order north, south, west, east.
pub open spec fn neighbors_of(rows: int, cols: int, p: Pos) -> Seq<Pos> {
    let north = if p.y > 0 {
        seq![Pos { x: p.x, y: (p.y - 1) as usize }]
    } else {
        Seq::<Pos>::empty()
    };
    let south = if p.y + 1 < rows {
        seq![Pos { x: p.x, y: (p.y + 1) as usize }]
    } else {
        Seq::<Pos>::empty()
    };
    let west = if p.x > 0 {
        seq![Pos { x: (p.x - 1) as usize, y: p.y }]
    } else {
        Seq::<Pos>::empty()
    };
    let east = if p.x + 1 < cols {
        seq![Pos { x: (p.x + 1) as usize, y: p.y }]
    } else {
        Seq::<Pos>::empty()
    };
    north + south + west + east
}

/// Direction index of the wall of `from` that faces `to`.
pub fn direction(from: Pos, to: Pos) -> (d: usize)
    requires
        adjacent(from, to),
    ensures
        d == direction_of(from, to),
        d < 4,
        step_of(from, d as int) == to,
{
    let south_or_west: usize = if from.y < to.y || from.x > to.x {
        1
    } else {
        0
    };
    let sideways: usize = if from.x != to.x {
        1
    } else {
        0
    };
    2 * south_or_west + sideways
}

/// The two wall indices of the edge between `from` and `to`: the one at
/// `from` and the one at `to`. They are always opposite compass directions.
pub fn opposite(from: Pos, to: Pos) -> (pair: (usize, usize))
    requires
        adjacent(from, to),
    ensures
        pair.0 == direction_of(from, to),
        pair.1 == direction_of(to, from),
        pair.1 == flip(pair.0 as int),
        pair.0 < 4,
        pair.1 < 4,
{
    let here = direction(from, to);
    (here, (here + 2) % 4)
}

/// The in-bounds neighbours of `p` in a `rows` x `cols` grid.
pub fn neighbors(rows: usize, cols: usize, p: Pos) -> (out: Vec<Pos>)
    requires
        inside(rows as int, cols as int, p),
    ensures
        out@ == neighbors_of(rows as int, cols as int, p),
{
    let mut out: Vec<Pos> = Vec::with_capacity(4);
    if p.y > 0 {
        out.push(Pos { x: p.x, y: p.y - 1 });
    }
    if p.y < rows - 1 {
        out.push(Pos { x: p.x, y: p.y + 1 });
    }
    if p.x > 0 {
        out.push(Pos { x: p.x - 1, y: p.y });
    }
    if p.x < cols - 1 {
        out.push(Pos { x: p.x + 1, y: p.y });
    }
    out
}

/// The directions of an edge seen from its two ends are opposite compass
/// indices, and adjacency is symmetric.
pub proof fn lemma_direction_opposite(a: Pos, b: Pos)
    requires
        adjacent(a, b),
    ensures
        adjacent(b, a),
        direction_of(b, a) == flip(direction_of(a, b)),
        direction_of(a, b) == flip(direction_of(b, a)),
        0 <= direction_of(a, b) < 4,
        direction_of(a, b) != direction_of(b, a),
{
}

/// A sequence lists exactly the in-bounds cells adjacent to `p`, each once.
pub open spec fn lists_neighbors(rows: int, cols: int, p: Pos, s: Seq<Pos>) -> bool {
    &&& s.no_duplicates()
    &&& forall|q: Pos| s.contains(q) <==> (inside(rows, cols, q) && adjacent(p, q))
}

/// `neighbors_of` lists every in-bounds adjacent cell exactly once.
pub proof fn lemma_neighbors_of(rows: int, cols: int, p: Pos)
    requires
        inside(rows, cols, p),
        rows <= usize::MAX,
        cols <= usize::MAX,
    ensures
        lists_neighbors(rows, cols, p, neighbors_of(rows, cols, p)),
        neighbors_of(rows, cols, p).len() <= 4,
{
    let s = neighbors_of(rows, cols, p);
    let north = if p.y > 0 {
        seq![Pos { x: p.x, y: (p.y - 1) as usize }]
    } else {
        Seq::<Pos>::empty()
    };
    let south = if p.y + 1 < rows {
        seq![Pos { x: p.x, y: (p.y + 1) as usize }]
    } else {
        Seq::<Pos>::empty()
    };
    let west = if p.x > 0 {
        seq![Pos { x: (p.x - 1) as usize, y: p.y }]
    } else {
        Seq::<Pos>::empty()
    };
    let east = if p.x + 1 < cols {
        seq![Pos { x: (p.x + 1) as usize, y: p.y }]
    } else {
        Seq::<Pos>::empty()
    };
    let n = north.len() as int;
    let ns = n + south.len();
    let nsw = ns + west.len();
    assert(s == north + south + west + east);
    assert forall|i: int| 0 <= i < s.len() implies #[trigger] inside(rows, cols, s[i])
        && adjacent(p, s[i]) && slot_of(rows, cols, p, s[i]) == i by {
        if i < n {
            assert(s[i] == north[i]);
        } else if i < ns {
            assert(s[i] == south[i - n]);
        } else if i < nsw {
            assert(s[i] == west[i - ns]);
        } else {
            assert(s[i] == east[i - nsw]);
        }
    }
    assert forall|q: Pos| inside(rows, cols, q) && adjacent(p, q) implies s.contains(q) by {
        if q.x == p.x && q.y + 1 == p.y {
            assert(s[0] == north[0]);
        } else if q.x == p.x && p.y + 1 == q.y {
            assert(s[n] == south[0]);
        } else if q.y == p.y && q.x + 1 == p.x {
            assert(s[ns] == west[0]);
        } else {
            assert(s[nsw] == east[0]);
        }
    }
    assert forall|i: int, j: int| 0 <= i < s.len() && 0 <= j < s.len() && i != j implies s[i]
        != s[j] by {
        assert(inside(rows, cols, s[i]));
        assert(inside(rows, cols, s[j]));
    }
}

/// Index at which `neighbors_of` lists the adjacent in-bounds cell `q`.
pub open spec fn slot_of(rows: int, cols: int, p: Pos, q: Pos) -> int {
    let n: int = if p.y > 0 { 1 } else { 0 };
    let s: int = if p.y + 1 < rows { 1 } else { 0 };
    let w: int = if p.x > 0 { 1 } else { 0 };
    if q.x == p.x && q.y + 1 == p.y {
        0
    } else if q.x == p.x {
        n
    } else if q.x + 1 == p.x {
        n + s
    } else {
        n + s + w
    }
}

/// All cells of a `rows` x `cols` grid.
pub open spec fn cells_of(rows: int, cols: int) -> Set<Pos> {
    Set::new(|p: Pos| inside(rows, cols, p))
}

/// The first `upto` cells of row `y`.
pub open spec fn row_of(y: usize, upto: int) -> Set<Pos> {
    Set::new(|p: Pos| p.y == y && p.x < upto)
}

proof fn lemma_row_count(y: usize, upto: int)
    requires
        0 <= upto <= usize::MAX,
    ensures
        row_of(y, upto).finite(),
        row_of(y, upto).len() == upto,
    decreases upto,
{
    if upto == 0 {
        assert(row_of(y, upto) =~= Set::<Pos>::empty());
    } else {
        lemma_row_count(y, upto - 1);
        let last = Pos { x: (upto - 1) as usize, y };
        assert(row_of(y, upto) =~= row_of(y, upto - 1).insert(last));
    }
}

/// A grid of `rows` rows and `cols` columns has `rows * cols` cells.
pub proof fn lemma_cells_count(rows: int, cols: int)
    requires
        0 <= rows <= usize::MAX,
        0 <= cols <= usize::MAX,
    ensures
        cells_of(rows, cols).finite(),
        cells_of(rows, cols).len() == rows * cols,
    decreases rows,
{
    if rows == 0 {
        assert(cells_of(rows, cols) =~= Set::<Pos>::empty());
    } else {
        lemma_cells_count(rows - 1, cols);
        let y = (rows - 1) as usize;
        lemma_row_count(y, cols);
        let above = cells_of(rows - 1, cols);
        let row = row_of(y, cols);
        assert(cells_of(rows, cols) =~= above.union(row));
        assert(above.disjoint(row));
        vstd::set_lib::lemma_set_disjoint_lens(above, row);
        assert(rows * cols == (rows - 1) * cols + cols) by (nonlinear_arith);
    }
}

/// A set of cells of the grid is finite and no larger than the grid.
pub proof fn lemma_cell_subset_count(rows: int, cols: int, s: Set<Pos>)
    requires
        0 <= rows <= usize::MAX,
        0 <= cols <= usize::MAX,
        s.subset_of(cells_of(rows, cols)),
    ensures
        s.finite(),
        s.len() <= rows * cols,
        s.len() == rows * cols ==> s == cells_of(rows, cols),
{
    lemma_cells_count(rows, cols);
    vstd::set_lib::lemma_len_subset(s, cells_of(rows, cols));
    if s.len() == rows * cols {
        vstd::set_lib::lemma_subset_equality(s, cells_of(rows, cols));
    }
}

/// Number of steps between two cells along the grid.
pub open spec fn distance(a: Pos, b: Pos) -> int {
    (if a.x <= b.x { b.x - a.x } else { a.x - b.x })
    + (if a.y <= b.y { b.y - a.y } else { a.y - b.y })
}

/// The grid graph is connected: a set of cells that holds one cell of the
/// grid and, with each cell, its in-bounds neighbours holds every cell.
pub proof fn lemma_grid_connected(rows: int, cols: int, s: Set<Pos>, a: Pos, b: Pos)
    requires
        inside(rows, cols, a),
        inside(rows, cols, b),
        s.contains(a),
        forall|u: Pos, v: Pos|
            s.contains(u) && inside(rows, cols, v) && #[trigger] adjacent(u, v) ==> s.contains(v),
    ensures
        s.contains(b),
    decreases distance(a, b),
{
    if a != b {
        let next = if a.x < b.x {
            Pos { x: (a.x + 1) as usize, y: a.y }
        } else if a.x > b.x {
            Pos { x: (a.x - 1) as usize, y: a.y }
        } else if a.y < b.y {
            Pos { x: a.x, y: (a.y + 1) as usize }
        } else {
            Pos { x: a.x, y: (a.y - 1) as usize }
        };
        assert(adjacent(a, next));
        lemma_grid_connected(rows, cols, s, next, b);
    }
}

} // verus!
