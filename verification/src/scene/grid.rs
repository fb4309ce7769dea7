//! The occupancy grid as a mathematical object: cells numbered row by row,
//! their four neighbours, paths of occupied cells, and the edges between
//! occupied and free cells.

use vstd::prelude::*;
use vstd::arithmetic::div_mod::{lemma_fundamental_div_mod, lemma_fundamental_div_mod_converse};
use crate::bvh::Direction;
use crate::math::{LineSegment, Vec2};
use crate::scene::occupancy_map::ObjectTag;

verus! {

/// Lattice units along one side of a grid cell.
pub const CELL: i32 = 1024;

/// Half a cell, the unit in which the cell corners are whole numbers when
/// the grid is centred on the origin.
pub const HALF_CELL: i32 = 512;

/// The greatest width or height whose corner coordinates fit the lattice.
pub const MAX_DIM: usize = 0x20_0000;

/// A grid of `w` columns and `h` rows; cell `(x, y)` has the number
/// `y * w + x`, and `pixels` tells which cells are occupied.
pub struct Grid {
    pub w: int,
    pub h: int,
    pub pixels: Seq<bool>,
}

/// The order in which a cell's sides are looked at.
pub open spec fn dir_rank(d: Direction) -> int {
    match d {
        Direction::West => 0,
        Direction::East => 1,
        Direction::North => 2,
        Direction::South => 3,
    }
}

/// The side across.
pub open spec fn opposite(d: Direction) -> Direction {
    match d {
        Direction::West => Direction::East,
        Direction::East => Direction::West,
        Direction::North => Direction::South,
        Direction::South => Direction::North,
    }
}

impl Grid {
    /// The grid has cells, and as many pixels as its shape says.
    pub open spec fn ok(self) -> bool {
        self.w > 0 && self.h > 0 && self.pixels.len() == self.w * self.h
    }

    /// The number of cells.
    pub open spec fn cells(self) -> int {
        self.pixels.len() as int
    }

    /// `k` is a cell of the grid and occupied.
    pub open spec fn occupied(self, k: int) -> bool {
        0 <= k < self.pixels.len() && self.pixels[k]
    }

    /// The cell next to `k` on side `d`, where the grid has one. North is
    /// towards row 0.
    pub open spec fn neighbour(self, k: int, d: Direction) -> Option<int> {
        match d {
            Direction::West => if k % self.w > 0 {
                Some(k - 1)
            } else {
                None
            },
            Direction::East => if k % self.w < self.w - 1 {
                Some(k + 1)
            } else {
                None
            },
            Direction::North => if k / self.w > 0 {
                Some(k - self.w)
            } else {
                None
            },
            Direction::South => if k / self.w < self.h - 1 {
                Some(k + self.w)
            } else {
                None
            },
        }
    }

    /// Cell `k` is occupied and its neighbour on side `d` exists and is free.
    pub open spec fn is_edge(self, k: int, d: Direction) -> bool {
        self.occupied(k) && self.neighbour(k, d) is Some && !self.pixels[self.neighbour(
            k,
            d,
        )->Some_0]
    }

    /// `b` is one of the four neighbours of `a`.
    pub open spec fn adjacent(self, a: int, b: int) -> bool {
        exists|d: Direction| #[trigger] self.neighbour(a, d) == Some(b)
    }

    /// A walk over occupied cells, each step to one of the four neighbours.
    pub open spec fn is_path(self, p: Seq<int>) -> bool {
        &&& p.len() > 0
        &&& forall|i: int| 0 <= i < p.len() ==> self.occupied(#[trigger] p[i])
        &&& forall|i: int| 0 <= i < p.len() - 1 ==> self.adjacent(#[trigger] p[i], p[i + 1])
    }

    /// Some walk over occupied cells leads from `a` to `b`.
    pub open spec fn connected(self, a: int, b: int) -> bool {
        exists|p: Seq<int>| #[trigger] self.is_path(p) && p[0] == a && p.last() == b
    }

    /// How many of the sides of `k` that come before rank `m` are edges.
    pub open spec fn partial_edges(self, k: int, m: int) -> int {
        (if 0 < m && self.is_edge(k, Direction::West) {
            1int
        } else {
            0int
        }) + (if 1 < m && self.is_edge(k, Direction::East) {
            1int
        } else {
            0int
        }) + (if 2 < m && self.is_edge(k, Direction::North) {
            1int
        } else {
            0int
        }) + (if 3 < m && self.is_edge(k, Direction::South) {
            1int
        } else {
            0int
        })
    }

    /// The edges counted over the cells below `upto`, cell `k` with its
    /// sides before rank `progress[k]`.
    pub open spec fn edge_total(self, progress: Seq<int>, upto: int) -> int
        decreases upto,
    {
        if upto <= 0 {
            0
        } else {
            self.edge_total(progress, upto - 1) + self.partial_edges(upto - 1, progress[upto - 1])
        }
    }

    /// The number of pairs of an occupied cell and a free cell next to it,
    /// over the cells below `upto`.
    pub open spec fn edge_count(self, upto: int) -> int
        decreases upto,
    {
        if upto <= 0 {
            0
        } else {
            self.edge_count(upto - 1) + self.partial_edges(upto - 1, 4)
        }
    }

    /// Cell `k` is occupied and on side `d` lies a free cell or the border
    /// of the grid.
    pub open spec fn is_open_side(self, k: int, d: Direction) -> bool {
        self.occupied(k) && (self.neighbour(k, d) is None || !self.pixels[self.neighbour(
            k,
            d,
        )->Some_0])
    }

    /// How many sides of cell `k` are open.
    pub open spec fn open_sides(self, k: int) -> int {
        (if self.is_open_side(k, Direction::West) {
            1int
        } else {
            0int
        }) + (if self.is_open_side(k, Direction::East) {
            1int
        } else {
            0int
        }) + (if self.is_open_side(k, Direction::North) {
            1int
        } else {
            0int
        }) + (if self.is_open_side(k, Direction::South) {
            1int
        } else {
            0int
        })
    }

    /// The number of pairs of an occupied cell and a side of it on which a
    /// free cell or the border lies, over the cells below `upto`.
    pub open spec fn open_side_count(self, upto: int) -> int
        decreases upto,
    {
        if upto <= 0 {
            0
        } else {
            self.open_side_count(upto - 1) + self.open_sides(upto - 1)
        }
    }

    /// No occupied cell lies at the border of the grid.
    pub open spec fn border_is_free(self) -> bool {
        forall|k: int, d: Direction|
            self.occupied(k) ==> (#[trigger] self.neighbour(k, d)) is Some
    }

    /// The column and row of cell `k`.
    pub open spec fn col(self, k: int) -> int {
        k % self.w
    }

    pub open spec fn row(self, k: int) -> int {
        k / self.w
    }

    /// The edge of cell `k` on side `d` as a directed segment.
    pub open spec fn segment_of(self, k: int, d: Direction) -> LineSegment {
        spec_boundary_direction(self.w, self.h, self.col(k), self.row(k), d)
    }
}

/// The side `d` of cell `(x, y)` of a `w` by `h` grid centred on the origin,
/// `y` growing downwards in the grid and upwards on the lattice: the
/// segment runs clockwise around the cell.
pub open spec fn spec_boundary_direction(w: int, h: int, x: int, y: int, d: Direction) -> LineSegment {
    let left = ((2 * x - w) * HALF_CELL) as i32;
    let top = ((h - 2 * y) * HALF_CELL) as i32;
    let right = ((2 * x - w) * HALF_CELL + CELL) as i32;
    let bottom = ((h - 2 * y) * HALF_CELL - CELL) as i32;
    match d {
        Direction::North => LineSegment(Vec2 { x: left, y: top }, Vec2 { x: right, y: top }),
        Direction::East => LineSegment(Vec2 { x: right, y: top }, Vec2 { x: right, y: bottom }),
        Direction::South => LineSegment(Vec2 { x: right, y: bottom }, Vec2 { x: left, y: bottom }),
        Direction::West => LineSegment(Vec2 { x: left, y: bottom }, Vec2 { x: left, y: top }),
    }
}

/// Column and row of a cell, with the bounds they keep.
pub proof fn lemma_col_row(g: Grid, k: int)
    requires
        g.ok(),
        0 <= k < g.cells(),
    ensures
        0 <= g.col(k) < g.w,
        0 <= g.row(k) < g.h,
        k == g.row(k) * g.w + g.col(k),
{
    lemma_fundamental_div_mod(k, g.w);
    let q = k / g.w;
    let r = k % g.w;
    assert(g.w * q == q * g.w) by (nonlinear_arith);
    assert(q >= 0) by (nonlinear_arith)
        requires
            k == q * g.w + r,
            0 <= r < g.w,
            k >= 0,
    ;
    assert(q < g.h) by (nonlinear_arith)
        requires
            k == q * g.w + r,
            0 <= r < g.w,
            k < g.w * g.h,
    ;
}

/// A neighbour is a cell of the grid one column or one row away, and the
/// cell is its neighbour on the opposite side.
pub proof fn lemma_neighbour(g: Grid, k: int, d: Direction)
    requires
        g.ok(),
        0 <= k < g.cells(),
        g.neighbour(k, d) is Some,
    ensures
        0 <= g.neighbour(k, d)->Some_0 < g.cells(),
        g.neighbour(k, d)->Some_0 != k,
        g.neighbour(g.neighbour(k, d)->Some_0, opposite(d)) == Some(k),
        g.col(g.neighbour(k, d)->Some_0) == g.col(k) + (match d {
            Direction::West => -1int,
            Direction::East => 1int,
            _ => 0int,
        }),
        g.row(g.neighbour(k, d)->Some_0) == g.row(k) + (match d {
            Direction::North => -1int,
            Direction::South => 1int,
            _ => 0int,
        }),
{
    lemma_col_row(g, k);
    let q = g.row(k);
    let r = g.col(k);
    let j = g.neighbour(k, d)->Some_0;
    let (q2, r2) = match d {
        Direction::West => (q, r - 1),
        Direction::East => (q, r + 1),
        Direction::North => (q - 1, r),
        Direction::South => (q + 1, r),
    };
    assert((q - 1) * g.w == q * g.w - g.w && (q + 1) * g.w == q * g.w + g.w) by (nonlinear_arith);
    assert(j == q2 * g.w + r2);
    lemma_fundamental_div_mod_converse(j, g.w, q2, r2);
    assert(0 <= j < g.w * g.h) by (nonlinear_arith)
        requires
            j == q2 * g.w + r2,
            0 <= r2 < g.w,
            0 <= q2 < g.h,
    ;
}

/// One occupied cell is a walk.
pub proof fn lemma_connected_refl(g: Grid, a: int)
    requires
        g.occupied(a),
    ensures
        g.connected(a, a),
{
    let p = seq![a];
    assert(g.is_path(p));
    assert(p[0] == a && p.last() == a);
}

/// A walk goes on to an occupied neighbour of its end.
pub proof fn lemma_connected_step(g: Grid, a: int, b: int, c: int)
    requires
        g.connected(a, b),
        g.adjacent(b, c),
        g.occupied(c),
    ensures
        g.connected(a, c),
{
    let p = choose|p: Seq<int>| #[trigger] g.is_path(p) && p[0] == a && p.last() == b;
    let q = p.push(c);
    assert forall|i: int| 0 <= i < q.len() - 1 implies g.adjacent(#[trigger] q[i], q[i + 1]) by {
        if i < p.len() - 1 {
            assert(q[i] == p[i] && q[i + 1] == p[i + 1]);
        }
    }
    assert forall|i: int| 0 <= i < q.len() implies g.occupied(#[trigger] q[i]) by {
        if i < p.len() {
            assert(q[i] == p[i]);
        }
    }
    assert(g.is_path(q));
    assert(q[0] == a && q.last() == c);
}

/// Two walks that meet make one.
pub proof fn lemma_connected_trans(g: Grid, a: int, b: int, c: int)
    requires
        g.connected(a, b),
        g.connected(b, c),
    ensures
        g.connected(a, c),
{
    let p = choose|p: Seq<int>| #[trigger] g.is_path(p) && p[0] == a && p.last() == b;
    let q = choose|q: Seq<int>| #[trigger] g.is_path(q) && q[0] == b && q.last() == c;
    let r = p + q.subrange(1, q.len() as int);
    assert forall|i: int| 0 <= i < r.len() implies g.occupied(#[trigger] r[i]) by {
        if i < p.len() {
            assert(r[i] == p[i]);
        } else {
            assert(r[i] == q[i - p.len() + 1]);
        }
    }
    assert forall|i: int| 0 <= i < r.len() - 1 implies g.adjacent(#[trigger] r[i], r[i + 1]) by {
        if i < p.len() - 1 {
            assert(r[i] == p[i] && r[i + 1] == p[i + 1]);
        } else if i == p.len() - 1 {
            assert(r[i] == p[i] && r[i] == q[0] && r[i + 1] == q[1]);
        } else {
            assert(r[i] == q[i - p.len() + 1] && r[i + 1] == q[i - p.len() + 2]);
        }
    }
    assert(g.is_path(r));
    assert(r[0] == a);
    if q.len() == 1 {
        assert(r =~= p);
    } else {
        assert(r.last() == q.last());
    }
    assert(r.last() == c);
}

/// Neighbours are neighbours both ways.
pub proof fn lemma_adjacent_sym(g: Grid, a: int, b: int)
    requires
        g.ok(),
        0 <= a < g.cells(),
        g.adjacent(a, b),
    ensures
        g.adjacent(b, a),
        0 <= b < g.cells(),
{
    let d = choose|d: Direction| #[trigger] g.neighbour(a, d) == Some(b);
    lemma_neighbour(g, a, d);
    assert(g.neighbour(b, opposite(d)) == Some(a));
}

/// A walk can be walked backwards.
pub proof fn lemma_connected_sym(g: Grid, a: int, b: int)
    requires
        g.ok(),
        g.connected(a, b),
    ensures
        g.connected(b, a),
{
    let p = choose|p: Seq<int>| #[trigger] g.is_path(p) && p[0] == a && p.last() == b;
    let q = p.reverse();
    assert forall|i: int| 0 <= i < q.len() implies g.occupied(#[trigger] q[i]) by {
        assert(q[i] == p[p.len() - 1 - i]);
    }
    assert forall|i: int| 0 <= i < q.len() - 1 implies g.adjacent(#[trigger] q[i], q[i + 1]) by {
        let j = p.len() - 2 - i;
        assert(q[i] == p[j + 1] && q[i + 1] == p[j]);
        assert(g.adjacent(p[j], p[j + 1]));
        assert(g.occupied(p[j]));
        lemma_adjacent_sym(g, p[j], p[j + 1]);
    }
    assert(g.is_path(q));
    assert(q[0] == b && q.last() == a);
}

/// How many cells carry no label.
pub open spec fn count_none(labels: Seq<Option<ObjectTag>>) -> nat
    decreases labels.len(),
{
    if labels.len() == 0 {
        0
    } else {
        count_none(labels.drop_last()) + (if labels.last() is None {
            1nat
        } else {
            0nat
        })
    }
}

/// Labelling an unlabelled cell leaves one unlabelled cell fewer.
pub proof fn lemma_count_none_update(labels: Seq<Option<ObjectTag>>, k: int, tag: ObjectTag)
    requires
        0 <= k < labels.len(),
        labels[k] is None,
    ensures
        count_none(labels.update(k, Some(tag))) + 1 == count_none(labels),
    decreases labels.len(),
{
    let after = labels.update(k, Some(tag));
    if k == labels.len() - 1 {
        assert(after.drop_last() =~= labels.drop_last());
    } else {
        assert(after.drop_last() =~= labels.drop_last().update(k, Some(tag)));
        lemma_count_none_update(labels.drop_last(), k, tag);
    }
}

/// Looking at one more side of cell `k` adds that side to the total if it is
/// an edge.
pub proof fn lemma_edge_total_step(g: Grid, progress: Seq<int>, k: int, d: Direction, upto: int)
    requires
        0 <= k < progress.len(),
        0 <= upto <= progress.len(),
        progress[k] == dir_rank(d),
    ensures
        g.edge_total(progress.update(k, progress[k] + 1), upto) == g.edge_total(progress, upto) + (
        if k < upto && g.is_edge(k, d) {
            1int
        } else {
            0int
        }),
    decreases upto,
{
    if upto > 0 {
        lemma_edge_total_step(g, progress, k, d, upto - 1);
    }
}

/// Once every occupied cell has had its four sides looked at, the total is
/// the number of edges.
pub proof fn lemma_edge_total_full(g: Grid, progress: Seq<int>, upto: int)
    requires
        0 <= upto <= progress.len(),
        upto <= g.cells(),
        forall|k: int| 0 <= k < upto && g.pixels[k] ==> #[trigger] progress[k] == 4,
    ensures
        g.edge_total(progress, upto) == g.edge_count(upto),
    decreases upto,
{
    if upto > 0 {
        lemma_edge_total_full(g, progress, upto - 1);
        if !g.pixels[upto - 1] {
            assert(g.partial_edges(upto - 1, progress[upto - 1]) == 0);
            assert(g.partial_edges(upto - 1, 4) == 0);
        }
    }
}

/// Where no occupied cell lies at the border, the open sides are the edges
/// between occupied and free cells.
pub proof fn lemma_open_sides_are_edges(g: Grid, upto: int)
    requires
        g.border_is_free(),
        0 <= upto <= g.cells(),
    ensures
        g.open_side_count(upto) == g.edge_count(upto),
    decreases upto,
{
    if upto > 0 {
        lemma_open_sides_are_edges(g, upto - 1);
        let k = upto - 1;
        if g.occupied(k) {
            assert(g.neighbour(k, Direction::West) is Some);
            assert(g.neighbour(k, Direction::East) is Some);
            assert(g.neighbour(k, Direction::North) is Some);
            assert(g.neighbour(k, Direction::South) is Some);
        }
    }
}

/// No cell has more than four edges.
pub proof fn lemma_edge_count_bound(g: Grid, upto: int)
    requires
        0 <= upto,
    ensures
        0 <= g.edge_count(upto) <= 4 * upto,
    decreases upto,
{
    if upto > 0 {
        lemma_edge_count_bound(g, upto - 1);
    }
}

/// Different sides of different cells are different segments.
pub proof fn lemma_segment_injective(g: Grid, k1: int, d1: Direction, k2: int, d2: Direction)
    requires
        g.ok(),
        g.w <= MAX_DIM,
        g.h <= MAX_DIM,
        0 <= k1 < g.cells(),
        0 <= k2 < g.cells(),
        g.segment_of(k1, d1) == g.segment_of(k2, d2),
    ensures
        k1 == k2,
        d1 == d2,
{
    lemma_col_row(g, k1);
    lemma_col_row(g, k2);
    let x1 = g.col(k1);
    let y1 = g.row(k1);
    let x2 = g.col(k2);
    let y2 = g.row(k2);
    assert(x1 == x2 && y1 == y2 && d1 == d2);
}

} // verus!
