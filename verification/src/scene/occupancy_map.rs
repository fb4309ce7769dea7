//! The occupancy grid, its connected components and its boundary edges.

use vstd::prelude::*;
use vstd::arithmetic::div_mod::{lemma_fundamental_div_mod, lemma_fundamental_div_mod_converse};
use crate::bvh::{BVH, Direction};
use crate::math::{Box2D, I64Vec2, LineSegment, USizeVec2, Vec2};
use crate::ratio::Ratio;
use crate::raycast::{all_indices, is_nearest};
use crate::scene::Scene2DError;
use crate::scene::fill::{
    boundary_edges, closure_inv, edges_inv, grid_fits, labelled_components, labels_inv,
    lemma_closure_relabel, lemma_closure_side, lemma_components_done, lemma_edges_done,
    lemma_edges_emit, lemma_edges_plain, lemma_initial, lemma_labelled_occupied,
    lemma_order_done, lemma_order_finish, lemma_order_initial, lemma_order_pop, lemma_order_side,
    order_inv,
    lemma_labels_advance, lemma_labels_join, lemma_labels_seed, lemma_neighbour_label,
    lemma_progress_finish, lemma_progress_idle, lemma_progress_pop, lemma_progress_push,
    lemma_progress_seed, lemma_progress_side, lemma_scan_done, progress_inv, tag, waits,
};
use crate::scene::grid::{
    CELL, Grid, HALF_CELL, MAX_DIM, count_none, dir_rank, lemma_col_row, lemma_count_none_update,
    lemma_edge_count_bound, lemma_neighbour, lemma_open_sides_are_edges, spec_boundary_direction,
};

verus! {

/// The label of one connected component of occupied cells.
#[derive(Debug, Clone, Copy, PartialEq, Eq, Hash, Structural)]
pub struct ObjectTag(pub u64);

/// The map: the grid's shape and pixels, the label of every cell, the
/// boundary segments and the hierarchy over them.
#[derive(Debug)]
pub struct OccupancyMap {
    pub size: USizeVec2,
    pub pixels: Vec<bool>,
    pub objects: Vec<Option<ObjectTag>>,
    pub boundaries: Vec<LineSegment>,
    pub bvh: BVH,
}

/// The grid of the given shape and pixels.
pub open spec fn grid_of(size: USizeVec2, pixels: Seq<bool>) -> Grid {
    Grid { w: size.x as int, h: size.y as int, pixels }
}

/// The cell numbers on the stack.
pub open spec fn as_ints(s: Seq<usize>) -> Seq<int> {
    Seq::new(s.len(), |i: int| s[i] as int)
}

/// The side `direction` of cell `node` as a directed segment on the
/// lattice.
pub fn boundary_direction(size: USizeVec2, node: USizeVec2, direction: Direction) -> (r:
    LineSegment)
    requires
        size.x <= MAX_DIM,
        size.y <= MAX_DIM,
        node.x < size.x,
        node.y < size.y,
    ensures
        r == spec_boundary_direction(
            size.x as int,
            size.y as int,
            node.x as int,
            node.y as int,
            direction,
        ),
{
    assert(HALF_CELL == 512 && CELL == 1024);
    let left: i32 = ((2 * (node.x as i64) - size.x as i64) * 512) as i32;
    let top: i32 = ((size.y as i64 - 2 * (node.y as i64)) * 512) as i32;
    let right: i32 = left + CELL;
    let bottom: i32 = top - CELL;
    match direction {
        Direction::North => LineSegment(Vec2 { x: left, y: top }, Vec2 { x: right, y: top }),
        Direction::East => LineSegment(Vec2 { x: right, y: top }, Vec2 { x: right, y: bottom }),
        Direction::South => LineSegment(Vec2 { x: right, y: bottom }, Vec2 { x: left, y: bottom }),
        Direction::West => LineSegment(Vec2 { x: left, y: bottom }, Vec2 { x: left, y: top }),
    }
}

/// Looks at side `d` of the cell `k` that was taken from the stack: a free
/// neighbour makes the side a boundary segment, an occupied one without a
/// label gets the tag and is put on the stack.
fn visit(
    Ghost(g): Ghost<Grid>,
    k: usize,
    d: Direction,
    j: Option<usize>,
    label: ObjectTag,
    size: USizeVec2,
    pixels: &Vec<bool>,
    objects: &mut Vec<Option<ObjectTag>>,
    stack: &mut Vec<usize>,
    boundaries: &mut Vec<LineSegment>,
    Ghost(progress): Ghost<Seq<int>>,
    Ghost(seeds): Ghost<Seq<int>>,
    Ghost(scanned): Ghost<int>,
    Ghost(order): Ghost<Seq<int>>,
) -> (r: Ghost<Seq<int>>)
    requires
        grid_fits(g),
        g == grid_of(size, pixels@),
        k < g.cells(),
        g.pixels[k as int],
        old(objects).len() == g.cells(),
        progress.len() == g.cells(),
        labels_inv(g, old(objects)@, seeds, scanned),
        progress_inv(
            g,
            old(objects)@,
            progress,
            as_ints(old(stack)@),
            Some(k as int),
            seeds.len() as int,
        ),
        closure_inv(g, old(objects)@, progress),
        edges_inv(g, progress, old(boundaries)@),
        order_inv(g, order, progress, old(boundaries)@, Some(k as int)),
        !waits(as_ints(old(stack)@), k as int),
        seeds.len() > 0,
        Some(label) == tag(seeds.len() - 1),
        old(objects)@[k as int] == Some(label),
        progress[k as int] == dir_rank(d),
        match j {
            Some(n) => g.neighbour(k as int, d) == Some(n as int),
            None => g.neighbour(k as int, d) is None,
        },
    ensures
        labels_inv(g, final(objects)@, seeds, scanned),
        progress_inv(
            g,
            final(objects)@,
            r@,
            as_ints(final(stack)@),
            Some(k as int),
            seeds.len() as int,
        ),
        closure_inv(g, final(objects)@, r@),
        edges_inv(g, r@, final(boundaries)@),
        order_inv(g, order, r@, final(boundaries)@, Some(k as int)),
        !waits(as_ints(final(stack)@), k as int),
        final(objects).len() == g.cells(),
        r@.len() == g.cells(),
        final(objects)@[k as int] == Some(label),
        r@[k as int] == dir_rank(d) + 1,
        2 * count_none(final(objects)@) + final(stack).len() <= 2 * count_none(old(objects)@)
            + old(stack).len(),
{
    let ghost pending = as_ints(stack@);
    let ghost count = seeds.len() as int;
    let ghost after = progress.update(k as int, progress[k as int] + 1);
    proof {
        lemma_labelled_occupied(g, objects@, seeds, scanned, k as int);
        lemma_order_side(g, order, progress, boundaries@, k as int, d);
        if j is Some {
            lemma_neighbour(g, k as int, d);
        }
    }
    match j {
        None => {
            proof {
                lemma_progress_side(g, objects@, progress, pending, k as int, count);
                lemma_closure_side(g, objects@, progress, k as int, d);
                lemma_edges_plain(g, progress, boundaries@, k as int, d);
            }
        },
        Some(n) => {
            proof {
                lemma_neighbour(g, k as int, d);
            }
            if pixels[n] {
                if objects[n].is_none() {
                    proof {
                        lemma_labels_join(g, objects@, seeds, scanned, k as int, d);
                        lemma_progress_push(
                            g,
                            objects@,
                            progress,
                            pending,
                            Some(k as int),
                            count,
                            n as int,
                        );
                        lemma_closure_relabel(g, objects@, progress, n as int, Some(label));
                        lemma_count_none_update(objects@, n as int, label);
                    }
                    objects.set(n, Some(label));
                    stack.push(n);
                    proof {
                        let grown = as_ints(stack@);
                        assert(grown =~= pending.push(n as int));
                        assert(!waits(grown, k as int)) by {
                            if waits(grown, k as int) {
                                let i = choose|i: int|
                                    0 <= i < grown.len() && #[trigger] grown[i] == k as int;
                                assert(pending[i] == k as int);
                            }
                        }
                        lemma_progress_side(g, objects@, progress, grown, k as int, count);
                        lemma_closure_side(g, objects@, progress, k as int, d);
                        lemma_edges_plain(g, progress, boundaries@, k as int, d);
                    }
                } else {
                    proof {
                        lemma_neighbour_label(
                            g,
                            objects@,
                            progress,
                            pending,
                            k as int,
                            count,
                            d,
                        );
                        lemma_progress_side(g, objects@, progress, pending, k as int, count);
                        lemma_closure_side(g, objects@, progress, k as int, d);
                        lemma_edges_plain(g, progress, boundaries@, k as int, d);
                    }
                }
            } else {
                proof {
                    lemma_col_row(g, k as int);
                }
                let node = USizeVec2 { x: k % size.x, y: k / size.x };
                let seg = boundary_direction(size, node, d);
                boundaries.push(seg);
                proof {
                    assert(seg == g.segment_of(k as int, d));
                    lemma_progress_side(g, objects@, progress, pending, k as int, count);
                    lemma_closure_side(g, objects@, progress, k as int, d);
                    lemma_edges_emit(g, progress, old(boundaries)@, k as int, d);
                }
            }
        },
    }
    Ghost(after)
}

/// Labels the connected components of occupied cells and collects the
/// boundary segments between occupied cells and free neighbours.
pub fn flood_fill(size: USizeVec2, pixels: &Vec<bool>) -> (r: (
    Vec<Option<ObjectTag>>,
    Vec<LineSegment>,
))
    requires
        size.x * size.y == pixels.len(),
        size.x <= MAX_DIM,
        size.y <= MAX_DIM,
    ensures
        labelled_components(grid_of(size, pixels@), r.0@),
        boundary_edges(grid_of(size, pixels@), r.1@),
{
    let ghost g = grid_of(size, pixels@);
    let n = pixels.len();
    let width = size.x;
    let height = size.y;
    let mut objects: Vec<Option<ObjectTag>> = Vec::new();
    let mut boundaries: Vec<LineSegment> = Vec::new();
    if n == 0 {
        proof {
            assert(g.edge_count(0) == 0);
            let none = Seq::<int>::empty();
            assert(crate::scene::fill::is_cell_order(g, none));
            assert(boundaries@ =~= crate::scene::fill::cell_segments(g, none));
        }
        return (objects, boundaries);
    }
    assert(width > 0 && height > 0) by (nonlinear_arith)
        requires
            width * height == n,
            n > 0,
            width >= 0,
            height >= 0,
    ;
    let mut c: usize = 0;
    while c < n
        invariant
            c <= n,
            objects.len() == c,
            forall|k: int| 0 <= k < c ==> (#[trigger] objects[k]) is None,
        decreases n - c,
    {
        objects.push(None);
        c += 1;
    }
    let mut stack: Vec<usize> = Vec::new();
    let mut object_count: u64 = 0;
    let ghost mut progress: Seq<int> = Seq::new(n as nat, |k: int| 0int);
    let ghost mut seeds: Seq<int> = Seq::empty();
    let ghost mut order: Seq<int> = Seq::empty();
    proof {
        lemma_order_initial(g, progress);
        lemma_initial(g, objects@, progress);
        assert(as_ints(stack@) =~= Seq::<int>::empty());
    }
    let mut i: usize = 0;
    while i < n
        invariant
            i <= n,
            n == pixels.len(),
            n == g.cells(),
            width == size.x,
            height == size.y,
            g == grid_of(size, pixels@),
            grid_fits(g),
            stack.len() == 0,
            object_count == seeds.len(),
            labels_inv(g, objects@, seeds, i as int),
            progress_inv(g, objects@, progress, Seq::empty(), None, seeds.len() as int),
            closure_inv(g, objects@, progress),
            edges_inv(g, progress, boundaries@),
            order_inv(g, order, progress, boundaries@, None),
            objects.len() == n,
            progress.len() == n,
        decreases n - i,
    {
        if pixels[i] && objects[i].is_none() {
            let label = ObjectTag(object_count);
            proof {
                lemma_labels_seed(g, objects@, seeds, i as int);
                lemma_progress_seed(g, objects@, progress, seeds.len() as int, i as int);
                lemma_progress_idle(g, objects@, progress, seeds.len() as int);
                lemma_closure_relabel(g, objects@, progress, i as int, Some(label));
            }
            object_count += 1;
            objects.set(i, Some(label));
            stack.push(i);
            proof {
                seeds = seeds.push(i as int);
                assert(as_ints(stack@) =~= Seq::<int>::empty().push(i as int));
            }
            while stack.len() > 0
                invariant
                    i < n,
                    n == pixels.len(),
                    n == g.cells(),
                    g == grid_of(size, pixels@),
                    grid_fits(g),
                    width == size.x,
                    height == size.y,
                    object_count == seeds.len(),
                    seeds.len() > 0,
                    Some(label) == tag(seeds.len() - 1),
                    labels_inv(g, objects@, seeds, i + 1),
                    progress_inv(
                        g,
                        objects@,
                        progress,
                        as_ints(stack@),
                        None,
                        seeds.len() as int,
                    ),
                    closure_inv(g, objects@, progress),
                    edges_inv(g, progress, boundaries@),
                    order_inv(g, order, progress, boundaries@, None),
                    objects.len() == n,
                    progress.len() == n,
                decreases 2 * count_none(objects@) + stack.len(),
            {
                let ghost pending = as_ints(stack@);
                proof {
                    lemma_progress_pop(g, objects@, progress, pending, seeds.len() as int);
                }
                let k = stack.pop().unwrap();
                proof {
                    assert(as_ints(stack@) =~= pending.drop_last());
                    assert(pending.last() == k as int);
                    lemma_labelled_occupied(g, objects@, seeds, i + 1, k as int);
                    lemma_col_row(g, k as int);
                    lemma_order_pop(g, order, progress, boundaries@, k as int);
                }
                let x = k % width;
                let y = k / width;
                let west = if x > 0 {
                    Some(k - 1)
                } else {
                    None
                };
                let Ghost(after_west) = visit(
                    Ghost(g),
                    k,
                    Direction::West,
                    west,
                    label,
                    size,
                    pixels,
                    &mut objects,
                    &mut stack,
                    &mut boundaries,
                    Ghost(progress),
                    Ghost(seeds),
                    Ghost(i + 1),
                    Ghost(order),
                );
                let east = if x < width - 1 {
                    proof {
                        lemma_neighbour(g, k as int, Direction::East);
                    }
                    Some(k + 1)
                } else {
                    None
                };
                let Ghost(after_east) = visit(
                    Ghost(g),
                    k,
                    Direction::East,
                    east,
                    label,
                    size,
                    pixels,
                    &mut objects,
                    &mut stack,
                    &mut boundaries,
                    Ghost(after_west),
                    Ghost(seeds),
                    Ghost(i + 1),
                    Ghost(order),
                );
                let north = if y > 0 {
                    proof {
                        lemma_neighbour(g, k as int, Direction::North);
                    }
                    Some(k - width)
                } else {
                    None
                };
                let Ghost(after_north) = visit(
                    Ghost(g),
                    k,
                    Direction::North,
                    north,
                    label,
                    size,
                    pixels,
                    &mut objects,
                    &mut stack,
                    &mut boundaries,
                    Ghost(after_east),
                    Ghost(seeds),
                    Ghost(i + 1),
                    Ghost(order),
                );
                let south = if y < height - 1 {
                    proof {
                        lemma_neighbour(g, k as int, Direction::South);
                    }
                    Some(k + width)
                } else {
                    None
                };
                let Ghost(after_south) = visit(
                    Ghost(g),
                    k,
                    Direction::South,
                    south,
                    label,
                    size,
                    pixels,
                    &mut objects,
                    &mut stack,
                    &mut boundaries,
                    Ghost(after_north),
                    Ghost(seeds),
                    Ghost(i + 1),
                    Ghost(order),
                );
                proof {
                    progress = after_south;
                    lemma_order_finish(g, order, progress, boundaries@, k as int);
                    order = order.push(k as int);
                    lemma_progress_finish(
                        g,
                        objects@,
                        progress,
                        as_ints(stack@),
                        k as int,
                        seeds.len() as int,
                    );
                }
            }
            proof {
                assert(as_ints(stack@) =~= Seq::<int>::empty());
            }
        } else {
            proof {
                lemma_labels_advance(g, objects@, seeds, i as int);
            }
        }
        i += 1;
    }
    proof {
        lemma_scan_done(g, objects@, seeds);
        lemma_progress_idle(g, objects@, progress, seeds.len() as int);
        lemma_components_done(g, objects@, progress, seeds);
        lemma_order_done(g, order, objects@, progress, boundaries@);
        lemma_edges_done(g, objects@, progress, boundaries@);
    }
    (objects, boundaries)
}

/// `floor(a / b)` for a positive divisor.
fn div_floor(a: i64, b: i64) -> (q: i64)
    requires
        b > 0,
    ensures
        q == a / b,
{
    if a >= 0 {
        a / b
    } else {
        let m: i64 = -(a + 1);
        let down: i64 = m / b;
        assert(0 <= down <= m) by (nonlinear_arith)
            requires
                m >= 0,
                b > 0,
                down == m / b,
        ;
        proof {
            let q = (m as int) / (b as int);
            let r = (m as int) % (b as int);
            lemma_fundamental_div_mod(m as int, b as int);
            assert(b * q == q * b) by (nonlinear_arith);
            assert(a == (-q - 1) * b + (b - 1 - r)) by (nonlinear_arith)
                requires
                    m == q * b + r,
                    m == -(a + 1),
            ;
            lemma_fundamental_div_mod_converse(a as int, b as int, -q - 1, b - 1 - r);
        }
        -down - 1
    }
}

impl OccupancyMap {
    /// The grid this map describes.
    pub open spec fn grid(&self) -> Grid {
        grid_of(self.size, self.pixels@)
    }

    /// The shape fits the lattice and the pixel count fits the shape.
    pub open spec fn shape_ok(&self) -> bool {
        &&& self.size.x <= MAX_DIM
        &&& self.size.y <= MAX_DIM
        &&& self.pixels.len() == self.size.x * self.size.y
    }

    /// The map is what `from_pixels` builds: the labels are those of the
    /// connected components, the boundaries are the edges between occupied
    /// cells and free neighbours, and the hierarchy indexes the boundaries.
    pub open spec fn wf(&self) -> bool {
        &&& self.shape_ok()
        &&& labelled_components(self.grid(), self.objects@)
        &&& boundary_edges(self.grid(), self.boundaries@)
        &&& self.bvh.wf(self.boundaries@)
    }

    /// The point lies strictly inside the map, which is centred on the
    /// origin.
    pub open spec fn spec_is_valid_vec2(&self, loc: Vec2) -> bool {
        &&& -(self.size.x * HALF_CELL) < loc.x < self.size.x * HALF_CELL
        &&& -(self.size.y * HALF_CELL) < loc.y < self.size.y * HALF_CELL
    }

    pub open spec fn spec_is_valid(&self, loc: USizeVec2) -> bool {
        loc.x < self.size.x && loc.y < self.size.y
    }

    /// The column and row in which the point falls; rows count downwards
    /// from the top edge of the map.
    pub open spec fn spec_translate(&self, loc: Vec2) -> I64Vec2 {
        I64Vec2 {
            x: ((loc.x + self.size.x * HALF_CELL) / (CELL as int)) as i64,
            y: ((self.size.y * HALF_CELL - loc.y) / (CELL as int)) as i64,
        }
    }

    /// The square the cell covers on the lattice.
    pub open spec fn spec_get_box(&self, loc: USizeVec2) -> Box2D {
        Box2D {
            min: Vec2 {
                x: ((2 * loc.x - self.size.x) * HALF_CELL) as i32,
                y: ((self.size.y - 2 * loc.y) * HALF_CELL - CELL) as i32,
            },
            max: Vec2 {
                x: ((2 * loc.x - self.size.x) * HALF_CELL + CELL) as i32,
                y: ((self.size.y - 2 * loc.y) * HALF_CELL) as i32,
            },
        }
    }

    /// Whether the cell is occupied; every cell outside the grid counts as
    /// occupied.
    pub open spec fn spec_is_occupied(&self, loc: USizeVec2) -> bool {
        if self.spec_is_valid(loc) {
            self.pixels@[loc.x + loc.y * self.size.x]
        } else {
            true
        }
    }

    /// Whether the point lies in an occupied cell; every point that is not
    /// strictly inside the map counts as occupied.
    pub open spec fn spec_is_occupied_vec2(&self, loc: Vec2) -> bool {
        if self.spec_is_valid_vec2(loc) {
            self.pixels@[self.spec_translate(loc).x + self.spec_translate(loc).y * self.size.x]
        } else {
            true
        }
    }

    pub fn is_valid_vec2(&self, loc: Vec2) -> (r: bool)
        requires
            self.shape_ok(),
        ensures
            r == self.spec_is_valid_vec2(loc),
    {
        assert(HALF_CELL == 512);
        let half_w: i64 = (self.size.x as i64) * 512;
        let half_h: i64 = (self.size.y as i64) * 512;
        let x = loc.x as i64;
        let y = loc.y as i64;
        -half_w < x && x < half_w && -half_h < y && y < half_h
    }

    pub fn is_valid(&self, loc: USizeVec2) -> (r: bool)
        ensures
            r == self.spec_is_valid(loc),
    {
        loc.x < self.size.x && loc.y < self.size.y
    }

    pub fn translate(&self, loc: Vec2) -> (r: I64Vec2)
        requires
            self.shape_ok(),
        ensures
            r == self.spec_translate(loc),
    {
        assert(HALF_CELL == 512 && CELL == 1024);
        let half_w: i64 = (self.size.x as i64) * 512;
        let half_h: i64 = (self.size.y as i64) * 512;
        I64Vec2 {
            x: div_floor(loc.x as i64 + half_w, 1024),
            y: div_floor(half_h - loc.y as i64, 1024),
        }
    }

    pub fn get_box(&self, loc: USizeVec2) -> (r: Box2D)
        requires
            self.shape_ok(),
            self.spec_is_valid(loc),
        ensures
            r == self.spec_get_box(loc),
    {
        assert(HALF_CELL == 512 && CELL == 1024);
        let left: i32 = ((2 * (loc.x as i64) - self.size.x as i64) * 512) as i32;
        let top: i32 = ((self.size.y as i64 - 2 * (loc.y as i64)) * 512) as i32;
        Box2D { min: Vec2 { x: left, y: top - 1024 }, max: Vec2 { x: left + 1024, y: top } }
    }

    pub fn is_occupied_vec2(&self, loc: Vec2) -> (r: bool)
        requires
            self.shape_ok(),
        ensures
            r == self.spec_is_occupied_vec2(loc),
    {
        if !self.is_valid_vec2(loc) {
            return true;
        }
        let cell = self.translate(loc);
        assert(HALF_CELL == 512 && CELL == 1024);
        let ghost w = self.size.x as int;
        let ghost h = self.size.y as int;
        assert(0 <= cell.x < w && 0 <= cell.y < h) by (nonlinear_arith)
            requires
                cell.x == (loc.x + w * 512) / 1024,
                cell.y == (h * 512 - loc.y) / 1024,
                -(w * 512) < loc.x < w * 512,
                -(h * 512) < loc.y < h * 512,
        ;
        let x = cell.x as usize;
        let y = cell.y as usize;
        assert(x + y * w < w * h) by (nonlinear_arith)
            requires
                0 <= x < w,
                0 <= y < h,
        ;
        self.pixels[x + y * self.size.x]
    }

    pub fn is_occupied(&self, loc: USizeVec2) -> (r: bool)
        requires
            self.shape_ok(),
        ensures
            r == self.spec_is_occupied(loc),
    {
        if self.is_valid(loc) {
            let ghost w = self.size.x as int;
            let ghost h = self.size.y as int;
            assert(loc.x + loc.y * w < w * h) by (nonlinear_arith)
                requires
                    0 <= loc.x < w,
                    0 <= loc.y < h,
            ;
            self.pixels[loc.x + loc.y * self.size.x]
        } else {
            true
        }
    }

    /// Two occupied cells carry the same tag if and only if a walk over
    /// occupied cells, from neighbour to neighbour, joins them.
    pub proof fn lemma_tags_are_components(&self, a: int, b: int)
        requires
            self.wf(),
            self.grid().occupied(a),
            self.grid().occupied(b),
        ensures
            self.objects@[a] == self.objects@[b] <==> self.grid().connected(a, b),
    {
        let g = self.grid();
        assert(g.connected(a, b) <==> self.objects@[a] == self.objects@[b]);
    }

    /// In a map without occupied cells at its border there are as many
    /// boundary segments as pairs of an occupied cell and a side of it on
    /// which a free cell or the border lies.
    pub proof fn lemma_boundary_count(&self)
        requires
            self.wf(),
            self.grid().border_is_free(),
        ensures
            self.boundaries@.len() == self.grid().open_side_count(self.grid().cells()),
    {
        lemma_open_sides_are_edges(self.grid(), self.grid().cells());
    }

    /// The distance along the ray `pos + t * dir` to the nearest boundary
    /// segment it hits, as a multiple of `dir`; none if it hits no boundary.
    pub fn cast_rays(&self, pos: Vec2, dir: Vec2) -> (r: Option<Ratio>)
        requires
            self.bvh.wf(self.boundaries@),
        ensures
            is_nearest(r, pos, dir, self.boundaries@, all_indices(self.boundaries@.len())),
    {
        self.bvh.cast_ray(&self.boundaries, pos, dir)
    }

    /// Builds the map from a grid of `size.x` columns and `size.y` rows,
    /// given row by row with `true` for an occupied cell. A pixel count
    /// other than `size.x * size.y` is the one error.
    pub fn from_pixels(size: USizeVec2, pixels: Vec<bool>) -> (r: Result<OccupancyMap, Scene2DError>)
        requires
            size.x * size.y == pixels.len() ==> size.x <= MAX_DIM && size.y <= MAX_DIM,
        ensures
            size.x * size.y != pixels.len() ==> (r matches Err(
                Scene2DError::PixelSizeMismatch(count, shape),
            ) && count == pixels.len() && shape[0] == size.x && shape[1] == size.y),
            size.x * size.y == pixels.len() ==> (r matches Ok(map) && map.size == size && map.pixels@
                == pixels@ && map.wf()),
    {
        assert(size.x * size.y <= 0xffff_ffff_ffff_ffff * 0xffff_ffff_ffff_ffff) by (nonlinear_arith)
            requires
                0 <= size.x <= 0xffff_ffff_ffff_ffff,
                0 <= size.y <= 0xffff_ffff_ffff_ffff,
        ;
        let expected: u128 = (size.x as u128) * (size.y as u128);
        if expected != pixels.len() as u128 {
            return Err(Scene2DError::PixelSizeMismatch(pixels.len(), [size.x, size.y]));
        }
        let (objects, boundaries) = flood_fill(size, &pixels);
        proof {
            let g = grid_of(size, pixels@);
            lemma_edge_count_bound(g, g.cells());
            assert(size.x * size.y <= 0x20_0000 * 0x20_0000) by (nonlinear_arith)
                requires
                    0 <= size.x <= 0x20_0000,
                    0 <= size.y <= 0x20_0000,
            ;
        }
        let bvh = BVH::new(&boundaries);
        Ok(OccupancyMap { size, pixels, objects, boundaries, bvh })
    }
}

} // verus!
