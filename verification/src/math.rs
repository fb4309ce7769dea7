//! Lattice points, axis-aligned boxes, line segments and exact ray
//! intersection. Coordinates are integers in lattice units; a ray's parameter
//! is reported as an exact fraction.

use vstd::prelude::*;
use crate::ratio::Ratio;

verus! {

/// A point or a displacement on the lattice.
#[derive(Debug, Clone, Copy, PartialEq, Eq, Structural)]
pub struct Vec2 {
    pub x: i32,
    pub y: i32,
}

/// A column and a row of a grid, or a grid's width and height.
#[derive(Debug, Clone, Copy, PartialEq, Eq, Hash, Structural)]
pub struct USizeVec2 {
    pub x: usize,
    pub y: usize,
}

/// A signed column and row: where a lattice point falls in a grid's
/// numbering, inside the grid or not.
#[derive(Debug, Clone, Copy, PartialEq, Eq, Hash, Structural)]
pub struct I64Vec2 {
    pub x: i64,
    pub y: i64,
}

/// A direction: a lattice vector short enough that the product of two of
/// them as complex numbers stays on the lattice.
#[derive(Debug, Clone, Copy, PartialEq, Eq, Structural)]
pub struct Dir2 {
    pub x: i16,
    pub y: i16,
}

/// An axis-aligned box given by two corners. Nothing forces `min <= max`:
/// a box with `min > max` on an axis contains no point.
#[derive(Debug, Clone, Copy, PartialEq, Eq, Structural)]
pub struct Box2D {
    pub min: Vec2,
    pub max: Vec2,
}

/// A directed line segment from `.0` to `.1`.
#[derive(Debug, Clone, Copy, PartialEq, Eq, Structural)]
pub struct LineSegment(pub Vec2, pub Vec2);

/// The smaller of two integers.
pub open spec fn min_int(a: int, b: int) -> int {
    if a <= b {
        a
    } else {
        b
    }
}

/// The larger of two integers.
pub open spec fn max_int(a: int, b: int) -> int {
    if a >= b {
        a
    } else {
        b
    }
}

fn min_i32(a: i32, b: i32) -> (r: i32)
    ensures
        r == min_int(a as int, b as int),
{
    if a <= b {
        a
    } else {
        b
    }
}

fn max_i32(a: i32, b: i32) -> (r: i32)
    ensures
        r == max_int(a as int, b as int),
{
    if a >= b {
        a
    } else {
        b
    }
}

/// `floor((a + b) / 2)`.
fn midpoint_i32(a: i32, b: i32) -> (r: i32)
    ensures
        r == (a + b) / 2,
{
    let s: i64 = a as i64 + b as i64;
    if s >= 0 {
        (s / 2) as i32
    } else {
        (-((1 - s) / 2)) as i32
    }
}

/// The exact product of two 64-bit integers.
pub(crate) fn mul_i64(a: i64, b: i64) -> (r: i128)
    ensures
        r == a * b,
{
    assert(-0x4000_0000_0000_0000_0000_0000_0000_0000 <= a * b
        <= 0x4000_0000_0000_0000_0000_0000_0000_0000) by (nonlinear_arith)
        requires
            -0x8000_0000_0000_0000 <= a <= 0x8000_0000_0000_0000,
            -0x8000_0000_0000_0000 <= b <= 0x8000_0000_0000_0000,
    ;
    (a as i128) * (b as i128)
}

impl Vec2 {
    /// The componentwise midpoint of two points, rounded down.
    pub open spec fn spec_midpoint(self, other: Vec2) -> Vec2 {
        Vec2 { x: ((self.x + other.x) / 2) as i32, y: ((self.y + other.y) / 2) as i32 }
    }

    pub fn midpoint(self, other: Vec2) -> (r: Vec2)
        ensures
            r == self.spec_midpoint(other),
    {
        Vec2 { x: midpoint_i32(self.x, other.x), y: midpoint_i32(self.y, other.y) }
    }
}

impl Dir2 {
    /// `rhs` turned by the angle of `self` and stretched by its length: the
    /// product of the two as complex numbers. There is none where the
    /// product leaves the lattice, which only the product of
    /// `(-32768, -32768)` with itself does.
    pub open spec fn spec_rotate(self, rhs: Dir2) -> Option<Vec2> {
        let x = self.x * rhs.x - self.y * rhs.y;
        let y = self.y * rhs.x + self.x * rhs.y;
        if y <= 0x7fff_ffff {
            Some(Vec2 { x: x as i32, y: y as i32 })
        } else {
            None
        }
    }

    pub fn rotate(self, rhs: Dir2) -> (r: Option<Vec2>)
        ensures
            r == self.spec_rotate(rhs),
            r matches Some(v) ==> v.x == self.x * rhs.x - self.y * rhs.y && v.y == self.y * rhs.x
                + self.x * rhs.y,
    {
        let a = self.x as i64;
        let b = self.y as i64;
        let c = rhs.x as i64;
        let d = rhs.y as i64;
        assert(-0x3fff_8000 <= a * c <= 0x4000_0000 && -0x3fff_8000 <= b * d <= 0x4000_0000
            && -0x3fff_8000 <= b * c <= 0x4000_0000 && -0x3fff_8000 <= a * d <= 0x4000_0000)
            by (nonlinear_arith)
            requires
                -0x8000 <= a <= 0x7fff,
                -0x8000 <= b <= 0x7fff,
                -0x8000 <= c <= 0x7fff,
                -0x8000 <= d <= 0x7fff,
        ;
        let x: i64 = a * c - b * d;
        let y: i64 = b * c + a * d;
        if y <= 0x7fff_ffff {
            Some(Vec2 { x: x as i32, y: y as i32 })
        } else {
            None
        }
    }
}

impl Box2D {
    /// The point lies in the closed box.
    pub open spec fn spec_contains(self, point: Vec2) -> bool {
        self.min.x <= point.x <= self.max.x && self.min.y <= point.y <= self.max.y
    }

    /// Both corners of `query` lie in the closed box.
    pub open spec fn spec_contains_box(self, query: Box2D) -> bool {
        self.spec_contains(query.min) && self.spec_contains(query.max)
    }

    /// The two boxes share a region of positive width and height.
    pub open spec fn spec_intersects(self, query: Box2D) -> bool {
        max_int(self.min.x as int, query.min.x as int) < min_int(
            self.max.x as int,
            query.max.x as int,
        ) && max_int(self.min.y as int, query.min.y as int) < min_int(
            self.max.y as int,
            query.max.y as int,
        )
    }

    /// The smallest box that holds both boxes' corners.
    pub open spec fn spec_encase(self, other: Box2D) -> Box2D {
        Box2D {
            min: Vec2 {
                x: min_int(self.min.x as int, other.min.x as int) as i32,
                y: min_int(self.min.y as int, other.min.y as int) as i32,
            },
            max: Vec2 {
                x: max_int(self.max.x as int, other.max.x as int) as i32,
                y: max_int(self.max.y as int, other.max.y as int) as i32,
            },
        }
    }

    /// The midpoint of the two corners, rounded down.
    pub open spec fn spec_centroid(self) -> Vec2 {
        self.max.spec_midpoint(self.min)
    }

    /// Width and height, `max - min` on each axis.
    pub fn size(&self) -> (r: (i64, i64))
        ensures
            r.0 == self.max.x - self.min.x,
            r.1 == self.max.y - self.min.y,
    {
        (self.max.x as i64 - self.min.x as i64, self.max.y as i64 - self.min.y as i64)
    }

    pub fn centroid(&self) -> (r: Vec2)
        ensures
            r == self.spec_centroid(),
    {
        self.max.midpoint(self.min)
    }

    pub fn contains(&self, point: Vec2) -> (r: bool)
        ensures
            r == self.spec_contains(point),
    {
        point.x <= self.max.x && point.y <= self.max.y && point.x >= self.min.x && point.y
            >= self.min.y
    }

    pub fn contains_box(&self, query: &Box2D) -> (r: bool)
        ensures
            r == self.spec_contains_box(*query),
    {
        self.contains(query.min) && self.contains(query.max)
    }

    pub fn intersects(&self, query: &Box2D) -> (r: bool)
        ensures
            r == self.spec_intersects(*query),
    {
        let lo_x = max_i32(self.min.x, query.min.x);
        let lo_y = max_i32(self.min.y, query.min.y);
        let hi_x = min_i32(self.max.x, query.max.x);
        let hi_y = min_i32(self.max.y, query.max.y);
        lo_x < hi_x && lo_y < hi_y
    }

    pub fn encase(&self, other: &Box2D) -> (r: Box2D)
        ensures
            r == self.spec_encase(*other),
    {
        Box2D {
            min: Vec2 { x: min_i32(self.min.x, other.min.x), y: min_i32(self.min.y, other.min.y) },
            max: Vec2 { x: max_i32(self.max.x, other.max.x), y: max_i32(self.max.y, other.max.y) },
        }
    }

    /// The lower and the upper half, cut at the centroid's `y`.
    pub fn split_vertical(&self) -> (r: [Box2D; 2])
        ensures
            r[0] == (Box2D { min: self.min, max: Vec2 { x: self.max.x, y: self.spec_centroid().y } }),
            r[1] == (Box2D { min: Vec2 { x: self.min.x, y: self.spec_centroid().y }, max: self.max }),
    {
        let midpoint = self.centroid();
        [
            Box2D { min: self.min, max: Vec2 { x: self.max.x, y: midpoint.y } },
            Box2D { min: Vec2 { x: self.min.x, y: midpoint.y }, max: self.max },
        ]
    }

    /// The left and the right half, cut at the centroid's `x`.
    pub fn split_horizontal(&self) -> (r: [Box2D; 2])
        ensures
            r[0] == (Box2D { min: self.min, max: Vec2 { x: self.spec_centroid().x, y: self.max.y } }),
            r[1] == (Box2D { min: Vec2 { x: self.spec_centroid().x, y: self.min.y }, max: self.max }),
    {
        let midpoint = self.centroid();
        [
            Box2D { min: self.min, max: Vec2 { x: midpoint.x, y: self.max.y } },
            Box2D { min: Vec2 { x: midpoint.x, y: self.min.y }, max: self.max },
        ]
    }

    /// The four quadrants around the centroid `c`: upper right, lower right,
    /// lower left, upper left.
    pub fn split(&self) -> (r: [Box2D; 4])
        ensures
            r[0] == (Box2D { min: self.spec_centroid(), max: self.max }),
            r[1] == (Box2D {
                min: Vec2 { x: self.spec_centroid().x, y: self.min.y },
                max: Vec2 { x: self.max.x, y: self.spec_centroid().y },
            }),
            r[2] == (Box2D { min: self.min, max: self.spec_centroid() }),
            r[3] == (Box2D {
                min: Vec2 { x: self.min.x, y: self.spec_centroid().y },
                max: Vec2 { x: self.spec_centroid().x, y: self.max.y },
            }),
    {
        let midpoint = self.centroid();
        [
            Box2D { min: midpoint, max: self.max },
            Box2D {
                min: Vec2 { x: midpoint.x, y: self.min.y },
                max: Vec2 { x: self.max.x, y: midpoint.y },
            },
            Box2D { min: self.min, max: midpoint },
            Box2D {
                min: Vec2 { x: self.min.x, y: midpoint.y },
                max: Vec2 { x: midpoint.x, y: self.max.y },
            },
        ]
    }
}

impl LineSegment {
    /// The tight box around the two endpoints.
    pub open spec fn spec_get_box(self) -> Box2D {
        Box2D {
            min: Vec2 {
                x: min_int(self.0.x as int, self.1.x as int) as i32,
                y: min_int(self.0.y as int, self.1.y as int) as i32,
            },
            max: Vec2 {
                x: max_int(self.0.x as int, self.1.x as int) as i32,
                y: max_int(self.0.y as int, self.1.y as int) as i32,
            },
        }
    }

    /// The determinant of the system "ray meets the segment's line"; zero
    /// exactly when the ray is parallel to the segment or either has no
    /// extent.
    pub open spec fn ray_denom(self, dir: Vec2) -> int {
        dir.x * (self.1.y - self.0.y) - dir.y * (self.1.x - self.0.x)
    }

    /// Numerator of the segment parameter `u`: the meeting point is
    /// `self.0 + u * (self.1 - self.0)` with `u = ray_u_num / ray_denom`.
    pub open spec fn ray_u_num(self, pos: Vec2, dir: Vec2) -> int {
        dir.x * (pos.y - self.0.y) - dir.y * (pos.x - self.0.x)
    }

    /// Numerator of the ray parameter `t`: the meeting point is
    /// `pos + t * dir` with `t = ray_t_num / ray_denom`.
    pub open spec fn ray_t_num(self, pos: Vec2) -> int {
        (pos.x - self.0.x) * (self.0.y - self.1.y) - (pos.y - self.0.y) * (self.0.x - self.1.x)
    }

    pub fn reverse(&self) -> (r: LineSegment)
        ensures
            r == LineSegment(self.1, self.0),
    {
        LineSegment(self.1, self.0)
    }

    pub fn midpoint(&self) -> (r: Vec2)
        ensures
            r == self.0.spec_midpoint(self.1),
    {
        self.0.midpoint(self.1)
    }

    pub fn get_box(&self) -> (r: Box2D)
        ensures
            r == self.spec_get_box(),
    {
        Box2D {
            min: Vec2 { x: min_i32(self.0.x, self.1.x), y: min_i32(self.0.y, self.1.y) },
            max: Vec2 { x: max_i32(self.0.x, self.1.x), y: max_i32(self.0.y, self.1.y) },
        }
    }
}

/// Where a ray enters the slab `lo..=hi` of one axis, as a fraction of its
/// direction; meaningful when `d != 0`.
pub open spec fn axis_near(o: int, d: int, lo: int, hi: int) -> Ratio {
    if d > 0 {
        Ratio { num: (lo - o) as i128, den: d as u64 }
    } else {
        Ratio { num: (o - hi) as i128, den: (-d) as u64 }
    }
}

/// Where a ray leaves the slab `lo..=hi` of one axis; meaningful when
/// `d != 0`.
pub open spec fn axis_far(o: int, d: int, lo: int, hi: int) -> Ratio {
    if d > 0 {
        Ratio { num: (hi - o) as i128, den: d as u64 }
    } else {
        Ratio { num: (o - lo) as i128, den: (-d) as u64 }
    }
}

/// A ray that does not move along an axis and starts outside the slab never
/// meets the box.
pub open spec fn axis_blocked(o: int, d: int, lo: int, hi: int) -> bool {
    d == 0 && !(lo <= o <= hi)
}

/// The entry and exit parameters of the ray's line through the box, when it
/// has a direction and no axis blocks it.
pub open spec fn ray_box_span(pos: Vec2, dir: Vec2, b: Box2D) -> Option<(Ratio, Ratio)> {
    let px = pos.x as int;
    let py = pos.y as int;
    let dx = dir.x as int;
    let dy = dir.y as int;
    let near_x = axis_near(px, dx, b.min.x as int, b.max.x as int);
    let far_x = axis_far(px, dx, b.min.x as int, b.max.x as int);
    let near_y = axis_near(py, dy, b.min.y as int, b.max.y as int);
    let far_y = axis_far(py, dy, b.min.y as int, b.max.y as int);
    if dx == 0 && dy == 0 {
        None
    } else if axis_blocked(px, dx, b.min.x as int, b.max.x as int) || axis_blocked(
        py,
        dy,
        b.min.y as int,
        b.max.y as int,
    ) {
        None
    } else if dx == 0 {
        Some((near_y, far_y))
    } else if dy == 0 {
        Some((near_x, far_x))
    } else {
        Some((near_x.spec_max(near_y), far_x.spec_min(far_y)))
    }
}

/// The slab test: no hit when the entry lies beyond the exit or the exit is
/// not in front of the origin; the exit when the origin is inside the box;
/// the entry otherwise.
pub open spec fn ray_box_hit(pos: Vec2, dir: Vec2, b: Box2D) -> Option<Ratio> {
    match ray_box_span(pos, dir, b) {
        None => None,
        Some((near, far)) => if far.spec_lt(near) || far.num <= 0 {
            None
        } else if near.num <= 0 {
            Some(far)
        } else {
            Some(near)
        },
    }
}

/// The parametric test: no hit for a vanishing determinant; otherwise a hit
/// when the segment parameter lies in `[0, 1]` and the ray parameter is
/// strictly positive. The fraction is `ray_t_num / ray_denom` with a positive
/// denominator.
pub open spec fn ray_segment_hit(pos: Vec2, dir: Vec2, seg: LineSegment) -> Option<Ratio> {
    let d = seg.ray_denom(dir);
    let u = seg.ray_u_num(pos, dir);
    let t = seg.ray_t_num(pos);
    if d > 0 && 0 <= u <= d && t > 0 {
        Some(Ratio { num: t as i128, den: d as u64 })
    } else if d < 0 && 0 <= -u <= -d && -t > 0 {
        Some(Ratio { num: (-t) as i128, den: (-d) as u64 })
    } else {
        None
    }
}

fn near_of(o: i32, d: i32, lo: i32, hi: i32) -> (r: Ratio)
    requires
        d != 0,
    ensures
        r == axis_near(o as int, d as int, lo as int, hi as int),
{
    if d > 0 {
        Ratio { num: (lo as i64 - o as i64) as i128, den: d as u64 }
    } else {
        Ratio { num: (o as i64 - hi as i64) as i128, den: (-(d as i64)) as u64 }
    }
}

fn far_of(o: i32, d: i32, lo: i32, hi: i32) -> (r: Ratio)
    requires
        d != 0,
    ensures
        r == axis_far(o as int, d as int, lo as int, hi as int),
{
    if d > 0 {
        Ratio { num: (hi as i64 - o as i64) as i128, den: d as u64 }
    } else {
        Ratio { num: (o as i64 - lo as i64) as i128, den: (-(d as i64)) as u64 }
    }
}

/// Slab-method intersection of the ray `pos + t * dir` with a box.
pub fn intersect_ray_box(pos: Vec2, dir: Vec2, b: Box2D) -> (r: Option<Ratio>)
    ensures
        r == ray_box_hit(pos, dir, b),
{
    if dir.x == 0 && dir.y == 0 {
        return None;
    }
    if dir.x == 0 && !(b.min.x <= pos.x && pos.x <= b.max.x) {
        return None;
    }
    if dir.y == 0 && !(b.min.y <= pos.y && pos.y <= b.max.y) {
        return None;
    }
    let near;
    let far;
    if dir.x == 0 {
        near = near_of(pos.y, dir.y, b.min.y, b.max.y);
        far = far_of(pos.y, dir.y, b.min.y, b.max.y);
    } else if dir.y == 0 {
        near = near_of(pos.x, dir.x, b.min.x, b.max.x);
        far = far_of(pos.x, dir.x, b.min.x, b.max.x);
    } else {
        let near_x = near_of(pos.x, dir.x, b.min.x, b.max.x);
        let far_x = far_of(pos.x, dir.x, b.min.x, b.max.x);
        let near_y = near_of(pos.y, dir.y, b.min.y, b.max.y);
        let far_y = far_of(pos.y, dir.y, b.min.y, b.max.y);
        near = if near_x.lt(&near_y) {
            near_y
        } else {
            near_x
        };
        far = if far_y.lt(&far_x) {
            far_y
        } else {
            far_x
        };
    }
    if far.lt(&near) || far.num <= 0 {
        None
    } else if near.num <= 0 {
        Some(far)
    } else {
        Some(near)
    }
}

/// Exact intersection of the ray `pos + t * dir` with a segment.
pub fn intersect_ray_line_segment(pos: Vec2, dir: Vec2, line_seg: &LineSegment) -> (r: Option<
    Ratio,
>)
    ensures
        r == ray_segment_hit(pos, dir, *line_seg),
{
    let a = line_seg.0;
    let b = line_seg.1;
    proof {
        lemma_ray_bounds(pos, dir, *line_seg);
    }
    let denom: i128 = mul_i64(dir.x as i64, b.y as i64 - a.y as i64) - mul_i64(
        dir.y as i64,
        b.x as i64 - a.x as i64,
    );
    let u_num: i128 = mul_i64(dir.x as i64, pos.y as i64 - a.y as i64) - mul_i64(
        dir.y as i64,
        pos.x as i64 - a.x as i64,
    );
    let t_num: i128 = mul_i64(pos.x as i64 - a.x as i64, a.y as i64 - b.y as i64) - mul_i64(
        pos.y as i64 - a.y as i64,
        a.x as i64 - b.x as i64,
    );
    if denom > 0 && 0 <= u_num && u_num <= denom && t_num > 0 {
        Some(Ratio { num: t_num, den: denom as u64 })
    } else if denom < 0 && 0 <= -u_num && -u_num <= -denom && -t_num > 0 {
        Some(Ratio { num: -t_num, den: (-denom) as u64 })
    } else {
        None
    }
}

/// The determinant and the segment numerator fit 64 bits in magnitude, the
/// ray numerator 65: each product in them stays below the bound shown.
pub proof fn lemma_ray_bounds(pos: Vec2, dir: Vec2, seg: LineSegment)
    ensures
        -0x1_0000_0000_0000_0000 < seg.ray_denom(dir) < 0x1_0000_0000_0000_0000,
        -0x1_0000_0000_0000_0000 < seg.ray_u_num(pos, dir) < 0x1_0000_0000_0000_0000,
        -0x8000_0000_0000_0000 < dir.x * (seg.1.y - seg.0.y) < 0x8000_0000_0000_0000,
        -0x8000_0000_0000_0000 < dir.y * (seg.1.x - seg.0.x) < 0x8000_0000_0000_0000,
        -0x8000_0000_0000_0000 < dir.x * (pos.y - seg.0.y) < 0x8000_0000_0000_0000,
        -0x8000_0000_0000_0000 < dir.y * (pos.x - seg.0.x) < 0x8000_0000_0000_0000,
        -0x2_0000_0000_0000_0000 < seg.ray_t_num(pos) < 0x2_0000_0000_0000_0000,
{
    let dx = dir.x as int;
    let dy = dir.y as int;
    let ex = seg.1.x - seg.0.x;
    let ey = seg.1.y - seg.0.y;
    let qx = pos.x - seg.0.x;
    let qy = pos.y - seg.0.y;
    assert(-0x8000_0000_0000_0000 < dx * ey < 0x8000_0000_0000_0000) by (nonlinear_arith)
        requires
            -0x8000_0000 <= dx <= 0x7fff_ffff,
            -0xffff_ffff <= ey <= 0xffff_ffff,
    ;
    assert(-0x8000_0000_0000_0000 < dy * ex < 0x8000_0000_0000_0000) by (nonlinear_arith)
        requires
            -0x8000_0000 <= dy <= 0x7fff_ffff,
            -0xffff_ffff <= ex <= 0xffff_ffff,
    ;
    assert(-0x8000_0000_0000_0000 < dx * qy < 0x8000_0000_0000_0000) by (nonlinear_arith)
        requires
            -0x8000_0000 <= dx <= 0x7fff_ffff,
            -0xffff_ffff <= qy <= 0xffff_ffff,
    ;
    assert(-0x8000_0000_0000_0000 < dy * qx < 0x8000_0000_0000_0000) by (nonlinear_arith)
        requires
            -0x8000_0000 <= dy <= 0x7fff_ffff,
            -0xffff_ffff <= qx <= 0xffff_ffff,
    ;
    assert(-0x1_0000_0000_0000_0000 < qx * (-ey) < 0x1_0000_0000_0000_0000) by (nonlinear_arith)
        requires
            -0xffff_ffff <= qx <= 0xffff_ffff,
            -0xffff_ffff <= ey <= 0xffff_ffff,
    ;
    assert(-0x1_0000_0000_0000_0000 < qy * (-ex) < 0x1_0000_0000_0000_0000) by (nonlinear_arith)
        requires
            -0xffff_ffff <= qy <= 0xffff_ffff,
            -0xffff_ffff <= ex <= 0xffff_ffff,
    ;
}

} // verus!
