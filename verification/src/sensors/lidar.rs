//! The lidar: a fan of directions in the agent's frame, each cast as a ray
//! against the map's boundaries.

use vstd::prelude::*;
use crate::agent::Agent2DState;
use crate::math::{Dir2, LineSegment, USizeVec2, Vec2};
use crate::ratio::Ratio;
use crate::raycast::{
    all_indices, hit_point, lemma_cast_ray_is_scan, lemma_hit_point_in_box,
    lemma_hit_point_value, lemma_hit_positive, lemma_scan_is_nearest, scan_nearest,
};
use crate::math::ray_segment_hit;
use crate::scene::Scene2DState;
use crate::scene::occupancy_map::OccupancyMap;
use crate::sensors::{Sensor2D, TimeStamped};

verus! {

/// The directions of the lidar's rays in the agent's frame.
#[derive(Debug)]
pub struct Lidar2D {
    pub directions: Vec<Dir2>,
}

/// The points at which the rays hit, one for each ray that hit something.
#[derive(Debug, Clone)]
pub struct Lidar2DSensed(pub Vec<Vec2>);

/// The sensor cannot read from `pos`: the point falls left of or above the
/// grid's numbering, or in an occupied cell, or outside the grid.
pub open spec fn blocked(map: OccupancyMap, pos: Vec2) -> bool {
    let cell = map.spec_translate(pos);
    cell.x < 0 || cell.y < 0 || map.spec_is_occupied(
        USizeVec2 { x: cell.x as usize, y: cell.y as usize },
    )
}

/// The hit points of the rays from `pos` along the directions turned by
/// `heading`, in the order of the directions; a ray that hits nothing adds
/// no point.
pub open spec fn sensed_points(
    segs: Seq<LineSegment>,
    pos: Vec2,
    heading: Dir2,
    dirs: Seq<Dir2>,
) -> Seq<Vec2>
    decreases dirs.len(),
{
    if dirs.len() == 0 {
        Seq::empty()
    } else {
        let before = sensed_points(segs, pos, heading, dirs.drop_last());
        match heading.spec_rotate(dirs.last()) {
            None => before,
            Some(world) => match scan_nearest(pos, world, segs) {
                None => before,
                Some(t) => before.push(hit_point(pos, world, t)),
            },
        }
    }
}

/// `floor(a / b)` for a positive divisor.
fn div_floor_wide(a: i128, b: i128) -> (q: i128)
    requires
        b > 0,
    ensures
        q == a / b,
{
    if a >= 0 {
        a / b
    } else {
        let m: i128 = -(a + 1);
        let down: i128 = m / b;
        assert(0 <= down <= m) by (nonlinear_arith)
            requires
                m >= 0,
                b > 0,
                down == m / b,
        ;
        proof {
            let q = (m as int) / (b as int);
            let r = (m as int) % (b as int);
            vstd::arithmetic::div_mod::lemma_fundamental_div_mod(m as int, b as int);
            assert(b * q == q * b) by (nonlinear_arith);
            assert(a == (-q - 1) * b + (b - 1 - r)) by (nonlinear_arith)
                requires
                    m == q * b + r,
                    m == -(a + 1),
            ;
            vstd::arithmetic::div_mod::lemma_fundamental_div_mod_converse(
                a as int,
                b as int,
                -q - 1,
                b - 1 - r,
            );
        }
        -down - 1
    }
}

fn coordinate_at(p: i32, d: i32, t: Ratio) -> (r: i32)
    requires
        t.den > 0,
        -0x2_0000_0000_0000_0000 < t.num < 0x2_0000_0000_0000_0000,
        -0x8000_0000 <= (p * t.den + d * t.num) / (t.den as int) <= 0x7fff_ffff,
    ensures
        r == (p * t.den + d * t.num) / (t.den as int),
{
    assert(-0x8000_0000_0000_0000_0000_0000 <= p * t.den <= 0x8000_0000_0000_0000_0000_0000)
        by (nonlinear_arith)
        requires
            -0x8000_0000 <= p <= 0x7fff_ffff,
            0 <= t.den <= 0xffff_ffff_ffff_ffff,
    ;
    assert(-0x1_0000_0000_0000_0000_0000_0000 <= d * t.num
        <= 0x1_0000_0000_0000_0000_0000_0000) by (nonlinear_arith)
        requires
            -0x8000_0000 <= d <= 0x7fff_ffff,
            -0x2_0000_0000_0000_0000 < t.num < 0x2_0000_0000_0000_0000,
    ;
    let n: i128 = (p as i128) * (t.den as i128) + (d as i128) * t.num;
    div_floor_wide(n, t.den as i128) as i32
}

impl Lidar2D {
    /// Replaces the directions of the rays.
    pub fn update_directions(&mut self, directions: Vec<Dir2>)
        ensures
            final(self).directions == directions,
    {
        self.directions = directions;
    }
}

impl Sensor2D for Lidar2D {
    type SensorType = Lidar2DSensed;

    /// Casts every direction, turned by the agent's heading, from the
    /// agent's position against the map's boundaries. There is no reading
    /// where the position is blocked.
    fn sense(&self, agent_state: Agent2DState, scene: Scene2DState) -> (r: Option<
        TimeStamped<Lidar2DSensed>,
    >)
        ensures
            r is None <==> blocked(*scene.occupancy_map, agent_state.position),
            r matches Some(reading) ==> reading.state.0@ == sensed_points(
                scene.occupancy_map.boundaries@,
                agent_state.position,
                agent_state.heading,
                self.directions@,
            ),
    {
        let map = &scene.occupancy_map;
        let pos = agent_state.position;
        let cell = map.translate(pos);
        if cell.x < 0 || cell.y < 0 {
            return None;
        }
        assert(cell.x <= 0x7fff_ffff && cell.y <= 0x7fff_ffff) by {
            assert(crate::scene::grid::HALF_CELL == 512 && crate::scene::grid::CELL == 1024);
        }
        if map.is_occupied(USizeVec2 { x: cell.x as usize, y: cell.y as usize }) {
            return None;
        }
        let ghost segs = map.boundaries@;
        let mut results: Vec<Vec2> = Vec::new();
        let mut i: usize = 0;
        proof {
            assert(self.directions@.subrange(0, 0) =~= Seq::<Dir2>::empty());
        }
        while i < self.directions.len()
            invariant
                i <= self.directions.len(),
                map == &scene.occupancy_map,
                map.wf(),
                segs == map.boundaries@,
                pos == agent_state.position,
                results@ == sensed_points(
                    segs,
                    pos,
                    agent_state.heading,
                    self.directions@.subrange(0, i as int),
                ),
            decreases self.directions.len() - i,
        {
            let dir = self.directions[i];
            proof {
                let upto = self.directions@.subrange(0, i + 1);
                assert(upto.drop_last() =~= self.directions@.subrange(0, i as int));
                assert(upto.last() == dir);
            }
            match agent_state.heading.rotate(dir) {
                None => {},
                Some(world) => {
                    match map.cast_rays(pos, world) {
                        None => {
                            proof {
                                lemma_cast_ray_is_scan(None, pos, world, segs);
                            }
                        },
                        Some(t) => {
                            proof {
                                lemma_cast_ray_is_scan(Some(t), pos, world, segs);
                                let w = choose|w: int|
                                    0 <= w < segs.len() && all_indices(segs.len()).contains(w)
                                        && #[trigger] ray_segment_hit(pos, world, segs[w]) == Some(
                                        t,
                                    );
                                lemma_hit_positive(pos, world, segs[w]);
                                lemma_hit_point_in_box(pos, world, segs[w]);
                                let exact = scan_nearest(pos, world, segs)->Some_0;
                                lemma_scan_is_nearest(pos, world, segs);
                                let v = choose|v: int|
                                    0 <= v < segs.len() && Set::new(
                                        |i: int| 0 <= i < segs.len(),
                                    ).contains(v) && #[trigger] ray_segment_hit(
                                        pos,
                                        world,
                                        segs[v],
                                    ) == Some(exact);
                                lemma_hit_positive(pos, world, segs[v]);
                                lemma_hit_point_value(pos, world, t, exact);
                            }
                            let point = Vec2 {
                                x: coordinate_at(pos.x, world.x, t),
                                y: coordinate_at(pos.y, world.y, t),
                            };
                            results.push(point);
                        },
                    }
                },
            }
            i += 1;
        }
        proof {
            assert(self.directions@.subrange(0, self.directions.len() as int) =~= self.directions@);
        }
        Some(TimeStamped { time: scene.time, state: Lidar2DSensed(results) })
    }
}

} // verus!
