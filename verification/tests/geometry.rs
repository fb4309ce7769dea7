use sim::math::{
    intersect_ray_box, intersect_ray_line_segment, Box2D, Dir2, LineSegment, Vec2,
};
use sim::ratio::Ratio;

const UNIT: f64 = 1024.0;

fn fx(v: f64) -> i32 {
    (v * UNIT) as i32
}

fn vec2(x: f64, y: f64) -> Vec2 {
    Vec2 { x: fx(x), y: fx(y) }
}

fn value(r: Option<Ratio>) -> Option<f64> {
    r.map(|t| t.num as f64 / t.den as f64)
}

fn v(x: i32, y: i32) -> Vec2 {
    Vec2 { x, y }
}

#[test]
fn test_collisions() {
    assert_eq!(
        value(intersect_ray_box(
            vec2(0., 0.),
            vec2(0., 1.),
            Box2D { min: vec2(-0.25, 0.25), max: vec2(0.25, 0.75) }
        )),
        Some(0.25)
    );

    assert_eq!(
        value(intersect_ray_box(
            vec2(0., 0.),
            vec2(0., 1.),
            Box2D { min: vec2(-0.25, -0.25), max: vec2(0.25, 0.25) }
        )),
        Some(0.25)
    );

    assert_eq!(
        value(intersect_ray_box(
            vec2(0., 0.),
            vec2(0., 1.),
            Box2D { min: vec2(-0.25, -0.75), max: vec2(0.25, -0.25) }
        )),
        None
    );

    assert_eq!(
        value(intersect_ray_box(
            vec2(0., 0.),
            vec2(1., 0.),
            Box2D { min: vec2(0.25, -0.25), max: vec2(0.75, 0.25) }
        )),
        Some(0.25)
    );

    assert_eq!(
        value(intersect_ray_box(
            vec2(0., 0.),
            vec2(1., 0.),
            Box2D { min: vec2(-0.25, -0.25), max: vec2(0.25, 0.25) }
        )),
        Some(0.25)
    );

    assert_eq!(
        value(intersect_ray_box(
            vec2(0., 0.),
            vec2(1., 0.),
            Box2D { min: vec2(-0.75, -0.25), max: vec2(-0.25, 0.25) }
        )),
        None
    );
}

#[test]
fn ray_box_reports_exact_fraction() {
    let hit = intersect_ray_box(v(0, 0), v(3, 4), Box2D { min: v(1, 1), max: v(5, 5) });
    // Enters through x = 1 at t = 1/3 and through y = 1 at t = 1/4: the later of the two.
    assert_eq!(hit, Some(Ratio { num: 1, den: 3 }));
}

#[test]
fn ray_box_parallel_ray_outside_slab_misses() {
    let b = Box2D { min: v(-1, 1), max: v(1, 3) };
    assert_eq!(intersect_ray_box(v(2, 0), v(0, 1), b), None);
    assert_eq!(intersect_ray_box(v(1, 0), v(0, 1), b), Some(Ratio { num: 1, den: 1 }));
}

#[test]
fn ray_box_without_direction_misses() {
    let b = Box2D { min: v(-1, -1), max: v(1, 1) };
    assert_eq!(intersect_ray_box(v(0, 0), v(0, 0), b), None);
}

#[test]
fn ray_box_of_zero_extent() {
    let b = Box2D { min: v(4, -2), max: v(4, 2) };
    assert_eq!(intersect_ray_box(v(0, 0), v(2, 1), b), Some(Ratio { num: 4, den: 2 }));
    assert_eq!(intersect_ray_box(v(0, 0), v(1, 1), b), None);
}

#[test]
fn ray_box_with_corners_out_of_order_misses() {
    let b = Box2D { min: v(3, -1), max: v(1, 1) };
    assert_eq!(intersect_ray_box(v(0, 0), v(1, 0), b), None);
}

#[test]
fn ray_box_touching_at_origin_misses() {
    // The box ends where the ray starts: the exit is not in front of the origin.
    let b = Box2D { min: v(-2, -1), max: v(0, 1) };
    assert_eq!(intersect_ray_box(v(0, 0), v(1, 0), b), None);
}

#[test]
fn ray_segment_hits_and_misses() {
    let seg = LineSegment(v(2, -2), v(2, 2));
    assert_eq!(
        intersect_ray_line_segment(v(0, 0), v(1, 0), &seg),
        Some(Ratio { num: 8, den: 4 })
    );
    // Behind the origin.
    assert_eq!(intersect_ray_line_segment(v(0, 0), v(-1, 0), &seg), None);
    // Parallel.
    assert_eq!(intersect_ray_line_segment(v(0, 0), v(0, 1), &seg), None);
    // Past the end of the segment.
    assert_eq!(intersect_ray_line_segment(v(0, 3), v(1, 0), &seg), None);
    // Through both endpoints.
    assert!(intersect_ray_line_segment(v(0, 2), v(1, 0), &seg).unwrap().equals_fraction(2, 1));
    assert!(intersect_ray_line_segment(v(0, -2), v(1, 0), &seg).unwrap().equals_fraction(2, 1));
    // Starting on the segment: the distance is not strictly positive.
    assert_eq!(intersect_ray_line_segment(v(2, 0), v(1, 0), &seg), None);
}

#[test]
fn ray_segment_ignores_orientation() {
    let seg = LineSegment(v(2, -2), v(2, 2));
    let a = intersect_ray_line_segment(v(0, 0), v(1, 1), &seg).unwrap();
    let b = intersect_ray_line_segment(v(0, 0), v(1, 1), &seg.reverse()).unwrap();
    assert!(a.equals_fraction(2, 1));
    assert!(b.equals_fraction(2, 1));
    assert!(a.den > 0 && b.den > 0);
}

#[test]
fn ray_segment_at_the_ends_of_the_lattice() {
    let lo = i32::MIN;
    let hi = i32::MAX;
    let seg = LineSegment(v(hi, lo), v(hi, hi));
    let hit = intersect_ray_line_segment(v(lo, 0), v(hi, 0), &seg).unwrap();
    // From x = lo to x = hi in steps of hi.
    assert!(hit.equals_fraction(hi as i128 - lo as i128, hi as u64));
}

#[test]
fn ratio_order_is_exact_for_wide_values() {
    let a = Ratio { num: i128::MAX, den: u64::MAX };
    let b = Ratio { num: i128::MAX - 1, den: u64::MAX };
    assert!(b.lt(&a));
    assert!(!a.lt(&b));
    assert!(!a.lt(&a));
    assert!(a.le(&a));
    let c = Ratio { num: i128::MIN, den: 1 };
    assert!(c.lt(&a));
    assert!(!a.lt(&c));
    let d = Ratio { num: i128::MIN, den: 2 };
    assert!(c.lt(&d));
    assert!(!d.lt(&c));
}

#[test]
fn ratio_order_by_cross_multiplication() {
    let third = Ratio { num: 1, den: 3 };
    let quarter = Ratio { num: 1, den: 4 };
    let two_sixths = Ratio { num: 2, den: 6 };
    assert!(quarter.lt(&third));
    assert!(!third.lt(&quarter));
    assert!(!third.lt(&two_sixths));
    assert!(!two_sixths.lt(&third));
    assert!(third.equals_fraction(2, 6));
    assert!(!third.equals_fraction(1, 4));
    let minus = Ratio { num: -1, den: 3 };
    assert!(minus.lt(&quarter));
    assert!(!quarter.lt(&minus));
    assert!(Ratio { num: -1, den: 3 }.lt(&Ratio { num: -1, den: 4 }));
}

#[test]
fn box_measures() {
    let b = Box2D { min: v(-3, 2), max: v(4, 7) };
    assert_eq!(b.size(), (7, 5));
    assert_eq!(b.centroid(), v(0, 4));
    assert_eq!(Box2D { min: v(-4, -3), max: v(1, 0) }.centroid(), v(-2, -2));
    assert_eq!(Box2D { min: v(i32::MIN, 0), max: v(i32::MAX, 0) }.size(), (4294967295, 0));
}

#[test]
fn box_containment() {
    let b = Box2D { min: v(0, 0), max: v(4, 4) };
    assert!(b.contains(v(0, 0)));
    assert!(b.contains(v(4, 4)));
    assert!(b.contains(v(2, 3)));
    assert!(!b.contains(v(5, 2)));
    assert!(!b.contains(v(2, -1)));
    assert!(b.contains_box(&Box2D { min: v(1, 1), max: v(4, 2) }));
    assert!(!b.contains_box(&Box2D { min: v(1, 1), max: v(5, 2) }));
}

#[test]
fn box_overlap() {
    let b = Box2D { min: v(0, 0), max: v(4, 4) };
    assert!(b.intersects(&Box2D { min: v(3, 3), max: v(6, 6) }));
    // Touching along an edge is no overlap.
    assert!(!b.intersects(&Box2D { min: v(4, 0), max: v(6, 4) }));
    assert!(!b.intersects(&Box2D { min: v(5, 5), max: v(6, 6) }));
    assert!(b.intersects(&b));
}

#[test]
fn box_union() {
    let a = Box2D { min: v(0, 0), max: v(2, 2) };
    let b = Box2D { min: v(-1, 1), max: v(1, 5) };
    assert_eq!(a.encase(&b), Box2D { min: v(-1, 0), max: v(2, 5) });
    assert_eq!(b.encase(&a), a.encase(&b));
}

#[test]
fn box_splits() {
    let b = Box2D { min: v(0, 0), max: v(8, 4) };
    assert_eq!(
        b.split_vertical(),
        [Box2D { min: v(0, 0), max: v(8, 2) }, Box2D { min: v(0, 2), max: v(8, 4) }]
    );
    assert_eq!(
        b.split_horizontal(),
        [Box2D { min: v(0, 0), max: v(4, 4) }, Box2D { min: v(4, 0), max: v(8, 4) }]
    );
    assert_eq!(
        b.split(),
        [
            Box2D { min: v(4, 2), max: v(8, 4) },
            Box2D { min: v(4, 0), max: v(8, 2) },
            Box2D { min: v(0, 0), max: v(4, 2) },
            Box2D { min: v(0, 2), max: v(4, 4) },
        ]
    );
}

#[test]
fn segment_helpers() {
    let s = LineSegment(v(3, -1), v(-2, 4));
    assert_eq!(s.reverse(), LineSegment(v(-2, 4), v(3, -1)));
    assert_eq!(s.midpoint(), v(0, 1));
    assert_eq!(s.get_box(), Box2D { min: v(-2, -1), max: v(3, 4) });
}

#[test]
fn direction_rotation_is_a_complex_product() {
    let quarter_turn = Dir2 { x: 0, y: 1 };
    assert_eq!(quarter_turn.rotate(Dir2 { x: 3, y: 4 }), Some(v(-4, 3)));
    let unit = Dir2 { x: 1, y: 0 };
    assert_eq!(unit.rotate(Dir2 { x: -7, y: 9 }), Some(v(-7, 9)));
    assert_eq!(Dir2 { x: 2, y: 3 }.rotate(Dir2 { x: 5, y: -1 }), Some(v(13, 13)));
}

#[test]
fn direction_rotation_off_the_lattice() {
    let corner = Dir2 { x: i16::MIN, y: i16::MIN };
    assert_eq!(corner.rotate(corner), None);
    let widest = Dir2 { x: i16::MAX, y: i16::MIN };
    assert_eq!(
        corner.rotate(widest),
        Some(v(-32768 * 32767 - 32768 * 32768, -32768 * 32767 + 32768 * 32768))
    );
}
