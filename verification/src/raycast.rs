//! Nearest-hit ray queries: what the nearest hit among a list of segments
//! is, why a ray that hits a segment hits every box around it, and the
//! traversal of the hierarchy that finds the nearest hit.

use vstd::prelude::*;
use vstd::arithmetic::div_mod::{lemma_fundamental_div_mod, lemma_fundamental_div_mod_converse};
use crate::bvh::{
    BVH, BVHNode, BVHNodeId, kids_elems, node_ok, segment_boxes, store_ok, subtree_elems,
};
use crate::math::{
    Box2D, LineSegment, Vec2, axis_far, axis_near, intersect_ray_box, intersect_ray_line_segment,
    ray_box_hit, ray_box_span, ray_segment_hit,
};
use crate::ratio::{Ratio, lemma_le_trans};
use crate::store::store_get;

verus! {

/// `best` is the nearest hit of the ray among the segments numbered in
/// `among`: none if the ray hits none of them, otherwise the hit of one of
/// them that no other hit is nearer than.
pub open spec fn is_nearest(
    best: Option<Ratio>,
    pos: Vec2,
    dir: Vec2,
    segs: Seq<LineSegment>,
    among: Set<int>,
) -> bool {
    match best {
        None => forall|i: int|
            0 <= i < segs.len() && among.contains(i) ==> (#[trigger] ray_segment_hit(
                pos,
                dir,
                segs[i],
            )) is None,
        Some(t) => {
            &&& exists|i: int|
                0 <= i < segs.len() && among.contains(i) && #[trigger] ray_segment_hit(
                    pos,
                    dir,
                    segs[i],
                ) == Some(t)
            &&& forall|i: int|
                0 <= i < segs.len() && among.contains(i) && (#[trigger] ray_segment_hit(
                    pos,
                    dir,
                    segs[i],
                )) is Some ==> t.spec_le(ray_segment_hit(pos, dir, segs[i])->Some_0)
        },
    }
}

/// The nearer of two results; the first on a tie.
pub open spec fn nearer(a: Option<Ratio>, b: Option<Ratio>) -> Option<Ratio> {
    match (a, b) {
        (None, _) => b,
        (_, None) => a,
        (Some(x), Some(y)) => Some(x.spec_min(y)),
    }
}

/// The nearest hit found by testing the segments one after the other.
pub open spec fn scan_nearest(pos: Vec2, dir: Vec2, segs: Seq<LineSegment>) -> Option<Ratio>
    decreases segs.len(),
{
    if segs.len() == 0 {
        None
    } else {
        nearer(
            scan_nearest(pos, dir, segs.drop_last()),
            ray_segment_hit(pos, dir, segs.last()),
        )
    }
}

/// A hit has a positive numerator and a positive denominator.
pub proof fn lemma_hit_positive(pos: Vec2, dir: Vec2, seg: LineSegment)
    requires
        ray_segment_hit(pos, dir, seg) is Some,
    ensures
        ray_segment_hit(pos, dir, seg)->Some_0.num > 0,
        ray_segment_hit(pos, dir, seg)->Some_0.den > 0,
{
    crate::math::lemma_ray_bounds(pos, dir, seg);
}

/// Adding one tested segment to a nearest hit.
pub proof fn lemma_nearest_insert(
    best: Option<Ratio>,
    pos: Vec2,
    dir: Vec2,
    segs: Seq<LineSegment>,
    among: Set<int>,
    i: int,
)
    requires
        is_nearest(best, pos, dir, segs, among),
        0 <= i < segs.len(),
    ensures
        is_nearest(nearer(best, ray_segment_hit(pos, dir, segs[i])), pos, dir, segs, among.insert(i)),
{
    let hit = ray_segment_hit(pos, dir, segs[i]);
    let next = nearer(best, hit);
    let grown = among.insert(i);
    match (best, hit) {
        (None, None) => {},
        (None, Some(h)) => {
            assert(grown.contains(i) && ray_segment_hit(pos, dir, segs[i]) == Some(h));
        },
        (Some(t), None) => {
            let w = choose|w: int|
                0 <= w < segs.len() && among.contains(w) && #[trigger] ray_segment_hit(
                    pos,
                    dir,
                    segs[w],
                ) == Some(t);
            assert(grown.contains(w));
        },
        (Some(t), Some(h)) => {
            let w = choose|w: int|
                0 <= w < segs.len() && among.contains(w) && #[trigger] ray_segment_hit(
                    pos,
                    dir,
                    segs[w],
                ) == Some(t);
            assert(grown.contains(w));
            assert(grown.contains(i));
            lemma_hit_positive(pos, dir, segs[i]);
            lemma_hit_positive(pos, dir, segs[w]);
            if h.spec_lt(t) {
                assert forall|q: int|
                    0 <= q < segs.len() && grown.contains(q) && (#[trigger] ray_segment_hit(
                        pos,
                        dir,
                        segs[q],
                    )) is Some implies h.spec_le(ray_segment_hit(pos, dir, segs[q])->Some_0) by {
                    if q != i || among.contains(q) {
                        if among.contains(q) {
                            lemma_hit_positive(pos, dir, segs[q]);
                            lemma_le_trans(h, t, ray_segment_hit(pos, dir, segs[q])->Some_0);
                        }
                    }
                }
            }
        },
    }
}

/// Testing the segments one after the other finds the nearest hit among all
/// of them.
pub proof fn lemma_scan_is_nearest(pos: Vec2, dir: Vec2, segs: Seq<LineSegment>)
    ensures
        is_nearest(
            scan_nearest(pos, dir, segs),
            pos,
            dir,
            segs,
            Set::new(|i: int| 0 <= i < segs.len()),
        ),
    decreases segs.len(),
{
    let all = Set::new(|i: int| 0 <= i < segs.len());
    if segs.len() > 0 {
        let rest = segs.drop_last();
        let fewer = Set::new(|i: int| 0 <= i < rest.len());
        lemma_scan_is_nearest(pos, dir, rest);
        let before = scan_nearest(pos, dir, rest);
        assert(is_nearest(before, pos, dir, segs, fewer)) by {
            assert forall|i: int| 0 <= i < rest.len() implies rest[i] == segs[i] by {}
            match before {
                None => {
                    assert forall|i: int|
                        0 <= i < segs.len() && fewer.contains(i) implies (#[trigger] ray_segment_hit(
                        pos,
                        dir,
                        segs[i],
                    )) is None by {
                        assert(ray_segment_hit(pos, dir, rest[i]) is None);
                    }
                },
                Some(t) => {
                    let w = choose|w: int|
                        0 <= w < rest.len() && fewer.contains(w) && #[trigger] ray_segment_hit(
                            pos,
                            dir,
                            rest[w],
                        ) == Some(t);
                    assert(0 <= w < segs.len() && fewer.contains(w) && ray_segment_hit(
                        pos,
                        dir,
                        segs[w],
                    ) == Some(t));
                    assert forall|i: int|
                        0 <= i < segs.len() && fewer.contains(i) && (#[trigger] ray_segment_hit(
                            pos,
                            dir,
                            segs[i],
                        )) is Some implies t.spec_le(
                        ray_segment_hit(pos, dir, segs[i])->Some_0,
                    ) by {
                        assert(ray_segment_hit(pos, dir, rest[i]) is Some);
                    }
                },
            }
        }
        lemma_nearest_insert(before, pos, dir, segs, fewer, segs.len() - 1);
        assert(fewer.insert(segs.len() - 1) =~= all);
    }
}

/// Two nearest hits among the same segments are the same number.
pub proof fn lemma_nearest_unique(
    a: Option<Ratio>,
    b: Option<Ratio>,
    pos: Vec2,
    dir: Vec2,
    segs: Seq<LineSegment>,
    among: Set<int>,
)
    requires
        is_nearest(a, pos, dir, segs, among),
        is_nearest(b, pos, dir, segs, among),
    ensures
        a is None <==> b is None,
        a is Some ==> a->Some_0.same_value(b->Some_0),
{
    if a is Some {
        let t = a->Some_0;
        let w = choose|w: int|
            0 <= w < segs.len() && among.contains(w) && #[trigger] ray_segment_hit(pos, dir, segs[w])
                == Some(t);
        assert(b is Some);
        let u = b->Some_0;
        let v = choose|v: int|
            0 <= v < segs.len() && among.contains(v) && #[trigger] ray_segment_hit(pos, dir, segs[v])
                == Some(u);
        assert(t.spec_le(u));
        assert(u.spec_le(t));
    } else if b is Some {
        let u = b->Some_0;
        let v = choose|v: int|
            0 <= v < segs.len() && among.contains(v) && #[trigger] ray_segment_hit(pos, dir, segs[v])
                == Some(u);
        assert(ray_segment_hit(pos, dir, segs[v]) is None);
    }
}

/// Where the hit point lies along one axis, scaled by the denominator: within
/// the bounds that hold both endpoints of the segment.
proof fn lemma_hit_axis(p: int, d: int, a: int, b: int, lo: int, hi: int, den: int, t: int, u: int)
    requires
        (p - a) * den + d * t == u * (b - a),
        0 <= u <= den,
        lo <= a <= hi,
        lo <= b <= hi,
    ensures
        lo * den <= p * den + d * t <= hi * den,
{
    assert(p * den + d * t == a * (den - u) + b * u) by (nonlinear_arith)
        requires
            (p - a) * den + d * t == u * (b - a),
    ;
    assert(lo * (den - u) <= a * (den - u) <= hi * (den - u)) by (nonlinear_arith)
        requires
            lo <= a <= hi,
            den - u >= 0,
    ;
    assert(lo * u <= b * u <= hi * u) by (nonlinear_arith)
        requires
            lo <= b <= hi,
            u >= 0,
    ;
    assert(lo * (den - u) + lo * u == lo * den && hi * (den - u) + hi * u == hi * den)
        by (nonlinear_arith);
}

/// On an axis where the hit point lies within the slab, the ray is not
/// blocked, enters the slab no later than the hit and leaves it no earlier.
proof fn lemma_slab(o: int, d: int, lo: int, hi: int, t: Ratio)
    requires
        -0x8000_0000 <= o < 0x8000_0000,
        -0x8000_0000 <= d < 0x8000_0000,
        -0x8000_0000 <= lo < 0x8000_0000,
        -0x8000_0000 <= hi < 0x8000_0000,
        t.den > 0,
        lo * t.den <= o * t.den + d * t.num <= hi * t.den,
    ensures
        d == 0 ==> lo <= o <= hi,
        d != 0 ==> axis_near(o, d, lo, hi).spec_le(t) && t.spec_le(axis_far(o, d, lo, hi)),
        d != 0 ==> axis_near(o, d, lo, hi).den > 0 && axis_far(o, d, lo, hi).den > 0,
{
    let den = t.den as int;
    let num = t.num as int;
    if d == 0 {
        assert(d * num == 0);
        assert(lo <= o <= hi) by (nonlinear_arith)
            requires
                lo * den <= o * den <= hi * den,
                den > 0,
        ;
    } else if d > 0 {
        assert((lo - o) * den <= num * d && num * d <= (hi - o) * den) by (nonlinear_arith)
            requires
                lo * den <= o * den + d * num <= hi * den,
        ;
    } else {
        assert((o - hi) * den <= num * (-d) && num * (-d) <= (o - lo) * den) by (nonlinear_arith)
            requires
                lo * den <= o * den + d * num <= hi * den,
        ;
    }
}

/// The two equations of the meeting point, cleared of the division: with
/// `q = pos - a` and `e = b - a`, the point `pos + t * dir` is
/// `a + u * (b - a)` on both axes.
proof fn lemma_hit_identity(q: int, r: int, e: int, f: int, dx: int, dy: int)
    ensures
        q * (dx * f - dy * e) + dx * (q * (-f) - r * (-e)) == (dx * r - dy * q) * e,
        r * (dx * f - dy * e) + dy * (q * (-f) - r * (-e)) == (dx * r - dy * q) * f,
{
    assert(q * (dx * f - dy * e) == q * dx * f - q * dy * e) by (nonlinear_arith);
    assert(dx * (q * (-f) - r * (-e)) == dx * r * e - q * dx * f) by (nonlinear_arith);
    assert((dx * r - dy * q) * e == dx * r * e - q * dy * e) by (nonlinear_arith);
    assert(r * (dx * f - dy * e) == r * dx * f - r * dy * e) by (nonlinear_arith);
    assert(dy * (q * (-f) - r * (-e)) == r * dy * e - dy * q * f) by (nonlinear_arith);
    assert((dx * r - dy * q) * f == r * dx * f - dy * q * f) by (nonlinear_arith);
}

/// A ray that hits a segment hits every box that holds the segment.
pub proof fn lemma_hit_enters_box(pos: Vec2, dir: Vec2, seg: LineSegment, b: Box2D)
    requires
        ray_segment_hit(pos, dir, seg) is Some,
        b.spec_contains_box(seg.spec_get_box()),
    ensures
        ray_box_hit(pos, dir, b) is Some,
{
    let t = ray_segment_hit(pos, dir, seg)->Some_0;
    crate::math::lemma_ray_bounds(pos, dir, seg);
    let denom = seg.ray_denom(dir);
    let t_num = seg.ray_t_num(pos);
    let u_num = seg.ray_u_num(pos, dir);
    let px = pos.x as int;
    let py = pos.y as int;
    let dx = dir.x as int;
    let dy = dir.y as int;
    let ax = seg.0.x as int;
    let ay = seg.0.y as int;
    let bx = seg.1.x as int;
    let by = seg.1.y as int;
    lemma_hit_identity(px - ax, py - ay, bx - ax, by - ay, dx, dy);
    assert(ay - by == -(by - ay) && ax - bx == -(bx - ax));
    assert((px - ax) * denom + dx * t_num == u_num * (bx - ax));
    assert((py - ay) * denom + dy * t_num == u_num * (by - ay));
    let den: int = if denom > 0 {
        denom
    } else {
        -denom
    };
    let num: int = if denom > 0 {
        t_num
    } else {
        -t_num
    };
    let u: int = if denom > 0 {
        u_num
    } else {
        -u_num
    };
    assert(t.den == den && t.num == num);
    if denom < 0 {
        assert((px - ax) * (-denom) + dx * (-t_num) == (-u_num) * (bx - ax)) by (nonlinear_arith)
            requires
                (px - ax) * denom + dx * t_num == u_num * (bx - ax),
        ;
        assert((py - ay) * (-denom) + dy * (-t_num) == (-u_num) * (by - ay)) by (nonlinear_arith)
            requires
                (py - ay) * denom + dy * t_num == u_num * (by - ay),
        ;
    }
    lemma_hit_axis(px, dx, ax, bx, b.min.x as int, b.max.x as int, den, num, u);
    lemma_hit_axis(py, dy, ay, by, b.min.y as int, b.max.y as int, den, num, u);
    lemma_slab(px, dx, b.min.x as int, b.max.x as int, t);
    lemma_slab(py, dy, b.min.y as int, b.max.y as int, t);
    assert(dx != 0 || dy != 0) by (nonlinear_arith)
        requires
            denom == dx * (by - ay) - dy * (bx - ax),
            denom != 0,
    ;
    let span = ray_box_span(pos, dir, b);
    assert(span is Some);
    let near = span->Some_0.0;
    let far = span->Some_0.1;
    assert(near.spec_le(t) && t.spec_le(far) && near.den > 0 && far.den > 0);
    lemma_le_trans(near, t, far);
    assert(far.num > 0) by (nonlinear_arith)
        requires
            t.num * far.den <= far.num * t.den,
            t.num > 0,
            t.den > 0,
            far.den > 0,
    ;
}

/// The number of nodes below and including `id`, a node counted once for
/// every path that leads to it.
pub open spec fn subtree_weight(nodes: Map<u64, BVHNode>, id: u64) -> nat
    decreases id, nodes[id].kids().len() + 1,
{
    if nodes.dom().contains(id) {
        1 + kids_weight(nodes, nodes[id].kids(), id)
    } else {
        1
    }
}

/// The nodes below and including the children numbered below `bound`.
pub open spec fn kids_weight(nodes: Map<u64, BVHNode>, kids: Seq<BVHNodeId>, bound: u64) -> nat
    decreases bound, kids.len(),
{
    if kids.len() == 0 {
        0
    } else {
        kids_weight(nodes, kids.drop_last(), bound) + (if kids.last().0 < bound {
            subtree_weight(nodes, kids.last().0)
        } else {
            1
        })
    }
}

/// The work left in a queue of node ids.
pub open spec fn queue_weight(nodes: Map<u64, BVHNode>, queue: Seq<u64>) -> nat
    decreases queue.len(),
{
    if queue.len() == 0 {
        0
    } else {
        queue_weight(nodes, queue.drop_last()) + subtree_weight(nodes, queue.last())
    }
}

/// The work in a queue is that of its first node and that of the rest.
proof fn lemma_queue_weight_front(nodes: Map<u64, BVHNode>, queue: Seq<u64>)
    requires
        queue.len() > 0,
    ensures
        queue_weight(nodes, queue) == subtree_weight(nodes, queue[0]) + queue_weight(
            nodes,
            queue.drop_first(),
        ),
    decreases queue.len(),
{
    if queue.len() == 1 {
        assert(queue.drop_last() =~= Seq::<u64>::empty());
        assert(queue.drop_first() =~= Seq::<u64>::empty());
    } else {
        lemma_queue_weight_front(nodes, queue.drop_last());
        assert(queue.drop_last().drop_first() =~= queue.drop_first().drop_last());
        assert(queue.drop_first().last() == queue.last());
    }
}

/// Segment `i` is held below one of the queued nodes.
pub open spec fn queued(nodes: Map<u64, BVHNode>, queue: Seq<u64>, i: usize) -> bool {
    exists|q: int| 0 <= q < queue.len() && subtree_elems(nodes, #[trigger] queue[q]).count(i) > 0
}

/// A segment held below some of the children is held below one of them.
proof fn lemma_kids_split(
    nodes: Map<u64, BVHNode>,
    kids: Seq<BVHNodeId>,
    bound: u64,
    i: usize,
)
    requires
        kids_elems(nodes, kids, bound).count(i) > 0,
    ensures
        exists|k: int|
            0 <= k < kids.len() && subtree_elems(nodes, (#[trigger] kids[k]).0).count(i) > 0,
    decreases kids.len(),
{
    broadcast use vstd::multiset::group_multiset_axioms;

    if kids.len() > 0 {
        if kids_elems(nodes, kids.drop_last(), bound).count(i) > 0 {
            lemma_kids_split(nodes, kids.drop_last(), bound, i);
            let k = choose|k: int|
                0 <= k < kids.drop_last().len() && subtree_elems(
                    nodes,
                    (#[trigger] kids.drop_last()[k]).0,
                ).count(i) > 0;
            assert(kids[k] == kids.drop_last()[k]);
        } else {
            assert(subtree_elems(nodes, kids[kids.len() - 1].0).count(i) > 0);
        }
    }
}

/// A segment held below a node is one of its elements or is held below one
/// of its children.
proof fn lemma_subtree_split(nodes: Map<u64, BVHNode>, id: u64, i: usize)
    requires
        subtree_elems(nodes, id).count(i) > 0,
    ensures
        nodes.dom().contains(id),
        nodes[id].elems().contains(i) || exists|k: int|
            0 <= k < nodes[id].kids().len() && subtree_elems(
                nodes,
                (#[trigger] nodes[id].kids()[k]).0,
            ).count(i) > 0,
{
    broadcast use vstd::multiset::group_multiset_axioms;

    nodes[id].elems().to_multiset_ensures();
    if !nodes[id].elems().contains(i) {
        lemma_kids_split(nodes, nodes[id].kids(), id, i);
    }
}

/// The box of a node holds the box of every segment held below it.
pub proof fn lemma_subtree_box(nodes: Map<u64, BVHNode>, boxes: Seq<Box2D>, id: u64, i: usize)
    requires
        store_ok(nodes, boxes),
        subtree_elems(nodes, id).count(i) > 0,
    ensures
        i < boxes.len(),
        nodes[id].rect.spec_contains_box(boxes[i as int]),
    decreases id,
{
    lemma_subtree_split(nodes, id, i);
    assert(node_ok(nodes, id, boxes));
    if nodes[id].elems().contains(i) {
        let j = choose|j: int| 0 <= j < nodes[id].elems().len() && nodes[id].elems()[j] == i;
        assert(nodes[id].rect.spec_contains_box(boxes[nodes[id].elems()[j] as int]));
    } else {
        let k = choose|k: int|
            0 <= k < nodes[id].kids().len() && subtree_elems(
                nodes,
                (#[trigger] nodes[id].kids()[k]).0,
            ).count(i) > 0;
        let kid = nodes[id].kids()[k].0;
        lemma_subtree_box(nodes, boxes, kid, i);
    }
}

/// Every segment index.
pub open spec fn all_indices(n: nat) -> Set<int> {
    Set::new(|i: int| 0 <= i < n)
}

/// What the traversal keeps: the best hit so far is the nearest among the
/// tested segments, and every segment the ray hits is tested or still held
/// below a queued node.
pub open spec fn search_inv(
    nodes: Map<u64, BVHNode>,
    segs: Seq<LineSegment>,
    pos: Vec2,
    dir: Vec2,
    queue: Seq<u64>,
    tested: Set<int>,
    best: Option<Ratio>,
) -> bool {
    &&& segs.len() <= usize::MAX
    &&& is_nearest(best, pos, dir, segs, tested)
    &&& forall|i: int|
        0 <= i < segs.len() && (#[trigger] ray_segment_hit(pos, dir, segs[i])) is Some
            ==> tested.contains(i) || queued(nodes, queue, i as usize)
}

/// Tests the elements of one node against the ray.
fn test_elements(
    elems: &[usize],
    segments: &Vec<LineSegment>,
    pos: Vec2,
    dir: Vec2,
    best: Option<Ratio>,
    Ghost(tested): Ghost<Set<int>>,
) -> (r: (Option<Ratio>, Ghost<Set<int>>))
    requires
        is_nearest(best, pos, dir, segments@, tested),
        forall|j: int| 0 <= j < elems@.len() ==> (#[trigger] elems@[j]) < segments.len(),
    ensures
        is_nearest(r.0, pos, dir, segments@, r.1@),
        forall|i: int| tested.contains(i) ==> r.1@.contains(i),
        forall|j: int| 0 <= j < elems@.len() ==> r.1@.contains((#[trigger] elems@[j]) as int),
{
    let mut best = best;
    let ghost mut seen = tested;
    let mut j: usize = 0;
    while j < elems.len()
        invariant
            j <= elems@.len(),
            is_nearest(best, pos, dir, segments@, seen),
            forall|i: int| tested.contains(i) ==> seen.contains(i),
            forall|q: int| 0 <= q < j ==> seen.contains((#[trigger] elems@[q]) as int),
            forall|q: int| 0 <= q < elems@.len() ==> (#[trigger] elems@[q]) < segments.len(),
        decreases elems@.len() - j,
    {
        let index = elems[j];
        let hit = intersect_ray_line_segment(pos, dir, &segments[index]);
        proof {
            lemma_nearest_insert(best, pos, dir, segments@, seen, index as int);
            seen = seen.insert(index as int);
        }
        best =
        match (best, hit) {
            (None, h) => h,
            (b, None) => b,
            (Some(x), Some(y)) => if y.lt(&x) {
                Some(y)
            } else {
                Some(x)
            },
        };
        j += 1;
    }
    (best, Ghost(seen))
}

/// Puts the children of node `id` at the end of the queue.
fn push_children(
    queue: &mut Vec<u64>,
    kids: &[BVHNodeId],
    Ghost(nodes): Ghost<Map<u64, BVHNode>>,
    Ghost(id): Ghost<u64>,
    Ghost(head): Ghost<int>,
)
    requires
        0 <= head <= old(queue).len(),
        nodes.dom().contains(id),
        kids@ == nodes[id].kids(),
        forall|k: int| 0 <= k < kids@.len() ==> (#[trigger] kids@[k]).0 < id,
    ensures
        final(queue)@.len() == old(queue)@.len() + kids@.len(),
        forall|q: int| 0 <= q < old(queue)@.len() ==> final(queue)@[q] == old(queue)@[q],
        forall|k: int|
            0 <= k < kids@.len() ==> final(queue)@[old(queue)@.len() + k] == (#[trigger] kids@[k]).0,
        queue_weight(nodes, final(queue)@.subrange(head, final(queue)@.len() as int))
            + 1 == queue_weight(nodes, old(queue)@.subrange(head, old(queue)@.len() as int))
            + subtree_weight(nodes, id),
{
    let mut k: usize = 0;
    proof {
        assert(kids@.subrange(0, 0) =~= Seq::<BVHNodeId>::empty());
    }
    while k < kids.len()
        invariant
            k <= kids@.len(),
            0 <= head <= old(queue).len(),
            queue@.len() == old(queue)@.len() + k,
            forall|q: int| 0 <= q < old(queue)@.len() ==> queue@[q] == old(queue)@[q],
            forall|q: int| 0 <= q < k ==> queue@[old(queue)@.len() + q] == (#[trigger] kids@[q]).0,
            forall|q: int| 0 <= q < kids@.len() ==> (#[trigger] kids@[q]).0 < id,
            queue_weight(nodes, queue@.subrange(head, queue@.len() as int)) == queue_weight(
                nodes,
                old(queue)@.subrange(head, old(queue)@.len() as int),
            ) + kids_weight(nodes, kids@.subrange(0, k as int), id),
        decreases kids@.len() - k,
    {
        let ghost before = queue@.subrange(head, queue@.len() as int);
        let kid = kids[k];
        queue.push(kid.0);
        proof {
            let after = queue@.subrange(head, queue@.len() as int);
            assert(after.drop_last() =~= before);
            assert(after.last() == kid.0);
            let upto = kids@.subrange(0, k + 1);
            assert(upto.drop_last() =~= kids@.subrange(0, k as int));
            assert(upto.last() == kid);
        }
        k += 1;
    }
    proof {
        assert(kids@.subrange(0, kids@.len() as int) =~= kids@);
    }
}

/// Dropping the first queued node when it is not stored or the ray misses
/// its box.
proof fn lemma_search_miss(
    nodes: Map<u64, BVHNode>,
    segs: Seq<LineSegment>,
    pos: Vec2,
    dir: Vec2,
    queue: Seq<u64>,
    tested: Set<int>,
    best: Option<Ratio>,
)
    requires
        search_inv(nodes, segs, pos, dir, queue, tested, best),
        queue.len() > 0,
        store_ok(nodes, segment_boxes(segs)),
        !nodes.dom().contains(queue[0]) || ray_box_hit(pos, dir, nodes[queue[0]].rect) is None,
    ensures
        search_inv(nodes, segs, pos, dir, queue.drop_first(), tested, best),
{
    let rest = queue.drop_first();
    assert forall|i: int|
        0 <= i < segs.len() && (#[trigger] ray_segment_hit(pos, dir, segs[i])) is Some implies tested.contains(
        i,
    ) || queued(nodes, rest, i as usize) by {
        if !tested.contains(i) {
            assert(queued(nodes, queue, i as usize));
            let q = choose|q: int|
                0 <= q < queue.len() && subtree_elems(nodes, #[trigger] queue[q]).count(i as usize)
                    > 0;
            if q == 0 {
                lemma_subtree_box(nodes, segment_boxes(segs), queue[0], i as usize);
                assert(segment_boxes(segs)[i] == segs[i].spec_get_box());
                lemma_hit_enters_box(pos, dir, segs[i], nodes[queue[0]].rect);
            } else {
                assert(rest[q - 1] == queue[q]);
            }
        }
    }
}

/// Replacing the first queued node by its children, its elements tested.
proof fn lemma_search_hit(
    nodes: Map<u64, BVHNode>,
    segs: Seq<LineSegment>,
    pos: Vec2,
    dir: Vec2,
    queue: Seq<u64>,
    tested: Set<int>,
    best: Option<Ratio>,
    next: Seq<u64>,
    seen: Set<int>,
    found: Option<Ratio>,
)
    requires
        search_inv(nodes, segs, pos, dir, queue, tested, best),
        queue.len() > 0,
        nodes.dom().contains(queue[0]),
        is_nearest(found, pos, dir, segs, seen),
        forall|i: int| tested.contains(i) ==> seen.contains(i),
        forall|j: int|
            0 <= j < nodes[queue[0]].elems().len() ==> seen.contains(
                (#[trigger] nodes[queue[0]].elems()[j]) as int,
            ),
        next.len() == queue.len() - 1 + nodes[queue[0]].kids().len(),
        forall|q: int| 0 <= q < queue.len() - 1 ==> #[trigger] next[q] == queue[q + 1],
        forall|k: int|
            0 <= k < nodes[queue[0]].kids().len() ==> next[queue.len() - 1 + k]
                == (#[trigger] nodes[queue[0]].kids()[k]).0,
    ensures
        search_inv(nodes, segs, pos, dir, next, seen, found),
{
    let id = queue[0];
    assert forall|i: int|
        0 <= i < segs.len() && (#[trigger] ray_segment_hit(pos, dir, segs[i])) is Some implies seen.contains(
        i,
    ) || queued(nodes, next, i as usize) by {
        if !tested.contains(i) {
            assert(queued(nodes, queue, i as usize));
            let q = choose|q: int|
                0 <= q < queue.len() && subtree_elems(nodes, #[trigger] queue[q]).count(i as usize)
                    > 0;
            if q == 0 {
                lemma_subtree_split(nodes, id, i as usize);
                if nodes[id].elems().contains(i as usize) {
                    let j = choose|j: int|
                        0 <= j < nodes[id].elems().len() && nodes[id].elems()[j] == i as usize;
                    assert(seen.contains(nodes[id].elems()[j] as int));
                } else {
                    let k = choose|k: int|
                        0 <= k < nodes[id].kids().len() && subtree_elems(
                            nodes,
                            (#[trigger] nodes[id].kids()[k]).0,
                        ).count(i as usize) > 0;
                    assert(next[queue.len() - 1 + k] == nodes[id].kids()[k].0);
                    assert(subtree_elems(nodes, next[queue.len() - 1 + k]).count(i as usize) > 0);
                }
            } else {
                assert(next[q - 1] == queue[q]);
                assert(subtree_elems(nodes, next[q - 1]).count(i as usize) > 0);
            }
        }
    }
}

impl BVH {
    /// The nearest hit of the ray `pos + t * dir` among the segments the
    /// hierarchy was built over: the nodes are visited breadth first, a node
    /// whose box the ray misses is dropped with all below it, and of the
    /// hits found the nearest is kept.
    pub fn cast_ray(&self, segments: &Vec<LineSegment>, pos: Vec2, dir: Vec2) -> (r: Option<Ratio>)
        requires
            self.wf(segments@),
        ensures
            is_nearest(r, pos, dir, segments@, all_indices(segments@.len())),
    {
        let ghost nodes = self.nodes();
        let mut queue: Vec<u64> = Vec::new();
        queue.push(self.root.0);
        let mut head: usize = 0;
        let mut best: Option<Ratio> = None;
        let ghost mut tested: Set<int> = Set::empty();
        proof {
            let start = queue@.subrange(0, 1);
            assert(segments@.len() == segments.len());
            assert forall|i: int|
                0 <= i < segments@.len() && (#[trigger] ray_segment_hit(pos, dir, segments@[i]))
                    is Some implies tested.contains(i) || queued(nodes, start, i as usize) by {
                assert(start[0] == self.root.0);
                assert(subtree_elems(nodes, self.root.0).count(i as usize) == 1);
                assert(subtree_elems(nodes, start[0]).count(i as usize) > 0);
            }
            assert(is_nearest(best, pos, dir, segments@, tested));
            assert(search_inv(nodes, segments@, pos, dir, start, tested, best));
            assert(start =~= queue@.subrange(head as int, queue@.len() as int));
        }
        while head < queue.len()
            invariant
                head <= queue.len(),
                nodes == self.nodes(),
                self.wf(segments@),
                search_inv(
                    nodes,
                    segments@,
                    pos,
                    dir,
                    queue@.subrange(head as int, queue@.len() as int),
                    tested,
                    best,
                ),
            decreases queue_weight(nodes, queue@.subrange(head as int, queue@.len() as int)),
        {
            let ghost remaining = queue@.subrange(head as int, queue@.len() as int);
            let id = queue[head];
            head += 1;
            proof {
                lemma_queue_weight_front(nodes, remaining);
                assert(queue@.subrange(head as int, queue@.len() as int) =~= remaining.drop_first());
                assert(remaining[0] == id);
            }
            match store_get(&self.box_map, id) {
                None => {
                    proof {
                        lemma_search_miss(nodes, segments@, pos, dir, remaining, tested, best);
                    }
                },
                Some(node) => {
                    if intersect_ray_box(pos, dir, node.rect).is_some() {
                        proof {
                            assert(node_ok(nodes, id, segment_boxes(segments@)));
                        }
                        match &node.children {
                            Some(children) => {
                                push_children(
                                    &mut queue,
                                    children.as_slice(),
                                    Ghost(nodes),
                                    Ghost(id),
                                    Ghost(head as int),
                                );
                            },
                            None => {},
                        }
                        let ghost before = tested;
                        let ghost previous = best;
                        match &node.elements {
                            Some(elements) => {
                                let held = elements.as_slice();
                                proof {
                                    assert(held@ == nodes[id].elems());
                                    assert forall|j: int| 0 <= j < held@.len() implies (
                                    #[trigger] held@[j]) < segments.len() by {
                                        assert(nodes[id].elems()[j] < segment_boxes(
                                            segments@,
                                        ).len());
                                    }
                                }
                                let (found, Ghost(seen)) = test_elements(
                                    held,
                                    segments,
                                    pos,
                                    dir,
                                    best,
                                    Ghost(tested),
                                );
                                best = found;
                                proof {
                                    tested = seen;
                                }
                            },
                            None => {},
                        }
                        proof {
                            let next = queue@.subrange(head as int, queue@.len() as int);
                            lemma_search_hit(
                                nodes,
                                segments@,
                                pos,
                                dir,
                                remaining,
                                before,
                                previous,
                                next,
                                tested,
                                best,
                            );
                        }
                    } else {
                        proof {
                            lemma_search_miss(nodes, segments@, pos, dir, remaining, tested, best);
                        }
                    }
                },
            }
        }
        proof {
            let all = all_indices(segments@.len());
            let rest = queue@.subrange(head as int, queue@.len() as int);
            assert forall|i: int|
                0 <= i < segments@.len() && (#[trigger] ray_segment_hit(pos, dir, segments@[i]))
                    is Some implies tested.contains(i) by {
                assert(!queued(nodes, rest, i as usize));
            }
            match best {
                None => {},
                Some(t) => {
                    let w = choose|w: int|
                        0 <= w < segments@.len() && tested.contains(w) && #[trigger] ray_segment_hit(
                            pos,
                            dir,
                            segments@[w],
                        ) == Some(t);
                    assert(all.contains(w));
                },
            }
        }
        best
    }
}

/// The traversal finds what testing every segment in turn finds: both find
/// nothing, or both find the same distance.
pub proof fn lemma_cast_ray_is_scan(
    found: Option<Ratio>,
    pos: Vec2,
    dir: Vec2,
    segs: Seq<LineSegment>,
)
    requires
        is_nearest(found, pos, dir, segs, all_indices(segs.len())),
    ensures
        found is None <==> scan_nearest(pos, dir, segs) is None,
        found is Some ==> found->Some_0.same_value(scan_nearest(pos, dir, segs)->Some_0),
{
    lemma_scan_is_nearest(pos, dir, segs);
    assert(all_indices(segs.len()) =~= Set::new(|i: int| 0 <= i < segs.len()));
    lemma_nearest_unique(
        found,
        scan_nearest(pos, dir, segs),
        pos,
        dir,
        segs,
        all_indices(segs.len()),
    );
}

/// The lattice point at or just below and left of `pos + t * dir`.
pub open spec fn hit_point(pos: Vec2, dir: Vec2, t: Ratio) -> Vec2 {
    Vec2 {
        x: ((pos.x * t.den + dir.x * t.num) / (t.den as int)) as i32,
        y: ((pos.y * t.den + dir.y * t.num) / (t.den as int)) as i32,
    }
}

/// Equal fractions round down to the same integer.
proof fn lemma_floor_eq(n1: int, d1: int, n2: int, d2: int)
    requires
        d1 > 0,
        d2 > 0,
        n1 * d2 == n2 * d1,
    ensures
        n1 / d1 == n2 / d2,
{
    let q = n1 / d1;
    let r = n1 % d1;
    lemma_fundamental_div_mod(n1, d1);
    let s = n2 - q * d2;
    assert(s * d1 == r * d2) by (nonlinear_arith)
        requires
            n1 == d1 * q + r,
            n1 * d2 == n2 * d1,
            s == n2 - q * d2,
    ;
    assert(0 <= s < d2) by (nonlinear_arith)
        requires
            s * d1 == r * d2,
            0 <= r < d1,
            d1 > 0,
            d2 > 0,
    ;
    lemma_fundamental_div_mod_converse(n2, d2, q, s);
}

/// The hit point depends on the distance, not on how the fraction is
/// written.
pub proof fn lemma_hit_point_value(pos: Vec2, dir: Vec2, t1: Ratio, t2: Ratio)
    requires
        t1.den > 0,
        t2.den > 0,
        t1.same_value(t2),
    ensures
        hit_point(pos, dir, t1) == hit_point(pos, dir, t2),
{
    let d1 = t1.den as int;
    let d2 = t2.den as int;
    let n1 = t1.num as int;
    let n2 = t2.num as int;
    let px = pos.x as int;
    let py = pos.y as int;
    let dx = dir.x as int;
    let dy = dir.y as int;
    assert((px * d1 + dx * n1) * d2 == (px * d2 + dx * n2) * d1) by (nonlinear_arith)
        requires
            n1 * d2 == n2 * d1,
    ;
    assert((py * d1 + dy * n1) * d2 == (py * d2 + dy * n2) * d1) by (nonlinear_arith)
        requires
            n1 * d2 == n2 * d1,
    ;
    lemma_floor_eq(px * d1 + dx * n1, d1, px * d2 + dx * n2, d2);
    lemma_floor_eq(py * d1 + dy * n1, d1, py * d2 + dy * n2, d2);
}

/// A fraction between two integers rounds down to an integer between them.
proof fn lemma_floor_between(n: int, d: int, lo: int, hi: int)
    requires
        d > 0,
        lo * d <= n <= hi * d,
    ensures
        lo <= n / d <= hi,
{
    lemma_fundamental_div_mod(n, d);
    let q = n / d;
    let r = n % d;
    assert(lo <= q <= hi) by (nonlinear_arith)
        requires
            n == d * q + r,
            0 <= r < d,
            lo * d <= n <= hi * d,
    ;
}

/// The point where a ray hits a segment, rounded down, lies in the
/// segment's box.
pub proof fn lemma_hit_point_in_box(pos: Vec2, dir: Vec2, seg: LineSegment)
    requires
        ray_segment_hit(pos, dir, seg) is Some,
    ensures
        seg.spec_get_box().spec_contains(
            hit_point(pos, dir, ray_segment_hit(pos, dir, seg)->Some_0),
        ),
        seg.spec_get_box().min.x <= (pos.x * ray_segment_hit(pos, dir, seg)->Some_0.den + dir.x
            * ray_segment_hit(pos, dir, seg)->Some_0.num) / (ray_segment_hit(
            pos,
            dir,
            seg,
        )->Some_0.den as int) <= seg.spec_get_box().max.x,
        seg.spec_get_box().min.y <= (pos.y * ray_segment_hit(pos, dir, seg)->Some_0.den + dir.y
            * ray_segment_hit(pos, dir, seg)->Some_0.num) / (ray_segment_hit(
            pos,
            dir,
            seg,
        )->Some_0.den as int) <= seg.spec_get_box().max.y,
        -0x2_0000_0000_0000_0000 < ray_segment_hit(pos, dir, seg)->Some_0.num
            < 0x2_0000_0000_0000_0000,
{
    let t = ray_segment_hit(pos, dir, seg)->Some_0;
    crate::math::lemma_ray_bounds(pos, dir, seg);
    let denom = seg.ray_denom(dir);
    let t_num = seg.ray_t_num(pos);
    let u_num = seg.ray_u_num(pos, dir);
    let px = pos.x as int;
    let py = pos.y as int;
    let dx = dir.x as int;
    let dy = dir.y as int;
    let ax = seg.0.x as int;
    let ay = seg.0.y as int;
    let bx = seg.1.x as int;
    let by = seg.1.y as int;
    lemma_hit_identity(px - ax, py - ay, bx - ax, by - ay, dx, dy);
    assert(ay - by == -(by - ay) && ax - bx == -(bx - ax));
    assert((px - ax) * denom + dx * t_num == u_num * (bx - ax));
    assert((py - ay) * denom + dy * t_num == u_num * (by - ay));
    let den: int = if denom > 0 {
        denom
    } else {
        -denom
    };
    let num: int = if denom > 0 {
        t_num
    } else {
        -t_num
    };
    let u: int = if denom > 0 {
        u_num
    } else {
        -u_num
    };
    assert(t.den == den && t.num == num);
    if denom < 0 {
        assert((px - ax) * (-denom) + dx * (-t_num) == (-u_num) * (bx - ax)) by (nonlinear_arith)
            requires
                (px - ax) * denom + dx * t_num == u_num * (bx - ax),
        ;
        assert((py - ay) * (-denom) + dy * (-t_num) == (-u_num) * (by - ay)) by (nonlinear_arith)
            requires
                (py - ay) * denom + dy * t_num == u_num * (by - ay),
        ;
    }
    let bx2 = seg.spec_get_box();
    lemma_hit_axis(px, dx, ax, bx, bx2.min.x as int, bx2.max.x as int, den, num, u);
    lemma_hit_axis(py, dy, ay, by, bx2.min.y as int, bx2.max.y as int, den, num, u);
    lemma_floor_between(px * den + dx * num, den, bx2.min.x as int, bx2.max.x as int);
    lemma_floor_between(py * den + dy * num, den, bx2.min.y as int, bx2.max.y as int);
}

} // verus!
