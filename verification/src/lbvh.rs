//! Building the hierarchy: Morton codes, treelets of Morton-adjacent segments
//! split bit by bit, and the split tree that joins the treelets.

use vstd::prelude::*;
use vstd::multiset::Multiset;
use crate::bvh::{
    BVHNode, BVHNodeId, held, held_once, MAX_PRIMS_IN_NODE, agree_below, bounding_box, box_valid, entry_indices,
    keys_below, kids_elems, same_at, lemma_kids_frame, lemma_kids_push, lemma_subtree_frame, morton_encode,
    node_ok, spec_morton_encode, store_ok, subtree_elems,
};
use crate::math::{Box2D, LineSegment, Vec2, mul_i64};
use crate::store::{
    ChildList, ElementList, NodeStore, sorted_by_code, store_insert, store_nodes,
};

verus! {

/// Codes that agree on these bits belong to one treelet.
pub const TREELET_MASK: u64 = 0xFFFFFFFFFF000000;

/// The highest bit a treelet is split on.
pub const TREELET_FIRST_BIT: i8 = 24;

/// The depth of the split tree above the treelets.
pub const SPLIT_DEPTH: i8 = 5;

/// What the construction keeps between its steps: ids are handed out in
/// increasing order, every stored node is sound, every segment box has its
/// corners in order.
pub open spec fn build_inv(nodes: Map<u64, BVHNode>, boxes: Seq<Box2D>, next_id: u64) -> bool {
    &&& keys_below(nodes, next_id)
    &&& store_ok(nodes, boxes)
    &&& shapes_ok(nodes, boxes)
    &&& forall|i: int| 0 <= i < boxes.len() ==> box_valid(#[trigger] boxes[i])
    &&& forall|i: int|
        0 <= i < boxes.len() ==> bounding_box(boxes).spec_contains_box(#[trigger] boxes[i])
}

/// What a step that adds nodes and returns the last one `r` promises.
pub open spec fn emitted(
    old_nodes: Map<u64, BVHNode>,
    old_next: u64,
    nodes: Map<u64, BVHNode>,
    next: u64,
    boxes: Seq<Box2D>,
    r: (BVHNodeId, Box2D),
) -> bool {
    &&& build_inv(nodes, boxes, next)
    &&& agree_below(old_nodes, nodes, old_next)
    &&& old_next <= r.0.0
    &&& next == r.0.0 + 1
    &&& nodes.dom().contains(r.0.0)
    &&& nodes[r.0.0].rect == r.1
    &&& box_valid(r.1)
}

/// The roots are stored, numbered below `bound`, and listed with their boxes.
pub open spec fn roots_ok(
    nodes: Map<u64, BVHNode>,
    roots: Seq<(BVHNodeId, Box2D)>,
    bound: u64,
) -> bool {
    forall|k: int|
        0 <= k < roots.len() ==> {
            &&& (#[trigger] roots[k]).0.0 < bound
            &&& nodes.dom().contains(roots[k].0.0)
            &&& nodes[roots[k].0.0].rect == roots[k].1
            &&& box_valid(roots[k].1)
        }
}

/// The ids of the listed roots, in order.
pub open spec fn root_ids(roots: Seq<(BVHNodeId, Box2D)>) -> Seq<BVHNodeId> {
    Seq::new(roots.len(), |k: int| roots[k].0)
}

/// Where a box's centroid lies along one axis of the bounding box, as a
/// multiple of 2^-20 of its extent, rounded down; 0 where the bounding box
/// has no extent.
pub open spec fn quantize_axis(lo: int, hi: int, bmin: int, bmax: int) -> int {
    if bmax > bmin {
        ((lo + hi - 2 * bmin) * 0x10_0000) / (2 * (bmax - bmin))
    } else {
        0
    }
}

/// The Morton code of a box's centroid within the bounding box.
pub open spec fn morton_of(b: Box2D, bounding: Box2D) -> u64 {
    spec_morton_encode(
        quantize_axis(
            b.min.x as int,
            b.max.x as int,
            bounding.min.x as int,
            bounding.max.x as int,
        ) as u32,
        quantize_axis(
            b.min.y as int,
            b.max.y as int,
            bounding.min.y as int,
            bounding.max.y as int,
        ) as u32,
    )
}

/// The Morton code of segment `i` within the box around all segments.
pub open spec fn code_of(boxes: Seq<Box2D>, i: int) -> u64 {
    morton_of(boxes[i], bounding_box(boxes))
}

/// Every entry carries the number of a segment and that segment's code.
pub open spec fn codes_match(sorted: Seq<(u64, usize)>, boxes: Seq<Box2D>) -> bool {
    forall|p: int|
        0 <= p < sorted.len() ==> (#[trigger] sorted[p]).1 < boxes.len() && sorted[p].0 == code_of(
            boxes,
            sorted[p].1 as int,
        )
}

/// The entries `start..end` agree on every bit from bit `level` up.
pub open spec fn share_high(sorted: Seq<(u64, usize)>, start: int, end: int, level: u64) -> bool {
    forall|p: int|
        start <= p < end ==> (#[trigger] sorted[p]).0 >> level == sorted[start].0 >> level
}

/// The entries `start..end` lie in one treelet.
pub open spec fn same_treelet(sorted: Seq<(u64, usize)>, start: int, end: int) -> bool {
    forall|p: int|
        start <= p < end ==> (#[trigger] sorted[p]).0 & TREELET_MASK == sorted[start].0
            & TREELET_MASK
}

/// The shape of a node: one with elements holds at least one and at most
/// sixteen segments, or more segments that all have one Morton code, and
/// all its segments lie in one treelet; one with children has at least one.
pub open spec fn node_shape(n: BVHNode, boxes: Seq<Box2D>) -> bool {
    &&& n.elements is Some ==> {
        &&& n.elems().len() >= 1
        &&& n.elems().len() <= MAX_PRIMS_IN_NODE || forall|j: int, k: int|
            0 <= j < n.elems().len() && 0 <= k < n.elems().len() ==> code_of(
                boxes,
                n.elems()[j] as int,
            ) == code_of(boxes, n.elems()[k] as int)
        &&& forall|j: int, k: int|
            0 <= j < n.elems().len() && 0 <= k < n.elems().len() ==> code_of(
                boxes,
                n.elems()[j] as int,
            ) & TREELET_MASK == code_of(boxes, n.elems()[k] as int) & TREELET_MASK
    }
    &&& n.children is Some ==> n.kids().len() >= 1
    &&& boxes.len() > 0 ==> bounding_box(boxes).spec_contains_box(n.rect)
}

/// Every stored node has the shape of a node.
pub open spec fn shapes_ok(nodes: Map<u64, BVHNode>, boxes: Seq<Box2D>) -> bool {
    forall|id: u64| nodes.dom().contains(id) ==> node_shape(#[trigger] nodes[id], boxes)
}

/// The index is that of an entry before `upto`.
pub open spec fn entry_before(sorted: Seq<(u64, usize)>, upto: int, index: usize) -> bool {
    exists|q: int| 0 <= q < upto && (#[trigger] sorted[q]).1 == index
}

/// Every index held by a stored node is that of an entry before `upto`, and
/// no index is held twice.
pub open spec fn held_apart(nodes: Map<u64, BVHNode>, sorted: Seq<(u64, usize)>, upto: int) -> bool {
    &&& forall|id: u64, j: int|
        nodes.dom().contains(id) && 0 <= j < nodes[id].elems().len() ==> entry_before(
            sorted,
            upto,
            #[trigger] held(nodes, id, j),
        )
    &&& held_once(nodes)
}

/// A node without elements changes nothing about what is held.
proof fn lemma_held_plain(
    nodes: Map<u64, BVHNode>,
    sorted: Seq<(u64, usize)>,
    upto: int,
    id: u64,
    node: BVHNode,
)
    requires
        held_apart(nodes, sorted, upto),
        !nodes.dom().contains(id),
        node.elements is None,
    ensures
        held_apart(nodes.insert(id, node), sorted, upto),
{
    let after = nodes.insert(id, node);
    assert(node.elems().len() == 0);
    assert forall|a: u64, j: int|
        after.dom().contains(a) && 0 <= j < after[a].elems().len() implies entry_before(
        sorted,
        upto,
        #[trigger] held(after, a, j),
    ) by {
        assert(a != id);
        assert(held(after, a, j) == held(nodes, a, j));
    }
    assert forall|a: u64, j: int, b: u64, k: int|
        after.dom().contains(a) && 0 <= j < after[a].elems().len() && after.dom().contains(b) && 0
            <= k < after[b].elems().len() && #[trigger] held(after, a, j) == #[trigger] held(
            after,
            b,
            k,
        ) implies a == b && j == k by {
        assert(a != id && b != id);
        assert(held(after, a, j) == held(nodes, a, j));
        assert(held(after, b, k) == held(nodes, b, k));
    }
}

/// A leaf over the next entries holds indices that no node held before.
proof fn lemma_held_leaf(
    nodes: Map<u64, BVHNode>,
    sorted: Seq<(u64, usize)>,
    start: int,
    end: int,
    id: u64,
    node: BVHNode,
)
    requires
        held_apart(nodes, sorted, start),
        !nodes.dom().contains(id),
        0 <= start <= end <= sorted.len(),
        node.elems() == entry_indices(sorted, start, end),
        forall|p: int, q: int|
            0 <= p < sorted.len() && 0 <= q < sorted.len() && p != q ==> (#[trigger] sorted[p]).1 != (
            #[trigger] sorted[q]).1,
    ensures
        held_apart(nodes.insert(id, node), sorted, end),
{
    let after = nodes.insert(id, node);
    assert forall|a: u64, j: int|
        after.dom().contains(a) && 0 <= j < after[a].elems().len() implies entry_before(
        sorted,
        end,
        #[trigger] held(after, a, j),
    ) by {
        if a == id {
            assert(sorted[start + j].1 == held(after, a, j));
        } else {
            assert(held(after, a, j) == held(nodes, a, j));
            assert(entry_before(sorted, start, held(nodes, a, j)));
            let q = choose|q: int| 0 <= q < start && (#[trigger] sorted[q]).1 == held(nodes, a, j);
            assert(0 <= q < end && sorted[q].1 == held(after, a, j));
        }
    }
    assert forall|a: u64, j: int, b: u64, k: int|
        after.dom().contains(a) && 0 <= j < after[a].elems().len() && after.dom().contains(b) && 0
            <= k < after[b].elems().len() && #[trigger] held(after, a, j) == #[trigger] held(
            after,
            b,
            k,
        ) implies a == b && j == k by {
        if a == id && b == id {
            assert(sorted[start + j].1 == held(after, a, j));
            assert(sorted[start + k].1 == held(after, b, k));
        } else if a == id {
            assert(held(after, b, k) == held(nodes, b, k));
            assert(entry_before(sorted, start, held(nodes, b, k)));
            let q = choose|q: int| 0 <= q < start && (#[trigger] sorted[q]).1 == held(nodes, b, k);
            assert(sorted[start + j].1 == held(after, a, j));
        } else if b == id {
            assert(held(after, a, j) == held(nodes, a, j));
            assert(entry_before(sorted, start, held(nodes, a, j)));
            let q = choose|q: int| 0 <= q < start && (#[trigger] sorted[q]).1 == held(nodes, a, j);
            assert(sorted[start + k].1 == held(after, b, k));
        } else {
            assert(held(after, a, j) == held(nodes, a, j));
            assert(held(after, b, k) == held(nodes, b, k));
        }
    }
}

/// The box around the boxes of the entries `start..end`, folded in order.
pub open spec fn range_box(
    sorted: Seq<(u64, usize)>,
    boxes: Seq<Box2D>,
    start: int,
    end: int,
) -> Box2D
    decreases end - start,
{
    if end - start <= 1 {
        boxes[sorted[start].1 as int]
    } else {
        range_box(sorted, boxes, start, end - 1).spec_encase(boxes[sorted[end - 1].1 as int])
    }
}

/// The first entry of `from..end` whose code has another value than
/// `bit_value` under `mask`; `end` if there is none.
pub open spec fn first_other(
    sorted: Seq<(u64, usize)>,
    from: int,
    end: int,
    mask: u64,
    bit_value: u64,
) -> int
    decreases end - from,
{
    if from >= end {
        end
    } else if sorted[from].0 & mask != bit_value {
        from
    } else {
        first_other(sorted, from + 1, end, mask, bit_value)
    }
}

/// Node `id` is the root of the tree over the entries `start..end` that
/// splitting on the bits from `bit` down gives: a leaf that holds the
/// entries in order once there are at most sixteen or no bit is left; no
/// node of its own for a bit on which the first and the last entry agree;
/// otherwise a node with two children, the first over the entries that have
/// the first entry's bit and the second over the others, and with the box
/// around the boxes of the two.
pub open spec fn is_lbvh(
    nodes: Map<u64, BVHNode>,
    id: u64,
    sorted: Seq<(u64, usize)>,
    boxes: Seq<Box2D>,
    start: int,
    end: int,
    bit: int,
) -> bool
    decreases bit + 1,
{
    if bit < 0 || end - start <= MAX_PRIMS_IN_NODE {
        &&& nodes.dom().contains(id)
        &&& nodes[id].children is None
        &&& nodes[id].elements is Some
        &&& nodes[id].elems() == entry_indices(sorted, start, end)
        &&& nodes[id].rect == range_box(sorted, boxes, start, end)
    } else {
        let mask = 1u64 << (bit as u64);
        if sorted[start].0 & mask == sorted[end - 1].0 & mask {
            is_lbvh(nodes, id, sorted, boxes, start, end, bit - 1)
        } else {
            let split = first_other(sorted, start + 1, end, mask, sorted[start].0 & mask);
            &&& nodes.dom().contains(id)
            &&& nodes[id].elements is None
            &&& nodes[id].kids().len() == 2
            &&& nodes[id].kids()[0].0 < id
            &&& nodes[id].kids()[1].0 < id
            &&& is_lbvh(nodes, nodes[id].kids()[0].0, sorted, boxes, start, split, bit - 1)
            &&& is_lbvh(nodes, nodes[id].kids()[1].0, sorted, boxes, split, end, bit - 1)
            &&& nodes[id].rect == nodes[nodes[id].kids()[0].0].rect.spec_encase(
                nodes[nodes[id].kids()[1].0].rect,
            )
        }
    }
}

/// The root of a tree is stored.
pub proof fn lemma_lbvh_stored(
    nodes: Map<u64, BVHNode>,
    id: u64,
    sorted: Seq<(u64, usize)>,
    boxes: Seq<Box2D>,
    start: int,
    end: int,
    bit: int,
)
    requires
        is_lbvh(nodes, id, sorted, boxes, start, end, bit),
    ensures
        nodes.dom().contains(id),
    decreases bit + 1,
{
    if bit < 0 || end - start <= MAX_PRIMS_IN_NODE {
    } else {
        let mask = 1u64 << (bit as u64);
        if sorted[start].0 & mask == sorted[end - 1].0 & mask {
            lemma_lbvh_stored(nodes, id, sorted, boxes, start, end, bit - 1);
        }
    }
}

/// Under a later store that keeps the earlier nodes, the tree is the same.
pub proof fn lemma_lbvh_frame(
    a: Map<u64, BVHNode>,
    b: Map<u64, BVHNode>,
    bound: u64,
    id: u64,
    sorted: Seq<(u64, usize)>,
    boxes: Seq<Box2D>,
    start: int,
    end: int,
    bit: int,
)
    requires
        agree_below(a, b, bound),
        id < bound,
        is_lbvh(a, id, sorted, boxes, start, end, bit),
    ensures
        is_lbvh(b, id, sorted, boxes, start, end, bit),
    decreases bit + 1,
{
    assert(same_at(a, b, id));
    if bit < 0 || end - start <= MAX_PRIMS_IN_NODE {
    } else {
        let mask = 1u64 << (bit as u64);
        if sorted[start].0 & mask == sorted[end - 1].0 & mask {
            lemma_lbvh_frame(a, b, bound, id, sorted, boxes, start, end, bit - 1);
        } else {
            let split = first_other(sorted, start + 1, end, mask, sorted[start].0 & mask);
            let k0 = a[id].kids()[0].0;
            let k1 = a[id].kids()[1].0;
            assert(same_at(a, b, k0));
            assert(same_at(a, b, k1));
            lemma_lbvh_frame(a, b, bound, k0, sorted, boxes, start, split, bit - 1);
            lemma_lbvh_frame(a, b, bound, k1, sorted, boxes, split, end, bit - 1);
            lemma_lbvh_stored(a, k0, sorted, boxes, start, split, bit - 1);
            lemma_lbvh_stored(a, k1, sorted, boxes, split, end, bit - 1);
        }
    }
}

/// Where the entries before `split` have the value and the one at `split`
/// has not, `split` is the first with another value.
proof fn lemma_first_other(
    sorted: Seq<(u64, usize)>,
    from: int,
    split: int,
    end: int,
    mask: u64,
    bit_value: u64,
)
    requires
        from <= split < end,
        forall|p: int| from <= p < split ==> (#[trigger] sorted[p]).0 & mask == bit_value,
        sorted[split].0 & mask != bit_value,
    ensures
        first_other(sorted, from, end, mask, bit_value) == split,
    decreases split - from,
{
    if from < split {
        assert(sorted[from].0 & mask == bit_value);
        lemma_first_other(sorted, from + 1, split, end, mask, bit_value);
    }
}

/// Codes that agree from bit `k` up agree on bit `k`.
proof fn lemma_shift_bit(a: u64, b: u64, k: u64)
    by (bit_vector)
    requires
        k < 64,
        a >> k == b >> k,
    ensures
        a & (1u64 << k) == b & (1u64 << k),
{
}

/// Codes that agree above bit `k` and on bit `k` agree from bit `k` up.
proof fn lemma_shift_join(a: u64, c: u64, k: u64)
    by (bit_vector)
    requires
        k < 63,
        a >> (k + 1) as u64 == c >> (k + 1) as u64,
        a & (1u64 << k) == c & (1u64 << k),
    ensures
        a >> k == c >> k,
{
}

/// A code between two codes that agree from bit `k` up agrees with them.
proof fn lemma_shift_between(a: u64, b: u64, c: u64, k: u64)
    by (bit_vector)
    requires
        k < 64,
        a <= b,
        b <= c,
        a >> k == c >> k,
    ensures
        b >> k == a >> k,
{
}

/// Two codes that differ from a third on one bit agree on that bit.
proof fn lemma_bit_differs(a: u64, b: u64, c: u64, k: u64)
    by (bit_vector)
    requires
        k < 64,
        a & (1u64 << k) != b & (1u64 << k),
        a & (1u64 << k) != c & (1u64 << k),
    ensures
        b & (1u64 << k) == c & (1u64 << k),
{
}

/// Codes of one treelet agree from bit 25 up.
proof fn lemma_treelet_shift(a: u64, b: u64)
    by (bit_vector)
    requires
        a & 0xFFFFFFFFFF000000 == b & 0xFFFFFFFFFF000000,
    ensures
        a >> 25 == b >> 25,
{
}

/// Codes that agree on every bit are equal.
proof fn lemma_shift_zero(a: u64, b: u64)
    by (bit_vector)
    requires
        a >> 0 == b >> 0,
    ensures
        a == b,
{
}

/// The centroid of `rect`, taken as a fraction of the bounding box, lies in
/// `region`, which is given in eighths of the bounding box. Never so where
/// the bounding box has no extent.
pub open spec fn centroid_in(region: Box2D, rect: Box2D, bounding: Box2D) -> bool {
    let dx = 2 * (bounding.max.x - bounding.min.x);
    let dy = 2 * (bounding.max.y - bounding.min.y);
    let nx = rect.min.x + rect.max.x - 2 * bounding.min.x;
    let ny = rect.min.y + rect.max.y - 2 * bounding.min.y;
    &&& dx > 0
    &&& dy > 0
    &&& region.min.x * dx <= 8 * nx <= region.max.x * dx
    &&& region.min.y * dy <= 8 * ny <= region.max.y * dy
}

/// Treelet `k` is the run of entries from cut `k` to cut `k + 1`: they lie in
/// one treelet and the entry after them, if any, in another; and root `k`
/// is the root of the tree over them, listed with its box.
pub open spec fn treelet_at(
    nodes: Map<u64, BVHNode>,
    roots: Seq<(BVHNodeId, Box2D)>,
    cuts: Seq<int>,
    sorted: Seq<(u64, usize)>,
    boxes: Seq<Box2D>,
    k: int,
) -> bool {
    &&& 0 <= cuts[k] < cuts[k + 1] <= sorted.len()
    &&& same_treelet(sorted, cuts[k], cuts[k + 1])
    &&& cuts[k + 1] < sorted.len() ==> sorted[cuts[k + 1]].0 & TREELET_MASK != sorted[cuts[k]].0
        & TREELET_MASK
    &&& is_lbvh(
        nodes,
        roots[k].0.0,
        sorted,
        boxes,
        cuts[k],
        cuts[k + 1],
        TREELET_FIRST_BIT as int,
    )
    &&& roots[k].1 == nodes[roots[k].0.0].rect
}

/// The entries up to `upto` are cut into treelets at `cuts`, and `roots`
/// lists the roots of the treelets' trees in order.
pub open spec fn is_treelets(
    nodes: Map<u64, BVHNode>,
    roots: Seq<(BVHNodeId, Box2D)>,
    cuts: Seq<int>,
    sorted: Seq<(u64, usize)>,
    boxes: Seq<Box2D>,
    upto: int,
) -> bool {
    &&& cuts.len() == roots.len() + 1
    &&& cuts[0] == 0
    &&& cuts.last() == upto
    &&& forall|k: int|
        0 <= k < roots.len() ==> #[trigger] treelet_at(nodes, roots, cuts, sorted, boxes, k)
}

/// The items whose centroid lies in `region`, in order.
pub open spec fn items_inside(
    items: Seq<(BVHNodeId, Box2D)>,
    region: Box2D,
    bounding: Box2D,
) -> Seq<(BVHNodeId, Box2D)>
    decreases items.len(),
{
    if items.len() == 0 {
        Seq::empty()
    } else if centroid_in(region, items.last().1, bounding) {
        items_inside(items.drop_last(), region, bounding).push(items.last())
    } else {
        items_inside(items.drop_last(), region, bounding)
    }
}

/// The items whose centroid does not lie in `region`, in order.
pub open spec fn items_outside(
    items: Seq<(BVHNodeId, Box2D)>,
    region: Box2D,
    bounding: Box2D,
) -> Seq<(BVHNodeId, Box2D)>
    decreases items.len(),
{
    if items.len() == 0 {
        Seq::empty()
    } else if centroid_in(region, items.last().1, bounding) {
        items_outside(items.drop_last(), region, bounding)
    } else {
        items_outside(items.drop_last(), region, bounding).push(items.last())
    }
}

/// The box around the boxes of the items, folded in order.
pub open spec fn fan_box(items: Seq<(BVHNodeId, Box2D)>) -> Box2D
    decreases items.len(),
{
    if items.len() <= 1 {
        items[0].1
    } else {
        fan_box(items.drop_last()).spec_encase(items.last().1)
    }
}

/// The half of `region` towards its `min` corner: the left half when
/// `horizontal`, the lower half otherwise.
pub open spec fn first_half(region: Box2D, horizontal: bool) -> Box2D {
    if horizontal {
        Box2D { min: region.min, max: Vec2 { x: region.spec_centroid().x, y: region.max.y } }
    } else {
        Box2D { min: region.min, max: Vec2 { x: region.max.x, y: region.spec_centroid().y } }
    }
}

/// The half of `region` towards its `max` corner.
pub open spec fn second_half(region: Box2D, horizontal: bool) -> Box2D {
    if horizontal {
        Box2D { min: Vec2 { x: region.spec_centroid().x, y: region.min.y }, max: region.max }
    } else {
        Box2D { min: Vec2 { x: region.min.x, y: region.spec_centroid().y }, max: region.max }
    }
}

/// Node `id` is the root of the split tree over `items`: below depth 0 or
/// with at most two items a node that lists them all, with the box around
/// their boxes, or without children and with the corner `bounding.min` for
/// its box where there is no item; otherwise a node with two children, the
/// first over the items whose centroid lies in the first half of `region`
/// and the second over the others, the halves cut along the other axis from
/// level to level.
pub open spec fn is_split(
    nodes: Map<u64, BVHNode>,
    id: u64,
    depth: int,
    horizontal: bool,
    items: Seq<(BVHNodeId, Box2D)>,
    region: Box2D,
    bounding: Box2D,
) -> bool
    decreases depth + 1,
{
    if depth < 0 || items.len() <= 2 {
        &&& nodes.dom().contains(id)
        &&& nodes[id].elements is None
        &&& nodes[id].kids() == root_ids(items)
        &&& nodes[id].children is Some <==> items.len() > 0
        &&& nodes[id].rect == (if items.len() > 0 {
            fan_box(items)
        } else {
            Box2D { min: bounding.min, max: bounding.min }
        })
    } else {
        let first = first_half(region, horizontal);
        let second = second_half(region, horizontal);
        &&& nodes.dom().contains(id)
        &&& nodes[id].elements is None
        &&& nodes[id].kids().len() == 2
        &&& nodes[id].kids()[0].0 < id
        &&& nodes[id].kids()[1].0 < id
        &&& nodes.dom().contains(nodes[id].kids()[0].0)
        &&& nodes.dom().contains(nodes[id].kids()[1].0)
        &&& is_split(
            nodes,
            nodes[id].kids()[0].0,
            depth - 1,
            !horizontal,
            items_inside(items, first, bounding),
            first,
            bounding,
        )
        &&& is_split(
            nodes,
            nodes[id].kids()[1].0,
            depth - 1,
            !horizontal,
            items_outside(items, first, bounding),
            second,
            bounding,
        )
        &&& nodes[id].rect == nodes[nodes[id].kids()[0].0].rect.spec_encase(
            nodes[nodes[id].kids()[1].0].rect,
        )
    }
}

/// Under a later store that keeps the earlier nodes, the split tree is the
/// same.
pub proof fn lemma_split_frame(
    a: Map<u64, BVHNode>,
    b: Map<u64, BVHNode>,
    bound: u64,
    id: u64,
    depth: int,
    horizontal: bool,
    items: Seq<(BVHNodeId, Box2D)>,
    region: Box2D,
    bounding: Box2D,
)
    requires
        agree_below(a, b, bound),
        id < bound,
        is_split(a, id, depth, horizontal, items, region, bounding),
    ensures
        is_split(b, id, depth, horizontal, items, region, bounding),
    decreases depth + 1,
{
    assert(same_at(a, b, id));
    if depth < 0 || items.len() <= 2 {
    } else {
        let first = first_half(region, horizontal);
        let second = second_half(region, horizontal);
        let k0 = a[id].kids()[0].0;
        let k1 = a[id].kids()[1].0;
        assert(same_at(a, b, k0));
        assert(same_at(a, b, k1));
        lemma_split_frame(
            a,
            b,
            bound,
            k0,
            depth - 1,
            !horizontal,
            items_inside(items, first, bounding),
            first,
            bounding,
        );
        lemma_split_frame(
            a,
            b,
            bound,
            k1,
            depth - 1,
            !horizontal,
            items_outside(items, first, bounding),
            second,
            bounding,
        );
    }
}

/// Under a later store that keeps the earlier nodes, the treelets are the
/// same.
pub proof fn lemma_treelets_frame(
    a: Map<u64, BVHNode>,
    b: Map<u64, BVHNode>,
    bound: u64,
    roots: Seq<(BVHNodeId, Box2D)>,
    cuts: Seq<int>,
    sorted: Seq<(u64, usize)>,
    boxes: Seq<Box2D>,
    upto: int,
)
    requires
        agree_below(a, b, bound),
        roots_ok(a, roots, bound),
        is_treelets(a, roots, cuts, sorted, boxes, upto),
    ensures
        is_treelets(b, roots, cuts, sorted, boxes, upto),
{
    assert forall|k: int| 0 <= k < roots.len() implies #[trigger] treelet_at(
        b,
        roots,
        cuts,
        sorted,
        boxes,
        k,
    ) by {
        assert(treelet_at(a, roots, cuts, sorted, boxes, k));
        assert(same_at(a, b, roots[k].0.0));
        lemma_lbvh_frame(
            a,
            b,
            bound,
            roots[k].0.0,
            sorted,
            boxes,
            cuts[k],
            cuts[k + 1],
            TREELET_FIRST_BIT as int,
        );
    }
}

/// The most nodes a split tree of the given depth adds.
pub open spec fn split_budget(depth: int) -> int
    decreases depth + 1,
{
    if depth < 0 {
        1
    } else {
        2 * split_budget(depth - 1) + 1
    }
}

/// Storing a sound node under the next id keeps the store sound.
proof fn lemma_insert_node(
    nodes: Map<u64, BVHNode>,
    id: u64,
    node: BVHNode,
    boxes: Seq<Box2D>,
)
    requires
        build_inv(nodes, boxes, id),
        id < u64::MAX,
        node_ok(nodes.insert(id, node), id, boxes),
        node_shape(node, boxes),
    ensures
        build_inv(nodes.insert(id, node), boxes, (id + 1) as u64),
        agree_below(nodes, nodes.insert(id, node), id),
{
    let after = nodes.insert(id, node);
    assert forall|k: u64| k < id implies #[trigger] same_at(nodes, after, k) by {}
    assert forall|k: u64| after.dom().contains(k) implies node_ok(after, k, boxes) by {
        if k != id {
            assert(node_ok(nodes, k, boxes));
            assert(after[k] == nodes[k]);
        }
    }
}

/// The place of the centroid of `lo..hi` within `bmin..bmax` in steps of
/// 2^-20 of the extent.
fn quantize(lo: i32, hi: i32, bmin: i32, bmax: i32) -> (q: u32)
    requires
        bmin <= lo <= hi <= bmax,
    ensures
        q == quantize_axis(lo as int, hi as int, bmin as int, bmax as int),
        q <= 0x10_0000,
{
    if bmax <= bmin {
        return 0;
    }
    let n: i64 = lo as i64 + hi as i64 - 2 * (bmin as i64);
    let d: i64 = 2 * (bmax as i64 - bmin as i64);
    let scaled: i64 = n * 0x10_0000;
    let q: i64 = scaled / d;
    assert(0 <= q <= 0x10_0000) by (nonlinear_arith)
        requires
            0 <= n <= d,
            d > 0,
            scaled == n * 0x10_0000,
            q == scaled / d,
    ;
    q as u32
}

/// The Morton code of `b` within `bounding`.
pub fn morton_code(b: &Box2D, bounding: &Box2D) -> (r: u64)
    requires
        box_valid(*b),
        bounding.spec_contains_box(*b),
    ensures
        r == morton_of(*b, *bounding),
{
    let qx = quantize(b.min.x, b.max.x, bounding.min.x, bounding.max.x);
    let qy = quantize(b.min.y, b.max.y, bounding.min.y, bounding.max.y);
    morton_encode(qx, qy)
}

/// The box of every segment, and the box around them all.
pub(crate) fn compute_boxes(segments: &Vec<LineSegment>) -> (r: (Vec<Box2D>, Box2D))
    requires
        segments.len() > 0,
    ensures
        r.0@ == crate::bvh::segment_boxes(segments@),
        r.1 == bounding_box(r.0@),
        box_valid(r.1),
        forall|i: int| 0 <= i < r.0.len() ==> box_valid(#[trigger] r.0[i]),
        forall|i: int| 0 <= i < r.0.len() ==> r.1.spec_contains_box(#[trigger] r.0[i]),
{
    let mut boxes: Vec<Box2D> = Vec::new();
    let first = segments[0].get_box();
    boxes.push(first);
    let mut bounding = first;
    let mut i: usize = 1;
    while i < segments.len()
        invariant
            1 <= i <= segments.len(),
            boxes.len() == i,
            forall|k: int| 0 <= k < i ==> #[trigger] boxes[k] == segments[k].spec_get_box(),
            bounding == bounding_box(boxes@),
            box_valid(bounding),
            forall|k: int| 0 <= k < i ==> bounding.spec_contains_box(#[trigger] boxes[k]),
        decreases segments.len() - i,
    {
        let bx = segments[i].get_box();
        let ghost before = boxes@;
        boxes.push(bx);
        bounding = bounding.encase(&bx);
        proof {
            assert(boxes@.drop_last() =~= before);
            assert(boxes@.last() == bx);
        }
        i += 1;
    }
    proof {
        assert(boxes@ =~= crate::bvh::segment_boxes(segments@));
    }
    (boxes, bounding)
}

/// The list `(code of box i, i)`.
pub(crate) fn compute_codes(boxes: &Vec<Box2D>, bounding: &Box2D) -> (codes: Vec<(u64, usize)>)
    requires
        forall|i: int| 0 <= i < boxes.len() ==> box_valid(#[trigger] boxes[i]),
        forall|i: int| 0 <= i < boxes.len() ==> bounding.spec_contains_box(#[trigger] boxes[i]),
    ensures
        codes.len() == boxes.len(),
        forall|i: int|
            0 <= i < boxes.len() ==> #[trigger] codes[i] == (morton_of(boxes[i], *bounding), i as usize),
{
    let mut codes: Vec<(u64, usize)> = Vec::new();
    let mut i: usize = 0;
    while i < boxes.len()
        invariant
            i <= boxes.len(),
            codes.len() == i,
            forall|k: int| 0 <= k < boxes.len() ==> box_valid(#[trigger] boxes[k]),
            forall|k: int| 0 <= k < boxes.len() ==> bounding.spec_contains_box(#[trigger] boxes[k]),
            forall|k: int|
                0 <= k < i ==> #[trigger] codes[k] == (morton_of(boxes[k], *bounding), k as usize),
        decreases boxes.len() - i,
    {
        let code = morton_code(&boxes[i], bounding);
        codes.push((code, i));
        i += 1;
    }
    codes
}

/// A leaf over the entries `start..end`.
fn emit_leaf(
    start: usize,
    end: usize,
    sorted: &Vec<(u64, usize)>,
    boxes: &Vec<Box2D>,
    next_id: &mut u64,
    store: &mut NodeStore,
) -> (r: (BVHNodeId, Box2D))
    requires
        start < end <= sorted.len(),
        forall|i: int| 0 <= i < sorted.len() ==> (#[trigger] sorted[i]).1 < boxes.len(),
        build_inv(store_nodes(*old(store)), boxes@, *old(next_id)),
        *old(next_id) < u64::MAX,
        codes_match(sorted@, boxes@),
        same_treelet(sorted@, start as int, end as int),
        end - start <= MAX_PRIMS_IN_NODE || forall|p: int|
            start <= p < end ==> (#[trigger] sorted[p]).0 == sorted[start as int].0,
        held_apart(store_nodes(*old(store)), sorted@, start as int),
        forall|p: int, q: int|
            0 <= p < sorted.len() && 0 <= q < sorted.len() && p != q ==> (#[trigger] sorted[p]).1 != (
            #[trigger] sorted[q]).1,
    ensures
        held_apart(store_nodes(*final(store)), sorted@, end as int),
        emitted(
            store_nodes(*old(store)),
            *old(next_id),
            store_nodes(*final(store)),
            *final(next_id),
            boxes@,
            r,
        ),
        *final(next_id) == *old(next_id) + 1,
        subtree_elems(store_nodes(*final(store)), r.0.0) == entry_indices(
            sorted@,
            start as int,
            end as int,
        ).to_multiset(),
        store_nodes(*final(store))[r.0.0].children is None,
        store_nodes(*final(store))[r.0.0].elements is Some,
        store_nodes(*final(store))[r.0.0].elems() == entry_indices(
            sorted@,
            start as int,
            end as int,
        ),
        r.1 == range_box(sorted@, boxes@, start as int, end as int),
{
    let mut elems: Vec<usize> = Vec::new();
    let first = sorted[start].1;
    let mut rect = boxes[first];
    elems.push(first);
    let mut j: usize = start + 1;
    while j < end
        invariant
            start < j <= end <= sorted.len(),
            elems@ == entry_indices(sorted@, start as int, j as int),
            box_valid(rect),
            rect == range_box(sorted@, boxes@, start as int, j as int),
            bounding_box(boxes@).spec_contains_box(rect),
            forall|k: int|
                0 <= k < elems.len() ==> (#[trigger] elems[k]) < boxes.len()
                    && rect.spec_contains_box(boxes[elems[k] as int]),
            forall|i: int| 0 <= i < sorted.len() ==> (#[trigger] sorted[i]).1 < boxes.len(),
            forall|i: int| 0 <= i < boxes.len() ==> box_valid(#[trigger] boxes[i]),
            forall|i: int|
                0 <= i < boxes.len() ==> bounding_box(boxes@).spec_contains_box(
                    #[trigger] boxes[i],
                ),
        decreases end - j,
    {
        let idx = sorted[j].1;
        rect = rect.encase(&boxes[idx]);
        elems.push(idx);
        j += 1;
        proof {
            assert(elems@ =~= entry_indices(sorted@, start as int, j as int));
        }
    }
    let id = *next_id;
    *next_id = id + 1;
    let ghost listed = elems@;
    let node = BVHNode { children: None, rect, elements: Some(ElementList::from_vec(elems)) };
    let ghost before = store_nodes(*store);
    store_insert(store, id, node);
    proof {
        let after = store_nodes(*store);
        assert(after[id].elems() == listed);
        assert(after[id].kids() =~= Seq::<BVHNodeId>::empty());
        assert(node_ok(after, id, boxes@));
        assert(node_shape(node, boxes@)) by {
            assert(node.elems() == listed);
            assert forall|j: int| 0 <= j < listed.len() implies listed[j] == sorted@[start + j].1
                && code_of(boxes@, listed[j] as int) == (#[trigger] sorted@[start + j]).0 by {}
            assert forall|j: int, k: int|
                0 <= j < listed.len() && 0 <= k < listed.len() implies code_of(
                boxes@,
                listed[j] as int,
            ) & TREELET_MASK == code_of(boxes@, listed[k] as int) & TREELET_MASK by {
                assert(code_of(boxes@, listed[j] as int) == sorted@[start + j].0);
                assert(code_of(boxes@, listed[k] as int) == sorted@[start + k].0);
            }
            if listed.len() > MAX_PRIMS_IN_NODE {
                assert forall|j: int, k: int|
                    0 <= j < listed.len() && 0 <= k < listed.len() implies code_of(
                    boxes@,
                    listed[j] as int,
                ) == code_of(boxes@, listed[k] as int) by {
                    assert(code_of(boxes@, listed[j] as int) == sorted@[start + j].0);
                    assert(code_of(boxes@, listed[k] as int) == sorted@[start + k].0);
                }
            }
        }
        lemma_insert_node(before, id, node, boxes@);
        lemma_held_leaf(before, sorted@, start as int, end as int, id, node);
        assert(subtree_elems(after, id) =~= listed.to_multiset());
    }
    (BVHNodeId(id), rect)
}

/// An interior node over two children that were just emitted.
fn emit_pair(
    c1: (BVHNodeId, Box2D),
    c2: (BVHNodeId, Box2D),
    Ghost(boxes): Ghost<Seq<Box2D>>,
    Ghost(sorted): Ghost<Seq<(u64, usize)>>,
    Ghost(upto): Ghost<int>,
    next_id: &mut u64,
    store: &mut NodeStore,
) -> (r: (BVHNodeId, Box2D))
    requires
        held_apart(store_nodes(*old(store)), sorted, upto),
        build_inv(store_nodes(*old(store)), boxes, *old(next_id)),
        *old(next_id) < u64::MAX,
        c1.0.0 < *old(next_id),
        c2.0.0 < *old(next_id),
        store_nodes(*old(store)).dom().contains(c1.0.0),
        store_nodes(*old(store)).dom().contains(c2.0.0),
        store_nodes(*old(store))[c1.0.0].rect == c1.1,
        store_nodes(*old(store))[c2.0.0].rect == c2.1,
        box_valid(c1.1),
        box_valid(c2.1),
    ensures
        emitted(
            store_nodes(*old(store)),
            *old(next_id),
            store_nodes(*final(store)),
            *final(next_id),
            boxes,
            r,
        ),
        *final(next_id) == *old(next_id) + 1,
        held_apart(store_nodes(*final(store)), sorted, upto),
        r.1 == c1.1.spec_encase(c2.1),
        store_nodes(*final(store))[r.0.0].elements is None,
        store_nodes(*final(store))[r.0.0].kids() == seq![c1.0, c2.0],
        subtree_elems(store_nodes(*final(store)), r.0.0) == subtree_elems(
            store_nodes(*old(store)),
            c1.0.0,
        ).add(subtree_elems(store_nodes(*old(store)), c2.0.0)),
{
    let rect = c1.1.encase(&c2.1);
    let id = *next_id;
    *next_id = id + 1;
    let mut kids: Vec<BVHNodeId> = Vec::new();
    kids.push(c1.0);
    kids.push(c2.0);
    let ghost listed = kids@;
    let node = BVHNode { children: Some(ChildList::from_vec(kids)), rect, elements: None };
    let ghost before = store_nodes(*store);
    store_insert(store, id, node);
    proof {
        let after = store_nodes(*store);
        assert(after[id].kids() == listed);
        assert(after[id].elems() =~= Seq::<usize>::empty());
        assert(node_ok(after, id, boxes));
        lemma_insert_node(before, id, node, boxes);
        lemma_held_plain(before, sorted, upto, id, node);
        lemma_subtree_frame(before, after, id, c1.0.0);
        lemma_subtree_frame(before, after, id, c2.0.0);
        let none = Seq::<BVHNodeId>::empty();
        assert(listed =~= none.push(c1.0).push(c2.0));
        lemma_kids_push(after, none.push(c1.0), c2.0, id);
        lemma_kids_push(after, none, c1.0, id);
        assert(kids_elems(after, none, id) =~= Multiset::<usize>::empty());
        Seq::<usize>::empty().to_multiset_ensures();
        assert(after[id].elems().to_multiset() =~= Multiset::<usize>::empty());
        assert(subtree_elems(after, id) =~= subtree_elems(before, c1.0.0).add(
            subtree_elems(before, c2.0.0),
        ));
    }
    (BVHNodeId(id), rect)
}

/// The tree over the entries `start..end` of one treelet, split on the bits
/// from `bit` down: a leaf once at most sixteen entries or no bit is left.
fn emit_lbvh(
    bit: i8,
    start: usize,
    end: usize,
    sorted: &Vec<(u64, usize)>,
    boxes: &Vec<Box2D>,
    next_id: &mut u64,
    store: &mut NodeStore,
) -> (r: (BVHNodeId, Box2D))
    requires
        -1 <= bit <= 24,
        start < end <= sorted.len(),
        forall|i: int| 0 <= i < sorted.len() ==> (#[trigger] sorted[i]).1 < boxes.len(),
        build_inv(store_nodes(*old(store)), boxes@, *old(next_id)),
        *old(next_id) + 2 * (end - start) - 1 <= u64::MAX,
        sorted_by_code(sorted@),
        codes_match(sorted@, boxes@),
        same_treelet(sorted@, start as int, end as int),
        share_high(sorted@, start as int, end as int, (bit + 1) as u64),
        held_apart(store_nodes(*old(store)), sorted@, start as int),
        forall|p: int, q: int|
            0 <= p < sorted.len() && 0 <= q < sorted.len() && p != q ==> (#[trigger] sorted[p]).1 != (
            #[trigger] sorted[q]).1,
    ensures
        held_apart(store_nodes(*final(store)), sorted@, end as int),
        emitted(
            store_nodes(*old(store)),
            *old(next_id),
            store_nodes(*final(store)),
            *final(next_id),
            boxes@,
            r,
        ),
        *final(next_id) <= *old(next_id) + 2 * (end - start) - 1,
        subtree_elems(store_nodes(*final(store)), r.0.0) == entry_indices(
            sorted@,
            start as int,
            end as int,
        ).to_multiset(),
        is_lbvh(
            store_nodes(*final(store)),
            r.0.0,
            sorted@,
            boxes@,
            start as int,
            end as int,
            bit as int,
        ),
    decreases bit + 1,
{
    if bit < 0 || end - start <= MAX_PRIMS_IN_NODE {
        proof {
            if bit < 0 {
                assert forall|p: int| start <= p < end implies (#[trigger] sorted[p]).0
                    == sorted[start as int].0 by {
                    lemma_shift_zero(sorted[p].0, sorted[start as int].0);
                }
            }
        }
        return emit_leaf(start, end, sorted, boxes, next_id, store);
    }
    let mask: u64 = 1u64 << (bit as u64);
    let first_bit = sorted[start].0 & mask;
    let ghost level = bit as u64;
    let ghost first = sorted[start as int].0;
    let ghost last = sorted[end - 1].0;
    if first_bit == (sorted[end - 1].0 & mask) {
        proof {
            lemma_shift_join(first, last, level);
            assert forall|p: int| start <= p < end implies (#[trigger] sorted[p]).0 >> level
                == sorted[start as int].0 >> level by {
                lemma_shift_between(first, sorted[p].0, last, level);
            }
        }
        return emit_lbvh(bit - 1, start, end, sorted, boxes, next_id, store);
    }
    // The entries are in code order and agree above this bit, so those with the first
    // entry's bit come first: the boundary is found by bisection.
    let mut low: usize = start;
    let mut split: usize = end - 1;
    while split - low > 1
        invariant
            start <= low < split < end <= sorted.len(),
            mask == 1u64 << level,
            first_bit == sorted[start as int].0 & mask,
            (sorted[low as int].0 & mask) == first_bit,
            (sorted[split as int].0 & mask) != first_bit,
        decreases split - low,
    {
        let middle = low + (split - low) / 2;
        if (sorted[middle].0 & mask) == first_bit {
            low = middle;
        } else {
            split = middle;
        }
    }
    proof {
        let edge = sorted[low as int].0;
        let pivot = sorted[split as int].0;
        lemma_shift_join(first, edge, level);
        assert forall|p: int| start <= p < split implies (#[trigger] sorted[p]).0 >> level
            == sorted[start as int].0 >> level by {
            lemma_shift_between(first, sorted[p].0, edge, level);
        }
        lemma_bit_differs(first, pivot, last, level);
        assert(pivot >> (level + 1) as u64 == first >> (level + 1) as u64);
        assert(last >> (level + 1) as u64 == first >> (level + 1) as u64);
        lemma_shift_join(pivot, last, level);
        assert forall|p: int| split <= p < end implies (#[trigger] sorted[p]).0 >> level
            == sorted[split as int].0 >> level by {
            lemma_shift_between(pivot, sorted[p].0, last, level);
        }
        assert forall|p: int| split <= p < end implies (#[trigger] sorted[p]).0 & TREELET_MASK
            == sorted[split as int].0 & TREELET_MASK by {}
        assert forall|p: int| start + 1 <= p < split implies (#[trigger] sorted[p]).0 & mask
            == first_bit by {
            lemma_shift_bit(sorted[p].0, first, level);
        }
        lemma_first_other(sorted@, start + 1, split as int, end as int, mask, first_bit);
    }
    let ghost nodes0 = store_nodes(*store);
    let ghost next0 = *next_id;
    let c1 = emit_lbvh(bit - 1, start, split, sorted, boxes, next_id, store);
    let ghost nodes1 = store_nodes(*store);
    let ghost next1 = *next_id;
    let c2 = emit_lbvh(bit - 1, split, end, sorted, boxes, next_id, store);
    let ghost nodes2 = store_nodes(*store);
    let ghost next2 = *next_id;
    proof {
        lemma_subtree_frame(nodes1, nodes2, next1, c1.0.0);
        assert(same_at(nodes1, nodes2, c1.0.0));
        lemma_agree_trans(nodes0, nodes1, nodes2, next0, next1);
    }
    let r = emit_pair(c1, c2, Ghost(boxes@), Ghost(sorted@), Ghost(end as int), next_id, store);
    proof {
        let nodes3 = store_nodes(*store);
        lemma_agree_trans(nodes1, nodes2, nodes3, next1, next2);
        lemma_lbvh_frame(
            nodes1,
            nodes3,
            next1,
            c1.0.0,
            sorted@,
            boxes@,
            start as int,
            split as int,
            bit - 1,
        );
        lemma_lbvh_frame(
            nodes2,
            nodes3,
            next2,
            c2.0.0,
            sorted@,
            boxes@,
            split as int,
            end as int,
            bit - 1,
        );
        assert(same_at(nodes2, nodes3, c1.0.0));
        assert(same_at(nodes2, nodes3, c2.0.0));
        assert(nodes3[r.0.0].kids()[0] == c1.0 && nodes3[r.0.0].kids()[1] == c2.0);
        lemma_agree_trans(nodes0, nodes2, store_nodes(*store), next0, next2);
        let a = entry_indices(sorted@, start as int, split as int);
        let b = entry_indices(sorted@, split as int, end as int);
        assert(a + b =~= entry_indices(sorted@, start as int, end as int));
        vstd::seq_lib::lemma_multiset_commutative(a, b);
    }
    r
}

/// One tree per treelet, a treelet being a maximal run of entries whose
/// codes agree under `TREELET_MASK`.
pub(crate) fn build_treelets(
    sorted: &Vec<(u64, usize)>,
    boxes: &Vec<Box2D>,
    next_id: &mut u64,
    store: &mut NodeStore,
) -> (r: (Vec<(BVHNodeId, Box2D)>, Ghost<Seq<int>>))
    requires
        forall|i: int| 0 <= i < sorted.len() ==> (#[trigger] sorted[i]).1 < boxes.len(),
        build_inv(store_nodes(*old(store)), boxes@, *old(next_id)),
        *old(next_id) + 2 * sorted.len() <= u64::MAX,
        sorted_by_code(sorted@),
        codes_match(sorted@, boxes@),
        held_apart(store_nodes(*old(store)), sorted@, 0),
        forall|p: int, q: int|
            0 <= p < sorted.len() && 0 <= q < sorted.len() && p != q ==> (#[trigger] sorted[p]).1 != (
            #[trigger] sorted[q]).1,
    ensures
        held_apart(store_nodes(*final(store)), sorted@, sorted.len() as int),
        build_inv(store_nodes(*final(store)), boxes@, *final(next_id)),
        agree_below(store_nodes(*old(store)), store_nodes(*final(store)), *old(next_id)),
        *old(next_id) <= *final(next_id) <= *old(next_id) + 2 * sorted.len(),
        roots_ok(store_nodes(*final(store)), r.0@, *final(next_id)),
        kids_elems(store_nodes(*final(store)), root_ids(r.0@), *final(next_id)) == entry_indices(
            sorted@,
            0,
            sorted.len() as int,
        ).to_multiset(),
        is_treelets(
            store_nodes(*final(store)),
            r.0@,
            r.1@,
            sorted@,
            boxes@,
            sorted.len() as int,
        ),
{
    let n = sorted.len();
    let mut roots: Vec<(BVHNodeId, Box2D)> = Vec::new();
    let mut start: usize = 0;
    let ghost mut cuts: Seq<int> = seq![0int];
    proof {
        assert(entry_indices(sorted@, 0, 0) =~= Seq::<usize>::empty());
        Seq::<usize>::empty().to_multiset_ensures();
        assert(entry_indices(sorted@, 0, 0).to_multiset() =~= Multiset::<usize>::empty());
        assert(root_ids(roots@) =~= Seq::<BVHNodeId>::empty());
    }
    while start < n
        invariant
            n == sorted.len(),
            start <= n,
            forall|i: int| 0 <= i < sorted.len() ==> (#[trigger] sorted[i]).1 < boxes.len(),
            sorted_by_code(sorted@),
            codes_match(sorted@, boxes@),
            held_apart(store_nodes(*store), sorted@, start as int),
            forall|p: int, q: int|
                    0 <= p < sorted.len() && 0 <= q < sorted.len() && p != q ==> (#[trigger] sorted[p]).1 != (
                    #[trigger] sorted[q]).1,
            build_inv(store_nodes(*store), boxes@, *next_id),
            agree_below(store_nodes(*old(store)), store_nodes(*store), *old(next_id)),
            *old(next_id) <= *next_id <= *old(next_id) + 2 * start,
            *old(next_id) + 2 * sorted.len() <= u64::MAX,
            roots_ok(store_nodes(*store), roots@, *next_id),
            kids_elems(store_nodes(*store), root_ids(roots@), *next_id) == entry_indices(
                sorted@,
                0,
                start as int,
            ).to_multiset(),
            is_treelets(store_nodes(*store), roots@, cuts, sorted@, boxes@, start as int),
        decreases n - start,
    {
        let mut end: usize = start + 1;
        while end < n && (sorted[start].0 & TREELET_MASK) == (sorted[end].0 & TREELET_MASK)
            invariant
                start < end <= n,
                n == sorted.len(),
                same_treelet(sorted@, start as int, end as int),
            decreases n - end,
        {
            end += 1;
        }
        proof {
            assert(TREELET_MASK == 0xFFFFFFFFFF000000);
            assert forall|p: int| start <= p < end implies (#[trigger] sorted[p]).0 >> 25
                == sorted[start as int].0 >> 25 by {
                lemma_treelet_shift(sorted[p].0, sorted[start as int].0);
            }
        }
        let ghost nodes0 = store_nodes(*store);
        let ghost next0 = *next_id;
        let ghost ids0 = root_ids(roots@);
        let ghost roots0 = roots@;
        let ghost cuts0 = cuts;
        let root = emit_lbvh(TREELET_FIRST_BIT, start, end, sorted, boxes, next_id, store);
        roots.push(root);
        proof {
            let nodes1 = store_nodes(*store);
            let next1 = *next_id;
            cuts = cuts0.push(end as int);
            lemma_treelets_frame(nodes0, nodes1, next0, roots0, cuts0, sorted@, boxes@, start as int);
            assert forall|k: int| 0 <= k < roots@.len() implies #[trigger] treelet_at(
                nodes1,
                roots@,
                cuts,
                sorted@,
                boxes@,
                k,
            ) by {
                if k < roots0.len() {
                    assert(treelet_at(nodes1, roots0, cuts0, sorted@, boxes@, k));
                    assert(roots@[k] == roots0[k]);
                    assert(cuts[k] == cuts0[k] && cuts[k + 1] == cuts0[k + 1]);
                } else {
                    assert(roots@[k] == root);
                    assert(cuts[k] == start as int && cuts[k + 1] == end as int);
                }
            }
            lemma_agree_trans(store_nodes(*old(store)), nodes0, nodes1, *old(next_id), next0);
            assert(root_ids(roots@) =~= ids0.push(root.0));
            lemma_kids_frame(nodes0, nodes1, next0, next1, ids0);
            lemma_kids_push(nodes1, ids0, root.0, next1);
            let a = entry_indices(sorted@, 0, start as int);
            let b = entry_indices(sorted@, start as int, end as int);
            assert(a + b =~= entry_indices(sorted@, 0, end as int));
            vstd::seq_lib::lemma_multiset_commutative(a, b);
            assert forall|k: int| 0 <= k < roots@.len() implies {
                &&& (#[trigger] roots@[k]).0.0 < next1
                &&& nodes1.dom().contains(roots@[k].0.0)
                &&& nodes1[roots@[k].0.0].rect == roots@[k].1
                &&& box_valid(roots@[k].1)
            } by {
                if k < ids0.len() {
                    assert(roots@[k].0 == ids0[k]);
                    assert(same_at(nodes0, nodes1, roots@[k].0.0));
                }
            }
        }
        start = end;
    }
    (roots, Ghost(cuts))
}

/// A node that lists all of `items` as its children; without items, a node
/// without children whose box is `empty_rect`.
fn emit_fan(
    items: &Vec<(BVHNodeId, Box2D)>,
    empty_rect: Box2D,
    Ghost(boxes): Ghost<Seq<Box2D>>,
    Ghost(sorted): Ghost<Seq<(u64, usize)>>,
    next_id: &mut u64,
    store: &mut NodeStore,
) -> (r: (BVHNodeId, Box2D))
    requires
        held_apart(store_nodes(*old(store)), sorted, sorted.len() as int),
        roots_ok(store_nodes(*old(store)), items@, *old(next_id)),
        build_inv(store_nodes(*old(store)), boxes, *old(next_id)),
        *old(next_id) < u64::MAX,
        box_valid(empty_rect),
        boxes.len() > 0 ==> bounding_box(boxes).spec_contains_box(empty_rect),
    ensures
        emitted(
            store_nodes(*old(store)),
            *old(next_id),
            store_nodes(*final(store)),
            *final(next_id),
            boxes,
            r,
        ),
        *final(next_id) == *old(next_id) + 1,
        subtree_elems(store_nodes(*final(store)), r.0.0) == kids_elems(
            store_nodes(*old(store)),
            root_ids(items@),
            *old(next_id),
        ),
        held_apart(store_nodes(*final(store)), sorted, sorted.len() as int),
        store_nodes(*final(store))[r.0.0].elements is None,
        store_nodes(*final(store))[r.0.0].kids() == root_ids(items@),
        store_nodes(*final(store))[r.0.0].children is Some <==> items@.len() > 0,
        r.1 == (if items@.len() > 0 {
            fan_box(items@)
        } else {
            empty_rect
        }),
{
    let mut ids: Vec<BVHNodeId> = Vec::new();
    let mut rect = empty_rect;
    let mut j: usize = 0;
    while j < items.len()
        invariant
            j <= items.len(),
            ids@ == root_ids(items@).subrange(0, j as int),
            box_valid(rect),
            rect == (if j > 0 {
                fan_box(items@.subrange(0, j as int))
            } else {
                empty_rect
            }),
            boxes.len() > 0 ==> bounding_box(boxes).spec_contains_box(rect),
            forall|k: int| 0 <= k < j ==> rect.spec_contains_box((#[trigger] items[k]).1),
            roots_ok(store_nodes(*store), items@, *next_id),
            shapes_ok(store_nodes(*store), boxes),
        decreases items.len() - j,
    {
        proof {
            assert(node_shape(store_nodes(*store)[items@[j as int].0.0], boxes));
        }
        rect =
        if j == 0 {
            items[0].1
        } else {
            rect.encase(&items[j].1)
        };
        ids.push(items[j].0);
        j += 1;
        proof {
            assert(ids@ =~= root_ids(items@).subrange(0, j as int));
            let upto = items@.subrange(0, j as int);
            assert(upto.drop_last() =~= items@.subrange(0, j - 1));
            assert(upto.last() == items@[j - 1]);
        }
    }
    let ghost listed = ids@;
    proof {
        assert(listed =~= root_ids(items@));
        assert(items@.subrange(0, items@.len() as int) =~= items@);
    }
    let children = if ids.len() > 0 {
        Some(ChildList::from_vec(ids))
    } else {
        None
    };
    let id = *next_id;
    *next_id = id + 1;
    let node = BVHNode { children, rect, elements: None };
    let ghost before = store_nodes(*store);
    store_insert(store, id, node);
    proof {
        let after = store_nodes(*store);
        assert(after[id].kids() =~= listed);
        assert(after[id].elems() =~= Seq::<usize>::empty());
        assert forall|k: int| 0 <= k < listed.len() implies {
            &&& (#[trigger] listed[k]).0 < id
            &&& after.dom().contains(listed[k].0)
            &&& rect.spec_contains_box(after[listed[k].0].rect)
        } by {
            assert(listed[k] == items@[k].0);
        }
        assert(node_ok(after, id, boxes));
        lemma_insert_node(before, id, node, boxes);
        lemma_held_plain(before, sorted, sorted.len() as int, id, node);
        lemma_kids_frame(before, after, id, id, listed);
        Seq::<usize>::empty().to_multiset_ensures();
        assert(after[id].elems().to_multiset() =~= Multiset::<usize>::empty());
        assert(subtree_elems(after, id) =~= kids_elems(before, listed, id));
    }
    (BVHNodeId(id), rect)
}

/// Whether the centroid of `rect` lies in `region`.
fn in_region(region: &Box2D, rect: &Box2D, bounding: &Box2D) -> (r: bool)
    ensures
        r == centroid_in(*region, *rect, *bounding),
{
    let dx: i64 = 2 * (bounding.max.x as i64 - bounding.min.x as i64);
    let dy: i64 = 2 * (bounding.max.y as i64 - bounding.min.y as i64);
    if dx <= 0 || dy <= 0 {
        return false;
    }
    let nx: i64 = rect.min.x as i64 + rect.max.x as i64 - 2 * (bounding.min.x as i64);
    let ny: i64 = rect.min.y as i64 + rect.max.y as i64 - 2 * (bounding.min.y as i64);
    let nx8: i128 = 8 * (nx as i128);
    let ny8: i128 = 8 * (ny as i128);
    mul_i64(region.min.x as i64, dx) <= nx8 && nx8 <= mul_i64(region.max.x as i64, dx) && mul_i64(
        region.min.y as i64,
        dy,
    ) <= ny8 && ny8 <= mul_i64(region.max.y as i64, dy)
}

/// The items whose centroid lies in `region`, in order, and the others, in
/// order.
fn partition_items(items: Vec<(BVHNodeId, Box2D)>, region: &Box2D, bounding: &Box2D) -> (r: (
    Vec<(BVHNodeId, Box2D)>,
    Vec<(BVHNodeId, Box2D)>,
))
    ensures
        r.0@ == items_inside(items@, *region, *bounding),
        r.1@ == items_outside(items@, *region, *bounding),
{
    let mut first: Vec<(BVHNodeId, Box2D)> = Vec::new();
    let mut second: Vec<(BVHNodeId, Box2D)> = Vec::new();
    let mut j: usize = 0;
    proof {
        assert(items@.subrange(0, 0) =~= Seq::<(BVHNodeId, Box2D)>::empty());
    }
    while j < items.len()
        invariant
            j <= items.len(),
            first@ == items_inside(items@.subrange(0, j as int), *region, *bounding),
            second@ == items_outside(items@.subrange(0, j as int), *region, *bounding),
        decreases items.len() - j,
    {
        let item = items[j];
        proof {
            let next = items@.subrange(0, j + 1);
            assert(next.drop_last() =~= items@.subrange(0, j as int));
            assert(next.last() == item);
        }
        if in_region(region, &item.1, bounding) {
            first.push(item);
        } else {
            second.push(item);
        }
        j += 1;
    }
    proof {
        assert(items@.subrange(0, items.len() as int) =~= items@);
    }
    (first, second)
}

/// Splitting a list of roots in two keeps what lies below them.
proof fn lemma_partition_kids(
    nodes: Map<u64, BVHNode>,
    items: Seq<(BVHNodeId, Box2D)>,
    region: Box2D,
    bounding: Box2D,
    bound: u64,
)
    requires
        roots_ok(nodes, items, bound),
    ensures
        roots_ok(nodes, items_inside(items, region, bounding), bound),
        roots_ok(nodes, items_outside(items, region, bounding), bound),
        kids_elems(nodes, root_ids(items), bound) == kids_elems(
            nodes,
            root_ids(items_inside(items, region, bounding)),
            bound,
        ).add(kids_elems(nodes, root_ids(items_outside(items, region, bounding)), bound)),
    decreases items.len(),
{
    if items.len() == 0 {
        assert(root_ids(items) =~= Seq::<BVHNodeId>::empty());
        assert(kids_elems(nodes, root_ids(items), bound) =~= Multiset::<usize>::empty().add(
            Multiset::<usize>::empty(),
        ));
    } else {
        let rest = items.drop_last();
        let last = items.last();
        assert(roots_ok(nodes, rest, bound)) by {
            assert forall|k: int| 0 <= k < rest.len() implies (#[trigger] rest[k]) == items[k] by {}
        }
        lemma_partition_kids(nodes, rest, region, bounding, bound);
        assert(root_ids(items) =~= root_ids(rest).push(last.0));
        lemma_kids_push(nodes, root_ids(rest), last.0, bound);
        let a = items_inside(rest, region, bounding);
        let b = items_outside(rest, region, bounding);
        if centroid_in(region, last.1, bounding) {
            assert(root_ids(a.push(last)) =~= root_ids(a).push(last.0));
            lemma_kids_push(nodes, root_ids(a), last.0, bound);
        } else {
            assert(root_ids(b.push(last)) =~= root_ids(b).push(last.0));
            lemma_kids_push(nodes, root_ids(b), last.0, bound);
        }
        assert(kids_elems(nodes, root_ids(items), bound) =~= kids_elems(
            nodes,
            root_ids(items_inside(items, region, bounding)),
            bound,
        ).add(kids_elems(nodes, root_ids(items_outside(items, region, bounding)), bound)));
    }
}

/// Stores that each keep the nodes of the one before keep the nodes of the
/// first.
proof fn lemma_agree_trans(
    a: Map<u64, BVHNode>,
    b: Map<u64, BVHNode>,
    c: Map<u64, BVHNode>,
    ba: u64,
    bb: u64,
)
    requires
        agree_below(a, b, ba),
        agree_below(b, c, bb),
        ba <= bb,
    ensures
        agree_below(a, c, ba),
{
    assert forall|id: u64| id < ba implies #[trigger] same_at(a, c, id) by {
        assert(same_at(a, b, id));
        assert(same_at(b, c, id));
    }
}

/// Listed roots stay listed roots under a later store that keeps the earlier
/// nodes.
proof fn lemma_roots_frame(
    a: Map<u64, BVHNode>,
    b: Map<u64, BVHNode>,
    ba: u64,
    bb: u64,
    roots: Seq<(BVHNodeId, Box2D)>,
)
    requires
        roots_ok(a, roots, ba),
        agree_below(a, b, ba),
        ba <= bb,
    ensures
        roots_ok(b, roots, bb),
{
    assert forall|k: int| 0 <= k < roots.len() implies {
        &&& (#[trigger] roots[k]).0.0 < bb
        &&& b.dom().contains(roots[k].0.0)
        &&& b[roots[k].0.0].rect == roots[k].1
        &&& box_valid(roots[k].1)
    } by {
        assert(same_at(a, b, roots[k].0.0));
    }
}

/// The split tree over the treelet roots in `items`: the region is halved,
/// along `x` when `horizontal` and along `y` otherwise, the items whose
/// centroid lies in the first half go below the first child and the others
/// below the second, and the axis alternates from level to level. Below
/// depth 0, or with at most two items, one node lists them all.
pub(crate) fn make_split_tree(
    depth: i8,
    horizontal: bool,
    items: Vec<(BVHNodeId, Box2D)>,
    region: Box2D,
    bounding: &Box2D,
    Ghost(boxes): Ghost<Seq<Box2D>>,
    Ghost(sorted): Ghost<Seq<(u64, usize)>>,
    next_id: &mut u64,
    store: &mut NodeStore,
) -> (r: (BVHNodeId, Box2D))
    requires
        held_apart(store_nodes(*old(store)), sorted, sorted.len() as int),
        -1 <= depth <= 5,
        box_valid(*bounding),
        boxes.len() > 0 ==> *bounding == bounding_box(boxes),
        roots_ok(store_nodes(*old(store)), items@, *old(next_id)),
        build_inv(store_nodes(*old(store)), boxes, *old(next_id)),
        *old(next_id) + split_budget(depth as int) <= u64::MAX,
    ensures
        emitted(
            store_nodes(*old(store)),
            *old(next_id),
            store_nodes(*final(store)),
            *final(next_id),
            boxes,
            r,
        ),
        *final(next_id) <= *old(next_id) + split_budget(depth as int),
        held_apart(store_nodes(*final(store)), sorted, sorted.len() as int),
        subtree_elems(store_nodes(*final(store)), r.0.0) == kids_elems(
            store_nodes(*old(store)),
            root_ids(items@),
            *old(next_id),
        ),
        is_split(
            store_nodes(*final(store)),
            r.0.0,
            depth as int,
            horizontal,
            items@,
            region,
            *bounding,
        ),
    decreases depth + 1,
{
    if depth < 0 || items.len() <= 2 {
        proof {
            lemma_budget_positive(depth as int);
        }
        let empty_rect = Box2D { min: bounding.min, max: bounding.min };
        return emit_fan(&items, empty_rect, Ghost(boxes), Ghost(sorted), next_id, store);
    }
    let halves = if horizontal {
        region.split_horizontal()
    } else {
        region.split_vertical()
    };
    let first = halves[0];
    let second = halves[1];
    let ghost nodes0 = store_nodes(*store);
    let ghost next0 = *next_id;
    let ghost all = items@;
    let (near, rest) = partition_items(items, &first, bounding);
    proof {
        assert(first == first_half(region, horizontal));
        assert(second == second_half(region, horizontal));
        lemma_partition_kids(nodes0, all, first, *bounding, next0);
        lemma_budget_positive(depth as int - 1);
    }
    let ghost near_ids = root_ids(near@);
    let ghost rest_ids = root_ids(rest@);
    let c1 = make_split_tree(
        depth - 1,
        !horizontal,
        near,
        first,
        bounding,
        Ghost(boxes),
        Ghost(sorted),
        next_id,
        store,
    );
    let ghost nodes1 = store_nodes(*store);
    let ghost next1 = *next_id;
    proof {
        lemma_roots_frame(nodes0, nodes1, next0, next1, rest@);
        assert forall|k: int| 0 <= k < rest_ids.len() implies (#[trigger] rest_ids[k]).0 < next0 by {
            assert(rest_ids[k] == rest@[k].0);
        }
        lemma_kids_frame(nodes0, nodes1, next0, next1, rest_ids);
    }
    let c2 = make_split_tree(
        depth - 1,
        !horizontal,
        rest,
        second,
        bounding,
        Ghost(boxes),
        Ghost(sorted),
        next_id,
        store,
    );
    let ghost nodes2 = store_nodes(*store);
    let ghost next2 = *next_id;
    proof {
        lemma_subtree_frame(nodes1, nodes2, next1, c1.0.0);
        assert(same_at(nodes1, nodes2, c1.0.0));
        lemma_agree_trans(nodes0, nodes1, nodes2, next0, next1);
    }
    let r = emit_pair(
        c1,
        c2,
        Ghost(boxes),
        Ghost(sorted),
        Ghost(sorted.len() as int),
        next_id,
        store,
    );
    proof {
        let nodes3 = store_nodes(*store);
        lemma_agree_trans(nodes0, nodes2, nodes3, next0, next2);
        lemma_agree_trans(nodes1, nodes2, nodes3, next1, next2);
        lemma_split_frame(
            nodes1,
            nodes3,
            next1,
            c1.0.0,
            depth - 1,
            !horizontal,
            near@,
            first,
            *bounding,
        );
        lemma_split_frame(
            nodes2,
            nodes3,
            next2,
            c2.0.0,
            depth - 1,
            !horizontal,
            rest@,
            second,
            *bounding,
        );
        assert(same_at(nodes2, nodes3, c1.0.0));
        assert(same_at(nodes2, nodes3, c2.0.0));
        assert(nodes3[r.0.0].kids()[0] == c1.0 && nodes3[r.0.0].kids()[1] == c2.0);
    }
    r
}

/// Every split tree adds at least one node.
proof fn lemma_budget_positive(depth: int)
    requires
        depth >= -1,
    ensures
        split_budget(depth) >= 1,
    decreases depth + 1,
{
    if depth >= 0 {
        lemma_budget_positive(depth - 1);
    }
}

} // verus!
