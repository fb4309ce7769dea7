//! A bounding volume hierarchy over line segments: Morton-ordered treelets
//! joined by a shallow split tree.

use vstd::prelude::*;
use vstd::multiset::Multiset;
use crate::math::{Box2D, LineSegment, Vec2};
use crate::lbvh::{
    SPLIT_DEPTH, build_treelets, held_apart, code_of, codes_match, compute_boxes, compute_codes,
    is_split, is_treelets, lemma_treelets_frame, make_split_tree, node_shape, shapes_ok,
    split_budget,
};
use crate::store::sorted_by_code;
use crate::store::{
    ChildList, ElementList, NodeStore, child_ids, element_indices, sort_by_code, store_insert,
    store_new, store_nodes,
};

verus! {

/// Leaves hold at most this many segments while Morton bits remain to split on.
pub const MAX_PRIMS_IN_NODE: usize = 16;

/// The id of a node: nodes are numbered in the order in which they are made.
#[derive(Debug, Clone, Copy, Hash, PartialEq, Eq, Structural)]
pub struct BVHNodeId(pub u64);

/// A node: its box, and either its children or the segments it holds.
#[derive(Debug, Clone)]
pub struct BVHNode {
    pub children: Option<ChildList>,
    pub rect: Box2D,
    pub elements: Option<ElementList>,
}

/// The hierarchy: the nodes by id, and the id of the root.
#[derive(Debug)]
pub struct BVH {
    pub box_map: NodeStore,
    pub root: BVHNodeId,
}

/// A side of a grid cell; north is towards row 0.
#[derive(Debug, Clone, Copy, PartialEq, Eq, Structural)]
pub enum Direction {
    North,
    East,
    South,
    West,
}

/// The bits of `x` moved apart: bit `i` of `x` is bit `2 * i` of the result,
/// and the odd bits are clear.
pub open spec fn spec_embed_even_bits(x: u32) -> u64 {
    let x0 = x as u64;
    let x1 = (x0 | (x0 << 16)) & 0x0000FFFF0000FFFF;
    let x2 = (x1 | (x1 << 8)) & 0x00FF00FF00FF00FF;
    let x3 = (x2 | (x2 << 4)) & 0x0F0F0F0F0F0F0F0F;
    let x4 = (x3 | (x3 << 2)) & 0x3333333333333333;
    (x4 | (x4 << 1)) & 0x5555555555555555
}

/// The Morton code of `(x, y)`: the bits of `x` on the even positions, those
/// of `y` on the odd ones.
pub open spec fn spec_morton_encode(x: u32, y: u32) -> u64 {
    spec_embed_even_bits(x) | (spec_embed_even_bits(y) << 1)
}

/// Bit `2 * i` of the spread value is bit `i` of `x`; its odd bits are
/// clear.
pub proof fn lemma_embed_bits(x: u32, i: u64)
    by (bit_vector)
    requires
        i < 32,
    ensures
        (spec_embed_even_bits(x) >> (2 * i)) & 1 == ((x as u64) >> i) & 1,
        spec_embed_even_bits(x) & 0xAAAA_AAAA_AAAA_AAAA == 0,
{
}

pub fn embed_even_bits(x: u32) -> (r: u64)
    ensures
        r == spec_embed_even_bits(x),
        r & 0xAAAA_AAAA_AAAA_AAAA == 0,
        forall|i: u64| i < 32 ==> #[trigger] (r >> (2 * i)) & 1 == ((x as u64) >> i) & 1,
{
    proof {
        lemma_embed_bits(x, 0);
        assert forall|i: u64| i < 32 implies #[trigger] (spec_embed_even_bits(x) >> (2 * i)) & 1
            == ((x as u64) >> i) & 1 by {
            lemma_embed_bits(x, i);
        }
    }
    let mut x = x as u64;
    x = (x | (x << 16)) & 0x0000FFFF0000FFFF;
    x = (x | (x << 8)) & 0x00FF00FF00FF00FF;
    x = (x | (x << 4)) & 0x0F0F0F0F0F0F0F0F;
    x = (x | (x << 2)) & 0x3333333333333333;
    x = (x | (x << 1)) & 0x5555555555555555;
    x
}

pub fn morton_encode(x: u32, y: u32) -> (r: u64)
    ensures
        r == spec_morton_encode(x, y),
        forall|i: u64| i < 32 ==> #[trigger] (r >> (2 * i)) & 1 == ((x as u64) >> i) & 1,
        forall|i: u64| i < 32 ==> #[trigger] (r >> (2 * i + 1)) & 1 == ((y as u64) >> i) & 1,
{
    proof {
        assert forall|i: u64| i < 32 implies #[trigger] (spec_morton_encode(x, y) >> (2 * i)) & 1
            == ((x as u64) >> i) & 1 by {
            lemma_morton_bits(x, y, i);
        }
        assert forall|i: u64| i < 32 implies #[trigger] (spec_morton_encode(x, y) >> (2 * i + 1))
            & 1 == ((y as u64) >> i) & 1 by {
            lemma_morton_bits(x, y, i);
        }
    }
    embed_even_bits(x) | (embed_even_bits(y) << 1)
}

/// Bit `2 * i` of the Morton code is bit `i` of `x`, and bit `2 * i + 1` is
/// bit `i` of `y`.
pub proof fn lemma_morton_bits(x: u32, y: u32, i: u64)
    by (bit_vector)
    requires
        i < 32,
    ensures
        (spec_morton_encode(x, y) >> (2 * i)) & 1 == ((x as u64) >> i) & 1,
        (spec_morton_encode(x, y) >> (2 * i + 1)) & 1 == ((y as u64) >> i) & 1,
{
}

/// The box has a corner order: `min <= max` on both axes.
pub open spec fn box_valid(b: Box2D) -> bool {
    b.min.x <= b.max.x && b.min.y <= b.max.y
}

/// The tight box of every segment, in order.
pub open spec fn segment_boxes(segments: Seq<LineSegment>) -> Seq<Box2D> {
    Seq::new(segments.len(), |i: int| segments[i].spec_get_box())
}

/// The box around all of `boxes`, folded from the first one on.
pub open spec fn bounding_box(boxes: Seq<Box2D>) -> Box2D
    recommends
        boxes.len() > 0,
    decreases boxes.len(),
{
    if boxes.len() <= 1 {
        boxes[0]
    } else {
        bounding_box(boxes.drop_last()).spec_encase(boxes.last())
    }
}

impl BVHNode {
    /// The ids of the children; none for a node without a child list.
    pub open spec fn kids(self) -> Seq<BVHNodeId> {
        match self.children {
            Some(c) => child_ids(c),
            None => Seq::empty(),
        }
    }

    /// The segment indices held; none for a node without an element list.
    pub open spec fn elems(self) -> Seq<usize> {
        match self.elements {
            Some(e) => element_indices(e),
            None => Seq::empty(),
        }
    }

    /// The ids of the children, in order.
    pub fn child_ids(&self) -> (r: Vec<BVHNodeId>)
        ensures
            r@ == self.kids(),
    {
        let mut ids: Vec<BVHNodeId> = Vec::new();
        match &self.children {
            None => {},
            Some(list) => {
                let listed = list.as_slice();
                let mut k: usize = 0;
                while k < listed.len()
                    invariant
                        k <= listed@.len(),
                        ids@ == listed@.subrange(0, k as int),
                    decreases listed@.len() - k,
                {
                    ids.push(listed[k]);
                    k += 1;
                    proof {
                        assert(ids@ =~= listed@.subrange(0, k as int));
                    }
                }
                proof {
                    assert(listed@.subrange(0, listed@.len() as int) =~= listed@);
                }
            },
        }
        ids
    }

    /// The segment indices held, in order.
    pub fn element_indices(&self) -> (r: Vec<usize>)
        ensures
            r@ == self.elems(),
    {
        let mut indices: Vec<usize> = Vec::new();
        match &self.elements {
            None => {},
            Some(list) => {
                let listed = list.as_slice();
                let mut k: usize = 0;
                while k < listed.len()
                    invariant
                        k <= listed@.len(),
                        indices@ == listed@.subrange(0, k as int),
                    decreases listed@.len() - k,
                {
                    indices.push(listed[k]);
                    k += 1;
                    proof {
                        assert(indices@ =~= listed@.subrange(0, k as int));
                    }
                }
                proof {
                    assert(listed@.subrange(0, listed@.len() as int) =~= listed@);
                }
            },
        }
        indices
    }
}

/// What holds of each node: it has children or elements, never both; its
/// children were numbered before it, are stored, and lie within its box; its
/// elements are indices of segments whose boxes lie within its box.
pub open spec fn node_ok(nodes: Map<u64, BVHNode>, id: u64, boxes: Seq<Box2D>) -> bool {
    let n = nodes[id];
    &&& !(n.children is Some && n.elements is Some)
    &&& forall|k: int|
        0 <= k < n.kids().len() ==> {
            &&& (#[trigger] n.kids()[k]).0 < id
            &&& nodes.dom().contains(n.kids()[k].0)
            &&& n.rect.spec_contains_box(nodes[n.kids()[k].0].rect)
        }
    &&& forall|j: int|
        0 <= j < n.elems().len() ==> {
            &&& (#[trigger] n.elems()[j]) < boxes.len()
            &&& n.rect.spec_contains_box(boxes[n.elems()[j] as int])
        }
}

/// Every stored node is sound.
pub open spec fn store_ok(nodes: Map<u64, BVHNode>, boxes: Seq<Box2D>) -> bool {
    forall|id: u64| nodes.dom().contains(id) ==> node_ok(nodes, id, boxes)
}

/// Entry `j` of the elements of node `id`.
pub open spec fn held(nodes: Map<u64, BVHNode>, id: u64, j: int) -> usize {
    nodes[id].elems()[j]
}

/// No segment index is held twice: not by two nodes, and not twice by one.
pub open spec fn held_once(nodes: Map<u64, BVHNode>) -> bool {
    forall|a: u64, j: int, b: u64, k: int|
        nodes.dom().contains(a) && 0 <= j < nodes[a].elems().len() && nodes.dom().contains(b) && 0
            <= k < nodes[b].elems().len() && #[trigger] held(nodes, a, j) == #[trigger] held(
            nodes,
            b,
            k,
        ) ==> a == b && j == k
}

/// The stored ids are the numbers below `bound`.
pub open spec fn keys_below(nodes: Map<u64, BVHNode>, bound: u64) -> bool {
    forall|id: u64| nodes.dom().contains(id) <==> id < bound
}

/// The two stores hold the same node under `id`, or both none.
pub open spec fn same_at(a: Map<u64, BVHNode>, b: Map<u64, BVHNode>, id: u64) -> bool {
    (a.dom().contains(id) == b.dom().contains(id)) && (a.dom().contains(id) ==> a[id] == b[id])
}

/// The two stores hold the same nodes under every id below `bound`.
pub open spec fn agree_below(a: Map<u64, BVHNode>, b: Map<u64, BVHNode>, bound: u64) -> bool {
    forall|id: u64| id < bound ==> #[trigger] same_at(a, b, id)
}

/// All segment indices held below node `id`, with multiplicity: its own
/// elements and those below each child.
pub open spec fn subtree_elems(nodes: Map<u64, BVHNode>, id: u64) -> Multiset<usize>
    decreases id, nodes[id].kids().len() + 1,
{
    if nodes.dom().contains(id) {
        nodes[id].elems().to_multiset().add(kids_elems(nodes, nodes[id].kids(), id))
    } else {
        Multiset::empty()
    }
}

/// The segment indices held below the nodes of `kids`, those with an id
/// below `bound`.
pub open spec fn kids_elems(nodes: Map<u64, BVHNode>, kids: Seq<BVHNodeId>, bound: u64) -> Multiset<
    usize,
>
    decreases bound, kids.len(),
{
    if kids.len() == 0 {
        Multiset::empty()
    } else {
        kids_elems(nodes, kids.drop_last(), bound).add(
            if kids.last().0 < bound {
                subtree_elems(nodes, kids.last().0)
            } else {
                Multiset::empty()
            },
        )
    }
}

/// What is held below a node is the same under a later store that keeps the
/// earlier nodes.
pub proof fn lemma_subtree_frame(a: Map<u64, BVHNode>, b: Map<u64, BVHNode>, bound: u64, id: u64)
    requires
        agree_below(a, b, bound),
        id < bound,
    ensures
        subtree_elems(a, id) == subtree_elems(b, id),
    decreases id, a[id].kids().len() + 1,
{
    assert(same_at(a, b, id));
    if a.dom().contains(id) {
        lemma_kids_frame_inner(a, b, bound, a[id].kids(), id);
    }
}

/// What is held below some children is the same under a later store that
/// keeps the earlier nodes.
pub proof fn lemma_kids_frame_inner(
    a: Map<u64, BVHNode>,
    b: Map<u64, BVHNode>,
    bound: u64,
    kids: Seq<BVHNodeId>,
    kb: u64,
)
    requires
        agree_below(a, b, bound),
        kb <= bound,
    ensures
        kids_elems(a, kids, kb) == kids_elems(b, kids, kb),
    decreases kb, kids.len(),
{
    if kids.len() > 0 {
        lemma_kids_frame_inner(a, b, bound, kids.drop_last(), kb);
        if kids.last().0 < kb {
            lemma_subtree_frame(a, b, bound, kids.last().0);
        }
    }
}

/// Where every child is numbered below both bounds, the bound does not
/// matter.
pub proof fn lemma_kids_bound(nodes: Map<u64, BVHNode>, kids: Seq<BVHNodeId>, b1: u64, b2: u64)
    requires
        forall|k: int| 0 <= k < kids.len() ==> (#[trigger] kids[k]).0 < b1 && kids[k].0 < b2,
    ensures
        kids_elems(nodes, kids, b1) == kids_elems(nodes, kids, b2),
    decreases kids.len(),
{
    if kids.len() > 0 {
        lemma_kids_bound(nodes, kids.drop_last(), b1, b2);
        assert(kids.last() == kids[kids.len() - 1]);
    }
}

/// Carrying a list of roots over to a later store under which the earlier
/// nodes are unchanged.
pub proof fn lemma_kids_frame(
    a: Map<u64, BVHNode>,
    b: Map<u64, BVHNode>,
    ba: u64,
    bb: u64,
    kids: Seq<BVHNodeId>,
)
    requires
        agree_below(a, b, ba),
        ba <= bb,
        forall|k: int| 0 <= k < kids.len() ==> (#[trigger] kids[k]).0 < ba,
    ensures
        kids_elems(a, kids, ba) == kids_elems(b, kids, bb),
{
    lemma_kids_frame_inner(a, b, ba, kids, ba);
    lemma_kids_bound(b, kids, ba, bb);
}

/// One more child adds what is held below it.
pub proof fn lemma_kids_push(nodes: Map<u64, BVHNode>, kids: Seq<BVHNodeId>, id: BVHNodeId, bound: u64)
    requires
        id.0 < bound,
    ensures
        kids_elems(nodes, kids.push(id), bound) == kids_elems(nodes, kids, bound).add(
            subtree_elems(nodes, id.0),
        ),
{
    assert(kids.push(id).drop_last() =~= kids);
    assert(kids.push(id).last() == id);
}

/// The indices carried by the entries `start..end` of a code-ordered list.
pub open spec fn entry_indices(s: Seq<(u64, usize)>, start: int, end: int) -> Seq<usize> {
    Seq::new((end - start) as nat, |k: int| s[start + k].1)
}

/// After sorting the list `(code of i, i)`, the indices still are `0..n`,
/// each once.
pub proof fn lemma_sorted_indices(unsorted: Seq<(u64, usize)>, sorted: Seq<(u64, usize)>)
    requires
        forall|i: int| 0 <= i < unsorted.len() ==> (#[trigger] unsorted[i]).1 == i,
        sorted.to_multiset() == unsorted.to_multiset(),
    ensures
        sorted.len() == unsorted.len(),
        forall|p: int| 0 <= p < sorted.len() ==> (#[trigger] sorted[p]).1 < sorted.len(),
        forall|p: int|
            0 <= p < sorted.len() ==> (#[trigger] sorted[p]) == unsorted[sorted[p].1 as int],
        forall|p: int, q: int|
            0 <= p < sorted.len() && 0 <= q < sorted.len() && p != q ==> (#[trigger] sorted[p]).1 != (
            #[trigger] sorted[q]).1,
        forall|i: usize|
            entry_indices(sorted, 0, sorted.len() as int).to_multiset().count(i) == (if i
                < sorted.len() {
                1nat
            } else {
                0nat
            }),
{
    let n = unsorted.len() as int;
    unsorted.to_multiset_ensures();
    sorted.to_multiset_ensures();
    assert(unsorted.no_duplicates());
    unsorted.lemma_multiset_has_no_duplicates();
    sorted.lemma_multiset_has_no_duplicates_conv();
    assert forall|p: int| 0 <= p < sorted.len() implies (#[trigger] sorted[p]).1 < n && sorted[p]
        == unsorted[sorted[p].1 as int] by {
        assert(sorted.contains(sorted[p]));
        assert(sorted.to_multiset().count(sorted[p]) > 0);
        assert(unsorted.to_multiset().count(sorted[p]) > 0);
        assert(unsorted.contains(sorted[p]));
        let i = choose|i: int| 0 <= i < unsorted.len() && unsorted[i] == sorted[p];
        assert(unsorted[i].1 == i);
    }
    let idx = entry_indices(sorted, 0, n);
    assert forall|p: int, q: int| 0 <= p < idx.len() && 0 <= q < idx.len() && p != q implies idx[p]
        != idx[q] by {
        if idx[p] == idx[q] {
            assert(sorted[p] == unsorted[sorted[p].1 as int]);
            assert(sorted[q] == unsorted[sorted[q].1 as int]);
            assert(sorted[p] == sorted[q]);
        }
    }
    assert(idx.no_duplicates());
    assert forall|p: int, q: int|
        0 <= p < sorted.len() && 0 <= q < sorted.len() && p != q implies (#[trigger] sorted[p]).1 != (
    #[trigger] sorted[q]).1 by {
        assert(idx[p] == sorted[p].1 && idx[q] == sorted[q].1);
    }
    idx.lemma_multiset_has_no_duplicates();
    idx.to_multiset_ensures();
    assert forall|i: usize|
        idx.to_multiset().count(i) == (if i < sorted.len() {
            1nat
        } else {
            0nat
        }) by {
        if i < n {
            assert(unsorted.contains(unsorted[i as int]));
            assert(unsorted.to_multiset().count(unsorted[i as int]) > 0);
            assert(sorted.to_multiset().count(unsorted[i as int]) > 0);
            assert(sorted.contains(unsorted[i as int]));
            let p = choose|p: int| 0 <= p < sorted.len() && sorted[p] == unsorted[i as int];
            assert(idx[p] == i);
            assert(idx.contains(i));
        } else {
            if idx.contains(i) {
                let p = choose|p: int| 0 <= p < idx.len() && idx[p] == i;
                assert(sorted[p].1 < n);
            }
        }
    }
}

/// Some stored node holds segment `i` among its elements.
pub open spec fn held_by_leaf(nodes: Map<u64, BVHNode>, i: usize) -> bool {
    exists|id: u64| nodes.dom().contains(id) && (#[trigger] nodes[id]).elems().contains(i)
}

/// A segment counted below a node is held by a stored node.
pub proof fn lemma_subtree_member(nodes: Map<u64, BVHNode>, id: u64, i: usize)
    requires
        subtree_elems(nodes, id).count(i) > 0,
    ensures
        held_by_leaf(nodes, i),
    decreases id, nodes[id].kids().len() + 1,
{
    broadcast use vstd::multiset::group_multiset_axioms;

    if nodes.dom().contains(id) {
        nodes[id].elems().to_multiset_ensures();
        if nodes[id].elems().to_multiset().count(i) > 0 {
            assert(nodes[id].elems().contains(i));
        } else {
            lemma_kids_member(nodes, nodes[id].kids(), id, i);
        }
    }
}

/// A segment counted below some children is held by a stored node.
pub proof fn lemma_kids_member(nodes: Map<u64, BVHNode>, kids: Seq<BVHNodeId>, bound: u64, i: usize)
    requires
        kids_elems(nodes, kids, bound).count(i) > 0,
    ensures
        held_by_leaf(nodes, i),
    decreases bound, kids.len(),
{
    broadcast use vstd::multiset::group_multiset_axioms;

    if kids.len() > 0 {
        if kids_elems(nodes, kids.drop_last(), bound).count(i) > 0 {
            lemma_kids_member(nodes, kids.drop_last(), bound, i);
        } else {
            lemma_subtree_member(nodes, kids.last().0, i);
        }
    }
}

/// A box that holds every box of the list holds the box around them.
pub proof fn lemma_bounding_within(boxes: Seq<Box2D>, b: Box2D)
    requires
        boxes.len() > 0,
        forall|i: int| 0 <= i < boxes.len() ==> b.spec_contains_box(#[trigger] boxes[i]),
    ensures
        b.spec_contains_box(bounding_box(boxes)),
    decreases boxes.len(),
{
    if boxes.len() > 1 {
        assert forall|i: int| 0 <= i < boxes.drop_last().len() implies b.spec_contains_box(
            #[trigger] boxes.drop_last()[i],
        ) by {
            assert(boxes.drop_last()[i] == boxes[i]);
        }
        lemma_bounding_within(boxes.drop_last(), b);
        assert(b.spec_contains_box(boxes.last()));
    }
}

/// The region of the whole split tree: the bounding box in eighths.
pub open spec fn whole_region() -> Box2D {
    Box2D { min: Vec2 { x: 0, y: 0 }, max: Vec2 { x: 8, y: 8 } }
}

/// The stored nodes are the hierarchy over `boxes` that comes of the entries
/// in the order `sorted`: the entries are the segments with their Morton
/// codes, each once, in code order; cut into treelets at `cuts`, each
/// treelet with its tree; and the treelet roots `roots` joined by the split
/// tree below `root`.
pub open spec fn lbvh_of(
    nodes: Map<u64, BVHNode>,
    root: u64,
    boxes: Seq<Box2D>,
    sorted: Seq<(u64, usize)>,
    roots: Seq<(BVHNodeId, Box2D)>,
    cuts: Seq<int>,
) -> bool {
    &&& sorted.len() == boxes.len()
    &&& sorted_by_code(sorted)
    &&& codes_match(sorted, boxes)
    &&& forall|i: usize|
        entry_indices(sorted, 0, sorted.len() as int).to_multiset().count(i) == (if i
            < boxes.len() {
            1nat
        } else {
            0nat
        })
    &&& is_treelets(nodes, roots, cuts, sorted, boxes, sorted.len() as int)
    &&& is_split(nodes, root, SPLIT_DEPTH as int, true, roots, whole_region(), bounding_box(boxes))
}

impl BVH {
    /// The hierarchy is the one that Morton order gives for `segments`, in
    /// some order of the segments with equal codes.
    pub open spec fn built_from(&self, segments: Seq<LineSegment>) -> bool {
        exists|sorted: Seq<(u64, usize)>, roots: Seq<(BVHNodeId, Box2D)>, cuts: Seq<int>|
            #[trigger] lbvh_of(
                self.nodes(),
                self.root.0,
                segment_boxes(segments),
                sorted,
                roots,
                cuts,
            )
    }

    /// The stored nodes by id.
    pub open spec fn nodes(&self) -> Map<u64, BVHNode> {
        store_nodes(self.box_map)
    }

    /// The hierarchy is sound for `segments`: the nodes are numbered from 0
    /// up to the root; every node is sound (see `node_ok`) and has the shape of
    /// a leaf or of an interior node (see `node_shape`); no segment index is
    /// held twice in the store; and below the root every segment index is
    /// held exactly once, and nothing else.
    pub open spec fn wf(&self, segments: Seq<LineSegment>) -> bool {
        &&& self.nodes().dom().contains(self.root.0)
        &&& keys_below(self.nodes(), (self.root.0 + 1) as u64)
        &&& self.root.0 < u64::MAX
        &&& store_ok(self.nodes(), segment_boxes(segments))
        &&& shapes_ok(self.nodes(), segment_boxes(segments))
        &&& held_once(self.nodes())
        &&& forall|i: usize|
            subtree_elems(self.nodes(), self.root.0).count(i) == (if i < segments.len() {
                1nat
            } else {
                0nat
            })
    }

    /// Builds the hierarchy over `segments`: the segments are ordered by the
    /// Morton code of their centroid within the box around them all, cut into
    /// treelets of equal high bits, each treelet split bit by bit into a
    /// tree, and the trees joined by the split tree. The boxes of the nodes
    /// are lattice boxes. Without segments the hierarchy is one node with id
    /// 0, a zero box, no children and no elements.
    pub fn new(segments: &Vec<LineSegment>) -> (bvh: BVH)
        requires
            segments.len() <= 0x7fff_ffff_ffff_ff00,
        ensures
            bvh.wf(segments@),
            segments.len() > 0 ==> bvh.built_from(segments@),
            segments.len() == 0 ==> {
                &&& bvh.root == BVHNodeId(0)
                &&& bvh.nodes().dom() =~= set![0u64]
                &&& bvh.nodes()[0].children is None
                &&& bvh.nodes()[0].elements is None
                &&& bvh.nodes()[0].rect == (Box2D {
                    min: Vec2 { x: 0, y: 0 },
                    max: Vec2 { x: 0, y: 0 },
                })
            },
    {
        let mut store = store_new();
        if segments.len() == 0 {
            let zero = Vec2 { x: 0, y: 0 };
            let node = BVHNode { children: None, rect: Box2D { min: zero, max: zero }, elements: None };
            store_insert(&mut store, 0, node);
            proof {
                let nodes = store_nodes(store);
                assert(nodes[0].kids() =~= Seq::<BVHNodeId>::empty());
                assert(nodes[0].elems() =~= Seq::<usize>::empty());
                Seq::<usize>::empty().to_multiset_ensures();
                assert(subtree_elems(nodes, 0) =~= Multiset::<usize>::empty());
                assert(node_ok(nodes, 0, segment_boxes(segments@)));
                assert(node_shape(nodes[0], segment_boxes(segments@)));
                assert(held_once(nodes));
            }
            return BVH { box_map: store, root: BVHNodeId(0) };
        }
        let (boxes, bounding) = compute_boxes(segments);
        let mut codes = compute_codes(&boxes, &bounding);
        let ghost unsorted = codes@;
        sort_by_code(&mut codes);
        proof {
            lemma_sorted_indices(unsorted, codes@);
            assert(codes_match(codes@, boxes@)) by {
                assert forall|p: int| 0 <= p < codes@.len() implies (#[trigger] codes@[p]).1
                    < boxes@.len() && codes@[p].0 == code_of(boxes@, codes@[p].1 as int) by {
                    assert(codes@[p] == unsorted[codes@[p].1 as int]);
                }
            }
        }
        let mut next_id: u64 = 0;
        proof {
            assert(held_apart(store_nodes(store), codes@, 0));
        }
        let (roots, Ghost(cuts)) = build_treelets(&codes, &boxes, &mut next_id, &mut store);
        let ghost listed = roots@;
        let ghost nodes1 = store_nodes(store);
        let ghost next1 = next_id;
        proof {
            reveal_with_fuel(split_budget, 8);
        }
        let region = Box2D { min: Vec2 { x: 0, y: 0 }, max: Vec2 { x: 8, y: 8 } };
        let root = make_split_tree(
            SPLIT_DEPTH,
            true,
            roots,
            region,
            &bounding,
            Ghost(boxes@),
            Ghost(codes@),
            &mut next_id,
            &mut store,
        );
        proof {
            let nodes2 = store_nodes(store);
            lemma_treelets_frame(
                nodes1,
                nodes2,
                next1,
                listed,
                cuts,
                codes@,
                boxes@,
                codes@.len() as int,
            );
            assert(region == whole_region());
            assert(boxes@ == segment_boxes(segments@));
            assert(lbvh_of(nodes2, root.0.0, segment_boxes(segments@), codes@, listed, cuts));
        }
        let bvh = BVH { box_map: store, root: root.0 };
        proof {
            assert(lbvh_of(
                bvh.nodes(),
                bvh.root.0,
                segment_boxes(segments@),
                codes@,
                listed,
                cuts,
            ));
        }
        bvh
    }

    /// Every segment is held exactly once below the root, and nothing else
    /// is held there; and among all stored nodes exactly one holds it, once.
    pub proof fn lemma_every_segment_once(&self, segments: Seq<LineSegment>, i: usize)
        requires
            self.wf(segments),
        ensures
            subtree_elems(self.nodes(), self.root.0).count(i) == (if i < segments.len() {
                1nat
            } else {
                0nat
            }),
            i < segments.len() ==> held_by_leaf(self.nodes(), i),
            forall|a: u64, j: int, b: u64, k: int|
                self.nodes().dom().contains(a) && 0 <= j < self.nodes()[a].elems().len()
                    && self.nodes().dom().contains(b) && 0 <= k < self.nodes()[b].elems().len()
                    && #[trigger] held(self.nodes(), a, j) == i && #[trigger] held(
                    self.nodes(),
                    b,
                    k,
                ) == i ==> a == b && j == k,
    {
        if i < segments.len() {
            lemma_subtree_member(self.nodes(), self.root.0, i);
        }
    }

    /// Any box that holds the box of every node with elements holds the box
    /// around all segments.
    pub proof fn lemma_leaves_cover(&self, segments: Seq<LineSegment>, b: Box2D)
        requires
            self.wf(segments),
            0 < segments.len() <= usize::MAX,
            forall|id: u64|
                self.nodes().dom().contains(id) && (#[trigger] self.nodes()[id]).elems().len() > 0
                    ==> b.spec_contains_box(self.nodes()[id].rect),
        ensures
            b.spec_contains_box(bounding_box(segment_boxes(segments))),
    {
        let nodes = self.nodes();
        let boxes = segment_boxes(segments);
        assert forall|i: int| 0 <= i < boxes.len() implies b.spec_contains_box(
            #[trigger] boxes[i],
        ) by {
            assert(0 <= i < segments.len());
            assert(subtree_elems(nodes, self.root.0).count(i as usize) == 1);
            lemma_subtree_member(nodes, self.root.0, i as usize);
            let id = choose|id: u64|
                nodes.dom().contains(id) && (#[trigger] nodes[id]).elems().contains(i as usize);
            let j = choose|j: int|
                0 <= j < nodes[id].elems().len() && nodes[id].elems()[j] == i as usize;
            assert(node_ok(nodes, id, boxes));
            assert(nodes[id].rect.spec_contains_box(boxes[nodes[id].elems()[j] as int]));
            assert(b.spec_contains_box(nodes[id].rect));
        }
        lemma_bounding_within(boxes, b);
    }

    /// Every interior node's box holds the boxes of its children.
    pub proof fn lemma_parent_encases_children(&self, segments: Seq<LineSegment>, id: u64, k: int)
        requires
            self.wf(segments),
            self.nodes().dom().contains(id),
            0 <= k < self.nodes()[id].kids().len(),
        ensures
            self.nodes().dom().contains(self.nodes()[id].kids()[k].0),
            self.nodes()[id].rect.spec_contains_box(
                self.nodes()[self.nodes()[id].kids()[k].0].rect,
            ),
    {
        assert(node_ok(self.nodes(), id, segment_boxes(segments)));
    }

    /// The root's box is the box around all segments.
    pub proof fn lemma_root_is_bounding(&self, segments: Seq<LineSegment>)
        requires
            self.wf(segments),
            0 < segments.len() <= usize::MAX,
        ensures
            self.nodes()[self.root.0].rect == bounding_box(segment_boxes(segments)),
    {
        let nodes = self.nodes();
        let boxes = segment_boxes(segments);
        let root = nodes[self.root.0];
        assert(node_shape(root, boxes));
        assert forall|i: int| 0 <= i < boxes.len() implies root.rect.spec_contains_box(
            #[trigger] boxes[i],
        ) by {
            assert(subtree_elems(nodes, self.root.0).count(i as usize) == 1);
            crate::raycast::lemma_subtree_box(nodes, boxes, self.root.0, i as usize);
        }
        lemma_bounding_within(boxes, root.rect);
        lemma_bounding_valid(boxes);
    }
}

/// The box around boxes with corners in order has its corners in order.
pub proof fn lemma_bounding_valid(boxes: Seq<Box2D>)
    requires
        boxes.len() > 0,
        forall|i: int| 0 <= i < boxes.len() ==> box_valid(#[trigger] boxes[i]),
    ensures
        box_valid(bounding_box(boxes)),
    decreases boxes.len(),
{
    if boxes.len() > 1 {
        assert forall|i: int| 0 <= i < boxes.drop_last().len() implies box_valid(
            #[trigger] boxes.drop_last()[i],
        ) by {
            assert(boxes.drop_last()[i] == boxes[i]);
        }
        lemma_bounding_valid(boxes.drop_last());
        assert(box_valid(boxes.last()));
    }
}

} // verus!
