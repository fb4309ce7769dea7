use sim::bvh::{BVHNodeId, BVH};
use sim::math::{intersect_ray_line_segment, Box2D, LineSegment, USizeVec2, Vec2};
use sim::ratio::Ratio;
use sim::scene::occupancy_map::OccupancyMap;

fn v(x: i32, y: i32) -> Vec2 {
    Vec2 { x, y }
}

fn children(bvh: &BVH, id: u64) -> Vec<u64> {
    let node = bvh.box_map.get(&id).unwrap();
    node.child_ids().iter().map(|c| c.0).collect()
}

fn elements(bvh: &BVH, id: u64) -> Vec<usize> {
    let node = bvh.box_map.get(&id).unwrap();
    node.element_indices()
}

fn rect(bvh: &BVH, id: u64) -> Box2D {
    bvh.box_map.get(&id).unwrap().rect
}

/// The elements of all leaves below `id`, and the number of nodes met.
fn collect(bvh: &BVH, id: u64, into: &mut Vec<usize>, nodes: &mut Vec<u64>) {
    nodes.push(id);
    into.extend(elements(bvh, id));
    for child in children(bvh, id) {
        assert!(child < id);
        assert!(rect(bvh, id).contains_box(&rect(bvh, child)));
        collect(bvh, child, into, nodes);
    }
}

fn patterned(width: usize, height: usize) -> OccupancyMap {
    let mut pixels = Vec::new();
    for y in 0..height {
        for x in 0..width {
            pixels.push((x * 7 + y * 13) % 5 == 0 || (x % 9 == 4 && y % 3 != 0));
        }
    }
    OccupancyMap::from_pixels(USizeVec2 { x: width, y: height }, pixels).unwrap()
}

fn brute_force(segments: &[LineSegment], pos: Vec2, dir: Vec2) -> Option<Ratio> {
    let mut best: Option<Ratio> = None;
    for s in segments {
        if let Some(hit) = intersect_ray_line_segment(pos, dir, s) {
            best = match best {
                Some(b) if !hit.lt(&b) => Some(b),
                _ => Some(hit),
            };
        }
    }
    best
}

#[test]
fn hierarchy_without_segments() {
    let bvh = BVH::new(&Vec::new());
    assert_eq!(bvh.root, BVHNodeId(0));
    assert_eq!(bvh.box_map.len(), 1);
    let node = bvh.box_map.get(&0).unwrap();
    assert!(node.children.is_none());
    assert!(node.elements.is_none());
    assert_eq!(node.rect, Box2D { min: v(0, 0), max: v(0, 0) });
    drop(node);
    assert_eq!(bvh.cast_ray(&Vec::new(), v(0, 0), v(1, 0)), None);
}

#[test]
fn hierarchy_of_one_segment() {
    let segments = vec![LineSegment(v(3, -1), v(3, 5))];
    let bvh = BVH::new(&segments);
    // One treelet of one leaf, and above it the node that lists the treelets.
    assert_eq!(bvh.box_map.len(), 2);
    assert_eq!(bvh.root, BVHNodeId(1));
    assert_eq!(children(&bvh, 1), vec![0]);
    assert_eq!(elements(&bvh, 1), Vec::<usize>::new());
    assert_eq!(elements(&bvh, 0), vec![0]);
    assert_eq!(rect(&bvh, 0), Box2D { min: v(3, -1), max: v(3, 5) });
    assert_eq!(rect(&bvh, 1), Box2D { min: v(3, -1), max: v(3, 5) });
    assert!(bvh.cast_ray(&segments, v(0, 0), v(1, 0)).unwrap().equals_fraction(3, 1));
}

#[test]
fn segments_are_ordered_by_morton_code() {
    // Given far corner first: the near corner has the smaller code and gets the first leaf.
    let segments = vec![
        LineSegment(v(1000, 1000), v(1001, 1000)),
        LineSegment(v(0, 0), v(1, 0)),
    ];
    let bvh = BVH::new(&segments);
    assert_eq!(elements(&bvh, 0), vec![1]);
    assert_eq!(elements(&bvh, 1), vec![0]);
    assert_eq!(bvh.root, BVHNodeId(2));
    assert_eq!(children(&bvh, 2), vec![0, 1]);
    assert_eq!(rect(&bvh, 2), Box2D { min: v(0, 0), max: v(1001, 1000) });
}

#[test]
fn leaves_hold_at_most_sixteen_segments() {
    // Forty segments whose codes differ in the low bits only: one treelet, split bit by bit.
    let mut segments = Vec::new();
    for i in 0..40 {
        segments.push(LineSegment(v(i * 4, 0), v(i * 4, 0)));
    }
    // A far segment stretches the bounding box to 2^20 units, one unit for each code step.
    segments.push(LineSegment(v(1 << 20, 1 << 20), v(1 << 20, 1 << 20)));
    let bvh = BVH::new(&segments);
    let mut all = Vec::new();
    let mut nodes = Vec::new();
    collect(&bvh, bvh.root.0, &mut all, &mut nodes);
    all.sort();
    assert_eq!(all, (0..41).collect::<Vec<usize>>());
    let mut leaves = 0;
    for id in nodes {
        let held = elements(&bvh, id);
        if held.len() > 16 {
            panic!("a leaf holds {} segments", held.len());
        }
        if !held.is_empty() {
            leaves += 1;
        }
    }
    assert!(leaves >= 4);
}

#[test]
fn segments_with_one_code_share_a_leaf() {
    // Twenty copies of one segment cannot be told apart by any bit.
    let mut segments = vec![LineSegment(v(5, 5), v(6, 5)); 20];
    segments.push(LineSegment(v(0, 0), v(100, 100)));
    let bvh = BVH::new(&segments);
    let mut all = Vec::new();
    let mut nodes = Vec::new();
    collect(&bvh, bvh.root.0, &mut all, &mut nodes);
    all.sort();
    assert_eq!(all, (0..21).collect::<Vec<usize>>());
    assert!(nodes.iter().any(|&id| elements(&bvh, id).len() == 20));
}

#[test]
fn every_segment_is_in_exactly_one_leaf() {
    let map = patterned(37, 23);
    let n = map.boundaries.len();
    assert!(n > 200);
    let bvh = &map.bvh;
    let mut all = Vec::new();
    let mut nodes = Vec::new();
    collect(bvh, bvh.root.0, &mut all, &mut nodes);
    all.sort();
    assert_eq!(all, (0..n).collect::<Vec<usize>>());
    // Every stored node is met exactly once from the root.
    nodes.sort();
    let count = nodes.len();
    nodes.dedup();
    assert_eq!(nodes.len(), count);
    assert_eq!(count, bvh.box_map.len());
    assert_eq!(*nodes.last().unwrap(), bvh.root.0);
    // The nodes are numbered from 0 up to the root.
    assert_eq!(nodes, (0..=bvh.root.0).collect::<Vec<u64>>());
    // A node has children or elements, not both, and holds the boxes of its elements.
    for id in nodes {
        let kids = children(bvh, id);
        let held = elements(bvh, id);
        assert!(kids.is_empty() || held.is_empty());
        for i in held {
            assert!(rect(bvh, id).contains_box(&map.boundaries[i].get_box()));
        }
    }
    // The root box is the box around all segments.
    let mut bounding = map.boundaries[0].get_box();
    for s in &map.boundaries {
        bounding = bounding.encase(&s.get_box());
    }
    assert_eq!(rect(bvh, bvh.root.0), bounding);
}

#[test]
fn cast_ray_agrees_with_brute_force() {
    let map = patterned(37, 23);
    let mut state: u64 = 0x2545_F491_4F6C_DD1D;
    let mut next = |range: i64| -> i32 {
        state = state.wrapping_mul(6364136223846793005).wrapping_add(1442695040888963407);
        (((state >> 33) as i64) % (2 * range + 1) - range) as i32
    };
    let mut hits = 0;
    for _ in 0..2000 {
        let pos = v(next(20000), next(12000));
        let dir = v(next(1000), next(1000));
        let found = map.cast_rays(pos, dir);
        let expected = brute_force(&map.boundaries, pos, dir);
        match (found, expected) {
            (None, None) => {}
            (Some(a), Some(b)) => {
                hits += 1;
                assert!(a.equals_fraction(b.num, b.den), "{:?} against {:?}", a, b);
            }
            (a, b) => panic!("{:?} against {:?} from {:?} along {:?}", a, b, pos, dir),
        }
    }
    assert!(hits > 500);
}

#[test]
fn cast_ray_along_the_axes() {
    let map = patterned(37, 23);
    for y in -12..12 {
        for dir in [v(1, 0), v(-1, 0), v(0, 1), v(0, -1)] {
            let pos = v(37, y * 1024 + 500);
            let found = map.cast_rays(pos, dir);
            let expected = brute_force(&map.boundaries, pos, dir);
            assert_eq!(found.is_some(), expected.is_some());
            if let (Some(a), Some(b)) = (found, expected) {
                assert!(a.equals_fraction(b.num, b.den));
            }
        }
    }
}
