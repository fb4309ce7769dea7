use sim::bvh::Direction;
use sim::math::{Box2D, I64Vec2, LineSegment, USizeVec2, Vec2};
use sim::scene::occupancy_map::{boundary_direction, flood_fill, ObjectTag, OccupancyMap};
use sim::scene::Scene2DError;

fn v(x: i32, y: i32) -> Vec2 {
    Vec2 { x, y }
}

fn size(x: usize, y: usize) -> USizeVec2 {
    USizeVec2 { x, y }
}

fn grid(rows: &[&str]) -> (USizeVec2, Vec<bool>) {
    let height = rows.len();
    let width = rows[0].len();
    let mut pixels = Vec::new();
    for row in rows {
        assert_eq!(row.len(), width);
        for c in row.chars() {
            pixels.push(c == '#');
        }
    }
    (size(width, height), pixels)
}

fn map(rows: &[&str]) -> OccupancyMap {
    let (size, pixels) = grid(rows);
    OccupancyMap::from_pixels(size, pixels).unwrap()
}

/// The pairs of an occupied cell and a free cell next to it, counted cell by cell.
fn count_edges(rows: &[&str]) -> usize {
    let cells: Vec<Vec<bool>> = rows.iter().map(|r| r.chars().map(|c| c == '#').collect()).collect();
    let h = cells.len() as i64;
    let w = cells[0].len() as i64;
    let mut count = 0;
    for y in 0..h {
        for x in 0..w {
            if !cells[y as usize][x as usize] {
                continue;
            }
            for (dx, dy) in [(-1, 0), (1, 0), (0, -1), (0, 1)] {
                let (nx, ny) = (x + dx, y + dy);
                if nx >= 0 && nx < w && ny >= 0 && ny < h && !cells[ny as usize][nx as usize] {
                    count += 1;
                }
            }
        }
    }
    count
}

#[test]
fn pixel_count_mismatch_is_reported() {
    let r = OccupancyMap::from_pixels(size(3, 2), vec![false; 5]);
    match r {
        Err(Scene2DError::PixelSizeMismatch(count, shape)) => {
            assert_eq!(count, 5);
            assert_eq!(shape, [3, 2]);
        }
        Ok(_) => panic!("a grid of 3 by 2 with 5 pixels was accepted"),
    }
    assert!(OccupancyMap::from_pixels(size(3, 2), vec![false; 7]).is_err());
    assert!(OccupancyMap::from_pixels(size(0, 4), vec![false; 1]).is_err());
    assert!(OccupancyMap::from_pixels(size(usize::MAX, usize::MAX), vec![true; 1]).is_err());
}

#[test]
fn empty_grid_is_a_map() {
    let m = OccupancyMap::from_pixels(size(0, 0), vec![]).unwrap();
    assert!(m.boundaries.is_empty());
    assert!(m.objects.is_empty());
    assert_eq!(m.cast_rays(v(0, 0), v(1, 0)), None);
}

#[test]
fn free_grid_has_no_boundary() {
    let m = map(&["....", "....", "...."]);
    assert!(m.boundaries.is_empty());
    assert!(m.objects.iter().all(|o| o.is_none()));
    assert_eq!(m.bvh.root.0, 0);
}

#[test]
fn full_grid_has_no_boundary() {
    let m = map(&["###", "###"]);
    assert!(m.boundaries.is_empty());
    assert!(m.objects.iter().all(|o| *o == Some(ObjectTag(0))));
}

#[test]
fn single_cell_is_ringed_by_four_edges() {
    let m = map(&["...", ".#.", "..."]);
    assert_eq!(
        m.boundaries,
        vec![
            LineSegment(v(-512, -512), v(-512, 512)),
            LineSegment(v(512, 512), v(512, -512)),
            LineSegment(v(-512, 512), v(512, 512)),
            LineSegment(v(512, -512), v(-512, -512)),
        ]
    );
    let mut labels = vec![None; 9];
    labels[4] = Some(ObjectTag(0));
    assert_eq!(m.objects, labels);
}

#[test]
fn edges_on_the_border_of_the_grid_are_not_emitted() {
    let m = map(&["#.", ".."]);
    assert_eq!(
        m.boundaries,
        vec![
            LineSegment(v(0, 1024), v(0, 0)),
            LineSegment(v(0, 0), v(-1024, 0)),
        ]
    );
}

#[test]
fn every_edge_is_emitted_once() {
    // The cell right of the corner is reached from two sides during the fill.
    let rows = ["##.", "##."];
    let m = map(&rows);
    assert_eq!(m.boundaries.len(), 2);
    assert_eq!(count_edges(&rows), 2);
    let mut seen = m.boundaries.clone();
    seen.dedup();
    assert_eq!(seen.len(), 2);
    assert!(m.boundaries.contains(&LineSegment(v(512, 1024), v(512, 0))));
    assert!(m.boundaries.contains(&LineSegment(v(512, 0), v(512, -1024))));
}

#[test]
fn boundary_count_equals_edge_count() {
    let rows = [
        "..........",
        ".###..#...",
        ".#.#..#...",
        ".###......",
        "......##..",
        ".#....##..",
        "..........",
        "#........#",
    ];
    let m = map(&rows);
    assert_eq!(m.boundaries.len(), count_edges(&rows));
    let mut unique: Vec<(i32, i32, i32, i32)> =
        m.boundaries.iter().map(|s| (s.0.x, s.0.y, s.1.x, s.1.y)).collect();
    unique.sort();
    unique.dedup();
    assert_eq!(unique.len(), m.boundaries.len());
    for s in &m.boundaries {
        let length = (s.1.x - s.0.x).abs() + (s.1.y - s.0.y).abs();
        assert_eq!(length, 1024);
    }
}

#[test]
fn components_are_tagged_in_scan_order() {
    let m = map(&[
        "#.#.",
        "#.#.",
        "..#.",
        "#...",
    ]);
    let tags: Vec<Option<u64>> = m.objects.iter().map(|o| o.map(|t| t.0)).collect();
    assert_eq!(
        tags,
        vec![
            Some(0), None, Some(1), None,
            Some(0), None, Some(1), None,
            None, None, Some(1), None,
            Some(2), None, None, None,
        ]
    );
}

#[test]
fn cells_joined_only_by_a_corner_are_apart() {
    let m = map(&["#.", ".#"]);
    assert_eq!(m.objects, vec![Some(ObjectTag(0)), None, None, Some(ObjectTag(1))]);
}

#[test]
fn winding_component_has_one_tag() {
    let m = map(&[
        "#####",
        "....#",
        "###.#",
        "#...#",
        "#####",
    ]);
    for (i, o) in m.objects.iter().enumerate() {
        assert_eq!(o.is_some(), m.pixels[i]);
        if m.pixels[i] {
            assert_eq!(*o, Some(ObjectTag(0)));
        }
    }
}

#[test]
fn flood_fill_alone() {
    let (size, pixels) = grid(&[".#", "##"]);
    let (objects, boundaries) = flood_fill(size, &pixels);
    assert_eq!(objects, vec![None, Some(ObjectTag(0)), Some(ObjectTag(0)), Some(ObjectTag(0))]);
    assert_eq!(
        boundaries,
        vec![
            LineSegment(v(0, 0), v(0, 1024)),
            LineSegment(v(-1024, 0), v(0, 0)),
        ]
    );
}

#[test]
fn sides_of_a_cell() {
    let s = size(4, 2);
    let node = size(3, 1);
    assert_eq!(boundary_direction(s, node, Direction::North), LineSegment(v(1024, 0), v(2048, 0)));
    assert_eq!(
        boundary_direction(s, node, Direction::East),
        LineSegment(v(2048, 0), v(2048, -1024))
    );
    assert_eq!(
        boundary_direction(s, node, Direction::South),
        LineSegment(v(2048, -1024), v(1024, -1024))
    );
    assert_eq!(
        boundary_direction(s, node, Direction::West),
        LineSegment(v(1024, -1024), v(1024, 0))
    );
    // A grid of odd width: the cell corners fall on half cells.
    assert_eq!(
        boundary_direction(size(3, 3), size(0, 0), Direction::North),
        LineSegment(v(-1536, 1536), v(-512, 1536))
    );
}

#[test]
fn points_and_cells() {
    let m = map(&["#..", "...", "..#", "..."]);
    assert!(m.is_valid(size(2, 3)));
    assert!(!m.is_valid(size(3, 0)));
    assert!(!m.is_valid(size(0, 4)));
    assert!(m.is_valid_vec2(v(1535, -2047)));
    assert!(!m.is_valid_vec2(v(1536, 0)));
    assert!(!m.is_valid_vec2(v(0, 2048)));
    assert!(!m.is_valid_vec2(v(-1536, 0)));
    assert_eq!(m.translate(v(-1536, 2048)), I64Vec2 { x: 0, y: 0 });
    assert_eq!(m.translate(v(-513, 1025)), I64Vec2 { x: 0, y: 0 });
    assert_eq!(m.translate(v(-512, 1024)), I64Vec2 { x: 1, y: 1 });
    assert_eq!(m.translate(v(1535, -2047)), I64Vec2 { x: 2, y: 3 });
    assert_eq!(m.translate(v(-1537, 2049)), I64Vec2 { x: -1, y: -1 });
    assert_eq!(m.translate(v(1536, -2048)), I64Vec2 { x: 3, y: 4 });
    assert_eq!(m.get_box(size(0, 0)), Box2D { min: v(-1536, 1024), max: v(-512, 2048) });
    assert_eq!(m.get_box(size(2, 3)), Box2D { min: v(512, -2048), max: v(1536, -1024) });
    assert!(m.is_occupied(size(0, 0)));
    assert!(!m.is_occupied(size(1, 0)));
    assert!(m.is_occupied(size(2, 2)));
    assert!(m.is_occupied(size(3, 0)));
    assert!(m.is_occupied_vec2(v(-1000, 1500)));
    assert!(!m.is_occupied_vec2(v(0, 1500)));
    assert!(m.is_occupied_vec2(v(1000, -500)));
    assert!(!m.is_occupied_vec2(v(1000, -1500)));
    assert!(m.is_occupied_vec2(v(5000, 0)));
}

#[test]
fn ray_meets_the_nearest_wall() {
    let m = map(&[
        ".....",
        ".#.#.",
        ".....",
    ]);
    // From the middle cell to the right: the west side of the cell at column 3.
    let right = m.cast_rays(v(0, 0), v(1024, 0)).unwrap();
    assert!(right.equals_fraction(1, 2));
    let left = m.cast_rays(v(0, 0), v(-1024, 0)).unwrap();
    assert!(left.equals_fraction(1, 2));
    // Upwards there is nothing.
    assert_eq!(m.cast_rays(v(0, 0), v(0, 1024)), None);
    // From the far left through both cells: the nearer one counts.
    let through = m.cast_rays(v(-2560, 0), v(1, 0)).unwrap();
    assert!(through.equals_fraction(1024, 1));
    // Along the top side of the two cells, touching them.
    let graze = m.cast_rays(v(-2560, 512), v(2, 0)).unwrap();
    assert!(graze.equals_fraction(512, 1));
}
