use std::collections::HashMap;

use wall_colliders::{
    collider_for_rect, combine_walls_into_plates, emit_colliders, fill_wall_rects, merge_walls,
    parse_level_to_wall, region_colliders, GridCoord, LevelGrid, Plate, Rect, WallError, WallSet,
};

fn walls_of(cells: &[(i32, i32)]) -> WallSet {
    let mut w = WallSet::new();
    for &(x, y) in cells {
        w.insert(GridCoord::new(x, y));
    }
    w
}

fn rect(left: i32, right: i32, bottom: i32, top: i32) -> Rect {
    Rect { left, right, top, bottom }
}

fn sorted(mut v: Vec<Rect>) -> Vec<Rect> {
    v.sort_by_key(|r| (r.bottom, r.left, r.top, r.right));
    v
}

fn covered_cells(rects: &[Rect]) -> Vec<(i32, i32)> {
    let mut cells = Vec::new();
    for r in rects {
        for y in r.bottom..=r.top {
            for x in r.left..=r.right {
                cells.push((x, y));
            }
        }
    }
    cells.sort();
    cells
}

#[test]
fn worked_example_gives_two_rects() {
    let walls = walls_of(&[(0, 0), (1, 0), (2, 0), (0, 1), (1, 1)]);
    let rows = combine_walls_into_plates(4, 2, &walls);
    assert_eq!(rows, vec![vec![Plate { left: 0, right: 2 }], vec![Plate { left: 0, right: 1 }]]);
    let rects = sorted(merge_walls(4, 2, &walls));
    assert_eq!(rects, vec![rect(0, 2, 0, 0), rect(0, 1, 1, 1)]);
}

#[test]
fn isolated_cell_gives_one_cell_rect() {
    let walls = walls_of(&[(3, 2)]);
    assert_eq!(merge_walls(5, 4, &walls), vec![rect(3, 3, 2, 2)]);
}

#[test]
fn full_block_gives_one_rect() {
    let mut cells = Vec::new();
    for y in 0..3 {
        for x in 0..5 {
            cells.push((x, y));
        }
    }
    let walls = walls_of(&cells);
    assert_eq!(merge_walls(5, 3, &walls), vec![rect(0, 4, 0, 2)]);
}

#[test]
fn empty_walls_give_no_rects() {
    let walls = WallSet::new();
    assert!(merge_walls(6, 6, &walls).is_empty());
}

#[test]
fn degenerate_region_gives_nothing() {
    let walls = walls_of(&[(0, 0), (1, 1)]);
    assert!(combine_walls_into_plates(0, 3, &walls).is_empty());
    assert!(merge_walls(0, 3, &walls).is_empty());
    assert!(merge_walls(3, -1, &walls).is_empty());
    assert!(combine_walls_into_plates(-2, 2, &walls).is_empty());
    assert!(combine_walls_into_plates(3, 0, &walls).is_empty());
}

#[test]
fn cover_is_exact_and_disjoint() {
    let cells = [
        (0, 0), (1, 0), (3, 0), (4, 0),
        (0, 1), (1, 1), (3, 1), (4, 1),
        (1, 2), (2, 2), (3, 2),
        (0, 3), (4, 3),
        (0, 4), (1, 4), (2, 4), (3, 4), (4, 4),
    ];
    let walls = walls_of(&cells);
    let rects = merge_walls(5, 5, &walls);
    let covered = covered_cells(&rects);
    let mut expected: Vec<(i32, i32)> = cells.to_vec();
    expected.sort();
    // equal lists, with no cell twice, mean an exact and disjoint cover
    assert_eq!(covered, expected);
    assert_eq!(
        sorted(rects),
        vec![
            rect(0, 1, 0, 1),
            rect(3, 4, 0, 1),
            rect(1, 3, 2, 2),
            rect(0, 0, 3, 3),
            rect(4, 4, 3, 3),
            rect(0, 4, 4, 4),
        ]
    );
}

#[test]
fn walls_outside_the_region_are_ignored() {
    let walls = walls_of(&[(4, 0), (-1, 0), (0, 2), (1, 1)]);
    assert_eq!(merge_walls(4, 2, &walls), vec![rect(1, 1, 1, 1)]);
}

#[test]
fn merging_twice_gives_the_same_rects() {
    let walls = walls_of(&[(0, 0), (2, 0), (0, 1), (2, 1), (1, 2)]);
    let a = sorted(merge_walls(3, 3, &walls));
    let b = sorted(merge_walls(3, 3, &walls));
    assert_eq!(a, b);
    assert_eq!(a.len(), 3);
}

#[test]
fn plates_close_at_the_right_edge() {
    let walls = walls_of(&[(1, 0), (2, 0), (4, 0), (5, 0), (0, 1)]);
    let rows = combine_walls_into_plates(6, 2, &walls);
    assert_eq!(
        rows,
        vec![
            vec![Plate { left: 1, right: 2 }, Plate { left: 4, right: 5 }],
            vec![Plate { left: 0, right: 0 }],
        ]
    );
}

#[test]
fn different_plates_never_merge() {
    let rows = vec![
        vec![Plate { left: 0, right: 3 }],
        vec![Plate { left: 0, right: 3 }],
        vec![Plate { left: 1, right: 3 }],
        vec![Plate { left: 0, right: 3 }],
    ];
    let rects = sorted(fill_wall_rects(&rows));
    assert_eq!(rects, vec![rect(0, 3, 0, 1), rect(1, 3, 2, 2), rect(0, 3, 3, 3)]);
}

#[test]
fn fill_on_no_rows_is_empty() {
    let rows: Vec<Vec<Plate>> = Vec::new();
    assert!(fill_wall_rects(&rows).is_empty());
}

#[test]
fn collider_geometry_is_scaled() {
    let s = collider_for_rect(rect(2, 4, 1, 1), 16);
    assert_eq!(s.width, 48);
    assert_eq!(s.height, 16);
    assert_eq!(s.center_x2, 112);
    assert_eq!(s.center_y2, 48);
}

#[test]
fn collider_geometry_does_not_overflow() {
    let s = collider_for_rect(rect(i32::MIN, i32::MAX, i32::MIN, i32::MAX), i32::MIN);
    assert_eq!(s.width, (1i128 << 32) * (i32::MIN as i128));
    assert_eq!(s.center_x2, 0);
}

#[test]
fn one_collider_per_rect() {
    let rects = vec![rect(0, 0, 0, 0), rect(1, 2, 0, 3)];
    let shapes = emit_colliders(&rects, 8);
    assert_eq!(shapes.len(), 2);
    assert_eq!(shapes[1].width, 16);
    assert_eq!(shapes[1].height, 32);
    assert_eq!(shapes[1].center_x2, 32);
    assert_eq!(shapes[1].center_y2, 32);
}

#[test]
fn missing_level_is_an_error() {
    let walls = walls_of(&[(0, 0)]);
    assert_eq!(region_colliders(None, &walls), Err(WallError::LevelNotLoaded));
}

#[test]
fn loaded_level_gives_colliders() {
    let walls = walls_of(&[(0, 0), (1, 0)]);
    let grid = LevelGrid { width: 2, height: 1, cell_size: 10 };
    let shapes = region_colliders(Some(grid), &walls).unwrap();
    assert_eq!(shapes.len(), 1);
    assert_eq!(shapes[0].width, 20);
    assert_eq!(shapes[0].height, 10);
    assert_eq!(shapes[0].center_x2, 20);
    assert_eq!(shapes[0].center_y2, 10);
    let empty = region_colliders(Some(grid), &WallSet::new()).unwrap();
    assert!(empty.is_empty());
}

#[test]
fn wall_set_membership() {
    let walls = walls_of(&[(1, 2), (1, 2), (3, -4)]);
    assert!(walls.contains(GridCoord::new(1, 2)));
    assert!(walls.contains(GridCoord::new(3, -4)));
    assert!(!walls.contains(GridCoord::new(2, 1)));
}

#[test]
fn walls_are_grouped_by_region() {
    let cells = vec![
        (10, GridCoord::new(0, 0)),
        (11, GridCoord::new(1, 0)),
        (20, GridCoord::new(5, 5)),
        (99, GridCoord::new(7, 7)),
        (10, GridCoord::new(0, 1)),
    ];
    let mut containers = HashMap::new();
    containers.insert(10u64, 1u64);
    containers.insert(11u64, 1u64);
    containers.insert(20u64, 2u64);
    let found = parse_level_to_wall(&cells, &containers);
    assert_eq!(found.regions.len(), 2);
    let one = found.regions.iter().find(|g| g.region == 1).unwrap();
    let two = found.regions.iter().find(|g| g.region == 2).unwrap();
    assert!(one.walls.contains(GridCoord::new(0, 0)));
    assert!(one.walls.contains(GridCoord::new(1, 0)));
    assert!(one.walls.contains(GridCoord::new(0, 1)));
    assert!(!one.walls.contains(GridCoord::new(5, 5)));
    assert!(two.walls.contains(GridCoord::new(5, 5)));
    assert!(!two.walls.contains(GridCoord::new(0, 0)));
    assert_eq!(found.unresolved, vec![GridCoord::new(7, 7)]);
}

#[test]
fn no_walls_no_regions() {
    let containers: HashMap<u64, u64> = HashMap::new();
    let found = parse_level_to_wall(&Vec::new(), &containers);
    assert!(found.regions.is_empty());
    assert!(found.unresolved.is_empty());
}
