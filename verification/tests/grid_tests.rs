use pge::aabb::cell_of;
use pge::aabb::Cell;
use pge::aabb::Point3;
use pge::aabb::AABB;
use pge::physics::detect_collisions;
use pge::spatial_grid::SpatialGrid;

fn pairs(found: &Vec<pge::physics::Collision>) -> Vec<(usize, usize)> {
    found.iter().map(|c| (c.node1, c.node2)).collect()
}

fn cube(x: i64, y: i64, z: i64, half: i64) -> AABB {
    AABB::new(Point3::new(x - half, y - half, z - half), Point3::new(x + half, y + half, z + half))
}

#[test]
fn cell_of_rounds_down() {
    assert_eq!(cell_of(0, 5), 0);
    assert_eq!(cell_of(4, 5), 0);
    assert_eq!(cell_of(5, 5), 1);
    assert_eq!(cell_of(-1, 5), -1);
    assert_eq!(cell_of(-5, 5), -1);
    assert_eq!(cell_of(-6, 5), -2);
    assert_eq!(cell_of(i64::MIN, 1), i32::MIN);
    assert_eq!(cell_of(i64::MAX, 1), i32::MAX);
    assert_eq!(cell_of(i64::MIN, i64::MAX), -2);
}

#[test]
fn aabb_contains_and_intersects() {
    let a = cube(0, 0, 0, 2);
    assert!(a.contains(Point3::new(2, -2, 0)));
    assert!(!a.contains(Point3::new(3, 0, 0)));
    assert!(a.intersects(&cube(4, 0, 0, 2)));
    assert!(!a.intersects(&cube(5, 0, 0, 2)));
    assert!(!a.intersects(&cube(0, 0, 7, 2)));
    assert_eq!(AABB::empty(), AABB::new(Point3::new(0, 0, 0), Point3::new(0, 0, 0)));
    assert_eq!(cube(1, 9, 3, 1).max_component(), 10);
}

#[test]
fn get_after_set_returns_the_inserted_box() {
    let mut grid = SpatialGrid::new(5);
    let first = cube(0, 0, 0, 1);
    let second = cube(100, -30, 7, 12);
    grid.set_node(7, first);
    assert_eq!(grid.get_node_rect(7), Some(first));
    grid.set_node(7, second);
    assert_eq!(grid.get_node_rect(7), Some(second));
    assert_eq!(grid.get_node_rect(8), None);
    assert_eq!(grid.nodes(), &vec![7]);
}

#[test]
fn set_registers_a_body_in_every_cell_it_reaches() {
    let mut grid = SpatialGrid::new(5);
    grid.set_node(1, AABB::new(Point3::new(-1, 0, 0), Point3::new(6, 4, 4)));
    assert_eq!(grid.cell(Cell { x: -1, y: 0, z: 0 }), vec![1]);
    assert_eq!(grid.cell(Cell { x: 0, y: 0, z: 0 }), vec![1]);
    assert_eq!(grid.cell(Cell { x: 1, y: 0, z: 0 }), vec![1]);
    assert_eq!(grid.cell(Cell { x: 2, y: 0, z: 0 }), Vec::<usize>::new());
    assert_eq!(grid.cell(Cell { x: 0, y: 1, z: 0 }), Vec::<usize>::new());
    assert_eq!(grid.cell_size(), 5);
}

#[test]
fn moving_a_body_leaves_no_stale_registration() {
    let mut grid = SpatialGrid::new(5);
    grid.set_node(1, cube(2, 2, 2, 1));
    grid.set_node(2, cube(2, 2, 2, 1));
    grid.set_node(1, cube(52, 2, 2, 1));
    assert_eq!(grid.cell(Cell { x: 0, y: 0, z: 0 }), vec![2]);
    assert_eq!(grid.cell(Cell { x: 10, y: 0, z: 0 }), vec![1]);
    grid.set_node(1, cube(52, 2, 2, 1));
    assert_eq!(grid.cell(Cell { x: 10, y: 0, z: 0 }), vec![1]);
    assert_eq!(grid.nodes(), &vec![1, 2]);
}

#[test]
fn remove_forgets_box_and_cells() {
    let mut grid = SpatialGrid::new(5);
    grid.set_node(1, cube(2, 2, 2, 1));
    grid.set_node(2, cube(2, 2, 2, 4));
    grid.set_node(3, cube(2, 2, 2, 1));
    grid.rem_node(2);
    assert_eq!(grid.get_node_rect(2), None);
    assert_eq!(grid.cell(Cell { x: 0, y: 0, z: 0 }), vec![1, 3]);
    assert_eq!(grid.cell(Cell { x: 1, y: 1, z: 1 }), Vec::<usize>::new());
    assert_eq!(grid.nodes(), &vec![1, 3]);
    grid.rem_node(2);
    assert_eq!(grid.nodes(), &vec![1, 3]);
}

#[test]
fn retain_drops_the_bodies_that_fail() {
    let mut grid = SpatialGrid::new(5);
    for id in 0..6usize {
        grid.set_node(id, cube(id as i64 * 3, 0, 0, 1));
    }
    grid.retain_nodes(&|id: usize| id % 2 == 0);
    assert_eq!(grid.nodes(), &vec![0, 2, 4]);
    assert_eq!(grid.get_node_rect(1), None);
    assert_eq!(grid.get_node_rect(4), Some(cube(12, 0, 0, 1)));
    assert_eq!(grid.neighbours(0), vec![0]);
}

#[test]
fn neighbours_share_a_cell() {
    let mut grid = SpatialGrid::new(5);
    grid.set_node(1, cube(1, 1, 1, 1));
    grid.set_node(2, cube(3, 3, 3, 1));
    grid.set_node(3, cube(30, 30, 30, 1));
    assert_eq!(grid.neighbours(1), vec![1, 2]);
    assert_eq!(grid.neighbours(3), vec![3]);
    assert_eq!(grid.neighbours(9), Vec::<usize>::new());
}

#[test]
fn segment_candidates_are_a_superset_of_what_the_segment_meets() {
    let mut grid = SpatialGrid::new(5);
    grid.set_node(1, cube(0, 0, 20, 1));
    grid.set_node(2, cube(0, 0, 40, 1));
    grid.set_node(3, cube(0, 0, 80, 1));
    grid.set_node(4, cube(50, 0, 20, 1));
    let found = grid.get_line_ray_nodes(Point3::new(0, 0, 0), Point3::new(0, 0, 60));
    assert_eq!(found, vec![1, 2]);
    let back = grid.get_line_ray_nodes(Point3::new(0, 0, 60), Point3::new(0, 0, 0));
    assert_eq!(back, vec![1, 2]);
    let wide = grid.get_line_ray_nodes(Point3::new(0, 0, 0), Point3::new(60, 0, 90));
    assert_eq!(wide, vec![1, 2, 3, 4]);
}

#[test]
fn broad_phase_finds_every_overlapping_pair_once() {
    let mut grid = SpatialGrid::new(5);
    grid.set_node(10, AABB::new(Point3::new(-100, 0, -100), Point3::new(100, 1, 100)));
    grid.set_node(3, cube(0, 2, 0, 1));
    grid.set_node(4, cube(1, 3, 1, 1));
    grid.set_node(5, cube(50, 20, 50, 1));
    let found = detect_collisions(&grid);
    assert_eq!(pairs(&found), vec![(3, 10), (3, 4)]);
    // The cube rests one unit deep in the floor above it in number.
    assert_eq!(found[0].normal, Point3::new(0, -1, 0));
    assert_eq!(found[0].correction, Point3::new(0, 0, 0));
    assert_eq!(found[0].point, Point3::new(0, 1, 0));
    assert_eq!(found[1].normal, Point3::new(1, 0, 0));
    assert_eq!(found[1].correction, Point3::new(-1, 0, 0));
    assert_eq!(found[1].point, Point3::new(0, 2, 0));
}

#[test]
fn broad_phase_agrees_with_brute_force() {
    let mut grid = SpatialGrid::new(7);
    let mut boxes: Vec<AABB> = Vec::new();
    let mut x: u64 = 0x2545_F491_4F6C_DD1D;
    for id in 0..60usize {
        let mut next = || {
            x ^= x << 13;
            x ^= x >> 7;
            x ^= x << 17;
            (x % 61) as i64 - 30
        };
        let (cx, cy, cz) = (next(), next(), next());
        let (hx, hy, hz) = (next().abs() % 9, next().abs() % 9, next().abs() % 9);
        let aabb = AABB::new(Point3::new(cx - hx, cy - hy, cz - hz), Point3::new(cx + hx, cy + hy, cz + hz));
        boxes.push(aabb);
        grid.set_node(id, aabb);
    }
    let found = detect_collisions(&grid);
    let mut expected = 0;
    for a in 0..boxes.len() {
        for b in (a + 1)..boxes.len() {
            if boxes[a].intersects(&boxes[b]) {
                expected += 1;
                assert!(pairs(&found).contains(&(a, b)), "pair {} {}", a, b);
            }
        }
    }
    assert_eq!(found.len(), expected);
}

#[test]
fn touching_boxes_in_neighbouring_cells_are_found() {
    let mut grid = SpatialGrid::new(5);
    grid.set_node(0, AABB::new(Point3::new(0, 0, 0), Point3::new(5, 4, 4)));
    grid.set_node(1, AABB::new(Point3::new(5, 0, 0), Point3::new(9, 4, 4)));
    assert_eq!(pairs(&detect_collisions(&grid)), vec![(0, 1)]);
}

#[test]
fn cells_lists_every_occupied_cell_once() {
    let mut grid = SpatialGrid::new(5);
    assert!(grid.cells().is_empty());
    grid.set_node(1, AABB::new(Point3::new(0, 0, 0), Point3::new(6, 1, 1)));
    grid.set_node(2, AABB::new(Point3::new(5, 0, 0), Point3::new(6, 1, 1)));
    grid.set_node(3, AABB::new(Point3::new(0, 0, -1), Point3::new(1, 1, -1)));
    let cells = grid.cells();
    assert_eq!(
        cells,
        vec![
            (Cell { x: 0, y: 0, z: 0 }, vec![1]),
            (Cell { x: 1, y: 0, z: 0 }, vec![1, 2]),
            (Cell { x: 0, y: 0, z: -1 }, vec![3]),
        ]
    );
    grid.rem_node(1);
    assert_eq!(
        grid.cells(),
        vec![(Cell { x: 1, y: 0, z: 0 }, vec![2]), (Cell { x: 0, y: 0, z: -1 }, vec![3])]
    );
}
