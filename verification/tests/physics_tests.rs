use pge::aabb::Point3;
use pge::aabb::AABB;
use pge::collision::Fraction;
use pge::physics::integrates;
use pge::physics::resolution;
use pge::physics::slower_than;
use pge::physics::Collision;
use pge::physics::ContactInfo;
use pge::physics::Resolution;
use pge::physics::Outcome;
use pge::physics::PairAction;
use pge::physics::PhysicsSystem;
use pge::physics::Step;
use pge::physics::MAX_ITERATIONS;
use pge::raycast::sort_by_distance;
use pge::raycast::RayCast;
use pge::raycast::RayHit;
use pge::spatial_grid::SpatialGrid;
use pge::types::PhycisObjectType;
use pge::world::PhysicsWorld;
use pge::world::Placement;
use pge::world::DEFAULT_CELL_SIZE;

fn cube(x: i64, y: i64, z: i64, half: i64) -> AABB {
    AABB::new(Point3::new(x - half, y - half, z - half), Point3::new(x + half, y + half, z + half))
}

fn pair(node1: usize, node2: usize) -> Collision {
    Collision {
        node1,
        node2,
        normal: Point3::new(0, 1, 0),
        point: Point3::new(0, 0, 0),
        correction: Point3::new(0, 0, 0),
    }
}

fn pairs(found: &Vec<Collision>) -> Vec<(usize, usize)> {
    found.iter().map(|c| (c.node1, c.node2)).collect()
}

fn time(num: i64, den: i64) -> Fraction {
    Fraction { num, den }
}

fn floor_and_box() -> SpatialGrid {
    let mut grid = SpatialGrid::new(5);
    grid.set_node(0, AABB::new(Point3::new(-100, 0, -100), Point3::new(100, 1, 100)));
    grid.set_node(1, cube(0, 2, 0, 1));
    grid
}

#[test]
fn two_static_bodies_are_always_skipped() {
    let system = PhysicsSystem::new();
    let pair = pair(0, 1);
    for slow in [false, true] {
        assert_eq!(
            system.classify(&pair, PhycisObjectType::Static, PhycisObjectType::Static, slow),
            PairAction::Skip
        );
    }
    let idle = Resolution { first: None, second: None };
    assert_eq!(
        resolution(&pair, PhycisObjectType::Static, PhycisObjectType::Static, false, false),
        idle
    );
    assert_eq!(
        resolution(&pair, PhycisObjectType::Dynamic, PhycisObjectType::Dynamic, true, true),
        idle
    );
}

#[test]
fn a_resolution_gives_each_dynamic_body_a_contact() {
    let collision = Collision {
        node1: 4,
        node2: 9,
        normal: Point3::new(0, 1, 0),
        point: Point3::new(3, 5, 7),
        correction: Point3::new(0, -2, 0),
    };
    let up = ContactInfo { normal: Point3::new(0, 1, 0), point: Point3::new(3, 5, 7), node_id: 9 };
    let down = ContactInfo { normal: Point3::new(0, -1, 0), point: Point3::new(3, 5, 7), node_id: 4 };
    assert_eq!(
        resolution(&collision, PhycisObjectType::Dynamic, PhycisObjectType::Dynamic, false, false),
        Resolution { first: Some(up), second: Some(down) }
    );
    assert_eq!(
        resolution(&collision, PhycisObjectType::Static, PhycisObjectType::Dynamic, true, false),
        Resolution { first: None, second: Some(down) }
    );
    assert_eq!(
        resolution(&collision, PhycisObjectType::Dynamic, PhycisObjectType::Neither, false, true),
        Resolution { first: Some(up), second: None }
    );
}

#[test]
fn only_dynamic_bodies_that_are_not_stationary_integrate() {
    assert!(integrates(PhycisObjectType::Dynamic, false));
    assert!(!integrates(PhycisObjectType::Dynamic, true));
    assert!(!integrates(PhycisObjectType::Static, false));
    assert!(!integrates(PhycisObjectType::Neither, false));
}

#[test]
fn speed_is_compared_with_the_threshold_exactly() {
    assert!(slower_than(Point3::new(3, 4, 0), 6));
    assert!(!slower_than(Point3::new(3, 4, 0), 5));
    assert!(slower_than(Point3::new(0, 0, 0), 1));
    assert!(!slower_than(Point3::new(0, 0, 0), 0));
    assert!(!slower_than(Point3::new(-30, 40, 0), 50));
    assert!(slower_than(Point3::new(-30, 40, 0), 51));
    let big = 1i64 << 40;
    assert!(!slower_than(Point3::new(big, -big, big), big));
}

#[test]
fn slow_pairs_resolve_and_fast_pairs_sweep() {
    let system = PhysicsSystem::new();
    let pair = pair(0, 1);
    assert_eq!(
        system.classify(&pair, PhycisObjectType::Static, PhycisObjectType::Dynamic, true),
        PairAction::Resolve
    );
    assert_eq!(
        system.classify(&pair, PhycisObjectType::Static, PhycisObjectType::Dynamic, false),
        PairAction::Sweep
    );
}

#[test]
fn update_without_time_stops_at_once() {
    let grid = floor_and_box();
    let mut system = PhysicsSystem::new();
    system.begin_update();
    assert_eq!(system.begin_iteration(&grid, time(0, 1)), Step::Stop);
    assert!(system.collisions().is_empty());
}

#[test]
fn update_without_contacts_integrates() {
    let mut grid = SpatialGrid::new(5);
    grid.set_node(0, cube(0, 0, 0, 1));
    grid.set_node(1, cube(50, 0, 0, 1));
    let mut system = PhysicsSystem::new();
    system.begin_update();
    assert_eq!(system.begin_iteration(&grid, time(16, 1000)), Step::Integrate);
}

#[test]
fn iteration_without_fast_pair_integrates() {
    let grid = floor_and_box();
    let mut system = PhysicsSystem::new();
    system.begin_update();
    assert_eq!(system.begin_iteration(&grid, time(16, 1000)), Step::Examine);
    assert_eq!(pairs(system.collisions()), vec![(0, 1)]);
    assert_eq!(system.end_iteration(), Outcome::Integrate);
}

#[test]
fn earliest_impact_is_advanced_to_and_remembered() {
    let mut grid = floor_and_box();
    grid.set_node(2, cube(2, 2, 0, 1));
    let mut system = PhysicsSystem::new();
    system.begin_update();
    assert_eq!(system.begin_iteration(&grid, time(16, 1000)), Step::Examine);
    let first = pair(0, 1);
    let second = pair(0, 2);
    let third = pair(1, 2);
    assert_eq!(pairs(system.collisions()), vec![(0, 1), (0, 2), (1, 2)]);
    system.sweep(first, Some(time(9, 1000)));
    system.sweep(second, Some(time(4, 1000)));
    system.sweep(third, Some(time(8, 2000)));
    assert_eq!(system.end_iteration(), Outcome::Advance { collision: second, toi: time(4, 1000), step: time(4, 1000) });
    // The pair is in the cache now: it resolves at once, however fast it is.
    assert_eq!(
        system.classify(&second, PhycisObjectType::Static, PhycisObjectType::Dynamic, false),
        PairAction::Resolve
    );
    assert_eq!(
        system.classify(&first, PhycisObjectType::Static, PhycisObjectType::Dynamic, false),
        PairAction::Sweep
    );
}

#[test]
fn impact_beyond_the_time_left_does_not_count() {
    let grid = floor_and_box();
    let mut system = PhysicsSystem::new();
    system.begin_update();
    assert_eq!(system.begin_iteration(&grid, time(16, 1000)), Step::Examine);
    system.sweep(pair(0, 1), Some(time(32, 2000)));
    assert_eq!(system.end_iteration(), Outcome::Integrate);
    assert_eq!(system.begin_iteration(&grid, time(16, 1000)), Step::Examine);
    system.sweep(pair(0, 1), None);
    assert_eq!(system.end_iteration(), Outcome::Integrate);
}

#[test]
fn cache_forgets_pairs_that_came_apart() {
    let mut grid = floor_and_box();
    let pair = pair(0, 1);
    let mut system = PhysicsSystem::new();
    system.begin_update();
    system.begin_iteration(&grid, time(16, 1000));
    system.sweep(pair, Some(time(1, 1000)));
    assert_eq!(system.end_iteration(), Outcome::Advance { collision: pair, toi: time(1, 1000), step: time(1, 1000) });
    // The box leaves the floor; a third body keeps the next sub-step busy.
    grid.set_node(1, cube(0, 50, 0, 1));
    grid.set_node(2, cube(0, 2, 0, 1));
    assert_eq!(system.begin_iteration(&grid, time(15, 1000)), Step::Examine);
    assert_eq!(system.end_iteration(), Outcome::Integrate);
    grid.set_node(1, cube(0, 2, 0, 1));
    system.begin_update();
    system.begin_iteration(&grid, time(16, 1000));
    assert_eq!(
        system.classify(&pair, PhycisObjectType::Static, PhycisObjectType::Dynamic, false),
        PairAction::Sweep
    );
}

#[test]
fn an_update_takes_at_most_ten_sub_steps() {
    let grid = floor_and_box();
    let pair = pair(0, 1);
    let mut system = PhysicsSystem::new();
    system.begin_update();
    let mut steps = 0;
    loop {
        match system.begin_iteration(&grid, time(1, 1)) {
            Step::Stop => break,
            _ => {}
        }
        steps += 1;
        system.sweep(pair, Some(time(0, 1)));
        assert_eq!(system.end_iteration(), Outcome::Advance { collision: pair, toi: time(0, 1), step: time(1, 10000) });
        assert!(steps <= 10);
    }
    assert_eq!(steps, 10);
    assert_eq!(MAX_ITERATIONS, 10);
    system.begin_update();
    assert_eq!(system.begin_iteration(&grid, time(1, 1)), Step::Examine);
}

fn hit(num: i64, den: i64, node: usize) -> RayHit {
    RayHit { distance: Fraction { num, den }, node }
}

#[test]
fn hits_are_sorted_by_distance_and_ties_keep_their_order() {
    let hits = vec![hit(30, 1, 1), hit(10, 1, 2), hit(60, 2, 3), hit(-5, 1, 4), hit(20, 2, 5), hit(1, 3, 6)];
    let sorted = sort_by_distance(&hits);
    assert_eq!(
        sorted,
        vec![hit(-5, 1, 4), hit(1, 3, 6), hit(10, 1, 2), hit(20, 2, 5), hit(30, 1, 1), hit(60, 2, 3)]
    );
    assert_eq!(sort_by_distance(&Vec::new()), Vec::<RayHit>::new());
}

#[test]
fn raycast_result_is_nearest_first_without_its_origin() {
    let mut ray = RayCast::new(7, 100);
    assert_eq!(ray.node_id, 7);
    assert_eq!(ray.len, 100);
    assert!(ray.intersects.is_empty());
    ray.record(&vec![hit(2, 5, 3), hit(0, 1, 7), hit(1, 8, 9), hit(1, 4, 1)]);
    assert_eq!(ray.intersects, vec![9, 1, 3]);
    ray.record(&vec![hit(1, 2, 2)]);
    assert_eq!(ray.intersects, vec![2]);
    ray.clear();
    assert!(ray.intersects.is_empty());
}

#[test]
fn raycast_order_on_many_hits() {
    let mut hits: Vec<RayHit> = Vec::new();
    let mut x: u64 = 0x1234_5678_9ABC_DEF1;
    for node in 0..200usize {
        x ^= x << 13;
        x ^= x >> 7;
        x ^= x << 17;
        hits.push(hit((x % 50) as i64 - 10, ((x >> 8) % 7) as i64 + 1, node));
    }
    let sorted = sort_by_distance(&hits);
    assert_eq!(sorted.len(), hits.len());
    for pair in sorted.windows(2) {
        let (a, b) = (pair[0].distance, pair[1].distance);
        let (left, right) = (a.num as i128 * b.den as i128, b.num as i128 * a.den as i128);
        assert!(left <= right);
        if left == right {
            assert!(pair[0].node < pair[1].node);
        }
    }
}

#[test]
fn a_cast_ray_lists_what_it_meets_nearest_first() {
    let mut grid = SpatialGrid::new(5);
    grid.set_node(1, cube(0, 0, 40, 1));
    grid.set_node(2, cube(0, 0, 20, 1));
    grid.set_node(3, cube(0, 3, 30, 1));
    grid.set_node(4, cube(0, 0, 80, 1));
    grid.set_node(5, cube(0, 0, 0, 1));
    grid.set_node(6, cube(1, 1, 10, 1));
    let mut ray = RayCast::new(5, 60);
    ray.cast(&grid, Point3::new(0, 0, 0), Point3::new(0, 0, 60));
    assert_eq!(ray.intersects, vec![2, 1]);
    ray.cast(&grid, Point3::new(0, 0, 60), Point3::new(0, 0, 0));
    assert_eq!(ray.intersects, vec![1, 2]);
    ray.cast(&grid, Point3::new(0, 0, 0), Point3::new(6, 6, 60));
    assert_eq!(ray.intersects, vec![6]);
    let mut other = RayCast::new(9, 60);
    other.cast(&grid, Point3::new(0, 0, 0), Point3::new(0, 0, 100));
    assert_eq!(other.intersects, vec![5, 2, 1, 4]);
    other.cast(&grid, Point3::new(0, 0, 0), Point3::new(0, 0, i64::MAX));
    assert!(other.intersects.is_empty());
}

#[test]
fn world_creates_a_scene_on_first_use() {
    let mut world = PhysicsWorld::new();
    assert!(world.scene(3).is_none());
    world.ensure_scene(3);
    world.ensure_scene(3);
    assert_eq!(world.scene_list(), &vec![3]);
    assert_eq!(world.scene(3).unwrap().grid.cell_size(), DEFAULT_CELL_SIZE);
    world.set_node_aabb(4, 11, cube(0, 0, 0, 1));
    assert_eq!(world.scene_list(), &vec![3, 4]);
    assert_eq!(world.scene(4).unwrap().grid.get_node_rect(11), Some(cube(0, 0, 0, 1)));
    assert_eq!(world.placement(11), None);
    let wide = PhysicsWorld::with_cell_size(64);
    assert!(wide.scene_list().is_empty());
}

#[test]
fn sync_tracks_moves_between_scenes() {
    let mut world = PhysicsWorld::new();
    let here = Placement { scene: 1, aabb: cube(0, 0, 0, 1) };
    let there = Placement { scene: 2, aabb: cube(9, 9, 9, 1) };
    world.sync_node(5, Some(here));
    assert_eq!(world.placement(5), Some(here));
    assert_eq!(world.scene(1).unwrap().grid.get_node_rect(5), Some(here.aabb));
    world.sync_node(5, Some(there));
    assert_eq!(world.placement(5), Some(there));
    assert_eq!(world.scene(1).unwrap().grid.get_node_rect(5), None);
    assert_eq!(world.scene(2).unwrap().grid.get_node_rect(5), Some(there.aabb));
    world.sync_node(5, None);
    assert_eq!(world.placement(5), None);
    assert_eq!(world.scene(2).unwrap().grid.get_node_rect(5), None);
    assert!(world.node_list().is_empty());
}

#[test]
fn sync_twice_changes_nothing() {
    let mut world = PhysicsWorld::new();
    let bodies = vec![
        (0usize, Some(Placement { scene: 1, aabb: cube(0, 0, 0, 3) })),
        (1usize, Some(Placement { scene: 1, aabb: cube(2, 0, 0, 3) })),
        (2usize, None),
        (3usize, Some(Placement { scene: 2, aabb: cube(0, 0, 0, 1) })),
    ];
    world.sync_from_state(&bodies);
    let nodes = world.node_list().clone();
    let scenes = world.scene_list().clone();
    let cell = world.scene(1).unwrap().grid.cell(pge::aabb::Cell { x: 0, y: 0, z: 0 });
    assert_eq!(nodes, vec![0, 1, 3]);
    assert_eq!(cell, vec![0, 1]);
    for _ in 0..3 {
        world.sync_from_state(&bodies);
        assert_eq!(world.node_list(), &nodes);
        assert_eq!(world.scene_list(), &scenes);
        assert_eq!(
            world.scene(1).unwrap().grid.cell(pge::aabb::Cell { x: 0, y: 0, z: 0 }),
            cell
        );
        assert_eq!(world.scene(1).unwrap().grid.nodes(), &vec![0, 1]);
        assert_eq!(world.scene(2).unwrap().grid.nodes(), &vec![3]);
    }
}

#[test]
fn world_retain_prunes_grids_and_records() {
    let mut world = PhysicsWorld::new();
    world.sync_node(1, Some(Placement { scene: 1, aabb: cube(0, 0, 0, 1) }));
    world.sync_node(2, Some(Placement { scene: 1, aabb: cube(0, 0, 0, 1) }));
    world.sync_node(3, Some(Placement { scene: 2, aabb: cube(0, 0, 0, 1) }));
    world.set_node_aabb(2, 8, cube(5, 5, 5, 1));
    world.retain_nodes(&|id: usize| id == 2 || id == 3);
    assert_eq!(world.node_list(), &vec![2, 3]);
    assert_eq!(world.placement(1), None);
    assert_eq!(world.scene(1).unwrap().grid.nodes(), &vec![2]);
    assert_eq!(world.scene(2).unwrap().grid.nodes(), &vec![3]);
}

#[test]
fn remove_node_from_physics_clears_its_grid() {
    let mut world = PhysicsWorld::new();
    world.sync_node(1, Some(Placement { scene: 1, aabb: cube(0, 0, 0, 1) }));
    world.remove_node_from_physics(1);
    world.remove_node_from_physics(1);
    assert_eq!(world.placement(1), None);
    assert!(world.scene(1).unwrap().grid.nodes().is_empty());
}

#[test]
fn a_scene_can_be_taken_out_and_put_back() {
    let mut world = PhysicsWorld::new();
    world.sync_node(1, Some(Placement { scene: 1, aabb: cube(0, 0, 0, 1) }));
    world.ensure_scene(2);
    let mut taken = world.take_scene(1).unwrap();
    assert!(world.scene(1).is_none());
    assert!(world.take_scene(1).is_none());
    taken.physics_system.begin_update();
    assert_eq!(taken.physics_system.begin_iteration(&taken.grid, time(16, 1000)), Step::Integrate);
    world.put_scene(1, taken);
    assert_eq!(world.scene_list(), &vec![2, 1]);
    assert_eq!(world.scene(1).unwrap().grid.nodes(), &vec![1]);
}

#[test]
fn a_pair_with_a_missing_body_is_skipped() {
    let system = PhysicsSystem::new();
    let pair = pair(0, 1);
    let dynamic = Some(PhycisObjectType::Dynamic);
    for slow in [false, true] {
        assert_eq!(system.classify_pair(&pair, None, dynamic, slow), PairAction::Skip);
        assert_eq!(system.classify_pair(&pair, dynamic, None, slow), PairAction::Skip);
        assert_eq!(system.classify_pair(&pair, None, None, slow), PairAction::Skip);
    }
    assert_eq!(system.classify_pair(&pair, dynamic, dynamic, true), PairAction::Resolve);
    assert_eq!(system.classify_pair(&pair, dynamic, dynamic, false), PairAction::Sweep);
    assert_eq!(
        system.classify_pair(&pair, Some(PhycisObjectType::Static), Some(PhycisObjectType::Static), true),
        PairAction::Skip
    );
}

#[test]
fn contacts_are_kept_for_one_update() {
    let mut system = PhysicsSystem::new();
    system.begin_update();
    let first = Collision {
        node1: 4,
        node2: 9,
        normal: Point3::new(0, 1, 0),
        point: Point3::new(3, 5, 7),
        correction: Point3::new(0, -2, 0),
    };
    let second = Collision {
        node1: 2,
        node2: 4,
        normal: Point3::new(1, 0, 0),
        point: Point3::new(1, 1, 1),
        correction: Point3::new(-1, 0, 0),
    };
    let plan = system.resolve(&first, PhycisObjectType::Dynamic, PhycisObjectType::Dynamic, false, false);
    assert_eq!(
        plan,
        resolution(&first, PhycisObjectType::Dynamic, PhycisObjectType::Dynamic, false, false)
    );
    system.resolve(&second, PhycisObjectType::Static, PhycisObjectType::Dynamic, true, false);
    assert_eq!(
        system.contacts_of(4),
        vec![
            ContactInfo { normal: Point3::new(0, 1, 0), point: Point3::new(3, 5, 7), node_id: 9 },
            ContactInfo { normal: Point3::new(-1, 0, 0), point: Point3::new(1, 1, 1), node_id: 2 },
        ]
    );
    assert_eq!(
        system.contacts_of(9),
        vec![ContactInfo { normal: Point3::new(0, -1, 0), point: Point3::new(3, 5, 7), node_id: 4 }]
    );
    assert!(system.contacts_of(2).is_empty());
    system.resolve(&first, PhycisObjectType::Dynamic, PhycisObjectType::Dynamic, true, true);
    assert_eq!(system.contacts_of(4).len(), 2);
    system.begin_update();
    assert!(system.contacts_of(4).is_empty());
    assert!(system.contacts_of(9).is_empty());
}
