use glam::Mat3;
use glam::Vec3;
use pge::aabb::Point3;
use pge::collision::time_of_impact;
use pge::collision::Fraction;
use pge::collision::COORD_LIMIT;
use pge::physics::integrates;
use pge::physics::slower_than;
use pge::physics::Collision;
use pge::physics::ContactInfo;
use pge::physics::Outcome;
use pge::physics::PairAction;
use pge::physics::PhysicsSystem;
use pge::physics::Step;
use pge::shape::CollisionShape;
use pge::spatial_grid::SpatialGrid;
use pge::types::PhycisObjectType;
use pge::world::PhysicsWorld;
use pge::world::Placement;

const SCALE: f64 = 65536.0;
const GRAVITY: Vec3 = Vec3::new(0.0, -10.0, 0.0);

#[derive(Clone)]
struct Body {
    kind: PhycisObjectType,
    position: Vec3,
    velocity: Vec3,
    angular_velocity: Vec3,
    mass: f32,
    half: Vec3,
    lock_rotation: bool,
}

fn body(kind: PhycisObjectType, mass: f32, position: Vec3, half: Vec3) -> Body {
    Body {
        kind,
        position,
        velocity: Vec3::ZERO,
        angular_velocity: Vec3::ZERO,
        mass,
        half,
        lock_rotation: false,
    }
}

fn quantize(value: f32) -> i64 {
    let scaled = (value as f64 * SCALE).round();
    (scaled as i64).clamp(-COORD_LIMIT, COORD_LIMIT)
}

fn quantize_vec(v: Vec3) -> Point3 {
    Point3::new(quantize(v.x), quantize(v.y), quantize(v.z))
}

fn to_vec(p: Point3) -> Vec3 {
    Vec3::new((p.x as f64 / SCALE) as f32, (p.y as f64 / SCALE) as f32, (p.z as f64 / SCALE) as f32)
}

fn to_direction(p: Point3) -> Vec3 {
    Vec3::new(p.x as f32, p.y as f32, p.z as f32)
}

fn to_fraction(seconds: f32) -> Fraction {
    Fraction { num: (seconds as f64 * 1_000_000.0).round() as i64, den: 1_000_000 }
}

fn inverse_mass(mass: f32) -> f32 {
    if mass == 0.0 {
        0.0
    } else {
        1.0 / mass
    }
}

fn inertia(body: &Body) -> Mat3 {
    let size = body.half * 2.0;
    let m = body.mass / 12.0;
    Mat3::from_diagonal(Vec3::new(
        m * (size.y * size.y + size.z * size.z),
        m * (size.x * size.x + size.z * size.z),
        m * (size.x * size.x + size.y * size.y),
    ))
}

fn inverse_inertia(body: &Body) -> Mat3 {
    let tensor = inertia(body);
    if tensor == Mat3::ZERO {
        Mat3::ZERO
    } else {
        tensor.inverse()
    }
}

fn integrate(body: &mut Body, contacts: &Vec<ContactInfo>, dt: f32) {
    let mass = body.mass;
    let mut total_force = if mass > 0.0 { GRAVITY * mass } else { Vec3::ZERO };
    if !contacts.is_empty() {
        let mut net = Vec3::ZERO;
        for contact in contacts {
            net += to_direction(contact.normal);
        }
        let net = net.normalize_or_zero();
        if net != Vec3::ZERO {
            total_force -= GRAVITY.project_onto(net) * mass;
        }
    }
    let acceleration = if mass > 0.0 { total_force / mass } else { Vec3::ZERO };
    body.velocity += acceleration * dt;
    body.position += body.velocity * dt + 0.5 * acceleration * dt * dt;
}

fn update_nodes(system: &PhysicsSystem, bodies: &mut Vec<Body>, dt: f32) {
    for (id, body) in bodies.iter_mut().enumerate() {
        if integrates(body.kind, false) {
            integrate(body, &system.contacts_of(id), dt);
        }
    }
}

fn resolve(system: &mut PhysicsSystem, collision: &Collision, bodies: &mut Vec<Body>) {
    let (a, b) = (bodies[collision.node1].clone(), bodies[collision.node2].clone());
    let (inv_a, inv_b) = (inverse_mass(a.mass), inverse_mass(b.mass));
    let inv_sum = inv_a + inv_b;
    let plan = system.resolve(collision, a.kind, b.kind, inv_a == 0.0, inv_b == 0.0);
    if inv_sum == 0.0 {
        return;
    }
    let normal = to_direction(collision.normal);
    let point = to_vec(collision.point);
    let correction = to_vec(collision.correction);
    let (r1, r2) = (point - a.position, point - b.position);
    let rel = (b.velocity + b.angular_velocity.cross(r2)) - (a.velocity + a.angular_velocity.cross(r1));
    let vn = rel.dot(normal);
    let mut normal_impulse = Vec3::ZERO;
    let mut tangent_impulse = Vec3::ZERO;
    if vn < 0.0 {
        let term_a = normal.dot((inverse_inertia(&a) * r1.cross(normal)).cross(r1));
        let term_b = normal.dot((inverse_inertia(&b) * r2.cross(normal)).cross(r2));
        let k = inv_sum + term_a + term_b;
        let j = -(1.0 + 0.3) * vn / k;
        normal_impulse = j * normal;
        let tangent = (rel - vn * normal).normalize_or_zero();
        let jt = -rel.dot(tangent) / k;
        let max_friction = 0.2 * j.abs();
        tangent_impulse = if jt.abs() < max_friction { jt * tangent } else { max_friction * tangent * jt.signum() };
    }
    let impulse = normal_impulse + tangent_impulse;
    if plan.first.is_some() {
        let body = &mut bodies[collision.node1];
        body.velocity -= impulse * inv_a;
        if !body.lock_rotation {
            body.angular_velocity -= inverse_inertia(&a) * r1.cross(impulse);
        }
        body.position += correction * (inv_a / inv_sum);
    }
    if plan.second.is_some() {
        let body = &mut bodies[collision.node2];
        body.velocity += impulse * inv_b;
        if !body.lock_rotation {
            body.angular_velocity += inverse_inertia(&b) * r2.cross(impulse);
        }
        body.position -= correction * (inv_b / inv_sum);
    }
}

fn physics_update(system: &mut PhysicsSystem, bodies: &mut Vec<Body>, grid: &SpatialGrid, dt: f32) -> u32 {
    let mut dt = dt;
    let mut steps = 0;
    system.begin_update();
    loop {
        let time_left = to_fraction(dt);
        match system.begin_iteration(grid, time_left) {
            Step::Stop => break,
            Step::Integrate => {
                update_nodes(system, bodies, dt);
                break;
            }
            Step::Examine => {}
        }
        steps += 1;
        let collisions = system.collisions().clone();
        for collision in &collisions {
            let (a, b) = (&bodies[collision.node1], &bodies[collision.node2]);
            let rel = b.velocity - a.velocity;
            let slow = slower_than(quantize_vec(rel), 50 * 65536);
            match system.classify_pair(collision, Some(a.kind), Some(b.kind), slow) {
                PairAction::Skip => {}
                PairAction::Resolve => resolve(system, collision, bodies),
                PairAction::Sweep => {
                    let rect1 = grid.get_node_rect(collision.node1).unwrap();
                    let rect2 = grid.get_node_rect(collision.node2).unwrap();
                    let toi = time_of_impact(&rect1, &rect2, quantize_vec(rel), time_left);
                    system.sweep(*collision, toi);
                }
            }
        }
        match system.end_iteration() {
            Outcome::Integrate => {
                update_nodes(system, bodies, dt);
                break;
            }
            Outcome::Advance { collision, step, .. } => {
                let time_step = (step.num as f64 / step.den as f64) as f32;
                update_nodes(system, bodies, time_step);
                dt -= time_step;
                resolve(system, &collision, bodies);
            }
        }
    }
    steps
}

fn process(world: &mut PhysicsWorld, bodies: &mut Vec<Body>, dt: f32) -> usize {
    let mut contacts = 0;
    let mut list: Vec<(usize, Option<Placement>)> = Vec::new();
    for (id, body) in bodies.iter().enumerate() {
        let shape = CollisionShape::new(quantize_vec(body.half));
        let aabb = shape.aabb(quantize_vec(body.position));
        assert!(aabb.is_in_range());
        list.push((id, Some(Placement { scene: 0, aabb })));
    }
    world.sync_from_state(&list);
    for scene in world.scene_list().clone() {
        let mut collection = world.take_scene(scene).unwrap();
        let steps = physics_update(&mut collection.physics_system, bodies, &collection.grid, dt);
        assert!(steps <= 10);
        for id in 0..bodies.len() {
            contacts += collection.physics_system.contacts_of(id).len();
        }
        world.put_scene(scene, collection);
    }
    let count = bodies.len();
    world.retain_nodes(&|id: usize| id < count);
    contacts
}

fn new_world() -> PhysicsWorld {
    PhysicsWorld::with_cell_size(5 * 65536)
}

#[test]
fn dropped_box_settles_on_the_floor() {
    let mut world = new_world();
    let mut bodies = vec![
        body(PhycisObjectType::Static, 0.0, Vec3::new(0.0, 1.0, 0.0), Vec3::new(10.0, 1.0, 10.0)),
        body(PhycisObjectType::Dynamic, 1.0, Vec3::new(0.0, 10.0, 0.0), Vec3::new(1.0, 1.0, 1.0)),
    ];
    bodies[1].lock_rotation = true;
    for _ in 0..2000 {
        process(&mut world, &mut bodies, 0.016);
    }
    // The bottom face rests on the top face of the floor; what is left of the
    // motion is less than the speed that gravity gives in one step and a bit.
    let resting = 1.0 + 1.0 + 1.0;
    assert!((bodies[1].position.y - resting).abs() < 0.05, "y = {}", bodies[1].position.y);
    assert!(bodies[1].velocity.length() < 0.2, "v = {:?}", bodies[1].velocity);
    assert_eq!(bodies[0].position, Vec3::new(0.0, 1.0, 0.0));
}

#[test]
fn object_does_not_fall_through_floor() {
    let mut world = new_world();
    let mut bodies = vec![
        body(PhycisObjectType::Static, 0.0, Vec3::new(0.0, 1.0, 0.0), Vec3::new(10.0, 1.0, 10.0)),
        body(PhycisObjectType::Dynamic, 1.0, Vec3::new(0.0, 10.0, 0.0), Vec3::new(1.0, 1.0, 1.0)),
    ];
    bodies[1].lock_rotation = true;
    for _ in 0..2000 {
        process(&mut world, &mut bodies, 0.016);
    }
    assert!(bodies[1].position.y >= 0.0, "Dynamic object fell through the floor");
}

#[test]
fn fast_object_does_not_fall_through_floor() {
    let mut world = new_world();
    let mut bodies = vec![
        body(PhycisObjectType::Static, 0.0, Vec3::new(0.0, 1.0, 0.0), Vec3::new(10.0, 1.0, 10.0)),
        body(PhycisObjectType::Dynamic, 1.0, Vec3::new(0.0, 10.0, 0.0), Vec3::new(1.0, 1.0, 1.0)),
    ];
    bodies[1].velocity = Vec3::new(0.0, -500.0, 0.0);
    for _ in 0..3000 {
        process(&mut world, &mut bodies, 0.016);
    }
    assert!(bodies[1].position.y >= 0.0, "Fast object fell through the floor");
}

#[test]
fn fast_box_does_not_tunnel_through_a_thin_floor() {
    let mut world = new_world();
    let mut bodies = vec![
        body(PhycisObjectType::Static, 0.0, Vec3::new(0.0, 1.0, 0.0), Vec3::new(10.0, 0.1, 10.0)),
        body(PhycisObjectType::Dynamic, 1.0, Vec3::new(0.0, 10.0, 0.0), Vec3::new(1.0, 1.0, 1.0)),
    ];
    bodies[1].velocity = Vec3::new(0.0, -500.0, 0.0);
    let floor_bottom = 1.0 - 0.1;
    for _ in 0..3000 {
        process(&mut world, &mut bodies, 0.016);
    }
    assert!(bodies[1].position.y >= floor_bottom - 0.01, "y = {}", bodies[1].position.y);
}

#[test]
fn player_does_not_fall_through_floor() {
    let mut world = new_world();
    let mut bodies = vec![
        body(PhycisObjectType::Static, 0.0, Vec3::new(0.0, 0.0, 0.0), Vec3::new(50.0, 0.1, 50.0)),
        body(PhycisObjectType::Dynamic, 70.0, Vec3::new(0.0, 5.0, 0.0), Vec3::new(1.0, 2.0, 1.0)),
    ];
    for _ in 0..600 {
        process(&mut world, &mut bodies, 0.016);
    }
    assert!(bodies[1].position.y >= -0.01, "player fell through floor: y={}", bodies[1].position.y);
}

#[test]
fn two_cubes_come_to_rest_on_the_floor() {
    let mut world = new_world();
    let mut bodies = vec![
        body(PhycisObjectType::Dynamic, 10.0, Vec3::new(0.0, 10.0, 0.0), Vec3::new(1.0, 1.0, 1.0)),
        body(PhycisObjectType::Dynamic, 10.0, Vec3::new(3.0, 10.0, 0.0), Vec3::new(1.0, 1.0, 1.0)),
        body(PhycisObjectType::Static, 0.0, Vec3::new(0.0, 1.0, 0.0), Vec3::new(100.0, 0.1, 100.0)),
    ];
    for _ in 0..600 {
        process(&mut world, &mut bodies, 0.016);
    }
    let floor_top = 1.0 + 0.1;
    for cube in &bodies[0..2] {
        assert!(cube.position.y >= floor_top - 0.01, "y = {}", cube.position.y);
        assert!(cube.velocity.length() < 0.1, "v = {:?}", cube.velocity);
    }
}

#[test]
fn overlapping_static_bodies_never_move() {
    let mut world = new_world();
    let mut bodies = vec![
        body(PhycisObjectType::Static, 0.0, Vec3::new(0.0, 0.0, 0.0), Vec3::new(2.0, 2.0, 2.0)),
        body(PhycisObjectType::Static, 5.0, Vec3::new(1.0, 1.0, 1.0), Vec3::new(2.0, 2.0, 2.0)),
    ];
    let before: Vec<Vec3> = bodies.iter().map(|b| b.position).collect();
    for _ in 0..100 {
        let contacts = process(&mut world, &mut bodies, 0.016);
        assert_eq!(contacts, 0);
    }
    for (body, start) in bodies.iter().zip(before) {
        assert_eq!(body.position, start);
        assert_eq!(body.velocity, Vec3::ZERO);
    }
}

#[test]
fn process_without_time_moves_nothing() {
    let mut world = new_world();
    let mut bodies = vec![
        body(PhycisObjectType::Static, 0.0, Vec3::new(0.0, 1.0, 0.0), Vec3::new(10.0, 1.0, 10.0)),
        body(PhycisObjectType::Dynamic, 1.0, Vec3::new(0.0, 2.5, 0.0), Vec3::new(1.0, 1.0, 1.0)),
    ];
    process(&mut world, &mut bodies, 0.0);
    let nodes = world.scene(0).unwrap().grid.nodes().clone();
    let cell = world.scene(0).unwrap().grid.cell(pge::aabb::Cell { x: 0, y: 0, z: 0 });
    for _ in 0..5 {
        process(&mut world, &mut bodies, 0.0);
        assert_eq!(bodies[1].position, Vec3::new(0.0, 2.5, 0.0));
        assert_eq!(bodies[1].velocity, Vec3::ZERO);
        assert_eq!(world.scene(0).unwrap().grid.nodes(), &nodes);
        assert_eq!(world.scene(0).unwrap().grid.cell(pge::aabb::Cell { x: 0, y: 0, z: 0 }), cell);
    }
    assert_eq!(cell, vec![0, 1]);
}
