use pge::aabb::Point3;
use pge::aabb::AABB;
use pge::collision::penetration_axis;
use pge::collision::ray_aabb;
use pge::collision::time_of_impact;
use pge::collision::Fraction;
use pge::collision::Penetration;
use pge::collision::SphereCast;
use pge::collision::COORD_LIMIT;
use pge::shape::ColliderType;
use pge::shape::CollisionShape;

fn boxed(min: (i64, i64, i64), max: (i64, i64, i64)) -> AABB {
    AABB::new(Point3::new(min.0, min.1, min.2), Point3::new(max.0, max.1, max.2))
}

fn frac(num: i64, den: i64) -> Fraction {
    Fraction { num, den }
}

#[test]
fn penetration_picks_the_axis_of_least_overlap() {
    // A box resting one unit deep in a floor below it.
    let floor = boxed((-100, 0, -100), (100, 10, 100));
    let cube = boxed((-2, 9, -2), (2, 13, 2));
    assert_eq!(
        penetration_axis(&floor, &cube),
        Penetration {
            normal: Point3::new(0, 1, 0),
            correction: Point3::new(0, -1, 0),
            point: Point3::new(0, 9, 0),
        }
    );
    assert_eq!(
        penetration_axis(&cube, &floor),
        Penetration {
            normal: Point3::new(0, -1, 0),
            correction: Point3::new(0, 1, 0),
            point: Point3::new(0, 10, 0),
        }
    );
}

#[test]
fn penetration_along_each_axis() {
    let a = boxed((0, 0, 0), (10, 10, 10));
    let x = penetration_axis(&a, &boxed((7, 1, 1), (17, 9, 9)));
    assert_eq!(x.normal, Point3::new(1, 0, 0));
    assert_eq!(x.correction, Point3::new(-3, 0, 0));
    assert_eq!(x.point, Point3::new(7, 5, 5));
    let z = penetration_axis(&a, &boxed((1, 1, -8), (9, 9, 2)));
    assert_eq!(z.normal, Point3::new(0, 0, -1));
    assert_eq!(z.correction, Point3::new(0, 0, 2));
    assert_eq!(z.point, Point3::new(5, 5, 2));
}

#[test]
fn penetration_ties_go_to_the_first_axis() {
    let a = boxed((0, 0, 0), (4, 4, 4));
    let b = boxed((2, 2, 2), (6, 6, 6));
    assert_eq!(penetration_axis(&a, &b).normal, Point3::new(1, 0, 0));
    // Touching boxes: the depth is 0 along the axis of contact.
    let touch = penetration_axis(&a, &boxed((0, 4, 0), (4, 8, 4)));
    assert_eq!(touch.normal, Point3::new(0, 1, 0));
    assert_eq!(touch.correction, Point3::new(0, 0, 0));
    // The same centre: the second box counts as lying before the first.
    assert_eq!(penetration_axis(&a, &a).normal, Point3::new(-1, 0, 0));
    assert_eq!(penetration_axis(&a, &a).correction, Point3::new(4, 0, 0));
}

#[test]
fn contact_point_centre_rounds_down() {
    let a = boxed((-3, -3, 0), (0, 0, 1));
    let b = boxed((-10, -10, -10), (10, 10, 10));
    assert_eq!(penetration_axis(&a, &b).point, Point3::new(-2, -2, 0));
}

#[test]
fn time_of_impact_of_an_approaching_box() {
    let a = boxed((0, 0, 0), (1, 1, 1));
    let b = boxed((5, 0, 0), (6, 1, 1));
    let toward = Point3::new(8, 0, 0);
    assert_eq!(time_of_impact(&a, &b, toward, frac(1, 1)), Some(frac(4, 8)));
    assert_eq!(time_of_impact(&a, &b, toward, frac(1, 2)), Some(frac(4, 8)));
    assert_eq!(time_of_impact(&a, &b, toward, frac(49, 100)), None);
    assert_eq!(time_of_impact(&a, &b, Point3::new(-8, 0, 0), frac(1, 1)), None);
    assert_eq!(time_of_impact(&a, &b, toward, frac(-1, 1)), None);
}

#[test]
fn time_of_impact_is_zero_for_overlapping_boxes() {
    let a = boxed((0, 0, 0), (4, 4, 4));
    let b = boxed((2, 2, 2), (6, 6, 6));
    assert_eq!(time_of_impact(&a, &b, Point3::new(0, 0, 0), frac(16, 1000)), Some(frac(0, 1)));
    assert_eq!(time_of_impact(&a, &b, Point3::new(3, -1, 0), frac(16, 1000)), Some(frac(0, 1)));
}

#[test]
fn time_of_impact_needs_overlap_on_the_axes_without_motion() {
    let a = boxed((0, 0, 0), (1, 1, 1));
    let beside = boxed((5, 3, 0), (6, 4, 1));
    assert_eq!(time_of_impact(&a, &beside, Point3::new(8, 0, 0), frac(1, 1)), None);
    let touching = boxed((5, 1, 0), (6, 2, 1));
    assert_eq!(time_of_impact(&a, &touching, Point3::new(8, 0, 0), frac(1, 1)), None);
    // Moving on two axes: the later entry decides.
    let diagonal = boxed((5, 3, 0), (6, 4, 1));
    assert_eq!(time_of_impact(&a, &diagonal, Point3::new(8, 3, 0), frac(1, 1)), Some(frac(2, 3)));
    assert_eq!(time_of_impact(&a, &diagonal, Point3::new(8, 30, 0), frac(1, 1)), None);
}

#[test]
fn ray_enters_and_leaves_a_box() {
    let target = boxed((-1, -1, 10), (1, 1, 12));
    let origin = Point3::new(0, 0, 0);
    assert_eq!(
        ray_aabb(&target, origin, Point3::new(0, 0, 20)),
        Some((frac(10, 20), frac(12, 20)))
    );
    assert_eq!(
        ray_aabb(&target, Point3::new(0, 0, 20), origin),
        Some((frac(8, 20), frac(10, 20)))
    );
    assert_eq!(ray_aabb(&target, origin, Point3::new(0, 0, 9)), None);
    assert_eq!(ray_aabb(&target, origin, Point3::new(0, 0, 10)), Some((frac(10, 10), frac(12, 10))));
    assert_eq!(ray_aabb(&target, origin, Point3::new(0, 0, -20)), None);
    assert_eq!(ray_aabb(&target, Point3::new(5, 0, 0), Point3::new(5, 0, 20)), None);
    assert_eq!(ray_aabb(&target, Point3::new(1, 0, 0), Point3::new(1, 0, 20)), None);
}

#[test]
fn ray_from_inside_has_a_negative_entry() {
    let target = boxed((-2, -2, -2), (2, 2, 2));
    assert_eq!(
        ray_aabb(&target, Point3::new(0, 0, 0), Point3::new(4, 0, 0)),
        Some((frac(-2, 4), frac(2, 4)))
    );
    assert_eq!(
        ray_aabb(&target, Point3::new(0, 0, 0), Point3::new(0, 0, 0)),
        Some((frac(0, 1), frac(1, 1)))
    );
    assert_eq!(ray_aabb(&target, Point3::new(9, 0, 0), Point3::new(9, 0, 0)), None);
}

#[test]
fn ray_on_a_diagonal() {
    let target = boxed((4, 4, 4), (6, 6, 6));
    assert_eq!(
        ray_aabb(&target, Point3::new(0, 0, 0), Point3::new(10, 10, 10)),
        Some((frac(4, 10), frac(6, 10)))
    );
    assert_eq!(
        ray_aabb(&target, Point3::new(0, 0, 0), Point3::new(10, 12, 10)),
        Some((frac(4, 10), frac(6, 12)))
    );
    assert_eq!(ray_aabb(&target, Point3::new(0, 0, 0), Point3::new(10, 20, 10)), None);
    assert_eq!(ray_aabb(&target, Point3::new(0, 0, 0), Point3::new(10, 40, 10)), None);
}

#[test]
fn range_checks() {
    assert!(Point3::new(COORD_LIMIT, -COORD_LIMIT, 0).is_in_range());
    assert!(!Point3::new(COORD_LIMIT + 1, 0, 0).is_in_range());
    assert!(boxed((0, 0, 0), (1, 1, 1)).is_in_range());
    assert!(!boxed((0, 0, 0), (1, 1, i64::MAX)).is_in_range());
    assert!(frac(1, 2).is_valid_time());
    assert!(!frac(1, 0).is_valid_time());
    assert!(!frac(1, -2).is_valid_time());
    assert!(frac(1, 3).is_less(&frac(1, 2)));
    assert!(!frac(2, 4).is_less(&frac(1, 2)));
    assert_eq!(frac(2, 4).later_of(&frac(1, 2)), frac(2, 4));
    assert_eq!(frac(1, 3).later_of(&frac(1, 2)), frac(1, 2));
    assert_eq!(frac(1, 3).earlier_of(&frac(1, 2)), frac(1, 3));
    assert_eq!(Fraction::whole(7), frac(7, 1));
}

#[test]
fn every_shape_has_a_bounding_box() {
    let at = Point3::new(10, 20, 30);
    let cuboid = CollisionShape::new(Point3::new(1, 2, 3));
    assert_eq!(cuboid.aabb(at), boxed((9, 18, 27), (11, 22, 33)));
    assert_eq!(cuboid.center_of_mass(), Point3::new(0, 0, 0));
    let offset = Point3::new(0, 5, 0);
    let sphere = CollisionShape { shape: ColliderType::Sphere { radius: 4 }, position_offset: offset };
    assert_eq!(sphere.aabb(at), boxed((6, 21, 26), (14, 29, 34)));
    assert_eq!(sphere.center_of_mass(), offset);
    let capsule = CollisionShape {
        shape: ColliderType::Capsule { half_height: 3, radius: 2 },
        position_offset: offset,
    };
    assert_eq!(capsule.aabb(at), boxed((8, 20, 28), (12, 30, 32)));
    let cylinder = CollisionShape {
        shape: ColliderType::Cylinder { half_height: 3, radius: 2 },
        position_offset: offset,
    };
    assert_eq!(cylinder.aabb(at), boxed((8, 22, 28), (12, 28, 32)));
    let mesh = CollisionShape { shape: ColliderType::TriMesh { mesh_id: 7 }, position_offset: offset };
    assert_eq!(mesh.aabb(at), boxed((10, 25, 30), (10, 25, 30)));
    assert!(cuboid.is_in_range());
    assert!(!CollisionShape::new(Point3::new(1, i64::MAX, 1)).is_in_range());
}

#[test]
fn box_methods_agree_with_the_free_functions() {
    let a = boxed((0, 0, 0), (10, 10, 10));
    let b = boxed((7, 1, 1), (17, 9, 9));
    assert_eq!(a.get_correction(&b), Point3::new(-3, 0, 0));
    assert_eq!(b.get_correction(&a), Point3::new(3, 0, 0));
    assert_eq!(
        a.intersect_ray(Point3::new(-10, 5, 5), Point3::new(30, 5, 5)),
        Some((frac(10, 40), frac(20, 40)))
    );
    assert_eq!(a.intersect_ray(Point3::new(-10, 50, 5), Point3::new(30, 50, 5)), None);
}

#[test]
fn sphere_touches_the_nearest_point_of_the_box() {
    let a = boxed((0, 0, 0), (10, 10, 10));
    let ball = |x: i64, y: i64, z: i64, radius: i64| SphereCast { origin: Point3::new(x, y, z), radius, length: 0 };
    assert!(a.intersect_sphere(&ball(5, 5, 5, 0)));
    assert!(a.intersect_sphere(&ball(13, 14, 5, 5)));
    assert!(!a.intersect_sphere(&ball(13, 14, 5, 4)));
    assert!(a.intersect_sphere(&ball(-2, 5, 5, 2)));
    assert!(!a.intersect_sphere(&ball(-3, 5, 5, 2)));
    assert!(!a.intersect_sphere(&ball(5, 5, 5, -1)));
    assert!(a.intersect_sphere(&ball(11, 11, 11, 2)));
    assert!(!a.intersect_sphere(&ball(12, 12, 12, 3)));
}

#[test]
fn correction_takes_a_box_out_of_one_that_it_holds() {
    // The other box lies within this one along x: the way out is to its
    // nearer face, not the width of what the two have in common.
    let this = boxed((0, 0, 0), (10, 10, 10));
    let other = boxed((4, -100, -100), (5, 100, 100));
    let found = penetration_axis(&this, &other);
    assert_eq!(found.correction, Point3::new(5, 0, 0));
    assert_eq!(found.normal, Point3::new(-1, 0, 0));
    assert_eq!(this.get_correction(&other), Point3::new(5, 0, 0));
    assert_eq!(this.min.x + 5, other.max.x);
    // Seen from the other box, the way out is the other way.
    assert_eq!(other.get_correction(&this), Point3::new(-5, 0, 0));
    assert_eq!(other.max.x - 5, this.min.x);
}

#[test]
fn correction_lifts_a_cube_off_a_thin_floor() {
    let floor = boxed((-1000, 9, -1000), (1000, 11, 1000));
    let sunk = boxed((-10, 10, -10), (10, 30, 10));
    assert_eq!(sunk.get_correction(&floor), Point3::new(0, 1, 0));
    assert_eq!(floor.get_correction(&sunk), Point3::new(0, -1, 0));
    // The floor lies within the cube along y, with the same centre.
    let around = boxed((-10, 8, -10), (10, 12, 10));
    assert_eq!(around.get_correction(&floor), Point3::new(0, 3, 0));
    assert_eq!(around.min.y + 3, floor.max.y);
    // The cube comes from below.
    let below = boxed((-10, -5, -10), (10, 10, 10));
    assert_eq!(below.get_correction(&floor), Point3::new(0, -1, 0));
    assert_eq!(below.max.y - 1, floor.min.y);
}

#[test]
fn correction_goes_by_the_least_depth() {
    // Along x the boxes have 1 in common but the way out is 5; along y it is 2.
    let this = boxed((0, 0, 0), (10, 10, 10));
    let other = boxed((4, 8, -100), (5, 20, 100));
    let found = penetration_axis(&this, &other);
    assert_eq!(found.correction, Point3::new(0, -2, 0));
    assert_eq!(found.normal, Point3::new(0, 1, 0));
    assert_eq!(this.max.y - 2, other.min.y);
}
