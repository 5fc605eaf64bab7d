use crate::aabb::Point3;
use crate::aabb::AABB;
use crate::collision::COORD_LIMIT;
use vstd::prelude::*;

verus! {

/// The form of a collision shape, with its measures in whole units.
#[derive(Debug, Clone, Copy, PartialEq, Eq, Structural)]
pub enum ColliderType {
    /// A box with the given half-extents.
    Cuboid { size: Point3 },
    Sphere { radius: i64 },
    /// A cylinder of the given half-height with a half-sphere on either end.
    Capsule { half_height: i64, radius: i64 },
    Cylinder { half_height: i64, radius: i64 },
    /// A mesh; it is bounded by its origin alone.
    TriMesh { mesh_id: usize },
}

/// A collision shape and where it sits relative to the origin of its body.
#[derive(Debug, Clone, Copy, PartialEq, Eq, Structural)]
pub struct CollisionShape {
    pub shape: ColliderType,
    pub position_offset: Point3,
}

impl ColliderType {
    /// How far the shape reaches from its centre along each axis.
    pub open spec fn extents(&self) -> (int, int, int) {
        match *self {
            ColliderType::Cuboid { size } => (size.x as int, size.y as int, size.z as int),
            ColliderType::Sphere { radius } => (radius as int, radius as int, radius as int),
            ColliderType::Capsule { half_height, radius } => (
                radius as int,
                half_height + radius,
                radius as int,
            ),
            ColliderType::Cylinder { half_height, radius } => (
                radius as int,
                half_height as int,
                radius as int,
            ),
            ColliderType::TriMesh { mesh_id } => (0, 0, 0),
        }
    }

    /// Whether every measure of the shape is within the limit of the collision
    /// arithmetic.
    pub open spec fn in_range(&self) -> bool {
        match *self {
            ColliderType::Cuboid { size } => size.in_range(),
            ColliderType::Sphere { radius } => -COORD_LIMIT <= radius <= COORD_LIMIT,
            ColliderType::Capsule { half_height, radius } => -COORD_LIMIT <= radius <= COORD_LIMIT
                && -COORD_LIMIT <= half_height <= COORD_LIMIT,
            ColliderType::Cylinder { half_height, radius } => -COORD_LIMIT <= radius <= COORD_LIMIT
                && -COORD_LIMIT <= half_height <= COORD_LIMIT,
            ColliderType::TriMesh { mesh_id } => true,
        }
    }
}

impl CollisionShape {
    /// Whether the shape and its offset are within the limit of the collision
    /// arithmetic.
    pub open spec fn in_range(&self) -> bool {
        self.shape.in_range() && self.position_offset.in_range()
    }

    /// The bounding box of the shape on a body at `position`: the centre of
    /// the shape, give or take its extents along each axis.
    pub open spec fn bounds(&self, position: Point3) -> AABB {
        let e = self.shape.extents();
        AABB {
            min: Point3 {
                x: (position.x + self.position_offset.x - e.0) as i64,
                y: (position.y + self.position_offset.y - e.1) as i64,
                z: (position.z + self.position_offset.z - e.2) as i64,
            },
            max: Point3 {
                x: (position.x + self.position_offset.x + e.0) as i64,
                y: (position.y + self.position_offset.y + e.1) as i64,
                z: (position.z + self.position_offset.z + e.2) as i64,
            },
        }
    }

    /// A box of the given half-extents, centred on its body.
    pub fn new(size: Point3) -> (shape: Self)
        ensures
            shape.shape == (ColliderType::Cuboid { size }),
            shape.position_offset == (Point3 { x: 0, y: 0, z: 0 }),
    {
        Self { shape: ColliderType::Cuboid { size }, position_offset: Point3 { x: 0, y: 0, z: 0 } }
    }

    /// Tests whether the shape and its offset are within the limit.
    pub fn is_in_range(&self) -> (ok: bool)
        ensures
            ok == self.in_range(),
    {
        let measures = match self.shape {
            ColliderType::Cuboid { size } => size.is_in_range(),
            ColliderType::Sphere { radius } => -COORD_LIMIT <= radius && radius <= COORD_LIMIT,
            ColliderType::Capsule { half_height, radius } => -COORD_LIMIT <= radius && radius
                <= COORD_LIMIT && -COORD_LIMIT <= half_height && half_height <= COORD_LIMIT,
            ColliderType::Cylinder { half_height, radius } => -COORD_LIMIT <= radius && radius
                <= COORD_LIMIT && -COORD_LIMIT <= half_height && half_height <= COORD_LIMIT,
            ColliderType::TriMesh { mesh_id } => true,
        };
        measures && self.position_offset.is_in_range()
    }

    /// The bounding box of the shape on a body at `position`.
    pub fn aabb(&self, position: Point3) -> (aabb: AABB)
        requires
            self.in_range(),
            position.in_range(),
        ensures
            aabb == self.bounds(position),
    {
        let (ex, ey, ez): (i64, i64, i64) = match self.shape {
            ColliderType::Cuboid { size } => (size.x, size.y, size.z),
            ColliderType::Sphere { radius } => (radius, radius, radius),
            ColliderType::Capsule { half_height, radius } => (radius, half_height + radius, radius),
            ColliderType::Cylinder { half_height, radius } => (radius, half_height, radius),
            ColliderType::TriMesh { mesh_id } => (0, 0, 0),
        };
        let cx: i64 = position.x + self.position_offset.x;
        let cy: i64 = position.y + self.position_offset.y;
        let cz: i64 = position.z + self.position_offset.z;
        AABB {
            min: Point3 { x: cx - ex, y: cy - ey, z: cz - ez },
            max: Point3 { x: cx + ex, y: cy + ey, z: cz + ez },
        }
    }

    /// Where the centre of mass of the shape sits relative to the origin of its body.
    pub fn center_of_mass(&self) -> (offset: Point3)
        ensures
            offset == self.position_offset,
    {
        self.position_offset
    }
}

/// The bounding box of a shape whose measures are not negative holds a point.
pub proof fn lemma_bounds_valid(shape: CollisionShape, position: Point3)
    requires
        shape.in_range(),
        position.in_range(),
        shape.shape.extents().0 >= 0,
        shape.shape.extents().1 >= 0,
        shape.shape.extents().2 >= 0,
    ensures
        shape.bounds(position).is_valid(),
{
}

} // verus!
