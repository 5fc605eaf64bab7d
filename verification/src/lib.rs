pub mod aabb;
pub mod arena;
pub mod buffer;
pub mod collision;
pub mod debug;
pub mod gui;
pub mod hardware;
pub mod mock_hardware;
pub mod physics;
pub mod raycast;
pub mod rounding;
pub mod shape;
pub mod spatial_grid;
pub mod types;
pub mod utility;
pub mod world;
mod storage;

pub use arena::Arena;
pub use arena::ArenaId;
pub use arena::ArenaIntoIterator;
pub use arena::ArenaIterMut;
pub use arena::ArenaIterator;
pub use aabb::Point3;
pub use aabb::AABB;
pub use collision::Fraction;
pub use hardware::Hardware;
pub use physics::Collision;
pub use physics::ContactInfo;
pub use physics::PhysicsSystem;
pub use raycast::RayCast;
pub use shape::ColliderType;
pub use shape::CollisionShape;
pub use spatial_grid::SpatialGrid;
pub use types::PhycisObjectType;
pub use world::PhysicsWorld;
