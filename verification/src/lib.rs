//! The exact core of a Monte-Carlo path tracer.
//!
//! Geometry lives on an integer lattice. Coordinates are `i32`; whatever is
//! derived from them (extents, surface areas, split costs, the parameters of
//! the slab test) is computed without rounding in wider integers. The
//! parameter of a crossing along a ray is an ordered `i64`, with `0` at the
//! ray's origin; the unit is for the primitives of a scene to agree on.
//!
//! On this the crate builds
//! - axis-aligned bounding boxes ([`primitives::aabb`]),
//! - the bounding volume hierarchy: its builder, guided by the surface-area
//!   heuristic, the flattened tree, and the nearest-hit query ([`bvh`]),
//! - the bounce loop of the light-transport integrator ([`integrator`]),
//! - the assembly of the output raster ([`scene`]).
//!
//! Primitives and materials are what a renderer brings along: they implement
//! [`primitives::Intersect`] and [`material::Material`]. What the crate proves
//! of a hierarchy or a light path it proves for every implementation that
//! keeps the laws stated with these traits.

pub mod bvh;
pub mod integrator;
pub mod material;
pub mod primitives;
pub mod ray;
pub mod scene;
pub mod vector;

pub use crate::bvh::BVH;
pub use crate::integrator::color;
pub use crate::material::{DefaultRng, Material, ScatterResult};
pub use crate::primitives::{Intersect, AABB};
pub use crate::ray::{Hit, Ray};
pub use crate::scene::{Image, Materials, SettingsConfig};
pub use crate::vector::{reflect, Axis, Vec3};
