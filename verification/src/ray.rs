//! Rays and the hits they produce.

use vstd::prelude::*;
use crate::vector::{fits_lattice, product, Vec3};

verus! {

/// A half-line on the lattice: the points `origin + t * direction` for
/// rational `t >= 0`.
#[derive(Clone, Copy, Debug, PartialEq, Eq, Structural)]
pub struct Ray {
    pub origin: Vec3,
    pub direction: Vec3,
}

impl Ray {
    /// The components of `origin + t * direction`.
    pub open spec fn spec_point_at_parameter(self, t: int) -> (int, int, int) {
        (
            self.origin.x + t * self.direction.x,
            self.origin.y + t * self.direction.y,
            self.origin.z + t * self.direction.z,
        )
    }

    /// The ray from `origin` along `direction`.
    pub fn new(origin: Vec3, direction: Vec3) -> (r: Self)
        ensures
            r == (Ray { origin, direction }),
    {
        Ray { origin, direction }
    }

    /// The lattice point reached after `t` whole steps along the direction.
    pub fn point_at_parameter(&self, t: i32) -> (r: Vec3)
        requires
            fits_lattice(self.spec_point_at_parameter(t as int)),
        ensures
            r.has_components(self.spec_point_at_parameter(t as int)),
    {
        Vec3 {
            x: step(self.origin.x, t, self.direction.x),
            y: step(self.origin.y, t, self.direction.y),
            z: step(self.origin.z, t, self.direction.z),
        }
    }
}

fn step(o: i32, t: i32, d: i32) -> (r: i32)
    requires
        i32::MIN <= o + t * d <= i32::MAX,
    ensures
        r == o + t * d,
{
    let wide: i128 = (o as i128) + product(t, d);
    wide as i32
}

/// What a primitive reports when a ray crosses it.
#[derive(Clone, Copy, Debug, PartialEq, Eq, Structural)]
pub struct Hit {
    /// The ray parameter of the crossing; parameters are ordered, and `0` is
    /// the ray origin.
    pub t: i64,
    pub point: Vec3,
    pub normal: Vec3,
    /// Index of the surface's material in the scene's material table, once an
    /// instance has attached one.
    pub material: Option<usize>,
}

} // verus!
