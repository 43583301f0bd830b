//! Geometric primitives.

use vstd::prelude::*;
use crate::ray::{Hit, Ray};

pub mod aabb;

pub use crate::primitives::aabb::AABB;

verus! {

/// What a primitive reports for a ray whose first crossing beyond the lower
/// bound is `first`, when asked about parameters below `t_max`.
pub open spec fn within(first: Option<Hit>, t_max: i64) -> Option<Hit> {
    match first {
        Some(hit) => if hit.t < t_max {
            Some(hit)
        } else {
            None
        },
        None => None,
    }
}

/// A geometric object that rays can be tested against.
///
/// The object is described by `first_hit` and `spec_bounds`, and the two laws
/// say what the hierarchy relies on. An implementation that is verified proves
/// the laws and the contracts of the three queries; one that is not is taken
/// at its word.
pub trait Intersect {
    /// The hit at the first crossing of `ray` with the object beyond the
    /// parameter `t_min`, if the ray crosses it there at all.
    spec fn first_hit(&self, ray: Ray, t_min: i64) -> Option<Hit>;

    /// The object's bounding box, if it has one.
    spec fn spec_bounds(&self) -> Option<AABB>;

    /// The first crossing beyond `t_min` lies beyond `t_min`.
    proof fn lemma_first_hit_beyond(&self, ray: Ray, t_min: i64)
        requires
            self.first_hit(ray, t_min) is Some,
        ensures
            self.first_hit(ray, t_min).unwrap().t > t_min,
    ;

    /// A ray that crosses the object on its way out from the origin passes
    /// through the object's bounding box.
    proof fn lemma_crossing_in_bounds(&self, ray: Ray, t_min: i64)
        requires
            t_min >= 0,
            self.first_hit(ray, t_min) is Some,
            self.spec_bounds() is Some,
        ensures
            self.spec_bounds().unwrap().meets(ray),
    ;

    /// The nearest crossing of `ray` with the object at a parameter strictly
    /// between `t_min` and `t_max`.
    fn intersection(&self, ray: Ray, t_min: i64, t_max: i64) -> (r: Option<Hit>)
        ensures
            r == within(self.first_hit(ray, t_min), t_max),
    ;

    /// Whether `ray` crosses the object at a parameter strictly between
    /// `t_min` and `t_max`.
    fn has_intersection(&self, ray: Ray, t_min: i64, t_max: i64) -> (r: bool)
        ensures
            r == within(self.first_hit(ray, t_min), t_max).is_some(),
    ;

    /// A box around the object.
    fn bounds(&self) -> (r: Option<AABB>)
        ensures
            r == self.spec_bounds(),
    ;
}

} // verus!
