//! What surfaces do to the rays that hit them.

use vstd::prelude::*;
use crate::ray::{Hit, Ray};
use crate::vector::Vec3;

verus! {

/// The random number generator of `rand_xoshiro`, xoshiro256++. The library
/// never looks into it: it hands the generator on to the materials.
#[verifier::external_type_specification]
#[verifier::external_body]
pub struct ExXoshiro256PlusPlus(rand_xoshiro::Xoshiro256PlusPlus);

/// The random number generator that materials draw from.
pub type DefaultRng = rand_xoshiro::Xoshiro256PlusPlus;

/// A scattered ray and what is left of the light that travels along it.
#[derive(Clone, Copy, Debug, PartialEq, Eq, Structural)]
pub struct ScatterResult {
    pub scattered: Ray,
    /// The share of the light that the surface passes on, per colour channel.
    pub attenuation: Vec3,
}

/// A surface material.
///
/// `scatters` describes what the material may do. An implementation that is
/// not verified is taken at its word that `scatter` does nothing else.
pub trait Material {
    /// Whether the material may make `result` of light that arrives along
    /// `ray` at `hit`: what it draws from the random number generator decides
    /// among the results that it may give.
    spec fn scatters(&self, ray: Ray, hit: Hit, result: Option<ScatterResult>) -> bool;

    /// The ray into which light that arrives along `ray` at `hit` is
    /// scattered, or `None` where the surface absorbs it.
    fn scatter(&self, ray: Ray, hit: Hit, rng: &mut DefaultRng) -> (r: Option<ScatterResult>)
        ensures
            self.scatters(ray, hit, r),
    ;
}

/// Whether a mirroring surface swallows a ray scattered into `scattered`: it
/// does unless the ray leaves on the side that the normal points to.
pub fn absorbs(scattered: Vec3, normal: Vec3) -> (r: bool)
    ensures
        r == (scattered.spec_dot(normal) <= 0),
{
    scattered.dot(normal) <= 0
}

/// The direction a transparent surface sends a ray in: the reflected one
/// where refraction has no solution or reflection was drawn, else the
/// refracted one.
pub fn transmit(reflected: Vec3, refracted: Option<Vec3>, reflect_drawn: bool) -> (r: Vec3)
    ensures
        r == match refracted {
            None => reflected,
            Some(through) => if reflect_drawn {
                reflected
            } else {
                through
            },
        },
{
    match refracted {
        None => reflected,
        Some(through) => {
            if reflect_drawn {
                reflected
            } else {
                through
            }
        },
    }
}

} // verus!
