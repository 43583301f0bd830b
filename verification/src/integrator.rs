//! The bounce loop of the light-transport integrator.

use vstd::prelude::*;
use crate::bvh::traverse::walk;
use crate::bvh::BVH;
use crate::material::{DefaultRng, Material, ScatterResult};
use crate::primitives::Intersect;
use crate::ray::{Hit, Ray};
use crate::scene::Materials;
use crate::vector::Vec3;

verus! {

/// How a light path ended.
#[derive(Clone, Copy, Debug, PartialEq, Eq, Structural)]
pub enum PathEnd {
    /// The bounce budget was spent before the path came to an end: no light.
    Exhausted,
    /// The surface hit last passed nothing on: no light. This is also how a
    /// path ends on a surface without a material in the table.
    Absorbed(Hit),
    /// The ray hit nothing: the light of the background seen along it.
    Escaped(Ray),
}

/// A light path followed from the camera: the attenuation of each bounce in
/// turn, and how the path ended. The light that arrives along the path is
/// what the end gives, multiplied channel by channel by every attenuation.
#[derive(Debug)]
pub struct Path {
    pub attenuation: Vec<Vec3>,
    pub end: PathEnd,
}

/// What a ray of a path leads to: the end of the path, or another ray.
#[derive(Clone, Copy, Debug, PartialEq, Eq, Structural)]
pub enum Step {
    End(PathEnd),
    Bounce(ScatterResult),
}

/// The material that answers for a hit: the one that the hit names, if the
/// table holds it.
pub open spec fn spec_material_at<M: Material>(materials: Seq<M>, hit: Option<Hit>) -> Option<M> {
    match hit {
        Some(Hit { material: Some(handle), .. }) => if handle < materials.len() {
            Some(materials[handle as int])
        } else {
            None
        },
        _ => None,
    }
}

/// Whether `ray` may bounce into `next`: it hits a surface whose material may
/// scatter it so.
pub open spec fn bounces_to<P: Intersect, M: Material>(
    bvh: &BVH<P>,
    materials: Seq<M>,
    ray: Ray,
    next: ScatterResult,
    t_min: i64,
    t_max: i64,
) -> bool {
    let hit = walk(bvh.nodes(), bvh.primitives(), 0, ray, t_min, t_max);
    match (hit, spec_material_at(materials, hit)) {
        (Some(hit), Some(material)) => material.scatters(ray, hit, Some(next)),
        _ => false,
    }
}

/// Whether a path may end in `end` with `ray`: an escaped ray hits nothing; an
/// absorbing hit is what the ray hits, and has no material or one that may
/// absorb. Any ray may be the one at which the bounce budget is found spent.
pub open spec fn ends_in<P: Intersect, M: Material>(
    bvh: &BVH<P>,
    materials: Seq<M>,
    ray: Ray,
    end: PathEnd,
    t_min: i64,
    t_max: i64,
) -> bool {
    let hit = walk(bvh.nodes(), bvh.primitives(), 0, ray, t_min, t_max);
    match end {
        PathEnd::Exhausted => true,
        PathEnd::Escaped(last) => last == ray && hit is None,
        PathEnd::Absorbed(at) => hit == Some(at) && match spec_material_at(materials, hit) {
            Some(material) => material.scatters(ray, at, None),
            None => true,
        },
    }
}

/// Whether `rays` are the rays of a path with the given attenuations and end:
/// each ray but the last may bounce into the next with the attenuation of its
/// place, and the path may end with the last.
pub open spec fn follows<P: Intersect, M: Material>(
    bvh: &BVH<P>,
    materials: Seq<M>,
    rays: Seq<Ray>,
    attenuation: Seq<Vec3>,
    end: PathEnd,
    t_min: i64,
    t_max: i64,
) -> bool {
    &&& rays.len() == attenuation.len() + 1
    &&& forall|i: int|
        0 <= i < attenuation.len() ==> bounces_to(
            bvh,
            materials,
            #[trigger] rays[i],
            ScatterResult { scattered: rays[i + 1], attenuation: attenuation[i] },
            t_min,
            t_max,
        )
    &&& ends_in(bvh, materials, rays.last(), end, t_min, t_max)
}

/// What `ray` leads to, given the hit that the scene reported for it and what
/// the material at the hit made of it: a ray that hit nothing escapes, a hit
/// that scattered nothing absorbs the light, and scattered light travels on.
pub fn follow(ray: Ray, hit: Option<Hit>, scatter: Option<ScatterResult>) -> (step: Step)
    ensures
        step == match (hit, scatter) {
            (None, _) => Step::End(PathEnd::Escaped(ray)),
            (Some(hit), None) => Step::End(PathEnd::Absorbed(hit)),
            (Some(_), Some(scatter)) => Step::Bounce(scatter),
        },
{
    match (hit, scatter) {
        (None, _) => Step::End(PathEnd::Escaped(ray)),
        (Some(hit), None) => Step::End(PathEnd::Absorbed(hit)),
        (Some(_), Some(scatter)) => Step::Bounce(scatter),
    }
}

/// The material that answers for a hit.
pub fn material_at<'a, M: Material>(materials: &'a Materials<M>, hit: &Option<Hit>) -> (r: Option<
    &'a M,
>)
    ensures
        r == match spec_material_at(materials@, *hit) {
            Some(material) => Some(&material),
            None => None,
        },
{
    match hit {
        Some(hit) => match hit.material {
            Some(handle) => materials.get(handle),
            None => None,
        },
        None => None,
    }
}

/// Follows the light path that starts with `ray`.
///
/// Each ray is tested against the hierarchy for its nearest crossing strictly
/// between `t_min` and `t_max`. A ray that hits nothing ends the path; a hit
/// is handed to its material, and the scattered ray followed in turn until
/// `bounces` has reached `max_bounces`. Every bounce adds one to `bounces`.
///
/// Whatever the materials draw, the result is a path of the scene from `ray`
/// on. With the budget spent at the start it is empty and gives no light; a
/// first ray that hits nothing escapes.
pub fn color<P: Intersect, M: Material>(
    ray: Ray,
    bounces: &mut u32,
    bvh: &BVH<P>,
    materials: &Materials<M>,
    rng: &mut DefaultRng,
    max_bounces: u32,
    t_min: i64,
    t_max: i64,
) -> (path: Path)
    ensures
        exists|rays: Seq<Ray>|
            rays.len() > 0 && rays[0] == ray && #[trigger] follows(
                bvh,
                materials@,
                rays,
                path.attenuation@,
                path.end,
                t_min,
                t_max,
            ),
        *final(bounces) == *old(bounces) + path.attenuation.len(),
        path.end == PathEnd::Exhausted <==> *final(bounces) >= max_bounces,
        *old(bounces) >= max_bounces ==> path.attenuation.len() == 0,
        *old(bounces) < max_bounces ==> *final(bounces) <= max_bounces,
        *old(bounces) < max_bounces && walk(bvh.nodes(), bvh.primitives(), 0, ray, t_min, t_max)
            is None ==> path.end == PathEnd::Escaped(ray) && path.attenuation.len() == 0,
{
    let mut attenuation: Vec<Vec3> = Vec::new();
    let mut current = ray;
    let ghost mut rays: Seq<Ray> = seq![ray];
    loop
        invariant
            *bounces == *old(bounces) + attenuation.len(),
            *old(bounces) < max_bounces ==> *bounces <= max_bounces,
            *old(bounces) >= max_bounces ==> attenuation.len() == 0,
            rays.len() == attenuation.len() + 1,
            rays[0] == ray,
            rays.last() == current,
            forall|i: int|
                0 <= i < attenuation.len() ==> bounces_to(
                    bvh,
                    materials@,
                    #[trigger] rays[i],
                    ScatterResult { scattered: rays[i + 1], attenuation: attenuation[i] },
                    t_min,
                    t_max,
                ),
        decreases
            if *bounces < max_bounces {
                max_bounces - *bounces
            } else {
                0
            },
    {
        if *bounces >= max_bounces {
            let path = Path { attenuation, end: PathEnd::Exhausted };
            assert(follows(bvh, materials@, rays, path.attenuation@, path.end, t_min, t_max));
            return path;
        }
        let hit = bvh.intersection(current, t_min, t_max);
        let scatter = match (material_at(materials, &hit), hit) {
            (Some(material), Some(hit)) => material.scatter(current, hit, rng),
            _ => None,
        };
        match follow(current, hit, scatter) {
            Step::End(end) => {
                let path = Path { attenuation, end };
                assert(follows(bvh, materials@, rays, path.attenuation@, path.end, t_min, t_max));
                return path;
            },
            Step::Bounce(scatter) => {
                *bounces += 1;
                attenuation.push(scatter.attenuation);
                current = scatter.scattered;
                proof {
                    let before = rays;
                    rays = rays.push(current);
                    assert forall|i: int| 0 <= i < attenuation.len() implies bounces_to(
                        bvh,
                        materials@,
                        #[trigger] rays[i],
                        ScatterResult { scattered: rays[i + 1], attenuation: attenuation[i] },
                        t_min,
                        t_max,
                    ) by {
                        if i < attenuation.len() - 1 {
                            assert(rays[i] == before[i] && rays[i + 1] == before[i + 1]);
                        }
                    }
                }
            },
        }
    }
}

} // verus!
