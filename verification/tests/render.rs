use pathtracer::bvh::BVH;
use pathtracer::integrator::{color, follow, material_at, Path, PathEnd, Step};
use pathtracer::material::{absorbs, transmit, DefaultRng, Material, ScatterResult};
use pathtracer::primitives::Intersect;
use pathtracer::scene::{
    assemble, pixel_grid, storage_offset, total_rays, Image, Materials, Pixel, SettingsConfig,
};
use pathtracer::{Hit, Ray, Vec3, AABB};
use rand_xoshiro::rand_core::{Rng, SeedableRng};

/// A ball on the lattice, 1000 lattice units to the unit of length. Ray
/// parameters are reported in 1024ths.
struct Ball {
    center: (i32, i32, i32),
    radius: i32,
    material: Option<usize>,
}

impl Intersect for Ball {
    fn first_hit(&self, ray: Ray, t_min: i64) -> Option<Hit> {
        self.intersection(ray, t_min, i64::MAX)
    }

    fn spec_bounds(&self) -> Option<AABB> {
        self.bounds()
    }

    fn lemma_first_hit_beyond(&self, _ray: Ray, _t_min: i64) {}

    fn lemma_crossing_in_bounds(&self, _ray: Ray, _t_min: i64) {}

    fn intersection(&self, ray: Ray, t_min: i64, t_max: i64) -> Option<Hit> {
        let o = [
            ray.origin.x as f64 - self.center.0 as f64,
            ray.origin.y as f64 - self.center.1 as f64,
            ray.origin.z as f64 - self.center.2 as f64,
        ];
        let d = [ray.direction.x as f64, ray.direction.y as f64, ray.direction.z as f64];
        let a = d[0] * d[0] + d[1] * d[1] + d[2] * d[2];
        let b = o[0] * d[0] + o[1] * d[1] + o[2] * d[2];
        let c = o[0] * o[0] + o[1] * o[1] + o[2] * o[2] - (self.radius as f64) * (self.radius as f64);
        let discriminant = b * b - a * c;
        if discriminant > 0.0 {
            let roots = [(-b - discriminant.sqrt()) / a, (-b + discriminant.sqrt()) / a];
            for t in roots {
                let key = (t * 1024.0).floor() as i64;
                if t_min < key && key < t_max {
                    let point = Vec3::new(
                        (ray.origin.x as f64 + t * d[0]).round() as i32,
                        (ray.origin.y as f64 + t * d[1]).round() as i32,
                        (ray.origin.z as f64 + t * d[2]).round() as i32,
                    );
                    let normal = Vec3::new(
                        point.x - self.center.0,
                        point.y - self.center.1,
                        point.z - self.center.2,
                    );
                    return Some(Hit { t: key, point, normal, material: self.material });
                }
            }
        }
        None
    }

    fn has_intersection(&self, ray: Ray, t_min: i64, t_max: i64) -> bool {
        self.intersection(ray, t_min, t_max).is_some()
    }

    fn bounds(&self) -> Option<AABB> {
        let (c, r) = (self.center, self.radius);
        Some(AABB::new(
            Vec3::new(c.0 - r, c.1 - r, c.2 - r),
            Vec3::new(c.0 + r, c.1 + r, c.2 + r),
        ))
    }
}

enum Surface {
    /// Scatters about the normal, diffusely; the albedo is in thousandths.
    Matt(Vec3),
    /// Sends every ray straight back.
    Echo(Vec3),
    /// Passes nothing on.
    Soot,
}

impl Material for Surface {
    fn scatters(&self, _ray: Ray, _hit: Hit, result: Option<ScatterResult>) -> bool {
        matches!(self, Surface::Soot) == result.is_none()
    }

    fn scatter(&self, ray: Ray, hit: Hit, rng: &mut DefaultRng) -> Option<ScatterResult> {
        match self {
            Surface::Matt(albedo) => {
                let n = hit.normal;
                let length = ((n.x as f64).powi(2) + (n.y as f64).powi(2) + (n.z as f64).powi(2)).sqrt();
                let mut jitter = [0.0f64; 3];
                loop {
                    for j in jitter.iter_mut() {
                        *j = (rng.next_u32() as f64 / u32::MAX as f64) * 2.0 - 1.0;
                    }
                    if jitter.iter().map(|j| j * j).sum::<f64>() < 1.0 {
                        break;
                    }
                }
                let direction = Vec3::new(
                    ((n.x as f64 / length + jitter[0]) * 1000.0) as i32,
                    ((n.y as f64 / length + jitter[1]) * 1000.0) as i32,
                    ((n.z as f64 / length + jitter[2]) * 1000.0) as i32,
                );
                Some(ScatterResult { scattered: Ray::new(hit.point, direction), attenuation: *albedo })
            }
            Surface::Echo(albedo) => Some(ScatterResult {
                scattered: Ray::new(
                    hit.point,
                    Vec3::new(-ray.direction.x, -ray.direction.y, -ray.direction.z),
                ),
                attenuation: *albedo,
            }),
            Surface::Soot => None,
        }
    }
}

const NEAR: i64 = 1;
const FAR: i64 = i64::MAX;

fn rng() -> DefaultRng {
    DefaultRng::seed_from_u64(2024)
}

fn table(surfaces: Vec<Surface>) -> Materials<Surface> {
    let mut materials = Materials::new();
    for (i, s) in surfaces.into_iter().enumerate() {
        assert_eq!(materials.add(s), i);
    }
    materials
}

fn one_ball(material: Option<usize>) -> BVH<Ball> {
    BVH::new(vec![Ball { center: (0, 0, -1000), radius: 500, material }])
}

/// White at the horizon's lower end, sky blue at its upper end.
fn background(ray: Ray) -> [f64; 3] {
    let d = [ray.direction.x as f64, ray.direction.y as f64, ray.direction.z as f64];
    let length = (d[0] * d[0] + d[1] * d[1] + d[2] * d[2]).sqrt();
    let t = 0.5 * (d[1] / length + 1.0);
    [(1.0 - t) + t * 0.5, (1.0 - t) + t * 0.7, (1.0 - t) + t]
}

fn radiance(path: &Path) -> [f64; 3] {
    let mut light = match path.end {
        PathEnd::Escaped(ray) => background(ray),
        PathEnd::Exhausted | PathEnd::Absorbed(_) => [0.0; 3],
    };
    for a in path.attenuation.iter().rev() {
        light[0] *= a.x as f64 / 1000.0;
        light[1] *= a.y as f64 / 1000.0;
        light[2] *= a.z as f64 / 1000.0;
    }
    light
}

#[test]
fn mirror_absorbs_what_goes_inwards() {
    let normal = Vec3::new(0, 1, 0);
    assert!(!absorbs(Vec3::new(3, 1, 0), normal));
    assert!(absorbs(Vec3::new(3, 0, 0), normal));
    assert!(absorbs(Vec3::new(3, -1, 0), normal));
    assert!(!absorbs(Vec3::new(i32::MIN, i32::MIN, i32::MIN), Vec3::new(-1, -1, -1)));
}

#[test]
fn glass_reflects_where_it_cannot_refract() {
    let (back, through) = (Vec3::new(1, 1, 0), Vec3::new(1, -2, 0));
    assert_eq!(transmit(back, None, false), back);
    assert_eq!(transmit(back, None, true), back);
    assert_eq!(transmit(back, Some(through), true), back);
    assert_eq!(transmit(back, Some(through), false), through);
}

#[test]
fn a_step_ends_the_path_or_bounces() {
    let ray = Ray::new(Vec3::zero(), Vec3::new(0, 0, -1));
    let hit = Hit { t: 5, point: Vec3::new(0, 0, -5), normal: Vec3::new(0, 0, 1), material: Some(0) };
    let scatter =
        ScatterResult { scattered: Ray::new(hit.point, hit.normal), attenuation: Vec3::new(1, 2, 3) };
    assert_eq!(follow(ray, None, None), Step::End(PathEnd::Escaped(ray)));
    assert_eq!(follow(ray, None, Some(scatter)), Step::End(PathEnd::Escaped(ray)));
    assert_eq!(follow(ray, Some(hit), None), Step::End(PathEnd::Absorbed(hit)));
    assert_eq!(follow(ray, Some(hit), Some(scatter)), Step::Bounce(scatter));
}

#[test]
fn the_material_of_a_hit_is_the_one_it_names() {
    let materials = table(vec![Surface::Soot, Surface::Echo(Vec3::new(1, 1, 1))]);
    let hit = |material| Some(Hit { t: 1, point: Vec3::zero(), normal: Vec3::zero(), material });
    assert!(matches!(material_at(&materials, &hit(Some(0))), Some(Surface::Soot)));
    assert!(matches!(material_at(&materials, &hit(Some(1))), Some(Surface::Echo(_))));
    assert!(material_at(&materials, &hit(Some(2))).is_none());
    assert!(material_at(&materials, &hit(None)).is_none());
    assert!(material_at(&materials, &None).is_none());
}

#[test]
fn no_bounces_no_light() {
    let materials = table(vec![Surface::Matt(Vec3::new(500, 500, 500))]);
    let bvh = one_ball(Some(0));
    for direction in [Vec3::new(0, 0, -1), Vec3::new(0, 1, 0)] {
        let mut bounces = 0;
        let path =
            color(Ray::new(Vec3::zero(), direction), &mut bounces, &bvh, &materials, &mut rng(), 0, NEAR, FAR);
        assert_eq!(path.end, PathEnd::Exhausted);
        assert!(path.attenuation.is_empty());
        assert_eq!(bounces, 0);
        assert_eq!(radiance(&path), [0.0; 3]);
    }
}

#[test]
fn spent_budget_is_not_touched() {
    let materials = table(vec![Surface::Matt(Vec3::new(500, 500, 500))]);
    let bvh = one_ball(Some(0));
    let mut bounces = 9;
    let ray = Ray::new(Vec3::zero(), Vec3::new(0, 0, -1));
    let path = color(ray, &mut bounces, &bvh, &materials, &mut rng(), 8, NEAR, FAR);
    assert_eq!(path.end, PathEnd::Exhausted);
    assert_eq!(bounces, 9);
}

#[test]
fn a_ray_that_hits_nothing_sees_the_background() {
    let materials = table(vec![Surface::Matt(Vec3::new(500, 500, 500))]);
    let bvh = one_ball(Some(0));
    for max_bounces in [1, 2, 8, u32::MAX] {
        for direction in [Vec3::new(0, 1, 0), Vec3::new(0, -1, 0), Vec3::new(3, 0, 4), Vec3::new(0, 0, 1)] {
            let ray = Ray::new(Vec3::zero(), direction);
            let mut bounces = 0;
            let path = color(ray, &mut bounces, &bvh, &materials, &mut rng(), max_bounces, NEAR, FAR);
            assert_eq!(path.end, PathEnd::Escaped(ray));
            assert!(path.attenuation.is_empty());
            assert_eq!(bounces, 0);
        }
    }
    let up = Ray::new(Vec3::zero(), Vec3::new(0, 1, 0));
    assert_eq!(background(up), [0.5, 0.7, 1.0]);
    let down = Ray::new(Vec3::zero(), Vec3::new(0, -2, 0));
    assert_eq!(background(down), [1.0, 1.0, 1.0]);
    let level = Ray::new(Vec3::zero(), Vec3::new(3, 0, 4));
    assert_eq!(background(level), [0.75, 0.85, 1.0]);
}

#[test]
fn an_absorbing_surface_ends_the_path() {
    let materials = table(vec![Surface::Soot]);
    let bvh = one_ball(Some(0));
    let mut bounces = 0;
    let ray = Ray::new(Vec3::zero(), Vec3::new(0, 0, -1));
    let path = color(ray, &mut bounces, &bvh, &materials, &mut rng(), 8, NEAR, FAR);
    match path.end {
        PathEnd::Absorbed(hit) => {
            assert_eq!(hit.point, Vec3::new(0, 0, -500));
            assert_eq!(hit.material, Some(0));
        }
        other => panic!("{:?}", other),
    }
    assert!(path.attenuation.is_empty());
    assert_eq!(bounces, 0);
    assert_eq!(radiance(&path), [0.0; 3]);
}

#[test]
fn a_surface_without_a_material_absorbs() {
    let materials = table(vec![Surface::Matt(Vec3::new(500, 500, 500))]);
    let ray = Ray::new(Vec3::zero(), Vec3::new(0, 0, -1));
    for material in [None, Some(1), Some(usize::MAX)] {
        let bvh = one_ball(material);
        let mut bounces = 0;
        let path = color(ray, &mut bounces, &bvh, &materials, &mut rng(), 8, NEAR, FAR);
        assert!(matches!(path.end, PathEnd::Absorbed(_)));
        assert_eq!(bounces, 0);
    }
}

#[test]
fn bounces_are_counted_and_attenuations_kept_in_order() {
    // two balls that face each other; the ray is sent back and forth
    let materials = table(vec![Surface::Echo(Vec3::new(900, 800, 700)), Surface::Echo(Vec3::new(100, 200, 300))]);
    let bvh = BVH::new(vec![
        Ball { center: (0, 0, -1000), radius: 500, material: Some(0) },
        Ball { center: (0, 0, 1000), radius: 500, material: Some(1) },
    ]);
    let ray = Ray::new(Vec3::zero(), Vec3::new(0, 0, -1));
    let mut bounces = 0;
    let path = color(ray, &mut bounces, &bvh, &materials, &mut rng(), 5, NEAR, FAR);
    assert_eq!(path.end, PathEnd::Exhausted);
    assert_eq!(bounces, 5);
    let first = Vec3::new(900, 800, 700);
    let second = Vec3::new(100, 200, 300);
    assert_eq!(path.attenuation, vec![first, second, first, second, first]);

    let mut bounces = 3;
    let path = color(ray, &mut bounces, &bvh, &materials, &mut rng(), 5, NEAR, FAR);
    assert_eq!(bounces, 5);
    assert_eq!(path.attenuation, vec![first, second]);
}

#[test]
fn single_sphere_seen_straight_on() {
    let materials = table(vec![Surface::Matt(Vec3::new(500, 500, 500))]);
    let bvh = one_ball(Some(0));
    let at_the_ball = Ray::new(Vec3::zero(), Vec3::new(0, 0, -1));

    // one bounce: the budget is spent on the ball, and nothing comes back
    let mut bounces = 0;
    let path = color(at_the_ball, &mut bounces, &bvh, &materials, &mut rng(), 1, NEAR, FAR);
    assert_eq!(path.end, PathEnd::Exhausted);
    assert_eq!(path.attenuation, vec![Vec3::new(500, 500, 500)]);
    assert_eq!(bounces, 1);
    assert_eq!(radiance(&path), [0.0; 3]);

    // two bounces: the scattered ray leaves the convex ball and sees the sky
    let mut generator = rng();
    for _ in 0..50 {
        let mut bounces = 0;
        let path = color(at_the_ball, &mut bounces, &bvh, &materials, &mut generator, 2, NEAR, FAR);
        assert_eq!(bounces, 1);
        assert!(matches!(path.end, PathEnd::Escaped(_)));
        let light = radiance(&path);
        for channel in light {
            assert!(channel.is_finite() && channel > 0.0 && channel <= 0.5);
        }
    }

    // away from the ball: the background, by its formula
    let away = Ray::new(Vec3::zero(), Vec3::new(0, 3, 4));
    let mut bounces = 0;
    let path = color(away, &mut bounces, &bvh, &materials, &mut rng(), 1, NEAR, FAR);
    assert_eq!(path.end, PathEnd::Escaped(away));
    let t = 0.5 * (0.6 + 1.0);
    assert_eq!(radiance(&path), [(1.0 - t) + t * 0.5, (1.0 - t) + t * 0.7, (1.0 - t) + t]);
}

#[test]
fn material_table_hands_out_handles_in_order() {
    let mut materials: Materials<Surface> = Materials::new();
    assert_eq!(materials.len(), 0);
    assert!(materials.get(0).is_none());
    assert_eq!(materials.add(Surface::Soot), 0);
    assert_eq!(materials.add(Surface::Matt(Vec3::new(1, 2, 3))), 1);
    assert_eq!(materials.len(), 2);
    assert!(matches!(materials.get(0), Some(Surface::Soot)));
    assert!(matches!(materials.get(1), Some(Surface::Matt(_))));
    assert!(materials.get(2).is_none());
}

#[test]
fn settings_defaults() {
    let settings = SettingsConfig::default();
    assert_eq!(settings.resolution, [1280, 720]);
    assert_eq!(settings.width(), 1280);
    assert_eq!(settings.height(), 720);
    assert_eq!(settings.samples, 12);
    assert_eq!(settings.max_bounces, 8);
    assert_eq!(settings.gamma_milli, 2200);
}

#[test]
fn image_keeps_what_it_is_given() {
    let image = Image::from(vec![1, 2, 3, 4, 5, 6], 2, 1);
    assert_eq!(image.dimensions, (2, 1));
    assert_eq!(image.buffer, vec![1, 2, 3, 4, 5, 6]);
}

#[test]
fn grid_runs_column_by_column() {
    assert_eq!(pixel_grid(2, 3), vec![(0, 0), (0, 1), (0, 2), (1, 0), (1, 1), (1, 2)]);
    assert_eq!(pixel_grid(1, 1), vec![(0, 0)]);
    assert!(pixel_grid(0, 5).is_empty());
    assert!(pixel_grid(5, 0).is_empty());
    let grid = pixel_grid(7, 4);
    assert_eq!(grid.len(), 28);
    assert_eq!(grid[5 * 4 + 3], (5, 3));
}

#[test]
fn rows_are_stored_from_the_top() {
    // the top row of the picture is the largest y
    assert_eq!(storage_offset(0, 2, 2, 3), 0);
    assert_eq!(storage_offset(1, 2, 2, 3), 3);
    assert_eq!(storage_offset(0, 1, 2, 3), 6);
    assert_eq!(storage_offset(0, 0, 2, 3), 12);
    assert_eq!(storage_offset(1, 0, 2, 3), 15);
    assert_eq!(storage_offset(1279, 0, 1280, 720), 3 * (1280 * 720 - 1));
}

#[test]
fn assemble_writes_each_pixel_at_its_place() {
    let mut pixels = Vec::new();
    for (x, y) in pixel_grid(2, 3) {
        let tag = (10 * x + y) as u8;
        pixels.push(Pixel { x, y, red: tag, green: tag + 100, blue: tag + 200 });
    }
    let image = assemble(&pixels, 2, 3);
    assert_eq!(image.dimensions, (2, 3));
    assert_eq!(
        image.buffer,
        vec![
            2, 102, 202, 12, 112, 212, // y = 2
            1, 101, 201, 11, 111, 211, // y = 1
            0, 100, 200, 10, 110, 210, // y = 0
        ]
    );
    pixels.reverse();
    assert_eq!(assemble(&pixels, 2, 3).buffer, image.buffer);
}

#[test]
fn assemble_passes_over_strays_and_lets_the_last_word_stand() {
    let pixels = vec![
        Pixel { x: 0, y: 0, red: 1, green: 2, blue: 3 },
        Pixel { x: 1, y: 0, red: 9, green: 9, blue: 9 },
        Pixel { x: 0, y: 1, red: 9, green: 9, blue: 9 },
        Pixel { x: 0, y: 0, red: 4, green: 5, blue: 6 },
    ];
    let image = assemble(&pixels, 1, 1);
    assert_eq!(image.buffer, vec![4, 5, 6]);
    assert_eq!(assemble(&Vec::new(), 2, 1).buffer, vec![0; 6]);
    assert!(assemble(&pixels, 0, 0).buffer.is_empty());
}

#[test]
fn ray_counts_add_up() {
    assert_eq!(total_rays(&vec![]), 0);
    assert_eq!(total_rays(&vec![3, 4, 5]), 12);
    assert_eq!(total_rays(&vec![u32::MAX, u32::MAX, 1]), 2 * (u32::MAX as u64) + 1);
}
