use pathtracer::{reflect, Axis, Ray, Vec3, AABB};

fn boxed(min: (i32, i32, i32), max: (i32, i32, i32)) -> AABB {
    AABB::new(Vec3::new(min.0, min.1, min.2), Vec3::new(max.0, max.1, max.2))
}

fn ray(origin: (i32, i32, i32), direction: (i32, i32, i32)) -> Ray {
    Ray::new(
        Vec3::new(origin.0, origin.1, origin.2),
        Vec3::new(direction.0, direction.1, direction.2),
    )
}

fn holds(b: &AABB, p: (i32, i32, i32)) -> bool {
    b.min.x <= p.0 && p.0 <= b.max.x && b.min.y <= p.1 && p.1 <= b.max.y && b.min.z <= p.2 && p.2 <= b.max.z
}

#[test]
fn vector_components_by_axis() {
    let v = Vec3::new(3, -4, 5);
    assert_eq!(v.axis(Axis::X), 3);
    assert_eq!(v.axis(Axis::Y), -4);
    assert_eq!(v.axis(Axis::Z), 5);
    assert_eq!(Vec3::zero(), Vec3::new(0, 0, 0));
}

#[test]
fn dot_product_is_exact_at_the_limits() {
    let v = Vec3::new(i32::MIN, i32::MIN, i32::MIN);
    assert_eq!(v.dot(v), 3 * (1i128 << 62));
    assert_eq!(Vec3::new(1, 2, 3).dot(Vec3::new(4, -5, 6)), 12);
}

#[test]
fn reflect_about_the_y_axis() {
    assert_eq!(reflect(Vec3::new(1, -1, 0), Vec3::new(0, 1, 0)), Vec3::new(1, 1, 0));
}

#[test]
fn reflect_leaves_tangent_vectors_alone() {
    assert_eq!(reflect(Vec3::new(7, 0, -3), Vec3::new(0, 1, 0)), Vec3::new(7, 0, -3));
    assert_eq!(reflect(Vec3::new(0, 0, 5), Vec3::new(0, 0, -1)), Vec3::new(0, 0, -5));
}

#[test]
fn unit_box_surface_area_is_six() {
    assert_eq!(boxed((0, 0, 0), (1, 1, 1)).surface_area(), 6);
}

#[test]
fn surface_area_of_a_slab_and_of_a_point() {
    assert_eq!(boxed((0, 0, 0), (2, 3, 4)).surface_area(), 2 * (6 + 8 + 12));
    assert_eq!(boxed((5, 5, 5), (5, 5, 5)).surface_area(), 0);
    assert_eq!(boxed((-1, -1, 3), (1, 1, 3)).surface_area(), 8);
}

#[test]
fn surface_area_of_the_largest_box() {
    let b = boxed((i32::MIN, i32::MIN, i32::MIN), (i32::MAX, i32::MAX, i32::MAX));
    let e: i128 = (1i128 << 32) - 1;
    assert_eq!(b.surface_area(), 6 * e * e);
}

#[test]
fn union_takes_the_outer_corners() {
    let a = boxed((0, 0, 0), (1, 1, 1));
    let b = boxed((-2, 3, 0), (0, 4, 5));
    assert_eq!(a.union(b), boxed((-2, 0, 0), (1, 4, 5)));
}

#[test]
fn union_is_commutative_and_holds_both() {
    let a = boxed((0, -7, 2), (4, 1, 3));
    let b = boxed((-2, 3, 0), (9, 4, 5));
    let u = a.union(b);
    assert_eq!(u, b.union(a));
    for p in [(0, -7, 2), (4, 1, 3), (2, 0, 2), (-2, 3, 0), (9, 4, 5), (0, 4, 1)] {
        assert!(holds(&a, p) || holds(&b, p));
        assert!(holds(&u, p));
    }
}

#[test]
fn point_union_grows_to_the_point() {
    let a = boxed((0, 0, 0), (1, 1, 1));
    assert_eq!(a.point_union(Vec3::new(5, -1, 0)), boxed((0, -1, 0), (5, 1, 1)));
    assert_eq!(a.point_union(Vec3::new(1, 1, 1)), a);
}

#[test]
fn default_box_is_the_origin() {
    assert_eq!(AABB::default(), boxed((0, 0, 0), (0, 0, 0)));
}

#[test]
fn box_bounds_itself() {
    let a = boxed((0, 1, 2), (3, 4, 5));
    assert_eq!(a.bounds(), Some(a));
}

#[test]
fn max_extent_picks_the_longest_axis() {
    assert_eq!(boxed((0, 0, 0), (5, 1, 1)).max_extent(), Axis::X);
    assert_eq!(boxed((0, 0, 0), (1, 5, 1)).max_extent(), Axis::Y);
    assert_eq!(boxed((0, 0, 0), (1, 1, 5)).max_extent(), Axis::Z);
}

#[test]
fn max_extent_breaks_ties_towards_x_then_y() {
    assert_eq!(boxed((0, 0, 0), (2, 2, 2)).max_extent(), Axis::X);
    assert_eq!(boxed((0, 0, 0), (2, 2, 1)).max_extent(), Axis::X);
    assert_eq!(boxed((0, 0, 0), (2, 1, 2)).max_extent(), Axis::X);
    assert_eq!(boxed((0, 0, 0), (1, 2, 2)).max_extent(), Axis::Y);
}

#[test]
fn max_extent_at_the_limits() {
    let b = boxed((0, i32::MIN, 0), (1, i32::MAX, 1));
    assert_eq!(b.max_extent(), Axis::Y);
}

#[test]
fn ray_points() {
    let r = ray((1, 2, 3), (2, 0, -1));
    assert_eq!(r.point_at_parameter(0), Vec3::new(1, 2, 3));
    assert_eq!(r.point_at_parameter(4), Vec3::new(9, 2, -1));
    assert_eq!(r.point_at_parameter(-1), Vec3::new(-1, 2, 4));
}

#[test]
fn slab_test_straight_hit_and_miss() {
    let b = boxed((-1, -1, -6), (1, 1, -4));
    assert!(b.has_intersection(ray((0, 0, 0), (0, 0, -1)), 0, 100));
    assert!(!b.has_intersection(ray((0, 0, 0), (0, 0, 1)), 0, 100));
    assert!(!b.has_intersection(ray((2, 0, 0), (0, 0, -1)), 0, 100));
    assert!(!b.has_intersection(ray((0, 0, 0), (1, 0, 0)), 0, 100));
}

#[test]
fn slab_test_does_not_look_at_the_interval() {
    let b = boxed((-1, -1, -6), (1, 1, -4));
    let r = ray((0, 0, 0), (0, 0, -1));
    assert!(b.has_intersection(r, 50, 60));
    assert!(b.has_intersection(r, 0, 1));
}

#[test]
fn slab_test_with_negative_and_slanted_directions() {
    let b = boxed((10, 10, 10), (20, 20, 20));
    assert!(b.has_intersection(ray((30, 30, 30), (-1, -1, -1)), 0, 100));
    assert!(b.has_intersection(ray((0, 0, 0), (2, 3, 2)), 0, 100));
    assert!(!b.has_intersection(ray((0, 0, 0), (1, 3, 1)), 0, 100));
    assert!(!b.has_intersection(ray((30, 30, 30), (1, 1, 1)), 0, 100));
}

#[test]
fn slab_test_needs_a_common_parameter() {
    // the ray crosses the x slab for t in [2, 4] and the y slab for t in [5, 7]
    let b = boxed((2, 5, -1), (4, 7, 1));
    assert!(!b.has_intersection(ray((0, 0, 0), (1, 1, 0)), 0, 100));
    // entering exactly where the other slab is left: t = 1/2 on both axes
    let c = boxed((1, -3, 0), (5, 1, 0));
    assert!(c.has_intersection(ray((0, 0, 0), (2, 2, 0)), 0, 100));
}

#[test]
fn slab_test_touching_a_corner() {
    let b = boxed((1, 1, 1), (2, 2, 2));
    assert!(b.has_intersection(ray((0, 0, 0), (1, 1, 1)), 0, 100));
    assert!(b.has_intersection(ray((0, 3, 2), (1, -1, 0)), 0, 100));
    assert!(b.has_intersection(ray((0, 4, 2), (1, -1, 0)), 0, 100));
    assert!(!b.has_intersection(ray((0, 5, 2), (1, -1, 0)), 0, 100));
}

#[test]
fn slab_test_from_inside_and_at_rest() {
    let b = boxed((-5, -5, -5), (5, 5, 5));
    assert!(b.has_intersection(ray((0, 0, 0), (1, 2, 3)), 0, 100));
    assert!(b.has_intersection(ray((0, 0, 0), (0, 0, 0)), 0, 100));
    assert!(!b.has_intersection(ray((6, 0, 0), (0, 0, 0)), 0, 100));
    assert!(b.has_intersection(ray((5, 5, 5), (1, 1, 1)), 0, 100));
}

#[test]
fn slab_test_parallel_to_a_face() {
    let b = boxed((0, 0, 0), (10, 10, 10));
    assert!(b.has_intersection(ray((-5, 10, 3), (1, 0, 0)), 0, 100));
    assert!(!b.has_intersection(ray((-5, 11, 3), (1, 0, 0)), 0, 100));
    assert!(!b.has_intersection(ray((-5, 5, 3), (-1, 0, 0)), 0, 100));
}

#[test]
fn slab_test_of_an_inverted_box() {
    let b = boxed((1, 0, 0), (0, 1, 1));
    assert!(!b.has_intersection(ray((-5, 0, 0), (1, 0, 0)), 0, 100));
}

#[test]
fn slab_test_at_the_limits() {
    let b = boxed((i32::MAX, i32::MAX, i32::MAX), (i32::MAX, i32::MAX, i32::MAX));
    assert!(b.has_intersection(
        ray((i32::MIN, i32::MIN, i32::MIN), (i32::MAX, i32::MAX, i32::MAX)),
        0,
        100
    ));
    assert!(!b.has_intersection(
        ray((i32::MIN, i32::MIN, i32::MIN), (i32::MAX, i32::MAX, i32::MAX - 1)),
        0,
        100
    ));
    assert!(!b.has_intersection(
        ray((i32::MIN, i32::MIN, i32::MIN), (i32::MIN, i32::MIN, i32::MIN)),
        0,
        100
    ));
}
