//! Axis-aligned bounding boxes.

use vstd::prelude::*;
use crate::ray::Ray;
use crate::vector::{Axis, Vec3};

verus! {

/// The smaller of two coordinates.
pub open spec fn lower(a: i32, b: i32) -> i32 {
    if a <= b {
        a
    } else {
        b
    }
}

/// The larger of two coordinates.
pub open spec fn upper(a: i32, b: i32) -> i32 {
    if a >= b {
        a
    } else {
        b
    }
}

fn lower_of(a: i32, b: i32) -> (r: i32)
    ensures
        r == lower(a, b),
{
    if a <= b {
        a
    } else {
        b
    }
}

fn upper_of(a: i32, b: i32) -> (r: i32)
    ensures
        r == upper(a, b),
{
    if a >= b {
        a
    } else {
        b
    }
}

/// An axis-aligned box: the lattice points `p` with `min <= p <= max` in every
/// coordinate.
#[derive(Clone, Copy, Debug, PartialEq, Eq, Structural)]
pub struct AABB {
    pub min: Vec3,
    pub max: Vec3,
}

impl Default for AABB {
    /// The box that holds the origin and nothing else.
    fn default() -> (r: Self)
        ensures
            r == (AABB { min: Vec3 { x: 0, y: 0, z: 0 }, max: Vec3 { x: 0, y: 0, z: 0 } }),
    {
        AABB { min: Vec3 { x: 0, y: 0, z: 0 }, max: Vec3 { x: 0, y: 0, z: 0 } }
    }
}

impl AABB {
    /// Whether the point lies in the box.
    pub open spec fn contains(self, p: Vec3) -> bool {
        &&& self.min.x <= p.x <= self.max.x
        &&& self.min.y <= p.y <= self.max.y
        &&& self.min.z <= p.z <= self.max.z
    }

    /// Whether `other` lies inside `self`, corner by corner.
    pub open spec fn encloses(self, other: AABB) -> bool {
        &&& self.min.x <= other.min.x && other.max.x <= self.max.x
        &&& self.min.y <= other.min.y && other.max.y <= self.max.y
        &&& self.min.z <= other.min.z && other.max.z <= self.max.z
    }

    /// The smallest box around `self` and `other`.
    pub open spec fn spec_union(self, other: AABB) -> AABB {
        AABB {
            min: Vec3 {
                x: lower(self.min.x, other.min.x),
                y: lower(self.min.y, other.min.y),
                z: lower(self.min.z, other.min.z),
            },
            max: Vec3 {
                x: upper(self.max.x, other.max.x),
                y: upper(self.max.y, other.max.y),
                z: upper(self.max.z, other.max.z),
            },
        }
    }

    /// The smallest box around `self` and the point `p`.
    pub open spec fn spec_point_union(self, p: Vec3) -> AABB {
        self.spec_union(AABB { min: p, max: p })
    }

    /// The box's length along `axis`.
    pub open spec fn extent(self, axis: Axis) -> int {
        self.max.spec_axis(axis) - self.min.spec_axis(axis)
    }

    /// The axis of largest extent. Among equal extents X is preferred to Y
    /// and Z, and Y to Z.
    pub open spec fn spec_max_extent(self) -> Axis {
        let x = self.extent(Axis::X);
        let y = self.extent(Axis::Y);
        let z = self.extent(Axis::Z);
        if x >= y && x >= z {
            Axis::X
        } else if y >= z {
            Axis::Y
        } else {
            Axis::Z
        }
    }

    /// `2 * (dx*dy + dx*dz + dy*dz)` for the extents `dx`, `dy`, `dz`.
    pub open spec fn spec_surface_area(self) -> int {
        let x = self.extent(Axis::X);
        let y = self.extent(Axis::Y);
        let z = self.extent(Axis::Z);
        2 * (x * y + x * z + y * z)
    }

    /// Whether the point `origin + (p / q) * direction` of the ray lies in the
    /// box, for a parameter `p / q` that is not negative.
    pub open spec fn reaches(self, ray: Ray, p: int, q: int) -> bool {
        &&& q > 0
        &&& p >= 0
        &&& along(
            self.min.x as int,
            self.max.x as int,
            ray.origin.x as int,
            ray.direction.x as int,
            p,
            q,
        )
        &&& along(
            self.min.y as int,
            self.max.y as int,
            ray.origin.y as int,
            ray.direction.y as int,
            p,
            q,
        )
        &&& along(
            self.min.z as int,
            self.max.z as int,
            ray.origin.z as int,
            ray.direction.z as int,
            p,
            q,
        )
    }

    /// Whether some point of the ray lies in the box.
    pub open spec fn meets(self, ray: Ray) -> bool {
        exists|p: int, q: int| #[trigger] self.reaches(ray, p, q)
    }

    /// The box between the corners `min` and `max`.
    pub fn new(min: Vec3, max: Vec3) -> (r: Self)
        ensures
            r == (AABB { min, max }),
    {
        AABB { min, max }
    }

    /// The smallest box that surrounds both `self` and `other`.
    pub fn union(self, other: AABB) -> (r: Self)
        ensures
            r == self.spec_union(other),
    {
        AABB {
            min: Vec3 {
                x: lower_of(self.min.x, other.min.x),
                y: lower_of(self.min.y, other.min.y),
                z: lower_of(self.min.z, other.min.z),
            },
            max: Vec3 {
                x: upper_of(self.max.x, other.max.x),
                y: upper_of(self.max.y, other.max.y),
                z: upper_of(self.max.z, other.max.z),
            },
        }
    }

    /// Grows the box until it holds `other`.
    pub fn point_union(self, other: Vec3) -> (r: Self)
        ensures
            r == self.spec_point_union(other),
    {
        self.union(AABB { min: other, max: other })
    }

    /// The axis along which the box is longest.
    pub fn max_extent(&self) -> (r: Axis)
        ensures
            r == self.spec_max_extent(),
    {
        let x: i64 = self.max.x as i64 - self.min.x as i64;
        let y: i64 = self.max.y as i64 - self.min.y as i64;
        let z: i64 = self.max.z as i64 - self.min.z as i64;
        if x >= y && x >= z {
            Axis::X
        } else if y >= z {
            Axis::Y
        } else {
            Axis::Z
        }
    }

    /// The area of the six faces.
    pub fn surface_area(&self) -> (r: i128)
        ensures
            r == self.spec_surface_area(),
    {
        let x: i128 = self.max.x as i128 - self.min.x as i128;
        let y: i128 = self.max.y as i128 - self.min.y as i128;
        let z: i128 = self.max.z as i128 - self.min.z as i128;
        proof {
            lemma_extent_product(x as int, y as int);
            lemma_extent_product(x as int, z as int);
            lemma_extent_product(y as int, z as int);
        }
        2 * (x * y + x * z + y * z)
    }

    /// Whether the ray passes through the box: the slab test. The interval is
    /// not looked at; every parameter from the ray's origin on counts.
    pub fn has_intersection(&self, ray: Ray, _t_min: i64, _t_max: i64) -> (r: bool)
        ensures
            r == self.meets(ray),
    {
        let x = Slab::cut(self.min.x, self.max.x, ray.origin.x, ray.direction.x);
        let y = Slab::cut(self.min.y, self.max.y, ray.origin.y, ray.direction.y);
        let z = Slab::cut(self.min.z, self.max.z, ray.origin.z, ray.direction.z);
        let r = x.open && y.open && z.open && x.exit >= 0 && y.exit >= 0 && z.exit >= 0
            && x.enters_before(&x) && x.enters_before(&y) && x.enters_before(&z)
            && y.enters_before(&x) && y.enters_before(&y) && y.enters_before(&z)
            && z.enters_before(&x) && z.enters_before(&y) && z.enters_before(&z);
        proof {
            if r {
                let (p, q) = lemma_common_parameter(x, y, z);
                assert(x.admits(p, q) && y.admits(p, q) && z.admits(p, q));
                assert(self.reaches(ray, p, q));
            } else {
                assert forall|p: int, q: int| !self.reaches(ray, p, q) by {
                    if self.reaches(ray, p, q) {
                        assert(x.admits(p, q) && y.admits(p, q) && z.admits(p, q));
                        lemma_parameter_passes(x, x, p, q);
                        lemma_parameter_passes(x, y, p, q);
                        lemma_parameter_passes(x, z, p, q);
                        lemma_parameter_passes(y, x, p, q);
                        lemma_parameter_passes(y, y, p, q);
                        lemma_parameter_passes(y, z, p, q);
                        lemma_parameter_passes(z, x, p, q);
                        lemma_parameter_passes(z, y, p, q);
                        lemma_parameter_passes(z, z, p, q);
                    }
                }
            }
        }
        r
    }

    /// The box itself: a box is its own bounding box.
    pub fn bounds(&self) -> (r: Option<AABB>)
        ensures
            r == Some(*self),
    {
        Some(*self)
    }
}

/// Whether the coordinate `o + (p / q) * d` lies between `lo` and `hi`, for
/// `q > 0`.
pub open spec fn along(lo: int, hi: int, o: int, d: int, p: int, q: int) -> bool {
    lo * q <= o * q + p * d <= hi * q
}

/// What one pair of parallel faces leaves of a ray: the parameters from
/// `enter / den` to `exit / den`. Where the ray runs parallel to the faces
/// `den` is zero; between them the slab then admits every parameter, outside
/// them none.
struct Slab {
    open: bool,
    enter: i64,
    exit: i64,
    den: i64,
}

impl Slab {
    spec fn admits(self, p: int, q: int) -> bool {
        self.open && self.enter * q <= p * self.den <= self.exit * q
    }

    spec fn sized(self) -> bool {
        &&& -0x1_0000_0000 < self.enter < 0x1_0000_0000
        &&& -0x1_0000_0000 < self.exit < 0x1_0000_0000
        &&& 0 <= self.den <= 0x8000_0000
        &&& self.den == 0 ==> self.enter == 0 && self.exit == 1
    }

    fn cut(lo: i32, hi: i32, o: i32, d: i32) -> (r: Slab)
        ensures
            r.sized(),
            forall|p: int, q: int|
                q > 0 ==> (#[trigger] r.admits(p, q) <==> along(
                    lo as int,
                    hi as int,
                    o as int,
                    d as int,
                    p,
                    q,
                )),
    {
        let r = if d > 0 {
            Slab {
                open: true,
                enter: lo as i64 - o as i64,
                exit: hi as i64 - o as i64,
                den: d as i64,
            }
        } else if d < 0 {
            Slab {
                open: true,
                enter: o as i64 - hi as i64,
                exit: o as i64 - lo as i64,
                den: -(d as i64),
            }
        } else {
            Slab { open: lo <= o && o <= hi, enter: 0, exit: 1, den: 0 }
        };
        proof {
            assert forall|p: int, q: int| q > 0 implies (#[trigger] r.admits(p, q) <==> along(
                lo as int,
                hi as int,
                o as int,
                d as int,
                p,
                q,
            )) by {
                lemma_cut(lo as int, hi as int, o as int, d as int, p, q);
            }
        }
        r
    }

    /// Whether `self` lets the ray in no later than `other` lets it out.
    fn enters_before(&self, other: &Slab) -> (r: bool)
        requires
            self.sized(),
            other.sized(),
        ensures
            r == (self.enter * other.den <= other.exit * self.den),
    {
        let a: i128 = self.enter as i128;
        let b: i128 = other.den as i128;
        let c: i128 = other.exit as i128;
        let d: i128 = self.den as i128;
        assert(-0x8000_0000_0000_0000_0000 <= a * b <= 0x8000_0000_0000_0000_0000)
            by (nonlinear_arith)
            requires
                -0x1_0000_0000 < a < 0x1_0000_0000,
                0 <= b <= 0x8000_0000,
        ;
        assert(-0x8000_0000_0000_0000_0000 <= c * d <= 0x8000_0000_0000_0000_0000)
            by (nonlinear_arith)
            requires
                -0x1_0000_0000 < c < 0x1_0000_0000,
                0 <= d <= 0x8000_0000,
        ;
        a * b <= c * d
    }
}

/// The slab of one axis admits exactly the parameters that keep the ray
/// between the two faces.
proof fn lemma_cut(lo: int, hi: int, o: int, d: int, p: int, q: int)
    by (nonlinear_arith)
    requires
        q > 0,
    ensures
        d > 0 ==> (along(lo, hi, o, d, p, q) <==> (lo - o) * q <= p * d <= (hi - o) * q),
        d < 0 ==> (along(lo, hi, o, d, p, q) <==> (o - hi) * q <= p * (-d) <= (o - lo) * q),
        d == 0 ==> (along(lo, hi, o, d, p, q) <==> lo <= o <= hi),
        0 * q <= p * 0 <= 1 * q,
{
}

/// Fractions with positive denominators are ordered transitively.
proof fn lemma_fraction_order(a: int, b: int, c: int, d: int, e: int, f: int)
    by (nonlinear_arith)
    requires
        b > 0,
        d > 0,
        f > 0,
        a * d <= c * b,
        c * f <= e * d,
    ensures
        a * f <= e * b,
{
    assert(a * d * f <= c * b * f);
    assert(c * f * b <= e * d * b);
    assert(d * (a * f) <= d * (e * b));
}

/// A parameter that all three slabs admit shows that each slab lets the ray
/// in before any slab lets it out, and out no earlier than the origin.
proof fn lemma_parameter_passes(s: Slab, t: Slab, p: int, q: int)
    requires
        s.sized(),
        t.sized(),
        q > 0,
        p >= 0,
        s.open ==> s.admits(p, q),
        t.open ==> t.admits(p, q),
    ensures
        s.open && t.open ==> s.enter * t.den <= t.exit * s.den && t.exit >= 0,
{
    if s.open && t.open {
        let (a, b, c, d) = (s.enter as int, s.den as int, t.exit as int, t.den as int);
        assert(a * d <= c * b && c >= 0) by (nonlinear_arith)
            requires
                q > 0,
                p >= 0,
                b >= 0,
                d >= 0,
                a * q <= p * b,
                p * d <= c * q,
        {
            assert(a * q * d <= p * b * d);
            assert(p * d * b <= c * q * b);
            assert(q * (a * d) <= q * (c * b));
            assert(0 <= p * d);
        }
    }
}

/// The later of two entry parameters, as a fraction with a positive
/// denominator.
spec fn later(w: (int, int), s: Slab) -> (int, int) {
    if s.den > 0 && s.enter * w.1 > w.0 * s.den {
        (s.enter as int, s.den as int)
    } else {
        w
    }
}

/// Moving on to a later parameter keeps it at or after every entry that the
/// earlier one was at or after.
proof fn lemma_later(w: (int, int), s: Slab, t: Slab)
    requires
        w.1 > 0,
        s.sized(),
        t.sized(),
        t.enter * w.1 <= w.0 * t.den,
    ensures
        later(w, s).1 > 0,
        t.enter * later(w, s).1 <= later(w, s).0 * t.den,
        s.enter * later(w, s).1 <= later(w, s).0 * s.den,
        0 <= w.0 ==> 0 <= later(w, s).0,
{
    let (se, sd) = (s.enter as int, s.den as int);
    let (te, td) = (t.enter as int, t.den as int);
    let (p, q) = w;
    if sd > 0 && se * q > p * sd {
        if td > 0 {
            lemma_fraction_order(te, td, p, q, se, sd);
        } else {
            assert(te * sd <= se * td) by (nonlinear_arith)
                requires
                    te == 0,
                    td == 0,
            ;
        }
        assert(p >= 0 ==> se >= 0) by (nonlinear_arith)
            requires
                se * q > p * sd,
                q > 0,
                sd > 0,
        ;
    } else if sd == 0 {
        assert(se * q <= p * sd) by (nonlinear_arith)
            requires
                se == 0,
                sd == 0,
        ;
    }
}

/// Where every slab lets the ray in before any slab lets it out, and out no
/// earlier than the origin, the latest entry (or the origin) is a parameter
/// that all three admit.
proof fn lemma_common_parameter(x: Slab, y: Slab, z: Slab) -> (w: (int, int))
    requires
        x.sized(),
        y.sized(),
        z.sized(),
        x.open && y.open && z.open,
        x.exit >= 0 && y.exit >= 0 && z.exit >= 0,
        x.enter * x.den <= x.exit * x.den,
        x.enter * y.den <= y.exit * x.den,
        x.enter * z.den <= z.exit * x.den,
        y.enter * x.den <= x.exit * y.den,
        y.enter * y.den <= y.exit * y.den,
        y.enter * z.den <= z.exit * y.den,
        z.enter * x.den <= x.exit * z.den,
        z.enter * y.den <= y.exit * z.den,
        z.enter * z.den <= z.exit * z.den,
    ensures
        w.1 > 0,
        w.0 >= 0,
        x.admits(w.0, w.1),
        y.admits(w.0, w.1),
        z.admits(w.0, w.1),
{
    let o = Slab { open: true, enter: 0, exit: 1, den: 0 };
    let w0 = (0int, 1int);
    let w1 = later(w0, x);
    let w2 = later(w1, y);
    let w3 = later(w2, z);
    lemma_later(w0, x, o);
    lemma_later(w1, y, o);
    lemma_later(w1, y, x);
    lemma_later(w2, z, o);
    lemma_later(w2, z, x);
    lemma_later(w2, z, y);
    // w3 is the origin or one of the three entries
    lemma_leaves_in_time(w3, x, y, z, x);
    lemma_leaves_in_time(w3, x, y, z, y);
    lemma_leaves_in_time(w3, x, y, z, z);
    w3
}

/// The origin and the three entries all come no later than the exit of `t`.
proof fn lemma_leaves_in_time(w: (int, int), x: Slab, y: Slab, z: Slab, t: Slab)
    requires
        w == later(later(later((0int, 1int), x), y), z),
        t.sized(),
        t.exit >= 0,
        x.enter * t.den <= t.exit * x.den,
        y.enter * t.den <= t.exit * y.den,
        z.enter * t.den <= t.exit * z.den,
    ensures
        w.0 * t.den <= t.exit * w.1,
{
}

/// A box that encloses another is met by every ray that meets the other.
pub proof fn lemma_meets_enclosing(outer: AABB, inner: AABB, ray: Ray)
    requires
        outer.encloses(inner),
        inner.meets(ray),
    ensures
        outer.meets(ray),
{
    let (p, q) = choose|p: int, q: int| #[trigger] inner.reaches(ray, p, q);
    lemma_scale(outer.min.x as int, inner.min.x as int, q);
    lemma_scale(outer.min.y as int, inner.min.y as int, q);
    lemma_scale(outer.min.z as int, inner.min.z as int, q);
    lemma_scale(inner.max.x as int, outer.max.x as int, q);
    lemma_scale(inner.max.y as int, outer.max.y as int, q);
    lemma_scale(inner.max.z as int, outer.max.z as int, q);
    assert(outer.reaches(ray, p, q));
}

/// Scaling by a positive factor keeps the order.
proof fn lemma_scale(a: int, b: int, q: int)
    by (nonlinear_arith)
    requires
        a <= b,
        q > 0,
    ensures
        a * q <= b * q,
{
}

/// A product of two extents stays below `2^64` in magnitude.
pub proof fn lemma_extent_product(a: int, b: int)
    by (nonlinear_arith)
    requires
        -0x1_0000_0000 < a < 0x1_0000_0000,
        -0x1_0000_0000 < b < 0x1_0000_0000,
    ensures
        -0x1_0000_0000_0000_0000 < a * b < 0x1_0000_0000_0000_0000,
{
}

/// A union holds every point of either box.
pub proof fn lemma_union_contains(a: AABB, b: AABB, p: Vec3)
    requires
        a.contains(p) || b.contains(p),
    ensures
        a.spec_union(b).contains(p),
{
}

/// The order of the two boxes does not matter to their union.
pub proof fn lemma_union_commutative(a: AABB, b: AABB)
    ensures
        a.spec_union(b) == b.spec_union(a),
{
}

/// A box grown to a point holds the point, and every point it held before.
pub proof fn lemma_point_union_contains(b: AABB, p: Vec3, q: Vec3)
    requires
        q == p || b.contains(q),
    ensures
        b.spec_point_union(p).contains(q),
{
}

/// A union encloses both boxes, and is enclosed by every box that encloses
/// both.
pub proof fn lemma_union_least(a: AABB, b: AABB, c: AABB)
    ensures
        a.spec_union(b).encloses(a),
        a.spec_union(b).encloses(b),
        c.encloses(a) && c.encloses(b) ==> c.encloses(a.spec_union(b)),
{
}

} // verus!
