//! Lattice vectors and coordinate axes.

use vstd::prelude::*;

verus! {

/// One of the three coordinate axes.
#[derive(Clone, Copy, Debug, PartialEq, Eq, Structural)]
pub enum Axis {
    X,
    Y,
    Z,
}

/// A point or direction on the integer lattice.
#[derive(Clone, Copy, Debug, PartialEq, Eq, Structural)]
pub struct Vec3 {
    pub x: i32,
    pub y: i32,
    pub z: i32,
}

impl Vec3 {
    /// The component of `self` along `axis`.
    pub open spec fn spec_axis(self, axis: Axis) -> int {
        match axis {
            Axis::X => self.x as int,
            Axis::Y => self.y as int,
            Axis::Z => self.z as int,
        }
    }

    /// The dot product, as a mathematical integer.
    pub open spec fn spec_dot(self, other: Vec3) -> int {
        self.x * other.x + self.y * other.y + self.z * other.z
    }

    /// Whether the three mathematical integers are the components of `self`.
    pub open spec fn has_components(self, c: (int, int, int)) -> bool {
        self.x == c.0 && self.y == c.1 && self.z == c.2
    }

    /// The vector with the given components.
    pub fn new(x: i32, y: i32, z: i32) -> (r: Self)
        ensures
            r == (Vec3 { x, y, z }),
    {
        Vec3 { x, y, z }
    }

    /// The origin.
    pub fn zero() -> (r: Self)
        ensures
            r == (Vec3 { x: 0, y: 0, z: 0 }),
    {
        Vec3 { x: 0, y: 0, z: 0 }
    }

    /// The component along `axis`.
    pub fn axis(&self, axis: Axis) -> (r: i32)
        ensures
            r == self.spec_axis(axis),
    {
        match axis {
            Axis::X => self.x,
            Axis::Y => self.y,
            Axis::Z => self.z,
        }
    }

    /// The dot product of the two vectors.
    pub fn dot(&self, other: Vec3) -> (r: i128)
        ensures
            r == self.spec_dot(other),
            -0xC000_0000_0000_0000 <= r <= 0xC000_0000_0000_0000,
    {
        let xx: i128 = product(self.x, other.x);
        let yy: i128 = product(self.y, other.y);
        let zz: i128 = product(self.z, other.z);
        xx + yy + zz
    }
}

/// The exact product of two lattice coordinates.
pub fn product(a: i32, b: i32) -> (r: i128)
    ensures
        r == a * b,
        -0x4000_0000_0000_0000 <= r <= 0x4000_0000_0000_0000,
{
    assert(-0x4000_0000_0000_0000 <= a * b <= 0x4000_0000_0000_0000) by (nonlinear_arith)
        requires
            -0x8000_0000 <= a <= 0x7fff_ffff,
            -0x8000_0000 <= b <= 0x7fff_ffff,
    ;
    (a as i128) * (b as i128)
}

/// The components of the mirror image of `v` about the plane with normal `n`:
/// `v - 2 * dot(v, n) * n`.
pub open spec fn spec_reflect(v: Vec3, n: Vec3) -> (int, int, int) {
    let d = v.spec_dot(n);
    (v.x - 2 * d * n.x, v.y - 2 * d * n.y, v.z - 2 * d * n.z)
}

/// Whether a mathematical integer is a lattice coordinate.
pub open spec fn fits_coordinate(v: int) -> bool {
    i32::MIN <= v <= i32::MAX
}

/// Whether all three mathematical integers are lattice coordinates.
pub open spec fn fits_lattice(c: (int, int, int)) -> bool {
    fits_coordinate(c.0) && fits_coordinate(c.1) && fits_coordinate(c.2)
}

/// Reflects `v` about the plane with normal `n`.
pub fn reflect(v: Vec3, n: Vec3) -> (r: Vec3)
    requires
        fits_lattice(spec_reflect(v, n)),
    ensures
        r.has_components(spec_reflect(v, n)),
{
    let d: i128 = v.dot(n);
    Vec3 {
        x: reflect_component(v.x, d, n.x),
        y: reflect_component(v.y, d, n.y),
        z: reflect_component(v.z, d, n.z),
    }
}

fn reflect_component(v: i32, d: i128, n: i32) -> (r: i32)
    requires
        -0xC000_0000_0000_0000 <= d <= 0xC000_0000_0000_0000,
        fits_coordinate(v - 2 * d * n),
    ensures
        r == v - 2 * d * n,
{
    assert(-0xC000_0000_0000_0000_0000_0000 <= 2 * d * n <= 0xC000_0000_0000_0000_0000_0000)
        by (nonlinear_arith)
        requires
            -0xC000_0000_0000_0000 <= d <= 0xC000_0000_0000_0000,
            -0x8000_0000 <= n <= 0x7fff_ffff,
    ;
    let twice: i128 = 2 * d;
    let shift: i128 = twice * (n as i128);
    let wide: i128 = (v as i128) - shift;
    wide as i32
}

} // verus!
