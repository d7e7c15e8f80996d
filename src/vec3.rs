//! Three-component fixed-point vectors: positions, directions and colours.
use vstd::prelude::*;

use crate::fixed::{in_range, mul_fixed, mul_spec, sat, saturate, ONE};

verus! {

/// A vector of three raw fixed-point scalars.
#[derive(Clone, Copy, Debug, PartialEq, Eq, Structural)]
pub struct Vec3 {
    pub x: i64,
    pub y: i64,
    pub z: i64,
}

impl Vec3 {
    /// Every component lies in the representable range.
    pub open spec fn wf(self) -> bool {
        in_range(self.x as int) && in_range(self.y as int) && in_range(self.z as int)
    }

    /// A vector from its three raw components.
    pub fn new(x: i64, y: i64, z: i64) -> (r: Vec3)
        ensures
            r == (Vec3 { x, y, z }),
    {
        Vec3 { x, y, z }
    }

    /// The zero vector.
    pub fn zero() -> (r: Vec3)
        ensures
            r == zero_spec(),
            r.wf(),
    {
        Vec3 { x: 0, y: 0, z: 0 }
    }

    /// Component-wise sum, saturated.
    pub fn plus(self, o: Vec3) -> (r: Vec3)
        ensures
            r == plus_spec(self, o),
            r.wf(),
    {
        Vec3 {
            x: saturate(self.x as i128 + o.x as i128),
            y: saturate(self.y as i128 + o.y as i128),
            z: saturate(self.z as i128 + o.z as i128),
        }
    }

    /// Component-wise difference, saturated.
    pub fn minus(self, o: Vec3) -> (r: Vec3)
        ensures
            r == minus_spec(self, o),
            r.wf(),
    {
        Vec3 {
            x: saturate(self.x as i128 - o.x as i128),
            y: saturate(self.y as i128 - o.y as i128),
            z: saturate(self.z as i128 - o.z as i128),
        }
    }

    /// Every component multiplied by the scalar `s`.
    pub fn scaled(self, s: i64) -> (r: Vec3)
        ensures
            r == scaled_spec(self, s as int),
            r.wf(),
    {
        Vec3 { x: mul_fixed(self.x, s), y: mul_fixed(self.y, s), z: mul_fixed(self.z, s) }
    }

    /// Component-wise product, as colours are tinted.
    pub fn times(self, o: Vec3) -> (r: Vec3)
        ensures
            r == times_spec(self, o),
            r.wf(),
    {
        Vec3 { x: mul_fixed(self.x, o.x), y: mul_fixed(self.y, o.y), z: mul_fixed(self.z, o.z) }
    }

    /// The dot product, rounded down and saturated.
    pub fn dot(self, o: Vec3) -> (r: i64)
        requires
            self.wf(),
            o.wf(),
        ensures
            r == dot_spec(self, o),
            in_range(r as int),
    {
        let e = raw_dot(self, o);
        saturate(crate::fixed::div_floor(e, ONE as i128))
    }
}

/// The exact sum of component products, at scale `ONE * ONE`.
pub open spec fn raw_dot_spec(a: Vec3, b: Vec3) -> int {
    a.x * b.x + a.y * b.y + a.z * b.z
}

/// Exact sum of component products of two vectors whose components are
/// bounded by `2 * LIMIT`.
pub fn raw_dot(a: Vec3, b: Vec3) -> (r: i128)
    requires
        -2 * crate::fixed::LIMIT <= a.x <= 2 * crate::fixed::LIMIT,
        -2 * crate::fixed::LIMIT <= a.y <= 2 * crate::fixed::LIMIT,
        -2 * crate::fixed::LIMIT <= a.z <= 2 * crate::fixed::LIMIT,
        -2 * crate::fixed::LIMIT <= b.x <= 2 * crate::fixed::LIMIT,
        -2 * crate::fixed::LIMIT <= b.y <= 2 * crate::fixed::LIMIT,
        -2 * crate::fixed::LIMIT <= b.z <= 2 * crate::fixed::LIMIT,
    ensures
        r == raw_dot_spec(a, b),
        -0xC00_0000_0000_0000 <= r <= 0xC00_0000_0000_0000,
{
    let ghost m: int = 2 * crate::fixed::LIMIT;
    proof {
        crate::fixed::lemma_mul_bound(a.x as int, b.x as int, m);
        crate::fixed::lemma_mul_bound(a.y as int, b.y as int, m);
        crate::fixed::lemma_mul_bound(a.z as int, b.z as int, m);
        assert(m * m == 0x400_0000_0000_0000) by (nonlinear_arith)
            requires m == 0x2000_0000;
    }
    a.x as i128 * b.x as i128 + a.y as i128 * b.y as i128 + a.z as i128 * b.z as i128
}

/// The zero vector.
pub open spec fn zero_spec() -> Vec3 {
    Vec3 { x: 0, y: 0, z: 0 }
}

/// Component-wise saturated sum.
pub open spec fn plus_spec(a: Vec3, b: Vec3) -> Vec3 {
    Vec3 { x: sat(a.x + b.x) as i64, y: sat(a.y + b.y) as i64, z: sat(a.z + b.z) as i64 }
}

/// Component-wise saturated difference.
pub open spec fn minus_spec(a: Vec3, b: Vec3) -> Vec3 {
    Vec3 { x: sat(a.x - b.x) as i64, y: sat(a.y - b.y) as i64, z: sat(a.z - b.z) as i64 }
}

/// Every component multiplied by a scalar.
pub open spec fn scaled_spec(a: Vec3, s: int) -> Vec3 {
    Vec3 {
        x: mul_spec(a.x as int, s) as i64,
        y: mul_spec(a.y as int, s) as i64,
        z: mul_spec(a.z as int, s) as i64,
    }
}

/// Component-wise product.
pub open spec fn times_spec(a: Vec3, b: Vec3) -> Vec3 {
    Vec3 {
        x: mul_spec(a.x as int, b.x as int) as i64,
        y: mul_spec(a.y as int, b.y as int) as i64,
        z: mul_spec(a.z as int, b.z as int) as i64,
    }
}

/// The dot product of two vectors, rounded down and saturated.
pub open spec fn dot_spec(a: Vec3, b: Vec3) -> int {
    sat(raw_dot_spec(a, b) / (ONE as int))
}

} // verus!
