//! Rays: an origin and a direction, with points along them.
use vstd::prelude::*;

use crate::vec3::{plus_spec, scaled_spec, Vec3};

verus! {

/// A ray `origin + t * direction`; the direction need not be unit length.
#[derive(Clone, Copy, Debug, PartialEq, Eq, Structural)]
pub struct Ray {
    pub origin: Vec3,
    pub direction: Vec3,
}

/// The point at parameter `t` along `ray`.
pub open spec fn point_at_spec(ray: Ray, t: int) -> Vec3 {
    plus_spec(ray.origin, scaled_spec(ray.direction, t))
}

impl Ray {
    /// Both vectors lie in the representable range.
    pub open spec fn wf(self) -> bool {
        self.origin.wf() && self.direction.wf()
    }

    /// The point `origin + delta * direction`.
    pub fn point_at_param(self, delta: i64) -> (r: Vec3)
        requires
            self.wf(),
        ensures
            r == point_at_spec(self, delta as int),
            r.wf(),
    {
        self.origin.plus(self.direction.scaled(delta))
    }

    /// A ray with the given origin and direction.
    pub fn new(origin: &Vec3, direction: &Vec3) -> (r: Ray)
        ensures
            r.origin == *origin,
            r.direction == *direction,
    {
        Ray { origin: *origin, direction: *direction }
    }
}

} // verus!
