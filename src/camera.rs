//! The pinhole camera.
use vstd::prelude::*;

use crate::fixed::ONE;
use crate::ray::Ray;
use crate::vec3::{minus_spec, plus_spec, scaled_spec, Vec3};

verus! {

/// A pinhole camera: an eye point and an image-plane rectangle anchored at
/// `lower_left` with extents `horizontal` and `vertical`.
#[derive(Clone, Copy, Debug, PartialEq, Eq, Structural)]
pub struct Pinhole {
    pub origin: Vec3,
    pub horizontal: Vec3,
    pub vertical: Vec3,
    pub lower_left: Vec3,
}

/// The ray through image-plane coordinates `(u, v)`:
/// `lower_left + u * horizontal + v * vertical - origin`, from `origin`.
pub open spec fn get_ray_spec(c: Pinhole, u: int, v: int) -> Ray {
    Ray {
        origin: c.origin,
        direction: minus_spec(
            plus_spec(plus_spec(c.lower_left, scaled_spec(c.horizontal, u)), scaled_spec(c.vertical, v)),
            c.origin,
        ),
    }
}

impl Pinhole {
    /// All four vectors lie in the representable range.
    pub open spec fn wf(self) -> bool {
        self.origin.wf() && self.horizontal.wf() && self.vertical.wf() && self.lower_left.wf()
    }

    /// The ray from the eye through `(u, v)`; coordinates outside `[0, 1]`
    /// extend the plane. The direction is not normalized.
    pub fn get_ray(&self, u: i64, v: i64) -> (r: Ray)
        requires
            self.wf(),
        ensures
            r == get_ray_spec(*self, u as int, v as int),
            r.wf(),
    {
        let direction = self.lower_left.plus(self.horizontal.scaled(u)).plus(self.vertical.scaled(v)).minus(
            self.origin,
        );
        Ray { origin: self.origin, direction }
    }
}

/// The ray through `(0, 0)` leaves the eye towards the lower-left corner:
/// its direction is exactly `lower_left - origin`.
pub proof fn lemma_corner_ray(c: Pinhole)
    requires
        c.wf(),
    ensures
        get_ray_spec(c, 0, 0) == (Ray { origin: c.origin, direction: minus_spec(c.lower_left, c.origin) }),
{
    assert(scaled_spec(c.horizontal, 0) == Vec3 { x: 0, y: 0, z: 0 });
    assert(scaled_spec(c.vertical, 0) == Vec3 { x: 0, y: 0, z: 0 });
    assert(plus_spec(c.lower_left, Vec3 { x: 0, y: 0, z: 0 }) == c.lower_left);
}

impl Default for Pinhole {
    /// Eye at the origin, a 4 by 2 image plane at `z = -1`.
    fn default() -> (r: Pinhole)
        ensures
            r == (Pinhole {
                origin: Vec3 { x: 0, y: 0, z: 0 },
                horizontal: Vec3 { x: 262144, y: 0, z: 0 },
                vertical: Vec3 { x: 0, y: 131072, z: 0 },
                lower_left: Vec3 { x: -131072i64, y: -65536i64, z: -65536i64 },
            }),
            r.wf(),
    {
        Pinhole {
            origin: Vec3 { x: 0, y: 0, z: 0 },
            horizontal: Vec3 { x: 4 * ONE, y: 0, z: 0 },
            vertical: Vec3 { x: 0, y: 2 * ONE, z: 0 },
            lower_left: Vec3 { x: -2 * ONE, y: -ONE, z: -ONE },
        }
    }
}

} // verus!
