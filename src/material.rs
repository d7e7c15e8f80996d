//! Materials: how a surface scatters an incoming ray.
use vstd::prelude::*;

use crate::fixed::{sat, saturate, ONE};
use crate::hittable::HitRecord;
use crate::ray::Ray;
use crate::vec3::{dot_spec, minus_spec, raw_dot, raw_dot_spec, plus_spec, scaled_spec, zero_spec, Vec3};

verus! {

/// A Lambertian surface with per-channel reflectance.
#[derive(Clone, Copy, Debug, PartialEq, Eq, Structural)]
pub struct Diffuse {
    pub albedo: Vec3,
}

/// A specular surface. `fuzziness` perturbs the reflection and is clamped to
/// `[0, 1]` when used.
#[derive(Clone, Copy, Debug, PartialEq, Eq, Structural)]
pub struct Mirror {
    pub albedo: Vec3,
    pub fuzziness: i64,
}

/// The material of a surface.
#[derive(Clone, Copy, Debug, PartialEq, Eq, Structural)]
pub enum Material {
    Diffuse(Diffuse),
    Mirror(Mirror),
}

/// The outcome of one scatter event: the outgoing ray and the attenuation.
#[derive(Clone, Copy, Debug, PartialEq, Eq, Structural)]
pub struct BSDFRecord {
    pub out_scattered: Ray,
    pub attenuated: Vec3,
}

/// `v - 2 (v . n) n`: `v` reflected about the unit normal `n`.
pub open spec fn mirror_spec(v: Vec3, n: Vec3) -> Vec3 {
    minus_spec(v, scaled_spec(n, sat(2 * dot_spec(v, n))))
}

/// Reflect `vector` about the unit normal `normal`.
pub fn mirror(vector: &Vec3, normal: &Vec3) -> (r: Vec3)
    requires
        vector.wf(),
        normal.wf(),
    ensures
        r == mirror_spec(*vector, *normal),
        r.wf(),
{
    let d = vector.dot(*normal);
    let k = saturate(2 * d as i128);
    vector.minus(normal.scaled(k))
}

/// `fuzziness` clamped to `[0, ONE]`.
pub open spec fn fuzz_spec(f: int) -> int {
    if f < 0 {
        0
    } else if f > ONE {
        ONE as int
    } else {
        f
    }
}

/// What a diffuse surface scatters, given a point `s` of the unit ball.
pub open spec fn diffuse_spec(m: Diffuse, hit: HitRecord, s: Vec3) -> BSDFRecord {
    BSDFRecord {
        out_scattered: Ray {
            origin: hit.p,
            direction: minus_spec(plus_spec(plus_spec(hit.p, hit.normal), s), hit.p),
        },
        attenuated: m.albedo,
    }
}

/// What a mirror scatters, given a point `s` of the unit ball.
pub open spec fn mirror_scatter_spec(m: Mirror, in_ray: Ray, hit: HitRecord, s: Vec3) -> BSDFRecord {
    let ideal = mirror_spec(in_ray.direction, hit.normal);
    let out = plus_spec(ideal, scaled_spec(s, fuzz_spec(m.fuzziness as int)));
    BSDFRecord {
        out_scattered: Ray { origin: hit.p, direction: out },
        attenuated: if raw_dot_spec(out, ideal) <= 0 {
            zero_spec()
        } else {
            m.albedo
        },
    }
}

/// What a material scatters, given a point `s` of the unit ball.
pub open spec fn scatter_spec(m: Material, in_ray: Ray, hit: HitRecord, s: Vec3) -> BSDFRecord {
    match m {
        Material::Diffuse(d) => diffuse_spec(d, hit, s),
        Material::Mirror(g) => mirror_scatter_spec(g, in_ray, hit, s),
    }
}

impl HitRecord {
    /// The point and the normal lie in the representable range.
    pub open spec fn wf(self) -> bool {
        self.p.wf() && self.normal.wf()
    }
}

impl Diffuse {
    /// The albedo lies in the representable range.
    pub open spec fn wf(self) -> bool {
        self.albedo.wf()
    }

    /// Scatter towards `p + normal + sample`, keeping the albedo; the incoming
    /// direction plays no part.
    pub fn scatter(&self, in_ray: &Ray, hit_record: &HitRecord, sample: &Vec3) -> (r: BSDFRecord)
        requires
            hit_record.wf(),
            sample.wf(),
        ensures
            r == diffuse_spec(*self, *hit_record, *sample),
            r.attenuated == self.albedo,
            r.out_scattered.wf(),
    {
        let target = hit_record.p.plus(hit_record.normal).plus(*sample);
        let scattered = Ray { origin: hit_record.p, direction: target.minus(hit_record.p) };
        BSDFRecord { out_scattered: scattered, attenuated: self.albedo }
    }
}

impl Mirror {
    /// The albedo lies in the representable range.
    pub open spec fn wf(self) -> bool {
        self.albedo.wf()
    }

    /// Reflect the incoming direction about the normal and perturb it by
    /// `fuzz * sample`; a result that leaves the ideal reflection's half-space
    /// is absorbed: the outgoing and the ideal directions have an exact dot
    /// product that is not positive.
    pub fn scatter(&self, in_ray: &Ray, hit_record: &HitRecord, sample: &Vec3) -> (r: BSDFRecord)
        requires
            in_ray.wf(),
            hit_record.wf(),
            sample.wf(),
        ensures
            r == mirror_scatter_spec(*self, *in_ray, *hit_record, *sample),
            r.out_scattered.wf(),
            self.wf() ==> r.attenuated.wf(),
            self.fuzziness <= 0 ==> r.out_scattered.direction == mirror_spec(
                in_ray.direction,
                hit_record.normal,
            ),
            self.fuzziness <= 0 && mirror_spec(in_ray.direction, hit_record.normal) != zero_spec()
                ==> r.attenuated == self.albedo,
    {
        let fuzz: i64 = if self.fuzziness < 0 {
            0
        } else if self.fuzziness > ONE {
            ONE
        } else {
            self.fuzziness
        };
        let fuzz_vector = sample.scaled(fuzz);
        let ideal = mirror(&in_ray.direction, &hit_record.normal);
        let reflection = ideal.plus(fuzz_vector);
        let attenuated = if raw_dot(reflection, ideal) <= 0 {
            Vec3::zero()
        } else {
            self.albedo
        };
        proof {
            if self.fuzziness <= 0 {
                assert(fuzz_vector == zero_spec());
                assert(reflection == ideal);
                if ideal != zero_spec() {
                    assert(raw_dot_spec(ideal, ideal) > 0) by (nonlinear_arith)
                        requires
                            ideal.x != 0 || ideal.y != 0 || ideal.z != 0,
                            raw_dot_spec(ideal, ideal) == ideal.x * ideal.x + ideal.y * ideal.y + ideal.z
                                * ideal.z,
                    ;
                }
            }
        }
        BSDFRecord { out_scattered: Ray { origin: hit_record.p, direction: reflection }, attenuated }
    }
}

impl Material {
    /// The material's parameters lie in the representable range.
    pub open spec fn wf(self) -> bool {
        match self {
            Material::Diffuse(d) => d.wf(),
            Material::Mirror(m) => m.wf(),
        }
    }

    /// Scatter by whichever material this is.
    pub fn scatter(&self, in_ray: &Ray, hit_record: &HitRecord, sample: &Vec3) -> (r: BSDFRecord)
        requires
            in_ray.wf(),
            hit_record.wf(),
            sample.wf(),
        ensures
            r == scatter_spec(*self, *in_ray, *hit_record, *sample),
            r.out_scattered.wf(),
            self.wf() ==> r.attenuated.wf(),
    {
        match self {
            Material::Diffuse(d) => d.scatter(in_ray, hit_record, sample),
            Material::Mirror(m) => m.scatter(in_ray, hit_record, sample),
        }
    }
}

} // verus!
