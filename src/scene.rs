//! Scenes: ordered surface and material pairs, and the nearest-hit query.
use vstd::prelude::*;

use crate::fixed::ONE;
use crate::hittable::{hit_spec, HitRecord, Sphere};
use crate::material::{Diffuse, Material, Mirror};
use crate::ray::Ray;
use crate::vec3::Vec3;

verus! {

/// A surface together with the material it is made of.
#[derive(Clone, Copy, Debug, PartialEq, Eq, Structural)]
pub struct ObjRef {
    pub hittable: Sphere,
    pub material: Material,
}

impl ObjRef {
    /// The surface and the material lie in the representable range.
    pub open spec fn wf(self) -> bool {
        self.hittable.wf() && self.material.wf()
    }
}

/// Every object of a scene is well formed.
pub open spec fn scene_wf(objs: Seq<ObjRef>) -> bool {
    forall|i: int| 0 <= i < objs.len() ==> #[trigger] objs[i].wf()
}

/// What object `i` of the scene reports for the ray.
pub open spec fn hit_of(objs: Seq<ObjRef>, i: int, ray: Ray, t_min: Option<i64>, t_max: Option<i64>) -> Option<HitRecord> {
    hit_spec(objs[i].hittable, ray, t_min, t_max)
}

/// The nearest hit among the objects, scanned in order: a later object
/// replaces the current best only when strictly closer.
pub open spec fn nearest(objs: Seq<ObjRef>, ray: Ray, t_min: Option<i64>, t_max: Option<i64>) -> Option<(HitRecord, int)>
    decreases objs.len(),
{
    if objs.len() == 0 {
        None
    } else {
        let k = objs.len() - 1;
        let prev = nearest(objs.drop_last(), ray, t_min, t_max);
        match hit_of(objs, k, ray, t_min, t_max) {
            Some(h) => match prev {
                Some(best) => if h.t < best.0.t {
                    Some((h, k))
                } else {
                    prev
                },
                None => Some((h, k)),
            },
            None => prev,
        }
    }
}

/// Object `k` hits, no object hits closer, and every earlier object that
/// hits lies strictly farther.
pub open spec fn is_nearest(objs: Seq<ObjRef>, ray: Ray, t_min: Option<i64>, t_max: Option<i64>, k: int) -> bool {
    &&& 0 <= k < objs.len()
    &&& hit_of(objs, k, ray, t_min, t_max) is Some
    &&& forall|i: int|
        0 <= i < objs.len() && (#[trigger] hit_of(objs, i, ray, t_min, t_max)) is Some ==> {
            &&& hit_of(objs, k, ray, t_min, t_max).unwrap().t <= hit_of(objs, i, ray, t_min, t_max).unwrap().t
            &&& (i < k ==> hit_of(objs, k, ray, t_min, t_max).unwrap().t < hit_of(objs, i, ray, t_min, t_max).unwrap().t)
        }
}

/// No object hits.
pub open spec fn no_hit(objs: Seq<ObjRef>, ray: Ray, t_min: Option<i64>, t_max: Option<i64>) -> bool {
    forall|i: int| 0 <= i < objs.len() ==> (#[trigger] hit_of(objs, i, ray, t_min, t_max)) is None
}

proof fn lemma_hit_of_prefix(objs: Seq<ObjRef>, ray: Ray, t_min: Option<i64>, t_max: Option<i64>)
    requires
        objs.len() > 0,
    ensures
        forall|i: int|
            0 <= i < objs.len() - 1 ==> #[trigger] hit_of(objs.drop_last(), i, ray, t_min, t_max)
                == hit_of(objs, i, ray, t_min, t_max),
{
}

/// The scan returns the nearest object, or none exactly when nothing hits.
pub proof fn lemma_nearest_sound(objs: Seq<ObjRef>, ray: Ray, t_min: Option<i64>, t_max: Option<i64>)
    ensures
        match nearest(objs, ray, t_min, t_max) {
            Some((h, k)) => is_nearest(objs, ray, t_min, t_max, k) && hit_of(objs, k, ray, t_min, t_max) == Some(h),
            None => no_hit(objs, ray, t_min, t_max),
        },
    decreases objs.len(),
{
    if objs.len() > 0 {
        let pre = objs.drop_last();
        lemma_nearest_sound(pre, ray, t_min, t_max);
        lemma_hit_of_prefix(objs, ray, t_min, t_max);
        let last = objs.len() - 1;
        match nearest(objs, ray, t_min, t_max) {
            Some((h, k)) => {
                assert forall|i: int|
                    0 <= i < objs.len() && (#[trigger] hit_of(objs, i, ray, t_min, t_max)) is Some implies {
                        &&& hit_of(objs, k, ray, t_min, t_max).unwrap().t <= hit_of(objs, i, ray, t_min, t_max).unwrap().t
                        &&& (i < k ==> hit_of(objs, k, ray, t_min, t_max).unwrap().t < hit_of(objs, i, ray, t_min, t_max).unwrap().t)
                    } by {
                    if i < last {
                        assert(hit_of(pre, i, ray, t_min, t_max) == hit_of(objs, i, ray, t_min, t_max));
                    }
                }
            },
            None => {
                assert forall|i: int| 0 <= i < objs.len() implies (#[trigger] hit_of(objs, i, ray, t_min, t_max)) is None by {
                    if i < last {
                        assert(hit_of(pre, i, ray, t_min, t_max) == hit_of(objs, i, ray, t_min, t_max));
                    }
                }
            },
        }
    }
}

/// The nearest object is unique: it is what the scan returns.
pub proof fn lemma_nearest_complete(objs: Seq<ObjRef>, ray: Ray, t_min: Option<i64>, t_max: Option<i64>, k: int)
    requires
        is_nearest(objs, ray, t_min, t_max, k),
    ensures
        nearest(objs, ray, t_min, t_max) == Some((hit_of(objs, k, ray, t_min, t_max).unwrap(), k)),
{
    lemma_nearest_sound(objs, ray, t_min, t_max);
    assert(hit_of(objs, k, ray, t_min, t_max) is Some);
    match nearest(objs, ray, t_min, t_max) {
        Some((h, j)) => {
            assert(hit_of(objs, j, ray, t_min, t_max) is Some);
            assert(hit_of(objs, k, ray, t_min, t_max) is Some);
            if j < k {
                assert(hit_of(objs, k, ray, t_min, t_max).unwrap().t < hit_of(objs, j, ray, t_min, t_max).unwrap().t);
            } else if k < j {
                assert(hit_of(objs, j, ray, t_min, t_max).unwrap().t < hit_of(objs, k, ray, t_min, t_max).unwrap().t);
            }
        },
        None => {
            assert(hit_of(objs, k, ray, t_min, t_max) is None);
        },
    }
}

/// Of all the objects that the ray hits with a parameter strictly between the
/// optional bounds, the one with the smallest parameter (the first such on a
/// tie), with its hit record and its index; `None` when nothing is hit, an
/// empty scene included.
pub fn any_hit(list: &Vec<ObjRef>, ray: &Ray, t_min: Option<i64>, t_max: Option<i64>) -> (r: Option<(HitRecord, usize)>)
    requires
        scene_wf(list@),
        ray.wf(),
    ensures
        r matches Some((h, k)) ==> nearest(list@, *ray, t_min, t_max) == Some((h, k as int)),
        r is None ==> nearest(list@, *ray, t_min, t_max) is None,
        r matches Some((h, k)) ==> k < list@.len() && h.p.wf() && h.normal.wf(),
        r matches Some((h, k)) ==> is_nearest(list@, *ray, t_min, t_max, k as int) && hit_of(
            list@,
            k as int,
            *ray,
            t_min,
            t_max,
        ) == Some(h),
        r is None ==> no_hit(list@, *ray, t_min, t_max),
{
    let mut best: Option<(HitRecord, usize)> = None;
    let mut i: usize = 0;
    while i < list.len()
        invariant
            i <= list@.len(),
            scene_wf(list@),
            ray.wf(),
            best matches Some((h, k)) ==> nearest(list@.take(i as int), *ray, t_min, t_max) == Some((h, k as int)),
            best is None ==> nearest(list@.take(i as int), *ray, t_min, t_max) is None,
            best matches Some((h, k)) ==> k < i && h.p.wf() && h.normal.wf(),
        decreases list@.len() - i,
    {
        let ghost pre = list@.take(i as int);
        let ghost cur = list@.take(i + 1);
        assert(cur.drop_last() =~= pre);
        assert(cur[i as int] == list@[i as int]);
        assert(list@[i as int].wf());
        let found = list[i].hittable.hit(ray, t_min, t_max);
        match found {
            Some(h) => {
                let closer = match best {
                    Some(b) => h.t < b.0.t,
                    None => true,
                };
                if closer {
                    best = Some((h, i));
                }
            },
            None => {},
        }
        i = i + 1;
    }
    assert(list@.take(list@.len() as int) =~= list@);
    proof {
        lemma_nearest_sound(list@, *ray, t_min, t_max);
    }
    best
}

/// Removing an object that the ray misses, or hits strictly farther than the
/// nearest, leaves the nearest hit record unchanged (its index shifts down by
/// one when the removed object came before it).
pub proof fn lemma_remove_farther(objs: Seq<ObjRef>, ray: Ray, t_min: Option<i64>, t_max: Option<i64>, j: int)
    requires
        0 <= j < objs.len(),
        nearest(objs, ray, t_min, t_max) is Some,
        hit_of(objs, j, ray, t_min, t_max) matches Some(hj) ==> nearest(objs, ray, t_min, t_max).unwrap().0.t < hj.t,
    ensures
        ({
            let (h, k) = nearest(objs, ray, t_min, t_max).unwrap();
            nearest(objs.remove(j), ray, t_min, t_max) == Some((h, if j < k { k - 1 } else { k }))
        }),
{
    lemma_nearest_sound(objs, ray, t_min, t_max);
    let (h, k) = nearest(objs, ray, t_min, t_max).unwrap();
    let rest = objs.remove(j);
    let k2 = if j < k { k - 1 } else { k };
    assert(j != k);
    assert forall|i: int| 0 <= i < rest.len() implies #[trigger] hit_of(rest, i, ray, t_min, t_max)
        == hit_of(objs, if i < j { i } else { i + 1 }, ray, t_min, t_max) by {
        assert(rest[i] == objs[if i < j { i } else { i + 1 }]);
    }
    assert(hit_of(rest, k2, ray, t_min, t_max) == hit_of(objs, k, ray, t_min, t_max));
    assert forall|i: int|
        0 <= i < rest.len() && (#[trigger] hit_of(rest, i, ray, t_min, t_max)) is Some implies {
            &&& hit_of(rest, k2, ray, t_min, t_max).unwrap().t <= hit_of(rest, i, ray, t_min, t_max).unwrap().t
            &&& (i < k2 ==> hit_of(rest, k2, ray, t_min, t_max).unwrap().t < hit_of(rest, i, ray, t_min, t_max).unwrap().t)
        } by {
        let o = if i < j { i } else { i + 1 };
        assert(hit_of(rest, i, ray, t_min, t_max) == hit_of(objs, o, ray, t_min, t_max));
        assert(hit_of(objs, o, ray, t_min, t_max) is Some);
    }
    lemma_nearest_complete(rest, ray, t_min, t_max, k2);
}

/// Removing the nearest object changes the answer unless another object ties
/// with it: what remains is either no hit or a strictly farther one.
pub proof fn lemma_remove_nearest(objs: Seq<ObjRef>, ray: Ray, t_min: Option<i64>, t_max: Option<i64>)
    requires
        nearest(objs, ray, t_min, t_max) is Some,
        forall|i: int|
            0 <= i < objs.len() && i != nearest(objs, ray, t_min, t_max).unwrap().1
                && (#[trigger] hit_of(objs, i, ray, t_min, t_max)) is Some
                ==> hit_of(objs, i, ray, t_min, t_max).unwrap().t != nearest(objs, ray, t_min, t_max).unwrap().0.t,
    ensures
        ({
            let (h, k) = nearest(objs, ray, t_min, t_max).unwrap();
            match nearest(objs.remove(k), ray, t_min, t_max) {
                Some((h2, k2)) => h.t < h2.t,
                None => true,
            }
        }),
{
    lemma_nearest_sound(objs, ray, t_min, t_max);
    let (h, k) = nearest(objs, ray, t_min, t_max).unwrap();
    let rest = objs.remove(k);
    lemma_nearest_sound(rest, ray, t_min, t_max);
    match nearest(rest, ray, t_min, t_max) {
        Some((h2, k2)) => {
            let o = if k2 < k { k2 } else { k2 + 1 };
            assert(rest[k2] == objs[o]);
            assert(hit_of(rest, k2, ray, t_min, t_max) == hit_of(objs, o, ray, t_min, t_max));
            assert(hit_of(objs, o, ray, t_min, t_max) is Some);
        },
        None => {},
    }
}

/// A sphere of the given raw radius and center with the given material.
pub open spec fn obj_spec(radius: i64, cx: i64, cy: i64, cz: i64, material: Material) -> ObjRef {
    ObjRef { hittable: Sphere { radius, center: Vec3 { x: cx, y: cy, z: cz } }, material }
}

/// A diffuse material of the given raw albedo.
pub open spec fn diffuse_of(r: i64, g: i64, b: i64) -> Material {
    Material::Diffuse(Diffuse { albedo: Vec3 { x: r, y: g, z: b } })
}

/// A sharp mirror of the given raw albedo.
pub open spec fn mirror_of(r: i64, g: i64, b: i64) -> Material {
    Material::Mirror(Mirror { albedo: Vec3 { x: r, y: g, z: b }, fuzziness: 0 })
}

/// The default scene: a reddish diffuse ball of radius 0.5 at `(0, 0, -1)` on a
/// yellowish ground ball of radius 100 at `(0, -100.5, -1)`, between a gold
/// mirror ball at `(1, 0, -1)` and a grey mirror ball at `(-1, 0, -1)`.
/// Fractions are their nearest raw values (0.8 is 52429).
pub fn default_scene() -> (r: Vec<ObjRef>)
    ensures
        r@ == seq![
            obj_spec(32768, 0, 0, -65536i64, diffuse_of(52429, 19661, 19661)),
            obj_spec(6553600, 0, -6586368i64, -65536i64, diffuse_of(52429, 52429, 0)),
            obj_spec(32768, 65536, 0, -65536i64, mirror_of(52429, 39322, 13107)),
            obj_spec(32768, -65536i64, 0, -65536i64, mirror_of(52429, 52429, 52429)),
        ],
        scene_wf(r@),
        crate::render::albedos_in_unit(r@),
{
    let mut v: Vec<ObjRef> = Vec::new();
    v.push(
        ObjRef {
            hittable: Sphere { radius: 32768, center: Vec3 { x: 0, y: 0, z: -ONE } },
            material: Material::Diffuse(Diffuse { albedo: Vec3 { x: 52429, y: 19661, z: 19661 } }),
        },
    );
    v.push(
        ObjRef {
            hittable: Sphere { radius: 6553600, center: Vec3 { x: 0, y: -6586368, z: -ONE } },
            material: Material::Diffuse(Diffuse { albedo: Vec3 { x: 52429, y: 52429, z: 0 } }),
        },
    );
    v.push(
        ObjRef {
            hittable: Sphere { radius: 32768, center: Vec3 { x: ONE, y: 0, z: -ONE } },
            material: Material::Mirror(
                Mirror { albedo: Vec3 { x: 52429, y: 39322, z: 13107 }, fuzziness: 0 },
            ),
        },
    );
    v.push(
        ObjRef {
            hittable: Sphere { radius: 32768, center: Vec3 { x: -ONE, y: 0, z: -ONE } },
            material: Material::Mirror(
                Mirror { albedo: Vec3 { x: 52429, y: 52429, z: 52429 }, fuzziness: 0 },
            ),
        },
    );
    assert(v@ =~= seq![
        obj_spec(32768, 0, 0, -65536i64, diffuse_of(52429, 19661, 19661)),
        obj_spec(6553600, 0, -6586368i64, -65536i64, diffuse_of(52429, 52429, 0)),
        obj_spec(32768, 65536, 0, -65536i64, mirror_of(52429, 39322, 13107)),
        obj_spec(32768, -65536i64, 0, -65536i64, mirror_of(52429, 52429, 52429)),
    ]);
    v
}

/// A single reddish diffuse ball of radius 0.5 at `(0, 0, -1)`.
pub fn test_scene() -> (r: Vec<ObjRef>)
    ensures
        r@ == seq![obj_spec(32768, 0, 0, -65536i64, diffuse_of(52429, 19661, 19661))],
        scene_wf(r@),
        crate::render::albedos_in_unit(r@),
{
    let mut v: Vec<ObjRef> = Vec::new();
    v.push(
        ObjRef {
            hittable: Sphere { radius: 32768, center: Vec3 { x: 0, y: 0, z: -ONE } },
            material: Material::Diffuse(Diffuse { albedo: Vec3 { x: 52429, y: 19661, z: 19661 } }),
        },
    );
    assert(v@ =~= seq![obj_spec(32768, 0, 0, -65536i64, diffuse_of(52429, 19661, 19661))]);
    v
}

} // verus!
