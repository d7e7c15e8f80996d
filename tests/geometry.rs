use trtlib::camera::Pinhole;
use trtlib::fixed::{isqrt, ONE};
use trtlib::hittable::{HitRecord, Sphere};
use trtlib::material::{Diffuse, Material, Mirror};
use trtlib::ray::Ray;
use trtlib::scene::{any_hit, default_scene, test_scene, ObjRef};
use trtlib::vec3::Vec3;

fn ball(radius: i64, x: i64, y: i64, z: i64) -> Sphere {
    Sphere {
        radius,
        center: Vec3::new(x, y, z),
    }
}

fn grey() -> Material {
    Material::Diffuse(Diffuse {
        albedo: Vec3::new(ONE / 2, ONE / 2, ONE / 2),
    })
}

fn forward() -> Ray {
    Ray::new(&Vec3::new(0, 0, 0), &Vec3::new(0, 0, -ONE))
}

#[test]
fn center_ray_hits_unit_scene_sphere() {
    let scene = test_scene();
    let ray = Pinhole::default().get_ray(ONE / 2, ONE / 2);
    assert_eq!(ray.direction, Vec3::new(0, 0, -ONE));
    let hit = scene[0].hittable.hit(&ray, None, None).unwrap();
    assert_eq!(hit.t, ONE / 2);
    assert_eq!(hit.p, Vec3::new(0, 0, -ONE / 2));
    assert_eq!(hit.normal, Vec3::new(0, 0, ONE));
}

#[test]
fn hit_point_lies_at_the_radius() {
    // A ray grazing off-axis: the hit point is 0.5 from the center to within
    // a few raw units, and the normal has unit length to within a few units.
    let s = ball(ONE / 2, 0, 0, -ONE);
    let ray = Ray::new(&Vec3::new(ONE / 5, ONE / 7, 0), &Vec3::new(0, 0, -ONE));
    let h = s.hit(&ray, None, None).unwrap();
    let dx = (h.p.x - s.center.x) as i128;
    let dy = (h.p.y - s.center.y) as i128;
    let dz = (h.p.z - s.center.z) as i128;
    let dist = isqrt((dx * dx + dy * dy + dz * dz) as u128) as i64;
    assert!((dist - ONE / 2).abs() <= 2);
    let n = h.normal;
    let len = isqrt((n.x as i128 * n.x as i128 + n.y as i128 * n.y as i128 + n.z as i128 * n.z as i128) as u128) as i64;
    assert!((len - ONE).abs() <= 4);
}

#[test]
fn zero_radius_or_zero_direction_misses() {
    assert_eq!(ball(0, 0, 0, -ONE).hit(&forward(), None, None), None);
    let still = Ray::new(&Vec3::new(0, 0, 0), &Vec3::new(0, 0, 0));
    assert_eq!(ball(ONE / 2, 0, 0, 0).hit(&still, None, None), None);
}

#[test]
fn ray_missing_the_sphere() {
    let s = ball(ONE / 2, 0, 2 * ONE, -ONE);
    assert_eq!(s.hit(&forward(), None, None), None);
}

#[test]
fn bounds_select_the_far_root_or_nothing() {
    let s = ball(ONE / 2, 0, 0, -ONE);
    let far = s.hit(&forward(), Some(ONE), None).unwrap();
    assert_eq!(far.t, 3 * ONE / 2);
    assert_eq!(far.p, Vec3::new(0, 0, -3 * ONE / 2));
    assert_eq!(far.normal, Vec3::new(0, 0, -ONE));
    assert_eq!(s.hit(&forward(), None, Some(ONE / 2)), None);
    assert_eq!(s.hit(&forward(), Some(2 * ONE), None), None);
}

#[test]
fn doubled_direction_halves_the_parameter() {
    let s = ball(ONE / 2, 0, 0, -ONE);
    let ray = Ray::new(&Vec3::new(0, 0, 0), &Vec3::new(0, 0, -2 * ONE));
    let h = s.hit(&ray, None, None).unwrap();
    assert_eq!(h.t, ONE / 4);
    assert_eq!(h.p, Vec3::new(0, 0, -ONE / 2));
}

#[test]
fn nearest_hit_over_several_surfaces() {
    let near = ObjRef { hittable: ball(ONE / 2, 0, 0, -2 * ONE), material: grey() };
    let far = ObjRef { hittable: ball(ONE / 2, 0, 0, -5 * ONE), material: grey() };
    let miss = ObjRef { hittable: ball(ONE / 2, 0, 3 * ONE, -2 * ONE), material: grey() };
    let scene = vec![far, miss, near];
    let (h, k) = any_hit(&scene, &forward(), None, None).unwrap();
    assert_eq!(k, 2);
    assert_eq!(h.t, 3 * ONE / 2);

    // removing a farther surface leaves the record unchanged
    let without_far = vec![miss, near];
    let (h2, k2) = any_hit(&without_far, &forward(), None, None).unwrap();
    assert_eq!(h2, h);
    assert_eq!(k2, 1);

    // removing the nearest one changes it
    let without_near = vec![far, miss];
    let (h3, k3) = any_hit(&without_near, &forward(), None, None).unwrap();
    assert_eq!(k3, 0);
    assert_eq!(h3.t, 9 * ONE / 2);
}

#[test]
fn nearest_hit_ties_keep_the_first() {
    let a = ObjRef { hittable: ball(ONE / 2, 0, 0, -2 * ONE), material: grey() };
    let b = ObjRef {
        hittable: ball(ONE / 2, 0, 0, -2 * ONE),
        material: Material::Mirror(Mirror { albedo: Vec3::new(ONE, ONE, ONE), fuzziness: 0 }),
    };
    let scene = vec![a, b];
    let (_, k) = any_hit(&scene, &forward(), None, None).unwrap();
    assert_eq!(k, 0);
}

#[test]
fn nearest_hit_respects_bounds_and_empty_scene() {
    let empty: Vec<ObjRef> = Vec::new();
    assert_eq!(any_hit(&empty, &forward(), None, None), None);
    let scene = vec![ObjRef { hittable: ball(ONE / 2, 0, 0, -2 * ONE), material: grey() }];
    let expect = HitRecord {
        t: 5 * ONE / 2,
        p: Vec3::new(0, 0, -5 * ONE / 2),
        normal: Vec3::new(0, 0, -ONE),
    };
    assert_eq!(any_hit(&scene, &forward(), Some(2 * ONE), None), Some((expect, 0)));
    assert_eq!(any_hit(&scene, &forward(), None, Some(ONE)), None);
}

#[test]
fn scene_constructors() {
    let s = test_scene();
    assert_eq!(s.len(), 1);
    assert_eq!(s[0].hittable, ball(ONE / 2, 0, 0, -ONE));
    let d = default_scene();
    assert_eq!(d.len(), 4);
    assert_eq!(d[1].hittable, ball(100 * ONE, 0, -6586368, -ONE));
    assert_eq!(
        d[2].material,
        Material::Mirror(Mirror { albedo: Vec3::new(52429, 39322, 13107), fuzziness: 0 })
    );
}

#[test]
fn negative_radius_hits_with_inward_normal() {
    let s = ball(-ONE / 2, 0, 0, -ONE);
    let h = s.hit(&forward(), None, None).unwrap();
    assert_eq!(h.t, ONE / 2);
    assert_eq!(h.p, Vec3::new(0, 0, -ONE / 2));
    assert_eq!(h.normal, Vec3::new(0, 0, -ONE));
}
