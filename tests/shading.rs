use trtlib::camera::Pinhole;
use trtlib::fixed::ONE;
use trtlib::hittable::{HitRecord, Sphere};
use trtlib::material::{mirror, Diffuse, Material, Mirror};
use trtlib::ray::Ray;
use trtlib::render::{color, color_with, pixel_ray, render_pixel, render_preview, shade, sky};
use trtlib::sample::{pick_in_ball, unit_sphere};
use trtlib::scene::{default_scene, test_scene, ObjRef};
use trtlib::vec3::Vec3;

fn record() -> HitRecord {
    HitRecord {
        t: ONE,
        p: Vec3::new(0, 0, -ONE / 2),
        normal: Vec3::new(0, 0, ONE),
    }
}

#[test]
fn diffuse_keeps_albedo_for_any_ray() {
    let m = Diffuse { albedo: Vec3::new(52429, 19661, 19661) };
    let s = Vec3::new(ONE / 4, -ONE / 4, 0);
    for d in [Vec3::new(0, 0, -ONE), Vec3::new(ONE, 3, -7), Vec3::new(0, 0, 0)] {
        let r = m.scatter(&Ray::new(&Vec3::new(0, 0, 0), &d), &record(), &s);
        assert_eq!(r.attenuated, m.albedo);
        assert_eq!(r.out_scattered.origin, record().p);
        assert_eq!(r.out_scattered.direction, Vec3::new(ONE / 4, -ONE / 4, ONE));
    }
}

#[test]
fn sharp_mirror_reflects_exactly() {
    let m = Mirror { albedo: Vec3::new(ONE, ONE / 2, 0), fuzziness: 0 };
    let n = Vec3::new(0, ONE, 0);
    let hit = HitRecord { t: ONE, p: Vec3::new(0, 0, 0), normal: n };
    let incoming = Ray::new(&Vec3::new(-ONE, ONE, 0), &Vec3::new(ONE, -ONE, 0));
    let r = m.scatter(&incoming, &hit, &Vec3::new(ONE / 2, ONE / 2, 0));
    assert_eq!(r.out_scattered.direction, Vec3::new(ONE, ONE, 0));
    assert_eq!(r.out_scattered.direction, mirror(&incoming.direction, &n));
    assert_eq!(r.attenuated, m.albedo);
    // negative fuzziness is clamped to zero
    let m2 = Mirror { albedo: m.albedo, fuzziness: -ONE };
    assert_eq!(m2.scatter(&incoming, &hit, &Vec3::new(ONE / 2, 0, 0)), r);
}

#[test]
fn mirror_formula() {
    let v = Vec3::new(ONE, -2 * ONE, 3 * ONE);
    let n = Vec3::new(0, 0, ONE);
    assert_eq!(mirror(&v, &n), Vec3::new(ONE, -2 * ONE, -3 * ONE));
}

#[test]
fn fuzzy_mirror_perturbs_and_absorbs() {
    let hit = HitRecord { t: ONE, p: Vec3::new(0, 0, 0), normal: Vec3::new(0, ONE, 0) };
    let incoming = Ray::new(&Vec3::new(0, ONE, 0), &Vec3::new(0, -ONE / 2, 0));
    // fuzziness above one is clamped to one
    let m = Mirror { albedo: Vec3::new(ONE, ONE, ONE), fuzziness: 3 * ONE };
    let r = m.scatter(&incoming, &hit, &Vec3::new(ONE / 4, 0, 0));
    assert_eq!(r.out_scattered.direction, Vec3::new(ONE / 4, ONE / 2, 0));
    assert_eq!(r.attenuated, m.albedo);
    let absorbed = m.scatter(&incoming, &hit, &Vec3::new(0, -58982, 0));
    assert_eq!(absorbed.out_scattered.direction, Vec3::new(0, ONE / 2 - 58982, 0));
    assert_eq!(absorbed.attenuated, Vec3::new(0, 0, 0));
}

#[test]
fn material_dispatch() {
    let d = Diffuse { albedo: Vec3::new(1, 2, 3) };
    let s = Vec3::new(0, 0, 0);
    let incoming = Ray::new(&Vec3::new(0, 0, 0), &Vec3::new(0, 0, -ONE));
    assert_eq!(Material::Diffuse(d).scatter(&incoming, &record(), &s), d.scatter(&incoming, &record(), &s));
}

#[test]
fn sky_gradient_values() {
    let up = Ray::new(&Vec3::new(0, 0, 0), &Vec3::new(0, 3 * ONE, 0));
    assert_eq!(sky(&up), Vec3::new(32768, 45875, 65536));
    let level = Ray::new(&Vec3::new(0, 0, 0), &Vec3::new(ONE, 0, 0));
    assert_eq!(sky(&level), Vec3::new(49152, 55705, 65536));
    let down = Ray::new(&Vec3::new(0, 0, 0), &Vec3::new(0, -ONE, 0));
    assert_eq!(sky(&down), Vec3::new(ONE, ONE, ONE));
    let still = Ray::new(&Vec3::new(0, 0, 0), &Vec3::new(0, 0, 0));
    assert_eq!(sky(&still), sky(&level));
}

#[test]
fn empty_scene_gives_the_sky() {
    let empty: Vec<ObjRef> = Vec::new();
    let draws = vec![Vec3::new(0, 0, 0); 4];
    for d in [Vec3::new(0, ONE, 0), Vec3::new(ONE, -ONE, 5), Vec3::new(-2 * ONE, ONE / 3, -ONE)] {
        let ray = Ray::new(&Vec3::new(7, 8, 9), &d);
        assert_eq!(color_with(&ray, &empty, 0, 4, &draws), sky(&ray));
        assert_eq!(color_with(&ray, &empty, 4, 4, &draws), sky(&ray));
        assert_eq!(color(&ray, &empty, 2, 4), sky(&ray));
    }
}

#[test]
fn depth_limit_hit_is_black() {
    let scene = test_scene();
    let ray = Ray::new(&Vec3::new(0, 0, 0), &Vec3::new(0, 0, -ONE));
    let draws = vec![Vec3::new(0, 0, 0); 3];
    assert_eq!(color_with(&ray, &scene, 3, 3, &draws), Vec3::new(0, 0, 0));
    assert_eq!(color(&ray, &scene, 3, 3), Vec3::new(0, 0, 0));
    let mirror_scene = vec![ObjRef {
        hittable: Sphere { radius: ONE / 2, center: Vec3::new(0, 0, -ONE) },
        material: Material::Mirror(Mirror { albedo: Vec3::new(ONE, ONE, ONE), fuzziness: 0 }),
    }];
    assert_eq!(color_with(&ray, &mirror_scene, 0, 0, &Vec::new()), Vec3::new(0, 0, 0));
}

#[test]
fn one_bounce_tints_the_sky() {
    // Straight at the unit sphere: the diffuse bounce with a zero sample goes
    // back along the normal, +z, which sees the level sky.
    let scene = test_scene();
    let ray = Ray::new(&Vec3::new(0, 0, 0), &Vec3::new(0, 0, -ONE));
    let draws = vec![Vec3::new(0, 0, 0); 2];
    let expect = sky(&Ray::new(&Vec3::new(0, 0, 0), &Vec3::new(0, 0, ONE)))
        .times(Vec3::new(52429, 19661, 19661));
    assert_eq!(color_with(&ray, &scene, 0, 2, &draws), expect);
}

#[test]
fn shade_quantizes_with_gamma() {
    let one = ONE as i128;
    assert_eq!(shade(one, one / 4, 0, 1), ([255, 127, 0], true));
    assert_eq!(shade(2 * one, one / 2, 0, 2), ([255, 127, 0], true));
    assert_eq!(shade(-1, one, one, 1), ([0, 0, 0], false));
    assert_eq!(shade(2 * one, one, one, 1), ([0, 0, 0], false));
    // a sum far beyond the scalar range still averages exactly
    assert_eq!(shade(5000 * one, 5000 * one / 4, 0, 5000), ([255, 127, 0], true));
}

#[test]
fn pixel_rays_walk_the_raster() {
    let cam = Pinhole::default();
    // pixel 0 of a 2x1 raster: i = 0, j = 1, centered jitter
    let r = pixel_ray(&cam, 0, 2, 1, ONE / 2, ONE / 2);
    assert_eq!(r, cam.get_ray(ONE / 4, 3 * ONE / 2));
    let r = pixel_ray(&cam, 1, 2, 1, 0, 0);
    assert_eq!(r, cam.get_ray(ONE / 2, ONE));
}

#[test]
fn preview_is_reproducible() {
    let scene = default_scene();
    let cam = Pinhole::default();
    let draws: Vec<Vec3> = (0..8).map(|_| unit_sphere()).collect();
    let a = render_preview(&scene, &cam, 8, 4, 8, &draws);
    let b = render_preview(&scene, &cam, 8, 4, 8, &draws);
    assert_eq!(a.len(), 32);
    assert_eq!(a, b);
}

#[test]
fn unit_sphere_samples_lie_in_the_ball() {
    let mut nonzero = 0;
    for _ in 0..64 {
        let v = unit_sphere();
        let n2 = v.x as i128 * v.x as i128 + v.y as i128 * v.y as i128 + v.z as i128 * v.z as i128;
        assert!(n2 < ONE as i128 * ONE as i128);
        if v != Vec3::new(0, 0, 0) {
            nonzero += 1;
        }
    }
    assert!(nonzero > 32);
}

#[test]
fn render_pixel_of_empty_scene_is_sky() {
    let empty: Vec<ObjRef> = Vec::new();
    let cam = Pinhole::default();
    let (px, ok) = render_pixel(&empty, &cam, 0, 1, 1, 4, 10);
    assert!(ok);
    // the only pixel sees the sky across the upper half: bluish, never black
    assert!(px[2] >= px[0]);
    assert!(px[0] > 180);
}

#[test]
fn default_scene_pixels_are_always_valid() {
    let scene = default_scene();
    let cam = Pinhole::default();
    for idx in [0usize, 5, 9, 14] {
        let (_, ok) = render_pixel(&scene, &cam, idx, 5, 3, 2, 8);
        assert!(ok);
    }
}

#[test]
fn preview_of_empty_scene_is_the_sky_gradient() {
    let empty: Vec<ObjRef> = Vec::new();
    let cam = Pinhole::default();
    let px = render_preview(&empty, &cam, 1, 1, 0, &Vec::new());
    // center of the only pixel: u = 0.5, v = 1.5, direction (0, 2, -1)
    let c = sky(&cam.get_ray(ONE / 2, 3 * ONE / 2));
    let (expect, ok) = shade(c.x as i128, c.y as i128, c.z as i128, 1);
    assert!(ok);
    assert_eq!(px, vec![expect]);
}

#[test]
fn sharp_mirror_keeps_short_reflections() {
    let m = Mirror { albedo: Vec3::new(ONE, ONE, ONE), fuzziness: 0 };
    let hit = HitRecord { t: ONE, p: Vec3::new(0, 0, 0), normal: Vec3::new(0, 0, ONE) };
    let incoming = Ray::new(&Vec3::new(0, 0, 0), &Vec3::new(1, 0, 0));
    let r = m.scatter(&incoming, &hit, &Vec3::new(0, 0, 0));
    assert_eq!(r.out_scattered.direction, Vec3::new(1, 0, 0));
    assert_eq!(r.attenuated, m.albedo);
}

#[test]
fn many_samples_average_without_saturating() {
    // looking straight down at an empty scene: every sample is white sky
    let empty: Vec<ObjRef> = Vec::new();
    let cam = Pinhole {
        origin: Vec3::new(0, 0, 0),
        horizontal: Vec3::new(0, 0, 0),
        vertical: Vec3::new(0, 0, 0),
        lower_left: Vec3::new(0, -ONE, 0),
    };
    let (px, ok) = render_pixel(&empty, &cam, 0, 1, 1, 5000, 4);
    assert!(ok);
    assert_eq!(px, [255, 255, 255]);
}

#[test]
fn pick_in_ball_takes_the_first_inside() {
    let outside = Vec3::new(-ONE, -ONE, -ONE);
    let inside = Vec3::new(ONE / 2, 0, 0);
    let later = Vec3::new(0, ONE / 3, 0);
    assert_eq!(pick_in_ball(&vec![outside, inside, later]), inside);
    assert_eq!(pick_in_ball(&vec![outside, outside]), Vec3::new(0, 0, 0));
    assert_eq!(pick_in_ball(&Vec::new()), Vec3::new(0, 0, 0));
}
