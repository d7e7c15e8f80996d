use trtlib::fixed::ONE;
use trtlib::ray::Ray;
use trtlib::vec3::Vec3;

#[test]
fn test_init_ray() {
    let o = Vec3::new(0, 0, 0);
    let d = Vec3::new(0, 0, ONE);
    let r = Ray::new(&o, &d);

    assert_eq!(r.origin, o);
    assert_eq!(r.direction, d);
}

#[test]
fn test_point_at_param() {
    let o = Vec3::new(0, 0, 0);
    let d = Vec3::new(0, 0, ONE);
    let r = Ray::new(&o, &d);

    let point = r.point_at_param(-ONE);
    assert_eq!(point, Vec3::new(0, 0, -ONE));

    let point = r.point_at_param(ONE);
    assert_eq!(point, Vec3::new(0, 0, ONE));
}

#[test]
fn test_ray_struct() {
    let o = Vec3::new(0, 0, 0);
    let d = Vec3::new(0, 0, ONE);
    let r = Ray {
        origin: o,
        direction: d,
    };
    assert_eq!(r.origin, o);
    assert_eq!(r.direction, d);
}

#[test]
fn point_at_fractional_param_rounds_down() {
    let r = Ray::new(&Vec3::new(ONE, 0, 0), &Vec3::new(3, -3, 2 * ONE));
    // 3 * 0.5 = 1.5 raw units rounds down to 1; -1.5 rounds down to -2.
    assert_eq!(r.point_at_param(ONE / 2), Vec3::new(ONE + 1, -2, ONE));
}
