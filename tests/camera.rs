use trtlib::camera::Pinhole;
use trtlib::fixed::ONE;
use trtlib::ray::Ray;
use trtlib::vec3::Vec3;

#[test]
fn test_get_ray() {
    let camera: Pinhole = Default::default();

    // this is equivalent to the lower left corner of the frame
    let ray = Ray {
        origin: Vec3::new(0, 0, 0),
        direction: Vec3::new(-2 * ONE, -ONE, -ONE),
    };
    assert_eq!(camera.get_ray(0, 0), ray);

    // middle
    let ray = Ray {
        origin: Vec3::new(0, 0, 0),
        direction: Vec3::new(0, 0, -ONE),
    };
    assert_eq!(camera.get_ray(ONE / 2, ONE / 2), ray);

    // upper left corner
    let ray = Ray {
        origin: Vec3::new(0, 0, 0),
        direction: Vec3::new(-2 * ONE, ONE, -ONE),
    };
    assert_eq!(camera.get_ray(0, ONE), ray);

    // upper right corner
    let ray = Ray {
        origin: Vec3::new(0, 0, 0),
        direction: Vec3::new(2 * ONE, ONE, -ONE),
    };
    assert_eq!(camera.get_ray(ONE, ONE), ray);

    // lower right corner
    let ray = Ray {
        origin: Vec3::new(0, 0, 0),
        direction: Vec3::new(2 * ONE, -ONE, -ONE),
    };
    assert_eq!(camera.get_ray(ONE, 0), ray);
}

#[test]
fn corner_ray_is_lower_left_minus_origin() {
    let camera = Pinhole {
        origin: Vec3::new(ONE, 2 * ONE, 3 * ONE),
        horizontal: Vec3::new(4 * ONE, 0, 0),
        vertical: Vec3::new(0, 2 * ONE, 0),
        lower_left: Vec3::new(-2 * ONE, -ONE, -ONE),
    };
    let ray = camera.get_ray(0, 0);
    assert_eq!(ray.origin, camera.origin);
    assert_eq!(ray.direction, Vec3::new(-3 * ONE, -3 * ONE, -4 * ONE));
}

#[test]
fn get_ray_extrapolates_outside_the_plane() {
    let camera = Pinhole::default();
    let ray = camera.get_ray(-ONE / 4, 3 * ONE / 2);
    assert_eq!(ray.direction, Vec3::new(-3 * ONE, 2 * ONE, -ONE));
}

#[test]
fn default_camera_values() {
    let camera = Pinhole::default();
    assert_eq!(camera.origin, Vec3::new(0, 0, 0));
    assert_eq!(camera.horizontal, Vec3::new(4 * ONE, 0, 0));
    assert_eq!(camera.vertical, Vec3::new(0, 2 * ONE, 0));
    assert_eq!(camera.lower_left, Vec3::new(-2 * ONE, -ONE, -ONE));
}
