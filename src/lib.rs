//! A small path tracer over fixed-point arithmetic.
//!
//! Scalars are signed integers counting units of `1 / ONE`; every operation
//! rounds down and saturates at `±LIMIT`, so no step can overflow. A scene is
//! an ordered list of spheres with materials; the integrator follows a ray
//! through diffuse and mirror bounces up to a depth limit and falls back to a
//! sky gradient, and the pixel pipeline averages jittered samples, corrects
//! for gamma and quantizes to 8 bits.
pub mod fixed;
pub mod vec3;
pub mod ray;
pub mod hittable;
pub mod material;
pub mod scene;
pub mod sample;
pub mod camera;
pub mod render;
