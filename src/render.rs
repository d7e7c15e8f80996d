//! The recursive radiance estimator, the sky and the pixel pipeline.
use vstd::prelude::*;

use crate::camera::{get_ray_spec, Pinhole};
use crate::fixed::{div_floor, isqrt, isqrt_spec, sat, saturate, LIMIT, ONE};
use crate::material::scatter_spec;
use crate::ray::Ray;
use crate::sample::{in_unit_ball, unit_sphere};
use crate::scene::{any_hit, nearest, scene_wf, ObjRef};
use crate::vec3::{raw_dot, raw_dot_spec, times_spec, zero_spec, Vec3};

verus! {

/// The lower parameter bound of every scene query (about 0.001): a
/// scattered ray must not hit the point it leaves from.
pub const T_EPSILON: i64 = 66;

/// Red of the sky colour at the zenith (0.5).
pub const SKY_R: i64 = 32768;

/// Green of the sky colour at the zenith (0.7).
pub const SKY_G: i64 = 45875;

/// Blue of the sky colour at the zenith (1.0).
pub const SKY_B: i64 = 65536;

/// The blend parameter `0.5 * (normalize(d).y + 1)`; a zero direction counts
/// as horizontal.
pub open spec fn sky_t(d: Vec3) -> int {
    let len = isqrt_spec(raw_dot_spec(d, d));
    let y = if len == 0 {
        0
    } else {
        (d.y * ONE) / len
    };
    (ONE + y) / 2
}

/// One channel of `(1 - t) * white + t * sky`.
pub open spec fn blend(t: int, c: int) -> int {
    sat(((ONE - t) * ONE + t * c) / (ONE as int))
}

/// The background seen along a ray: white at the horizon, sky blue above.
pub open spec fn sky_spec(ray: Ray) -> Vec3 {
    let t = sky_t(ray.direction);
    Vec3 { x: blend(t, SKY_R as int) as i64, y: blend(t, SKY_G as int) as i64, z: blend(t, SKY_B as int) as i64 }
}

/// Radiance along `ray` at bounce `depth`, where bounce `i` scatters with the
/// unit-ball point `draws[i]`.
pub open spec fn color_spec(scene: Seq<ObjRef>, ray: Ray, depth: int, limit: int, draws: Seq<Vec3>) -> Vec3
    decreases limit - depth,
{
    match nearest(scene, ray, Some(T_EPSILON), None) {
        None => sky_spec(ray),
        Some((h, k)) => if depth < limit {
            let rec = scatter_spec(scene[k].material, ray, h, draws[depth]);
            times_spec(color_spec(scene, rec.out_scattered, depth + 1, limit, draws), rec.attenuated)
        } else {
            zero_spec()
        },
    }
}

/// Enough unit-ball points for `limit` bounces.
pub open spec fn draws_wf(draws: Seq<Vec3>, limit: int) -> bool {
    &&& draws.len() >= limit
    &&& forall|i: int| 0 <= i < draws.len() ==> (#[trigger] draws[i]).wf() && in_unit_ball(draws[i])
}

fn blend_channel(t: i128, c: i64) -> (r: i64)
    requires
        -0x1000_0000_0000 <= t <= 0x1000_0000_0000,
        0 <= c <= ONE,
    ensures
        r == blend(t as int, c as int),
{
    assert(-0x1000_0000_0000 * ONE <= t * c <= 0x1000_0000_0000 * ONE) by (nonlinear_arith)
        requires -0x1000_0000_0000 <= t <= 0x1000_0000_0000, 0 <= c <= ONE;
    saturate(div_floor((ONE as i128 - t) * ONE as i128 + t * c as i128, ONE as i128))
}

/// The background colour along a ray.
pub fn sky(ray: &Ray) -> (r: Vec3)
    requires
        ray.wf(),
    ensures
        r == sky_spec(*ray),
        r.wf(),
{
    let d = ray.direction;
    let n = raw_dot(d, d);
    assert(0 <= n) by (nonlinear_arith)
        requires n == d.x * d.x + d.y * d.y + d.z * d.z;
    let len = isqrt(n as u128) as i128;
    let y: i128 = if len == 0 {
        0
    } else {
        div_floor(d.y as i128 * ONE as i128, len)
    };
    proof {
        if len != 0 {
            crate::fixed::lemma_div_bound(d.y * ONE, len as int, 0x1000_0000 * ONE);
        }
    }
    let t = div_floor(ONE as i128 + y, 2);
    Vec3 { x: blend_channel(t, SKY_R), y: blend_channel(t, SKY_G), z: blend_channel(t, SKY_B) }
}

/// Radiance along `ray` at bounce `depth`, scattering with the given
/// unit-ball points: no hit gives the sky, a hit below the depth limit gives
/// the scattered radiance tinted by the attenuation, a hit at the limit gives
/// zero.
pub fn color_with(ray: &Ray, scene: &Vec<ObjRef>, depth: u32, depth_limit: u32, draws: &Vec<Vec3>) -> (r: Vec3)
    requires
        scene_wf(scene@),
        ray.wf(),
        draws_wf(draws@, depth_limit as int),
    ensures
        r == color_spec(scene@, *ray, depth as int, depth_limit as int, draws@),
        r.wf(),
    decreases depth_limit - depth,
{
    match any_hit(scene, ray, Some(T_EPSILON), None) {
        None => sky(ray),
        Some((hr, k)) => {
            if depth < depth_limit {
                assert(scene@[k as int].wf());
                assert(draws@[depth as int].wf());
                let rec = scene[k].material.scatter(ray, &hr, &draws[depth as usize]);
                let below = color_with(&rec.out_scattered, scene, depth + 1, depth_limit, draws);
                below.times(rec.attenuated)
            } else {
                Vec3::zero()
            }
        },
    }
}

/// Only the points of bounces `depth` and later matter.
pub proof fn lemma_color_frame(scene: Seq<ObjRef>, ray: Ray, depth: int, limit: int, d1: Seq<Vec3>, d2: Seq<Vec3>)
    requires
        d1.len() >= limit,
        d2.len() >= limit,
        forall|i: int| depth <= i < limit ==> d1[i] == d2[i],
    ensures
        color_spec(scene, ray, depth, limit, d1) == color_spec(scene, ray, depth, limit, d2),
    decreases limit - depth,
{
    match nearest(scene, ray, Some(T_EPSILON), None) {
        None => {},
        Some((h, k)) => {
            if depth < limit {
                let rec = scatter_spec(scene[k].material, ray, h, d1[depth]);
                lemma_color_frame(scene, rec.out_scattered, depth + 1, limit, d1, d2);
            }
        },
    }
}

/// Radiance along `ray` at bounce `depth`, drawing each bounce's unit-ball
/// point at random: the result is what `color_with` gives for some sequence
/// of unit-ball points.
pub fn color(ray: &Ray, scene: &Vec<ObjRef>, depth: u32, depth_limit: u32) -> (r: Vec3)
    requires
        scene_wf(scene@),
        ray.wf(),
    ensures
        exists|draws: Seq<Vec3>|
            draws_wf(draws, depth_limit as int) && r == color_spec(scene@, *ray, depth as int, depth_limit as int, draws),
        r.wf(),
    decreases depth_limit - depth,
{
    let ghost filler = Seq::new(depth_limit as nat, |i: int| zero_spec());
    match any_hit(scene, ray, Some(T_EPSILON), None) {
        None => {
            let c = sky(ray);
            assert(draws_wf(filler, depth_limit as int));
            assert(c == color_spec(scene@, *ray, depth as int, depth_limit as int, filler));
            c
        },
        Some((hr, k)) => {
            if depth < depth_limit {
                assert(scene@[k as int].wf());
                let s = unit_sphere();
                let rec = scene[k].material.scatter(ray, &hr, &s);
                let below = color(&rec.out_scattered, scene, depth + 1, depth_limit);
                let c = below.times(rec.attenuated);
                proof {
                    let ds = choose|ds: Seq<Vec3>|
                        draws_wf(ds, depth_limit as int) && below == color_spec(
                            scene@,
                            rec.out_scattered,
                            depth + 1,
                            depth_limit as int,
                            ds,
                        );
                    let ds2 = ds.update(depth as int, s);
                    assert(draws_wf(ds2, depth_limit as int));
                    lemma_color_frame(scene@, rec.out_scattered, depth + 1, depth_limit as int, ds, ds2);
                    assert(c == color_spec(scene@, *ray, depth as int, depth_limit as int, ds2));
                }
                c
            } else {
                let c = Vec3::zero();
                assert(draws_wf(filler, depth_limit as int));
                assert(c == color_spec(scene@, *ray, depth as int, depth_limit as int, filler));
                c
            }
        },
    }
}

/// Every channel lies in `[0, 1]`.
pub open spec fn unit_color(v: Vec3) -> bool {
    0 <= v.x <= ONE && 0 <= v.y <= ONE && 0 <= v.z <= ONE
}

/// Every material of the scene has its albedo channels in `[0, 1]`.
pub open spec fn albedos_in_unit(objs: Seq<ObjRef>) -> bool {
    forall|i: int|
        0 <= i < objs.len() ==> unit_color(
            match #[trigger] objs[i].material {
                crate::material::Material::Diffuse(d) => d.albedo,
                crate::material::Material::Mirror(m) => m.albedo,
            },
        )
}

proof fn lemma_quotient_in_unit(n: int, d: int)
    requires
        d > 0,
        0 <= n <= d * ONE,
    ensures
        0 <= n / d <= ONE,
{
    vstd::arithmetic::div_mod::lemma_div_is_ordered(n, d * ONE, d);
    vstd::arithmetic::div_mod::lemma_div_multiples_vanish(ONE as int, d);
    vstd::arithmetic::div_mod::lemma_div_pos_is_pos(n, d);
}

proof fn lemma_blend_in_unit(t: int, c: int)
    requires
        0 <= t <= ONE,
        0 <= c <= ONE,
    ensures
        0 <= blend(t, c) <= ONE,
{
    let n = (ONE - t) * ONE + t * c;
    assert(0 <= n <= ONE * ONE) by (nonlinear_arith)
        requires n == (ONE - t) * ONE + t * c, 0 <= t <= ONE, 0 <= c <= ONE;
    lemma_quotient_in_unit(n, ONE as int);
}

/// The sky is a colour with channels in `[0, 1]`.
pub proof fn lemma_sky_in_unit(ray: Ray)
    ensures
        unit_color(sky_spec(ray)),
{
    let d = ray.direction;
    let n = raw_dot_spec(d, d);
    assert(d.y * d.y <= n && 0 <= n) by (nonlinear_arith)
        requires n == d.x * d.x + d.y * d.y + d.z * d.z;
    crate::fixed::lemma_isqrt_exists(n);
    let len = isqrt_spec(n);
    if len != 0 {
        assert(-len <= d.y <= len) by (nonlinear_arith)
            requires d.y * d.y <= n, n < (len + 1) * (len + 1), len >= 0;
        let y = (d.y * ONE) / len;
        vstd::arithmetic::div_mod::lemma_div_is_ordered(d.y * ONE, len * ONE, len);
        vstd::arithmetic::div_mod::lemma_div_is_ordered(-len * ONE, d.y * ONE, len);
        vstd::arithmetic::div_mod::lemma_div_multiples_vanish(ONE as int, len);
        vstd::arithmetic::div_mod::lemma_div_multiples_vanish(-ONE, len);
        assert(-ONE <= y <= ONE);
    }
    let t = sky_t(d);
    assert(0 <= t <= ONE);
    lemma_blend_in_unit(t, SKY_R as int);
    lemma_blend_in_unit(t, SKY_G as int);
    lemma_blend_in_unit(t, SKY_B as int);
}

proof fn lemma_times_in_unit(a: Vec3, b: Vec3)
    requires
        unit_color(a),
        unit_color(b),
    ensures
        unit_color(times_spec(a, b)),
{
    assert(0 <= a.x * b.x <= ONE * ONE) by (nonlinear_arith)
        requires 0 <= a.x <= ONE, 0 <= b.x <= ONE;
    assert(0 <= a.y * b.y <= ONE * ONE) by (nonlinear_arith)
        requires 0 <= a.y <= ONE, 0 <= b.y <= ONE;
    assert(0 <= a.z * b.z <= ONE * ONE) by (nonlinear_arith)
        requires 0 <= a.z <= ONE, 0 <= b.z <= ONE;
    lemma_quotient_in_unit(a.x * b.x, ONE as int);
    lemma_quotient_in_unit(a.y * b.y, ONE as int);
    lemma_quotient_in_unit(a.z * b.z, ONE as int);
}

/// With albedos in `[0, 1]` the radiance estimate has channels in `[0, 1]`,
/// whatever the ray, the depth and the points drawn.
pub proof fn lemma_color_in_unit(scene: Seq<ObjRef>, ray: Ray, depth: int, limit: int, draws: Seq<Vec3>)
    requires
        albedos_in_unit(scene),
    ensures
        unit_color(color_spec(scene, ray, depth, limit, draws)),
    decreases limit - depth,
{
    match nearest(scene, ray, Some(T_EPSILON), None) {
        None => lemma_sky_in_unit(ray),
        Some((h, k)) => {
            if depth < limit {
                crate::scene::lemma_nearest_sound(scene, ray, Some(T_EPSILON), None);
                assert(0 <= k < scene.len());
                let rec = scatter_spec(scene[k].material, ray, h, draws[depth]);
                lemma_color_in_unit(scene, rec.out_scattered, depth + 1, limit, draws);
                assert(unit_color(rec.attenuated));
                lemma_times_in_unit(color_spec(scene, rec.out_scattered, depth + 1, limit, draws), rec.attenuated);
            }
        },
    }
}

/// A sum of at most `ns` colours with channels in `[0, 1]` always shades to
/// a valid pixel.
pub proof fn lemma_shade_valid(sum: (int, int, int), ns: int)
    requires
        ns > 0,
        0 <= sum.0 <= ns * ONE,
        0 <= sum.1 <= ns * ONE,
        0 <= sum.2 <= ns * ONE,
    ensures
        shade_spec(sum, ns).1,
{
    lemma_channel_valid(sum.0, ns);
    lemma_channel_valid(sum.1, ns);
    lemma_channel_valid(sum.2, ns);
}

proof fn lemma_channel_valid(c: int, ns: int)
    requires
        ns > 0,
        0 <= c <= ns * ONE,
    ensures
        channel_spec(c, ns) is Some,
{
    lemma_quotient_in_unit(c, ns);
    let avg = c / ns;
    assert(0 <= avg * ONE <= ONE * ONE) by (nonlinear_arith)
        requires 0 <= avg <= ONE;
    crate::fixed::lemma_isqrt_exists(avg * ONE);
    let g = isqrt_spec(avg * ONE);
    assert(g <= ONE) by (nonlinear_arith)
        requires g * g <= avg * ONE, avg * ONE <= ONE * ONE, g >= 0;
    assert(0 <= g * 25599 < 256 * (100 * ONE)) by (nonlinear_arith)
        requires 0 <= g <= ONE;
    vstd::arithmetic::div_mod::lemma_div_is_ordered(g * 25599, 256 * (100 * ONE) - 1, 100 * ONE);
    vstd::arithmetic::div_mod::lemma_div_pos_is_pos(g * 25599, 100 * ONE);
    assert((256 * (100 * ONE) - 1) / (100 * ONE) == 255) by (nonlinear_arith);
}

/// One 8-bit channel from an accumulated sum over `ns` samples: average,
/// square root for gamma 2, scale by 255.99 and round down. `None` when the
/// average is negative or the result exceeds 255.
pub open spec fn channel_spec(c: int, ns: int) -> Option<int> {
    let avg = c / ns;
    if avg < 0 {
        None
    } else {
        let q = (isqrt_spec(avg * ONE) * 25599) / (100 * ONE);
        if q > 255 {
            None
        } else {
            Some(q)
        }
    }
}

/// The pixel for an accumulated colour, and whether it was valid; an invalid
/// one becomes black.
pub open spec fn shade_spec(sum: (int, int, int), ns: int) -> (Seq<u8>, bool) {
    match (channel_spec(sum.0, ns), channel_spec(sum.1, ns), channel_spec(sum.2, ns)) {
        (Some(r), Some(g), Some(b)) => (seq![r as u8, g as u8, b as u8], true),
        _ => (seq![0u8, 0u8, 0u8], false),
    }
}

fn channel(c: i128, ns: usize) -> (r: Option<u8>)
    requires
        c <= ns * LIMIT,
        ns > 0,
    ensures
        r matches Some(q) ==> channel_spec(c as int, ns as int) == Some(q as int),
        r is None ==> channel_spec(c as int, ns as int) is None,
{
    let avg = div_floor(c as i128, ns as i128);
    if avg < 0 {
        return None;
    }
    proof {
        vstd::arithmetic::div_mod::lemma_div_is_ordered(c as int, ns * LIMIT, ns as int);
        vstd::arithmetic::div_mod::lemma_div_multiples_vanish(LIMIT as int, ns as int);
    }
    let g = isqrt((avg * ONE as i128) as u128) as i128;
    assert(g <= 0x100_0000) by (nonlinear_arith)
        requires g * g <= avg * ONE, 0 <= g, avg <= LIMIT, ONE == 65536, LIMIT == 0x1000_0000;
    let q = div_floor(g * 25599, 100 * ONE as i128);
    if q > 255 {
        None
    } else {
        assert(0 <= q) by (nonlinear_arith)
            requires q == (g * 25599) / (100 * ONE), g >= 0;
        Some(q as u8)
    }
}

/// Average the exact channel sums `(sx, sy, sz)` of `ns` samples, correct
/// for gamma 2 and quantize to 8 bits; an out-of-range channel turns the
/// pixel black and the flag false.
pub fn shade(sx: i128, sy: i128, sz: i128, ns: usize) -> (r: ([u8; 3], bool))
    requires
        sx <= ns * LIMIT,
        sy <= ns * LIMIT,
        sz <= ns * LIMIT,
        ns > 0,
    ensures
        (r.0@, r.1) == shade_spec((sx as int, sy as int, sz as int), ns as int),
{
    match (channel(sx, ns), channel(sy, ns), channel(sz, ns)) {
        (Some(r), Some(g), Some(b)) => {
            let px = [r, g, b];
            assert(px@ =~= seq![r, g, b]);
            (px, true)
        },
        _ => {
            let px = [0u8, 0u8, 0u8];
            assert(px@ =~= seq![0u8, 0u8, 0u8]);
            (px, false)
        },
    }
}

/// Image-plane coordinates of pixel `idx` (row-major from the top row) with
/// jitter `(ju, jv)`: `u = (i + ju) / nx`, `v = (j + jv) / ny` where
/// `i = idx % nx` and `j = ny - idx / nx`.
pub open spec fn pixel_uv(idx: int, nx: int, ny: int, ju: int, jv: int) -> (int, int) {
    let i = idx % nx;
    let j = ny - idx / nx;
    ((i * ONE + ju) / nx, (j * ONE + jv) / ny)
}

/// The ray through pixel `idx` with jitter `(ju, jv)`.
pub open spec fn pixel_ray_spec(cam: Pinhole, idx: int, nx: int, ny: int, ju: int, jv: int) -> Ray {
    get_ray_spec(cam, pixel_uv(idx, nx, ny, ju, jv).0, pixel_uv(idx, nx, ny, ju, jv).1)
}

/// The camera ray through pixel `idx` of an `nx` by `ny` raster, jittered
/// by `(ju, jv)` within the pixel.
pub fn pixel_ray(camera: &Pinhole, idx: usize, nx: usize, ny: usize, ju: i64, jv: i64) -> (r: Ray)
    requires
        camera.wf(),
        nx > 0,
        ny > 0,
        idx < nx * ny,
        0 <= ju < ONE,
        0 <= jv < ONE,
    ensures
        r == pixel_ray_spec(*camera, idx as int, nx as int, ny as int, ju as int, jv as int),
        r.wf(),
{
    let i = idx % nx;
    let row = idx / nx;
    proof {
        vstd::arithmetic::div_mod::lemma_fundamental_div_mod(idx as int, nx as int);
        assert(row < ny) by (nonlinear_arith)
            requires idx == nx * row + i, 0 <= i, idx < nx * ny, nx > 0;
    }
    let j = ny - row;
    let un: i128 = i as i128 * ONE as i128 + ju as i128;
    let vn: i128 = j as i128 * ONE as i128 + jv as i128;
    proof {
        assert(0 <= un <= nx * ONE) by (nonlinear_arith)
            requires un == i * ONE + ju, 0 <= i < nx, 0 <= ju < ONE;
        assert(0 <= vn <= ny * (2 * ONE)) by (nonlinear_arith)
            requires vn == j * ONE + jv, 0 <= j <= ny, 0 <= jv < ONE, ny >= 1;
        vstd::arithmetic::div_mod::lemma_div_is_ordered(un as int, nx * ONE, nx as int);
        vstd::arithmetic::div_mod::lemma_div_multiples_vanish(ONE as int, nx as int);
        vstd::arithmetic::div_mod::lemma_div_is_ordered(vn as int, ny * (2 * ONE), ny as int);
        vstd::arithmetic::div_mod::lemma_div_multiples_vanish(2 * ONE, ny as int);
        vstd::arithmetic::div_mod::lemma_div_pos_is_pos(un as int, nx as int);
        vstd::arithmetic::div_mod::lemma_div_pos_is_pos(vn as int, ny as int);
    }
    let u = div_floor(un, nx as i128) as i64;
    let v = div_floor(vn, ny as i128) as i64;
    camera.get_ray(u, v)
}

/// The exact channel sums of a sequence of colours.
pub open spec fn sum_spec(cols: Seq<Vec3>) -> (int, int, int)
    decreases cols.len(),
{
    if cols.len() == 0 {
        (0, 0, 0)
    } else {
        let s = sum_spec(cols.drop_last());
        (s.0 + cols.last().x, s.1 + cols.last().y, s.2 + cols.last().z)
    }
}

/// Whether `c` is a colour that one antialiasing sample of pixel `idx` can
/// take: the radiance along some jittered ray of the pixel, for some
/// sequence of unit-ball points.
pub open spec fn possible_sample(scene: Seq<ObjRef>, cam: Pinhole, idx: int, nx: int, ny: int, limit: int, c: Vec3) -> bool {
    exists|ju: int, jv: int, ds: Seq<Vec3>|
        0 <= ju < ONE && 0 <= jv < ONE && draws_wf(ds, limit) && c == #[trigger] color_spec(
            scene,
            pixel_ray_spec(cam, idx, nx, ny, ju, jv),
            0,
            limit,
            ds,
        )
}

/// Pixel `idx` of an `nx` by `ny` raster, from `ns` randomly jittered
/// samples, and whether it was valid (an invalid one is black).
pub fn render_pixel(
    scene: &Vec<ObjRef>,
    camera: &Pinhole,
    idx: usize,
    nx: usize,
    ny: usize,
    ns: usize,
    depth_limit: u32,
) -> (r: ([u8; 3], bool))
    requires
        scene_wf(scene@),
        camera.wf(),
        nx > 0,
        ny > 0,
        idx < nx * ny,
        ns > 0,
    ensures
        exists|cols: Seq<Vec3>|
            {
                &&& cols.len() == ns
                &&& forall|k: int|
                    0 <= k < ns ==> possible_sample(
                        scene@,
                        *camera,
                        idx as int,
                        nx as int,
                        ny as int,
                        depth_limit as int,
                        #[trigger] cols[k],
                    )
                &&& (r.0@, r.1) == shade_spec(sum_spec(cols), ns as int)
            },
        albedos_in_unit(scene@) ==> r.1,
{
    let mut sx: i128 = 0;
    let mut sy: i128 = 0;
    let mut sz: i128 = 0;
    let ghost mut cols: Seq<Vec3> = Seq::empty();
    let mut n: usize = 0;
    while n < ns
        invariant
            n <= ns,
            scene_wf(scene@),
            camera.wf(),
            nx > 0,
            ny > 0,
            idx < nx * ny,
            cols.len() == n,
            (sx as int, sy as int, sz as int) == sum_spec(cols),
            -n * LIMIT <= sx <= n * LIMIT,
            -n * LIMIT <= sy <= n * LIMIT,
            -n * LIMIT <= sz <= n * LIMIT,
            albedos_in_unit(scene@) ==> 0 <= sx <= n * ONE && 0 <= sy <= n * ONE && 0 <= sz <= n * ONE,
            forall|k: int|
                0 <= k < n ==> possible_sample(
                    scene@,
                    *camera,
                    idx as int,
                    nx as int,
                    ny as int,
                    depth_limit as int,
                    #[trigger] cols[k],
                ),
        decreases ns - n,
    {
        let ju = crate::sample::random_between(0, ONE);
        let jv = crate::sample::random_between(0, ONE);
        let ray = pixel_ray(camera, idx, nx, ny, ju, jv);
        let c = color(&ray, scene, 0, depth_limit);
        proof {
            let ds = choose|ds: Seq<Vec3>|
                draws_wf(ds, depth_limit as int) && c == color_spec(scene@, ray, 0, depth_limit as int, ds);
            assert(c == color_spec(
                scene@,
                pixel_ray_spec(*camera, idx as int, nx as int, ny as int, ju as int, jv as int),
                0,
                depth_limit as int,
                ds,
            ));
            assert(possible_sample(scene@, *camera, idx as int, nx as int, ny as int, depth_limit as int, c));
            if albedos_in_unit(scene@) {
                lemma_color_in_unit(scene@, ray, 0, depth_limit as int, ds);
            }
            let old_cols = cols;
            cols = cols.push(c);
            assert(cols.drop_last() =~= old_cols);
            assert forall|k: int| 0 <= k < n + 1 implies possible_sample(
                scene@,
                *camera,
                idx as int,
                nx as int,
                ny as int,
                depth_limit as int,
                #[trigger] cols[k],
            ) by {
                if k < n {
                    assert(cols[k] == old_cols[k]);
                }
            }
        }
        proof {
            assert((n + 1) * LIMIT <= 0x1_0000_0000_0000_0000 * LIMIT) by (nonlinear_arith)
                requires n < ns, ns <= usize::MAX, usize::MAX < 0x1_0000_0000_0000_0000;
        }
        sx = sx + c.x as i128;
        sy = sy + c.y as i128;
        sz = sz + c.z as i128;
        n = n + 1;
    }
    proof {
        if albedos_in_unit(scene@) {
            lemma_shade_valid((sx as int, sy as int, sz as int), ns as int);
        }
    }
    shade(sx, sy, sz, ns)
}

/// What `render_preview` gives for pixel `idx`: one sample through the
/// pixel's center, with the given unit-ball points.
pub open spec fn preview_pixel_spec(scene: Seq<ObjRef>, cam: Pinhole, idx: int, nx: int, ny: int, limit: int, draws: Seq<Vec3>) -> Seq<u8> {
    let c = color_spec(scene, pixel_ray_spec(cam, idx, nx, ny, ONE / 2, ONE / 2), 0, limit, draws);
    shade_spec(sum_spec(seq![c]), 1).0
}

/// A reproducible render: every pixel takes one sample through its center,
/// and every path scatters with the same given unit-ball points. Pixels come
/// row-major from the top row.
pub fn render_preview(
    scene: &Vec<ObjRef>,
    camera: &Pinhole,
    nx: usize,
    ny: usize,
    depth_limit: u32,
    draws: &Vec<Vec3>,
) -> (r: Vec<[u8; 3]>)
    requires
        scene_wf(scene@),
        camera.wf(),
        draws_wf(draws@, depth_limit as int),
        nx * ny <= usize::MAX,
    ensures
        r@.len() == nx * ny,
        forall|k: int|
            0 <= k < nx * ny ==> (#[trigger] r@[k])@ == preview_pixel_spec(
                scene@,
                *camera,
                k,
                nx as int,
                ny as int,
                depth_limit as int,
                draws@,
            ),
{
    let total = nx * ny;
    let mut out: Vec<[u8; 3]> = Vec::new();
    let mut idx: usize = 0;
    while idx < total
        invariant
            total == nx * ny,
            idx <= total,
            out@.len() == idx,
            scene_wf(scene@),
            camera.wf(),
            draws_wf(draws@, depth_limit as int),
            forall|k: int|
                0 <= k < idx ==> (#[trigger] out@[k])@ == preview_pixel_spec(
                    scene@,
                    *camera,
                    k,
                    nx as int,
                    ny as int,
                    depth_limit as int,
                    draws@,
                ),
        decreases total - idx,
    {
        assert(nx > 0 && ny > 0) by (nonlinear_arith)
            requires idx < nx * ny, nx >= 0, ny >= 0;
        let ray = pixel_ray(camera, idx, nx, ny, ONE / 2, ONE / 2);
        let c = color_with(&ray, scene, 0, depth_limit, draws);
        proof {
            let cs = seq![c];
            assert(cs.drop_last() =~= Seq::<Vec3>::empty());
            assert(sum_spec(cs.drop_last()) == (0int, 0int, 0int));
            assert(cs.last() == c);
            assert((c.x as int, c.y as int, c.z as int) == sum_spec(cs));
        }
        let (px, _valid) = shade(c.x as i128, c.y as i128, c.z as i128, 1);
        out.push(px);
        idx = idx + 1;
    }
    out
}

/// With an empty scene the estimate is the sky, whatever the depth and the
/// points drawn.
pub proof fn lemma_empty_scene_is_sky(ray: Ray, depth: int, limit: int, draws: Seq<Vec3>)
    ensures
        color_spec(Seq::empty(), ray, depth, limit, draws) == sky_spec(ray),
{
    assert(nearest(Seq::<ObjRef>::empty(), ray, Some(T_EPSILON), None) is None);
}

/// At the depth limit a ray that hits anything carries no energy, whatever
/// the material.
pub proof fn lemma_depth_limit_is_black(scene: Seq<ObjRef>, ray: Ray, limit: int, draws: Seq<Vec3>)
    requires
        nearest(scene, ray, Some(T_EPSILON), None) is Some,
    ensures
        color_spec(scene, ray, limit, limit, draws) == zero_spec(),
{
}

/// Two renders of the same scene, camera, raster, depth limit and points
/// give the same pixels.
pub proof fn lemma_preview_reproducible(
    scene: Seq<ObjRef>,
    cam: Pinhole,
    nx: int,
    ny: int,
    limit: int,
    draws: Seq<Vec3>,
    first: Seq<Seq<u8>>,
    second: Seq<Seq<u8>>,
)
    requires
        first.len() == nx * ny,
        second.len() == nx * ny,
        forall|k: int| 0 <= k < nx * ny ==> #[trigger] first[k] == preview_pixel_spec(scene, cam, k, nx, ny, limit, draws),
        forall|k: int| 0 <= k < nx * ny ==> #[trigger] second[k] == preview_pixel_spec(scene, cam, k, nx, ny, limit, draws),
    ensures
        first == second,
{
    assert(first =~= second);
}

} // verus!
