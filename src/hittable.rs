//! Hit records and sphere intersection.
use vstd::prelude::*;

use crate::fixed::{div_floor, div_floor_signed, floor_div, in_range, is_isqrt, isqrt, isqrt_spec, sat, saturate, LIMIT, ONE};
use crate::ray::{point_at_spec, Ray};
use crate::vec3::{raw_dot, raw_dot_spec, Vec3};

verus! {

/// Where a ray meets a surface: the parameter, the point and the unit
/// outward normal there.
#[derive(Clone, Copy, Debug, PartialEq, Eq, Structural)]
pub struct HitRecord {
    pub t: i64,
    pub p: Vec3,
    pub normal: Vec3,
}

/// A sphere, by radius and center.
#[derive(Clone, Copy, Debug, PartialEq, Eq, Structural)]
pub struct Sphere {
    pub radius: i64,
    pub center: Vec3,
}

impl Sphere {
    /// The radius and the center lie in the representable range.
    pub open spec fn wf(self) -> bool {
        in_range(self.radius as int) && self.center.wf()
    }
}

/// `d . d` at scale `ONE * ONE`: the quadratic's leading coefficient.
pub open spec fn quad_a(ray: Ray) -> int {
    raw_dot_spec(ray.direction, ray.direction)
}

/// `(o - c) . d` at scale `ONE * ONE`: half the quadratic's linear coefficient.
pub open spec fn quad_b(s: Sphere, ray: Ray) -> int {
    (ray.origin.x - s.center.x) * ray.direction.x + (ray.origin.y - s.center.y) * ray.direction.y
        + (ray.origin.z - s.center.z) * ray.direction.z
}

/// `|o - c|^2 - r^2` at scale `ONE * ONE`: the quadratic's constant term.
pub open spec fn quad_c(s: Sphere, ray: Ray) -> int {
    (ray.origin.x - s.center.x) * (ray.origin.x - s.center.x) + (ray.origin.y - s.center.y) * (
    ray.origin.y - s.center.y) + (ray.origin.z - s.center.z) * (ray.origin.z - s.center.z)
        - s.radius * s.radius
}

/// The discriminant `b^2 - a c` of the halved-coefficient quadratic.
pub open spec fn discriminant(s: Sphere, ray: Ray) -> int {
    quad_b(s, ray) * quad_b(s, ray) - quad_a(ray) * quad_c(s, ray)
}

/// The smaller root `(-b - sqrt(disc)) / a`, as a raw scalar rounded down.
pub open spec fn near_root(s: Sphere, ray: Ray) -> int {
    ((-quad_b(s, ray) - isqrt_spec(discriminant(s, ray))) * ONE) / quad_a(ray)
}

/// The larger root `(-b + sqrt(disc)) / a`, as a raw scalar rounded down.
pub open spec fn far_root(s: Sphere, ray: Ray) -> int {
    ((-quad_b(s, ray) + isqrt_spec(discriminant(s, ray))) * ONE) / quad_a(ray)
}

/// Whether `t` is representable and strictly inside the optional bounds.
pub open spec fn admissible(t: int, t_min: Option<i64>, t_max: Option<i64>) -> bool {
    &&& in_range(t)
    &&& (t_min matches Some(lo) ==> lo < t)
    &&& (t_max matches Some(hi) ==> t < hi)
}

/// The parameter of the closest admissible intersection, if any. A sphere
/// whose radius is zero, or a ray with a zero direction, has none.
pub open spec fn hit_t(s: Sphere, ray: Ray, t_min: Option<i64>, t_max: Option<i64>) -> Option<int> {
    if s.radius == 0 || quad_a(ray) <= 0 || discriminant(s, ray) < 0 {
        None
    } else if admissible(near_root(s, ray), t_min, t_max) {
        Some(near_root(s, ray))
    } else if admissible(far_root(s, ray), t_min, t_max) {
        Some(far_root(s, ray))
    } else {
        None
    }
}

/// The normal `(p - c) / r` at a point of the sphere, rounded down: outward
/// for a positive radius, inward for a negative one.
pub open spec fn normal_spec(s: Sphere, p: Vec3) -> Vec3 {
    Vec3 {
        x: sat(floor_div((p.x - s.center.x) * ONE, s.radius as int)) as i64,
        y: sat(floor_div((p.y - s.center.y) * ONE, s.radius as int)) as i64,
        z: sat(floor_div((p.z - s.center.z) * ONE, s.radius as int)) as i64,
    }
}

/// The record of a hit at parameter `t`.
pub open spec fn record_at(s: Sphere, ray: Ray, t: int) -> HitRecord {
    HitRecord {
        t: t as i64,
        p: point_at_spec(ray, t),
        normal: normal_spec(s, point_at_spec(ray, t)),
    }
}

/// What `Sphere::hit` reports.
pub open spec fn hit_spec(s: Sphere, ray: Ray, t_min: Option<i64>, t_max: Option<i64>) -> Option<
    HitRecord,
> {
    match hit_t(s, ray, t_min, t_max) {
        Some(t) => Some(record_at(s, ray, t)),
        None => None,
    }
}

/// `a (o - c) - m d`, component by component, with `a = quad_a(ray)`: for
/// `m = b + q` it is `a` times the vector from the center to the point at
/// the unrounded root `(-b - q) / a`.
pub open spec fn scaled_offset(s: Sphere, ray: Ray, m: int) -> (int, int, int) {
    (
        quad_a(ray) * (ray.origin.x - s.center.x) - m * ray.direction.x,
        quad_a(ray) * (ray.origin.y - s.center.y) - m * ray.direction.y,
        quad_a(ray) * (ray.origin.z - s.center.z) - m * ray.direction.z,
    )
}

/// The squared length of an integer triple.
pub open spec fn norm2(w: (int, int, int)) -> int {
    w.0 * w.0 + w.1 * w.1 + w.2 * w.2
}

proof fn lemma_square_expand(a: int, m: int, e: int, d: int)
    ensures
        (a * e - m * d) * (a * e - m * d) == a * a * (e * e) - 2 * a * m * (e * d) + m * m * (d * d),
{
    let x = a * e;
    let y = m * d;
    assert((x - y) * (x - y) == x * x - 2 * (x * y) + y * y) by (nonlinear_arith);
    assert(x * x == a * a * (e * e)) by (nonlinear_arith)
        requires x == a * e;
    assert(x * y == a * m * (e * d)) by (nonlinear_arith)
        requires x == a * e, y == m * d;
    assert(y * y == m * m * (d * d)) by (nonlinear_arith)
        requires y == m * d;
    assert(2 * a * m * (e * d) == 2 * (a * m * (e * d))) by (nonlinear_arith);
}

/// For any `m`: `|a (o - c) - m d|^2 - a^2 r^2 = a (a c - 2 m b + m^2)`.
proof fn lemma_offset_norm(s: Sphere, ray: Ray, m: int)
    ensures
        norm2(scaled_offset(s, ray, m)) - quad_a(ray) * quad_a(ray) * (s.radius * s.radius) == quad_a(ray) * (
        quad_a(ray) * quad_c(s, ray) - 2 * m * quad_b(s, ray) + m * m),
{
    let a = quad_a(ray);
    let (ex, ey, ez) = (
        ray.origin.x - s.center.x,
        ray.origin.y - s.center.y,
        ray.origin.z - s.center.z,
    );
    let (dx, dy, dz) = (ray.direction.x as int, ray.direction.y as int, ray.direction.z as int);
    let rr = s.radius * s.radius;
    lemma_square_expand(a, m, ex, dx);
    lemma_square_expand(a, m, ey, dy);
    lemma_square_expand(a, m, ez, dz);
    let ee = ex * ex + ey * ey + ez * ez;
    let ed = ex * dx + ey * dy + ez * dz;
    let dd = dx * dx + dy * dy + dz * dz;
    assert(a == dd);
    assert(quad_b(s, ray) == ed);
    assert(quad_c(s, ray) == ee - rr);
    assert(a * a * (ex * ex) + a * a * (ey * ey) + a * a * (ez * ez) == a * a * ee) by (nonlinear_arith)
        requires ee == ex * ex + ey * ey + ez * ez;
    assert(2 * a * m * (ex * dx) + 2 * a * m * (ey * dy) + 2 * a * m * (ez * dz) == 2 * a * m * ed)
        by (nonlinear_arith)
        requires ed == ex * dx + ey * dy + ez * dz;
    assert(m * m * (dx * dx) + m * m * (dy * dy) + m * m * (dz * dz) == m * m * dd) by (nonlinear_arith)
        requires dd == dx * dx + dy * dy + dz * dz;
    assert(a * a * ee - 2 * a * m * ed + m * m * a - a * a * rr == a * (a * (ee - rr) - 2 * m * ed + m * m))
        by (nonlinear_arith);
}

/// Both unrounded roots `(-b -+ q) / a`, with `q` the integer square root of
/// the discriminant, lie on the sphere up to the square root's remainder:
/// `a^2 (|o + tau d - c|^2 - r^2) = a (q^2 - disc)`, where
/// `0 <= disc - q^2 <= 2 q`. So `|o + tau d - c|^2` falls short of `r^2` by
/// at most `2 q / a`.
pub proof fn lemma_roots_on_sphere(s: Sphere, ray: Ray)
    requires
        quad_a(ray) > 0,
        discriminant(s, ray) >= 0,
    ensures
        ({
            let a = quad_a(ray);
            let b = quad_b(s, ray);
            let q = isqrt_spec(discriminant(s, ray));
            let err = a * (q * q - discriminant(s, ray));
            &&& 0 <= discriminant(s, ray) - q * q <= 2 * q
            &&& norm2(scaled_offset(s, ray, b + q)) - a * a * (s.radius * s.radius) == err
            &&& norm2(scaled_offset(s, ray, b - q)) - a * a * (s.radius * s.radius) == err
        }),
{
    let a = quad_a(ray);
    let b = quad_b(s, ray);
    let c = quad_c(s, ray);
    let disc = discriminant(s, ray);
    let q = isqrt_spec(disc);
    crate::fixed::lemma_isqrt_exists(disc);
    assert(is_isqrt(disc, q));
    assert(disc - q * q <= 2 * q) by (nonlinear_arith)
        requires disc < (q + 1) * (q + 1);
    lemma_offset_norm(s, ray, b + q);
    lemma_offset_norm(s, ray, b - q);
    assert(a * c - 2 * (b + q) * b + (b + q) * (b + q) == q * q - disc) by (nonlinear_arith)
        requires disc == b * b - a * c;
    assert(a * c - 2 * (b - q) * b + (b - q) * (b - q) == q * q - disc) by (nonlinear_arith)
        requires disc == b * b - a * c;
}

/// The magnitude of an integer.
pub open spec fn abs_int(v: int) -> int {
    if v < 0 {
        -v
    } else {
        v
    }
}

/// How far rounding the parameter and the point can move the point along
/// each axis, summed: `sum_i (|d_i| + ONE)`, at scale `ONE`.
pub open spec fn rounding_slack(ray: Ray) -> int {
    (abs_int(ray.direction.x as int) + ONE) + (abs_int(ray.direction.y as int) + ONE) + (abs_int(
        ray.direction.z as int,
    ) + ONE)
}

/// The squares of the per-axis slacks, summed.
pub open spec fn rounding_slack2(ray: Ray) -> int {
    (abs_int(ray.direction.x as int) + ONE) * (abs_int(ray.direction.x as int) + ONE) + (abs_int(
        ray.direction.y as int,
    ) + ONE) * (abs_int(ray.direction.y as int) + ONE) + (abs_int(ray.direction.z as int) + ONE) * (
    abs_int(ray.direction.z as int) + ONE)
}

/// The point at parameter `t` along one axis, unsaturated: `o + t d / ONE`.
pub open spec fn axis_point(o: int, d: int, t: int) -> int {
    o + (t * d) / (ONE as int)
}

/// Rounding the root `n / a` to a raw parameter and the point to raw units
/// moves `a ONE f` away from `ONE (a e + n d)` by at most `a (|d| + ONE)`.
proof fn lemma_axis_rounding(a: int, e: int, d: int, n: int, t: int, f: int)
    requires
        a > 0,
        t == (n * ONE) / a,
        f == e + (t * d) / (ONE as int),
    ensures
        abs_int(ONE * (a * e + n * d) - a * ONE * f) <= a * (abs_int(d) + ONE),
{
    let one = ONE as int;
    vstd::arithmetic::div_mod::lemma_fundamental_div_mod(n * one, a);
    vstd::arithmetic::div_mod::lemma_fundamental_div_mod(t * d, one);
    let rho = (n * one) % a;
    let k = (t * d) / one;
    let sr = (t * d) % one;
    assert(0 <= rho < a);
    assert(0 <= sr < one);
    let nd = n * d;
    let td = t * d;
    assert(one * (a * e + nd) == one * a * e + one * nd) by (nonlinear_arith);
    assert(a * one * f == one * a * e + a * one * k) by (nonlinear_arith)
        requires f == e + k;
    assert(one * nd == a * td + d * rho) by (nonlinear_arith)
        requires n * one == a * t + rho, nd == n * d, td == t * d;
    assert(a * one * k == a * td - a * sr) by (nonlinear_arith)
        requires td == one * k + sr;
    let delta = one * (a * e + nd) - a * one * f;
    assert(delta == d * rho + a * sr);
    assert(abs_int(d * rho + a * sr) <= a * (abs_int(d) + one)) by (nonlinear_arith)
        requires 0 <= rho < a, 0 <= sr < one, abs_int(d) == (if d < 0 { -d } else { d });
}

proof fn lemma_square_diff_bound(g: int, delta: int, gb: int, db: int)
    requires
        g * g <= gb * gb,
        gb >= 0,
        abs_int(delta) <= db,
    ensures
        (g - delta) * (g - delta) == g * g - 2 * (g * delta) + delta * delta,
        abs_int(g * delta) <= gb * db,
        0 <= delta * delta <= db * db,
{
    assert((g - delta) * (g - delta) == g * g - 2 * (g * delta) + delta * delta) by (nonlinear_arith);
    assert(abs_int(g) <= gb) by (nonlinear_arith)
        requires g * g <= gb * gb, gb >= 0, abs_int(g) == (if g < 0 { -g } else { g });
    assert(abs_int(g * delta) <= gb * db) by (nonlinear_arith)
        requires
            abs_int(g) <= gb,
            abs_int(delta) <= db,
            abs_int(g) == (if g < 0 { -g } else { g }),
            abs_int(delta) == (if delta < 0 { -delta } else { delta }),
            abs_int(g * delta) == (if g * delta < 0 { -(g * delta) } else { g * delta }),
    ;
    assert(0 <= delta * delta <= db * db) by (nonlinear_arith)
        requires
            abs_int(delta) <= db,
            abs_int(delta) == (if delta < 0 { -delta } else { delta }),
    ;
}

proof fn lemma_dist3(p: int, x: int, y: int, z: int)
    ensures
        p * (x + y + z) == p * x + p * y + p * z,
{
    assert(p * (x + y + z) == p * x + p * y + p * z) by (nonlinear_arith);
}

proof fn lemma_sq_mul(p: int, f: int)
    ensures
        (p * f) * (p * f) == (p * p) * (f * f),
{
    assert((p * f) * (p * f) == (p * p) * (f * f)) by (nonlinear_arith);
}

proof fn lemma_sq_le_sum(x: int, y: int, z: int)
    ensures
        x * x <= x * x + y * y + z * z,
{
    assert(0 <= y * y && 0 <= z * z) by (nonlinear_arith);
}

proof fn lemma_cancel_positive(a: int, x: int, b: int)
    requires
        a > 0,
        a * x <= a * b,
    ensures
        x <= b,
{
    assert(x <= b) by (nonlinear_arith)
        requires a > 0, a * x <= a * b;
}

/// The hit point that `Sphere::hit` reports lies on the sphere up to
/// rounding. With `f = p - c` (raw units, `p` not saturated), `a = d . d` and
/// `q` the integer square root of the discriminant:
/// `a ONE^2 | |f|^2 - r^2 | <= ONE^2 (disc - q^2) + a (2 ONE |r| S + S2)`,
/// where `S = sum_i (|d_i| + ONE)` and `S2 = sum_i (|d_i| + ONE)^2`. So
/// `|f|^2` differs from `r^2` by at most `2q/a + 2|r| S/ONE + S2/ONE^2`.
pub proof fn lemma_hit_point_on_sphere(s: Sphere, ray: Ray, t_min: Option<i64>, t_max: Option<i64>, t: int)
    requires
        hit_t(s, ray, t_min, t_max) == Some(t),
        in_range((t * ray.direction.x) / (ONE as int)),
        in_range((t * ray.direction.y) / (ONE as int)),
        in_range((t * ray.direction.z) / (ONE as int)),
        in_range(axis_point(ray.origin.x as int, ray.direction.x as int, t)),
        in_range(axis_point(ray.origin.y as int, ray.direction.y as int, t)),
        in_range(axis_point(ray.origin.z as int, ray.direction.z as int, t)),
    ensures
        ({
            let fx = axis_point(ray.origin.x as int, ray.direction.x as int, t) - s.center.x;
            let fy = axis_point(ray.origin.y as int, ray.direction.y as int, t) - s.center.y;
            let fz = axis_point(ray.origin.z as int, ray.direction.z as int, t) - s.center.z;
            let a = quad_a(ray);
            let disc = discriminant(s, ray);
            let q = isqrt_spec(disc);
            &&& point_at_spec(ray, t).x - s.center.x == fx
            &&& point_at_spec(ray, t).y - s.center.y == fy
            &&& point_at_spec(ray, t).z - s.center.z == fz
            &&& 0 <= disc - q * q <= 2 * q
            &&& a * (ONE * ONE) * abs_int(fx * fx + fy * fy + fz * fz - s.radius * s.radius) <= ONE * ONE
                * (disc - q * q) + a * (2 * ONE * abs_int(s.radius as int) * rounding_slack(ray)
                + rounding_slack2(ray))
        }),
{
    let one = ONE as int;
    let a = quad_a(ray);
    let b = quad_b(s, ray);
    let disc = discriminant(s, ray);
    let q = isqrt_spec(disc);
    let e_ = disc - q * q;
    lemma_roots_on_sphere(s, ray);
    let m = if t == near_root(s, ray) { b + q } else { b - q };
    let n = -m;
    let r = s.radius as int;
    let rr = r * r;
    if t == near_root(s, ray) {
        assert(m == b + q);
    } else {
        assert(m == b - q);
    }
    assert(a * (q * q - disc) == -(a * e_)) by (nonlinear_arith)
        requires e_ == disc - q * q;
    assert(norm2(scaled_offset(s, ray, m)) == a * a * rr - a * e_);
    assert(t == (n * one) / a) by {
        assert(-m == -quad_b(s, ray) - isqrt_spec(discriminant(s, ray)) || -m == -quad_b(s, ray)
            + isqrt_spec(discriminant(s, ray)));
    }
    let (ex, ey, ez) = (
        ray.origin.x - s.center.x,
        ray.origin.y - s.center.y,
        ray.origin.z - s.center.z,
    );
    let (dx, dy, dz) = (ray.direction.x as int, ray.direction.y as int, ray.direction.z as int);
    let fx = axis_point(ray.origin.x as int, dx, t) - s.center.x;
    let fy = axis_point(ray.origin.y as int, dy, t) - s.center.y;
    let fz = axis_point(ray.origin.z as int, dz, t) - s.center.z;
    lemma_axis_rounding(a, ex, dx, n, t, fx);
    lemma_axis_rounding(a, ey, dy, n, t, fy);
    lemma_axis_rounding(a, ez, dz, n, t, fz);
    let (gx, gy, gz) = scaled_offset(s, ray, m);
    assert(gx == a * ex + n * dx) by (nonlinear_arith)
        requires gx == a * ex - m * dx, n == -m;
    assert(gy == a * ey + n * dy) by (nonlinear_arith)
        requires gy == a * ey - m * dy, n == -m;
    assert(gz == a * ez + n * dz) by (nonlinear_arith)
        requires gz == a * ez - m * dz, n == -m;
    let gg = gx * gx + gy * gy + gz * gz;
    assert(gg == a * a * rr - a * e_);
    assert(a * e_ >= 0) by (nonlinear_arith)
        requires a > 0, e_ >= 0;
    let ra = abs_int(r);
    let gb = a * ra;
    assert(gb * gb == a * a * rr && gb >= 0) by (nonlinear_arith)
        requires gb == a * ra, a > 0, ra == (if r < 0 { -r } else { r }), rr == r * r;
    lemma_sq_le_sum(gx, gy, gz);
    lemma_sq_le_sum(gy, gx, gz);
    lemma_sq_le_sum(gz, gy, gx);
    let (Gx, Gy, Gz) = (one * gx, one * gy, one * gz);
    let (Dx, Dy, Dz) = (Gx - a * one * fx, Gy - a * one * fy, Gz - a * one * fz);
    let (ux, uy, uz) = (abs_int(dx) + one, abs_int(dy) + one, abs_int(dz) + one);
    let (bx, by, bz) = (a * ux, a * uy, a * uz);
    let Gb = one * gb;
    lemma_sq_mul(one, gx);
    lemma_sq_mul(one, gy);
    lemma_sq_mul(one, gz);
    lemma_sq_mul(one, gb);
    assert(Gx * Gx <= Gb * Gb && Gy * Gy <= Gb * Gb && Gz * Gz <= Gb * Gb) by (nonlinear_arith)
        requires
            gx * gx <= gb * gb, gy * gy <= gb * gb, gz * gz <= gb * gb,
            Gx * Gx == (one * one) * (gx * gx), Gy * Gy == (one * one) * (gy * gy),
            Gz * Gz == (one * one) * (gz * gz), Gb * Gb == (one * one) * (gb * gb), one > 0,
    ;
    lemma_square_diff_bound(Gx, Dx, Gb, bx);
    lemma_square_diff_bound(Gy, Dy, Gb, by);
    lemma_square_diff_bound(Gz, Dz, Gb, bz);
    // (a ONE)^2 (|f|^2 - r^2), expanded.
    let P = (a * one) * (a * one);
    let err = fx * fx + fy * fy + fz * fz - rr;
    lemma_dist3(P, fx * fx, fy * fy, fz * fz);
    assert(P * err == P * (fx * fx) + P * (fy * fy) + P * (fz * fz) - P * rr) by (nonlinear_arith)
        requires err == fx * fx + fy * fy + fz * fz - rr, P * (fx * fx + fy * fy + fz * fz) == P * (fx * fx) + P * (fy * fy) + P * (fz * fz);
    lemma_sq_mul(a * one, fx);
    lemma_sq_mul(a * one, fy);
    lemma_sq_mul(a * one, fz);
    assert(P * (fx * fx) == (Gx - Dx) * (Gx - Dx));
    assert(P * (fy * fy) == (Gy - Dy) * (Gy - Dy));
    assert(P * (fz * fz) == (Gz - Dz) * (Gz - Dz));
    lemma_dist3(one * one, gx * gx, gy * gy, gz * gz);
    let cross = Gx * Dx + Gy * Dy + Gz * Dz;
    let dsq = Dx * Dx + Dy * Dy + Dz * Dz;
    assert(P * rr == (one * one) * (a * a * rr)) by (nonlinear_arith)
        requires P == (a * one) * (a * one);
    assert((one * one) * gg == (one * one) * (a * a * rr) - (one * one) * (a * e_)) by (nonlinear_arith)
        requires gg == a * a * rr - a * e_;
    let T1 = (one * one) * (a * e_);
    assert(P * err == -T1 - 2 * cross + dsq);
    // Bounds on the cross and square terms.
    let sl = rounding_slack(ray);
    let sl2 = rounding_slack2(ray);
    lemma_dist3(a, ux, uy, uz);
    assert(bx + by + bz == a * sl);
    lemma_sq_mul(a, ux);
    lemma_sq_mul(a, uy);
    lemma_sq_mul(a, uz);
    lemma_dist3(a * a, ux * ux, uy * uy, uz * uz);
    assert(bx * bx + by * by + bz * bz == (a * a) * sl2);
    lemma_dist3(Gb, bx, by, bz);
    let T2 = Gb * (a * sl);
    let T3 = (a * a) * sl2;
    assert(abs_int(cross) <= T2) by {
        assert(abs_int(cross) <= abs_int(Gx * Dx) + abs_int(Gy * Dy) + abs_int(Gz * Dz));
    }
    assert(0 <= dsq <= T3);
    let lhs = P * err;
    assert(abs_int(lhs) <= T1 + 2 * T2 + T3);
    let bound = one * one * e_ + a * (2 * one * ra * sl + sl2);
    let w = 2 * one * ra * sl + sl2;
    assert(a * bound == a * (one * one * e_) + a * (a * w)) by (nonlinear_arith)
        requires bound == one * one * e_ + a * w;
    assert(a * (one * one * e_) == T1) by (nonlinear_arith)
        requires T1 == (one * one) * (a * e_);
    assert(a * (a * w) == (a * a) * (2 * one * ra * sl) + (a * a) * sl2) by (nonlinear_arith)
        requires w == 2 * one * ra * sl + sl2;
    assert((a * a) * (2 * one * ra * sl) == 2 * T2) by (nonlinear_arith)
        requires T2 == (one * (a * ra)) * (a * sl);
    assert(a * bound == T1 + 2 * T2 + T3);
    let X = a * (one * one) * abs_int(err);
    assert(abs_int(lhs) == a * X) by (nonlinear_arith)
        requires
            lhs == (a * one) * (a * one) * err,
            abs_int(lhs) == (if lhs < 0 { -lhs } else { lhs }),
            abs_int(err) == (if err < 0 { -err } else { err }),
            X == a * (one * one) * abs_int(err),
            a > 0,
    ;
    lemma_cancel_positive(a, X, bound);
    assert(point_at_spec(ray, t).x - s.center.x == fx);
    assert(point_at_spec(ray, t).y - s.center.y == fy);
    assert(point_at_spec(ray, t).z - s.center.z == fz);
    assert(0 <= e_ <= 2 * q);
    assert(a * (one * one) * abs_int(err) <= bound);
}

proof fn lemma_normal_axis(f: int, r: int, nn: int)
    requires
        r != 0,
        nn == floor_div(f * ONE, r),
    ensures
        abs_int(ONE * f - r * nn) <= abs_int(r),
{
    let x = f * ONE;
    if r > 0 {
        vstd::arithmetic::div_mod::lemma_fundamental_div_mod(x, r);
        assert(0 <= x % r < r);
        assert(ONE * f - r * nn == x % r) by (nonlinear_arith)
            requires x == r * nn + x % r, x == f * ONE;
    } else {
        vstd::arithmetic::div_mod::lemma_fundamental_div_mod(-x, -r);
        assert(0 <= (-x) % (-r) < -r);
        assert(ONE * f - r * nn == -((-x) % (-r))) by (nonlinear_arith)
            requires -x == (-r) * nn + (-x) % (-r), x == f * ONE;
    }
}

/// The normal that `Sphere::hit` reports has unit length up to rounding.
/// With `f = p - c` as in `lemma_hit_point_on_sphere` and `n` the reported
/// normal (not saturated):
/// `r^2 | |n|^2 - ONE^2 | <= ONE^2 | |f|^2 - r^2 | + 2 ONE |r| sum_i |f_i| + 3 r^2`,
/// so `|n|^2` is `ONE^2` up to `ONE^2 / r^2` times the point's own error,
/// plus `2 ONE |f|_1 / |r| + 3`.
pub proof fn lemma_hit_normal_unit(s: Sphere, ray: Ray, t_min: Option<i64>, t_max: Option<i64>, t: int)
    requires
        hit_t(s, ray, t_min, t_max) == Some(t),
        in_range((t * ray.direction.x) / (ONE as int)),
        in_range((t * ray.direction.y) / (ONE as int)),
        in_range((t * ray.direction.z) / (ONE as int)),
        in_range(axis_point(ray.origin.x as int, ray.direction.x as int, t)),
        in_range(axis_point(ray.origin.y as int, ray.direction.y as int, t)),
        in_range(axis_point(ray.origin.z as int, ray.direction.z as int, t)),
        in_range(floor_div((axis_point(ray.origin.x as int, ray.direction.x as int, t) - s.center.x) * ONE, s.radius as int)),
        in_range(floor_div((axis_point(ray.origin.y as int, ray.direction.y as int, t) - s.center.y) * ONE, s.radius as int)),
        in_range(floor_div((axis_point(ray.origin.z as int, ray.direction.z as int, t) - s.center.z) * ONE, s.radius as int)),
    ensures
        ({
            let fx = axis_point(ray.origin.x as int, ray.direction.x as int, t) - s.center.x;
            let fy = axis_point(ray.origin.y as int, ray.direction.y as int, t) - s.center.y;
            let fz = axis_point(ray.origin.z as int, ray.direction.z as int, t) - s.center.z;
            let n = normal_spec(s, point_at_spec(ray, t));
            let r = s.radius as int;
            (r * r) * abs_int(n.x * n.x + n.y * n.y + n.z * n.z - ONE * ONE) <= (ONE * ONE) * abs_int(
                fx * fx + fy * fy + fz * fz - r * r,
            ) + 2 * ONE * abs_int(r) * (abs_int(fx) + abs_int(fy) + abs_int(fz)) + 3 * (r * r)
        }),
{
    lemma_hit_point_on_sphere(s, ray, t_min, t_max, t);
    let one = ONE as int;
    let r = s.radius as int;
    let ra = abs_int(r);
    let fx = axis_point(ray.origin.x as int, ray.direction.x as int, t) - s.center.x;
    let fy = axis_point(ray.origin.y as int, ray.direction.y as int, t) - s.center.y;
    let fz = axis_point(ray.origin.z as int, ray.direction.z as int, t) - s.center.z;
    let n = normal_spec(s, point_at_spec(ray, t));
    let (nx, ny, nz) = (n.x as int, n.y as int, n.z as int);
    assert(nx == floor_div(fx * ONE, r));
    assert(ny == floor_div(fy * ONE, r));
    assert(nz == floor_div(fz * ONE, r));
    lemma_normal_axis(fx, r, nx);
    lemma_normal_axis(fy, r, ny);
    lemma_normal_axis(fz, r, nz);
    let (gx, gy, gz) = (one * fx, one * fy, one * fz);
    let (dx, dy, dz) = (gx - r * nx, gy - r * ny, gz - r * nz);
    let (bx, by, bz) = (abs_int(gx), abs_int(gy), abs_int(gz));
    assert(gx * gx <= bx * bx && gy * gy <= by * by && gz * gz <= bz * bz) by (nonlinear_arith)
        requires
            bx == (if gx < 0 { -gx } else { gx }),
            by == (if gy < 0 { -gy } else { gy }),
            bz == (if gz < 0 { -gz } else { gz }),
    ;
    lemma_square_diff_bound(gx, dx, bx, ra);
    lemma_square_diff_bound(gy, dy, by, ra);
    lemma_square_diff_bound(gz, dz, bz, ra);
    lemma_sq_mul(r, nx);
    lemma_sq_mul(r, ny);
    lemma_sq_mul(r, nz);
    lemma_sq_mul(one, fx);
    lemma_sq_mul(one, fy);
    lemma_sq_mul(one, fz);
    let nn = nx * nx + ny * ny + nz * nz;
    let ff = fx * fx + fy * fy + fz * fz;
    let rr = r * r;
    lemma_dist3(rr, nx * nx, ny * ny, nz * nz);
    lemma_dist3(one * one, fx * fx, fy * fy, fz * fz);
    let cross = gx * dx + gy * dy + gz * dz;
    let dsq = dx * dx + dy * dy + dz * dz;
    assert(rr * nn == (one * one) * ff - 2 * cross + dsq);
    assert(rr * (nn - one * one) == (one * one) * (ff - rr) - 2 * cross + dsq) by (nonlinear_arith)
        requires rr * nn == (one * one) * ff - 2 * cross + dsq;
    assert(abs_int(cross) <= bx * ra + by * ra + bz * ra);
    assert(bx * ra + by * ra + bz * ra == one * ra * (abs_int(fx) + abs_int(fy) + abs_int(fz)))
        by (nonlinear_arith)
        requires
            bx == (if one * fx < 0 { -(one * fx) } else { one * fx }),
            by == (if one * fy < 0 { -(one * fy) } else { one * fy }),
            bz == (if one * fz < 0 { -(one * fz) } else { one * fz }),
            abs_int(fx) == (if fx < 0 { -fx } else { fx }),
            abs_int(fy) == (if fy < 0 { -fy } else { fy }),
            abs_int(fz) == (if fz < 0 { -fz } else { fz }),
            one > 0,
    ;
    assert(ra * ra == rr) by (nonlinear_arith)
        requires ra == (if r < 0 { -r } else { r }), rr == r * r;
    assert(rr >= 0) by (nonlinear_arith)
        requires rr == r * r;
    let lhs = rr * (nn - one * one);
    assert(abs_int(lhs) == rr * abs_int(nn - one * one)) by (nonlinear_arith)
        requires rr >= 0, lhs == rr * (nn - one * one);
    assert(abs_int((one * one) * (ff - rr)) == (one * one) * abs_int(ff - rr)) by (nonlinear_arith)
        requires one > 0;
    let sf = abs_int(fx) + abs_int(fy) + abs_int(fz);
    assert(0 <= dsq <= 3 * rr);
    assert(abs_int(lhs) <= (one * one) * abs_int(ff - rr) + 2 * (one * ra * sf) + 3 * rr);
    assert(2 * (one * ra * sf) == 2 * ONE * ra * sf) by (nonlinear_arith)
        requires one == ONE;
    assert(rr * abs_int(nn - one * one) <= (one * one) * abs_int(ff - rr) + 2 * ONE * ra * sf + 3 * rr);
}

/// Whether an optional bound admits `t`, executably.
fn within(t: i128, t_min: Option<i64>, t_max: Option<i64>) -> (r: bool)
    ensures
        r == admissible(t as int, t_min, t_max),
{
    if t < -(LIMIT as i128) || t > LIMIT as i128 {
        return false;
    }
    let above = match t_min {
        Some(lo) => (lo as i128) < t,
        None => true,
    };
    let below = match t_max {
        Some(hi) => t < hi as i128,
        None => true,
    };
    above && below
}

impl Sphere {
    /// The closest intersection of `ray` with the sphere whose parameter lies
    /// strictly between the optional bounds, with its point and normal.
    pub fn hit(&self, ray: &Ray, t_min: Option<i64>, t_max: Option<i64>) -> (r: Option<HitRecord>)
        requires
            self.wf(),
            ray.wf(),
        ensures
            r == hit_spec(*self, *ray, t_min, t_max),
            r matches Some(h) ==> h.p.wf() && h.normal.wf(),
    {
        if self.radius == 0 {
            return None;
        }
        let oc = Vec3 {
            x: ray.origin.x - self.center.x,
            y: ray.origin.y - self.center.y,
            z: ray.origin.z - self.center.z,
        };
        let a = raw_dot(ray.direction, ray.direction);
        let b = raw_dot(oc, ray.direction);
        let oo = raw_dot(oc, oc);
        let ghost l2: int = LIMIT * LIMIT;
        proof {
            assert(l2 == 0x100_0000_0000_0000);
            assert(0 <= self.radius * self.radius <= l2) by (nonlinear_arith)
                requires -LIMIT <= self.radius <= LIMIT, l2 == LIMIT * LIMIT;
        }
        let c = oo - self.radius as i128 * self.radius as i128;
        if a <= 0 {
            return None;
        }
        proof {
            assert(0 <= b * b <= 0x90_0000_0000_0000_0000_0000_0000_0000) by (nonlinear_arith)
                requires -0xC00_0000_0000_0000 <= b <= 0xC00_0000_0000_0000;
            assert(-0x9C_0000_0000_0000_0000_0000_0000_0000 <= a * c
                <= 0x9C_0000_0000_0000_0000_0000_0000_0000) by (nonlinear_arith)
                requires
                    0 < a <= 0xC00_0000_0000_0000,
                    -0xD00_0000_0000_0000 <= c <= 0xC00_0000_0000_0000,
            ;
        }
        let disc = b * b - a * c;
        assert(disc == discriminant(*self, *ray));
        if disc < 0 {
            return None;
        }
        let s = isqrt(disc as u128) as i128;
        proof {
            assert(s <= 0x4000_0000_0000_0000) by (nonlinear_arith)
                requires 0 <= s, s * s <= disc, disc <= 0x1000_0000_0000_0000_0000_0000_0000_0000;
        }
        assert(-0x8000_0000_0000_0000 <= -b - s <= 0x8000_0000_0000_0000);
        assert(-0x8000_0000_0000_0000 <= -b + s <= 0x8000_0000_0000_0000);
        let near = div_floor((-b - s) * ONE as i128, a);
        let t: i128 = if within(near, t_min, t_max) {
            near
        } else {
            let far = div_floor((-b + s) * ONE as i128, a);
            if within(far, t_min, t_max) {
                far
            } else {
                return None;
            }
        };
        let t = t as i64;
        let p = ray.point_at_param(t);
        let normal = Vec3 {
            x: saturate(div_floor_signed((p.x - self.center.x) as i128 * ONE as i128, self.radius as i128)),
            y: saturate(div_floor_signed((p.y - self.center.y) as i128 * ONE as i128, self.radius as i128)),
            z: saturate(div_floor_signed((p.z - self.center.z) as i128 * ONE as i128, self.radius as i128)),
        };
        Some(HitRecord { t, p, normal })
    }
}

} // verus!
