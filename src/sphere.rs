use vstd::prelude::*;
use crate::hittable::HitRecord;
use crate::material::{is_zero, record_wf, Material};
use crate::ray::{Interval, Ray, surrounds_spec};
use crate::vec3::{
    abs, bounded, div_floor, dot, dot_spec, fmul, isqrt, length_squared_spec,
    lemma_product_bound, neg_spec, sqrt_floor, sub_spec, unit_spec,
    unit_vector, vec_of, vneg, vsub, Point3, Vec3, BOUND, ONE,
};

verus! {

/// A sphere with a center, a positive radius and a material.
#[derive(Clone, Copy, PartialEq, Eq, Structural, Debug)]
pub struct Sphere {
    pub center: Point3,
    pub radius: i64,
    pub mat: Material,
}

impl Sphere {
    /// Positive radius, and center and radius in the accepted region.
    pub open spec fn wf(&self) -> bool {
        0 < self.radius <= BOUND && bounded(self.center, BOUND as int) && self.mat.wf()
    }

    pub fn new(center: Point3, radius: i64, mat: Material) -> (r: Sphere)
        requires
            0 < radius <= BOUND,
            bounded(center, BOUND as int),
            mat.wf(),
        ensures
            r == (Sphere { center, radius, mat }),
            r.wf(),
    {
        Sphere { center, radius, mat }
    }
}

pub open spec fn oc_spec(s: Sphere, r: Ray) -> Vec3 {
    sub_spec(s.center, r.origin)
}

pub open spec fn quad_a(s: Sphere, r: Ray) -> int {
    length_squared_spec(r.direction)
}

pub open spec fn quad_h(s: Sphere, r: Ray) -> int {
    dot_spec(r.direction, oc_spec(s, r))
}

pub open spec fn quad_c(s: Sphere, r: Ray) -> int {
    length_squared_spec(oc_spec(s, r)) - s.radius * s.radius
}

pub open spec fn discriminant(s: Sphere, r: Ray) -> int {
    quad_h(s, r) * quad_h(s, r) - quad_a(s, r) * quad_c(s, r)
}

/// The smaller root of the quadratic, in fixed point, rounded down.
pub open spec fn root_near(s: Sphere, r: Ray) -> int {
    ((ONE as int) * (quad_h(s, r) - sqrt_floor(discriminant(s, r)))) / quad_a(s, r)
}

/// The larger root of the quadratic, in fixed point, rounded down.
pub open spec fn root_far(s: Sphere, r: Ray) -> int {
    ((ONE as int) * (quad_h(s, r) + sqrt_floor(discriminant(s, r)))) / quad_a(s, r)
}

/// The root that the test settles on: the nearer one inside the open
/// interval, else the farther one, else none.
pub open spec fn hit_root(s: Sphere, r: Ray, iv: Interval) -> Option<int> {
    if quad_a(s, r) == 0 || discriminant(s, r) < 0 {
        None
    } else if surrounds_spec(iv, root_near(s, r)) {
        Some(root_near(s, r))
    } else if surrounds_spec(iv, root_far(s, r)) {
        Some(root_far(s, r))
    } else {
        None
    }
}

pub open spec fn at_coord(o: i64, d: i64, t: int) -> int {
    o + fmul(t, d as int)
}

/// `origin + t * direction`.
pub open spec fn at_spec(r: Ray, t: int) -> Vec3 {
    vec_of(
        at_coord(r.origin.x, r.direction.x, t),
        at_coord(r.origin.y, r.direction.y, t),
        at_coord(r.origin.z, r.direction.z, t),
    )
}

pub open spec fn at_in_bounds(r: Ray, t: int) -> bool {
    abs(at_coord(r.origin.x, r.direction.x, t)) <= BOUND
        && abs(at_coord(r.origin.y, r.direction.y, t)) <= BOUND
        && abs(at_coord(r.origin.z, r.direction.z, t)) <= BOUND
}

/// The unit normal pointing out of the sphere at the point for `t`.
pub open spec fn outward_normal(s: Sphere, r: Ray, t: int) -> Vec3 {
    unit_spec(sub_spec(at_spec(r, t), s.center))
}

/// The record for parameter `t`, when the point is representable and
/// distinct from the center.
pub open spec fn record_at(s: Sphere, r: Ray, t: int) -> Option<HitRecord> {
    if at_in_bounds(r, t) && at_spec(r, t) != s.center {
        let on = outward_normal(s, r, t);
        let front = dot_spec(r.direction, on) < 0;
        Some(
            HitRecord {
                t: t as i64,
                p: at_spec(r, t),
                normal: if front { on } else { neg_spec(on) },
                front_face: front,
                mat: s.mat,
            },
        )
    } else {
        None
    }
}

/// What the intersection test of `s` against `r` within `iv` reports.
pub open spec fn sphere_hit(s: Sphere, r: Ray, iv: Interval) -> Option<HitRecord> {
    match hit_root(s, r, iv) {
        Some(t) => record_at(s, r, t),
        None => None,
    }
}

impl Sphere {
    /// The intersection test: `Some` exactly when `sphere_hit` is.
    pub fn hit(&self, r: &Ray, ray_t: Interval) -> (res: Option<HitRecord>)
        requires
            self.wf(),
            r.wf(),
        ensures
            res == sphere_hit(*self, *r, ray_t),
            res matches Some(rec) ==> record_wf(rec) && !is_zero(r.direction),
    {
        let d: Vec3 = r.direction;
        let oc: Vec3 = vsub(self.center, r.origin);
        proof {
            let b = 0x4000_0000_0000_0000int;
            lemma_product_bound(d.x as int, d.x as int, 0x2000_0000, 0x2000_0000);
            lemma_product_bound(d.y as int, d.y as int, 0x2000_0000, 0x2000_0000);
            lemma_product_bound(d.z as int, d.z as int, 0x2000_0000, 0x2000_0000);
            lemma_product_bound(d.x as int, oc.x as int, 0x2000_0000, 0x4000_0000);
            lemma_product_bound(d.y as int, oc.y as int, 0x2000_0000, 0x4000_0000);
            lemma_product_bound(d.z as int, oc.z as int, 0x2000_0000, 0x4000_0000);
            lemma_product_bound(oc.x as int, oc.x as int, 0x4000_0000, 0x4000_0000);
            lemma_product_bound(oc.y as int, oc.y as int, 0x4000_0000, 0x4000_0000);
            lemma_product_bound(oc.z as int, oc.z as int, 0x4000_0000, 0x4000_0000);
            lemma_product_bound(self.radius as int, self.radius as int, 0x2000_0000, 0x2000_0000);
            assert(d.x * d.x >= 0 && d.y * d.y >= 0 && d.z * d.z >= 0) by (nonlinear_arith);
            assert(oc.x * oc.x >= 0 && oc.y * oc.y >= 0 && oc.z * oc.z >= 0) by (nonlinear_arith);
        }
        let a: i128 = dot(d, d);
        let h: i128 = dot(d, oc);
        let rr: i128 = (self.radius as i128) * (self.radius as i128);
        let c: i128 = dot(oc, oc) - rr;
        proof {
            let m = 0x3000_0000_0000_0000int;
            assert(0 <= a <= m);
            assert(abs(h as int) <= m);
            assert(abs(c as int) <= m);
            lemma_product_bound(h as int, h as int, m, m);
            lemma_product_bound(a as int, c as int, m, m);
        }
        if a == 0 {
            return None;
        }
        proof {
            let m = 0x3000_0000_0000_0000int;
            assert(m * m == 0x900_0000_0000_0000_0000_0000_0000_0000int);
        }
        let disc: i128 = h * h - a * c;
        if disc < 0 {
            return None;
        }
        let sq: u128 = isqrt(disc as u128);
        proof {
            let m = 0x3000_0000_0000_0000int;
            assert(sq <= 2 * m) by (nonlinear_arith)
                requires
                    sq * sq <= disc,
                    disc <= 2 * (m * m),
                    m > 0,
                    sq >= 0,
            ;
        }
        let s: i128 = sq as i128;
        let one: i128 = ONE as i128;
        let near: i128 = div_floor(one * (h - s), a);
        let root: i128;
        if ray_t.surrounds(near) {
            root = near;
        } else {
            let far: i128 = div_floor(one * (h + s), a);
            if ray_t.surrounds(far) {
                root = far;
            } else {
                return None;
            }
        }
        assert(hit_root(*self, *r, ray_t) == Some(root as int));
        proof {
            lemma_product_bound(root as int, d.x as int, 0x8000_0000_0000_0000int, BOUND as int);
            lemma_product_bound(root as int, d.y as int, 0x8000_0000_0000_0000int, BOUND as int);
            lemma_product_bound(root as int, d.z as int, 0x8000_0000_0000_0000int, BOUND as int);
        }
        let px: i128 = (r.origin.x as i128) + div_floor(root * (d.x as i128), one);
        let py: i128 = (r.origin.y as i128) + div_floor(root * (d.y as i128), one);
        let pz: i128 = (r.origin.z as i128) + div_floor(root * (d.z as i128), one);
        let lim: i128 = BOUND as i128;
        if px < -lim || px > lim || py < -lim || py > lim || pz < -lim || pz > lim {
            return None;
        }
        let p: Point3 = Vec3 { x: px as i64, y: py as i64, z: pz as i64 };
        assert(p == at_spec(*r, root as int));
        if p == self.center {
            return None;
        }
        let outward: Vec3 = unit_vector(vsub(p, self.center));
        let front_face: bool = dot(d, outward) < 0;
        let normal: Vec3 = if front_face {
            outward
        } else {
            vneg(outward)
        };
        Some(HitRecord { t: root as i64, p, normal, front_face, mat: self.mat })
    }
}

pub open spec fn cross_spec(a: Vec3, b: Vec3) -> (int, int, int) {
    (a.y * b.z - a.z * b.y, a.z * b.x - a.x * b.z, a.x * b.y - a.y * b.x)
}

/// `|direction x (center - origin)|^2`: the squared distance from the center
/// to the line of the ray, times `|direction|^2`.
pub open spec fn offset_squared(s: Sphere, r: Ray) -> int {
    let (x, y, z) = cross_spec(r.direction, oc_spec(s, r));
    x * x + y * y + z * z
}

proof fn lemma_sq_diff(p: int, q: int)
    ensures
        (p - q) * (p - q) == p * p - 2 * (p * q) + q * q,
{
    assert((p - q) * (p - q) == p * p - 2 * (p * q) + q * q) by (nonlinear_arith);
}

proof fn lemma_sq_sum3(p: int, q: int, r: int)
    ensures
        (p + q + r) * (p + q + r) == p * p + q * q + r * r + 2 * (p * q) + 2 * (p * r) + 2 * (q * r),
{
    assert((p + q + r) * (p + q + r) == p * p + q * q + r * r + 2 * (p * q) + 2 * (p * r) + 2 * (q
        * r)) by (nonlinear_arith);
}

proof fn lemma_prod_swap(a: int, b: int, c: int, d: int)
    ensures
        (a * b) * (c * d) == (a * c) * (b * d),
{
    assert((a * b) * (c * d) == (a * c) * (b * d)) by (nonlinear_arith);
}

proof fn lemma_dist3(a: int, x: int, y: int, z: int)
    ensures
        a * (x + y + z) == a * x + a * y + a * z,
{
    assert(a * (x + y + z) == a * x + a * y + a * z) by (nonlinear_arith);
}

proof fn lemma_dist3_left(x: int, y: int, z: int, a: int)
    ensures
        (x + y + z) * a == x * a + y * a + z * a,
{
    assert((x + y + z) * a == x * a + y * a + z * a) by (nonlinear_arith);
}

/// A ray whose line passes farther from the center than the radius misses,
/// whatever the interval.
pub proof fn lemma_miss(s: Sphere, r: Ray, iv: Interval)
    requires
        offset_squared(s, r) > quad_a(s, r) * (s.radius * s.radius),
    ensures
        sphere_hit(s, r, iv) is None,
{
    let d = r.direction;
    let o = oc_spec(s, r);
    let rr = s.radius * s.radius;
    let (cx, cy, cz) = cross_spec(d, o);
    let a = d.x * d.x + d.y * d.y + d.z * d.z;
    let h = d.x * o.x + d.y * o.y + d.z * o.z;
    let oo = o.x * o.x + o.y * o.y + o.z * o.z;
    let (dx, dy, dz) = (d.x as int, d.y as int, d.z as int);
    let (ox, oy, oz) = (o.x as int, o.y as int, o.z as int);
    // squares of the cross product's coordinates
    lemma_sq_diff(dy * oz, dz * oy);
    lemma_sq_diff(dz * ox, dx * oz);
    lemma_sq_diff(dx * oy, dy * ox);
    lemma_prod_swap(dy, oz, dy, oz);
    lemma_prod_swap(dz, oy, dz, oy);
    lemma_prod_swap(dz, ox, dz, ox);
    lemma_prod_swap(dx, oz, dx, oz);
    lemma_prod_swap(dx, oy, dx, oy);
    lemma_prod_swap(dy, ox, dy, ox);
    lemma_prod_swap(dy, oz, dz, oy);
    lemma_prod_swap(dz, ox, dx, oz);
    lemma_prod_swap(dx, oy, dy, ox);
    // the squared dot product
    lemma_sq_sum3(dx * ox, dy * oy, dz * oz);
    lemma_prod_swap(dx, ox, dx, ox);
    lemma_prod_swap(dy, oy, dy, oy);
    lemma_prod_swap(dz, oz, dz, oz);
    lemma_prod_swap(dx, ox, dy, oy);
    lemma_prod_swap(dx, ox, dz, oz);
    lemma_prod_swap(dy, oy, dz, oz);
    // the product of the squared lengths
    lemma_dist3(dx * dx + dy * dy + dz * dz, ox * ox, oy * oy, oz * oz);
    lemma_dist3_left(dx * dx, dy * dy, dz * dz, ox * ox);
    lemma_dist3_left(dx * dx, dy * dy, dz * dz, oy * oy);
    lemma_dist3_left(dx * dx, dy * dy, dz * dz, oz * oz);
    assert(a * oo - h * h == cx * cx + cy * cy + cz * cz);
    assert(h * h - a * (oo - rr) == a * rr - (a * oo - h * h)) by (nonlinear_arith);
    assert(discriminant(s, r) < 0);
}

/// The normal faces the incoming ray, and `front_face` says whether the
/// outward normal already did.
pub proof fn lemma_face_normal(s: Sphere, r: Ray, iv: Interval)
    requires
        s.wf(),
    ensures
        sphere_hit(s, r, iv) matches Some(rec) ==> rec.front_face == (dot_spec(
            r.direction,
            outward_normal(s, r, rec.t as int),
        ) < 0) && dot_spec(r.direction, rec.normal) <= 0,
{
    if let Some(t) = hit_root(s, r, iv) {
        if let Some(rec) = record_at(s, r, t) {
            assert(iv.min < t < iv.max);
            assert(rec.t as int == t);
            let on = outward_normal(s, r, t);
            let d = r.direction;
            if !rec.front_face {
                assert(on.x > i64::MIN && on.y > i64::MIN && on.z > i64::MIN) by {
                    crate::vec3::lemma_unit_bounds(sub_spec(at_spec(r, t), s.center));
                }
                assert(dot_spec(d, neg_spec(on)) == -dot_spec(d, on)) by (nonlinear_arith)
                    requires
                        neg_spec(on) == vec_of(-on.x, -on.y, -on.z),
                        on.x > i64::MIN && on.y > i64::MIN && on.z > i64::MIN,
                ;
            }
        }
    }
}

/// A ray aimed at the center from outside, at a distance `l` that is a whole
/// number of units, reaches the surface at `t = (l - radius) / l`: the
/// distance less the radius, in units of the direction's length. The
/// normal lies along the point minus the center.
pub proof fn lemma_aimed_at_center(s: Sphere, r: Ray, iv: Interval, l: int)
    requires
        s.wf(),
        r.direction == oc_spec(s, r),
        length_squared_spec(r.direction) == l * l,
        l > s.radius,
        surrounds_spec(iv, ((ONE as int) * (l - s.radius)) / l),
    ensures
        hit_root(s, r, iv) == Some(((ONE as int) * (l - s.radius)) / l),
        sphere_hit(s, r, iv) matches Some(rec) ==> rec.t == ((ONE as int) * (l - s.radius)) / l
            && (rec.normal == unit_spec(sub_spec(rec.p, s.center)) || rec.normal == neg_spec(
            unit_spec(sub_spec(rec.p, s.center)),
        )),
{
    let rad = s.radius as int;
    let a = quad_a(s, r);
    let h = quad_h(s, r);
    assert(a == l * l);
    assert(h == l * l);
    assert(quad_c(s, r) == l * l - rad * rad);
    assert(discriminant(s, r) == (l * rad) * (l * rad)) by (nonlinear_arith)
        requires
            discriminant(s, r) == h * h - a * quad_c(s, r),
            a == l * l,
            h == l * l,
            quad_c(s, r) == l * l - rad * rad,
    ;
    assert(l * rad >= 0) by (nonlinear_arith)
        requires
            l > rad,
            rad > 0,
    ;
    crate::vec3::lemma_sqrt_floor_square(l * rad);
    assert(a > 0) by (nonlinear_arith)
        requires
            a == l * l,
            l > 0,
    ;
    let x = (ONE as int) * (l - rad);
    assert((ONE as int) * (h - l * rad) == x * l) by (nonlinear_arith)
        requires
            h == l * l,
            x == (ONE as int) * (l - rad),
    ;
    vstd::arithmetic::div_mod::lemma_div_denominator(x * l, l, l);
    vstd::arithmetic::div_mod::lemma_div_multiples_vanish(x, l);
    assert(x * l == l * x) by (nonlinear_arith);
    assert(root_near(s, r) == x / l);
}

proof fn lemma_fmul_between(t: int, x: int)
    requires
        0 <= t < ONE,
    ensures
        x > 0 ==> 0 <= fmul(t, x) < x,
        x < 0 ==> x <= fmul(t, x) <= 0,
        x == 0 ==> fmul(t, x) == 0,
{
    let one = ONE as int;
    vstd::arithmetic::div_mod::lemma_fundamental_div_mod(t * x, one);
    vstd::arithmetic::div_mod::lemma_mod_bound(t * x, one);
    let q = (t * x) / one;
    let m = (t * x) % one;
    if x > 0 {
        assert(0 <= q < x) by (nonlinear_arith)
            requires
                t * x == one * q + m,
                0 <= m < one,
                0 <= t < one,
                x > 0,
        ;
    } else if x < 0 {
        assert(x <= q <= 0) by (nonlinear_arith)
            requires
                t * x == one * q + m,
                0 <= m < one,
                0 <= t < one,
                x < 0,
        ;
    } else {
        assert(t * x == 0);
    }
}

proof fn lemma_scaled_sign(c: int, len: int)
    requires
        len >= 1,
    ensures
        c < 0 ==> (c * ONE) / len < 0,
        c >= 0 ==> (c * ONE) / len >= 0,
        c * ONE >= len ==> (c * ONE) / len >= 1,
{
    vstd::arithmetic::div_mod::lemma_fundamental_div_mod(c * ONE, len);
    vstd::arithmetic::div_mod::lemma_mod_bound(c * ONE, len);
    let q = (c * ONE) / len;
    let m = (c * ONE) % len;
    assert(c < 0 ==> q < 0) by (nonlinear_arith)
        requires
            c * ONE == len * q + m,
            0 <= m < len,
    ;
    assert(c >= 0 ==> q >= 0) by (nonlinear_arith)
        requires
            c * ONE == len * q + m,
            0 <= m < len,
    ;
    assert(c * ONE >= len ==> q >= 1) by (nonlinear_arith)
        requires
            c * ONE == len * q + m,
            0 <= m < len,
    ;
}

/// A ray aimed at the center from outside, as above, is reported as a hit
/// at that parameter, on the front face, with the outward unit normal at
/// `origin + t * direction`; left out is the case where rounding puts that
/// point on the center itself.
pub proof fn lemma_aimed_hit_reported(s: Sphere, r: Ray, iv: Interval, l: int)
    requires
        s.wf(),
        r.wf(),
        r.direction == oc_spec(s, r),
        length_squared_spec(r.direction) == l * l,
        l > s.radius,
        surrounds_spec(iv, ((ONE as int) * (l - s.radius)) / l),
        at_spec(r, ((ONE as int) * (l - s.radius)) / l) != s.center,
    ensures
        sphere_hit(s, r, iv) == Some(
            HitRecord {
                t: (((ONE as int) * (l - s.radius)) / l) as i64,
                p: at_spec(r, ((ONE as int) * (l - s.radius)) / l),
                normal: outward_normal(s, r, ((ONE as int) * (l - s.radius)) / l),
                front_face: true,
                mat: s.mat,
            },
        ),
{
    lemma_aimed_at_center(s, r, iv, l);
    let rad = s.radius as int;
    let one = ONE as int;
    let t = (one * (l - rad)) / l;
    // 0 <= t < ONE
    vstd::arithmetic::div_mod::lemma_fundamental_div_mod(one * (l - rad), l);
    vstd::arithmetic::div_mod::lemma_mod_bound(one * (l - rad), l);
    assert(0 <= t < one) by (nonlinear_arith)
        requires
            one * (l - rad) == l * t + (one * (l - rad)) % l,
            0 <= (one * (l - rad)) % l < l,
            l > rad,
            rad > 0,
            one > 0,
    ;
    let d = r.direction;
    let o = r.origin;
    lemma_fmul_between(t, d.x as int);
    lemma_fmul_between(t, d.y as int);
    lemma_fmul_between(t, d.z as int);
    assert(at_in_bounds(r, t));
    let p = at_spec(r, t);
    let e = sub_spec(p, s.center);
    // each coordinate of p - c lies against the direction
    assert(d.x > 0 ==> e.x < 0);
    assert(d.x < 0 ==> e.x >= 0);
    assert(d.x == 0 ==> e.x == 0);
    assert(d.y > 0 ==> e.y < 0);
    assert(d.y < 0 ==> e.y >= 0);
    assert(d.y == 0 ==> e.y == 0);
    assert(d.z > 0 ==> e.z < 0);
    assert(d.z < 0 ==> e.z >= 0);
    assert(d.z == 0 ==> e.z == 0);
    assert(!(e.x == 0 && e.y == 0 && e.z == 0));
    let n2 = length_squared_spec(e);
    assert(n2 >= 1) by (nonlinear_arith)
        requires
            n2 == e.x * e.x + e.y * e.y + e.z * e.z,
            !(e.x == 0 && e.y == 0 && e.z == 0),
    ;
    crate::vec3::lemma_sqrt_floor_exists(n2);
    let len = crate::vec3::length_spec(e);
    assert(len >= 1) by {
        if len < 1 {
            assert(crate::vec3::is_sqrt_floor(len, n2));
            assert(false) by (nonlinear_arith)
                requires
                    0 <= len < 1,
                    n2 < (len + 1) * (len + 1),
                    n2 >= 1,
            ;
        }
    }
    let on = outward_normal(s, r, t);
    crate::vec3::lemma_unit_bounds(e);
    crate::vec3::lemma_coord_le_length(e.x as int, e, len);
    crate::vec3::lemma_coord_le_length(e.y as int, e, len);
    crate::vec3::lemma_coord_le_length(e.z as int, e, len);
    lemma_product_bound(e.x as int, ONE as int, len, ONE as int);
    lemma_product_bound(e.y as int, ONE as int, len, ONE as int);
    lemma_product_bound(e.z as int, ONE as int, len, ONE as int);
    crate::vec3::lemma_div_within(e.x * ONE, len, ONE as int);
    crate::vec3::lemma_div_within(e.y * ONE, len, ONE as int);
    crate::vec3::lemma_div_within(e.z * ONE, len, ONE as int);
    lemma_scaled_sign(e.x as int, len);
    lemma_scaled_sign(e.y as int, len);
    lemma_scaled_sign(e.z as int, len);
    assert(on.x == (e.x * ONE) / len);
    assert(on.y == (e.y * ONE) / len);
    assert(on.z == (e.z * ONE) / len);
    // every term of dot(d, on) is at most zero
    assert(d.x * on.x <= 0 && d.y * on.y <= 0 && d.z * on.z <= 0) by (nonlinear_arith)
        requires
            d.x > 0 ==> on.x < 0,
            d.x < 0 ==> on.x >= 0,
            d.y > 0 ==> on.y < 0,
            d.y < 0 ==> on.y >= 0,
            d.z > 0 ==> on.z < 0,
            d.z < 0 ==> on.z >= 0,
    ;
    // and one of them is below zero
    if d.x > 0 {
        assert(d.x * on.x < 0) by (nonlinear_arith)
            requires
                d.x > 0,
                on.x < 0,
        ;
    } else if d.y > 0 {
        assert(d.y * on.y < 0) by (nonlinear_arith)
            requires
                d.y > 0,
                on.y < 0,
        ;
    } else if d.z > 0 {
        assert(d.z * on.z < 0) by (nonlinear_arith)
            requires
                d.z > 0,
                on.z < 0,
        ;
    } else {
        // all of p - c is non-negative: its largest coordinate gives a
        // positive normal coordinate against a negative direction coordinate
        let (ex, ey, ez) = (e.x as int, e.y as int, e.z as int);
        assert(len * len <= n2);
        if ex >= ey && ex >= ez {
            assert(ex * ONE >= len) by (nonlinear_arith)
                requires
                    len * len <= ex * ex + ey * ey + ez * ez,
                    ex >= ey >= 0 || ex >= ez >= 0 || ex >= 0,
                    ex >= ey,
                    ex >= ez,
                    ey >= 0,
                    ez >= 0,
                    len >= 1,
            ;
            assert(d.x < 0);
            assert(d.x * on.x < 0) by (nonlinear_arith)
                requires
                    d.x < 0,
                    on.x >= 1,
            ;
        } else if ey >= ez {
            assert(ey * ONE >= len) by (nonlinear_arith)
                requires
                    len * len <= ex * ex + ey * ey + ez * ez,
                    ey >= ex,
                    ey >= ez,
                    ex >= 0,
                    ez >= 0,
                    len >= 1,
            ;
            assert(d.y < 0);
            assert(d.y * on.y < 0) by (nonlinear_arith)
                requires
                    d.y < 0,
                    on.y >= 1,
            ;
        } else {
            assert(ez * ONE >= len) by (nonlinear_arith)
                requires
                    len * len <= ex * ex + ey * ey + ez * ez,
                    ez >= ex,
                    ez >= ey,
                    ex >= 0,
                    ey >= 0,
                    len >= 1,
            ;
            assert(d.z < 0);
            assert(d.z * on.z < 0) by (nonlinear_arith)
                requires
                    d.z < 0,
                    on.z >= 1,
            ;
        }
    }
    assert(dot_spec(d, on) < 0);
}

} // verus!
