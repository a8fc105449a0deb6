use vstd::prelude::*;

verus! {

/// One unit in the fixed-point representation used throughout: a value `v`
/// stands for the real number `v / ONE`.
pub const ONE: i64 = 65536;

/// Largest magnitude of a coordinate that the geometric routines accept.
pub const BOUND: i64 = 536870912;

pub open spec fn abs(a: int) -> int {
    if a < 0 { -a } else { a }
}

/// Floor of the square root: the unique `r >= 0` with `r*r <= n < (r+1)*(r+1)`.
pub open spec fn is_sqrt_floor(r: int, n: int) -> bool {
    0 <= r && r * r <= n && n < (r + 1) * (r + 1)
}

pub open spec fn sqrt_floor(n: int) -> int {
    choose|r: int| is_sqrt_floor(r, n)
}

pub proof fn lemma_square_monotone(a: int, b: int)
    requires
        0 <= a <= b,
    ensures
        a * a <= b * b,
{
    assert(a * a <= b * b) by (nonlinear_arith)
        requires
            0 <= a <= b,
    ;
}

pub proof fn lemma_sqrt_floor_unique(r: int, n: int)
    requires
        is_sqrt_floor(r, n),
    ensures
        sqrt_floor(n) == r,
{
    let q = sqrt_floor(n);
    assert(is_sqrt_floor(q, n));
    if q < r {
        lemma_square_monotone(q + 1, r);
    } else if r < q {
        lemma_square_monotone(r + 1, q);
    }
}

/// Every non-negative integer has a floor square root.
pub proof fn lemma_sqrt_floor_exists(n: int)
    requires
        n >= 0,
    ensures
        is_sqrt_floor(sqrt_floor(n), n),
    decreases n,
{
    if n == 0 {
        assert(is_sqrt_floor(0, 0));
    } else {
        lemma_sqrt_floor_exists(n - 1);
        let r = sqrt_floor(n - 1);
        if (r + 1) * (r + 1) <= n {
            assert(n < (r + 2) * (r + 2)) by (nonlinear_arith)
                requires
                    n - 1 < (r + 1) * (r + 1),
                    r >= 0,
            ;
            assert(is_sqrt_floor(r + 1, n));
        } else {
            assert(is_sqrt_floor(r, n));
        }
    }
}

/// The square root of a perfect square is its root.
pub proof fn lemma_sqrt_floor_square(k: int)
    requires
        k >= 0,
    ensures
        sqrt_floor(k * k) == k,
{
    assert(k * k < (k + 1) * (k + 1)) by (nonlinear_arith)
        requires
            k >= 0,
    ;
    lemma_sqrt_floor_unique(k, k * k);
}

/// Integer square root, rounded down.
pub fn isqrt(n: u128) -> (r: u128)
    requires
        n < 0x8000_0000_0000_0000_0000_0000_0000_0000u128,
    ensures
        r as int == sqrt_floor(n as int),
        is_sqrt_floor(r as int, n as int),
        r < 0x1_0000_0000_0000_0000u128,
{
    let mut lo: u128 = 0;
    let mut hi: u128 = 0x1_0000_0000_0000_0000u128;
    assert(hi * hi > n) by (nonlinear_arith)
        requires
            hi == 0x1_0000_0000_0000_0000u128,
            n < 0x8000_0000_0000_0000_0000_0000_0000_0000u128,
    ;
    while hi - lo > 1
        invariant
            lo < hi <= 0x1_0000_0000_0000_0000u128,
            lo * lo <= n,
            n < hi * hi,
        decreases hi - lo,
    {
        let mid: u128 = lo + (hi - lo) / 2;
        assert(mid * mid < 0x1_0000_0000_0000_0000_0000_0000_0000_0000int) by (nonlinear_arith)
            requires
                mid < 0x1_0000_0000_0000_0000int,
        ;
        if mid * mid <= n {
            lo = mid;
        } else {
            hi = mid;
        }
    }
    assert(hi == lo + 1);
    proof {
        lemma_sqrt_floor_unique(lo as int, n as int);
    }
    lo
}

/// Division rounded towards negative infinity (`/` on `int` with a positive divisor).
pub fn div_floor(a: i128, b: i128) -> (r: i128)
    requires
        b > 0,
    ensures
        r == a / b,
{
    if a >= 0 {
        a / b
    } else {
        let m: i128 = -(a + 1);
        let q: i128 = m / b;
        proof {
            let ai = a as int;
            let bi = b as int;
            let qi = q as int;
            assert(m as int == -ai - 1);
            vstd::arithmetic::div_mod::lemma_fundamental_div_mod(m as int, bi);
            vstd::arithmetic::div_mod::lemma_mod_bound(m as int, bi);
            assert(qi == (m as int) / bi);
            assert(m - qi * bi == (m as int) % bi) by (nonlinear_arith)
                requires
                    m as int == bi * ((m as int) / bi) + (m as int) % bi,
                    qi == (m as int) / bi,
            ;
            assert(ai == (-qi - 1) * bi + (bi - 1 - (m - qi * bi))) by (nonlinear_arith)
                requires m as int == -ai - 1, qi == q as int, bi == b as int;
            vstd::arithmetic::div_mod::lemma_fundamental_div_mod_converse(ai, bi, -qi - 1, bi - 1 - (m - qi * bi));
        }
        -q - 1
    }
}

pub open spec fn in_i64(v: int) -> bool {
    i64::MIN <= v <= i64::MAX
}

/// Fixed-point product of two fixed-point values, rounded down.
pub open spec fn fmul(a: int, b: int) -> int {
    (a * b) / (ONE as int)
}

/// A three-component fixed-point vector; points and colors share it.
#[derive(Clone, Copy, PartialEq, Eq, Structural, Debug)]
pub struct Vec3 {
    pub x: i64,
    pub y: i64,
    pub z: i64,
}

pub type Point3 = Vec3;

pub type Color = Vec3;

/// Every coordinate of `v` has magnitude at most `b`.
pub open spec fn bounded(v: Vec3, b: int) -> bool {
    abs(v.x as int) <= b && abs(v.y as int) <= b && abs(v.z as int) <= b
}

pub open spec fn vec_of(x: int, y: int, z: int) -> Vec3 {
    Vec3 { x: x as i64, y: y as i64, z: z as i64 }
}

pub open spec fn add_spec(a: Vec3, b: Vec3) -> Vec3 {
    vec_of(a.x + b.x, a.y + b.y, a.z + b.z)
}

pub open spec fn sub_spec(a: Vec3, b: Vec3) -> Vec3 {
    vec_of(a.x - b.x, a.y - b.y, a.z - b.z)
}

pub open spec fn neg_spec(a: Vec3) -> Vec3 {
    vec_of(-a.x, -a.y, -a.z)
}

/// `k * v` for a fixed-point scalar `k`.
pub open spec fn scale_spec(k: int, v: Vec3) -> Vec3 {
    vec_of(fmul(k, v.x as int), fmul(k, v.y as int), fmul(k, v.z as int))
}

/// Component-wise fixed-point product (used for colors).
pub open spec fn mul_spec(a: Vec3, b: Vec3) -> Vec3 {
    vec_of(fmul(a.x as int, b.x as int), fmul(a.y as int, b.y as int), fmul(a.z as int, b.z as int))
}

/// The exact dot product of the raw coordinates.
pub open spec fn dot_spec(a: Vec3, b: Vec3) -> int {
    a.x * b.x + a.y * b.y + a.z * b.z
}

pub open spec fn length_squared_spec(v: Vec3) -> int {
    dot_spec(v, v)
}

/// The length of `v` in raw units, rounded down.
pub open spec fn length_spec(v: Vec3) -> int {
    sqrt_floor(length_squared_spec(v))
}

/// `v` scaled to length `ONE`, each coordinate rounded down.
pub open spec fn unit_spec(v: Vec3) -> Vec3 {
    vec_of(
        (v.x * ONE) / length_spec(v),
        (v.y * ONE) / length_spec(v),
        (v.z * ONE) / length_spec(v),
    )
}

/// `d - 2 dot(d, n) n`, with the dot product taken in fixed point.
pub open spec fn reflect_spec(d: Vec3, n: Vec3) -> Vec3 {
    sub_spec(d, scale_spec(2 * (dot_spec(d, n) / (ONE as int)), n))
}

pub open spec fn fits_sum(a: Vec3, b: Vec3) -> bool {
    in_i64(a.x + b.x) && in_i64(a.y + b.y) && in_i64(a.z + b.z)
}

pub open spec fn fits_diff(a: Vec3, b: Vec3) -> bool {
    in_i64(a.x - b.x) && in_i64(a.y - b.y) && in_i64(a.z - b.z)
}

impl Vec3 {
    pub fn new(x: i64, y: i64, z: i64) -> (r: Vec3)
        ensures
            r == (Vec3 { x, y, z }),
    {
        Vec3 { x, y, z }
    }

    /// True when every coordinate is zero: the smallest representable step
    /// is the only tolerance of this representation.
    pub fn near_zero(&self) -> (r: bool)
        ensures
            r == (self.x == 0 && self.y == 0 && self.z == 0),
    {
        self.x == 0 && self.y == 0 && self.z == 0
    }
}

pub fn vadd(a: Vec3, b: Vec3) -> (r: Vec3)
    requires
        fits_sum(a, b),
    ensures
        r == add_spec(a, b),
{
    Vec3 { x: a.x + b.x, y: a.y + b.y, z: a.z + b.z }
}

pub fn vsub(a: Vec3, b: Vec3) -> (r: Vec3)
    requires
        fits_diff(a, b),
    ensures
        r == sub_spec(a, b),
{
    Vec3 { x: a.x - b.x, y: a.y - b.y, z: a.z - b.z }
}

pub fn vneg(a: Vec3) -> (r: Vec3)
    requires
        a.x > i64::MIN && a.y > i64::MIN && a.z > i64::MIN,
    ensures
        r == neg_spec(a),
{
    Vec3 { x: -a.x, y: -a.y, z: -a.z }
}

/// Fixed-point product of two fixed-point numbers.
pub fn fixed_mul(a: i64, b: i64) -> (r: i64)
    requires
        in_i64(fmul(a as int, b as int)),
    ensures
        r == fmul(a as int, b as int),
{
    let p: i128 = (a as i128) * (b as i128);
    div_floor(p, ONE as i128) as i64
}

pub fn scale(k: i64, v: Vec3) -> (r: Vec3)
    requires
        in_i64(fmul(k as int, v.x as int)),
        in_i64(fmul(k as int, v.y as int)),
        in_i64(fmul(k as int, v.z as int)),
    ensures
        r == scale_spec(k as int, v),
{
    Vec3 { x: fixed_mul(k, v.x), y: fixed_mul(k, v.y), z: fixed_mul(k, v.z) }
}

pub fn vmul(a: Vec3, b: Vec3) -> (r: Vec3)
    requires
        in_i64(fmul(a.x as int, b.x as int)),
        in_i64(fmul(a.y as int, b.y as int)),
        in_i64(fmul(a.z as int, b.z as int)),
    ensures
        r == mul_spec(a, b),
{
    Vec3 { x: fixed_mul(a.x, b.x), y: fixed_mul(a.y, b.y), z: fixed_mul(a.z, b.z) }
}

pub proof fn lemma_product_bound(a: int, b: int, m: int, n: int)
    requires
        abs(a) <= m,
        abs(b) <= n,
    ensures
        abs(a * b) <= m * n,
        -(m * n) <= a * b <= m * n,
{
    assert(abs(a * b) <= m * n) by (nonlinear_arith)
        requires
            abs(a) <= m,
            abs(b) <= n,
    ;
}

/// Exact dot product; coordinates up to `2^62` in magnitude are accepted.
pub fn dot(a: Vec3, b: Vec3) -> (r: i128)
    requires
        bounded(a, 0x4000_0000_0000_0000),
        bounded(b, 0x4000_0000_0000_0000),
    ensures
        r == dot_spec(a, b),
{
    proof {
        lemma_product_bound(a.x as int, b.x as int, 0x4000_0000_0000_0000, 0x4000_0000_0000_0000);
        lemma_product_bound(a.y as int, b.y as int, 0x4000_0000_0000_0000, 0x4000_0000_0000_0000);
        lemma_product_bound(a.z as int, b.z as int, 0x4000_0000_0000_0000, 0x4000_0000_0000_0000);
    }
    let px: i128 = (a.x as i128) * (b.x as i128);
    let py: i128 = (a.y as i128) * (b.y as i128);
    let pz: i128 = (a.z as i128) * (b.z as i128);
    px + py + pz
}

pub proof fn lemma_div_within(a: int, b: int, k: int)
    requires
        b > 0,
        k >= 0,
        abs(a) <= b * k,
    ensures
        -k <= a / b <= k,
{
    vstd::arithmetic::div_mod::lemma_fundamental_div_mod(a, b);
    vstd::arithmetic::div_mod::lemma_mod_bound(a, b);
    let q = a / b;
    let m = a % b;
    assert(-k <= q <= k) by (nonlinear_arith)
        requires
            a == b * q + m,
            0 <= m < b,
            b > 0,
            k >= 0,
            abs(a) <= b * k,
    ;
}

/// A coordinate never exceeds the length of its vector.
pub proof fn lemma_coord_le_length(c: int, v: Vec3, l: int)
    requires
        c == v.x || c == v.y || c == v.z,
        is_sqrt_floor(l, length_squared_spec(v)),
    ensures
        abs(c) <= l,
{
    let n = length_squared_spec(v);
    assert(c * c <= n) by (nonlinear_arith)
        requires
            c == v.x || c == v.y || c == v.z,
            n == v.x * v.x + v.y * v.y + v.z * v.z,
    ;
    if abs(c) > l {
        lemma_square_monotone(l + 1, abs(c));
        assert(abs(c) * abs(c) == c * c) by (nonlinear_arith);
    }
}

/// Fixed-point products stay within `k` when the exact product is within `ONE * k`.
pub proof fn lemma_fmul_bound(a: int, b: int, m: int, n: int, k: int)
    requires
        abs(a) <= m,
        abs(b) <= n,
        m * n <= (ONE as int) * k,
        k >= 0,
    ensures
        -k <= fmul(a, b) <= k,
{
    lemma_product_bound(a, b, m, n);
    lemma_div_within(a * b, ONE as int, k);
}

/// A unit vector's coordinates lie within `ONE`.
pub proof fn lemma_unit_bounds(v: Vec3)
    requires
        bounded(v, 0x1_0000_0000),
        !(v.x == 0 && v.y == 0 && v.z == 0),
    ensures
        bounded(unit_spec(v), ONE as int),
{
    let n = length_squared_spec(v);
    assert(n >= 1) by (nonlinear_arith)
        requires
            n == v.x * v.x + v.y * v.y + v.z * v.z,
            !(v.x == 0 && v.y == 0 && v.z == 0),
    ;
    lemma_sqrt_floor_exists(n);
    let len = length_spec(v);
    assert(len >= 1) by {
        if len == 0 {
            assert(n < 1);
        }
    }
    lemma_coord_le_length(v.x as int, v, len);
    lemma_coord_le_length(v.y as int, v, len);
    lemma_coord_le_length(v.z as int, v, len);
    lemma_product_bound(v.x as int, ONE as int, len, ONE as int);
    lemma_product_bound(v.y as int, ONE as int, len, ONE as int);
    lemma_product_bound(v.z as int, ONE as int, len, ONE as int);
    lemma_div_within(v.x * ONE, len, ONE as int);
    lemma_div_within(v.y * ONE, len, ONE as int);
    lemma_div_within(v.z * ONE, len, ONE as int);
}

/// Exact squared length as an unsigned integer.
pub fn length_squared(v: Vec3) -> (r: u128)
    requires
        bounded(v, 0x1_0000_0000),
    ensures
        r == length_squared_spec(v),
        r < 0x0100_0000_0000_0000_0000_0000_0000_0000u128,
{
    proof {
        lemma_product_bound(v.x as int, v.x as int, 0x1_0000_0000, 0x1_0000_0000);
        lemma_product_bound(v.y as int, v.y as int, 0x1_0000_0000, 0x1_0000_0000);
        lemma_product_bound(v.z as int, v.z as int, 0x1_0000_0000, 0x1_0000_0000);
        assert(v.x * v.x >= 0 && v.y * v.y >= 0 && v.z * v.z >= 0) by (nonlinear_arith);
        assert(0 <= dot_spec(v, v) <= 0x3_0000_0000_0000_0000int);
    }
    dot(v, v) as u128
}

/// `v` rescaled to unit length (`ONE` in fixed point).
pub fn unit_vector(v: Vec3) -> (r: Vec3)
    requires
        bounded(v, 0x1_0000_0000),
        !(v.x == 0 && v.y == 0 && v.z == 0),
    ensures
        r == unit_spec(v),
        bounded(r, ONE as int),
{
    let n: u128 = length_squared(v);
    let len: u128 = isqrt(n);
    proof {
        assert(n >= 1) by (nonlinear_arith)
            requires
                n == v.x * v.x + v.y * v.y + v.z * v.z,
                !(v.x == 0 && v.y == 0 && v.z == 0),
        ;
        assert(len >= 1);
        assert(length_spec(v) == len);
        lemma_unit_bounds(v);
    }
    let l: i128 = len as i128;
    let x: i128 = div_floor((v.x as i128) * (ONE as i128), l);
    let y: i128 = div_floor((v.y as i128) * (ONE as i128), l);
    let z: i128 = div_floor((v.z as i128) * (ONE as i128), l);
    Vec3 { x: x as i64, y: y as i64, z: z as i64 }
}

/// Reflecting a direction whose coordinates lie within `b` about a unit
/// normal keeps them within `7 b`.
pub proof fn lemma_reflect_bounds(d: Vec3, n: Vec3, b: int)
    requires
        0 <= b <= BOUND,
        bounded(d, b),
        bounded(n, ONE as int),
    ensures
        -3 * b <= dot_spec(d, n) / (ONE as int) <= 3 * b,
        bounded(reflect_spec(d, n), 7 * b),
{
    lemma_product_bound(d.x as int, n.x as int, b, ONE as int);
    lemma_product_bound(d.y as int, n.y as int, b, ONE as int);
    lemma_product_bound(d.z as int, n.z as int, b, ONE as int);
    lemma_div_within(dot_spec(d, n), ONE as int, 3 * b);
    let kk = 2 * (dot_spec(d, n) / (ONE as int));
    lemma_product_bound(kk, n.x as int, 6 * b, ONE as int);
    lemma_product_bound(kk, n.y as int, 6 * b, ONE as int);
    lemma_product_bound(kk, n.z as int, 6 * b, ONE as int);
    lemma_div_within(kk * n.x, ONE as int, 6 * b);
    lemma_div_within(kk * n.y, ONE as int, 6 * b);
    lemma_div_within(kk * n.z, ONE as int, 6 * b);
}

/// Mirror `d` about the unit normal `n`.
pub fn reflect(d: Vec3, n: Vec3) -> (r: Vec3)
    requires
        bounded(d, BOUND as int),
        bounded(n, ONE as int),
    ensures
        r == reflect_spec(d, n),
        bounded(r, 7 * BOUND),
        forall|b: int| 0 <= b <= BOUND && bounded(d, b) ==> bounded(r, 7 * b),
{
    proof {
        lemma_reflect_bounds(d, n, BOUND as int);
        assert forall|b: int| 0 <= b <= BOUND && bounded(d, b) implies bounded(reflect_spec(d, n), 7 * b) by {
            lemma_reflect_bounds(d, n, b);
        }
    }
    let k: i128 = div_floor(dot(d, n), ONE as i128);
    let k2: i64 = (2 * k) as i64;
    proof {
        let kk = k2 as int;
        lemma_product_bound(kk, n.x as int, 6 * BOUND, ONE as int);
        lemma_product_bound(kk, n.y as int, 6 * BOUND, ONE as int);
        lemma_product_bound(kk, n.z as int, 6 * BOUND, ONE as int);
        lemma_div_within(kk * n.x, ONE as int, 6 * BOUND);
        lemma_div_within(kk * n.y, ONE as int, 6 * BOUND);
        lemma_div_within(kk * n.z, ONE as int, 6 * BOUND);
    }
    let s: Vec3 = scale(k2, n);
    vsub(d, s)
}

/// Cross product in fixed point, each coordinate rounded down.
pub open spec fn cross_fixed(a: Vec3, b: Vec3) -> Vec3 {
    vec_of(
        (a.y * b.z - a.z * b.y) / (ONE as int),
        (a.z * b.x - a.x * b.z) / (ONE as int),
        (a.x * b.y - a.y * b.x) / (ONE as int),
    )
}

pub open spec fn div_vec_spec(v: Vec3, k: int) -> Vec3 {
    vec_of((v.x as int) / k, (v.y as int) / k, (v.z as int) / k)
}

fn cross_coord(p: i64, q: i64, r: i64, s: i64) -> (c: i64)
    requires
        abs(p as int) <= 0x1000_0000,
        abs(s as int) <= 0x1000_0000,
        abs(q as int) <= ONE,
        abs(r as int) <= ONE,
    ensures
        c == (p * q - r * s) / (ONE as int),
        abs(c as int) <= 0x2000_0000,
        abs(p as int) <= ONE && abs(s as int) <= ONE ==> abs(c as int) <= 2 * ONE,
{
    proof {
        lemma_product_bound(p as int, q as int, 0x1000_0000, ONE as int);
        lemma_product_bound(r as int, s as int, ONE as int, 0x1000_0000);
        lemma_div_within(p * q - r * s, ONE as int, 0x2000_0000);
        if abs(p as int) <= ONE && abs(s as int) <= ONE {
            lemma_product_bound(p as int, q as int, ONE as int, ONE as int);
            lemma_product_bound(r as int, s as int, ONE as int, ONE as int);
            lemma_div_within(p * q - r * s, ONE as int, 2 * ONE);
        }
    }
    div_floor((p as i128) * (q as i128) - (r as i128) * (s as i128), ONE as i128) as i64
}

/// Cross product of a vector with a unit vector.
pub fn cross(a: Vec3, b: Vec3) -> (r: Vec3)
    requires
        bounded(a, 0x1000_0000),
        bounded(b, ONE as int),
    ensures
        r == cross_fixed(a, b),
        bounded(r, 0x2000_0000),
        bounded(a, ONE as int) ==> bounded(r, 2 * ONE),
{
    Vec3 {
        x: cross_coord(a.y, b.z, b.y, a.z),
        y: cross_coord(a.z, b.x, b.z, a.x),
        z: cross_coord(a.x, b.y, b.x, a.y),
    }
}

/// Each coordinate divided by a positive integer, rounded down.
pub fn div_vec(v: Vec3, k: i64) -> (r: Vec3)
    requires
        k > 0,
        bounded(v, 0x7fff_ffff_ffff_ffff),
    ensures
        r == div_vec_spec(v, k as int),
        forall|b: int| b >= 0 && bounded(v, b) ==> bounded(r, b),
{
    proof {
        assert forall|b: int| b >= 0 && bounded(v, b) implies bounded(div_vec_spec(v, k as int), b) by {
            assert(k * b >= b) by (nonlinear_arith)
                requires
                    k >= 1,
                    b >= 0,
            ;
            lemma_div_within(v.x as int, k as int, b);
            lemma_div_within(v.y as int, k as int, b);
            lemma_div_within(v.z as int, k as int, b);
        }
        assert(bounded(div_vec_spec(v, k as int), 0x7fff_ffff_ffff_ffff));
    }
    let kk: i128 = k as i128;
    Vec3 {
        x: div_floor(v.x as i128, kk) as i64,
        y: div_floor(v.y as i128, kk) as i64,
        z: div_floor(v.z as i128, kk) as i64,
    }
}

} // verus!
