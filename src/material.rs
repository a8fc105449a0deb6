use vstd::prelude::*;
use crate::hittable::HitRecord;
use crate::ray::Ray;
use crate::vec3::{
    abs, add_spec, bounded, div_floor, dot, dot_spec, fixed_mul, fmul, isqrt,
    lemma_div_within, lemma_fmul_bound, lemma_product_bound, neg_spec, reflect, reflect_spec,
    scale, scale_spec, sqrt_floor, unit_spec, unit_vector, vadd, vneg, Color, Vec3, BOUND, ONE,
};

verus! {

/// A diffuse surface.
#[derive(Clone, Copy, PartialEq, Eq, Structural, Debug)]
pub struct Lambertian {
    pub albedo: Color,
}

/// A specular surface whose reflections are blurred by `fuzz`.
#[derive(Clone, Copy, PartialEq, Eq, Structural, Debug)]
pub struct Metal {
    pub albedo: Color,
    pub fuzz: i64,
}

/// A clear refracting surface.
#[derive(Clone, Copy, PartialEq, Eq, Structural, Debug)]
pub struct Dielectric {
    pub refraction_index: i64,
}

/// The closed set of surface materials.
#[derive(Clone, Copy, PartialEq, Eq, Structural, Debug)]
pub enum Material {
    Lambertian(Lambertian),
    Metal(Metal),
    Dielectric(Dielectric),
}

/// The random input one scattering event may consume: a random unit vector
/// and a uniform draw in `[0, ONE)`.
#[derive(Clone, Copy, PartialEq, Eq, Structural, Debug)]
pub struct ScatterSample {
    pub unit: Vec3,
    pub draw: i64,
}

/// Largest refraction index accepted (64 in fixed point).
pub const MAX_INDEX: i64 = 4194304;

/// Smallest refraction index accepted (1/64 in fixed point).
pub const MIN_INDEX: i64 = 1024;

/// Every channel lies in `[0, ONE]`.
pub open spec fn color_wf(c: Color) -> bool {
    0 <= c.x <= ONE && 0 <= c.y <= ONE && 0 <= c.z <= ONE
}

impl Material {
    pub open spec fn wf(&self) -> bool {
        match *self {
            Material::Lambertian(m) => color_wf(m.albedo),
            Material::Metal(m) => 0 <= m.fuzz < ONE && color_wf(m.albedo),
            Material::Dielectric(d) => MIN_INDEX <= d.refraction_index <= MAX_INDEX,
        }
    }
}

/// The point is in the accepted region and the normal has unit coordinates.
pub open spec fn record_wf(rec: HitRecord) -> bool {
    bounded(rec.p, BOUND as int) && bounded(rec.normal, ONE as int) && rec.mat.wf()
}

pub open spec fn is_zero(v: Vec3) -> bool {
    v.x == 0 && v.y == 0 && v.z == 0
}

/// The fuzz clamped into `[0, ONE)`.
pub open spec fn clamp_fuzz(f: int) -> int {
    if f < 0 { 0 } else if f < ONE { f } else { ONE - 1 }
}

pub open spec fn lambertian_scatter(m: Lambertian, rec: HitRecord, s: ScatterSample) -> Option<(Color, Ray)> {
    let d = add_spec(rec.normal, s.unit);
    let dir = if is_zero(d) { rec.normal } else { d };
    Some((m.albedo, Ray { origin: rec.p, direction: dir }))
}

pub open spec fn metal_direction(m: Metal, r_in: Ray, rec: HitRecord, s: ScatterSample) -> Vec3 {
    add_spec(unit_spec(reflect_spec(r_in.direction, rec.normal)), scale_spec(m.fuzz as int, s.unit))
}

pub open spec fn metal_scatter(m: Metal, r_in: Ray, rec: HitRecord, s: ScatterSample) -> Option<(Color, Ray)> {
    if is_zero(reflect_spec(r_in.direction, rec.normal)) {
        None
    } else {
        let dir = metal_direction(m, r_in, rec, s);
        if dot_spec(dir, rec.normal) > 0 {
            Some((m.albedo, Ray { origin: rec.p, direction: dir }))
        } else {
            None
        }
    }
}

pub open spec fn pow5_spec(x: int) -> int {
    fmul(fmul(fmul(fmul(x, x), x), x), x)
}

/// Schlick's approximation: `r0 + (1 - r0) (1 - cosine)^5` with
/// `r0 = ((1 - ri) / (1 + ri))^2`, in fixed point.
pub open spec fn reflectance_spec(cosine: int, ri: int) -> int {
    let r = ((ONE - ri) * ONE) / (ONE + ri);
    let r0 = fmul(r, r);
    r0 + fmul(ONE - r0, pow5_spec(ONE - cosine))
}

/// `r0` of Schlick's approximation.
pub open spec fn schlick_r0(ri: int) -> int {
    let r = ((ONE - ri) * ONE) / (ONE + ri);
    fmul(r, r)
}

/// The ratio of refraction indices the ray crosses.
pub open spec fn ratio_spec(m: Dielectric, front_face: bool) -> int {
    if front_face { ((ONE * ONE) as int) / (m.refraction_index as int) } else { m.refraction_index as int }
}

/// `min(dot(-u, n), 1)`.
pub open spec fn cos_spec(u: Vec3, n: Vec3) -> int {
    let c = dot_spec(neg_spec(u), n) / (ONE as int);
    if c < ONE { c } else { ONE as int }
}

/// `sqrt(1 - c^2)`, taken as zero where rounding makes `1 - c^2` negative.
pub open spec fn sin_spec(c: int) -> int {
    if ONE * ONE - c * c > 0 { sqrt_floor(ONE * ONE - c * c) } else { 0 }
}

/// Snell's law for unit `u` and unit normal `n`.
pub open spec fn refract_perp(u: Vec3, n: Vec3, eta: int) -> Vec3 {
    scale_spec(eta, add_spec(u, scale_spec(cos_spec(u, n), n)))
}

pub open spec fn refract_spec(u: Vec3, n: Vec3, eta: int) -> Vec3 {
    let perp = refract_perp(u, n, eta);
    let k = ONE * ONE - dot_spec(perp, perp);
    add_spec(perp, scale_spec(-sqrt_floor(abs(k)), n))
}

pub open spec fn dielectric_direction(m: Dielectric, r_in: Ray, rec: HitRecord, draw: int) -> Vec3 {
    let ri = ratio_spec(m, rec.front_face);
    let u = unit_spec(r_in.direction);
    let c = cos_spec(u, rec.normal);
    if ri * sin_spec(c) > ONE * ONE || reflectance_spec(c, ri) > draw {
        reflect_spec(u, rec.normal)
    } else {
        refract_spec(u, rec.normal, ri)
    }
}

pub open spec fn dielectric_scatter(m: Dielectric, r_in: Ray, rec: HitRecord, draw: int) -> Option<(Color, Ray)> {
    Some(
        (
            Color { x: ONE, y: ONE, z: ONE },
            Ray { origin: rec.p, direction: dielectric_direction(m, r_in, rec, draw) },
        ),
    )
}

/// What a material does to `r_in` at `rec`: an attenuation and a scattered
/// ray, or `None` when the ray is absorbed.
pub open spec fn scatter_spec(mat: Material, r_in: Ray, rec: HitRecord, s: ScatterSample) -> Option<(Color, Ray)> {
    match mat {
        Material::Lambertian(m) => lambertian_scatter(m, rec, s),
        Material::Metal(m) => metal_scatter(m, r_in, rec, s),
        Material::Dielectric(m) => dielectric_scatter(m, r_in, rec, s.draw as int),
    }
}

impl Lambertian {
    pub fn new(albedo: Color) -> (r: Lambertian)
        ensures
            r == (Lambertian { albedo }),
    {
        Lambertian { albedo }
    }

    /// Scatter along the normal plus a random unit vector; along the bare
    /// normal where that sum vanishes.
    pub fn scatter(&self, r_in: &Ray, rec: &HitRecord, s: ScatterSample) -> (res: Option<(Color, Ray)>)
        requires
            record_wf(*rec),
            bounded(s.unit, ONE as int),
        ensures
            res == lambertian_scatter(*self, *rec, s),
            res matches Some((_, sc)) ==> sc.wf(),
    {
        let mut dir: Vec3 = vadd(rec.normal, s.unit);
        if dir.near_zero() {
            dir = rec.normal;
        }
        Some((self.albedo, Ray::new(rec.p, dir)))
    }
}

impl Metal {
    /// A metal; the fuzz is clamped into `[0, 1)`: a negative one to zero, one
    /// of one or more to the largest value below one.
    pub fn new(albedo: Color, f: i64) -> (r: Metal)
        ensures
            r == (Metal { albedo, fuzz: clamp_fuzz(f as int) as i64 }),
            0 <= r.fuzz < ONE,
            color_wf(albedo) ==> Material::Metal(r).wf(),
    {
        let fuzz: i64 = if f < 0 {
            0
        } else if f < ONE {
            f
        } else {
            ONE - 1
        };
        Metal { albedo, fuzz }
    }

    /// Mirror reflection, normalized, then perturbed by `fuzz` times a random
    /// unit vector; absorbed unless it leaves the surface.
    pub fn scatter(&self, r_in: &Ray, rec: &HitRecord, s: ScatterSample) -> (res: Option<(Color, Ray)>)
        requires
            Material::Metal(*self).wf(),
            r_in.wf(),
            record_wf(*rec),
            bounded(s.unit, ONE as int),
        ensures
            res == metal_scatter(*self, *r_in, *rec, s),
            res matches Some((_, sc)) ==> sc.wf(),
    {
        let reflected: Vec3 = reflect(r_in.direction, rec.normal);
        if reflected.near_zero() {
            return None;
        }
        let u: Vec3 = unit_vector(reflected);
        proof {
            lemma_fmul_bound(self.fuzz as int, s.unit.x as int, ONE as int, ONE as int, ONE as int);
            lemma_fmul_bound(self.fuzz as int, s.unit.y as int, ONE as int, ONE as int, ONE as int);
            lemma_fmul_bound(self.fuzz as int, s.unit.z as int, ONE as int, ONE as int, ONE as int);
        }
        let dir: Vec3 = vadd(u, scale(self.fuzz, s.unit));
        proof {
            lemma_product_bound(dir.x as int, rec.normal.x as int, 2 * ONE, ONE as int);
            lemma_product_bound(dir.y as int, rec.normal.y as int, 2 * ONE, ONE as int);
            lemma_product_bound(dir.z as int, rec.normal.z as int, 2 * ONE, ONE as int);
        }
        if dot(dir, rec.normal) > 0 {
            Some((self.albedo, Ray::new(rec.p, dir)))
        } else {
            None
        }
    }
}

/// Refract unit `u` through unit normal `n` with index ratio `eta`, where `c`
/// is `cos_spec(u, n)`.
fn refract(u: Vec3, n: Vec3, eta: i64, c: i64) -> (r: Vec3)
    requires
        bounded(u, ONE as int),
        bounded(n, ONE as int),
        0 <= eta <= 0x40_0000,
        c == cos_spec(u, n),
        -3 * ONE <= c <= ONE,
    ensures
        r == refract_spec(u, n, eta as int),
        bounded(r, 0x400_0000),
{
    proof {
        lemma_fmul_bound(c as int, n.x as int, 3 * ONE, ONE as int, 3 * ONE);
        lemma_fmul_bound(c as int, n.y as int, 3 * ONE, ONE as int, 3 * ONE);
        lemma_fmul_bound(c as int, n.z as int, 3 * ONE, ONE as int, 3 * ONE);
    }
    let along: Vec3 = vadd(u, scale(c, n));
    proof {
        lemma_fmul_bound(eta as int, along.x as int, 0x40_0000, 4 * ONE, 0x100_0000);
        lemma_fmul_bound(eta as int, along.y as int, 0x40_0000, 4 * ONE, 0x100_0000);
        lemma_fmul_bound(eta as int, along.z as int, 0x40_0000, 4 * ONE, 0x100_0000);
    }
    let perp: Vec3 = scale(eta, along);
    proof {
        lemma_product_bound(perp.x as int, perp.x as int, 0x100_0000, 0x100_0000);
        lemma_product_bound(perp.y as int, perp.y as int, 0x100_0000, 0x100_0000);
        lemma_product_bound(perp.z as int, perp.z as int, 0x100_0000, 0x100_0000);
        assert(perp.x * perp.x >= 0 && perp.y * perp.y >= 0 && perp.z * perp.z >= 0) by (nonlinear_arith);
        assert(0 <= dot_spec(perp, perp) <= 0x3_0000_0000_0000int);
    }
    let one: i128 = ONE as i128;
    let k: i128 = one * one - dot(perp, perp);
    let ak: i128 = if k < 0 { -k } else { k };
    let sq: u128 = isqrt(ak as u128);
    proof {
        assert(sq * sq <= 0x4_0000_0000_0000int);
        if sq > 0x200_0000 {
            assert(sq * sq > 0x200_0000int * 0x200_0000int) by (nonlinear_arith)
                requires sq > 0x200_0000int;
        }
        lemma_fmul_bound(-(sq as int), n.x as int, 0x200_0000, ONE as int, 0x200_0000);
        lemma_fmul_bound(-(sq as int), n.y as int, 0x200_0000, ONE as int, 0x200_0000);
        lemma_fmul_bound(-(sq as int), n.z as int, 0x200_0000, ONE as int, 0x200_0000);
    }
    let par: Vec3 = scale(-(sq as i64), n);
    vadd(perp, par)
}

impl Dielectric {
    pub fn new(refraction_index: i64) -> (r: Dielectric)
        requires
            MIN_INDEX <= refraction_index <= MAX_INDEX,
        ensures
            r == (Dielectric { refraction_index }),
            Material::Dielectric(r).wf(),
    {
        Dielectric { refraction_index }
    }

    /// Schlick's approximation of the reflectance at a boundary with index
    /// ratio `ri`, for a cosine of incidence `cosine`.
    pub fn reflectance(cosine: i64, ri: i64) -> (r: i64)
        requires
            -3 * ONE <= cosine <= ONE,
            0 <= ri <= 0x1_0000_0000,
        ensures
            r == reflectance_spec(cosine as int, ri as int),
    {
        let one: i128 = ONE as i128;
        let num: i128 = (one - ri as i128) * one;
        let den: i128 = one + ri as i128;
        proof {
            lemma_div_within(num as int, den as int, ONE as int);
        }
        let rr: i64 = div_floor(num, den) as i64;
        proof {
            lemma_fmul_bound(rr as int, rr as int, ONE as int, ONE as int, ONE as int);
        }
        let r0: i64 = fixed_mul(rr, rr);
        let x: i64 = ONE - cosine;
        proof {
            lemma_fmul_bound(x as int, x as int, 4 * ONE, 4 * ONE, 16 * ONE);
        }
        let x2: i64 = fixed_mul(x, x);
        proof {
            lemma_fmul_bound(x2 as int, x as int, 16 * ONE, 4 * ONE, 64 * ONE);
        }
        let x3: i64 = fixed_mul(x2, x);
        proof {
            lemma_fmul_bound(x3 as int, x as int, 64 * ONE, 4 * ONE, 256 * ONE);
        }
        let x4: i64 = fixed_mul(x3, x);
        proof {
            lemma_fmul_bound(x4 as int, x as int, 256 * ONE, 4 * ONE, 1024 * ONE);
        }
        let x5: i64 = fixed_mul(x4, x);
        proof {
            lemma_fmul_bound((ONE - r0) as int, x5 as int, 2 * ONE, 1024 * ONE, 2048 * ONE);
        }
        r0 + fixed_mul(ONE - r0, x5)
    }

    /// Reflect (total internal reflection, or with the probability Schlick's
    /// approximation gives, decided by `draw`) or refract; never absorbs.
    pub fn scatter(&self, r_in: &Ray, rec: &HitRecord, draw: i64) -> (res: Option<(Color, Ray)>)
        requires
            Material::Dielectric(*self).wf(),
            r_in.wf(),
            !is_zero(r_in.direction),
            record_wf(*rec),
        ensures
            res == dielectric_scatter(*self, *r_in, *rec, draw as int),
            res matches Some((_, sc)) ==> sc.wf(),
    {
        let one: i64 = ONE;
        let ri: i64 = if rec.front_face {
            proof {
                lemma_div_within((ONE * ONE) as int, self.refraction_index as int, 0x40_0000);
            }
            (div_floor((one as i128) * (one as i128), self.refraction_index as i128)) as i64
        } else {
            self.refraction_index
        };
        proof {
            if rec.front_face {
                vstd::arithmetic::div_mod::lemma_div_pos_is_pos((ONE * ONE) as int, self.refraction_index as int);
            }
        }
        let u: Vec3 = unit_vector(r_in.direction);
        let nu: Vec3 = vneg(u);
        proof {
            lemma_product_bound(nu.x as int, rec.normal.x as int, ONE as int, ONE as int);
            lemma_product_bound(nu.y as int, rec.normal.y as int, ONE as int, ONE as int);
            lemma_product_bound(nu.z as int, rec.normal.z as int, ONE as int, ONE as int);
            lemma_div_within(dot_spec(nu, rec.normal), ONE as int, 3 * ONE);
        }
        let cq: i64 = div_floor(dot(nu, rec.normal), one as i128) as i64;
        let c: i64 = if cq < one { cq } else { one };
        proof {
            lemma_product_bound(c as int, c as int, 3 * ONE, 3 * ONE);
            assert(c * c >= 0) by (nonlinear_arith);
        }
        let k: i128 = (one as i128) * (one as i128) - (c as i128) * (c as i128);
        let sin: i128 = if k > 0 {
            isqrt(k as u128) as i128
        } else {
            0
        };
        proof {
            if k > 0 {
                assert(sin * sin <= ONE * ONE);
                if sin > ONE {
                    lemma_product_bound(ONE as int, ONE as int, sin as int, sin as int);
                    assert(sin * sin > ONE * ONE) by (nonlinear_arith)
                        requires sin > ONE;
                }
            }
            lemma_product_bound(ri as int, sin as int, 0x40_0000, ONE as int);
        }
        let cannot_refract: bool = (ri as i128) * sin > (one as i128) * (one as i128);
        let direction: Vec3 = if cannot_refract || Dielectric::reflectance(c, ri) > draw {
            let refl: Vec3 = reflect(u, rec.normal);
            assert(bounded(refl, 7 * ONE));
            refl
        } else {
            refract(u, rec.normal, ri, c)
        };
        Some((Vec3::new(one, one, one), Ray::new(rec.p, direction)))
    }
}

impl Material {
    /// Dispatch to the variant's scattering rule.
    pub fn scatter(&self, r_in: &Ray, rec: &HitRecord, s: ScatterSample) -> (res: Option<(Color, Ray)>)
        requires
            self.wf(),
            r_in.wf(),
            !is_zero(r_in.direction),
            record_wf(*rec),
            bounded(s.unit, ONE as int),
        ensures
            res == scatter_spec(*self, *r_in, *rec, s),
            res matches Some((att, sc)) ==> sc.wf() && color_wf(att),
    {
        match self {
            Material::Lambertian(m) => m.scatter(r_in, rec, s),
            Material::Metal(m) => m.scatter(r_in, rec, s),
            Material::Dielectric(m) => m.scatter(r_in, rec, s.draw),
        }
    }
}

/// Schlick's approximation gives `r0` at normal incidence and one at grazing
/// incidence.
pub proof fn lemma_reflectance_ends(ri: int)
    ensures
        reflectance_spec(ONE as int, ri) == schlick_r0(ri),
        reflectance_spec(0, ri) == ONE,
{
    assert(fmul(0, 0) == 0);
    assert(fmul(ONE as int, ONE as int) == ONE) by {
        vstd::arithmetic::div_mod::lemma_div_by_multiple(ONE as int, ONE as int);
    }
    let r0 = schlick_r0(ri);
    assert(fmul(ONE - r0, 0) == 0);
    assert(fmul(ONE - r0, ONE as int) == ONE - r0) by {
        assert((ONE - r0) * ONE == (ONE as int) * (ONE - r0));
        vstd::arithmetic::div_mod::lemma_div_multiples_vanish(ONE - r0, ONE as int);
    }
}

/// A metal without fuzz reflects exactly: the scattered direction is the
/// normalized mirror reflection, with no randomness applied.
pub proof fn lemma_metal_without_fuzz(m: Metal, r_in: Ray, rec: HitRecord, s: ScatterSample)
    requires
        m.fuzz == 0,
        r_in.wf(),
        bounded(rec.normal, ONE as int),
    ensures
        metal_scatter(m, r_in, rec, s) matches Some((_, scattered)) ==> scattered.direction
            == unit_spec(reflect_spec(r_in.direction, rec.normal)),
{
    let refl = reflect_spec(r_in.direction, rec.normal);
    assert(fmul(0, s.unit.x as int) == 0);
    assert(fmul(0, s.unit.y as int) == 0);
    assert(fmul(0, s.unit.z as int) == 0);
    if !is_zero(refl) {
        crate::vec3::lemma_reflect_bounds(r_in.direction, rec.normal, BOUND as int);
        crate::vec3::lemma_unit_bounds(refl);
    }
}

} // verus!
