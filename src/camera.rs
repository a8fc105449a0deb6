use vstd::prelude::*;
use crate::hittable_list::{list_hit, HittableList};
use crate::material::{color_wf, is_zero, scatter_spec, ScatterSample};
use crate::ray::{Interval, Ray};
use crate::vec3::{
    abs, add_spec, bounded, cross, cross_fixed, div_floor, div_vec, div_vec_spec, fixed_mul, fmul,
    lemma_div_within, lemma_fmul_bound, lemma_product_bound, mul_spec, neg_spec, scale, scale_spec,
    sub_spec, unit_spec, unit_vector, vadd, vmul, vneg, vsub, vec_of, Color, Point3, Vec3, BOUND,
    ONE,
};

verus! {

/// Lower end of the parameter range searched for hits, keeping a scattered
/// ray from striking the surface it leaves.
pub const T_MIN: i64 = 66;

/// Sky color at the bottom of the background gradient (white is at the top).
pub const SKY_R: i64 = 32768;

pub const SKY_G: i64 = 45875;

pub const SKY_B: i64 = 65536;

pub open spec fn trace_interval() -> Interval {
    Interval { min: T_MIN, max: i64::MAX }
}

pub open spec fn black() -> Color {
    Color { x: 0, y: 0, z: 0 }
}

/// The blend parameter `a = (unit_direction.y + 1) / 2`; a ray without a
/// direction sees the horizon, `a = 1/2`.
pub open spec fn blend_param(d: Vec3) -> int {
    if is_zero(d) { (ONE / 2) as int } else { (unit_spec(d).y + ONE) / 2 }
}

/// `(1 - a) * 1 + a * c`.
pub open spec fn blend(a: int, c: int) -> int {
    (ONE - a) + fmul(a, c)
}

pub open spec fn sky_for(a: int) -> Color {
    vec_of(blend(a, SKY_R as int), blend(a, SKY_G as int), blend(a, SKY_B as int))
}

/// The color seen along `d` when nothing is struck.
pub open spec fn background_spec(d: Vec3) -> Color {
    sky_for(blend_param(d))
}

/// The path-traced color along `r` with `depth` bounces left; bounce
/// `depth` draws its randomness from `samples[depth - 1]`.
pub open spec fn ray_color_spec(objs: Seq<crate::sphere::Sphere>, r: Ray, depth: int, samples: Seq<ScatterSample>) -> Color
    decreases depth,
{
    if depth <= 0 {
        black()
    } else {
        match list_hit(objs, r, trace_interval()) {
            Some(rec) => match scatter_spec(rec.mat, r, rec, samples[depth - 1]) {
                Some((att, scattered)) => mul_spec(
                    att,
                    ray_color_spec(objs, scattered, depth - 1, samples),
                ),
                None => black(),
            },
            None => background_spec(r.direction),
        }
    }
}

pub proof fn lemma_unit_product(a: int, b: int)
    requires
        0 <= a <= ONE,
        0 <= b <= ONE,
    ensures
        0 <= fmul(a, b) <= ONE,
{
    assert(0 <= a * b <= ONE * ONE) by (nonlinear_arith)
        requires
            0 <= a <= ONE,
            0 <= b <= ONE,
    ;
    lemma_div_within(a * b, ONE as int, ONE as int);
    vstd::arithmetic::div_mod::lemma_div_pos_is_pos(a * b, ONE as int);
}

pub proof fn lemma_blend_range(a: int, c: int)
    requires
        0 <= a <= ONE,
        0 <= c <= ONE,
    ensures
        0 <= blend(a, c) <= ONE,
{
    lemma_unit_product(a, c);
    assert(fmul(a, c) <= a) by {
        assert(a * c <= a * ONE) by (nonlinear_arith)
            requires
                0 <= a,
                c <= ONE,
        ;
        vstd::arithmetic::div_mod::lemma_div_is_ordered(a * c, a * ONE, ONE as int);
        vstd::arithmetic::div_mod::lemma_div_by_multiple(a, ONE as int);
    }
}

/// The background gradient for a ray that escapes the scene.
pub fn background(d: Vec3) -> (c: Color)
    requires
        bounded(d, BOUND as int),
    ensures
        c == background_spec(d),
        color_wf(c),
{
    let a: i64 = if d.near_zero() {
        ONE / 2
    } else {
        let u: Vec3 = unit_vector(d);
        (div_floor((u.y + ONE) as i128, 2)) as i64
    };
    proof {
        lemma_blend_range(a as int, SKY_R as int);
        lemma_blend_range(a as int, SKY_G as int);
        lemma_blend_range(a as int, SKY_B as int);
    }
    Vec3::new(
        (ONE - a) + fixed_mul(a, SKY_R),
        (ONE - a) + fixed_mul(a, SKY_G),
        (ONE - a) + fixed_mul(a, SKY_B),
    )
}

/// Per-coordinate `base + s * a + t * b` in fixed point.
pub open spec fn lerp2(base: i64, a: i64, b: i64, s: int, t: int) -> int {
    base + fmul(s, a as int) + fmul(t, b as int)
}

fn lerp2_exec(base: i64, a: i64, b: i64, s: i64, t: i64) -> (r: i128)
    requires
        abs(base as int) <= BOUND,
        abs(a as int) <= BOUND,
        abs(b as int) <= BOUND,
        abs(s as int) <= 0x100_0000_0000,
        abs(t as int) <= 0x100_0000_0000,
    ensures
        r == lerp2(base, a, b, s as int, t as int),
        abs(r as int) <= 0x100_0000_0000_0000,
{
    proof {
        lemma_product_bound(s as int, a as int, 0x100_0000_0000, BOUND as int);
        lemma_product_bound(t as int, b as int, 0x100_0000_0000, BOUND as int);
        lemma_div_within(s * a, ONE as int, 0x100_0000_0000 * BOUND);
        lemma_div_within(t * b, ONE as int, 0x100_0000_0000 * BOUND);
    }
    let one: i128 = ONE as i128;
    (base as i128) + div_floor((s as i128) * (a as i128), one) + div_floor((t as i128) * (b as i128), one)
}

/// The viewing geometry, fixed at construction.
pub struct Camera {
    pub aspect_w: i64,
    pub aspect_h: i64,
    pub image_width: i64,
    pub image_height: i64,
    pub samples_per_pixel: i64,
    pub max_depth: i64,
    pub view_tan: i64,
    pub lookfrom: Point3,
    pub lookat: Point3,
    pub vup: Vec3,
    pub defocus_angle: i64,
    pub defocus_tan: i64,
    pub focus_dist: i64,
    pub pixel_samples_scale: i64,
    pub center: Point3,
    pub pixel00_loc: Point3,
    pub pixel_delta_u: Vec3,
    pub pixel_delta_v: Vec3,
    pub u: Vec3,
    pub v: Vec3,
    pub w: Vec3,
    pub defocus_disk_u: Vec3,
    pub defocus_disk_v: Vec3,
}

pub open spec fn in_bound(x: int) -> bool {
    abs(x) <= BOUND
}

/// The camera ray through pixel `(i, j)` jittered by `offset` (its `x`
/// and `y` in `[-ONE/2, ONE/2]`), leaving from the lens point `disk` (a
/// point of the unit disk) when the camera has a defocus angle; `None`
/// where the ray leaves the region the arithmetic accepts.
pub open spec fn get_ray_spec(cam: Camera, i: int, j: int, offset: Vec3, disk: Vec3) -> Option<Ray> {
    let si = i * ONE + offset.x;
    let sj = j * ONE + offset.y;
    let (dx, dy) = if cam.defocus_angle <= 0 { (0int, 0int) } else { (disk.x as int, disk.y as int) };
    let px = lerp2(cam.pixel00_loc.x, cam.pixel_delta_u.x, cam.pixel_delta_v.x, si, sj);
    let py = lerp2(cam.pixel00_loc.y, cam.pixel_delta_u.y, cam.pixel_delta_v.y, si, sj);
    let pz = lerp2(cam.pixel00_loc.z, cam.pixel_delta_u.z, cam.pixel_delta_v.z, si, sj);
    let ox = lerp2(cam.center.x, cam.defocus_disk_u.x, cam.defocus_disk_v.x, dx, dy);
    let oy = lerp2(cam.center.y, cam.defocus_disk_u.y, cam.defocus_disk_v.y, dx, dy);
    let oz = lerp2(cam.center.z, cam.defocus_disk_u.z, cam.defocus_disk_v.z, dx, dy);
    if in_bound(ox) && in_bound(oy) && in_bound(oz) && in_bound(px - ox) && in_bound(py - oy)
        && in_bound(pz - oz) {
        Some(Ray { origin: vec_of(ox, oy, oz), direction: vec_of(px - ox, py - oy, pz - oz) })
    } else {
        None
    }
}

/// Per-channel sums of a sequence of colors.
pub open spec fn sum_x(s: Seq<Color>) -> int
    decreases s.len(),
{
    if s.len() == 0 { 0 } else { sum_x(s.drop_last()) + s.last().x }
}

pub open spec fn sum_y(s: Seq<Color>) -> int
    decreases s.len(),
{
    if s.len() == 0 { 0 } else { sum_y(s.drop_last()) + s.last().y }
}

pub open spec fn sum_z(s: Seq<Color>) -> int
    decreases s.len(),
{
    if s.len() == 0 { 0 } else { sum_z(s.drop_last()) + s.last().z }
}

/// The average of the sample colors, per channel, rounded down.
pub open spec fn average_spec(s: Seq<Color>) -> Color {
    vec_of(sum_x(s) / (s.len() as int), sum_y(s) / (s.len() as int), sum_z(s) / (s.len() as int))
}

impl Camera {
    /// Positions and steps lie in the region the arithmetic accepts.
    pub open spec fn wf(&self) -> bool {
        bounded(self.center, BOUND as int) && bounded(self.pixel00_loc, BOUND as int)
            && bounded(self.pixel_delta_u, BOUND as int) && bounded(self.pixel_delta_v, BOUND as int)
            && bounded(self.defocus_disk_u, BOUND as int) && bounded(self.defocus_disk_v, BOUND as int)
    }

    /// A jittered, lens-sampled ray through pixel `(i, j)`.
    pub fn get_ray(&self, i: i64, j: i64, offset: Vec3, disk: Vec3) -> (r: Option<Ray>)
        requires
            self.wf(),
            0 <= i <= 0x10_0000,
            0 <= j <= 0x10_0000,
            bounded(offset, ONE as int),
            bounded(disk, ONE as int),
        ensures
            r == get_ray_spec(*self, i as int, j as int, offset, disk),
            r matches Some(ray) ==> ray.wf(),
    {
        let si: i64 = i * ONE + offset.x;
        let sj: i64 = j * ONE + offset.y;
        let (dx, dy): (i64, i64) = if self.defocus_angle <= 0 {
            (0, 0)
        } else {
            (disk.x, disk.y)
        };
        let c: Point3 = self.center;
        let p0: Point3 = self.pixel00_loc;
        let du: Vec3 = self.pixel_delta_u;
        let dv: Vec3 = self.pixel_delta_v;
        let lu: Vec3 = self.defocus_disk_u;
        let lv: Vec3 = self.defocus_disk_v;
        let px: i128 = lerp2_exec(p0.x, du.x, dv.x, si, sj);
        let py: i128 = lerp2_exec(p0.y, du.y, dv.y, si, sj);
        let pz: i128 = lerp2_exec(p0.z, du.z, dv.z, si, sj);
        let ox: i128 = lerp2_exec(c.x, lu.x, lv.x, dx, dy);
        let oy: i128 = lerp2_exec(c.y, lu.y, lv.y, dx, dy);
        let oz: i128 = lerp2_exec(c.z, lu.z, lv.z, dx, dy);
        let lim: i128 = BOUND as i128;
        if -lim <= ox && ox <= lim && -lim <= oy && oy <= lim && -lim <= oz && oz <= lim
            && -lim <= px - ox && px - ox <= lim && -lim <= py - oy && py - oy <= lim
            && -lim <= pz - oz && pz - oz <= lim {
            Some(
                Ray::new(
                    Vec3::new(ox as i64, oy as i64, oz as i64),
                    Vec3::new((px - ox) as i64, (py - oy) as i64, (pz - oz) as i64),
                ),
            )
        } else {
            None
        }
    }

    /// The color one sample brings to pixel `(i, j)`: the traced color of
    /// the camera ray, black where that ray leaves the accepted region.
    pub fn sample_color(
        &self,
        i: i64,
        j: i64,
        offset: Vec3,
        disk: Vec3,
        world: &HittableList,
        samples: &Vec<ScatterSample>,
    ) -> (c: Color)
        requires
            self.wf(),
            world.wf(),
            0 <= i <= 0x10_0000,
            0 <= j <= 0x10_0000,
            bounded(offset, ONE as int),
            bounded(disk, ONE as int),
            self.max_depth <= samples@.len(),
            forall|k: int| 0 <= k < samples@.len() ==> bounded(#[trigger] samples@[k].unit, ONE as int),
        ensures
            c == (match get_ray_spec(*self, i as int, j as int, offset, disk) {
                Some(r) => ray_color_spec(world.objects@, r, self.max_depth as int, samples@),
                None => black(),
            }),
            color_wf(c),
    {
        match self.get_ray(i, j, offset, disk) {
            Some(ray) => self.ray_color(&ray, self.max_depth, world, samples),
            None => Vec3::new(0, 0, 0),
        }
    }

    /// The recursive integrator: black once the bounce budget is spent,
    /// the background on a miss, else the attenuation times the color
    /// along the scattered ray.
    pub fn ray_color(&self, r: &Ray, depth: i64, world: &HittableList, samples: &Vec<ScatterSample>) -> (c: Color)
        requires
            world.wf(),
            r.wf(),
            depth <= samples@.len(),
            forall|k: int| 0 <= k < samples@.len() ==> bounded(#[trigger] samples@[k].unit, ONE as int),
        ensures
            c == ray_color_spec(world.objects@, *r, depth as int, samples@),
            color_wf(c),
        decreases depth,
    {
        if depth <= 0 {
            return Vec3::new(0, 0, 0);
        }
        let found: Option<crate::hittable::HitRecord> = world.hit(r, Interval::new(T_MIN, i64::MAX));
        assert(found == list_hit(world.objects@, *r, trace_interval()));
        match found {
            Some(rec) => {
                let n: usize = samples.len();
                assert(depth - 1 < n);
                let idx: usize = (depth - 1) as usize;
                let smp: ScatterSample = samples[idx];
                assert(smp == samples@[depth - 1]);
                match rec.mat.scatter(r, &rec, smp) {
                    Some((attenuation, scattered)) => {
                        let next: Color = self.ray_color(&scattered, depth - 1, world, samples);
                        proof {
                            lemma_unit_product(attenuation.x as int, next.x as int);
                            lemma_unit_product(attenuation.y as int, next.y as int);
                            lemma_unit_product(attenuation.z as int, next.z as int);
                        }
                        vmul(attenuation, next)
                    },
                    None => Vec3::new(0, 0, 0),
                }
            },
            None => background(r.direction),
        }
    }
}

/// The geometry derived from a configuration: image height from the width
/// and the aspect ratio `aspect_w : aspect_h` (at least one row), viewport
/// `2 tan(vfov/2) focus_dist` high, the orthonormal frame `u, v, w`, the
/// per-pixel steps, the center of pixel `(0, 0)`, the per-sample scale
/// `1 / samples_per_pixel`, and the defocus disk of
/// radius `focus_dist tan(defocus_angle/2)`. `view_tan` and `defocus_tan`
/// are those two tangents in fixed point.
pub open spec fn camera_geometry(
    aspect_w: int,
    aspect_h: int,
    image_width: i64,
    samples_per_pixel: i64,
    max_depth: i64,
    view_tan: int,
    lookfrom: Point3,
    lookat: Point3,
    vup: Vec3,
    defocus_angle: i64,
    defocus_tan: int,
    focus_dist: int,
) -> Camera {
    let h0 = (image_width * aspect_h) / aspect_w;
    let image_height = if h0 < 1 { 1 } else { h0 };
    let vh = 2 * fmul(view_tan, focus_dist);
    let vw = (vh * image_width) / image_height;
    let w = unit_spec(sub_spec(lookfrom, lookat));
    let u = unit_spec(cross_fixed(vup, w));
    let v = cross_fixed(w, u);
    let vu = scale_spec(vw, u);
    let vv = scale_spec(vh, neg_spec(v));
    let du = div_vec_spec(vu, image_width as int);
    let dv = div_vec_spec(vv, image_height);
    let ul = sub_spec(
        sub_spec(sub_spec(lookfrom, scale_spec(focus_dist, w)), div_vec_spec(vu, 2)),
        div_vec_spec(vv, 2),
    );
    let radius = fmul(focus_dist, defocus_tan);
    Camera {
        aspect_w: aspect_w as i64,
        aspect_h: aspect_h as i64,
        image_width,
        image_height: image_height as i64,
        samples_per_pixel,
        max_depth,
        view_tan: view_tan as i64,
        lookfrom,
        lookat,
        vup,
        defocus_angle,
        defocus_tan: defocus_tan as i64,
        focus_dist: focus_dist as i64,
        pixel_samples_scale: ((ONE as int) / (samples_per_pixel as int)) as i64,
        center: lookfrom,
        pixel00_loc: add_spec(ul, div_vec_spec(add_spec(du, dv), 2)),
        pixel_delta_u: du,
        pixel_delta_v: dv,
        u,
        v,
        w,
        defocus_disk_u: scale_spec(radius, u),
        defocus_disk_v: scale_spec(radius, v),
    }
}

/// The camera for a configuration; `None` where the view direction is
/// zero, `vup` is parallel to it, or the derived geometry leaves the region
/// the arithmetic accepts.
pub open spec fn camera_spec(
    aspect_w: int,
    aspect_h: int,
    image_width: i64,
    samples_per_pixel: i64,
    max_depth: i64,
    view_tan: int,
    lookfrom: Point3,
    lookat: Point3,
    vup: Vec3,
    defocus_angle: i64,
    defocus_tan: int,
    focus_dist: int,
) -> Option<Camera> {
    if lookfrom == lookat || is_zero(cross_fixed(vup, unit_spec(sub_spec(lookfrom, lookat)))) {
        None
    } else {
        let c = camera_geometry(
            aspect_w,
            aspect_h,
            image_width,
            samples_per_pixel,
            max_depth,
            view_tan,
            lookfrom,
            lookat,
            vup,
            defocus_angle,
            defocus_tan,
            focus_dist,
        );
        if c.wf() {
            Some(c)
        } else {
            None
        }
    }
}

fn in_region(v: Vec3) -> (r: bool)
    ensures
        r == bounded(v, BOUND as int),
{
    -BOUND <= v.x && v.x <= BOUND && -BOUND <= v.y && v.y <= BOUND && -BOUND <= v.z && v.z <= BOUND
}

/// Image height (at least one row), viewport height and viewport width.
fn viewport_size(aspect_w: i64, aspect_h: i64, image_width: i64, view_tan: i64, focus_dist: i64) -> (r: (
    i64,
    i64,
    i64,
))
    requires
        1 <= aspect_w <= 0x1_0000,
        1 <= aspect_h <= 0x1_0000,
        1 <= image_width <= 0x1_0000,
        0 <= view_tan <= 0x10_0000,
        1 <= focus_dist <= 0x1000_0000,
    ensures
        r.0 == (if (image_width * aspect_h) / (aspect_w as int) < 1 {
            1
        } else {
            (image_width * aspect_h) / (aspect_w as int)
        }),
        r.1 == 2 * fmul(view_tan as int, focus_dist as int),
        r.2 == (r.1 * image_width) / (r.0 as int),
        r.0 >= 1,
        abs(r.1 as int) <= 0x2_0000_0000,
        abs(r.2 as int) <= 0x2_0000_0000_0000,
{
    // Calculate the image height, and ensure that it's at least 1.
    proof {
        lemma_product_bound(image_width as int, aspect_h as int, 0x1_0000, 0x1_0000);
        lemma_div_within(image_width * aspect_h, aspect_w as int, 0x1_0000_0000);
    }
    let h0: i64 = (div_floor((image_width as i128) * (aspect_h as i128), aspect_w as i128)) as i64;
    let image_height: i64 = if h0 < 1 {
        1
    } else {
        h0
    };
    proof {
        lemma_fmul_bound(view_tan as int, focus_dist as int, 0x10_0000, 0x1000_0000, 0x1_0000_0000);
    }
    let viewport_height: i64 = 2 * fixed_mul(view_tan, focus_dist);
    proof {
        lemma_product_bound(viewport_height as int, image_width as int, 0x2_0000_0000, 0x1_0000);
        assert(image_height * 0x2_0000_0000_0000int >= 0x2_0000_0000_0000int) by (nonlinear_arith)
            requires
                image_height >= 1,
        ;
        lemma_div_within(viewport_height * image_width, image_height as int, 0x2_0000_0000_0000);
    }
    let viewport_width: i64 = (div_floor(
        (viewport_height as i128) * (image_width as i128),
        image_height as i128,
    )) as i64;
    (image_height, viewport_height, viewport_width)
}

/// The camera frame `(w, u, v)`: `w` from the target back to the eye, `u`
/// to the right, `v` up; `None` where the frame is degenerate.
fn camera_basis(lookfrom: Point3, lookat: Point3, vup: Vec3) -> (r: Option<(Vec3, Vec3, Vec3)>)
    requires
        bounded(lookfrom, 0x800_0000),
        bounded(lookat, 0x800_0000),
        bounded(vup, 0x1000_0000),
    ensures
        r is None <==> (lookfrom == lookat || is_zero(
            cross_fixed(vup, unit_spec(sub_spec(lookfrom, lookat))),
        )),
        r matches Some((w, u, v)) ==> w == unit_spec(sub_spec(lookfrom, lookat)) && u == unit_spec(
            cross_fixed(vup, w),
        ) && v == cross_fixed(w, u) && bounded(w, ONE as int) && bounded(u, ONE as int) && bounded(
            v,
            2 * ONE,
        ),
{
    let view: Vec3 = vsub(lookfrom, lookat);
    if view.near_zero() {
        return None;
    }
    let w: Vec3 = unit_vector(view);
    let side: Vec3 = cross(vup, w);
    if side.near_zero() {
        return None;
    }
    let u: Vec3 = unit_vector(side);
    let v: Vec3 = cross(w, u);
    Some((w, u, v))
}

impl Camera {
    /// Derive the viewing geometry once from the configuration.
    #[verifier::rlimit(100)]
    #[verifier::spinoff_prover]
    pub fn new(
        aspect_w: i64,
        aspect_h: i64,
        image_width: i64,
        samples_per_pixel: i64,
        max_depth: i64,
        view_tan: i64,
        lookfrom: Point3,
        lookat: Point3,
        vup: Vec3,
        defocus_angle: i64,
        defocus_tan: i64,
        focus_dist: i64,
    ) -> (r: Option<Camera>)
        requires
            1 <= aspect_w <= 0x1_0000,
            1 <= aspect_h <= 0x1_0000,
            1 <= image_width <= 0x1_0000,
            samples_per_pixel >= 1,
            0 <= view_tan <= 0x10_0000,
            0 <= defocus_tan <= 0x10_0000,
            1 <= focus_dist <= 0x1000_0000,
            bounded(lookfrom, 0x800_0000),
            bounded(lookat, 0x800_0000),
            bounded(vup, 0x1000_0000),
        ensures
            r == camera_spec(
                aspect_w as int,
                aspect_h as int,
                image_width,
                samples_per_pixel,
                max_depth,
                view_tan as int,
                lookfrom,
                lookat,
                vup,
                defocus_angle,
                defocus_tan as int,
                focus_dist as int,
            ),
            r matches Some(c) ==> c.wf(),
    {
        let (image_height, viewport_height, viewport_width) = viewport_size(
            aspect_w,
            aspect_h,
            image_width,
            view_tan,
            focus_dist,
        );
        let (w, u, v) = match camera_basis(lookfrom, lookat, vup) {
            Some(basis) => basis,
            None => {
                return None;
            },
        };

        // The vectors across the viewport edges and from pixel to pixel.
        proof {
            lemma_fmul_bound(viewport_width as int, u.x as int, 0x2_0000_0000_0000, ONE as int, 0x2_0000_0000_0000);
            lemma_fmul_bound(viewport_width as int, u.y as int, 0x2_0000_0000_0000, ONE as int, 0x2_0000_0000_0000);
            lemma_fmul_bound(viewport_width as int, u.z as int, 0x2_0000_0000_0000, ONE as int, 0x2_0000_0000_0000);
        }
        let viewport_u: Vec3 = scale(viewport_width, u);
        let nv: Vec3 = vneg(v);
        proof {
            lemma_fmul_bound(viewport_height as int, nv.x as int, 0x2_0000_0000, 2 * ONE, 0x4_0000_0000);
            lemma_fmul_bound(viewport_height as int, nv.y as int, 0x2_0000_0000, 2 * ONE, 0x4_0000_0000);
            lemma_fmul_bound(viewport_height as int, nv.z as int, 0x2_0000_0000, 2 * ONE, 0x4_0000_0000);
        }
        let viewport_v: Vec3 = scale(viewport_height, nv);
        assert(bounded(viewport_u, 0x2_0000_0000_0000));
        assert(bounded(viewport_v, 0x4_0000_0000));
        let pixel_delta_u: Vec3 = div_vec(viewport_u, image_width);
        let pixel_delta_v: Vec3 = div_vec(viewport_v, image_height);
        assert(bounded(pixel_delta_u, 0x2_0000_0000_0000));
        assert(bounded(pixel_delta_v, 0x4_0000_0000));

        // Calculate the location of the upper left pixel.
        proof {
            lemma_fmul_bound(focus_dist as int, w.x as int, 0x1000_0000, ONE as int, 0x1000_0000);
            lemma_fmul_bound(focus_dist as int, w.y as int, 0x1000_0000, ONE as int, 0x1000_0000);
            lemma_fmul_bound(focus_dist as int, w.z as int, 0x1000_0000, ONE as int, 0x1000_0000);
        }
        let half_u: Vec3 = div_vec(viewport_u, 2);
        let half_v: Vec3 = div_vec(viewport_v, 2);
        assert(bounded(half_u, 0x2_0000_0000_0000));
        assert(bounded(half_v, 0x4_0000_0000));
        let fw: Vec3 = scale(focus_dist, w);
        assert(bounded(fw, 0x1000_0000));
        let upper_left: Vec3 = vsub(vsub(vsub(lookfrom, fw), half_u), half_v);
        let steps: Vec3 = vadd(pixel_delta_u, pixel_delta_v);
        assert(bounded(steps, 0x4_0000_0000_0000));
        let half_step: Vec3 = div_vec(steps, 2);
        assert(bounded(half_step, 0x4_0000_0000_0000));
        let pixel00_loc: Point3 = vadd(upper_left, half_step);

        // Calculate the camera defocus disk basis vectors.
        proof {
            lemma_fmul_bound(focus_dist as int, defocus_tan as int, 0x1000_0000, 0x10_0000, 0x1_0000_0000);
        }
        let defocus_radius: i64 = fixed_mul(focus_dist, defocus_tan);
        proof {
            lemma_fmul_bound(defocus_radius as int, u.x as int, 0x1_0000_0000, ONE as int, 0x1_0000_0000);
            lemma_fmul_bound(defocus_radius as int, u.y as int, 0x1_0000_0000, ONE as int, 0x1_0000_0000);
            lemma_fmul_bound(defocus_radius as int, u.z as int, 0x1_0000_0000, ONE as int, 0x1_0000_0000);
            lemma_fmul_bound(defocus_radius as int, v.x as int, 0x1_0000_0000, 2 * ONE, 0x2_0000_0000);
            lemma_fmul_bound(defocus_radius as int, v.y as int, 0x1_0000_0000, 2 * ONE, 0x2_0000_0000);
            lemma_fmul_bound(defocus_radius as int, v.z as int, 0x1_0000_0000, 2 * ONE, 0x2_0000_0000);
        }
        let defocus_disk_u: Vec3 = scale(defocus_radius, u);
        let defocus_disk_v: Vec3 = scale(defocus_radius, v);

        let cam = Camera {
            aspect_w,
            aspect_h,
            image_width,
            image_height,
            samples_per_pixel,
            max_depth,
            view_tan,
            lookfrom,
            lookat,
            vup,
            defocus_angle,
            defocus_tan,
            focus_dist,
            pixel_samples_scale: ONE / samples_per_pixel,
            center: lookfrom,
            pixel00_loc,
            pixel_delta_u,
            pixel_delta_v,
            u,
            v,
            w,
            defocus_disk_u,
            defocus_disk_v,
        };
        if in_region(cam.center) && in_region(cam.pixel00_loc) && in_region(cam.pixel_delta_u)
            && in_region(cam.pixel_delta_v) && in_region(cam.defocus_disk_u) && in_region(
            cam.defocus_disk_v,
        ) {
            Some(cam)
        } else {
            None
        }
    }
}

/// Average the colors of a pixel's samples.
pub fn average_samples(colors: &Vec<Color>) -> (c: Color)
    requires
        1 <= colors@.len() <= 0x1_0000_0000,
        forall|k: int| 0 <= k < colors@.len() ==> color_wf(#[trigger] colors@[k]),
    ensures
        c == average_spec(colors@),
        color_wf(c),
{
    let n: usize = colors.len();
    let mut sx: i64 = 0;
    let mut sy: i64 = 0;
    let mut sz: i64 = 0;
    let mut i: usize = 0;
    while i < n
        invariant
            n == colors@.len(),
            n <= 0x1_0000_0000,
            0 <= i <= n,
            forall|k: int| 0 <= k < colors@.len() ==> color_wf(#[trigger] colors@[k]),
            sx == sum_x(colors@.take(i as int)),
            sy == sum_y(colors@.take(i as int)),
            sz == sum_z(colors@.take(i as int)),
            0 <= sx <= i * ONE,
            0 <= sy <= i * ONE,
            0 <= sz <= i * ONE,
        decreases n - i,
    {
        let ghost pre = colors@.take(i as int + 1);
        assert(pre.drop_last() == colors@.take(i as int));
        assert(pre.last() == colors@[i as int]);
        let col: Color = colors[i];
        assert(color_wf(col));
        sx = sx + col.x;
        sy = sy + col.y;
        sz = sz + col.z;
        i = i + 1;
    }
    assert(colors@.take(n as int) == colors@);
    proof {
        lemma_div_within(sx as int, n as int, ONE as int);
        lemma_div_within(sy as int, n as int, ONE as int);
        lemma_div_within(sz as int, n as int, ONE as int);
        vstd::arithmetic::div_mod::lemma_div_pos_is_pos(sx as int, n as int);
        vstd::arithmetic::div_mod::lemma_div_pos_is_pos(sy as int, n as int);
        vstd::arithmetic::div_mod::lemma_div_pos_is_pos(sz as int, n as int);
    }
    let nn: i128 = n as i128;
    Vec3::new(
        div_floor(sx as i128, nn) as i64,
        div_floor(sy as i128, nn) as i64,
        div_floor(sz as i128, nn) as i64,
    )
}

/// With no bounces left the integrator returns black, whatever the scene
/// and the ray.
pub proof fn lemma_depth_exhausted(objs: Seq<crate::sphere::Sphere>, r: Ray, samples: Seq<ScatterSample>)
    ensures
        ray_color_spec(objs, r, 0, samples) == black(),
{
}

/// The background is white at `a = 0`, the sky color at `a = 1`, and in
/// between each channel lies between the two.
pub proof fn lemma_background_blend(a: int)
    requires
        0 <= a <= ONE,
    ensures
        sky_for(0) == (Color { x: ONE, y: ONE, z: ONE }),
        sky_for(ONE as int) == (Color { x: SKY_R, y: SKY_G, z: SKY_B }),
        SKY_R <= sky_for(a).x <= ONE,
        SKY_G <= sky_for(a).y <= ONE,
        SKY_B <= sky_for(a).z <= ONE,
        0 < a ==> sky_for(a).x < ONE && sky_for(a).y < ONE,
        a < ONE - 3 ==> sky_for(a).x > SKY_R && sky_for(a).y > SKY_G,
{
    assert(fmul(0, SKY_R as int) == 0);
    assert(fmul(0, SKY_G as int) == 0);
    assert(fmul(0, SKY_B as int) == 0);
    vstd::arithmetic::div_mod::lemma_div_by_multiple(SKY_R as int, ONE as int);
    vstd::arithmetic::div_mod::lemma_div_by_multiple(SKY_G as int, ONE as int);
    vstd::arithmetic::div_mod::lemma_div_by_multiple(SKY_B as int, ONE as int);
    assert((ONE as int) * (SKY_R as int) == (SKY_R as int) * (ONE as int));
    lemma_blend_range(a, SKY_R as int);
    lemma_blend_range(a, SKY_G as int);
    lemma_blend_range(a, SKY_B as int);
    lemma_blend_floor(a, SKY_R as int);
    lemma_blend_floor(a, SKY_G as int);
    lemma_blend_floor(a, SKY_B as int);
    if a < ONE - 3 {
        lemma_blend_above_sky(a, SKY_R as int);
        lemma_blend_above_sky(a, SKY_G as int);
    }
    if 0 < a {
        lemma_blend_below_white(a, SKY_R as int);
        lemma_blend_below_white(a, SKY_G as int);
    }
}

proof fn lemma_blend_above_sky(a: int, c: int)
    requires
        0 <= a < ONE - 3,
        0 <= c <= ONE / 2 + ONE / 5,
    ensures
        c < blend(a, c),
{
    let one = ONE as int;
    vstd::arithmetic::div_mod::lemma_fundamental_div_mod(a * c, one);
    vstd::arithmetic::div_mod::lemma_mod_bound(a * c, one);
    let q = (a * c) / one;
    let m = (a * c) % one;
    assert((one - a) * (one - c) >= 4 * (one - c)) by (nonlinear_arith)
        requires
            0 <= a < one - 3,
            c <= one,
    ;
    assert(q > c + a - one) by (nonlinear_arith)
        requires
            a * c == one * q + m,
            0 <= m < one,
            (one - a) * (one - c) >= 4 * (one - c),
            4 * (one - c) > one,
            one > 0,
    ;
}

proof fn lemma_blend_below_white(a: int, c: int)
    requires
        0 < a <= ONE,
        0 <= c < ONE,
    ensures
        blend(a, c) < ONE,
{
    let one = ONE as int;
    assert(a * c <= (a - 1) * one + (one - a)) by (nonlinear_arith)
        requires
            0 < a <= one,
            0 <= c < one,
    ;
    vstd::arithmetic::div_mod::lemma_fundamental_div_mod_converse(
        (a - 1) * one + (one - a),
        one,
        a - 1,
        one - a,
    );
    vstd::arithmetic::div_mod::lemma_div_is_ordered(a * c, (a - 1) * one + (one - a), one);
}

proof fn lemma_blend_floor(a: int, c: int)
    requires
        0 <= a <= ONE,
        0 <= c <= ONE,
    ensures
        c <= blend(a, c),
{
    let one = ONE as int;
    vstd::arithmetic::div_mod::lemma_fundamental_div_mod(a * c, one);
    vstd::arithmetic::div_mod::lemma_mod_bound(a * c, one);
    let q = (a * c) / one;
    let m = (a * c) % one;
    assert(q >= c + a - one) by (nonlinear_arith)
        requires
            a * c == one * q + m,
            0 <= m < one,
            0 <= a <= one,
            0 <= c <= one,
            one > 0,
    ;
}

} // verus!
