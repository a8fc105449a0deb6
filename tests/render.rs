use raytracer::camera::{average_samples, background, Camera, SKY_B, SKY_G, SKY_R, T_MIN};
use raytracer::color::{channel_byte, linear_to_gamma, write_color};
use raytracer::hittable_list::HittableList;
use raytracer::material::{Dielectric, Lambertian, Material, Metal, ScatterSample};
use raytracer::ray::{Interval, Ray};
use raytracer::sphere::Sphere;
use raytracer::vec3::{isqrt, reflect, unit_vector, Vec3, ONE};

fn gray() -> Material {
    Material::Lambertian(Lambertian::new(Vec3::new(ONE / 2, ONE / 2, ONE / 2)))
}

fn forward() -> Ray {
    Ray::new(Vec3::new(0, 0, 0), Vec3::new(0, 0, -ONE))
}

fn trace() -> Interval {
    Interval::new(T_MIN, i64::MAX)
}

#[test]
fn single_sphere_center_ray() {
    let s = Sphere::new(Vec3::new(0, 0, -ONE), ONE / 2, gray());
    let rec = s.hit(&forward(), trace()).expect("the ray hits");
    assert_eq!(rec.t, ONE / 2);
    assert!(rec.front_face);
    assert_eq!(rec.normal, Vec3::new(0, 0, ONE));
    assert_eq!(rec.p, Vec3::new(0, 0, -ONE / 2));
    assert_eq!(rec.mat, gray());
}

#[test]
fn aimed_at_center_reaches_distance_less_radius() {
    let center = Vec3::new(3 * ONE, 4 * ONE, 0);
    let s = Sphere::new(center, ONE, gray());
    let r = Ray::new(Vec3::new(0, 0, 0), center);
    let rec = s.hit(&r, trace()).expect("the ray hits");
    // distance 5, radius 1: t * |d| = 4, so t = 4/5
    assert_eq!(rec.t, 4 * ONE / 5);
    assert!(rec.front_face);
    assert!(rec.normal.x < 0 && rec.normal.y < 0 && rec.normal.z == 0);
}

#[test]
fn ray_passing_beside_sphere_misses() {
    let s = Sphere::new(Vec3::new(2 * ONE, 0, -5 * ONE), ONE, gray());
    assert!(s.hit(&forward(), trace()).is_none());
    assert!(s.hit(&forward(), Interval::new(0, 100 * ONE)).is_none());
}

#[test]
fn zero_direction_misses() {
    let s = Sphere::new(Vec3::new(0, 0, -ONE), ONE / 2, gray());
    let r = Ray::new(Vec3::new(0, 0, 0), Vec3::new(0, 0, 0));
    assert!(s.hit(&r, trace()).is_none());
}

#[test]
fn hit_from_inside_flips_normal() {
    let s = Sphere::new(Vec3::new(0, 0, -ONE), ONE / 2, gray());
    let r = Ray::new(Vec3::new(0, 0, -ONE), Vec3::new(0, 0, -ONE));
    let rec = s.hit(&r, trace()).expect("the far side is hit");
    assert_eq!(rec.t, ONE / 2);
    assert!(!rec.front_face);
    assert_eq!(rec.normal, Vec3::new(0, 0, ONE));
    let d = r.direction;
    assert!(d.x * rec.normal.x + d.y * rec.normal.y + d.z * rec.normal.z <= 0);
}

#[test]
fn interval_excludes_near_root() {
    let s = Sphere::new(Vec3::new(0, 0, -ONE), ONE / 2, gray());
    let rec = s.hit(&forward(), Interval::new(ONE, i64::MAX)).expect("far root");
    assert_eq!(rec.t, 3 * ONE / 2);
    assert!(!rec.front_face);
    assert!(s.hit(&forward(), Interval::new(2 * ONE, i64::MAX)).is_none());
}

#[test]
fn nearest_sphere_wins_in_either_order() {
    let near_mat = Material::Metal(Metal::new(Vec3::new(ONE, 0, 0), 0));
    let far_mat = Material::Dielectric(Dielectric::new(98304));
    let near = Sphere::new(Vec3::new(0, 0, -2 * ONE), ONE / 2, near_mat);
    let far = Sphere::new(Vec3::new(0, 0, -4 * ONE), 2 * ONE, far_mat);
    for order in [[near, far], [far, near]] {
        let mut world = HittableList::new();
        world.add(order[0]);
        world.add(order[1]);
        let rec = world.hit(&forward(), trace()).expect("both spheres lie on the ray");
        assert_eq!(rec.mat, near_mat);
        assert_eq!(rec.t, 3 * ONE / 2);
        assert_eq!(rec.p, Vec3::new(0, 0, -3 * ONE / 2));
    }
}

#[test]
fn list_add_and_clear() {
    let mut world = HittableList::new();
    assert!(world.hit(&forward(), trace()).is_none());
    world.add(Sphere::new(Vec3::new(0, 0, -ONE), ONE / 2, gray()));
    assert_eq!(world.objects.len(), 1);
    assert!(world.hit(&forward(), trace()).is_some());
    world.clear();
    assert_eq!(world.objects.len(), 0);
    assert!(world.hit(&forward(), trace()).is_none());
}

#[test]
fn reflectance_at_normal_and_grazing_incidence() {
    let ri = ONE * ONE / 98304;
    assert_eq!(ri, 43690);
    assert_eq!(Dielectric::reflectance(ONE, ri), 2621);
    assert_eq!(Dielectric::reflectance(0, ri), ONE);
    assert_eq!(Dielectric::reflectance(0, ONE), ONE);
    assert_eq!(Dielectric::reflectance(ONE, ONE), 0);
}

#[test]
fn metal_without_fuzz_reflects_exactly() {
    let m = Metal::new(Vec3::new(ONE, ONE, ONE), 0);
    let rec = Sphere::new(Vec3::new(0, -ONE, 0), ONE, Material::Metal(m))
        .hit(&Ray::new(Vec3::new(-ONE, ONE, 0), Vec3::new(ONE, -ONE, 0)), trace())
        .expect("hit the top");
    assert_eq!(rec.normal, Vec3::new(0, ONE, 0));
    let incoming = Ray::new(Vec3::new(-ONE, ONE, 0), Vec3::new(ONE, -ONE, 0));
    let refl = reflect(incoming.direction, rec.normal);
    assert_eq!(refl, Vec3::new(ONE, ONE, 0));
    for unit in [Vec3::new(ONE, 0, 0), Vec3::new(0, -ONE, 0)] {
        let (att, scattered) = m
            .scatter(&incoming, &rec, ScatterSample { unit, draw: 0 })
            .expect("reflects away from the surface");
        assert_eq!(att, Vec3::new(ONE, ONE, ONE));
        assert_eq!(scattered.direction, unit_vector(refl));
        assert_eq!(scattered.direction, Vec3::new(46341, 46341, 0));
        assert_eq!(scattered.origin, rec.p);
    }
}

#[test]
fn metal_fuzz_is_clamped_below_one() {
    assert_eq!(Metal::new(Vec3::new(0, 0, 0), 3 * ONE).fuzz, ONE - 1);
    assert_eq!(Metal::new(Vec3::new(0, 0, 0), ONE).fuzz, ONE - 1);
    assert_eq!(Metal::new(Vec3::new(0, 0, 0), ONE / 4).fuzz, ONE / 4);
    assert_eq!(Metal::new(Vec3::new(0, 0, 0), -ONE).fuzz, 0);
}

#[test]
fn metal_absorbs_when_fuzz_turns_ray_inward() {
    let m = Metal::new(Vec3::new(ONE, ONE, ONE), ONE);
    let incoming = Ray::new(Vec3::new(-ONE, ONE, 0), Vec3::new(ONE, -ONE, 0));
    let rec = Sphere::new(Vec3::new(0, -ONE, 0), ONE, Material::Metal(m))
        .hit(&incoming, trace())
        .expect("hit the top");
    let s = ScatterSample { unit: Vec3::new(0, -ONE, 0), draw: 0 };
    assert!(m.scatter(&incoming, &rec, s).is_none());
}

#[test]
fn lambertian_degenerate_direction_falls_back_to_normal() {
    let l = Lambertian::new(Vec3::new(ONE / 2, ONE / 4, 0));
    let rec = Sphere::new(Vec3::new(0, 0, -ONE), ONE / 2, Material::Lambertian(l))
        .hit(&forward(), trace())
        .expect("hit");
    let back = ScatterSample { unit: Vec3::new(0, 0, -ONE), draw: 0 };
    let (att, scattered) = l.scatter(&forward(), &rec, back).expect("diffuse always scatters");
    assert_eq!(att, Vec3::new(ONE / 2, ONE / 4, 0));
    assert_eq!(scattered.direction, rec.normal);
    let side = ScatterSample { unit: Vec3::new(ONE, 0, 0), draw: 0 };
    let (_, scattered) = l.scatter(&forward(), &rec, side).expect("diffuse always scatters");
    assert_eq!(scattered.direction, Vec3::new(ONE, 0, ONE));
}

#[test]
fn dielectric_head_on_refracts_straight_through() {
    let d = Dielectric::new(98304);
    let rec = Sphere::new(Vec3::new(0, 0, -ONE), ONE / 2, Material::Dielectric(d))
        .hit(&forward(), trace())
        .expect("hit");
    // reflectance at normal incidence is 2621 / 65536: a draw above it refracts
    let (att, scattered) = d.scatter(&forward(), &rec, ONE - 1).expect("never absorbs");
    assert_eq!(att, Vec3::new(ONE, ONE, ONE));
    assert_eq!(scattered.direction, Vec3::new(0, 0, -ONE));
    // a draw below it reflects
    let (_, scattered) = d.scatter(&forward(), &rec, 0).expect("never absorbs");
    assert_eq!(scattered.direction, Vec3::new(0, 0, ONE));
}

#[test]
fn dielectric_total_internal_reflection() {
    let d = Dielectric::new(98304);
    // from inside, off center, meeting the surface at a steep angle to the normal
    let r = Ray::new(Vec3::new(0, 29491, -ONE), Vec3::new(ONE, 0, 0));
    let rec = Sphere::new(Vec3::new(0, 0, -ONE), ONE / 2, Material::Dielectric(d))
        .hit(&r, trace())
        .expect("hit from inside");
    assert!(!rec.front_face);
    let (_, scattered) = d.scatter(&r, &rec, ONE - 1).expect("never absorbs");
    let u = unit_vector(r.direction);
    assert_eq!(scattered.direction, reflect(u, rec.normal));
}

#[test]
fn depth_zero_is_black() {
    let mut world = HittableList::new();
    world.add(Sphere::new(Vec3::new(0, 0, -ONE), ONE / 2, gray()));
    let cam = test_camera(0);
    let c = cam.ray_color(&forward(), 0, &world, &Vec::new());
    assert_eq!(c, Vec3::new(0, 0, 0));
}

#[test]
fn miss_gives_background_gradient() {
    assert_eq!(background(Vec3::new(0, ONE, 0)), Vec3::new(SKY_R, SKY_G, SKY_B));
    assert_eq!(background(Vec3::new(0, -ONE, 0)), Vec3::new(ONE, ONE, ONE));
    let mid = background(Vec3::new(0, 0, -ONE));
    assert_eq!(mid, Vec3::new(49152, 55705, ONE));
    let world = HittableList::new();
    let cam = test_camera(0);
    let samples = vec![ScatterSample { unit: Vec3::new(ONE, 0, 0), draw: 0 }];
    assert_eq!(cam.ray_color(&Ray::new(Vec3::new(0, 0, 0), Vec3::new(0, ONE, 0)), 1, &world, &samples),
        Vec3::new(SKY_R, SKY_G, SKY_B));
}

#[test]
fn one_bounce_attenuates_background() {
    let mut world = HittableList::new();
    world.add(Sphere::new(Vec3::new(0, 0, -ONE), ONE / 2, gray()));
    let cam = test_camera(0);
    // the bounce leaves straight back along +z: background at a = 1/2
    let samples = vec![ScatterSample { unit: Vec3::new(0, 0, 0), draw: 0 }];
    let c = cam.ray_color(&forward(), 1, &world, &samples);
    assert_eq!(c, Vec3::new(0, 0, 0));
    let c = cam.ray_color(&forward(), 2, &world, &vec![samples[0], samples[0]]);
    assert_eq!(c, Vec3::new(49152 / 2, 55705 / 2, ONE / 2));
}

#[test]
fn quantization_of_channels() {
    assert_eq!(channel_byte(0), 0);
    assert_eq!(channel_byte(-ONE), 0);
    assert_eq!(channel_byte(ONE / 4), 128);
    assert_eq!(channel_byte(ONE), 255);
    assert_eq!(channel_byte(2 * ONE), 255);
    assert_eq!(linear_to_gamma(ONE / 4), ONE / 2);
    assert_eq!(linear_to_gamma(-5), 0);
    let mut out: Vec<u8> = Vec::new();
    write_color(&mut out, Vec3::new(0, ONE / 4, ONE));
    write_color(&mut out, Vec3::new(1, 100, 10000));
    assert_eq!(String::from_utf8(out).unwrap(), "0 128 255\n1 10 100\n");
}

#[test]
fn integer_square_root() {
    assert_eq!(isqrt(0), 0);
    assert_eq!(isqrt(15), 3);
    assert_eq!(isqrt(16), 4);
    assert_eq!(isqrt(2 * 65536 * 65536), 92681);
}

#[test]
fn average_of_samples() {
    let c = average_samples(&vec![Vec3::new(ONE, 0, 3), Vec3::new(0, 0, 4)]);
    assert_eq!(c, Vec3::new(ONE / 2, 0, 3));
}

fn test_camera(defocus_angle: i64) -> Camera {
    Camera {
        aspect_w: 2,
        aspect_h: 1,
        image_width: 4,
        image_height: 2,
        samples_per_pixel: 1,
        max_depth: 10,
        view_tan: ONE / 2,
        lookfrom: Vec3::new(0, 0, 0),
        lookat: Vec3::new(0, 0, -ONE),
        vup: Vec3::new(0, ONE, 0),
        defocus_angle,
        defocus_tan: 0,
        focus_dist: ONE,
        pixel_samples_scale: ONE,
        center: Vec3::new(0, 0, 0),
        pixel00_loc: Vec3::new(-3 * ONE / 4, ONE / 4, -ONE),
        pixel_delta_u: Vec3::new(ONE / 2, 0, 0),
        pixel_delta_v: Vec3::new(0, -ONE / 2, 0),
        u: Vec3::new(ONE, 0, 0),
        v: Vec3::new(0, ONE, 0),
        w: Vec3::new(0, 0, ONE),
        defocus_disk_u: Vec3::new(ONE / 10, 0, 0),
        defocus_disk_v: Vec3::new(0, ONE / 10, 0),
    }
}

#[test]
fn camera_rays_through_pixels() {
    let cam = test_camera(0);
    let zero = Vec3::new(0, 0, 0);
    let r = cam.get_ray(0, 0, zero, Vec3::new(ONE, ONE, 0)).expect("in range");
    assert_eq!(r.origin, zero);
    assert_eq!(r.direction, Vec3::new(-3 * ONE / 4, ONE / 4, -ONE));
    let r = cam.get_ray(2, 1, Vec3::new(ONE / 2, -ONE / 2, 0), zero).expect("in range");
    assert_eq!(r.direction, Vec3::new(ONE / 2, 0, -ONE));
    let lens = test_camera(ONE);
    let r = lens.get_ray(0, 0, zero, Vec3::new(ONE, -ONE, 0)).expect("in range");
    assert_eq!(r.origin, Vec3::new(ONE / 10, -ONE / 10, 0));
    assert_eq!(r.direction, Vec3::new(-3 * ONE / 4 - ONE / 10, ONE / 4 + ONE / 10, -ONE));
}

#[test]
fn camera_geometry_from_configuration() {
    let cam = Camera::new(
        2,
        1,
        4,
        10,
        50,
        ONE,
        Vec3::new(0, 0, 0),
        Vec3::new(0, 0, -ONE),
        Vec3::new(0, ONE, 0),
        0,
        0,
        ONE,
    )
    .expect("a regular configuration");
    assert_eq!(cam.image_height, 2);
    assert_eq!(cam.pixel_samples_scale, ONE / 10);
    assert_eq!((cam.aspect_w, cam.aspect_h, cam.view_tan, cam.focus_dist), (2, 1, ONE, ONE));
    assert_eq!(cam.lookat, Vec3::new(0, 0, -ONE));
    assert_eq!(cam.w, Vec3::new(0, 0, ONE));
    assert_eq!(cam.u, Vec3::new(ONE, 0, 0));
    assert_eq!(cam.v, Vec3::new(0, ONE, 0));
    assert_eq!(cam.pixel_delta_u, Vec3::new(ONE, 0, 0));
    assert_eq!(cam.pixel_delta_v, Vec3::new(0, -ONE, 0));
    assert_eq!(cam.pixel00_loc, Vec3::new(-3 * ONE / 2, ONE / 2, -ONE));
    assert_eq!(cam.defocus_disk_u, Vec3::new(0, 0, 0));
    let center = cam.get_ray(1, 0, Vec3::new(ONE / 2, ONE / 2, 0), Vec3::new(0, 0, 0)).unwrap();
    assert_eq!(center.direction, Vec3::new(0, 0, -ONE));
    let mut world = HittableList::new();
    world.add(Sphere::new(Vec3::new(0, 0, -ONE), ONE / 2, gray()));
    let rec = world.hit(&center, trace()).expect("the image center sees the sphere");
    assert_eq!(rec.t, ONE / 2);
    assert!(rec.front_face);
    assert_eq!(rec.normal, Vec3::new(0, 0, ONE));
    let lambertian_up = vec![ScatterSample { unit: Vec3::new(0, 0, 0), draw: 0 }; 50];
    let c = cam.sample_color(1, 0, Vec3::new(ONE / 2, ONE / 2, 0), Vec3::new(0, 0, 0), &world, &lambertian_up);
    assert_eq!(c, cam.ray_color(&center, 50, &world, &lambertian_up));
}

#[test]
fn sample_color_is_black_without_bounces() {
    let mut world = HittableList::new();
    world.add(Sphere::new(Vec3::new(0, 0, -ONE), ONE / 2, gray()));
    let mut cam = test_camera(0);
    cam.max_depth = 0;
    assert_eq!(cam.sample_color(0, 0, Vec3::new(0, 0, 0), Vec3::new(0, 0, 0), &world, &Vec::new()), Vec3::new(0, 0, 0));
    cam.max_depth = 1;
    let samples = vec![ScatterSample { unit: Vec3::new(0, 0, 0), draw: 0 }];
    let miss = cam.sample_color(0, 0, Vec3::new(0, 0, 0), Vec3::new(0, 0, 0), &world, &samples);
    let dir = cam.get_ray(0, 0, Vec3::new(0, 0, 0), Vec3::new(0, 0, 0)).unwrap().direction;
    assert_eq!(miss, background(dir));
}

#[test]
fn camera_height_is_at_least_one_row() {
    let cam = Camera::new(
        100, 1, 4, 1, 1, ONE, Vec3::new(0, 0, 0), Vec3::new(0, 0, -ONE), Vec3::new(0, ONE, 0), 0, 0, ONE,
    )
    .unwrap();
    assert_eq!(cam.image_height, 1);
    let wide = Camera::new(
        16, 9, 1200, 1, 1, ONE, Vec3::new(0, 0, 0), Vec3::new(0, 0, -ONE), Vec3::new(0, ONE, 0), 0, 0, ONE,
    )
    .unwrap();
    assert_eq!(wide.image_height, 675);
}

#[test]
fn camera_rejects_degenerate_frames() {
    let p = Vec3::new(ONE, ONE, ONE);
    assert!(Camera::new(1, 1, 4, 1, 1, ONE, p, p, Vec3::new(0, ONE, 0), 0, 0, ONE).is_none());
    let up = Vec3::new(0, ONE, 0);
    assert!(Camera::new(1, 1, 4, 1, 1, ONE, Vec3::new(0, 0, 0), up, up, 0, 0, ONE).is_none());
}
