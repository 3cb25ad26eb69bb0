use raytracer::camera::Camera;
use raytracer::hitable::{HitableList, HitRecord, Sphere};
use raytracer::material::Material;
use raytracer::num::SCALE;
use raytracer::point3::Point3;
use raytracer::ray::Ray;
use raytracer::render::{color, gamma_quantize, render_pixel};
use raytracer::sample::{random_in_unit_disk, random_in_unit_sphere};
use raytracer::to_bgra;
use raytracer::vec3::Vec3;

const S: i64 = 1000000;

fn seeded(seed: u64) -> rand::rngs::StdRng {
    <rand::rngs::StdRng as rand::SeedableRng>::seed_from_u64(seed)
}

fn unit(v: f64) -> i64 {
    (v * 1000000.0).round() as i64
}

#[test]
fn add_point_with_vec() {
    assert_eq!(
        Point3 { x: unit(1.0), y: unit(0.0), z: unit(3.0) }
            .add(Vec3 { x: unit(1.0), y: unit(2.0), z: unit(1.4) }),
        Point3 { x: unit(2.0), y: unit(2.0), z: unit(4.4) }
    );
}

#[test]
fn sub_point_with_vec() {
    assert_eq!(
        Point3 { x: unit(1.0), y: unit(0.0), z: unit(3.0) }
            .sub_vec(Vec3 { x: unit(1.0), y: unit(2.0), z: unit(1.4) }),
        Point3 { x: unit(0.0), y: unit(-2.0), z: unit(1.6) }
    );
}

#[test]
fn point_difference() {
    assert_eq!(
        Point3 { x: unit(1.0), y: unit(1.0), z: unit(3.0) }
            .sub(Point3 { x: unit(0.1), y: unit(2.0), z: unit(2.5) }),
        Vec3 { x: unit(0.9), y: unit(-1.0), z: unit(0.5) }
    );
}

#[test]
fn reflect_flips_normal_component() {
    let v = Vec3::new(1 * S, 2 * S, 3 * S);
    let n = Vec3::new(0, 0, S);
    let r = v.reflect(n);
    assert_eq!(r, Vec3::new(1 * S, 2 * S, -3 * S));
    // The normal component is exactly reversed, the tangential part kept.
    assert_eq!(r.dot(n), -v.dot(n));
    assert_eq!((r.x, r.y), (v.x, v.y));
}

#[test]
fn cross_product_is_antisymmetric() {
    let a = Vec3::new(S / 4, 3 * S / 10, -S / 2);
    let b = Vec3::new(-S / 3, 7, S / 9);
    let ab = a.cross(b);
    let ba = b.cross(a);
    assert_eq!(ab, ba.neg());
    assert_eq!(a.cross(a), Vec3::zeros());
    // Ticks that floor rounding would treat asymmetrically.
    let p = Vec3::new(0, 1, 0);
    let q = Vec3::new(0, 0, 1);
    assert_eq!(p.cross(q), q.cross(p).neg());
}

#[test]
fn unit_sphere_samples_stay_inside() {
    let mut rng = seeded(11);
    let mut sum_x: i64 = 0;
    let mut sum_y: i64 = 0;
    let mut sum_z: i64 = 0;
    for _ in 0..10000 {
        let p = random_in_unit_sphere(&mut rng);
        assert!(p.squared_length() < (S as i128) * (S as i128));
        sum_x += p.x;
        sum_y += p.y;
        sum_z += p.z;
    }
    // The distribution is symmetric: the empirical mean is near zero.
    assert!((sum_x / 10000).abs() < S / 20);
    assert!((sum_y / 10000).abs() < S / 20);
    assert!((sum_z / 10000).abs() < S / 20);
}

#[test]
fn unit_disk_samples_stay_inside() {
    let mut rng = seeded(13);
    let mut sum_x: i64 = 0;
    let mut sum_y: i64 = 0;
    for _ in 0..10000 {
        let p = random_in_unit_disk(&mut rng);
        assert!(p.squared_length() < (S as i128) * (S as i128));
        assert_eq!(p.z, 0);
        sum_x += p.x;
        sum_y += p.y;
    }
    assert!((sum_x / 10000).abs() < S / 20);
    assert!((sum_y / 10000).abs() < S / 20);
}

#[test]
fn sphere_hit_head_on() {
    let m = Material::lambertian(Vec3::new(100000, 200000, 500000));
    let s = Sphere::new(Point3::new(0, 0, -S), S / 2, m);
    let r = Ray::new(Point3::zeros(), Vec3::new(0, 0, -S));
    let hit = s.hit(&r, 0, i64::MAX).expect("the ray aims at the sphere");
    assert_eq!(hit.t, S / 2);
    assert_eq!(hit.p, Point3::new(0, 0, -S / 2));
    assert_eq!(hit.n, Vec3::new(0, 0, S));
    assert_eq!(hit.material, m);
}

#[test]
fn miss_returns_sky_gradient() {
    let world = HitableList::new(vec![]);
    let mut rng = seeded(7);
    // Horizontal ray: the gradient parameter is exactly one half.
    let r = Ray::new(Point3::zeros(), Vec3::new(0, 0, -S));
    let c = color(&r, &world, 0, &mut rng);
    assert_eq!(c, Vec3::new(750000, 850000, 1000000));
    // Straight up: the gradient parameter is exactly one, pure sky blue.
    let up = Ray::new(Point3::zeros(), Vec3::new(0, S, 0));
    let cu = color(&up, &world, 0, &mut rng);
    assert_eq!(cu, Vec3::new(500000, 700000, 1000000));
}

#[test]
fn nearest_hit_wins_regardless_of_order() {
    let m = Material::lambertian(Vec3::new(100000, 200000, 500000));
    let near = Sphere::new(Point3::new(0, 0, -S), S / 2, m);
    let far = Sphere::new(Point3::new(0, 0, -3 * S), S / 2, m);
    let r = Ray::new(Point3::zeros(), Vec3::new(0, 0, -S));
    let a = HitableList::new(vec![near, far]);
    let b = HitableList::new(vec![far, near]);
    let ha = a.hit(&r, 0, i64::MAX).expect("both spheres are on the ray");
    let hb = b.hit(&r, 0, i64::MAX).expect("both spheres are on the ray");
    assert_eq!(ha, hb);
    assert_eq!(ha.t, S / 2);
}

#[test]
fn dielectric_perpendicular_refracts() {
    let m = Material::dielectric(1500000);
    let rec = HitRecord {
        t: S / 2,
        p: Point3::new(0, 0, -S / 2),
        n: Vec3::new(0, 0, S),
        material: m,
    };
    let ray = Ray::new(Point3::zeros(), Vec3::new(0, 0, -S));
    // Schlick reflectance at perpendicular incidence is its minimum,
    // ((1 - 1.5) / (1 + 1.5))^2 = 0.04; a draw at or above it refracts.
    let refr = m.scatter(&ray, &rec, Vec3::zeros(), 40000);
    assert!(!refr.absorbed);
    assert_eq!(refr.attenuation, Vec3::new(S, S, S));
    assert_eq!(refr.ray.direction, Vec3::new(0, 0, -S));
    // A draw below the reflectance reflects instead.
    let refl = m.scatter(&ray, &rec, Vec3::zeros(), 39999);
    assert_eq!(refl.ray.direction, Vec3::new(0, 0, S));
}

#[test]
fn lambertian_scatters_towards_normal() {
    let albedo = Vec3::new(100000, 200000, 500000);
    let m = Material::lambertian(albedo);
    let rec = HitRecord {
        t: S / 2,
        p: Point3::new(0, 0, -S / 2),
        n: Vec3::new(0, 0, S),
        material: m,
    };
    let ray = Ray::new(Point3::zeros(), Vec3::new(0, 0, -S));
    let sc = m.scatter(&ray, &rec, Vec3::new(1000, 2000, 3000), 0);
    assert!(!sc.absorbed);
    assert_eq!(sc.attenuation, albedo);
    assert_eq!(sc.ray.origin, rec.p);
    assert_eq!(sc.ray.direction, Vec3::new(1000, 2000, S + 3000));
}

#[test]
fn metal_absorbs_rays_into_the_surface() {
    let m = Material::metal(Vec3::new(800000, 600000, 200000), 0);
    let rec = HitRecord {
        t: S / 2,
        p: Point3::new(0, 0, -S / 2),
        n: Vec3::new(0, 0, S),
        material: m,
    };
    // A ray leaving the surface reflects back into it and is absorbed.
    let ray = Ray::new(Point3::zeros(), Vec3::new(0, 0, S));
    let sc = m.scatter(&ray, &rec, Vec3::zeros(), 0);
    assert!(sc.absorbed);
    // A ray entering the surface reflects away and survives.
    let ray2 = Ray::new(Point3::zeros(), Vec3::new(0, 0, -S));
    let sc2 = m.scatter(&ray2, &rec, Vec3::zeros(), 0);
    assert!(!sc2.absorbed);
    assert_eq!(sc2.ray.direction, Vec3::new(0, 0, S));
}

#[test]
fn recursion_cutoff_returns_black() {
    let m = Material::lambertian(Vec3::new(S, S, S));
    let world = HitableList::new(vec![Sphere::new(Point3::new(0, 0, -S), S / 2, m)]);
    let mut rng = seeded(3);
    let r = Ray::new(Point3::zeros(), Vec3::new(0, 0, -S));
    let c = color(&r, &world, 50, &mut rng);
    assert_eq!(c, Vec3::zeros());
}

#[test]
fn gamma_quantize_matches_formula() {
    assert_eq!(gamma_quantize(0), 0);
    assert_eq!(gamma_quantize(S), 255);
    // 0.25 averages to sqrt(0.25) = 0.5, and floor(255.99 * 0.5) = 127.
    assert_eq!(gamma_quantize(S / 4), 127);
}

#[test]
fn to_bgra_packs_channels() {
    assert_eq!(to_bgra(255, 128, 64), 0xffff8040);
    assert_eq!(to_bgra(0, 0, 0), 0xff000000);
}

fn two_sphere_scene() -> (Camera, HitableList) {
    let cam = Camera::new(
        Point3::new(-2 * S, 2 * S, S),
        Point3::new(0, 0, -S),
        Vec3::new(0, S, 0),
        363970,
        2 * S,
        0,
        S,
    );
    let world = HitableList::new(vec![
        Sphere::new(
            Point3::new(0, 0, -S),
            S / 2,
            Material::lambertian(Vec3::new(100000, 200000, 500000)),
        ),
        Sphere::new(
            Point3::new(0, -100 * S - S / 2, -S),
            100 * S,
            Material::lambertian(Vec3::new(800000, 800000, 0)),
        ),
    ]);
    (cam, world)
}

#[test]
fn sky_scene_renders_no_black_pixel() {
    let (cam, _) = two_sphere_scene();
    let empty = HitableList::new(vec![]);
    let mut rng = seeded(5);
    for y in 0..2 {
        for x in 0..4 {
            let (r, g, b) = render_pixel(&cam, &empty, x, y, 4, 2, 1, &mut rng);
            // Every ray misses, so every channel carries sky light.
            assert!(r > 0 && g > 0 && b > 0);
        }
    }
}

#[test]
fn render_is_deterministic_for_a_seed() {
    let (cam, world) = two_sphere_scene();
    let mut first: Vec<(u8, u8, u8)> = Vec::new();
    let mut second: Vec<(u8, u8, u8)> = Vec::new();
    let mut rng = seeded(42);
    for y in 0..2 {
        for x in 0..4 {
            first.push(render_pixel(&cam, &world, x, y, 4, 2, 1, &mut rng));
        }
    }
    let mut rng2 = seeded(42);
    for y in 0..2 {
        for x in 0..4 {
            second.push(render_pixel(&cam, &world, x, y, 4, 2, 1, &mut rng2));
        }
    }
    assert_eq!(first, second);
    // A different seed jitters differently somewhere on the image.
    let mut rng3 = seeded(43);
    let mut third: Vec<(u8, u8, u8)> = Vec::new();
    for y in 0..2 {
        for x in 0..4 {
            third.push(render_pixel(&cam, &world, x, y, 4, 2, 1, &mut rng3));
        }
    }
    assert_ne!(first, third);
}

#[test]
fn golden_two_sphere_render() {
    let (cam, world) = two_sphere_scene();
    let mut rng = seeded(42);
    let mut got: Vec<(u8, u8, u8)> = Vec::new();
    for y in 0..2 {
        for x in 0..4 {
            got.push(render_pixel(&cam, &world, x, y, 4, 2, 1, &mut rng));
        }
    }
    // Golden output for this scene, seed and resolution: any change in the
    // sampling or shading arithmetic shows up here byte for byte.
    let expected: Vec<(u8, u8, u8)> = vec![
        (171, 196, 0),
        (162, 191, 0),
        (162, 191, 0),
        (174, 198, 0),
        (164, 192, 0),
        (173, 197, 0),
        (166, 193, 0),
        (162, 192, 0),
    ];
    assert_eq!(got, expected);
}
