use rayhit::fixed::Fixed;
use rayhit::hit::{Hit, HitRecord};
use rayhit::material::MaterialId;
use rayhit::ray::Ray;
use rayhit::sphere::Sphere;
use rayhit::vec3::Vec3;

const FAR: i64 = i64::MAX;

fn fx(raw: i64) -> Fixed {
    Fixed::from_raw(raw)
}

fn unit_sphere_behind() -> Sphere {
    // centre (0, 0, -1), radius 0.5
    Sphere::new(Vec3::from_raw(0, 0, -1000), fx(500), MaterialId { index: 7 })
}

fn ray(o: (i64, i64, i64), d: (i64, i64, i64)) -> Ray {
    Ray::new(Vec3::from_raw(o.0, o.1, o.2), Vec3::from_raw(d.0, d.1, d.2))
}

fn norm_sq(v: &Vec3) -> i128 {
    v.dot(v)
}

#[test]
fn head_on_ray_hits_front_face() {
    let s = unit_sphere_behind();
    let r = ray((0, 0, 0), (0, 0, -1000));
    assert!(s.is_valid() && r.is_valid());
    let rec = s.hit(&r, fx(1), fx(FAR)).expect("the ray points at the sphere");
    assert_eq!(rec.t, fx(500));
    assert_eq!(rec.p, Vec3::from_raw(0, 0, -500));
    assert_eq!(rec.normal, Vec3::from_raw(0, 0, 1000));
    assert!(rec.front_face);
    assert_eq!(rec.mat, MaterialId { index: 7 });
}

#[test]
fn sideways_ray_misses() {
    let s = unit_sphere_behind();
    let r = ray((0, 0, 0), (1000, 0, 0));
    assert_eq!(s.hit(&r, fx(1), fx(FAR)), None);
}

#[test]
fn ray_from_the_centre_hits_back_face() {
    let s = unit_sphere_behind();
    let r = ray((0, 0, -1000), (0, 0, -1000));
    let rec = s.hit(&r, fx(1), fx(FAR)).expect("a ray from inside always leaves");
    assert_eq!(rec.t, fx(500));
    assert_eq!(rec.p, Vec3::from_raw(0, 0, -1500));
    // The outward normal at the exit is (0, 0, -1); the record holds it turned round.
    assert_eq!(rec.normal, Vec3::from_raw(0, 0, 1000));
    assert!(!rec.front_face);
}

#[test]
fn longer_direction_scales_the_parameter() {
    let s = unit_sphere_behind();
    let r = ray((0, 0, 0), (0, 0, -2000));
    let rec = s.hit(&r, fx(1), fx(FAR)).unwrap();
    assert_eq!(rec.t, fx(250));
    assert_eq!(rec.p, Vec3::from_raw(0, 0, -500));
    assert_eq!(rec.normal, Vec3::from_raw(0, 0, 1000));
}

#[test]
fn ray_leaving_from_outside_misses() {
    let s = unit_sphere_behind();
    // Outside the sphere and pointing away from it.
    let r = ray((0, 0, 0), (0, 0, 1000));
    assert_eq!(s.hit(&r, fx(0), fx(FAR)), None);
    let r = ray((0, 2000, -1000), (300, 1000, -200));
    assert_eq!(s.hit(&r, fx(0), fx(FAR)), None);
    // With a negative lower end the sphere behind the origin is found.
    let r = ray((0, 0, 0), (0, 0, 1000));
    let rec = s.hit(&r, fx(-10_000), fx(FAR)).unwrap();
    assert_eq!(rec.t, fx(-1500));
    assert_eq!(rec.p, Vec3::from_raw(0, 0, -1500));
}

#[test]
fn negative_discriminant_is_no_hit() {
    let s = Sphere::new(Vec3::from_raw(0, 0, 0), fx(1000), MaterialId { index: 0 });
    let r = ray((-5000, 1001, 0), (1000, 0, 0));
    assert_eq!(s.hit(&r, fx(-FAR), fx(FAR)), None);
}

// A sphere through the origin: centre (3, 4, 0), radius 5. Along the x axis
// the surface is met at t = 0 and at t = 6 exactly.
fn sphere_through_origin() -> Sphere {
    Sphere::new(Vec3::from_raw(3000, 4000, 0), fx(5000), MaterialId { index: 1 })
}

#[test]
fn point_on_the_surface_is_found() {
    let s = sphere_through_origin();
    let r = ray((0, 0, 0), (1000, 0, 0));
    let rec = s.hit(&r, fx(1), fx(FAR)).unwrap();
    assert_eq!(rec.t, fx(6000));
    assert_eq!(rec.p, Vec3::from_raw(6000, 0, 0));
    assert_eq!(rec.p, r.at(fx(6000)));
    assert_eq!(rec.normal, Vec3::from_raw(-600, 800, 0));
    assert!(!rec.front_face);
}

#[test]
fn nearer_root_is_preferred() {
    let s = sphere_through_origin();
    let r = ray((0, 0, 0), (1000, 0, 0));
    let rec = s.hit(&r, fx(-5), fx(FAR)).unwrap();
    assert_eq!(rec.t, fx(0));
    assert_eq!(rec.p, Vec3::from_raw(0, 0, 0));
    assert_eq!(rec.normal, Vec3::from_raw(-600, -800, 0));
    assert!(rec.front_face);
}

#[test]
fn interval_includes_both_ends() {
    let s = sphere_through_origin();
    let r = ray((0, 0, 0), (1000, 0, 0));
    // the only root in the interval is its lower end
    assert_eq!(s.hit(&r, fx(6000), fx(7000)).unwrap().t, fx(6000));
    // the only root in the interval is its upper end
    assert_eq!(s.hit(&r, fx(1), fx(6000)).unwrap().t, fx(6000));
    assert_eq!(s.hit(&r, fx(-3000), fx(0)).unwrap().t, fx(0));
    // the interval is a single point
    assert_eq!(s.hit(&r, fx(6000), fx(6000)).unwrap().t, fx(6000));
    assert_eq!(s.hit(&r, fx(0), fx(0)).unwrap().t, fx(0));
    // just inside the roots, or just beyond them
    assert_eq!(s.hit(&r, fx(1), fx(5999)), None);
    assert_eq!(s.hit(&r, fx(6001), fx(FAR)), None);
    assert_eq!(s.hit(&r, fx(-FAR), fx(-1)), None);
}

#[test]
fn empty_interval_is_no_hit() {
    let s = sphere_through_origin();
    let r = ray((0, 0, 0), (1000, 0, 0));
    assert_eq!(s.hit(&r, fx(7000), fx(-7000)), None);
}

#[test]
fn irrational_root_is_rounded_down() {
    // Unit sphere at the origin; the ray runs along y = 0.5, so the roots
    // are 2 -+ sqrt(0.75): 1.13397... and 2.86602...
    let s = Sphere::new(Vec3::from_raw(0, 0, 0), fx(1000), MaterialId { index: 0 });
    let r = ray((-2000, 500, 0), (1000, 0, 0));
    let rec = s.hit(&r, fx(1), fx(FAR)).unwrap();
    assert_eq!(rec.t, fx(1133));
    assert_eq!(rec.p, Vec3::from_raw(-867, 500, 0));
    assert_eq!(rec.normal, Vec3::from_raw(-867, 500, 0));
    assert!(rec.front_face);
    let rec = s.hit(&r, fx(1134), fx(FAR)).unwrap();
    assert_eq!(rec.t, fx(2866));
    assert_eq!(rec.p, Vec3::from_raw(866, 500, 0));
    assert_eq!(rec.normal, Vec3::from_raw(-866, -500, 0));
    assert!(!rec.front_face);
    // An end of the interval between a root and its floor shuts the root out.
    assert_eq!(s.hit(&r, fx(1134), fx(2865)), None);
    assert_eq!(s.hit(&r, fx(1133), fx(1133)), None);
    assert_eq!(s.hit(&r, fx(1133), fx(1134)).unwrap().t, fx(1133));
}

#[test]
fn tangent_ray_touches_once() {
    let s = Sphere::new(Vec3::from_raw(0, 0, 0), fx(1000), MaterialId { index: 0 });
    let r = ray((-2000, 1000, 0), (1000, 0, 0));
    let rec = s.hit(&r, fx(1), fx(FAR)).unwrap();
    assert_eq!(rec.t, fx(2000));
    assert_eq!(rec.p, Vec3::from_raw(0, 1000, 0));
    // The ray runs at a right angle to the normal: that is no front face.
    assert!(!rec.front_face);
    assert_eq!(rec.normal, Vec3::from_raw(0, -1000, 0));
}

fn between(v: i64, a: i64, b: i64) -> bool {
    (a <= v && v <= b) || (b <= v && v <= a)
}

// What holds of every record, whatever was struck.
fn assert_consistent(r: &Ray, lo: i64, hi: i64, rec: &HitRecord) {
    assert!(lo <= rec.t.raw() && rec.t.raw() <= hi);
    let here = r.at(rec.t);
    let next = r.at(fx(rec.t.raw() + 1));
    assert!(between(rec.p.x.raw(), here.x.raw(), next.x.raw()));
    assert!(between(rec.p.y.raw(), here.y.raw(), next.y.raw()));
    assert!(between(rec.p.z.raw(), here.z.raw(), next.z.raw()));
    let len_sq = norm_sq(&rec.normal);
    assert!((995 * 995..=1005 * 1005).contains(&len_sq), "{len_sq}");
    let along = r.direction().dot(&rec.normal);
    assert!(along <= 0);
    if rec.front_face {
        assert!(along < 0);
    }
}

#[test]
fn normal_has_unit_length() {
    let dirs = [
        (1000, 0, 0),
        (577, 577, 577),
        (-300, 900, 316),
        (12, -7, 1000),
        (0, 707, -707),
        (1, 0, 0),
        (-3, 2, 1),
        (1_000_000, -999_999, 3),
        (-1_000_000, 1_000_000, 1_000_000),
    ];
    let mut hits = 0;
    for radius in [1, 2, 3, 17, 500, 501, 999, 2500, 1_000_000] {
        let s = Sphere::new(Vec3::from_raw(120, -340, 5600), fx(radius), MaterialId { index: 0 });
        for d in dirs {
            for origin in [(120, -340, 5600), (121, -340, 5600 + radius - 1), (-900_000, 17, 5)] {
                let r = ray(origin, d);
                for lo in [-1_000_000_000_000, 1] {
                    if let Some(rec) = s.hit(&r, fx(lo), fx(1_000_000_000_000)) {
                        assert_consistent(&r, lo, 1_000_000_000_000, &rec);
                        hits += 1;
                    }
                }
            }
        }
    }
    // from the centre every ray leaves
    assert!(hits >= 9 * 9 * 2);
}

#[test]
fn long_direction_still_finds_the_crossing() {
    // Radius 0.5 at the origin; the ray comes down the z axis, a thousand
    // units to the parameter, and crosses the surface at t = 0.0015.
    let s = Sphere::new(Vec3::from_raw(0, 0, 0), fx(500), MaterialId { index: 0 });
    let r = ray((0, 0, 2000), (0, 0, -1_000_000));
    let rec = s.hit(&r, fx(1), fx(1_000_000)).unwrap();
    assert_eq!(rec.t, fx(1));
    assert_eq!(rec.p, Vec3::from_raw(0, 0, 500));
    assert_eq!(rec.normal, Vec3::from_raw(0, 0, 1000));
    assert!(rec.front_face);
    // A hundred units to the parameter, from z = 1.05: the crossing is at
    // t = 0.0055.
    let r = ray((0, 0, 1050), (0, 0, -100_000));
    let rec = s.hit(&r, fx(1), fx(1_000_000)).unwrap();
    assert_eq!(rec.t, fx(5));
    assert_eq!(rec.p, Vec3::from_raw(0, 0, 500));
    assert_eq!(rec.normal, Vec3::from_raw(0, 0, 1000));
    assert!(rec.front_face);
}

#[test]
fn normal_of_a_tiny_sphere_is_unit() {
    // Radius 0.002 at the origin, struck off its axis: the crossing is at
    // (0.001, 0.001, 0.001414...), the normal (0.5, 0.5, 0.7071...).
    let s = Sphere::new(Vec3::from_raw(0, 0, 0), fx(2), MaterialId { index: 0 });
    let r = ray((1, 1, 1000), (0, 0, -1000));
    let rec = s.hit(&r, fx(1), fx(1_000_000)).unwrap();
    assert_eq!(rec.t, fx(998));
    assert_eq!(rec.p, Vec3::from_raw(1, 1, 1));
    assert_eq!(rec.normal, Vec3::from_raw(500, 500, 707));
    assert!(rec.front_face);
    // A sphere of one raw unit, touched by a ray along y = 0.001.
    let s = Sphere::new(Vec3::from_raw(0, 0, 0), fx(1), MaterialId { index: 0 });
    let r = ray((-5, 1, 0), (1000, 0, 0));
    let rec = s.hit(&r, fx(0), fx(FAR)).unwrap();
    assert_eq!(rec.t, fx(5));
    assert_eq!(rec.p, Vec3::from_raw(0, 1, 0));
    assert_eq!(rec.normal, Vec3::from_raw(0, -1000, 0));
    assert!(!rec.front_face);
    let r = ray((-5, 1, 1), (1000, 1000, 0));
    assert_eq!(s.hit(&r, fx(0), fx(FAR)), None);
}

#[test]
fn normal_never_runs_along_the_ray() {
    let s = Sphere::new(Vec3::from_raw(0, 0, 0), fx(3000), MaterialId { index: 0 });
    let mut found = 0;
    for ox in [-9000i64, -2000, 0, 1500, 2999] {
        for dy in [-400i64, 0, 250] {
            let r = ray((ox, 100, -50), (1000, dy, 30));
            if let Some(rec) = s.hit(&r, fx(1), fx(1_000_000_000)) {
                assert_consistent(&r, 1, 1_000_000_000, &rec);
                found += 1;
            }
        }
    }
    // from inside the sphere every ray leaves
    assert!(found >= 9);
}

#[test]
fn hit_is_repeatable() {
    let s = unit_sphere_behind();
    let r = ray((10, -20, 300), (5, 17, -1000));
    let first = s.hit(&r, fx(1), fx(FAR));
    let second = s.hit(&r, fx(1), fx(FAR));
    assert!(first.is_some());
    assert_eq!(first, second);
}

#[test]
fn largest_scene_does_not_overflow() {
    let s = Sphere::new(
        Vec3::from_raw(1_000_000, 1_000_000, 1_000_000),
        fx(1_000_000),
        MaterialId { index: 0 },
    );
    let r = ray((-1_000_000, -1_000_000, -1_000_000), (1_000_000, 1_000_000, 1_000_000));
    assert!(s.is_valid() && r.is_valid());
    // The ray runs through the centre, at t = 2; it enters at 2 - 1 / sqrt(3).
    let rec = s.hit(&r, fx(0), fx(FAR)).unwrap();
    assert_eq!(rec.t, fx(1422));
    assert!(rec.front_face);
    // The shortest direction makes the largest parameters.
    let r = ray((-1_000_000, 1_000_000, 1_000_000), (1, 0, 0));
    let rec = s.hit(&r, fx(0), fx(FAR)).unwrap();
    assert_eq!(rec.t, fx(1_000_000_000));
    assert_eq!(rec.p, Vec3::from_raw(0, 1_000_000, 1_000_000));
    assert_eq!(rec.normal, Vec3::from_raw(-1000, 0, 0));
}

#[test]
fn validity_of_spheres() {
    let m = MaterialId { index: 0 };
    assert!(Sphere::new(Vec3::from_raw(0, 0, 0), fx(1), m).is_valid());
    assert!(Sphere::new(Vec3::from_raw(-1_000_000, 0, 1_000_000), fx(1_000_000), m).is_valid());
    assert!(!Sphere::new(Vec3::from_raw(0, 0, 0), fx(0), m).is_valid());
    assert!(!Sphere::new(Vec3::from_raw(0, 0, 0), fx(-500), m).is_valid());
    assert!(!Sphere::new(Vec3::from_raw(0, 0, 0), fx(1_000_001), m).is_valid());
    assert!(!Sphere::new(Vec3::from_raw(0, 1_000_001, 0), fx(1), m).is_valid());
}

#[test]
fn set_face_normal_turns_the_normal() {
    let blank = HitRecord {
        t: fx(3),
        p: Vec3::from_raw(1, 2, 3),
        normal: Vec3::from_raw(0, 0, 0),
        mat: MaterialId { index: 4 },
        front_face: false,
    };
    let r = ray((0, 0, 0), (0, 0, -1000));

    let mut rec = blank;
    rec.set_face_normal(&r, Vec3::from_raw(0, 0, 1000));
    assert!(rec.front_face);
    assert_eq!(rec.normal, Vec3::from_raw(0, 0, 1000));

    let mut rec = blank;
    rec.set_face_normal(&r, Vec3::from_raw(10, -20, -1000));
    assert!(!rec.front_face);
    assert_eq!(rec.normal, Vec3::from_raw(-10, 20, 1000));

    let mut rec = blank;
    rec.set_face_normal(&r, Vec3::from_raw(1000, 0, 0));
    assert!(!rec.front_face);
    assert_eq!(rec.normal, Vec3::from_raw(-1000, 0, 0));

    // nothing else changes
    assert_eq!(rec.t, fx(3));
    assert_eq!(rec.p, Vec3::from_raw(1, 2, 3));
    assert_eq!(rec.mat, MaterialId { index: 4 });
}
