use rayhit::arith::{ceil_div, floor_div, isqrt, isqrt_ceil};
use rayhit::fixed::{Fixed, LIMIT, SCALE};
use rayhit::ray::Ray;
use rayhit::surd::{pick_root, Root};
use rayhit::vec3::Vec3;

#[test]
fn integer_square_roots() {
    assert_eq!(isqrt(0), 0);
    assert_eq!(isqrt(1), 1);
    assert_eq!(isqrt(2), 1);
    assert_eq!(isqrt(3), 1);
    assert_eq!(isqrt(4), 2);
    assert_eq!(isqrt(99), 9);
    assert_eq!(isqrt(100), 10);
    assert_eq!(isqrt(750_000_000_000), 866_025);
    assert_eq!(isqrt(u128::MAX), u64::MAX);
    assert_eq!(isqrt((1u128 << 64) - 1), (1u64 << 32) - 1);
    assert_eq!(isqrt(1u128 << 64), 1u64 << 32);
}

#[test]
fn square_roots_rounded_up() {
    assert_eq!(isqrt_ceil(0), 0);
    assert_eq!(isqrt_ceil(1), 1);
    assert_eq!(isqrt_ceil(2), 2);
    assert_eq!(isqrt_ceil(4), 2);
    assert_eq!(isqrt_ceil(5), 3);
    assert_eq!(isqrt_ceil(750_000_000_000), 866_026);
    assert_eq!(isqrt_ceil(u128::MAX), 1u128 << 64);
}

#[test]
fn division_rounds_down_or_up() {
    assert_eq!(floor_div(7, 2), 3);
    assert_eq!(floor_div(-7, 2), -4);
    assert_eq!(floor_div(-8, 2), -4);
    assert_eq!(floor_div(0, 5), 0);
    assert_eq!(floor_div(-1, 1000), -1);
    assert_eq!(ceil_div(7, 2), 4);
    assert_eq!(ceil_div(-7, 2), -3);
    assert_eq!(ceil_div(8, 2), 4);
    assert_eq!(ceil_div(1, 1000), 1);
    assert_eq!(ceil_div(-999, 1000), 0);
}

fn picked(p: i128, n: u128, a: i128, lo: i64, hi: i64) -> Option<(i64, i128)> {
    pick_root(p, n, a, lo, hi).map(|root| (root.t, root.numer))
}

#[test]
fn roots_are_picked_in_order() {
    // (10 -+ sqrt(16)) / 2: the roots are 3 and 7
    assert_eq!(picked(10, 16, 2, 0, 100), Some((3, 6)));
    assert_eq!(picked(10, 16, 2, 3, 3), Some((3, 6)));
    assert_eq!(picked(10, 16, 2, 4, 100), Some((7, 14)));
    assert_eq!(picked(10, 16, 2, 4, 7), Some((7, 14)));
    assert_eq!(picked(10, 16, 2, 4, 6), None);
    assert_eq!(picked(10, 16, 2, 8, 100), None);
    assert_eq!(picked(10, 16, 2, -100, 2), None);
    // (0 -+ sqrt(2)) / 1: the roots are -1.41... and 1.41...
    assert_eq!(picked(0, 2, 1, -2, 2), Some((-2, -2)));
    assert_eq!(picked(0, 2, 1, -1, 2), Some((1, 1)));
    assert_eq!(picked(0, 2, 1, -1, 1), None);
    assert_eq!(picked(0, 2, 1, 2, 5), None);
    // (1 -+ sqrt(10)) / 4: the roots are -0.54... and 1.04...
    assert_eq!(picked(1, 10, 4, -1, 0), Some((-1, -3)));
    assert_eq!(picked(1, 10, 4, 0, 2), Some((1, 4)));
    // a double root
    assert_eq!(picked(-9, 0, 3, -3, -3), Some((-3, -9)));
    assert_eq!(pick_root(-9, 0, 3, -3, -3), Some(Root { t: -3, numer: -9 }));
}

#[test]
fn fixed_point_numbers() {
    assert_eq!(SCALE, 1000);
    assert_eq!(Fixed::from_raw(1500).raw(), 1500);
    assert_eq!(Fixed::from_raw(-1), Fixed { raw: -1 });
    assert_eq!(LIMIT, 1000 * SCALE);
}

#[test]
fn vector_arithmetic() {
    let u = Vec3::from_raw(1000, -2000, 3000);
    let v = Vec3::new(Fixed::from_raw(500), Fixed::from_raw(250), Fixed::from_raw(-1000));
    assert_eq!(u.dot(&v), 500_000 - 500_000 - 3_000_000);
    assert_eq!(u.minus(&v), Vec3::from_raw(500, -2250, 4000));
    assert_eq!(u.neg(), Vec3::from_raw(-1000, 2000, -3000));
    assert!(u.is_within(3000));
    assert!(!u.is_within(2999));
    assert!(!u.is_within(-1));
    assert!(Vec3::from_raw(0, 0, 0).is_within(0));
    assert!(!Vec3::from_raw(0, 0, 0).is_within(-1));
}

#[test]
fn ray_points() {
    let r = Ray::new(Vec3::from_raw(1000, 2000, 3000), Vec3::from_raw(1000, -500, 1));
    assert_eq!(r.origin(), Vec3::from_raw(1000, 2000, 3000));
    assert_eq!(r.direction(), Vec3::from_raw(1000, -500, 1));
    assert_eq!(r.at(Fixed::from_raw(0)), Vec3::from_raw(1000, 2000, 3000));
    assert_eq!(r.at(Fixed::from_raw(2000)), Vec3::from_raw(3000, 1000, 3002));
    assert_eq!(r.at(Fixed::from_raw(1)), Vec3::from_raw(1001, 1999, 3000));
    assert_eq!(r.at(Fixed::from_raw(-1)), Vec3::from_raw(999, 2000, 2999));
    assert_eq!(r.at(Fixed::from_raw(-1500)), Vec3::from_raw(-500, 2750, 2998));
}

#[test]
fn validity_of_rays() {
    assert!(Ray::new(Vec3::from_raw(0, 0, 0), Vec3::from_raw(0, 0, 1)).is_valid());
    assert!(Ray::new(Vec3::from_raw(LIMIT, -LIMIT, 0), Vec3::from_raw(-LIMIT, 0, LIMIT)).is_valid());
    assert!(!Ray::new(Vec3::from_raw(0, 0, 0), Vec3::from_raw(0, 0, 0)).is_valid());
    assert!(!Ray::new(Vec3::from_raw(LIMIT + 1, 0, 0), Vec3::from_raw(0, 0, 1)).is_valid());
    assert!(!Ray::new(Vec3::from_raw(0, 0, 0), Vec3::from_raw(0, -LIMIT - 1, 1)).is_valid());
}
