use imaglib::math::{div_trunc, in_triangle, isqrt, max, min, rand, rand_int, rem_trunc, srand, srand_time, Vec2, BB};

#[test]
fn vec2_new_keeps_components() {
    let v = Vec2::new(3, -4);
    assert_eq!(v.x, 3);
    assert_eq!(v.y, -4);
}

#[test]
fn vec2_dot_dist_len() {
    let a = Vec2::new(1, 2);
    let b = Vec2::new(3, 4);
    assert_eq!(a.dot(b), 11);
    assert_eq!(a.dist(Vec2::new(4, 6)), 25);
    assert_eq!(Vec2::new(3, 4).len_sqr(), 25);
    assert_eq!(Vec2::new(3, 4).len(), 5);
    assert_eq!(Vec2::new(1, 1).len(), 1);
    assert_eq!(Vec2::new(0, 0).len(), 0);
}

#[test]
fn vec2_norm_divides_by_integer_length() {
    assert_eq!(Vec2::new(10, 0).norm(), Vec2::new(1, 0));
    assert_eq!(Vec2::new(-10, 0).norm(), Vec2::new(-1, 0));
    assert_eq!(Vec2::new(3, 4).norm(), Vec2::new(0, 0));
    assert_eq!(Vec2::new(7, 7).norm(), Vec2::new(0, 0));
    assert_eq!(Vec2::new(-20, 21).norm(), Vec2::new(0, 0));
    assert_eq!(Vec2::new(0, -3).norm(), Vec2::new(0, -1));
}

#[test]
fn vec2_operators() {
    let a = Vec2::new(7, -7);
    let b = Vec2::new(2, 3);
    assert_eq!(a + b, Vec2::new(9, -4));
    assert_eq!(a - b, Vec2::new(5, -10));
    assert_eq!(a * 3, Vec2::new(21, -21));
    assert_eq!(a / 2, Vec2::new(3, -3));
    assert_eq!(a % 2, Vec2::new(1, -1));
    assert_eq!(a / -2, Vec2::new(-3, 3));
    assert_eq!(a % -2, Vec2::new(1, -1));
}

#[test]
fn vec2_compound_assignment() {
    let mut v = Vec2::new(5, 6);
    v.add_assign(Vec2::new(1, 1));
    assert_eq!(v, Vec2::new(6, 7));
    v.sub_assign(Vec2::new(2, 3));
    assert_eq!(v, Vec2::new(4, 4));
    v.mul_assign(-2);
    assert_eq!(v, Vec2::new(-8, -8));
    v.div_assign(3);
    assert_eq!(v, Vec2::new(-2, -2));
    let mut w = Vec2::new(-7, 9);
    w.rem_assign(4);
    assert_eq!(w, Vec2::new(-3, 1));
}

#[test]
fn division_identity_holds_on_examples() {
    for &(a, b) in &[(7, 2), (-7, 2), (7, -2), (-7, -2), (0, 5), (i32::MIN, 1)] {
        assert_eq!(b * div_trunc(a, b) + rem_trunc(a, b), a);
        assert_eq!(div_trunc(a, b), a / b);
        assert_eq!(rem_trunc(a, b), a % b);
    }
}

#[test]
fn integer_square_root() {
    assert_eq!(isqrt(0), 0);
    assert_eq!(isqrt(1), 1);
    assert_eq!(isqrt(15), 3);
    assert_eq!(isqrt(16), 4);
    assert_eq!(isqrt(i32::MAX), 46340);
}

#[test]
fn bounding_box_intersects() {
    let b = BB { x: 1, y: 2, w: 3, h: 4 };
    assert!(b.intersects(Vec2::new(1, 2)));
    assert!(b.intersects(Vec2::new(3, 5)));
    assert!(!b.intersects(Vec2::new(4, 5)));
    assert!(!b.intersects(Vec2::new(3, 6)));
    assert!(!b.intersects(Vec2::new(0, 3)));
}

#[test]
fn bounding_box_from_points() {
    let b = BB::from_points(&[Vec2::new(1, 5), Vec2::new(3, 2), Vec2::new(2, 8)]);
    assert_eq!((b.x, b.y, b.w, b.h), (1, 2, 2, 6));
    let single = BB::from_points(&[Vec2::new(4, 4)]);
    assert_eq!((single.x, single.y, single.w, single.h), (4, 4, 1, 1));
    let flat = BB::from_points(&[Vec2::new(-3, 0), Vec2::new(5, 0)]);
    assert_eq!((flat.x, flat.y, flat.w, flat.h), (-3, 0, 8, 1));
}

#[test]
fn point_in_triangle() {
    let (a, b, c) = (Vec2::new(0, 0), Vec2::new(10, 0), Vec2::new(0, 10));
    assert!(in_triangle(a, b, c, Vec2::new(1, 1)));
    assert!(in_triangle(a, b, c, Vec2::new(5, 5)));
    assert!(!in_triangle(a, b, c, Vec2::new(6, 6)));
    assert!(!in_triangle(a, b, c, Vec2::new(-1, 0)));
    for p in [a, b, c] {
        assert!(in_triangle(a, b, c, p));
    }
    for p in [Vec2::new(1, 1), Vec2::new(6, 6), Vec2::new(3, 8)] {
        assert_eq!(in_triangle(a, b, c, p), in_triangle(b, c, a, p));
        assert_eq!(in_triangle(a, b, c, p), in_triangle(a, c, b, p));
    }
}

#[test]
fn min_and_max() {
    assert_eq!(min(3, 5), 3);
    assert_eq!(min(5, 3), 3);
    assert_eq!(max(3, 5), 5);
    assert_eq!(max(5, 3), 5);
    assert_eq!(min(1.5, 2.5), 1.5);
    assert_eq!(max("a", "b"), "b");
}

#[test]
fn xorshift_generator() {
    let mut s: u64 = 0;
    srand(&mut s, 1);
    assert_eq!(s, 1);
    assert_eq!(rand(&mut s), 1082269761);
    assert_eq!(rand(&mut s), 1152992998833853505);
    assert_eq!(s, 1152992998833853505);
    let mut z: u64 = 0;
    assert_eq!(rand(&mut z), 0);
}

#[test]
fn seeding_from_the_clock() {
    let mut s: u64 = 7;
    srand_time(&mut s, 5);
    assert_eq!(s, 5);
    srand_time(&mut s, 0);
    assert_eq!(s, 13);
    srand_time(&mut s, u64::MAX as u128);
    assert_eq!(s, 13);
    srand_time(&mut s, u64::MAX as u128 + 9);
    assert_eq!(s, 9);
    assert_ne!(rand(&mut s), 0);
}

#[test]
fn signed_random_values_reuse_the_bits() {
    let mut s: u64 = 1152992998833853505;
    assert_eq!(rand_int(&mut s), -7269227409276787159);
    assert_eq!(s, 11177516664432764457);
    let mut t: u64 = 1;
    assert_eq!(rand_int(&mut t), 1082269761);
}
