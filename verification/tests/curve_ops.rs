use ecc_core::curve::is_on_curve;
use ecc_core::group::elliptic_add;
use ecc_core::modular::mod_inv;
use ecc_core::point::Point;
use ecc_core::scalar::scalar_mult;

const A: u64 = 4;
const B: u64 = 4;
const M: u64 = 313;

fn base_point() -> Point {
    Point::Affine { x: 205, y: 130 }
}

#[test]
fn identity_absorbs_on_both_sides() {
    let p = base_point();
    let inf = Point::at_infinity();
    assert_eq!(elliptic_add(&p, &inf, A, M).unwrap(), p);
    assert_eq!(elliptic_add(&inf, &p, A, M).unwrap(), p);
    assert_eq!(elliptic_add(&inf, &inf, A, M).unwrap(), inf);
}

#[test]
fn reflection_sums_to_identity() {
    let p = base_point();
    let r = Point::Affine { x: 205, y: M - 130 };
    assert!(elliptic_add(&p, &r, A, M).unwrap().is_at_infinity());
}

#[test]
fn two_torsion_doubles_to_identity() {
    let t = Point::Affine { x: 17, y: 0 };
    assert!(elliptic_add(&t, &t, A, M).unwrap().is_at_infinity());
}

#[test]
fn addition_commutes() {
    let p = base_point();
    let q = Point::Affine { x: 79, y: 178 };
    assert_eq!(
        elliptic_add(&p, &q, A, M).unwrap(),
        elliptic_add(&q, &p, A, M).unwrap()
    );
    let r = Point::Affine { x: 186, y: 295 };
    assert_eq!(
        elliptic_add(&q, &r, A, M).unwrap(),
        elliptic_add(&r, &q, A, M).unwrap()
    );
}

#[test]
fn scalar_multiply_matches_repeated_addition() {
    let p = base_point();
    let mut naive = Point::at_infinity();
    for n in 0..10u64 {
        assert_eq!(scalar_mult(n, &p, A, M).unwrap(), naive);
        naive = elliptic_add(&naive, &p, A, M).unwrap();
    }
}

#[test]
fn results_stay_on_the_curve() {
    let p = base_point();
    assert!(is_on_curve(&p, A, B, M));
    let double = elliptic_add(&p, &p, A, M).unwrap();
    assert!(is_on_curve(&double, A, B, M));
    for n in 0..10u64 {
        let np = scalar_mult(n, &p, A, M).unwrap();
        assert!(is_on_curve(&np, A, B, M));
    }
}

#[test]
fn modular_inverse_is_correct_for_coprime_inputs() {
    for m in 2..60u64 {
        for a in 1..m {
            if gcd(a, m) == 1 {
                let t = mod_inv(a, m).unwrap();
                assert!(t < m);
                assert_eq!((a * t) % m, 1);
            }
        }
    }
    assert_eq!(mod_inv(3, 7).unwrap(), 5);
}

#[test]
fn non_invertible_inputs_are_rejected() {
    assert!(mod_inv(4, 8).is_err());
    for m in 2..60u64 {
        for a in 0..m {
            if gcd(a, m) != 1 {
                assert!(mod_inv(a, m).is_err());
            }
        }
    }
}

#[test]
fn reference_scenario() {
    let p = base_point();
    assert!(is_on_curve(&p, A, B, M));
    let np = scalar_mult(2, &p, A, M).unwrap();
    assert!(is_on_curve(&np, A, B, M));
    assert_eq!(np, elliptic_add(&p, &p, A, M).unwrap());
    assert_eq!(np, Point::Affine { x: 79, y: 178 });
}

#[test]
fn zero_scalar_gives_identity() {
    let p = base_point();
    assert!(scalar_mult(0, &p, A, M).unwrap().is_at_infinity());
    let inf = Point::at_infinity();
    assert!(scalar_mult(0, &inf, A, M).unwrap().is_at_infinity());
}

fn gcd(a: u64, b: u64) -> u64 {
    let (mut x, mut y) = (a, b);
    while y != 0 {
        let r = x % y;
        x = y;
        y = r;
    }
    x
}
