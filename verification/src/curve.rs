use vstd::prelude::*;

verus! {

use crate::modular::add_mod;
use crate::modular::mul_mod;
use crate::point::Point;
use vstd::arithmetic::div_mod::lemma_add_mod_noop;
use vstd::arithmetic::div_mod::lemma_mul_mod_noop_left;

/// Membership in the curve `y^2 == x^3 + a*x + b` over the residues
/// modulo `m`. The point at infinity is on every curve by convention.
pub open spec fn on_curve(p: Point, a: int, b: int, m: int) -> bool {
    match p {
        Point::Infinity => true,
        Point::Affine { x, y } => (y * y) % m == ((x * x) * x + a * x + b) % m,
    }
}

/// Whether `p` satisfies the curve equation for coefficients `a`, `b`
/// and modulus `m`. A pure, total predicate: it never fails.
pub fn is_on_curve(p: &Point, a: u64, b: u64, m: u64) -> (r: bool)
    requires
        1 <= m,
    ensures
        r == on_curve(*p, a as int, b as int, m as int),
{
    match *p {
        Point::Infinity => true,
        Point::Affine { x, y } => {
            let left = mul_mod(y, y, m);
            let x2 = mul_mod(x, x, m);
            let x3 = mul_mod(x2, x, m);
            let ax = mul_mod(a, x, m);
            let s1 = add_mod(x3, ax, m);
            let right = add_mod(s1, b % m, m);
            proof {
                let mi = m as int;
                let xi = x as int;
                lemma_mul_mod_noop_left(xi * xi, xi, mi);
                lemma_add_mod_noop((xi * xi) * xi, a as int * xi, mi);
                lemma_add_mod_noop((xi * xi) * xi + a as int * xi, b as int, mi);
            }
            left == right
        },
    }
}

} // verus!
