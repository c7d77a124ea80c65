use vstd::prelude::*;

verus! {

use crate::modular::NotInvertible;
use crate::modular::has_inverse;
use crate::modular::inverse;
use crate::modular::lemma_inverse_negate;
use crate::modular::lemma_mod_opposite;
use crate::modular::lemma_sub_mod_left;
use crate::modular::mod_inv;
use crate::modular::mul_mod;
use crate::modular::sub_mod;
use crate::point::Point;
use vstd::arithmetic::div_mod::lemma_add_mod_noop;
use vstd::arithmetic::div_mod::lemma_mod_add_multiples_vanish;
use vstd::arithmetic::div_mod::lemma_mod_bound;
use vstd::arithmetic::div_mod::lemma_mod_equivalence;
use vstd::arithmetic::div_mod::lemma_mod_multiples_vanish;
use vstd::arithmetic::div_mod::lemma_mul_mod_noop_left;
use vstd::arithmetic::div_mod::lemma_mul_mod_noop_right;
use vstd::arithmetic::div_mod::lemma_small_mod;

/// The chord-tangent group law on a short-Weierstrass curve with
/// coefficient `a`, over the residues modulo `m`, in affine coordinates.
///
/// The cases mirror the geometric construction, in priority order: the
/// identity absorbs on either side; two points sharing an x coordinate
/// with distinct y coordinates (mutual reflections), or a point with
/// `y == 0` added to itself (vertical tangent), give the identity; adding
/// a point to itself otherwise uses the tangent slope; two points with
/// distinct x coordinates use the chord slope. `None` reports the one
/// failure: a slope denominator that is not a unit modulo `m`.
pub open spec fn add_points(p: Point, q: Point, a: int, m: int) -> Option<Point> {
    if p is Infinity {
        Some(q)
    } else if q is Infinity {
        Some(p)
    } else {
        let x1 = p->x as int;
        let y1 = p->y as int;
        let x2 = q->x as int;
        let y2 = q->y as int;
        if x1 == x2 && (y1 != y2 || y1 == 0) {
            Some(Point::Infinity)
        } else {
            let num = if x1 == x2 && y1 == y2 {
                (3 * (x1 * x1) + a) % m
            } else {
                (y2 - y1) % m
            };
            let den = if x1 == x2 && y1 == y2 {
                (2 * y1) % m
            } else {
                (x2 - x1) % m
            };
            if has_inverse(den, m) {
                let lambda = (num * inverse(den, m)) % m;
                let x3 = (lambda * lambda - x1 - x2) % m;
                let y3 = (lambda * (x1 - x3) - y1) % m;
                Some(Point::Affine { x: x3 as u64, y: y3 as u64 })
            } else {
                None
            }
        }
    }
}

/// Identity law: the point at infinity absorbs on either side of an
/// addition, for every point and every curve.
pub proof fn lemma_add_identity(p: Point, a: int, m: int)
    ensures
        add_points(Point::Infinity, p, a, m) == Some(p),
        add_points(p, Point::Infinity, a, m) == Some(p),
{
}

/// Inverse law: an affine point plus its reflection across the x axis is
/// the identity. The reflection of `(x, y)` is `(x, m - y)`; the law asks
/// `y != 0` so that the reflection is a residue, and `2 * y != m` so that
/// the two points are distinct (at `2 * y == m` the "reflection" is the
/// point itself, and the sum is a genuine doubling instead).
pub proof fn lemma_add_inverse(x: u64, y: u64, a: int, m: int)
    requires
        1 <= m <= u64::MAX,
        x < m,
        0 < y < m,
        2 * y != m,
    ensures
        add_points(
            (Point::Affine { x, y }),
            (Point::Affine { x, y: (m - y) as u64 }),
            a,
            m,
        ) == Some(Point::Infinity),
{
}

/// Doubling a point whose y coordinate is 0 gives the identity: the
/// tangent there is vertical.
pub proof fn lemma_double_two_torsion(x: u64, a: int, m: int)
    ensures
        add_points((Point::Affine { x, y: 0 }), (Point::Affine { x, y: 0 }), a, m) == Some(
            Point::Infinity,
        ),
{
}

/// Commutativity: point addition does not depend on the order of its
/// arguments — including the failure case, which strikes both orders
/// alike.
pub proof fn lemma_add_commutes(p: Point, q: Point, a: int, m: int)
    requires
        1 <= m,
        p.wf(m),
        q.wf(m),
    ensures
        add_points(p, q, a, m) == add_points(q, p, a, m),
{
    if p is Infinity || q is Infinity {
        // the identity absorbs on either side
    } else {
        let x1 = p->x as int;
        let y1 = p->y as int;
        let x2 = q->x as int;
        let y2 = q->y as int;
        if x1 == x2 {
            // reflections and doublings read the same coordinates in
            // either order
        } else {
            let num = (y2 - y1) % m;
            let den = (x2 - x1) % m;
            let num2 = (y1 - y2) % m;
            let den2 = (x1 - x2) % m;
            lemma_mod_opposite(x2 - x1, m);
            assert(den2 == m - den);
            if has_inverse(den, m) {
                let t = inverse(den, m);
                assert(0 <= t < m && (den * t) % m == 1int % m);
                lemma_inverse_negate(den, m);
                let t2 = inverse(den2, m);
                assert(t2 == m - t);
                // the two slope computations give the same residue
                let lam = (num * t) % m;
                if y1 == y2 {
                    lemma_small_mod(0nat, m as nat);
                    assert(num == 0 && num2 == 0);
                    assert(num * t == 0 && num2 * t2 == 0) by (nonlinear_arith)
                        requires
                            num == 0,
                            num2 == 0,
                    ;
                } else {
                    lemma_mod_opposite(y2 - y1, m);
                    assert(num2 == m - num);
                    assert((m - num) * (m - t) == m * (m - num - t) + num * t) by (nonlinear_arith);
                    lemma_mod_multiples_vanish(m - num - t, num * t, m);
                }
                assert((num2 * t2) % m == lam);
                // lam * (x2 - x1) is congruent to y2 - y1 modulo m
                lemma_mod_bound(num, m);
                assert((lam * (x2 - x1)) % m == (y2 - y1) % m) by {
                    lemma_mul_mod_noop_right(lam, x2 - x1, m);
                    lemma_mul_mod_noop_left(num * t, den, m);
                    assert((num * t) * den == num * (den * t)) by (nonlinear_arith);
                    lemma_mul_mod_noop_right(num, den * t, m);
                    lemma_mul_mod_noop_right(num, 1, m);
                    lemma_small_mod(num as nat, m as nat);
                }
                // hence the two mirrored y results agree
                let x3 = (lam * lam - x1 - x2) % m;
                let y3a = (lam * (x1 - x3) - y1) % m;
                let y3b = (lam * (x2 - x3) - y2) % m;
                let d = lam * (x2 - x1) - (y2 - y1);
                lemma_mod_equivalence(lam * (x2 - x1), y2 - y1, m);
                assert(d % m == 0);
                lemma_small_mod(0nat, m as nat);
                lemma_mod_equivalence(0, d, m);
                assert((lam * (x1 - x3) - y1) - (lam * (x2 - x3) - y2) == 0 - (lam * (x2 - x1) - (
                y2 - y1))) by (nonlinear_arith);
                lemma_mod_equivalence(lam * (x1 - x3) - y1, lam * (x2 - x3) - y2, m);
                assert(y3a == y3b);
            } else {
                // neither order has a unit denominator
                if has_inverse(den2, m) {
                    lemma_mod_bound(den2, m);
                    lemma_inverse_negate(den2, m);
                }
            }
        }
    }
}

/// Point addition under the group law. Returns exactly what `add_points`
/// describes, and fails with `NotInvertible` exactly where `add_points`
/// is `None`: when the slope denominator shares a factor with `m`.
pub fn elliptic_add(p: &Point, q: &Point, a: u64, m: u64) -> (res: Result<Point, NotInvertible>)
    requires
        1 <= m,
        p.wf(m as int),
        q.wf(m as int),
    ensures
        res matches Ok(r) ==> add_points(*p, *q, a as int, m as int) == Some(r) && r.wf(m as int),
        res is Err <==> add_points(*p, *q, a as int, m as int) is None,
{
    match (*p, *q) {
        (Point::Infinity, _) => Ok(*q),
        (_, Point::Infinity) => Ok(*p),
        (Point::Affine { x: x1, y: y1 }, Point::Affine { x: x2, y: y2 }) => {
            if x1 == x2 && (y1 != y2 || y1 == 0) {
                return Ok(Point::at_infinity());
            }
            let num: u64;
            let den: u64;
            if x1 == x2 && y1 == y2 {
                // tangent slope: (3 * x1^2 + a) / (2 * y1)
                let x1s: u64 = mul_mod(x1, x1, m);
                num = ((3 * (x1s as u128) + (a as u128)) % (m as u128)) as u64;
                den = ((2 * (y1 as u128)) % (m as u128)) as u64;
                proof {
                    lemma_mul_mod_noop_right(3, x1 as int * x1 as int, m as int);
                    lemma_add_mod_noop(3 * ((x1 as int * x1 as int) % (m as int)), a as int, m as int);
                    lemma_add_mod_noop(3 * (x1 as int * x1 as int), a as int, m as int);
                    lemma_mod_bound(3 * (x1 as int * x1 as int) + a, m as int);
                    lemma_mod_bound(2 * y1 as int, m as int);
                }
            } else {
                // chord slope: (y2 - y1) / (x2 - x1)
                num = sub_mod(y2, y1, m);
                den = sub_mod(x2, x1, m);
            }
            let t = match mod_inv(den, m) {
                Ok(t) => t,
                Err(e) => {
                    return Err(e);
                },
            };
            let lambda: u64 = mul_mod(num, t, m);
            let l2: u64 = mul_mod(lambda, lambda, m);
            let x3: u64 = sub_mod(sub_mod(l2, x1, m), x2, m);
            let dx: u64 = sub_mod(x1, x3, m);
            let ldx: u64 = mul_mod(lambda, dx, m);
            let y3: u64 = sub_mod(ldx, y1, m);
            proof {
                let mi = m as int;
                let lam = lambda as int;
                lemma_sub_mod_left(lam * lam, x1 as int, mi);
                lemma_sub_mod_left(lam * lam - x1 as int, x2 as int, mi);
                lemma_mul_mod_noop_right(lam, x1 as int - x3 as int, mi);
                lemma_sub_mod_left(lam * (x1 as int - x3 as int), y1 as int, mi);
            }
            Ok(Point::Affine { x: x3, y: y3 })
        },
    }
}

} // verus!
