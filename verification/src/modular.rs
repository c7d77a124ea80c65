use vstd::prelude::*;

verus! {

use vstd::arithmetic::div_mod::lemma_fundamental_div_mod;
use vstd::arithmetic::div_mod::lemma_mod_add_multiples_vanish;
use vstd::arithmetic::div_mod::lemma_mod_bound;
use vstd::arithmetic::div_mod::lemma_mod_multiples_basic;
use vstd::arithmetic::div_mod::lemma_mod_multiples_vanish;
use vstd::arithmetic::div_mod::lemma_mod_self_0;
use vstd::arithmetic::div_mod::lemma_mod_twice;
use vstd::arithmetic::div_mod::lemma_mul_mod_noop_right;
use vstd::arithmetic::div_mod::lemma_small_mod;
use vstd::arithmetic::div_mod::lemma_sub_mod_noop;
use vstd::arithmetic::mul::lemma_mul_upper_bound;

/// The single failure of the arithmetic core: a modular inversion was
/// requested for a value that is not a unit modulo `m`.
#[derive(Clone, Copy, Debug, PartialEq, Eq, Structural)]
pub struct NotInvertible;

/// Greatest common divisor by the Euclidean recurrence.
pub open spec fn gcd(a: int, b: int) -> int
    recommends
        0 <= a,
        0 <= b,
    decreases b,
    when 0 <= b
{
    if b <= 0 {
        a
    } else {
        gcd(b, a % b)
    }
}

/// Whether `x` is a unit modulo `m`, i.e. some residue multiplies with it
/// to 1 modulo `m`. (Modulo 1 every product is congruent to `1 % 1 == 0`,
/// so every value counts as a unit there.)
pub open spec fn has_inverse(x: int, m: int) -> bool {
    exists|t: int| 0 <= t < m && #[trigger] ((x * t) % m) == 1int % m
}

/// The multiplicative inverse of `x` modulo `m`, as a residue in `[0, m)`.
/// Meaningful only when `has_inverse(x, m)` holds; it is then unique.
pub open spec fn inverse(x: int, m: int) -> int {
    choose|t: int| 0 <= t < m && #[trigger] ((x * t) % m) == 1int % m
}

/// A unit has exactly one inverse among the residues in `[0, m)`.
pub proof fn lemma_inverse_unique(x: int, m: int, t1: int, t2: int)
    requires
        1 <= m,
        0 <= t1 < m,
        0 <= t2 < m,
        (x * t1) % m == 1int % m,
        (x * t2) % m == 1int % m,
    ensures
        t1 == t2,
{
    if m == 1 {
        // both residues are forced to 0
    } else {
        lemma_small_mod(1nat, m as nat);
        lemma_small_mod(t1 as nat, m as nat);
        lemma_small_mod(t2 as nat, m as nat);
        assert(t1 * (x * t2) == t2 * (x * t1)) by (nonlinear_arith);
        lemma_mul_mod_noop_right(t1, x * t2, m);
        lemma_mul_mod_noop_right(t1, 1, m);
        lemma_mul_mod_noop_right(t2, x * t1, m);
        lemma_mul_mod_noop_right(t2, 1, m);
        assert((t1 * 1) % m == (t2 * 1) % m);
    }
}

/// A residue that multiplies with `x` to 1 modulo `m` is the witness that
/// pins down `inverse(x, m)`.
pub proof fn lemma_inverse_of_witness(x: int, m: int, t: int)
    requires
        1 <= m,
        0 <= t < m,
        (x * t) % m == 1int % m,
    ensures
        has_inverse(x, m),
        inverse(x, m) == t,
{
    assert(has_inverse(x, m));
    let c = inverse(x, m);
    assert(0 <= c < m && (x * c) % m == 1int % m);
    lemma_inverse_unique(x, m, t, c);
}

/// A nonzero value in `(-m, m)` and its negation have residues pairing
/// up to `m`.
pub proof fn lemma_mod_opposite(d: int, m: int)
    requires
        1 <= m,
        -m < d < m,
        d != 0,
    ensures
        0 < d % m < m,
        0 < (-d) % m < m,
        d % m + (-d) % m == m,
{
    if d > 0 {
        lemma_small_mod(d as nat, m as nat);
        lemma_mod_add_multiples_vanish(-d, m);
        lemma_small_mod((m - d) as nat, m as nat);
    } else {
        lemma_small_mod((-d) as nat, m as nat);
        lemma_mod_add_multiples_vanish(d, m);
        lemma_small_mod((m + d) as nat, m as nat);
    }
}

/// Negating a unit negates its inverse: when `x` in `(0, m)` is a unit
/// modulo `m`, so is `m - x`, and its inverse is `m - inverse(x, m)`.
pub proof fn lemma_inverse_negate(x: int, m: int)
    requires
        2 <= m,
        0 < x < m,
        has_inverse(x, m),
    ensures
        has_inverse(m - x, m),
        0 < inverse(x, m) < m,
        inverse(m - x, m) == m - inverse(x, m),
{
    let t = inverse(x, m);
    assert(0 <= t < m && (x * t) % m == 1int % m);
    lemma_small_mod(1nat, m as nat);
    assert(t != 0) by {
        if t == 0 {
            assert(x * 0 == 0);
            lemma_small_mod(0nat, m as nat);
        }
    }
    assert((m - x) * (m - t) == m * (m - x - t) + x * t) by (nonlinear_arith);
    lemma_mod_multiples_vanish(m - x - t, x * t, m);
    lemma_inverse_of_witness(m - x, m, m - t);
}

/// The gcd is positive and divides both of its arguments.
pub proof fn lemma_gcd_divides(a: int, b: int)
    requires
        0 <= a,
        0 <= b,
        0 < a || 0 < b,
    ensures
        0 < gcd(a, b),
        a % gcd(a, b) == 0,
        b % gcd(a, b) == 0,
    decreases b,
{
    if b == 0 {
        lemma_mod_self_0(a);
        lemma_small_mod(0nat, a as nat);
    } else {
        lemma_mod_bound(a, b);
        lemma_gcd_divides(b, a % b);
        let g = gcd(b, a % b);
        lemma_fundamental_div_mod(a, b);
        lemma_fundamental_div_mod(b, g);
        lemma_fundamental_div_mod(a % b, g);
        let qb = b / g;
        let qr = (a % b) / g;
        assert(b == g * qb);
        assert(a % b == g * qr);
        assert(a == (a / b) * (g * qb) + g * qr);
        assert(a == ((a / b) * qb + qr) * g) by (nonlinear_arith)
            requires
                a == (a / b) * (g * qb) + g * qr,
        ;
        lemma_mod_multiples_basic((a / b) * qb + qr, g);
    }
}

/// No residue inverts `x` modulo `m` when `gcd(x, m)` exceeds 1: every
/// value of the form `x * t` is a multiple of the gcd away from a multiple
/// of `m`, and 1 is not.
pub proof fn lemma_gcd_above_one_no_inverse(x: int, m: int)
    requires
        0 <= x,
        1 <= m,
        gcd(x, m) != 1,
    ensures
        !has_inverse(x, m),
{
    let g = gcd(x, m);
    lemma_gcd_divides(x, m);
    assert(g >= 2) by {
        if g == 0 {
        } else if g == 1 {
        }
    }
    assert(m >= 2) by {
        if m == 1 {
            lemma_small_mod(1nat, g as nat);
        }
    }
    lemma_small_mod(1nat, m as nat);
    lemma_small_mod(1nat, g as nat);
    assert forall|t: int| 0 <= t < m implies #[trigger] ((x * t) % m) != 1int % m by {
        let v = (x * t) % m;
        lemma_fundamental_div_mod(x * t, m);
        lemma_fundamental_div_mod(x, g);
        lemma_fundamental_div_mod(m, g);
        let q = (x * t) / m;
        let cx = x / g;
        let cm = m / g;
        assert(v == (cx * t - cm * q) * g) by (nonlinear_arith)
            requires
                x == cx * g,
                m == cm * g,
                v == x * t - m * q,
        ;
        lemma_mod_multiples_basic(cx * t - cm * q, g);
        assert(v % g == 0);
    }
}

/// Congruence bookkeeping for one step of the extended Euclidean loop:
/// if `aa * tt` is congruent to `rr` and `aa * nt` to `nr` modulo `m`,
/// then the updated coefficient `(tt + m - (q * nt) % m) % m` pairs with
/// the updated remainder `rr - q * nr`.
proof fn lemma_euclid_step_congruence(aa: int, tt: int, nt: int, q: int, rr: int, nr: int, m: int)
    requires
        1 <= m,
        (aa * tt) % m == rr % m,
        (aa * nt) % m == nr % m,
    ensures
        (aa * ((tt + m - (q * nt) % m) % m)) % m == (rr - q * nr) % m,
{
    let qt = (q * nt) % m;
    lemma_mod_bound(q * nt, m);
    lemma_mul_mod_noop_right(aa, tt + m - qt, m);
    assert(aa * (tt + m - qt) == m * aa + (aa * tt - aa * qt)) by (nonlinear_arith);
    lemma_mod_multiples_vanish(aa, aa * tt - aa * qt, m);
    lemma_sub_mod_noop(aa * tt, aa * qt, m);
    // reduce the subtracted product to q * nr modulo m
    lemma_mul_mod_noop_right(aa, q * nt, m);
    assert(aa * (q * nt) == q * (aa * nt)) by (nonlinear_arith);
    lemma_mul_mod_noop_right(q, aa * nt, m);
    lemma_mul_mod_noop_right(q, nr, m);
    assert((aa * qt) % m == (q * nr) % m);
    lemma_sub_mod_noop(rr, q * nr, m);
    assert(((aa * tt) % m - (aa * qt) % m) % m == (rr - q * nr) % m);
}

/// Dropping an inner reduction on the left of a subtraction does not
/// change the residue, for a subtrahend already reduced into `[0, m)`.
pub proof fn lemma_sub_mod_left(x: int, y: int, m: int)
    requires
        1 <= m,
        0 <= y < m,
    ensures
        ((x % m) - y) % m == (x - y) % m,
{
    lemma_small_mod(y as nat, m as nat);
    lemma_sub_mod_noop(x, y, m);
}

/// The residue of `x * y` modulo `m`, computed in widened arithmetic so
/// that no machine bound constrains the modulus.
pub fn mul_mod(x: u64, y: u64, m: u64) -> (r: u64)
    requires
        1 <= m,
    ensures
        r == (x * y) % (m as int),
        r < m,
{
    proof {
        lemma_mul_upper_bound(x as int, u64::MAX as int, y as int, u64::MAX as int);
        lemma_mod_bound(x as int * y as int, m as int);
    }
    (((x as u128) * (y as u128)) % (m as u128)) as u64
}

/// The residue of `x + y` modulo `m`, computed in widened arithmetic.
pub fn add_mod(x: u64, y: u64, m: u64) -> (r: u64)
    requires
        1 <= m,
    ensures
        r == (x + y) % (m as int),
        r < m,
{
    proof {
        lemma_mod_bound(x as int + y as int, m as int);
    }
    (((x as u128) + (y as u128)) % (m as u128)) as u64
}

/// The residue of `x - y` modulo `m` for reduced operands, computed as
/// `(x + m - y) % m` so the subtraction never underflows.
pub fn sub_mod(x: u64, y: u64, m: u64) -> (r: u64)
    requires
        1 <= m,
        x < m,
        y < m,
    ensures
        r == (x - y) % (m as int),
        r < m,
{
    proof {
        lemma_mod_add_multiples_vanish(x as int - y as int, m as int);
        lemma_mod_bound(x as int - y as int, m as int);
    }
    (((x as u128) + (m as u128) - (y as u128)) % (m as u128)) as u64
}

/// Modular inverse by the extended Euclidean algorithm, with the Bezout
/// coefficient tracked as a residue in `[0, m)`.
///
/// Returns the residue `t` with `(a * t) % m == 1 % m` exactly when `a`
/// and `m` are coprime, and reports `NotInvertible` otherwise.
pub fn mod_inv(a: u64, m: u64) -> (res: Result<u64, NotInvertible>)
    requires
        1 <= m,
    ensures
        res is Ok <==> gcd(a as int, m as int) == 1,
        res matches Ok(t) ==> t < m && (a * t) % (m as int) == 1int % (m as int),
        res matches Ok(t) ==> has_inverse(a as int, m as int) && t == inverse(a as int, m as int),
        res is Err ==> !has_inverse(a as int, m as int),
{
    let mut t: u64 = 0;
    let mut new_t: u64 = 1 % m;
    let mut r: u64 = m;
    let mut new_r: u64 = a % m;

    proof {
        lemma_mod_self_0(m as int);
        lemma_small_mod(0nat, m as nat);
        lemma_mod_bound(a as int, m as int);
        lemma_mul_mod_noop_right(a as int, 1, m as int);
        lemma_mod_twice(a as int, m as int);
    }

    while new_r != 0
        invariant
            1 <= m,
            t < m,
            new_t < m,
            new_r < r,
            r <= m,
            1 <= r,
            (a * t) % (m as int) == (r as int) % (m as int),
            (a * new_t) % (m as int) == (new_r as int) % (m as int),
            gcd(r as int, new_r as int) == gcd(a as int, m as int),
        decreases new_r,
    {
        let q: u64 = r / new_r;
        let rem: u64 = r % new_r;
        proof {
            lemma_mul_upper_bound(q as int, u64::MAX as int, new_t as int, u64::MAX as int);
            lemma_mod_bound(q as int * new_t as int, m as int);
        }
        let qt: u64 = (((q as u128) * (new_t as u128)) % (m as u128)) as u64;
        proof {
            lemma_mod_bound(t as int + m as int - qt as int, m as int);
            lemma_euclid_step_congruence(
                a as int,
                t as int,
                new_t as int,
                q as int,
                r as int,
                new_r as int,
                m as int,
            );
            lemma_fundamental_div_mod(r as int, new_r as int);
        }
        let t2: u64 = (((t as u128) + (m as u128) - (qt as u128)) % (m as u128)) as u64;
        proof {
            assert(rem == r as int - q as int * new_r as int);
            assert(gcd(r as int, new_r as int) == gcd(new_r as int, rem as int));
        }
        t = new_t;
        new_t = t2;
        r = new_r;
        new_r = rem;
    }

    if r > 1 {
        proof {
            assert(gcd(r as int, 0) == r as int);
            lemma_gcd_above_one_no_inverse(a as int, m as int);
        }
        Err(NotInvertible)
    } else {
        proof {
            assert(gcd(r as int, 0) == r as int);
            lemma_inverse_of_witness(a as int, m as int, t as int);
        }
        Ok(t)
    }
}

} // verus!
