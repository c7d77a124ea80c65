use vstd::prelude::*;

verus! {

use crate::group::add_points;
use crate::group::elliptic_add;
use crate::modular::NotInvertible;
use crate::point::Point;

/// One run of the binary double-and-add recurrence: fold the addend into
/// the accumulator when the scalar is odd, double the addend, halve the
/// scalar. A failed group operation (a non-invertible slope denominator)
/// aborts the whole run, exactly as the iterative algorithm propagates it;
/// note that the addend is doubled even on the final iteration, so a run
/// can fail on a doubling whose result would never be folded in.
pub open spec fn double_and_add(n: nat, acc: Point, addend: Point, a: int, m: int) -> Option<Point>
    decreases n,
{
    if n == 0 {
        Some(acc)
    } else {
        let folded = if n % 2 == 1 {
            add_points(acc, addend, a, m)
        } else {
            Some(acc)
        };
        match folded {
            Option::None => None,
            Option::Some(acc2) => match add_points(addend, addend, a, m) {
                Option::None => None,
                Option::Some(doubled) => double_and_add((n / 2) as nat, acc2, doubled, a, m),
            },
        }
    }
}

/// What scalar multiplication returns: `n` copies of `p` folded together
/// by the double-and-add recurrence, starting from the identity.
pub open spec fn scalar_spec(n: nat, p: Point, a: int, m: int) -> Option<Point> {
    double_and_add(n, Point::Infinity, p, a, m)
}

/// Zero scalar: multiplying any point by 0 yields the identity.
pub proof fn lemma_scalar_zero(p: Point, a: int, m: int)
    ensures
        scalar_spec(0, p, a, m) == Some(Point::Infinity),
{
}

/// Scalar multiplication `n * p` by binary double-and-add: O(log n) group
/// operations. Returns exactly what `scalar_spec` describes, and fails
/// with `NotInvertible` exactly where some intermediate group operation
/// does.
pub fn scalar_mult(n: u64, p: &Point, a: u64, m: u64) -> (res: Result<Point, NotInvertible>)
    requires
        1 <= m,
        p.wf(m as int),
    ensures
        res matches Ok(r) ==> scalar_spec(n as nat, *p, a as int, m as int) == Some(r) && r.wf(
            m as int,
        ),
        res is Err <==> scalar_spec(n as nat, *p, a as int, m as int) is None,
{
    let mut result = Point::at_infinity();
    let mut addend = *p;
    let mut k = n;

    while k > 0
        invariant
            1 <= m,
            result.wf(m as int),
            addend.wf(m as int),
            double_and_add(k as nat, result, addend, a as int, m as int) == scalar_spec(
                n as nat,
                *p,
                a as int,
                m as int,
            ),
        decreases k,
    {
        let ghost result0 = result;
        let ghost addend0 = addend;
        let ghost k0 = k;
        if k % 2 == 1 {
            result = match elliptic_add(&result, &addend, a, m) {
                Ok(r) => r,
                Err(e) => {
                    proof {
                        assert(double_and_add(k as nat, result0, addend0, a as int, m as int)
                            is None);
                    }
                    return Err(e);
                },
            };
        }
        addend = match elliptic_add(&addend, &addend, a, m) {
            Ok(r) => r,
            Err(e) => {
                proof {
                    assert(double_and_add(k as nat, result0, addend0, a as int, m as int) is None);
                }
                return Err(e);
            },
        };
        k = k / 2;
        proof {
            assert(double_and_add(k as nat, result, addend, a as int, m as int) == double_and_add(
                k0 as nat,
                result0,
                addend0,
                a as int,
                m as int,
            ));
        }
    }
    Ok(result)
}

} // verus!
