use vstd::prelude::*;

verus! {

/// A point of the curve group: either the distinguished identity element
/// (the point at infinity) or an affine coordinate pair. Coordinates are
/// residues, meaningful only relative to the modulus a caller supplies
/// alongside the point.
#[derive(Clone, Copy, Debug, PartialEq, Eq, Structural)]
pub enum Point {
    Infinity,
    Affine { x: u64, y: u64 },
}

impl Point {
    /// An affine point is well formed for modulus `m` when both of its
    /// coordinates are reduced into `[0, m)`. The identity is well formed
    /// for every modulus.
    pub open spec fn wf(self, m: int) -> bool {
        self matches Point::Affine { x, y } ==> x < m && y < m
    }

    /// The group identity element.
    pub fn at_infinity() -> (p: Point)
        ensures
            p == Point::Infinity,
    {
        Point::Infinity
    }

    /// Whether this point is the group identity.
    pub fn is_at_infinity(&self) -> (r: bool)
        ensures
            r == (*self is Infinity),
    {
        matches!(self, Point::Infinity)
    }
}

} // verus!
