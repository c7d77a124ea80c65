//! Affine short-Weierstrass elliptic-curve arithmetic over a machine-word
//! modulus: modular inverse by the extended Euclidean algorithm, the
//! chord-tangent group law in affine coordinates, double-and-add scalar
//! multiplication, and the curve-membership predicate.

pub mod curve;
pub mod group;
pub mod modular;
pub mod point;
pub mod scalar;
