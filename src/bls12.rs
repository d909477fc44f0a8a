use vstd::prelude::*;

use crate::group::CurvePoint;

verus! {

/// The kind of sextic twist that represents G2 of a BLS12 curve.
#[derive(Clone, Copy, Debug, PartialEq, Eq, Structural)]
pub enum TwistType {
    /// `E': y^2 = x^3 + b/i^5`, isomorphic to `y^2 = x^3 + i·b`.
    M,
    /// `E': y^2 = x^3 + b/i`.
    D,
}

/// The parameters of a BLS12 curve that its Ate pairing reads.
pub trait Bls12Parameters {
    /// The Ate loop count, as little-endian 64-bit limbs.
    fn x() -> Vec<u64>;

    /// Whether the loop count is negative.
    fn x_is_negative() -> bool;

    fn twist_type() -> TwistType;
}

/// The BLS12-377 curve.
pub struct Bls12_377Parameters;

impl Bls12Parameters for Bls12_377Parameters {
    fn x() -> Vec<u64> {
        vec![0x8508c00000000001]
    }

    fn x_is_negative() -> bool {
        false
    }

    fn twist_type() -> TwistType {
        TwistType::D
    }
}

/// The BLS12-381 curve.
pub struct Bls12_381Parameters;

impl Bls12Parameters for Bls12_381Parameters {
    fn x() -> Vec<u64> {
        vec![0xd201000000010000]
    }

    fn x_is_negative() -> bool {
        true
    }

    fn twist_type() -> TwistType {
        TwistType::M
    }
}

/// A point of G1 prepared for the pairing: for BLS12 curves, the point itself.
#[derive(Clone, Copy, Debug)]
pub struct G1Prepared<G: CurvePoint>(pub G);

impl<G: CurvePoint> G1Prepared<G> {
    /// Whether the point is the identity.
    pub fn is_zero(&self) -> (r: bool)
        ensures
            r == (self.0.dlog() == 0),
    {
        self.0.is_zero()
    }

    pub fn from_affine(p: G) -> (r: G1Prepared<G>)
        ensures
            r.0 == p,
    {
        G1Prepared(p)
    }
}

} // verus!
