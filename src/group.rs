use vstd::prelude::*;

verus! {

/// A point of a cyclic group of prime order, written additively.
///
/// Every such group is isomorphic to the integers modulo its order, so a point
/// is described by its discrete logarithm `dlog` with respect to a fixed
/// generator. The operations of the group are stated through that number:
/// this is the narrow interface that the curve arithmetic offers to the
/// multi-scalar multiplication.
pub trait CurvePoint: Sized + Copy {
    /// The order of the group.
    spec fn order() -> nat;

    /// The discrete logarithm of the point, in `0..order()`.
    spec fn dlog(&self) -> nat;

    /// The bit length of the scalar field's modulus.
    spec fn spec_scalar_bits() -> nat;

    proof fn lemma_order_pos()
        ensures
            Self::order() > 1,
    ;

    proof fn lemma_dlog_range(p: Self)
        ensures
            p.dlog() < Self::order(),
    ;

    fn scalar_bits() -> (r: usize)
        ensures
            r as nat == Self::spec_scalar_bits(),
            0 < r <= 65536,
    ;

    /// The identity (the point at infinity).
    fn zero() -> (r: Self)
        ensures
            r.dlog() == 0,
    ;

    fn is_zero(&self) -> (r: bool)
        ensures
            r == (self.dlog() == 0),
    ;

    fn add(&self, other: &Self) -> (r: Self)
        ensures
            r.dlog() == (self.dlog() + other.dlog()) % Self::order(),
    ;

    fn double(&self) -> (r: Self)
        ensures
            r.dlog() == (2 * self.dlog()) % Self::order(),
    ;

    fn neg(&self) -> (r: Self)
        ensures
            r.dlog() == (Self::order() - self.dlog()) % (Self::order() as int),
    ;
}

/// The order of `ModPoint`'s group: the Mersenne prime 2^61 - 1.
pub const MOD_POINT_ORDER: u64 = 2305843009213693951;

/// A point of the cyclic group of order 2^61 - 1, held as its discrete
/// logarithm. It is a prime-order group in which every point is known by its
/// logarithm, so that sums can be checked by integer arithmetic.
#[derive(Clone, Copy, Debug, PartialEq, Eq, Structural)]
pub struct ModPoint {
    pub v: u64,
}

impl ModPoint {
    /// The point `v · G` for the generator `G`.
    pub fn new(v: u64) -> (r: ModPoint)
        ensures
            r.v == v % MOD_POINT_ORDER,
    {
        ModPoint { v: v % MOD_POINT_ORDER }
    }

    /// The generator `G`.
    pub fn generator() -> (r: ModPoint)
        ensures
            r.dlog() == 1,
    {
        ModPoint { v: 1 }
    }

    /// The discrete logarithm of the point.
    pub fn log(&self) -> (r: u64)
        ensures
            r as nat == self.dlog(),
    {
        self.v % MOD_POINT_ORDER
    }
}

impl CurvePoint for ModPoint {
    open spec fn order() -> nat {
        MOD_POINT_ORDER as nat
    }

    open spec fn dlog(&self) -> nat {
        (self.v % MOD_POINT_ORDER) as nat
    }

    open spec fn spec_scalar_bits() -> nat {
        61
    }

    proof fn lemma_order_pos() {
    }

    proof fn lemma_dlog_range(p: Self) {
    }

    fn scalar_bits() -> (r: usize) {
        61
    }

    fn zero() -> (r: Self) {
        ModPoint { v: 0 }
    }

    fn is_zero(&self) -> (r: bool) {
        self.v % MOD_POINT_ORDER == 0
    }

    fn add(&self, other: &Self) -> (r: Self) {
        let a = self.v % MOD_POINT_ORDER;
        let b = other.v % MOD_POINT_ORDER;
        ModPoint { v: (a + b) % MOD_POINT_ORDER }
    }

    fn double(&self) -> (r: Self) {
        let a = self.v % MOD_POINT_ORDER;
        ModPoint { v: (a + a) % MOD_POINT_ORDER }
    }

    fn neg(&self) -> (r: Self) {
        let a = self.v % MOD_POINT_ORDER;
        ModPoint { v: (MOD_POINT_ORDER - a) % MOD_POINT_ORDER }
    }
}

} // verus!
