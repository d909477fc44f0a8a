use vstd::prelude::*;

use crate::bigint::BigInt;
use crate::group::CurvePoint;
use crate::model::{dlogs, dot, msm_value, pair_count, values};
use crate::pippenger::{
    canonical_scalars, lemma_signed_total, lemma_unsigned_total, signed_windowed_value,
    unsigned_digits, windowed_value,
};

verus! {

/// The bucket method is exact for every window width: with windows of `c`
/// bits it computes `Σ scalars[i] · dlog(bases[i])`.
pub proof fn lemma_bucket_method_exact<G: CurvePoint>(bases: Seq<G>, scalars: Seq<BigInt>, c: nat)
    requires
        c > 0,
        canonical_scalars(
            scalars,
            G::spec_scalar_bits(),
            pair_count(bases.len(), scalars.len()),
        ),
    ensures
        windowed_value(bases, scalars, unsigned_digits(scalars, c), c) == msm_value(
            bases,
            scalars,
        ),
{
    lemma_unsigned_total(bases, scalars, c);
}

/// The result of the bucket method does not depend on the window width.
pub proof fn lemma_width_independent<G: CurvePoint>(
    bases: Seq<G>,
    scalars: Seq<BigInt>,
    c1: nat,
    c2: nat,
)
    requires
        c1 > 0,
        c2 > 0,
        canonical_scalars(
            scalars,
            G::spec_scalar_bits(),
            pair_count(bases.len(), scalars.len()),
        ),
    ensures
        windowed_value(bases, scalars, unsigned_digits(scalars, c1), c1) == windowed_value(
            bases,
            scalars,
            unsigned_digits(scalars, c2),
            c2,
        ),
{
    lemma_unsigned_total(bases, scalars, c1);
    lemma_unsigned_total(bases, scalars, c2);
}

/// Signed-digit recoding and unsigned windows give the same sum, whatever
/// the widths of their windows.
pub proof fn lemma_signed_agrees_with_unsigned<G: CurvePoint>(
    bases: Seq<G>,
    scalars: Seq<BigInt>,
    c_unsigned: nat,
    c_signed: nat,
)
    requires
        c_unsigned > 0,
        c_signed > 1,
        canonical_scalars(
            scalars,
            G::spec_scalar_bits(),
            pair_count(bases.len(), scalars.len()),
        ),
    ensures
        signed_windowed_value(bases, scalars, c_signed) == windowed_value(
            bases,
            scalars,
            unsigned_digits(scalars, c_unsigned),
            c_unsigned,
        ),
{
    lemma_unsigned_total(bases, scalars, c_unsigned);
    lemma_signed_total(bases, scalars, c_signed);
}

/// The signed-digit method's result does not depend on the window width.
pub proof fn lemma_signed_width_independent<G: CurvePoint>(
    bases: Seq<G>,
    scalars: Seq<BigInt>,
    c1: nat,
    c2: nat,
)
    requires
        c1 > 1,
        c2 > 1,
        canonical_scalars(
            scalars,
            G::spec_scalar_bits(),
            pair_count(bases.len(), scalars.len()),
        ),
    ensures
        signed_windowed_value(bases, scalars, c1) == signed_windowed_value(bases, scalars, c2),
{
    lemma_signed_total(bases, scalars, c1);
    lemma_signed_total(bases, scalars, c2);
}

/// Removing pair `i` from a dot product takes away its term.
pub proof fn lemma_dot_remove(e: Seq<int>, x: Seq<int>, n: nat, i: int)
    requires
        0 <= i < n,
        n <= e.len(),
        n <= x.len(),
    ensures
        dot(e, x, n) == dot(e.remove(i), x.remove(i), (n - 1) as nat) + e[i] * x[i],
    decreases n,
{
    let k = (n - 1) as nat;
    if i == k {
        lemma_dot_prefix2(e, e.remove(i), x, x.remove(i), k);
    } else {
        lemma_dot_remove(e, x, k, i);
        let k1 = (k - 1) as nat;
        assert(e.remove(i)[k1 as int] == e[k as int]);
        assert(x.remove(i)[k1 as int] == x[k as int]);
    }
}

/// `dot` over equal prefixes of both sequences.
pub proof fn lemma_dot_prefix2(e1: Seq<int>, e2: Seq<int>, x1: Seq<int>, x2: Seq<int>, n: nat)
    requires
        n <= e1.len(),
        n <= e2.len(),
        n <= x1.len(),
        n <= x2.len(),
        forall|i: int| 0 <= i < n ==> e1[i] == e2[i] && x1[i] == x2[i],
    ensures
        dot(e1, x1, n) == dot(e2, x2, n),
    decreases n,
{
    if n > 0 {
        lemma_dot_prefix2(e1, e2, x1, x2, (n - 1) as nat);
    }
}

/// A pair whose scalar is zero, or whose base is the identity, contributes
/// nothing: removing it leaves the sum unchanged.
pub proof fn lemma_zero_pair_contributes_nothing<G: CurvePoint>(
    bases: Seq<G>,
    scalars: Seq<BigInt>,
    i: int,
)
    requires
        0 <= i < pair_count(bases.len(), scalars.len()),
        scalars[i].value() == 0 || bases[i].dlog() == 0,
    ensures
        msm_value(bases, scalars) == msm_value(bases.remove(i), scalars.remove(i)),
{
    let m = pair_count(bases.len(), scalars.len());
    let e = values(scalars);
    let x = dlogs(bases);
    lemma_dot_remove(e, x, m, i);
    assert(e.remove(i) =~= values(scalars.remove(i)));
    assert(x.remove(i) =~= dlogs(bases.remove(i)));
    assert(e[i] * x[i] == 0) by (nonlinear_arith)
        requires
            e[i] == 0 || x[i] == 0,
    ;
}

/// `dot` over `lo..hi` of the sequences.
pub open spec fn dot_range(e: Seq<int>, x: Seq<int>, lo: int, hi: int) -> int {
    dot(e.subrange(lo, hi), x.subrange(lo, hi), (hi - lo) as nat)
}

/// A sum splits at any point into the sums of its two parts.
pub proof fn lemma_dot_split(e: Seq<int>, x: Seq<int>, lo: int, mid: int, hi: int)
    requires
        0 <= lo <= mid <= hi,
        hi <= e.len(),
        hi <= x.len(),
    ensures
        dot_range(e, x, lo, hi) == dot_range(e, x, lo, mid) + dot_range(e, x, mid, hi),
    decreases hi - mid,
{
    if mid == hi {
        assert(dot_range(e, x, mid, hi) == 0);
    } else {
        lemma_dot_split(e, x, lo, mid, hi - 1);
        let a = e.subrange(lo, hi);
        let b = x.subrange(lo, hi);
        let a1 = e.subrange(lo, hi - 1);
        let b1 = x.subrange(lo, hi - 1);
        lemma_dot_prefix2(a, a1, b, b1, (hi - 1 - lo) as nat);
        let c = e.subrange(mid, hi);
        let d = x.subrange(mid, hi);
        let c1 = e.subrange(mid, hi - 1);
        let d1 = x.subrange(mid, hi - 1);
        lemma_dot_prefix2(c, c1, d, d1, (hi - 1 - mid) as nat);
    }
}

/// Splitting the pairs at `mid` and adding the two partial sums gives the
/// whole sum: work may be divided between processors in any proportion.
pub proof fn lemma_msm_split<G: CurvePoint>(bases: Seq<G>, scalars: Seq<BigInt>, mid: int)
    requires
        bases.len() == scalars.len(),
        0 <= mid <= bases.len(),
    ensures
        msm_value(bases, scalars) == msm_value(bases.subrange(0, mid), scalars.subrange(0, mid))
            + msm_value(
            bases.subrange(mid, bases.len() as int),
            scalars.subrange(mid, scalars.len() as int),
        ),
{
    let n = bases.len() as int;
    let e = values(scalars);
    let x = dlogs(bases);
    lemma_dot_split(e, x, 0, mid, n);
    lemma_dot_prefix2(e.subrange(0, n), e, x.subrange(0, n), x, n as nat);
    assert(e.subrange(0, mid) =~= values(scalars.subrange(0, mid)));
    assert(x.subrange(0, mid) =~= dlogs(bases.subrange(0, mid)));
    assert(e.subrange(mid, n) =~= values(scalars.subrange(mid, n)));
    assert(x.subrange(mid, n) =~= dlogs(bases.subrange(mid, n)));
}

} // verus!
