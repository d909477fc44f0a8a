use vstd::arithmetic::div_mod::{
    lemma_add_mod_noop, lemma_mod_multiples_vanish, lemma_mul_mod_noop_right,
};
use vstd::arithmetic::power2::pow2;
use vstd::prelude::*;

use crate::bigint::BigInt;
use crate::group::CurvePoint;

verus! {

/// `Σ_{i<n} e[i] · x[i]`.
pub open spec fn dot(e: Seq<int>, x: Seq<int>, n: nat) -> int
    decreases n,
{
    if n == 0 {
        0
    } else {
        dot(e, x, (n - 1) as nat) + e[n - 1] * x[n - 1]
    }
}

/// The discrete logarithms of the points.
pub open spec fn dlogs<G: CurvePoint>(b: Seq<G>) -> Seq<int> {
    b.map_values(|p: G| p.dlog() as int)
}

/// The values of the scalars.
pub open spec fn values(s: Seq<BigInt>) -> Seq<int> {
    s.map_values(|x: BigInt| x.value() as int)
}

/// The number of (base, scalar) pairs that a multiplication reads: pairs are
/// taken by index up to the shorter of the two arrays.
pub open spec fn pair_count(nb: nat, ns: nat) -> nat {
    if nb <= ns {
        nb
    } else {
        ns
    }
}

/// The logarithm of `Σ scalars[i] · bases[i]`, before reduction modulo the
/// group order.
pub open spec fn msm_value<G: CurvePoint>(bases: Seq<G>, scalars: Seq<BigInt>) -> int {
    dot(values(scalars), dlogs(bases), pair_count(bases.len(), scalars.len()))
}

/// The column of digits of window `w`: `f(i, w)` for every pair `i < m`.
pub open spec fn column(f: spec_fn(int, nat) -> int, w: nat, m: nat) -> Seq<int> {
    Seq::new(m, |i: int| f(i, w))
}

/// Horner evaluation in base `2^c` of the window values `f(k) .. f(n - 1)`:
/// `Σ_{k <= w < n} 2^(c (w - k)) f(w)`.
pub open spec fn horner(f: spec_fn(nat) -> int, c: nat, k: nat, n: nat) -> int
    decreases n - k,
{
    if k >= n {
        0
    } else {
        f(k) + pow2(c) * horner(f, c, k + 1, n)
    }
}

/// The content of the bucket for digit magnitude `d >= 1` after the first
/// `n` pairs: the bases whose digit is `d`, less the bases whose digit is `-d`.
pub open spec fn bucket(e: Seq<int>, x: Seq<int>, d: int, n: nat) -> int
    decreases n,
{
    if n == 0 {
        0
    } else {
        bucket(e, x, d, (n - 1) as nat) + if e[n - 1] == d {
            x[n - 1]
        } else if e[n - 1] == -d {
            -x[n - 1]
        } else {
            0
        }
    }
}

/// `Σ_{lo <= d < hi} bucket(d)`: the running sum of summation by parts.
pub open spec fn range_sum(e: Seq<int>, x: Seq<int>, n: nat, lo: int, hi: int) -> int
    decreases hi - lo,
{
    if lo >= hi {
        0
    } else {
        bucket(e, x, lo, n) + range_sum(e, x, n, lo + 1, hi)
    }
}

/// `Σ_{lo <= d < hi} (d - lo + 1) · bucket(d)`: what summation by parts has
/// accumulated once it has walked down to `lo`.
pub open spec fn ramp_sum(e: Seq<int>, x: Seq<int>, n: nat, lo: int, hi: int) -> int
    decreases hi - lo,
{
    if lo >= hi {
        0
    } else {
        bucket(e, x, lo, n) + ramp_sum(e, x, n, lo + 1, hi) + range_sum(e, x, n, lo + 1, hi)
    }
}

/// `Σ_{lo <= d < hi} d · bucket(d)`.
pub open spec fn weighted_buckets(e: Seq<int>, x: Seq<int>, n: nat, lo: int, hi: int) -> int
    decreases hi - lo,
{
    if lo >= hi {
        0
    } else {
        lo * bucket(e, x, lo, n) + weighted_buckets(e, x, n, lo + 1, hi)
    }
}

proof fn lemma_ramp_is_weighted(e: Seq<int>, x: Seq<int>, n: nat, lo: int, hi: int)
    ensures
        ramp_sum(e, x, n, lo, hi) == weighted_buckets(e, x, n, lo, hi) - (lo - 1) * range_sum(
            e,
            x,
            n,
            lo,
            hi,
        ),
    decreases hi - lo,
{
    if lo < hi {
        lemma_ramp_is_weighted(e, x, n, lo + 1, hi);
        let b = bucket(e, x, lo, n);
        let r1 = range_sum(e, x, n, lo + 1, hi);
        assert(lo * b - (lo - 1) * (b + r1) == b - (lo - 1) * r1) by (nonlinear_arith);
        assert(lo * r1 == (lo - 1) * r1 + r1) by (nonlinear_arith);
    }
}

/// Adding pair `n` changes `Σ d · bucket(d)` by `e[n] · x[n]` when the digit's
/// magnitude lies in `lo..hi`.
proof fn lemma_weighted_step(e: Seq<int>, x: Seq<int>, n: nat, lo: int, hi: int)
    requires
        lo >= 1,
        n < e.len(),
    ensures
        weighted_buckets(e, x, n + 1, lo, hi) == weighted_buckets(e, x, n, lo, hi) + if (lo
            <= e[n as int] < hi) || (lo <= -e[n as int] < hi) {
            e[n as int] * x[n as int]
        } else {
            0
        },
    decreases hi - lo,
{
    if lo < hi {
        lemma_weighted_step(e, x, n, lo + 1, hi);
        let en = e[n as int];
        let xn = x[n as int];
        assert(bucket(e, x, lo, n + 1) == bucket(e, x, lo, n) + if en == lo {
            xn
        } else if en == -lo {
            -xn
        } else {
            0
        });
        if en == lo {
            assert(lo * (bucket(e, x, lo, n) + xn) == lo * bucket(e, x, lo, n) + en * xn)
                by (nonlinear_arith)
                requires
                    en == lo,
            ;
        } else if en == -lo {
            assert(lo * (bucket(e, x, lo, n) - xn) == lo * bucket(e, x, lo, n) + en * xn)
                by (nonlinear_arith)
                requires
                    en == -lo,
            ;
        }
    }
}

/// Summation of `d · bucket(d)` over all magnitudes gives back `Σ e[i] x[i]`.
pub proof fn lemma_buckets_dot(e: Seq<int>, x: Seq<int>, n: nat, top: int)
    requires
        n <= e.len(),
        forall|i: int| 0 <= i < n ==> -top <= #[trigger] e[i] <= top,
    ensures
        weighted_buckets(e, x, n, 1, top + 1) == dot(e, x, n),
    decreases n,
{
    if n > 0 {
        let m = (n - 1) as nat;
        lemma_buckets_dot(e, x, m, top);
        lemma_weighted_step(e, x, m, 1, top + 1);
        let em = e[m as int];
        if em == 0 {
            assert(em * x[m as int] == 0);
        }
    } else {
        lemma_weighted_zero(e, x, 1, top + 1);
    }
}

proof fn lemma_weighted_zero(e: Seq<int>, x: Seq<int>, lo: int, hi: int)
    ensures
        weighted_buckets(e, x, 0, lo, hi) == 0,
    decreases hi - lo,
{
    if lo < hi {
        lemma_weighted_zero(e, x, lo + 1, hi);
        assert(lo * bucket(e, x, lo, 0) == 0);
    }
}

/// Summation by parts over the buckets `1..=top` computes `Σ e[i] x[i]`.
pub proof fn lemma_summation_by_parts(e: Seq<int>, x: Seq<int>, n: nat, top: int)
    requires
        n <= e.len(),
        forall|i: int| 0 <= i < n ==> -top <= #[trigger] e[i] <= top,
    ensures
        ramp_sum(e, x, n, 1, top + 1) == dot(e, x, n),
{
    lemma_ramp_is_weighted(e, x, n, 1, top + 1);
    lemma_buckets_dot(e, x, n, top);
}

/// `dot` is linear: `dot(a) + m · dot(b) == dot(a + m b)`.
pub proof fn lemma_dot_linear(a: Seq<int>, b: Seq<int>, m: int, x: Seq<int>, n: nat)
    requires
        n <= a.len(),
        n <= b.len(),
    ensures
        dot(a, x, n) + m * dot(b, x, n) == dot(Seq::new(n, |i: int| a[i] + m * b[i]), x, n),
    decreases n,
{
    if n > 0 {
        let k = (n - 1) as nat;
        lemma_dot_linear(a, b, m, x, k);
        let s1 = Seq::new(k, |i: int| a[i] + m * b[i]);
        let s2 = Seq::new(n, |i: int| a[i] + m * b[i]);
        lemma_dot_prefix(s1, s2, x, k);
        let dbk = dot(b, x, k);
        assert(m * (dbk + b[k as int] * x[k as int]) == m * dbk + (m * b[k as int]) * x[k as int])
            by (nonlinear_arith);
        assert((a[k as int] + m * b[k as int]) * x[k as int] == a[k as int] * x[k as int] + (m
            * b[k as int]) * x[k as int]) by (nonlinear_arith);
    }
}

/// `dot` reads only the first `n` entries.
pub proof fn lemma_dot_prefix(s1: Seq<int>, s2: Seq<int>, x: Seq<int>, n: nat)
    requires
        n <= s1.len(),
        n <= s2.len(),
        forall|i: int| 0 <= i < n ==> s1[i] == s2[i],
    ensures
        dot(s1, x, n) == dot(s2, x, n),
    decreases n,
{
    if n > 0 {
        lemma_dot_prefix(s1, s2, x, (n - 1) as nat);
    }
}

/// Folding the windows of all pairs is folding the windows of each pair:
/// `horner(w -> Σ_i f(i, w) x[i]) == Σ_i horner(w -> f(i, w)) x[i]`.
pub proof fn lemma_horner_dot(
    f: spec_fn(int, nat) -> int,
    x: Seq<int>,
    m: nat,
    c: nat,
    k: nat,
    n: nat,
)
    ensures
        horner(|w: nat| dot(column(f, w, m), x, m), c, k, n) == dot(
            Seq::new(m, |i: int| horner(|w: nat| f(i, w), c, k, n)),
            x,
            m,
        ),
    decreases n - k,
{
    let g = |w: nat| dot(column(f, w, m), x, m);
    let p = Seq::new(m, |i: int| horner(|w: nat| f(i, w), c, k, n));
    if k >= n {
        lemma_dot_zero(p, x, m);
    } else {
        lemma_horner_dot(f, x, m, c, k + 1, n);
        let q = Seq::new(m, |i: int| horner(|w: nat| f(i, w), c, k + 1, n));
        let col = column(f, k, m);
        lemma_dot_linear(col, q, pow2(c) as int, x, m);
        assert(horner(g, c, k, n) == g(k) + pow2(c) * horner(g, c, k + 1, n));
        let s = Seq::new(m, |i: int| col[i] + pow2(c) * q[i]);
        assert forall|i: int| 0 <= i < m implies s[i] == p[i] by {
            let fi = |w: nat| f(i, w);
            assert(horner(fi, c, k, n) == fi(k) + pow2(c) * horner(fi, c, k + 1, n));
        }
        lemma_dot_prefix(s, p, x, m);
    }
}

pub proof fn lemma_dot_zero(p: Seq<int>, x: Seq<int>, m: nat)
    requires
        m <= p.len(),
        forall|i: int| 0 <= i < m ==> p[i] == 0,
    ensures
        dot(p, x, m) == 0,
    decreases m,
{
    if m > 0 {
        lemma_dot_zero(p, x, (m - 1) as nat);
    }
}

/// Sums of logarithms may be reduced before they are added.
pub proof fn lemma_add_mod(a: int, b: int, r: int)
    requires
        r > 0,
    ensures
        ((a % r) + (b % r)) % r == (a + b) % r,
{
    lemma_add_mod_noop(a, b, r);
}

/// The logarithm of a negated point.
pub proof fn lemma_neg_mod(a: int, r: int)
    requires
        r > 0,
    ensures
        (r - (a % r)) % r == (-a) % r,
{
    let q = a / r;
    assert(a == r * q + a % r) by {
        vstd::arithmetic::div_mod::lemma_fundamental_div_mod(a, r);
    }
    assert(r - (a % r) == r * (q + 1) + (-a)) by (nonlinear_arith)
        requires
            a == r * q + a % r,
    ;
    lemma_mod_multiples_vanish(q + 1, -a, r);
}

/// A logarithm may be reduced before it is doubled.
pub proof fn lemma_double_mod(a: int, r: int)
    requires
        r > 0,
    ensures
        (2 * (a % r)) % r == (2 * a) % r,
{
    lemma_mul_mod_noop_right(2, a, r);
}

} // verus!
