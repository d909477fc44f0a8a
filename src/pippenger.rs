use vstd::arithmetic::div_mod::{lemma_mod_twice, lemma_mul_mod_noop_right};
use vstd::arithmetic::power2::{lemma2_to64, lemma_pow2_adds, lemma_pow2_pos, pow2};
use vstd::bits::{lemma_u64_pow2_no_overflow, lemma_usize_pow2_no_overflow, lemma_usize_shl_is_mul};
use vstd::prelude::*;

use crate::bigint::{digit, BigInt};
use crate::group::CurvePoint;
use crate::model::{
    column, dlogs, dot, horner, lemma_add_mod, lemma_dot_prefix, lemma_double_mod,
    lemma_horner_dot, lemma_neg_mod, lemma_summation_by_parts, msm_value, pair_count, ramp_sum,
    range_sum, bucket, values,
};
use crate::recode::{
    lemma_top_carry_zero,
    recode_sd_chunk,
    lemma_sd_value, lemma_unsigned_value, lemma_windows_cover, num_windows, sd_carry, sd_digit,
    spec_num_windows, spec_window_width, window_width, window_width_sd,
};

verus! {

/// The digits as integers.
pub open spec fn int_digits(d: Seq<i64>) -> Seq<int> {
    d.map_values(|x: i64| x as int)
}

/// The unsigned digit of window `w` of scalar `i`.
pub open spec fn unsigned_digits(s: Seq<BigInt>, c: nat) -> spec_fn(int, nat) -> int {
    |i: int, w: nat| digit(s[i].value(), w * c, c) as int
}

/// The signed digit of window `w` of scalar `i`.
pub open spec fn signed_digits(s: Seq<BigInt>, c: nat) -> spec_fn(int, nat) -> int {
    |i: int, w: nat| sd_digit(s[i].value(), c, w)
}

/// What the bucket method computes with windows of `c` bits before
/// reduction: the window sums `Σ_i f(i, w) · dlog(bases[i])`, folded from the
/// most significant window down.
pub open spec fn windowed_value<G: CurvePoint>(
    bases: Seq<G>,
    scalars: Seq<BigInt>,
    f: spec_fn(int, nat) -> int,
    c: nat,
) -> int {
    let m = pair_count(bases.len(), scalars.len());
    horner(
        |w: nat| dot(column(f, w, m), dlogs(bases), m),
        c,
        0,
        spec_num_windows(G::spec_scalar_bits(), c),
    )
}

/// What the signed-digit bucket method computes with windows of `c` bits,
/// one window more than the scalar bits need, before reduction.
pub open spec fn signed_windowed_value<G: CurvePoint>(
    bases: Seq<G>,
    scalars: Seq<BigInt>,
    c: nat,
) -> int {
    let m = pair_count(bases.len(), scalars.len());
    horner(
        |w: nat| dot(column(signed_digits(scalars, c), w, m), dlogs(bases), m),
        c,
        0,
        spec_num_windows(G::spec_scalar_bits(), c) + 1,
    )
}

/// Every scalar is a canonical representative: below `2^bits`.
pub open spec fn canonical_scalars(s: Seq<BigInt>, bits: nat, m: nat) -> bool {
    forall|i: int| 0 <= i < m ==> #[trigger] s[i].value() < pow2(bits)
}

pub(crate) proof fn lemma_horner_ext(f: spec_fn(nat) -> int, g: spec_fn(nat) -> int, c: nat, k: nat, n: nat)
    requires
        forall|w: nat| #[trigger] f(w) == g(w),
    ensures
        horner(f, c, k, n) == horner(g, c, k, n),
    decreases n - k,
{
    if k < n {
        lemma_horner_ext(f, g, c, k + 1, n);
    }
}

proof fn lemma_horner_mod(f: spec_fn(nat) -> int, g: spec_fn(nat) -> int, c: nat, k: nat, n: nat, r: int)
    requires
        r > 0,
        forall|w: nat| k <= w < n ==> #[trigger] f(w) % r == g(w) % r,
    ensures
        horner(f, c, k, n) % r == horner(g, c, k, n) % r,
    decreases n - k,
{
    if k < n {
        lemma_horner_mod(f, g, c, k + 1, n, r);
        let hf = horner(f, c, k + 1, n);
        let hg = horner(g, c, k + 1, n);
        lemma_mul_mod_noop_right(pow2(c) as int, hf, r);
        lemma_mul_mod_noop_right(pow2(c) as int, hg, r);
        lemma_add_mod(f(k), pow2(c) * hf, r);
        lemma_add_mod(g(k), pow2(c) * hg, r);
        assert(f(k) % r == g(k) % r);
    }
}

/// The windows of every pair folded together are the scalars themselves.
pub proof fn lemma_unsigned_total<G: CurvePoint>(bases: Seq<G>, scalars: Seq<BigInt>, c: nat)
    requires
        c > 0,
        canonical_scalars(
            scalars,
            G::spec_scalar_bits(),
            pair_count(bases.len(), scalars.len()),
        ),
    ensures
        windowed_value(bases, scalars, unsigned_digits(scalars, c), c) == msm_value(
            bases,
            scalars,
        ),
{
    let m = pair_count(bases.len(), scalars.len());
    let n = spec_num_windows(G::spec_scalar_bits(), c);
    let f = unsigned_digits(scalars, c);
    let x = dlogs(bases);
    lemma_horner_dot(f, x, m, c, 0, n);
    let p = Seq::new(m, |i: int| horner(|w: nat| f(i, w), c, 0, n));
    assert forall|i: int| 0 <= i < m implies p[i] == values(scalars)[i] by {
        let v = scalars[i].value();
        lemma_windows_cover(v, G::spec_scalar_bits(), c);
        lemma_unsigned_value(v, c, n);
        lemma_horner_ext(|w: nat| f(i, w), |w: nat| digit(v, w * c, c) as int, c, 0, n);
    }
    lemma_dot_prefix(p, values(scalars), x, m);
}

/// The signed windows of every pair, one window more than the bits need,
/// folded together are the scalars themselves.
pub proof fn lemma_signed_total<G: CurvePoint>(bases: Seq<G>, scalars: Seq<BigInt>, c: nat)
    requires
        c > 1,
        canonical_scalars(
            scalars,
            G::spec_scalar_bits(),
            pair_count(bases.len(), scalars.len()),
        ),
    ensures
        signed_windowed_value(bases, scalars, c) == msm_value(bases, scalars),
{
    let m = pair_count(bases.len(), scalars.len());
    let n = spec_num_windows(G::spec_scalar_bits(), c) + 1;
    let f = signed_digits(scalars, c);
    let x = dlogs(bases);
    lemma_horner_dot(f, x, m, c, 0, n);
    let p = Seq::new(m, |i: int| horner(|w: nat| f(i, w), c, 0, n));
    assert forall|i: int| 0 <= i < m implies p[i] == values(scalars)[i] by {
        let v = scalars[i].value();
        let k = spec_num_windows(G::spec_scalar_bits(), c);
        lemma_windows_cover(v, G::spec_scalar_bits(), c);
        lemma_top_carry_zero(v, c, k);
        assert(c * k <= c * n) by (nonlinear_arith)
            requires
                n == k + 1,
        ;
        if c * k < c * n {
            vstd::arithmetic::power2::lemma_pow2_strictly_increases(c * k, c * n);
        }
        lemma_sd_value(v, c, n);
        assert(sd_carry(v, c, n) * pow2(c * n) == 0);
        lemma_horner_ext(|w: nat| f(i, w), |w: nat| sd_digit(v, c, w), c, 0, n);
    }
    lemma_dot_prefix(p, values(scalars), x, m);
}

proof fn lemma_sd_digit_range(v: nat, c: nat, w: nat)
    requires
        c > 1,
    ensures
        -pow2((c - 1) as nat) <= sd_digit(v, c, w) < pow2((c - 1) as nat),
{
    lemma_pow2_pos(c);
    lemma_pow2_adds(1, (c - 1) as nat);
    assert(pow2(1) == 2) by {
        lemma2_to64();
    }
    vstd::arithmetic::div_mod::lemma_mod_bound(
        (v / pow2(w * c)) as int,
        pow2(c) as int,
    );
    lemma_pow2_pos(w * c);
    vstd::arithmetic::div_mod::lemma_div_pos_is_pos(v as int, pow2(w * c) as int);
    if w > 0 {
        assert(sd_carry(v, c, w) == 0 || sd_carry(v, c, w) == 1);
    }
}

proof fn lemma_digit_of_one(c: nat, w: nat)
    requires
        c > 0,
    ensures
        digit(1, w * c, c) == if w == 0 {
            1nat
        } else {
            0
        },
{
    lemma_pow2_pos(w * c);
    lemma_pow2_pos(c);
    assert(pow2(0) == 1) by {
        lemma2_to64();
    }
    vstd::arithmetic::power2::lemma_pow2_strictly_increases(0, c);
    if w == 0 {
        assert(w * c == 0);
        assert(1nat / pow2(0) == 1);
        vstd::arithmetic::div_mod::lemma_small_mod(1, pow2(c));
        assert(digit(1, 0, c) == 1);
    } else {
        assert(w * c >= 1) by (nonlinear_arith)
            requires
                w > 0,
                c > 0,
        ;
        vstd::arithmetic::power2::lemma_pow2_strictly_increases(0, w * c);
        vstd::arithmetic::div_mod::lemma_basic_div(1, pow2(w * c) as int);
        assert(1nat / pow2(w * c) == 0);
        vstd::arithmetic::div_mod::lemma_small_mod(0, pow2(c));
    }
}

proof fn lemma_digit_of_zero(s: nat, c: nat)
    ensures
        digit(0, s, c) == 0,
{
    lemma_pow2_pos(s);
    lemma_pow2_pos(c);
    vstd::arithmetic::div_mod::lemma_basic_div(0, pow2(s) as int);
    vstd::arithmetic::div_mod::lemma_small_mod(0, pow2(c));
}

/// The multi-scalar multiplication by the bucket method.
pub struct VariableBaseMSM;

impl VariableBaseMSM {
    /// The sum `init + Σ_i digits[i] · bases[i]` for one window: the bases go
    /// into buckets by the magnitude of their digit (negated for a negative
    /// digit), and the buckets are combined by summation by parts.
    pub(crate) fn window_sum<G: CurvePoint>(bases: &[G], digits: &Vec<i64>, top: usize, init: G) -> (r: G)
        requires
            digits@.len() <= bases@.len(),
            1 <= top <= 0x4000_0000_0000_0000,
            forall|i: int|
                0 <= i < digits@.len() ==> -(top as int) <= #[trigger] digits@[i] <= top as int,
        ensures
            r.dlog() == (init.dlog() + dot(int_digits(digits@), dlogs(bases@), digits@.len()))
                % (G::order() as int),
    {
        let ghost e = int_digits(digits@);
        let ghost x = dlogs(bases@);
        let ghost m = digits@.len();
        let ghost ord = G::order() as int;
        proof {
            G::lemma_order_pos();
        }
        let mut buckets: Vec<G> = Vec::new();
        let mut k: usize = 0;
        while k < top
            invariant
                k <= top,
                buckets@.len() == k,
                forall|j: int| 0 <= j < k ==> #[trigger] buckets@[j].dlog() == 0,
            decreases top - k,
        {
            buckets.push(G::zero());
            k = k + 1;
        }
        let mut i: usize = 0;
        while i < digits.len()
            invariant
                i <= m,
                m == digits@.len(),
                m <= bases@.len(),
                ord == G::order() as int,
                ord > 1,
                e == int_digits(digits@),
                x == dlogs(bases@),
                buckets@.len() == top,
                1 <= top <= 0x4000_0000_0000_0000,
                forall|j: int|
                    0 <= j < digits@.len() ==> -(top as int) <= #[trigger] digits@[j] <= top as int,
                forall|j: int|
                    0 <= j < top ==> #[trigger] buckets@[j].dlog() == bucket(e, x, j + 1, i as nat)
                        % ord,
            decreases m - i,
        {
            let d = digits[i];
            let ghost old_buckets = buckets@;
            proof {
                G::lemma_dlog_range(bases@[i as int]);
                vstd::arithmetic::div_mod::lemma_small_mod(bases@[i as int].dlog(), ord as nat);
            }
            if d > 0 {
                let idx = (d - 1) as usize;
                let b = buckets[idx].add(&bases[i]);
                proof {
                    lemma_add_mod(bucket(e, x, idx + 1, i as nat), x[i as int], ord);
                }
                buckets.set(idx, b);
            } else if d < 0 {
                let idx = (-d - 1) as usize;
                let nb = bases[i].neg();
                let b = buckets[idx].add(&nb);
                proof {
                    lemma_neg_mod(x[i as int], ord);
                    lemma_add_mod(bucket(e, x, idx + 1, i as nat), -x[i as int], ord);
                }
                buckets.set(idx, b);
            }
            proof {
                assert forall|j: int| 0 <= j < top implies #[trigger] buckets@[j].dlog() == bucket(
                    e,
                    x,
                    j + 1,
                    (i + 1) as nat,
                ) % ord by {
                    assert(bucket(e, x, j + 1, (i + 1) as nat) == bucket(e, x, j + 1, i as nat)
                        + if e[i as int] == j + 1 {
                        x[i as int]
                    } else if e[i as int] == -(j + 1) {
                        -x[i as int]
                    } else {
                        0
                    });
                }
            }
            i = i + 1;
        }
        let mut running = G::zero();
        let mut res = init;
        let mut j: usize = top;
        proof {
            G::lemma_dlog_range(init);
            vstd::arithmetic::div_mod::lemma_small_mod(init.dlog(), ord as nat);
        }
        while j > 0
            invariant
                j <= top,
                buckets@.len() == top,
                ord == G::order() as int,
                ord > 1,
                forall|t: int|
                    0 <= t < top ==> #[trigger] buckets@[t].dlog() == bucket(e, x, t + 1, m) % ord,
                running.dlog() == range_sum(e, x, m, j + 1, top + 1) % ord,
                res.dlog() == (init.dlog() + ramp_sum(e, x, m, j + 1, top + 1)) % ord,
            decreases j,
        {
            let ghost lo = j as int;
            running = running.add(&buckets[j - 1]);
            proof {
                lemma_add_mod(range_sum(e, x, m, lo + 1, top + 1), bucket(e, x, lo, m), ord);
                assert(range_sum(e, x, m, lo, top + 1) == bucket(e, x, lo, m) + range_sum(
                    e,
                    x,
                    m,
                    lo + 1,
                    top + 1,
                ));
            }
            res = res.add(&running);
            proof {
                lemma_add_mod(
                    init.dlog() + ramp_sum(e, x, m, lo + 1, top + 1),
                    range_sum(e, x, m, lo, top + 1),
                    ord,
                );
                assert(ramp_sum(e, x, m, lo, top + 1) == bucket(e, x, lo, m) + ramp_sum(
                    e,
                    x,
                    m,
                    lo + 1,
                    top + 1,
                ) + range_sum(e, x, m, lo + 1, top + 1));
            }
            j = j - 1;
        }
        proof {
            assert forall|t: int| 0 <= t < m implies -(top as int) <= #[trigger] e[t] <= top as int by {
                assert(e[t] == digits@[t] as int);
            }
            lemma_summation_by_parts(e, x, m, top as int);
        }
        res
    }

    /// Doubles `p` `c` times.
    pub(crate) fn double_times<G: CurvePoint>(p: G, c: usize) -> (r: G)
        ensures
            r.dlog() == (pow2(c as nat) * p.dlog()) as int % (G::order() as int),
    {
        let ghost ord = G::order() as int;
        proof {
            G::lemma_order_pos();
            G::lemma_dlog_range(p);
            vstd::arithmetic::div_mod::lemma_small_mod(p.dlog(), ord as nat);
            assert(pow2(0) == 1) by {
                lemma2_to64();
            }
        }
        let mut acc = p;
        let mut t: usize = 0;
        while t < c
            invariant
                t <= c,
                ord == G::order() as int,
                ord > 1,
                acc.dlog() == (pow2(t as nat) * p.dlog()) as int % ord,
            decreases c - t,
        {
            let ghost before: int = (pow2(t as nat) * p.dlog()) as int;
            acc = acc.double();
            proof {
                lemma_double_mod(before, ord);
                lemma_pow2_adds(t as nat, 1);
                assert(pow2(1) == 2) by {
                    lemma2_to64();
                }
                assert(2 * before == pow2((t + 1) as nat) * p.dlog()) by (nonlinear_arith)
                    requires
                        before == pow2(t as nat) * p.dlog(),
                        pow2((t + 1) as nat) == pow2(t as nat) * 2,
                ;
            }
            t = t + 1;
        }
        acc
    }

    /// Folds the window sums from the most significant down: doubling the
    /// running total `c` times between windows.
    fn fold_windows<G: CurvePoint>(window_sums: &Vec<G>, c: usize) -> (r: G)
        requires
            window_sums@.len() >= 1,
        ensures
            r.dlog() == horner(
                |w: nat| window_sums@[w as int].dlog() as int,
                c as nat,
                0,
                window_sums@.len(),
            ) % (G::order() as int),
    {
        let ghost ord = G::order() as int;
        let ghost f = |w: nat| window_sums@[w as int].dlog() as int;
        let ghost n = window_sums@.len();
        proof {
            G::lemma_order_pos();
        }
        let mut total = G::zero();
        let mut w: usize = window_sums.len();
        proof {
            assert(horner(f, c as nat, n, n) == 0);
            assert(pow2(c as nat) * 0 == 0);
            vstd::arithmetic::div_mod::lemma_small_mod(0, ord as nat);
        }
        while w > 1
            invariant
                1 <= w <= n,
                n == window_sums@.len(),
                ord == G::order() as int,
                ord > 1,
                f == (|w: nat| window_sums@[w as int].dlog() as int),
                total.dlog() == (pow2(c as nat) * horner(f, c as nat, w as nat, n)) % ord,
            decreases w,
        {
            w = w - 1;
            let ghost h = horner(f, c as nat, (w + 1) as nat, n);
            let s = total.add(&window_sums[w]);
            proof {
                G::lemma_dlog_range(window_sums@[w as int]);
                vstd::arithmetic::div_mod::lemma_small_mod(window_sums@[w as int].dlog(), ord as nat);
                lemma_add_mod(pow2(c as nat) * h, f(w as nat), ord);
            }
            total = Self::double_times(s, c);
            proof {
                let a = pow2(c as nat) * h + f(w as nat);
                lemma_mul_mod_noop_right(pow2(c as nat) as int, a, ord);
                assert(horner(f, c as nat, w as nat, n) == f(w as nat) + pow2(c as nat) * h);
            }
        }
        let r = total.add(&window_sums[0]);
        proof {
            G::lemma_dlog_range(window_sums@[0]);
            vstd::arithmetic::div_mod::lemma_small_mod(window_sums@[0].dlog(), ord as nat);
            let h = horner(f, c as nat, 1, n);
            lemma_add_mod(pow2(c as nat) * h, f(0), ord);
            assert(horner(f, c as nat, 0, n) == f(0) + pow2(c as nat) * h);
        }
        r
    }

    /// The unsigned bucket method with windows of `c` bits. A scalar equal to
    /// one is added directly into the least significant window's sum instead
    /// of taking a bucket.
    fn msm_inner_c<G: CurvePoint>(bases: &[G], scalars: &[BigInt], c: usize) -> (r: G)
        requires
            0 < c < 63,
            c < usize::BITS,
            canonical_scalars(
                scalars@,
                G::spec_scalar_bits(),
                pair_count(bases@.len(), scalars@.len()),
            ),
        ensures
            r.dlog() == windowed_value(bases@, scalars@, unsigned_digits(scalars@, c as nat), c as nat)
                % (G::order() as int),
            r.dlog() == msm_value(bases@, scalars@) % (G::order() as int),
    {
        let ghost ord = G::order() as int;
        let ghost x = dlogs(bases@);
        let ghost f = unsigned_digits(scalars@, c as nat);
        let m = if bases.len() <= scalars.len() {
            bases.len()
        } else {
            scalars.len()
        };
        proof {
            G::lemma_order_pos();
        }
        let bits = G::scalar_bits();
        let nw = num_windows(bits, c);
        // Each scalar's kind is read once: zero, one, or any other.
        let mut zero_flags: Vec<bool> = Vec::new();
        let mut one_flags: Vec<bool> = Vec::new();
        let mut i: usize = 0;
        while i < m
            invariant
                i <= m,
                m <= scalars@.len(),
                zero_flags@.len() == i,
                one_flags@.len() == i,
                forall|j: int| 0 <= j < i ==> #[trigger] zero_flags@[j] == (scalars@[j].value() == 0),
                forall|j: int| 0 <= j < i ==> #[trigger] one_flags@[j] == (scalars@[j].value() == 1),
            decreases m - i,
        {
            zero_flags.push(scalars[i].is_zero());
            one_flags.push(scalars[i].is_one());
            i = i + 1;
        }
        proof {
            lemma_usize_pow2_no_overflow(c as nat);
            lemma_usize_shl_is_mul(1usize, c);
            if c < 62 {
                vstd::arithmetic::power2::lemma_pow2_strictly_increases(c as nat, 62);
            }
            vstd::arithmetic::power2::lemma_pow2_strictly_increases(0, c as nat);
            assert(pow2(0) == 1) by {
                lemma2_to64();
            }
            assert(pow2(62) == 0x4000_0000_0000_0000) by {
                lemma2_to64();
                vstd::arithmetic::power2::lemma2_to64_rest();
            }
        }
        let top: usize = (1usize << c) - 1;
        let mut window_sums: Vec<G> = Vec::new();
        let mut w: usize = 0;
        while w < nw
            invariant
                w <= nw,
                nw as nat == spec_num_windows(bits as nat, c as nat),
                bits as nat == G::spec_scalar_bits(),
                0 < bits <= 65536,
                nw <= bits,
                0 < c < 63,
                top as nat == pow2(c as nat) - 1,
                1 <= top <= 0x4000_0000_0000_0000,
                m == pair_count(bases@.len(), scalars@.len()),
                ord == G::order() as int,
                ord > 1,
                x == dlogs(bases@),
                f == unsigned_digits(scalars@, c as nat),
                zero_flags@.len() == m,
                one_flags@.len() == m,
                forall|j: int| 0 <= j < m ==> #[trigger] zero_flags@[j] == (scalars@[j].value() == 0),
                forall|j: int| 0 <= j < m ==> #[trigger] one_flags@[j] == (scalars@[j].value() == 1),
                window_sums@.len() == w,
                forall|k: int|
                    0 <= k < w ==> #[trigger] window_sums@[k].dlog() == dot(
                        column(f, k as nat, m as nat),
                        x,
                        m as nat,
                    ) % ord,
            decreases nw - w,
        {
            proof {
                assert(w * c < bits + c) by (nonlinear_arith)
                    requires
                        w < nw,
                        nw == (bits + c - 1) as int / c as int,
                        c > 0,
                ;
            }
            let start = w * c;
            let ghost col = column(f, w as nat, m as nat);
            let mut digits: Vec<i64> = Vec::new();
            let mut init = G::zero();
            let mut i: usize = 0;
            proof {
                vstd::arithmetic::div_mod::lemma_small_mod(0, ord as nat);
            }
            while i < m
                invariant
                    i <= m,
                    m == pair_count(bases@.len(), scalars@.len()),
                    0 < c < 63,
                    start == w * c,
                    top as nat == pow2(c as nat) - 1,
                    1 <= top <= 0x4000_0000_0000_0000,
                    ord == G::order() as int,
                    ord > 1,
                    x == dlogs(bases@),
                    col == column(f, w as nat, m as nat),
                    f == unsigned_digits(scalars@, c as nat),
                    zero_flags@.len() == m,
                    one_flags@.len() == m,
                    forall|j: int| 0 <= j < m ==> #[trigger] zero_flags@[j] == (scalars@[j].value() == 0),
                    forall|j: int| 0 <= j < m ==> #[trigger] one_flags@[j] == (scalars@[j].value() == 1),
                    digits@.len() == i,
                    forall|j: int| 0 <= j < i ==> 0 <= #[trigger] digits@[j] <= top as int,
                    init.dlog() == (dot(col, x, i as nat) - dot(int_digits(digits@), x, i as nat))
                        % ord,
                decreases m - i,
            {
                let ghost v = scalars@[i as int].value();
                let ghost before_digits = digits@;
                let ghost before = dot(col, x, i as nat) - dot(int_digits(digits@), x, i as nat);
                proof {
                    G::lemma_dlog_range(bases@[i as int]);
                    vstd::arithmetic::div_mod::lemma_small_mod(bases@[i as int].dlog(), ord as nat);
                    assert(col[i as int] == digit(v, (w * c) as nat, c as nat) as int);
                }
                if zero_flags[i] {
                    digits.push(0);
                    proof {
                        lemma_digit_of_zero((w * c) as nat, c as nat);
                    }
                } else if one_flags[i] {
                    digits.push(0);
                    proof {
                        lemma_digit_of_one(c as nat, w as nat);
                        assert((w * c) as nat == w as nat * c as nat);
                    }
                    if w == 0 {
                        init = init.add(&bases[i]);
                        proof {
                            lemma_add_mod(before, x[i as int], ord);
                        }
                    }
                } else {
                    let d = scalars[i].window(start, c);
                    proof {
                        lemma_pow2_pos(c as nat);
                        assert(pow2(c as nat) <= 0x8000_0000_0000_0000) by {
                            lemma_u64_pow2_no_overflow(c as nat);
                            vstd::arithmetic::power2::lemma_pow2_strictly_increases(c as nat, 63);
                            lemma2_to64();
                            vstd::arithmetic::power2::lemma2_to64_rest();
                        }
                    }
                    digits.push(d as i64);
                }
                proof {
                    let e1 = int_digits(digits@);
                    let e0 = int_digits(before_digits);
                    lemma_dot_prefix(e0, e1, x, i as nat);
                    assert(dot(e1, x, (i + 1) as nat) == dot(e1, x, i as nat) + e1[i as int] * x[i as int]);
                    assert(dot(col, x, (i + 1) as nat) == dot(col, x, i as nat) + col[i as int] * x[i as int]);
                    if one_flags@[i as int] && w == 0 {
                        assert(col[i as int] - e1[i as int] == 1);
                        assert(col[i as int] * x[i as int] - e1[i as int] * x[i as int] == x[i as int])
                            by (nonlinear_arith)
                            requires
                                col[i as int] - e1[i as int] == 1,
                        ;
                    } else {
                        assert(col[i as int] == e1[i as int]);
                    }
                }
                i = i + 1;
            }
            let s = Self::window_sum(bases, &digits, top, init);
            proof {
                let e = int_digits(digits@);
                let a = dot(col, x, m as nat) - dot(e, x, m as nat);
                let b = dot(e, x, m as nat);
                lemma_add_mod(a % ord, b, ord);
                lemma_mod_twice(a, ord);
                lemma_add_mod(a, b, ord);
                assert(s.dlog() == dot(col, x, m as nat) % ord);
            }
            let ghost before_sums = window_sums@;
            window_sums.push(s);
            proof {
                assert forall|k: int| 0 <= k < w + 1 implies #[trigger] window_sums@[k].dlog() == dot(
                    column(f, k as nat, m as nat),
                    x,
                    m as nat,
                ) % ord by {
                    if k < w {
                        assert(window_sums@[k] == before_sums[k]);
                    }
                }
            }
            w = w + 1;
        }
        proof {
            assert(nw >= 1) by (nonlinear_arith)
                requires
                    nw == (bits + c - 1) as int / c as int,
                    bits > 0,
                    c > 0,
            ;
        }
        let r = Self::fold_windows(&window_sums, c);
        proof {
            let g = |k: nat| dot(column(f, k, m as nat), x, m as nat);
            let h = |k: nat| window_sums@[k as int].dlog() as int;
            assert forall|k: nat| 0 <= k < nw implies #[trigger] h(k) % ord == g(k) % ord by {
                lemma_mod_twice(g(k), ord);
            }
            lemma_horner_mod(h, g, c as nat, 0, nw as nat, ord);
            lemma_unsigned_total(bases@, scalars@, c as nat);
        }
        r
    }

    /// Multi-scalar multiplication `Σ scalars[i] · bases[i]` with windows of
    /// `c` bits. Pairs are taken by index up to the shorter array.
    pub fn multi_scalar_mul_c<G: CurvePoint>(bases: &[G], scalars: &[BigInt], c: usize) -> (r: G)
        requires
            0 < c < 63,
            c < usize::BITS,
            canonical_scalars(
                scalars@,
                G::spec_scalar_bits(),
                pair_count(bases@.len(), scalars@.len()),
            ),
        ensures
            r.dlog() == windowed_value(bases@, scalars@, unsigned_digits(scalars@, c as nat), c as nat)
                % (G::order() as int),
            r.dlog() == msm_value(bases@, scalars@) % (G::order() as int),
    {
        Self::msm_inner_c(bases, scalars, c)
    }

    /// Multi-scalar multiplication with the window width chosen from the
    /// number of scalars.
    pub fn multi_scalar_mul<G: CurvePoint>(bases: &[G], scalars: &[BigInt]) -> (r: G)
        requires
            canonical_scalars(
                scalars@,
                G::spec_scalar_bits(),
                pair_count(bases@.len(), scalars@.len()),
            ),
        ensures
            r.dlog() == msm_value(bases@, scalars@) % (G::order() as int),
    {
        let c = window_width(scalars.len());
        Self::msm_inner_c(bases, scalars, c)
    }

    /// The unsigned bucket method over affine bases, with windows of `c` bits:
    /// the same windows, buckets and folding as `multi_scalar_mul_c`.
    pub fn multi_scalar_mul_affine_c<G: CurvePoint>(bases: &[G], scalars: &[BigInt], c: usize) -> (r: G)
        requires
            0 < c < 63,
            c < usize::BITS,
            canonical_scalars(
                scalars@,
                G::spec_scalar_bits(),
                pair_count(bases@.len(), scalars@.len()),
            ),
        ensures
            r.dlog() == windowed_value(bases@, scalars@, unsigned_digits(scalars@, c as nat), c as nat)
                % (G::order() as int),
            r.dlog() == msm_value(bases@, scalars@) % (G::order() as int),
    {
        Self::msm_inner_c(bases, scalars, c)
    }

    /// The unsigned bucket method over affine bases, with the window width
    /// chosen from the number of scalars.
    pub fn multi_scalar_mul_affine<G: CurvePoint>(bases: &[G], scalars: &[BigInt]) -> (r: G)
        requires
            canonical_scalars(
                scalars@,
                G::spec_scalar_bits(),
                pair_count(bases@.len(), scalars@.len()),
            ),
        ensures
            r.dlog() == msm_value(bases@, scalars@) % (G::order() as int),
    {
        let c = window_width(scalars.len());
        Self::msm_inner_c(bases, scalars, c)
    }

    /// Signed-digit bucket method with windows of `c` bits. The windows are
    /// recoded in chunks of as many windows as the thread pool has threads,
    /// each chunk taking the carries out of the one below. A negative digit
    /// puts the negated base into the bucket of its magnitude, so there are
    /// `2^(c-1)` buckets. One window more than the scalar bits need takes
    /// the carry out of the most significant one.
    pub fn multi_scalar_mul_affine_sd_c<G: CurvePoint>(bases: &[G], scalars: &[BigInt], c: usize) -> (r: G)
        requires
            1 < c < 63,
            c < usize::BITS,
            canonical_scalars(
                scalars@,
                G::spec_scalar_bits(),
                pair_count(bases@.len(), scalars@.len()),
            ),
        ensures
            r.dlog() == msm_value(bases@, scalars@) % (G::order() as int),
    {
        let ghost ord = G::order() as int;
        let ghost x = dlogs(bases@);
        let ghost f = signed_digits(scalars@, c as nat);
        let m = if bases.len() <= scalars.len() {
            bases.len()
        } else {
            scalars.len()
        };
        proof {
            G::lemma_order_pos();
        }
        let bits = G::scalar_bits();
        // one window more than the bits need, for the carry out of the top
        let nw = num_windows(bits, c) + 1;
        let threads = current_num_threads();
        let cpus: usize = if threads == 0 {
            1
        } else if threads > nw {
            nw
        } else {
            threads
        };
        let num_chunks = nw / cpus;
        proof {
            vstd::arithmetic::div_mod::lemma_fundamental_div_mod(nw as int, cpus as int);
            assert(num_chunks * cpus <= nw) by (nonlinear_arith)
                requires
                    nw == cpus * num_chunks + nw % cpus,
                    nw % cpus >= 0,
            ;
        }
        let remaining = nw - num_chunks * cpus;
        proof {
            vstd::arithmetic::div_mod::lemma_mod_pos_bound(nw as int, cpus as int);
            assert(num_chunks * cpus == cpus * num_chunks) by (nonlinear_arith);
            assert(remaining == nw % cpus);
            lemma_usize_pow2_no_overflow((c - 1) as nat);
            lemma_usize_shl_is_mul(1usize, (c - 1) as usize);
            vstd::arithmetic::power2::lemma_pow2_strictly_increases((c - 1) as nat, 62);
            lemma_pow2_pos((c - 1) as nat);
            assert(pow2(62) == 0x4000_0000_0000_0000) by {
                lemma2_to64();
                vstd::arithmetic::power2::lemma2_to64_rest();
            }
        }
        let top: usize = 1usize << (c - 1);
        let total_chunks = if remaining != 0 {
            num_chunks + 1
        } else {
            num_chunks
        };
        let mut carries: Vec<i64> = Vec::new();
        let mut l: usize = 0;
        while l < m
            invariant
                l <= m,
                carries@.len() == l,
                forall|j: int| 0 <= j < l ==> #[trigger] carries@[j] == 0,
            decreases m - l,
        {
            carries.push(0);
            l = l + 1;
        }
        let mut window_sums: Vec<G> = Vec::new();
        let mut ch: usize = 0;
        while ch < total_chunks
            invariant
                ch <= total_chunks,
                1 <= cpus <= nw,
                nw <= bits + 1,
                0 < bits <= 65536,
                nw as nat == spec_num_windows(bits as nat, c as nat) + 1,
                bits as nat == G::spec_scalar_bits(),
                nw == num_chunks * cpus + remaining,
                remaining < cpus,
                total_chunks == if remaining != 0 {
                    num_chunks + 1
                } else {
                    num_chunks as int
                },
                1 < c < 63,
                top as nat == pow2((c - 1) as nat),
                1 <= top <= 0x4000_0000_0000_0000,
                m == pair_count(bases@.len(), scalars@.len()),
                ord == G::order() as int,
                ord > 1,
                x == dlogs(bases@),
                f == signed_digits(scalars@, c as nat),
                carries@.len() == m,
                forall|j: int|
                    0 <= j < m ==> #[trigger] carries@[j] == sd_carry(
                        scalars@[j].value(),
                        c as nat,
                        (ch * cpus) as nat,
                    ),
                window_sums@.len() == if ch <= num_chunks {
                    ch * cpus
                } else {
                    nw as int
                },
                forall|k: int|
                    0 <= k < window_sums@.len() ==> #[trigger] window_sums@[k].dlog() == dot(
                        column(f, k as nat, m as nat),
                        x,
                        m as nat,
                    ) % ord,
            decreases total_chunks - ch,
        {
            let count = if ch < num_chunks {
                cpus
            } else {
                remaining
            };
            proof {
                assert((ch + 1) * cpus <= nw + cpus) by (nonlinear_arith)
                    requires
                        ch < total_chunks,
                        total_chunks <= num_chunks + 1,
                        nw == num_chunks * cpus + remaining,
                        remaining >= 0,
                ;
                assert((ch + 1) * cpus * c <= 2 * 65537 * 63) by (nonlinear_arith)
                    requires
                        (ch + 1) * cpus <= nw + cpus,
                        cpus <= nw,
                        nw <= 65537,
                        c < 63,
                ;
            }
            let mut coeffs: Vec<Vec<i64>> = Vec::new();
            let mut l: usize = 0;
            while l < m
                invariant
                    l <= m,
                    1 < c < 63,
                    (ch + 1) * cpus * c <= usize::MAX,
                    m == pair_count(bases@.len(), scalars@.len()),
                    carries@.len() == m,
                    coeffs@.len() == l,
                    forall|j: int|
                        l <= j < m ==> #[trigger] carries@[j] == sd_carry(
                            scalars@[j].value(),
                            c as nat,
                            (ch * cpus) as nat,
                        ),
                    forall|j: int|
                        0 <= j < l ==> #[trigger] carries@[j] == sd_carry(
                            scalars@[j].value(),
                            c as nat,
                            ((ch + 1) * cpus) as nat,
                        ),
                    forall|j: int|
                        0 <= j < l ==> (#[trigger] coeffs@[j])@.len() == cpus,
                    forall|j: int, t: int|
                        0 <= j < l && 0 <= t < cpus ==> #[trigger] coeffs@[j]@[t] == sd_digit(
                            scalars@[j].value(),
                            c as nat,
                            (ch * cpus + t) as nat,
                        ),
                decreases m - l,
            {
                let mut row: Vec<i64> = Vec::new();
                let mut t: usize = 0;
                while t < cpus
                    invariant
                        t <= cpus,
                        row@.len() == t,
                    decreases cpus - t,
                {
                    row.push(0);
                    t = t + 1;
                }
                let mut carry = carries[l];
                recode_sd_chunk(&scalars[l], c, ch, cpus, &mut row, &mut carry);
                carries.set(l, carry);
                coeffs.push(row);
                l = l + 1;
            }
            let mut t: usize = 0;
            while t < count
                invariant
                    t <= count,
                    count <= cpus,
                    1 < c < 63,
                    top as nat == pow2((c - 1) as nat),
                    1 <= top <= 0x4000_0000_0000_0000,
                    m == pair_count(bases@.len(), scalars@.len()),
                    ord == G::order() as int,
                    ord > 1,
                    x == dlogs(bases@),
                    f == signed_digits(scalars@, c as nat),
                    coeffs@.len() == m,
                    forall|j: int| 0 <= j < m ==> (#[trigger] coeffs@[j])@.len() == cpus,
                    forall|j: int, u: int|
                        0 <= j < m && 0 <= u < cpus ==> #[trigger] coeffs@[j]@[u] == sd_digit(
                            scalars@[j].value(),
                            c as nat,
                            (ch * cpus + u) as nat,
                        ),
                    window_sums@.len() == ch * cpus + t,
                    forall|k: int|
                        0 <= k < window_sums@.len() ==> #[trigger] window_sums@[k].dlog() == dot(
                            column(f, k as nat, m as nat),
                            x,
                            m as nat,
                        ) % ord,
                decreases count - t,
            {
                let ghost w = (ch * cpus + t) as nat;
                let mut digits: Vec<i64> = Vec::new();
                let mut i: usize = 0;
                while i < m
                    invariant
                        i <= m,
                        t < cpus,
                        1 < c < 63,
                        top as nat == pow2((c - 1) as nat),
                        w == ch * cpus + t,
                        coeffs@.len() == m,
                        f == signed_digits(scalars@, c as nat),
                        m == pair_count(bases@.len(), scalars@.len()),
                        forall|j: int| 0 <= j < m ==> (#[trigger] coeffs@[j])@.len() == cpus,
                        forall|j: int, u: int|
                            0 <= j < m && 0 <= u < cpus ==> #[trigger] coeffs@[j]@[u] == sd_digit(
                                scalars@[j].value(),
                                c as nat,
                                (ch * cpus + u) as nat,
                            ),
                        digits@.len() == i,
                        forall|j: int|
                            0 <= j < i ==> #[trigger] digits@[j] as int == column(
                                f,
                                w,
                                m as nat,
                            )[j],
                        forall|j: int|
                            0 <= j < i ==> -(top as int) <= #[trigger] digits@[j] <= top as int,
                    decreases m - i,
                {
                    proof {
                        lemma_sd_digit_range(scalars@[i as int].value(), c as nat, w);
                        assert(coeffs@[i as int]@[t as int] == sd_digit(
                            scalars@[i as int].value(),
                            c as nat,
                            w,
                        ));
                    }
                    digits.push(coeffs[i][t]);
                    i = i + 1;
                }
                proof {
                    vstd::arithmetic::div_mod::lemma_small_mod(0, ord as nat);
                }
                let s = Self::window_sum(bases, &digits, top, G::zero());
                proof {
                    let col = column(f, w, m as nat);
                    assert(int_digits(digits@).len() == m);
                    lemma_dot_prefix(int_digits(digits@), col, x, m as nat);
                }
                let ghost before_sums = window_sums@;
                window_sums.push(s);
                proof {
                    assert forall|k: int|
                        0 <= k < window_sums@.len() implies #[trigger] window_sums@[k].dlog() == dot(
                        column(f, k as nat, m as nat),
                        x,
                        m as nat,
                    ) % ord by {
                        if k < before_sums.len() {
                            assert(window_sums@[k] == before_sums[k]);
                        }
                    }
                }
                t = t + 1;
            }
            proof {
                assert(ch * cpus + cpus == (ch + 1) * cpus) by (nonlinear_arith);
            }
            ch = ch + 1;
        }
        proof {
            assert(window_sums@.len() == nw);
        }
        let r = Self::fold_windows(&window_sums, c);
        proof {
            let g = |k: nat| dot(column(f, k, m as nat), x, m as nat);
            let h = |k: nat| window_sums@[k as int].dlog() as int;
            assert forall|k: nat| 0 <= k < nw implies #[trigger] h(k) % ord == g(k) % ord by {
                lemma_mod_twice(g(k), ord);
            }
            lemma_horner_mod(h, g, c as nat, 0, nw as nat, ord);
            lemma_signed_total(bases@, scalars@, c as nat);
        }
        r
    }

    /// Signed-digit bucket method with the window width chosen from the
    /// number of scalars: one bit wider than the unsigned method's.
    pub fn multi_scalar_mul_affine_sd<G: CurvePoint>(bases: &[G], scalars: &[BigInt]) -> (r: G)
        requires
            canonical_scalars(
                scalars@,
                G::spec_scalar_bits(),
                pair_count(bases@.len(), scalars@.len()),
            ),
        ensures
            r.dlog() == msm_value(bases@, scalars@) % (G::order() as int),
    {
        let c = window_width_sd(scalars.len());
        Self::multi_scalar_mul_affine_sd_c(bases, scalars, c)
    }
}

/// Relies on rayon::current_num_threads: the number of threads of the
/// current pool, by which the signed-digit windows are grouped into chunks.
/// Nothing is assumed of the number.
#[verifier::external_body]
pub(crate) fn current_num_threads() -> (r: usize) {
    rayon::current_num_threads()
}

} // verus!
