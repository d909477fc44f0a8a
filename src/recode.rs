use vstd::arithmetic::div_mod::{lemma_div_denominator, lemma_mod_breakdown, lemma_small_mod};
use vstd::arithmetic::power2::{
    lemma2_to64, lemma_pow2_adds, lemma_pow2_pos, lemma_pow2_strictly_increases, pow2,
};
use vstd::bits::{lemma_u64_pow2_no_overflow, lemma_u64_shl_is_mul};
use vstd::prelude::*;

use crate::bigint::{digit, BigInt};
use crate::group::CurvePoint;
use crate::model::horner;

verus! {

/// `ceil(bits / c)`: the number of `c`-bit windows that cover `bits` bits.
pub open spec fn spec_num_windows(bits: nat, c: nat) -> nat
    recommends
        c > 0,
{
    ((bits + c - 1) as int / c as int) as nat
}

/// The carry that signed-digit recoding of `v` brings into window `w`.
pub open spec fn sd_carry(v: nat, c: nat, w: nat) -> int
    decreases w,
{
    if w == 0 {
        0
    } else if digit(v, ((w - 1) * c) as nat, c) + sd_carry(v, c, (w - 1) as nat) >= pow2(
        (c - 1) as nat,
    ) {
        1
    } else {
        0
    }
}

/// The signed digit of window `w`, in `-2^(c-1) .. 2^(c-1)`.
pub open spec fn sd_digit(v: nat, c: nat, w: nat) -> int {
    let a = digit(v, w * c, c) + sd_carry(v, c, w);
    if a >= pow2((c - 1) as nat) {
        a - pow2(c)
    } else {
        a
    }
}

/// What the signed digits of the windows `0 .. n` stand for: the value, less
/// the carry out of window `n - 1`, which windows from `n` on would hold.
pub open spec fn sd_value(v: nat, c: nat, n: nat) -> int {
    v as int - sd_carry(v, c, n) * pow2(c * n)
}

proof fn lemma_pow2_c(c: nat, a: nat, b: nat)
    requires
        a == b + 1,
    ensures
        pow2(c * a) == pow2(c) * pow2(c * b),
{
    assert(c * a == c + c * b) by (nonlinear_arith)
        requires
            a == b + 1,
    ;
    lemma_pow2_adds(c, c * b);
}

/// One step of the unsigned windows: the window at `k` and, above it, the rest.
proof fn lemma_digit_step(v: nat, c: nat, k: nat, n: nat)
    requires
        k < n,
    ensures
        (v / pow2(c * k)) % pow2(c * (n - k) as nat) == digit(v, k * c, c) + pow2(c) * ((v
            / pow2(c * (k + 1))) % pow2(c * (n - k - 1) as nat)),
{
    let x = v / pow2(c * k);
    lemma_pow2_pos(c * k);
    lemma_pow2_pos(c);
    lemma_pow2_pos(c * (n - k - 1) as nat);
    lemma_pow2_c(c, k + 1, k);
    lemma_pow2_c(c, (n - k) as nat, (n - k - 1) as nat);
    lemma_div_denominator(v as int, pow2(c * k) as int, pow2(c) as int);
    assert(pow2(c * k) * pow2(c) == pow2(c) * pow2(c * k)) by (nonlinear_arith);
    lemma_mod_breakdown(x as int, pow2(c) as int, pow2(c * (n - k - 1) as nat) as int);
    assert(k * c == c * k) by (nonlinear_arith);
}

/// The unsigned windows `k .. n` of `v`, folded in base `2^c`, give back the
/// bits of `v` from `c k` to `c n`.
pub proof fn lemma_unsigned_windows(v: nat, c: nat, k: nat, n: nat)
    requires
        k <= n,
    ensures
        horner(|w: nat| digit(v, w * c, c) as int, c, k, n) == (v / pow2(c * k)) % pow2(
            c * (n - k) as nat,
        ),
    decreases n - k,
{
    let f = |w: nat| digit(v, w * c, c) as int;
    if k == n {
        assert(c * ((n - k) as nat) == 0) by (nonlinear_arith)
            requires
                k == n,
        ;
        assert(pow2(0) == 1) by {
            lemma2_to64();
        }
        let x = (v / pow2(c * k)) as int;
        assert(x % 1 == 0) by (nonlinear_arith);
        assert(horner(f, c, k, n) == 0);
    } else {
        lemma_unsigned_windows(v, c, k + 1, n);
        lemma_digit_step(v, c, k, n);
        assert(horner(f, c, k, n) == f(k) + pow2(c) * horner(f, c, k + 1, n));
        assert(f(k) == digit(v, k * c, c));
        assert((n - (k + 1)) as nat == (n - k - 1) as nat);
        assert(horner(f, c, k + 1, n) == (v / pow2(c * (k + 1))) % pow2(
            c * (n - k - 1) as nat,
        ));
        let d = digit(v, k * c, c);
        let p = pow2(c);
        let h1 = horner(f, c, k + 1, n);
        let x1 = (v / pow2(c * (k + 1))) % pow2(c * (n - k - 1) as nat);
        let u = (v / pow2(c * k)) % pow2(c * (n - k) as nat);
        lemma_pow2_pos(c * (n - k - 1) as nat);
        lemma_pow2_pos(c * (k + 1));
        vstd::arithmetic::div_mod::lemma_div_pos_is_pos(v as int, pow2(c * (k + 1)) as int);
        vstd::arithmetic::div_mod::lemma_mod_pos_bound(
            (v / pow2(c * (k + 1))) as int,
            pow2(c * (n - k - 1) as nat) as int,
        );
        vstd::arithmetic::mul::lemma_mul_nonnegative(p as int, x1 as int);
        assert(u == d + p * x1);
        assert(h1 == x1);
        assert(horner(f, c, k, n) == d + p * h1);
        assert(p * h1 == p * x1);
    }
}

/// The signed digits of the windows `k .. n` of `v`, folded in base `2^c`,
/// give back the same bits as the unsigned ones, with the carries into `k`
/// and out of `n` accounted for.
pub proof fn lemma_sd_windows(v: nat, c: nat, k: nat, n: nat)
    requires
        k <= n,
        c > 0,
    ensures
        horner(|w: nat| sd_digit(v, c, w), c, k, n) + sd_carry(v, c, n) * pow2(
            c * (n - k) as nat,
        ) == (v / pow2(c * k)) % pow2(c * (n - k) as nat) + sd_carry(v, c, k),
    decreases n - k,
{
    if k == n {
        assert(c * ((n - k) as nat) == 0) by (nonlinear_arith)
            requires
                k == n,
        ;
        assert(pow2(0) == 1) by {
            lemma2_to64();
        }
        let x = (v / pow2(c * k)) as int;
        assert(x % 1 == 0) by (nonlinear_arith);
        assert(horner(|w: nat| sd_digit(v, c, w), c, k, n) == 0);
        assert(sd_carry(v, c, n) * 1 == sd_carry(v, c, k));
    } else {
        lemma_sd_windows(v, c, k + 1, n);
        assert((n - (k + 1)) as nat == (n - k - 1) as nat);
        lemma_digit_step(v, c, k, n);
        lemma_pow2_c(c, (n - k) as nat, (n - k - 1) as nat);
        lemma_pow2_adds(1, (c - 1) as nat);
        assert(pow2(1) == 2) by {
            lemma2_to64();
        }
        let f = |w: nat| sd_digit(v, c, w);
        assert(horner(f, c, k, n) == f(k) + pow2(c) * horner(f, c, k + 1, n));
        let h1 = horner(f, c, k + 1, n);
        let cn = sd_carry(v, c, n);
        let pw_rest = pow2(c * (n - k - 1) as nat);
        let ck1 = sd_carry(v, c, k + 1);
        assert(((k + 1 - 1) * c) as nat == k * c);
        assert(ck1 == if digit(v, k * c, c) + sd_carry(v, c, k) >= pow2((c - 1) as nat) {
            1int
        } else {
            0
        });
        if ck1 == 1 {
            assert(pow2(c) * ck1 == pow2(c));
        } else {
            assert(pow2(c) * ck1 == 0);
        }
        assert(sd_digit(v, c, k) == digit(v, k * c, c) + sd_carry(v, c, k) - pow2(c) * ck1);
        assert(pow2(c) * (h1 + cn * pw_rest) == pow2(c) * h1 + cn * (pow2(c) * pw_rest))
            by (nonlinear_arith);
        let x1 = (v / pow2(c * (k + 1))) % pow2(c * (n - k - 1) as nat);
        lemma_pow2_pos(c * (n - k - 1) as nat);
        lemma_pow2_pos(c);
        lemma_pow2_pos(c * (k + 1));
        vstd::arithmetic::div_mod::lemma_div_pos_is_pos(v as int, pow2(c * (k + 1)) as int);
        vstd::arithmetic::div_mod::lemma_mod_pos_bound(
            (v / pow2(c * (k + 1))) as int,
            pow2(c * (n - k - 1) as nat) as int,
        );
        vstd::arithmetic::mul::lemma_mul_nonnegative(pow2(c) as int, x1 as int);
        vstd::arithmetic::mul::lemma_mul_nonnegative(pow2(c) as int, pw_rest as int);
        let u = (v / pow2(c * k)) % pow2(c * (n - k) as nat);
        assert(u == digit(v, k * c, c) + pow2(c) * x1);
        assert(h1 + cn * pw_rest == x1 + ck1);
        assert(pow2(c * (n - k) as nat) == pow2(c) * pw_rest);
        assert(horner(f, c, k, n) + cn * pow2(c * (n - k) as nat) == u + sd_carry(v, c, k))
            by (nonlinear_arith)
            requires
                horner(f, c, k, n) == sd_digit(v, c, k) + pow2(c) * h1,
                sd_digit(v, c, k) == digit(v, k * c, c) + sd_carry(v, c, k) - pow2(c) * ck1,
                u == digit(v, k * c, c) + pow2(c) * x1,
                h1 + cn * pw_rest == x1 + ck1,
                pow2(c * (n - k) as nat) == pow2(c) * pw_rest,
        ;
    }
}

/// The signed digits of all windows stand for `sd_value`.
pub proof fn lemma_sd_value(v: nat, c: nat, n: nat)
    requires
        c > 0,
        v < pow2(c * n),
    ensures
        horner(|w: nat| sd_digit(v, c, w), c, 0, n) == sd_value(v, c, n),
{
    lemma_sd_windows(v, c, 0, n);
    assert(c * 0 == 0);
    assert(sd_carry(v, c, 0) == 0);
    assert((n - 0) as nat == n);
    assert(pow2(0) == 1) by {
        lemma2_to64();
    }
    assert(n - 0 == n);
    lemma_small_mod(v, pow2(c * n));
    assert(pow2(c * 0) == 1);
    assert(v / 1 == v);
    assert(v / pow2(c * 0) == v);
    assert(c * ((n - 0) as nat) == c * n);
    let h = horner(|w: nat| sd_digit(v, c, w), c, 0, n);
    assert(h + sd_carry(v, c, n) * pow2(c * n) == v);
}

/// The unsigned windows of all windows stand for `v`.
pub proof fn lemma_unsigned_value(v: nat, c: nat, n: nat)
    requires
        v < pow2(c * n),
    ensures
        horner(|w: nat| digit(v, w * c, c) as int, c, 0, n) == v,
{
    lemma_unsigned_windows(v, c, 0, n);
    assert(c * 0 == 0);
    assert((n - 0) as nat == n);
    assert(v / 1 == v);
    assert(pow2(0) == 1) by {
        lemma2_to64();
    }
    lemma_small_mod(v, pow2(c * n));
}

/// `n` windows of `c` bits cover `bits` bits: a scalar below `2^bits` is
/// below `2^(c n)`.
pub proof fn lemma_windows_cover(v: nat, bits: nat, c: nat)
    requires
        c > 0,
        v < pow2(bits),
    ensures
        v < pow2(c * spec_num_windows(bits, c)),
{
    let n = spec_num_windows(bits, c);
    assert(c * n >= bits) by (nonlinear_arith)
        requires
            c > 0,
            n == (bits + c - 1) as int / c as int,
    ;
    if c * n > bits {
        lemma_pow2_strictly_increases(bits, c * n);
    }
}

/// `ceil(bits / c)`.
pub fn num_windows(bits: usize, c: usize) -> (r: usize)
    requires
        c > 0,
    ensures
        r as nat == spec_num_windows(bits as nat, c as nat),
        r <= bits,
{
    let q = bits / c;
    let rem = bits % c;
    proof {
        vstd::arithmetic::div_mod::lemma_fundamental_div_mod(bits as int, c as int);
        assert(bits == c * q + rem);
        assert(bits == q * c + rem) by (nonlinear_arith)
            requires
                bits == c * q + rem,
        ;
        if rem == 0 {
            vstd::arithmetic::div_mod::lemma_fundamental_div_mod_converse_div(
                (bits + c - 1) as int,
                c as int,
                q as int,
                (c - 1) as int,
            );
            assert(q <= bits) by (nonlinear_arith)
                requires
                    bits == q * c + rem,
                    c > 0,
                    q >= 0,
                    rem >= 0,
            ;
        } else {
            assert((bits + c - 1) as int == (q + 1) * c + (rem - 1)) by (nonlinear_arith)
                requires
                    bits == q * c + rem,
            ;
            vstd::arithmetic::div_mod::lemma_fundamental_div_mod_converse_div(
                (bits + c - 1) as int,
                c as int,
                (q + 1) as int,
                (rem - 1) as int,
            );
            assert(q + 1 <= bits) by (nonlinear_arith)
                requires
                    bits == q * c + rem,
                    c > 0,
                    q >= 0,
                    rem > 0,
            ;
        }
    }
    if rem == 0 {
        q
    } else {
        q + 1
    }
}

/// The least `k` with `2^(3k) >= n^2`, that is `ceil(2/3 · log2(n))`.
pub open spec fn is_ceil_two_thirds_log2(k: nat, n: nat) -> bool {
    &&& pow2(3 * k) >= n * n
    &&& k == 0 || pow2((3 * (k - 1)) as nat) < n * n
}

fn ceil_two_thirds_log2(n: usize) -> (r: usize)
    ensures
        is_ceil_two_thirds_log2(r as nat, n as nat),
        r <= 43,
{
    proof {
        assert((n as nat) * (n as nat) <= 0xffff_ffff_ffff_ffffnat * 0xffff_ffff_ffff_ffffnat)
            by (nonlinear_arith)
            requires
                n <= 0xffff_ffff_ffff_ffffnat,
        ;
    }
    let nn: u128 = (n as u128) * (n as u128);
    let mut k: usize = 0;
    let mut p: u128 = 1;
    proof {
        lemma2_to64();
    }
    while k < 42 && p < nn
        invariant
            k <= 42,
            p as nat == pow2(3 * k as nat),
            nn == n * n,
            k == 0 || pow2((3 * (k - 1)) as nat) < n * n,
        decreases 42 - k,
    {
        proof {
            lemma_pow2_adds(3 * k as nat, 3);
            assert(pow2(3) == 8) by {
                lemma2_to64();
            }
            assert(3 * k + 3 < 128);
            lemma_pow2_strictly_increases(3 * k as nat + 3, 128);
            lemma_pow2_adds(64, 64);
            assert(pow2(64) == 0x1_0000_0000_0000_0000nat) by {
                lemma2_to64();
                vstd::arithmetic::power2::lemma2_to64_rest();
            }
        }
        p = p * 8;
        k = k + 1;
    }
    if p < nn {
        proof {
            assert(k == 42);
            assert(n * n <= 0xffff_ffff_ffff_ffff * 0xffff_ffff_ffff_ffffnat) by (nonlinear_arith)
                requires
                    n <= 0xffff_ffff_ffff_ffffnat,
            ;
            lemma_pow2_adds(64, 65);
            lemma_pow2_adds(64, 64);
            lemma_pow2_adds(1, 128);
            assert(pow2(1) == 2 && pow2(64) == 0x1_0000_0000_0000_0000nat) by {
                lemma2_to64();
            }
        }
        43
    } else {
        k
    }
}

/// Window width for the unsigned bucket method: 3 below 32 pairs, else
/// `ceil(2/3 · log2(n)) - 2`.
pub open spec fn spec_window_width(n: nat) -> nat {
    if n < 32 {
        3
    } else {
        ((choose|k: nat| is_ceil_two_thirds_log2(k, n)) - 2) as nat
    }
}

proof fn lemma_ceil_log_unique(a: nat, b: nat, n: nat)
    requires
        is_ceil_two_thirds_log2(a, n),
        is_ceil_two_thirds_log2(b, n),
    ensures
        a == b,
{
    if a < b {
        lemma_pow2_strictly_increases(3 * a, (3 * (b - 1)) as nat);
        if 3 * a == 3 * (b - 1) {
        }
    } else if b < a {
        lemma_pow2_strictly_increases(3 * b, (3 * (a - 1)) as nat);
        if 3 * b == 3 * (a - 1) {
        }
    }
}

proof fn lemma_ceil_log_at_least_four(k: nat, n: nat)
    requires
        is_ceil_two_thirds_log2(k, n),
        n >= 32,
    ensures
        k >= 4,
{
    assert(n * n >= 1024) by (nonlinear_arith)
        requires
            n >= 32,
    ;
    if k < 4 {
        lemma2_to64();
        if k < 3 {
            lemma_pow2_strictly_increases(3 * k, 9);
        }
    }
}

/// The width of the windows that the unsigned bucket method uses for `n` pairs.
pub fn window_width(n: usize) -> (r: usize)
    ensures
        r as nat == spec_window_width(n as nat),
        2 <= r <= 41,
        r + 1 < usize::BITS,
{
    if n < 32 {
        3
    } else {
        let k = ceil_two_thirds_log2(n);
        proof {
            lemma_ceil_log_unique(k as nat, choose|j: nat| is_ceil_two_thirds_log2(j, n as nat), n as nat);
            lemma_ceil_log_at_least_four(k as nat, n as nat);
            if usize::BITS == 32 {
                assert(n * n < 0x1_0000_0000_0000_0000nat) by (nonlinear_arith)
                    requires
                        n < 0x1_0000_0000nat,
                ;
                lemma_pow2_adds(64, 2);
                assert(pow2(64) == 0x1_0000_0000_0000_0000nat) by {
                    lemma2_to64();
                    vstd::arithmetic::power2::lemma2_to64_rest();
                }
                if k > 22 {
                    lemma_pow2_strictly_increases(64, (3 * (k - 1)) as nat);
                    if 3 * (k - 1) == 64 {
                    }
                }
            }
        }
        k - 2
    }
}

/// Window width for signed-digit recoding: one bit more than the unsigned
/// width, for the same number of buckets.
pub fn window_width_sd(n: usize) -> (r: usize)
    ensures
        r as nat == spec_window_width(n as nat) + 1,
        3 <= r <= 42,
        r < usize::BITS,
{
    window_width(n) + 1
}

/// Decomposes `scalar` into its unsigned `c`-bit window digits, least
/// significant first, over `bits` bits.
pub fn decompose(scalar: &BigInt, c: usize, bits: usize) -> (r: Vec<u64>)
    requires
        0 < c < 64,
    ensures
        r@.len() == spec_num_windows(bits as nat, c as nat),
        forall|w: int|
            0 <= w < r@.len() ==> #[trigger] r@[w] as nat == digit(
                scalar.value(),
                (w * c) as nat,
                c as nat,
            ),
{
    let n = num_windows(bits, c);
    let mut r: Vec<u64> = Vec::new();
    let mut w: usize = 0;
    while w < n
        invariant
            n as nat == spec_num_windows(bits as nat, c as nat),
            n <= bits,
            0 < c < 64,
            w <= n,
            r@.len() == w,
            forall|j: int|
                0 <= j < w ==> #[trigger] r@[j] as nat == digit(
                    scalar.value(),
                    (j * c) as nat,
                    c as nat,
                ),
        decreases n - w,
    {
        assert(w * c <= bits) by (nonlinear_arith)
            requires
                w < n,
                n == (bits + c - 1) as int / c as int,
                c > 0,
        ;
        let d = scalar.window(w * c, c);
        r.push(d);
        w = w + 1;
    }
    r
}

/// One step of signed-digit recoding: the digit of a window whose unsigned
/// digit is `d`, given the carry into it, and the carry out.
fn sd_step(d: u64, carry: i64, c: usize) -> (r: (i64, i64))
    requires
        1 < c < 63,
        (d as nat) < pow2(c as nat),
        0 <= carry <= 1,
    ensures
        ({
            let a = d + carry;
            &&& r.0 == if a >= pow2((c - 1) as nat) {
                a - pow2(c as nat)
            } else {
                a
            }
            &&& r.1 == if a >= pow2((c - 1) as nat) {
                1int
            } else {
                0
            }
        }),
{
    proof {
        lemma_u64_pow2_no_overflow(c as nat);
        lemma_u64_shl_is_mul(1u64, c as u64);
        lemma_u64_pow2_no_overflow((c - 1) as nat);
        lemma_u64_shl_is_mul(1u64, (c - 1) as u64);
        lemma_pow2_strictly_increases(c as nat, 63);
        lemma_pow2_strictly_increases((c - 1) as nat, c as nat);
        assert(pow2(63) == 0x8000000000000000) by {
            lemma2_to64();
            vstd::arithmetic::power2::lemma2_to64_rest();
        }
    }
    let full: u64 = 1u64 << (c as u64);
    let half: u64 = 1u64 << ((c - 1) as u64);
    let a: i64 = d as i64 + carry;
    if a >= half as i64 {
        (a - full as i64, 1)
    } else {
        (a, 0)
    }
}

/// Recodes `scalar` into signed digits of `c` bits over the scalar field's
/// bit length, the most significant window first. Where a carry leaves the
/// most significant window, it comes first as one more digit, 1.
pub fn recode_sd<G: CurvePoint>(scalar: &BigInt, c: usize) -> (r: Vec<i64>)
    requires
        1 < c < 63,
        scalar.value() < pow2(G::spec_scalar_bits()),
    ensures
        r@.len() == spec_num_windows(G::spec_scalar_bits(), c as nat) + sd_carry(
            scalar.value(),
            c as nat,
            spec_num_windows(G::spec_scalar_bits(), c as nat),
        ),
        horner(|w: nat| r@[r@.len() - 1 - w] as int, c as nat, 0, r@.len()) == scalar.value(),
        forall|j: int|
            0 <= j < r@.len() ==> #[trigger] r@[j] == sd_digit(
                scalar.value(),
                c as nat,
                (r@.len() - 1 - j) as nat,
            ),
{
    let bits = G::scalar_bits();
    let digits = decompose(scalar, c, bits);
    let n = digits.len();
    let mut low_first: Vec<i64> = Vec::new();
    let mut carry: i64 = 0;
    let mut w: usize = 0;
    while w < n
        invariant
            n == digits@.len(),
            1 < c < 63,
            w <= n,
            low_first@.len() == w,
            carry == sd_carry(scalar.value(), c as nat, w as nat),
            forall|j: int|
                0 <= j < n ==> #[trigger] digits@[j] as nat == digit(
                    scalar.value(),
                    (j * c) as nat,
                    c as nat,
                ),
            forall|j: int|
                0 <= j < w ==> #[trigger] low_first@[j] == sd_digit(
                    scalar.value(),
                    c as nat,
                    j as nat,
                ),
        decreases n - w,
    {
        let d = digits[w];
        proof {
            lemma_pow2_pos(c as nat);
            assert(digit(scalar.value(), (w * c) as nat, c as nat) < pow2(c as nat)) by {
                vstd::arithmetic::div_mod::lemma_mod_bound(
                    (scalar.value() / pow2((w * c) as nat)) as int,
                    pow2(c as nat) as int,
                );
            }
            assert(sd_carry(scalar.value(), c as nat, (w + 1) as nat) == if digit(
                scalar.value(),
                (w * c) as nat,
                c as nat,
            ) + sd_carry(scalar.value(), c as nat, w as nat) >= pow2((c - 1) as nat) {
                1int
            } else {
                0
            });
        }
        let (e, next) = sd_step(d, carry, c);
        low_first.push(e);
        carry = next;
        w = w + 1;
    }
    let ghost v = scalar.value();
    let ghost n0 = n as nat;
    if carry != 0 {
        proof {
            lemma_windows_cover(v, bits as nat, c as nat);
            lemma_pow2_pos((n0 * c) as nat);
            vstd::arithmetic::div_mod::lemma_basic_div(v as int, pow2(c as nat * n0) as int);
            assert(n0 * c == c * n0) by (nonlinear_arith);
            lemma_pow2_pos(c as nat);
            vstd::arithmetic::div_mod::lemma_small_mod(0, pow2(c as nat));
            assert(pow2(1) == 2) by {
                lemma2_to64();
            }
            if c > 2 {
                lemma_pow2_strictly_increases(1, (c - 1) as nat);
            }
            assert(sd_digit(v, c as nat, n0) == 1);
        }
        low_first.push(1);
    }
    let len = low_first.len();
    let mut r: Vec<i64> = Vec::new();
    let mut j: usize = 0;
    while j < len
        invariant
            len == low_first@.len(),
            j <= len,
            r@.len() == j,
            forall|i: int| 0 <= i < j ==> #[trigger] r@[i] == low_first@[len - 1 - i],
        decreases len - j,
    {
        r.push(low_first[len - 1 - j]);
        j = j + 1;
    }
    proof {
        let ln = len as nat;
        lemma_windows_cover(v, bits as nat, c as nat);
        if carry != 0 {
            lemma_top_carry_zero(v, c as nat, n0);
        }
        assert(sd_carry(v, c as nat, ln) == 0);
        assert(c as nat * n0 <= c as nat * ln) by (nonlinear_arith)
            requires
                n0 <= ln,
        ;
        if c as nat * n0 < c as nat * ln {
            lemma_pow2_strictly_increases(c as nat * n0, c as nat * ln);
        }
        lemma_sd_value(v, c as nat, ln);
        assert(sd_carry(v, c as nat, ln) * pow2(c as nat * ln) == 0);
        lemma_horner_ext_upto(
            |w: nat| r@[r@.len() - 1 - w] as int,
            |w: nat| sd_digit(v, c as nat, w),
            c as nat,
            0,
            ln,
        );
    }
    r
}

/// With one window more than the bits need, no carry leaves the top window.
pub proof fn lemma_top_carry_zero(v: nat, c: nat, n: nat)
    requires
        c > 1,
        v < pow2(c * n),
    ensures
        sd_carry(v, c, n + 1) == 0,
{
    lemma_pow2_pos(c * n);
    lemma_pow2_pos(c);
    vstd::arithmetic::div_mod::lemma_basic_div(v as int, pow2(c * n) as int);
    assert(n * c == c * n) by (nonlinear_arith);
    vstd::arithmetic::div_mod::lemma_small_mod(0, pow2(c));
    assert(digit(v, n * c, c) == 0);
    assert(pow2(1) == 2) by {
        lemma2_to64();
    }
    if c > 2 {
        lemma_pow2_strictly_increases(1, (c - 1) as nat);
    }
    assert(((n + 1 - 1) * c) as nat == n * c);
    if n > 0 {
        assert(sd_carry(v, c, n) == 0 || sd_carry(v, c, n) == 1);
    }
}

/// Folding reads only the windows `k .. n`.
pub proof fn lemma_horner_ext_upto(
    f: spec_fn(nat) -> int,
    g: spec_fn(nat) -> int,
    c: nat,
    k: nat,
    n: nat,
)
    requires
        forall|w: nat| k <= w < n ==> #[trigger] f(w) == g(w),
    ensures
        horner(f, c, k, n) == horner(g, c, k, n),
    decreases n - k,
{
    if k < n {
        lemma_horner_ext_upto(f, g, c, k + 1, n);
    }
}

/// The carry into window `w0 + k` when signed-digit recoding of `v` starts at
/// window `w0` with the carry `cin`.
pub open spec fn chunk_carry(v: nat, c: nat, w0: nat, cin: int, k: nat) -> int
    decreases k,
{
    if k == 0 {
        cin
    } else if digit(v, ((w0 + k - 1) * c) as nat, c) + chunk_carry(v, c, w0, cin, (k - 1) as nat)
        >= pow2((c - 1) as nat) {
        1
    } else {
        0
    }
}

/// The signed digit of window `w0 + k` in that recoding.
pub open spec fn chunk_digit(v: nat, c: nat, w0: nat, cin: int, k: nat) -> int {
    let a = digit(v, ((w0 + k) * c) as nat, c) + chunk_carry(v, c, w0, cin, k);
    if a >= pow2((c - 1) as nat) {
        a - pow2(c)
    } else {
        a
    }
}

/// Started with the carry of the windows below, the recoding of a chunk is
/// the recoding of the whole scalar.
pub proof fn lemma_chunk_agrees(v: nat, c: nat, w0: nat, k: nat)
    ensures
        chunk_carry(v, c, w0, sd_carry(v, c, w0), k) == sd_carry(v, c, w0 + k),
        chunk_digit(v, c, w0, sd_carry(v, c, w0), k) == sd_digit(v, c, w0 + k),
    decreases k,
{
    if k > 0 {
        lemma_chunk_agrees(v, c, w0, (k - 1) as nat);
        assert(((w0 + k - 1) * c) as nat == ((w0 + (k - 1) as nat) * c) as nat);
        assert((w0 + k - 1) as nat == w0 + (k - 1) as nat);
    }
    assert(((w0 + k) * c) as nat == (w0 + k) * c);
}

/// The digits of windows `j .. n` of a chunk, with the carry into `j` and
/// the carry out, stand for the chunk's bits from window `j` on.
proof fn lemma_chunk_windows(v: nat, c: nat, w0: nat, cin: int, j: nat, n: nat)
    requires
        j <= n,
        c > 0,
    ensures
        horner(|k: nat| chunk_digit(v, c, w0, cin, k), c, j, n) + chunk_carry(v, c, w0, cin, n)
            * pow2(c * (n - j) as nat) == (v / pow2(c * (w0 + j))) % pow2(c * (n - j) as nat)
            + chunk_carry(v, c, w0, cin, j),
    decreases n - j,
{
    let f = |k: nat| chunk_digit(v, c, w0, cin, k);
    if j == n {
        assert(c * ((n - j) as nat) == 0) by (nonlinear_arith)
            requires
                j == n,
        ;
        assert(pow2(0) == 1) by {
            lemma2_to64();
        }
        let x = (v / pow2(c * (w0 + j))) as int;
        assert(x % 1 == 0) by (nonlinear_arith);
        assert(horner(f, c, j, n) == 0);
    } else {
        lemma_chunk_windows(v, c, w0, cin, j + 1, n);
        lemma_digit_step(v, c, w0 + j, w0 + n);
        assert((w0 + n - (w0 + j)) as nat == (n - j) as nat);
        assert((w0 + n - (w0 + j) - 1) as nat == (n - (j + 1)) as nat);
        assert(c * (w0 + j + 1) == c * (w0 + (j + 1)));
        lemma_pow2_c(c, (n - j) as nat, (n - j - 1) as nat);
        lemma_pow2_adds(1, (c - 1) as nat);
        assert(pow2(1) == 2) by {
            lemma2_to64();
        }
        assert(horner(f, c, j, n) == f(j) + pow2(c) * horner(f, c, j + 1, n));
        let h1 = horner(f, c, j + 1, n);
        let cn = chunk_carry(v, c, w0, cin, n);
        let pw_rest = pow2(c * (n - j - 1) as nat);
        let ck1 = chunk_carry(v, c, w0, cin, j + 1);
        let d = digit(v, (w0 + j) * c, c);
        assert(((w0 + (j + 1) - 1) * c) as nat == (w0 + j) * c);
        assert(((w0 + j) * c) as nat == (w0 + j) * c);
        assert(ck1 == if d + chunk_carry(v, c, w0, cin, j) >= pow2((c - 1) as nat) {
            1int
        } else {
            0
        });
        if ck1 == 1 {
            assert(pow2(c) * ck1 == pow2(c));
        } else {
            assert(pow2(c) * ck1 == 0);
        }
        assert(f(j) == d + chunk_carry(v, c, w0, cin, j) - pow2(c) * ck1);
        let x1 = (v / pow2(c * (w0 + j + 1))) % pow2(c * (n - j - 1) as nat);
        lemma_pow2_pos(c * (n - j - 1) as nat);
        lemma_pow2_pos(c);
        lemma_pow2_pos(c * (w0 + j + 1));
        vstd::arithmetic::div_mod::lemma_div_pos_is_pos(v as int, pow2(c * (w0 + j + 1)) as int);
        vstd::arithmetic::div_mod::lemma_mod_pos_bound(
            (v / pow2(c * (w0 + j + 1))) as int,
            pow2(c * (n - j - 1) as nat) as int,
        );
        vstd::arithmetic::mul::lemma_mul_nonnegative(pow2(c) as int, x1 as int);
        vstd::arithmetic::mul::lemma_mul_nonnegative(pow2(c) as int, pw_rest as int);
        let u = (v / pow2(c * (w0 + j))) % pow2(c * (n - j) as nat);
        assert(u == d + pow2(c) * x1);
        assert(h1 + cn * pw_rest == x1 + ck1);
        assert(pow2(c * (n - j) as nat) == pow2(c) * pw_rest);
        assert(horner(f, c, j, n) + cn * pow2(c * (n - j) as nat) == u + chunk_carry(
            v,
            c,
            w0,
            cin,
            j,
        )) by (nonlinear_arith)
            requires
                horner(f, c, j, n) == f(j) + pow2(c) * h1,
                f(j) == d + chunk_carry(v, c, w0, cin, j) - pow2(c) * ck1,
                u == d + pow2(c) * x1,
                h1 + cn * pw_rest == x1 + ck1,
                pow2(c * (n - j) as nat) == pow2(c) * pw_rest,
        ;
    }
}

/// Recodes the windows `chunk_pos · num_cores .. (chunk_pos + 1) · num_cores`
/// of `scalar` into signed digits, starting with the carry `carry_in` and
/// leaving in it the carry out of this chunk. Digit `i` of the chunk goes to
/// `vec_coeff[i]`: the digits, weighted by `2^(c i)`, and the carry out,
/// weighted by `2^(c · num_cores)`, add up to the chunk's bits and the carry
/// in. Started with the carry out of the windows below, the digits are those
/// of the whole scalar's recoding.
pub fn recode_sd_chunk(
    scalar: &BigInt,
    c: usize,
    chunk_pos: usize,
    num_cores: usize,
    vec_coeff: &mut Vec<i64>,
    carry_in: &mut i64,
)
    requires
        1 < c < 63,
        old(vec_coeff)@.len() >= num_cores,
        (chunk_pos + 1) * num_cores * c <= usize::MAX,
        0 <= *old(carry_in) <= 1,
    ensures
        final(vec_coeff)@.len() == old(vec_coeff)@.len(),
        forall|i: int|
            0 <= i < num_cores ==> #[trigger] final(vec_coeff)@[i] == chunk_digit(
                scalar.value(),
                c as nat,
                (chunk_pos * num_cores) as nat,
                *old(carry_in) as int,
                i as nat,
            ),
        forall|i: int|
            0 <= i < num_cores ==> -pow2((c - 1) as nat) <= #[trigger] final(vec_coeff)@[i] < pow2(
                (c - 1) as nat,
            ),
        forall|i: int|
            num_cores <= i < old(vec_coeff)@.len() ==> #[trigger] final(vec_coeff)@[i] == old(
                vec_coeff,
            )@[i],
        0 <= *final(carry_in) <= 1,
        horner(|i: nat| final(vec_coeff)@[i as int] as int, c as nat, 0, num_cores as nat)
            + *final(carry_in) * pow2((c * num_cores) as nat) == (scalar.value() / pow2(
            (c * num_cores * chunk_pos) as nat,
        )) % pow2((c * num_cores) as nat) + *old(carry_in),
        *old(carry_in) == sd_carry(scalar.value(), c as nat, (chunk_pos * num_cores) as nat) ==> {
            &&& forall|i: int|
                0 <= i < num_cores ==> #[trigger] final(vec_coeff)@[i] == sd_digit(
                    scalar.value(),
                    c as nat,
                    (chunk_pos * num_cores + i) as nat,
                )
            &&& *final(carry_in) == sd_carry(
                scalar.value(),
                c as nat,
                ((chunk_pos + 1) * num_cores) as nat,
            )
        },
{
    let ghost v = scalar.value();
    let ghost cin = *carry_in as int;
    proof {
        assert(chunk_pos * num_cores <= (chunk_pos + 1) * num_cores) by (nonlinear_arith)
            requires
                chunk_pos >= 0,
                num_cores >= 0,
        ;
        assert((chunk_pos + 1) * num_cores <= (chunk_pos + 1) * num_cores * c) by (nonlinear_arith)
            requires
                c > 1,
                chunk_pos >= 0,
                num_cores >= 0,
        ;
    }
    let start_w = chunk_pos * num_cores;
    proof {
        assert(start_w + num_cores == (chunk_pos + 1) * num_cores) by (nonlinear_arith)
            requires
                start_w == chunk_pos * num_cores,
        ;
        assert((start_w + num_cores) <= (start_w + num_cores) * c) by (nonlinear_arith)
            requires
                c > 1,
                start_w + num_cores >= 0,
        ;
    }
    let mut i: usize = 0;
    while i < num_cores
        invariant
            1 < c < 63,
            i <= num_cores,
            start_w == chunk_pos * num_cores,
            (start_w + num_cores) * c <= usize::MAX,
            start_w + num_cores <= usize::MAX,
            vec_coeff@.len() == old(vec_coeff)@.len(),
            old(vec_coeff)@.len() >= num_cores,
            *carry_in == chunk_carry(v, c as nat, start_w as nat, cin, i as nat),
            0 <= *carry_in <= 1,
            v == scalar.value(),
            forall|j: int|
                0 <= j < i ==> #[trigger] vec_coeff@[j] == chunk_digit(
                    v,
                    c as nat,
                    start_w as nat,
                    cin,
                    j as nat,
                ),
            forall|j: int|
                0 <= j < i ==> -pow2((c - 1) as nat) <= #[trigger] vec_coeff@[j] < pow2(
                    (c - 1) as nat,
                ),
            forall|j: int|
                num_cores <= j < old(vec_coeff)@.len() ==> #[trigger] vec_coeff@[j] == old(
                    vec_coeff,
                )@[j],
        decreases num_cores - i,
    {
        proof {
            assert((start_w + i) * c <= (start_w + num_cores) * c) by (nonlinear_arith)
                requires
                    i < num_cores,
                    c > 1,
                    i >= 0,
            ;
        }
        let window_start = (start_w + i) * c;
        let d = scalar.window(window_start, c);
        proof {
            assert(((start_w + (i + 1) as nat - 1) * c) as nat == ((start_w + i) * c) as nat);
            assert(chunk_carry(v, c as nat, start_w as nat, cin, (i + 1) as nat) == if digit(
                v,
                ((start_w + i) * c) as nat,
                c as nat,
            ) + chunk_carry(v, c as nat, start_w as nat, cin, i as nat) >= pow2((c - 1) as nat) {
                1int
            } else {
                0
            });
            lemma_pow2_adds(1, (c - 1) as nat);
            lemma_pow2_pos((c - 1) as nat);
            assert(pow2(1) == 2) by {
                lemma2_to64();
            }
        }
        let (e, next) = sd_step(d, *carry_in, c);
        vec_coeff.set(i, e);
        *carry_in = next;
        i = i + 1;
    }
    proof {
        let nc = num_cores as nat;
        let cc = c as nat;
        lemma_chunk_windows(v, cc, start_w as nat, cin, 0, nc);
        assert(cc * (start_w as nat + 0) == (cc * nc * chunk_pos) as nat) by (nonlinear_arith)
            requires
                start_w == chunk_pos * num_cores,
                cc == c,
                nc == num_cores,
        ;
        assert((c * num_cores) as nat == cc * ((nc - 0) as nat));
        lemma_horner_ext_upto(
            |k: nat| vec_coeff@[k as int] as int,
            |k: nat| chunk_digit(v, cc, start_w as nat, cin, k),
            cc,
            0,
            nc,
        );
        if cin == sd_carry(v, cc, start_w as nat) {
            assert forall|j: int| 0 <= j < num_cores implies #[trigger] vec_coeff@[j] == sd_digit(
                v,
                cc,
                (chunk_pos * num_cores + j) as nat,
            ) by {
                lemma_chunk_agrees(v, cc, start_w as nat, j as nat);
            }
            lemma_chunk_agrees(v, cc, start_w as nat, nc);
            assert(start_w + num_cores == (chunk_pos + 1) * num_cores) by (nonlinear_arith)
                requires
                    start_w == chunk_pos * num_cores,
            ;
        }
    }
}

} // verus!
