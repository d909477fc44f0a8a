use vstd::arithmetic::div_mod::{
    lemma_div_denominator, lemma_fundamental_div_mod, lemma_hoist_over_denominator,
    lemma_mod_multiples_vanish,
};
use vstd::arithmetic::mul::{lemma_mul_is_associative, lemma_mul_nonnegative};
use vstd::arithmetic::power2::{lemma2_to64, lemma_pow2_adds, lemma_pow2_pos, pow2};
use vstd::bits::{lemma_u128_shr_is_div, lemma_u64_pow2_no_overflow, lemma_u64_shl_is_mul};
use vstd::prelude::*;

verus! {

/// The number that little-endian 64-bit limbs stand for.
pub open spec fn limbs_value(l: Seq<u64>) -> nat
    decreases l.len(),
{
    if l.len() == 0 {
        0
    } else {
        l[0] as nat + pow2(64) * limbs_value(l.drop_first())
    }
}

/// The value of the limbs from index `k` on.
pub open spec fn tail_value(l: Seq<u64>, k: nat) -> nat {
    if k < l.len() {
        limbs_value(l.subrange(k as int, l.len() as int))
    } else {
        0
    }
}

/// The limb at index `k`, zero past the end.
pub open spec fn limb_at(l: Seq<u64>, k: nat) -> nat {
    if k < l.len() {
        l[k as int] as nat
    } else {
        0
    }
}

/// The unsigned window digit: `c` bits of `v` from bit `start` on.
pub open spec fn digit(v: nat, start: nat, c: nat) -> nat {
    (v / pow2(start)) % pow2(c)
}

proof fn lemma_tail_unfold(l: Seq<u64>, k: nat)
    ensures
        tail_value(l, k) == limb_at(l, k) + pow2(64) * tail_value(l, k + 1),
{
    if k < l.len() {
        let s = l.subrange(k as int, l.len() as int);
        assert(s.len() > 0);
        assert(limbs_value(s) == s[0] as nat + pow2(64) * limbs_value(s.drop_first()));
        assert(s[0] == l[k as int]);
        if k + 1 == l.len() {
            assert(s.drop_first().len() == 0);
            assert(limbs_value(s.drop_first()) == 0);
        } else {
            assert(s.drop_first() =~= l.subrange(k + 1 as int, l.len() as int));
        }
    }
}

proof fn lemma_tail_zero(l: Seq<u64>)
    ensures
        tail_value(l, 0) == limbs_value(l),
{
    if l.len() > 0 {
        assert(l.subrange(0, l.len() as int) =~= l);
    }
}

/// Dropping `k` whole limbs divides by 2^(64k).
proof fn lemma_div_limbs(l: Seq<u64>, k: nat)
    ensures
        limbs_value(l) / pow2(64 * k) == tail_value(l, k),
    decreases k,
{
    if k == 0 {
        lemma_tail_zero(l);
        assert(pow2(0) == 1) by {
            lemma2_to64();
        }
        assert(64 * k == 0);
        assert(limbs_value(l) / 1 == limbs_value(l));
    } else {
        let j = (k - 1) as nat;
        lemma_div_limbs(l, j);
        lemma_pow2_pos(64 * j);
        lemma_pow2_pos(64);
        lemma_pow2_adds(64 * j, 64);
        assert(64 * k == 64 * j + 64);
        lemma_div_denominator(limbs_value(l) as int, pow2(64 * j) as int, pow2(64) as int);
        lemma_tail_unfold(l, j);
        let t = tail_value(l, k);
        let a = limb_at(l, j);
        assert(a < pow2(64)) by {
            lemma2_to64();
        }
        assert((a + pow2(64) * t) as int / (pow2(64) as int) == t) by {
            lemma_hoist_over_denominator(a as int, t as int, pow2(64) as nat);
            assert(a as int / pow2(64) as int == 0) by {
                vstd::arithmetic::div_mod::lemma_basic_div(a as int, pow2(64) as int);
            }
            assert(t * pow2(64) == pow2(64) * t) by (nonlinear_arith);
        }
        let v = limbs_value(l) as int;
        assert(pow2(64 * k) == pow2(64 * j) * pow2(64));
        assert(v / (pow2(64 * j) * pow2(64)) as int == (v / pow2(64 * j) as int) / pow2(64) as int);
        assert(v / pow2(64 * j) as int == (a + pow2(64) * t) as int);
    }
}

/// `(w + 2^128 · t) / 2^o mod 2^c` only reads `w` when `o + c <= 128`.
proof fn lemma_window_of_two_limbs(w: nat, t: nat, o: nat, c: nat)
    requires
        o + c <= 128,
    ensures
        ((w + pow2(128) * t) / pow2(o)) % pow2(c) == (w / pow2(o)) % pow2(c),
{
    let r = (128 - o - c) as nat;
    lemma_pow2_pos(o);
    lemma_pow2_pos(c);
    lemma_pow2_pos(r);
    lemma_pow2_adds(o, (128 - o) as nat);
    lemma_pow2_adds(c, r);
    let m = pow2(c) * pow2(r) * t;
    assert(pow2(128) * t == pow2(o) * (pow2(c) * pow2(r)) * t);
    assert(pow2(128) * t == m * pow2(o)) by {
        lemma_mul_is_associative(pow2(o) as int, (pow2(c) * pow2(r)) as int, t as int);
        assert(pow2(o) * ((pow2(c) * pow2(r)) * t) == ((pow2(c) * pow2(r)) * t) * pow2(o))
            by (nonlinear_arith);
    }
    lemma_mul_nonnegative((pow2(c) * pow2(r)) as int, t as int);
    lemma_hoist_over_denominator(w as int, m as int, pow2(o) as nat);
    assert(m == pow2(c) * (pow2(r) * t)) by {
        lemma_mul_is_associative(pow2(c) as int, pow2(r) as int, t as int);
    }
    lemma_mul_nonnegative(pow2(r) as int, t as int);
    lemma_mod_multiples_vanish((pow2(r) * t) as int, (w / pow2(o)) as int, pow2(c) as int);
}

/// A non-negative integer of any size, held as little-endian 64-bit limbs:
/// the canonical representation of a scalar.
#[derive(Clone, Debug)]
pub struct BigInt {
    pub limbs: Vec<u64>,
}

impl BigInt {
    pub open spec fn value(&self) -> nat {
        limbs_value(self.limbs@)
    }

    pub fn new(limbs: Vec<u64>) -> (r: BigInt)
        ensures
            r.limbs@ == limbs@,
    {
        BigInt { limbs }
    }

    pub fn from_u64(v: u64) -> (r: BigInt)
        ensures
            r.value() == v as nat,
    {
        let mut limbs: Vec<u64> = Vec::new();
        limbs.push(v);
        let r = BigInt { limbs };
        assert(r.limbs@.drop_first().len() == 0);
        assert(limbs_value(r.limbs@.drop_first()) == 0);
        assert(limbs_value(r.limbs@) == v as nat + pow2(64) * 0);
        r
    }

    /// Whether the number is zero.
    pub fn is_zero(&self) -> (r: bool)
        ensures
            r == (self.value() == 0),
    {
        let n = self.limbs.len();
        let mut i: usize = n;
        while i > 0
            invariant
                i <= n,
                n == self.limbs@.len(),
                tail_value(self.limbs@, i as nat) == 0,
            decreases i,
        {
            proof {
                lemma_tail_unfold(self.limbs@, (i - 1) as nat);
                lemma_pow2_pos(64);
            }
            if self.limbs[i - 1] != 0 {
                proof {
                    lemma_div_limbs(self.limbs@, (i - 1) as nat);
                    lemma_pow2_pos(64 * (i - 1) as nat);
                    let v = limbs_value(self.limbs@);
                    if v == 0 {
                        assert(0nat / pow2(64 * (i - 1) as nat) == 0);
                    }
                }
                return false;
            }
            assert(limb_at(self.limbs@, (i - 1) as nat) == 0);
            assert(pow2(64) * tail_value(self.limbs@, i as nat) == 0);
            i = i - 1;
        }
        proof {
            lemma_tail_zero(self.limbs@);
        }
        true
    }

    /// Whether the number is one.
    pub fn is_one(&self) -> (r: bool)
        ensures
            r == (self.value() == 1),
    {
        if self.limbs.len() == 0 {
            return false;
        }
        let rest = BigInt { limbs: self.limbs_from(1) };
        proof {
            lemma_tail_zero(self.limbs@);
            lemma_tail_unfold(self.limbs@, 0);
            lemma_tail_zero(rest.limbs@);
            lemma_pow2_pos(64);
            if self.limbs@.len() > 1 {
                assert(rest.limbs@ =~= self.limbs@.subrange(1, self.limbs@.len() as int));
            } else {
                assert(rest.limbs@.len() == 0);
            }
        }
        let rest_zero = rest.is_zero();
        proof {
            let l = self.limbs@;
            assert(tail_value(l, 1) == rest.value());
            assert(self.value() == l[0] as nat + pow2(64) * rest.value());
            if rest.value() > 0 {
                assert(pow2(64) * rest.value() >= pow2(64)) by (nonlinear_arith)
                    requires rest.value() > 0;
                lemma2_to64();
            } else {
                assert(rest.value() == 0);
                assert(pow2(64) * rest.value() == 0) by (nonlinear_arith)
                    requires rest.value() == 0;
            }
        }
        self.limbs[0] == 1 && rest_zero
    }

    /// The limbs from index `k` on.
    fn limbs_from(&self, k: usize) -> (r: Vec<u64>)
        requires
            k <= self.limbs@.len(),
        ensures
            r@ == self.limbs@.subrange(k as int, self.limbs@.len() as int),
    {
        let mut r: Vec<u64> = Vec::new();
        let mut i: usize = k;
        while i < self.limbs.len()
            invariant
                k <= i <= self.limbs@.len(),
                r@ == self.limbs@.subrange(k as int, i as int),
            decreases self.limbs@.len() - i,
        {
            r.push(self.limbs[i]);
            i = i + 1;
            assert(r@ =~= self.limbs@.subrange(k as int, i as int));
        }
        r
    }

    /// The `c`-bit window of the number that starts at bit `start`:
    /// `floor(value / 2^start) mod 2^c`.
    pub fn window(&self, start: usize, c: usize) -> (r: u64)
        requires
            0 < c < 64,
        ensures
            r as nat == digit(self.value(), start as nat, c as nat),
            (r as nat) < pow2(c as nat),
    {
        let l = &self.limbs;
        let k = start / 64;
        let o = start % 64;
        let lo: u64 = if k < l.len() { l[k] } else { 0 };
        let hi: u64 = if k < l.len() && k + 1 < l.len() { l[k + 1] } else { 0 };
        let w: u128 = lo as u128 + (hi as u128) * 0x1_0000_0000_0000_0000u128;
        let shifted: u128 = w >> (o as u128);
        let m: u64 = 1u64 << (c as u64);
        proof {
            lemma_u128_shr_is_div(w, o as u128);
            lemma_u64_pow2_no_overflow(c as nat);
            lemma_u64_shl_is_mul(1u64, c as u64);
            lemma2_to64();
            let ls = self.limbs@;
            lemma_div_limbs(ls, k as nat);
            lemma_tail_unfold(ls, k as nat);
            lemma_tail_unfold(ls, (k + 1) as nat);
            lemma_pow2_adds(64, 64);
            lemma_pow2_pos(64);
            let t = tail_value(ls, (k + 2) as nat);
            assert(lo as nat == limb_at(ls, k as nat));
            assert(hi as nat == limb_at(ls, (k + 1) as nat));
            assert(tail_value(ls, k as nat) == w + pow2(128) * t) by {
                assert(pow2(64) * (hi + pow2(64) * t) == pow2(64) * hi + pow2(64) * pow2(64) * t)
                    by (nonlinear_arith);
            }
            assert(start as nat == 64 * k as nat + o as nat);
            lemma_pow2_adds(64 * k as nat, o as nat);
            lemma_pow2_pos(64 * k as nat);
            lemma_pow2_pos(o as nat);
            lemma_div_denominator(
                self.value() as int,
                pow2(64 * k as nat) as int,
                pow2(o as nat) as int,
            );
            lemma_window_of_two_limbs(w as nat, t, o as nat, c as nat);
            assert(shifted as nat == w as nat / pow2(o as nat));
            lemma_fundamental_div_mod((w as nat / pow2(o as nat)) as int, pow2(c as nat) as int);
        }
        (shifted % (m as u128)) as u64
    }
}

} // verus!
