use vstd::arithmetic::div_mod::{lemma_mod_twice, lemma_mul_mod_noop_right};
use vstd::arithmetic::power2::{lemma_pow2_pos, pow2};
use vstd::bits::{lemma_usize_pow2_no_overflow, lemma_usize_shl_is_mul};
use vstd::prelude::*;

use crate::bigint::{digit, BigInt};
use crate::group::CurvePoint;
use crate::model::{column, dlogs, dot, horner, lemma_add_mod, lemma_dot_prefix, lemma_horner_dot};
use crate::pippenger::{int_digits, lemma_horner_ext, VariableBaseMSM};
use crate::recode::{lemma_windows_cover, spec_num_windows, window_width};

verus! {

/// Why a multiplication over a source of bases failed.
#[derive(Clone, Copy, Debug, PartialEq, Eq, Structural)]
pub enum SynthesisError {
    /// The source ran out of bases.
    UnexpectedEof,
}

/// Which exponents of a query have a base.
pub trait QueryDensity {
    spec fn spec_is_set(&self, i: int) -> bool;

    spec fn spec_query_size(&self) -> Option<nat>;

    fn is_set(&self, i: usize) -> (r: bool)
        ensures
            r == self.spec_is_set(i as int),
    ;

    /// The number of exponents the query has, where it is known.
    fn get_query_size(&self) -> (r: Option<usize>)
        ensures
            r matches Some(n) ==> self.spec_query_size() == Some(n as nat),
            r is None ==> self.spec_query_size() is None,
    ;
}

/// Every exponent has a base.
#[derive(Clone, Copy, Debug)]
pub struct FullDensity;

impl QueryDensity for FullDensity {
    open spec fn spec_is_set(&self, i: int) -> bool {
        true
    }

    open spec fn spec_query_size(&self) -> Option<nat> {
        None
    }

    fn is_set(&self, i: usize) -> (r: bool) {
        true
    }

    fn get_query_size(&self) -> (r: Option<usize>) {
        None
    }
}

/// The number of set bits.
pub open spec fn count_set(s: Seq<bool>) -> nat
    decreases s.len(),
{
    if s.len() == 0 {
        0
    } else {
        count_set(s.drop_last()) + if s.last() {
            1nat
        } else {
            0
        }
    }
}

proof fn lemma_count_push(s: Seq<bool>, b: bool)
    ensures
        count_set(s.push(b)) == count_set(s) + if b {
            1nat
        } else {
            0
        },
{
    assert(s.push(b).drop_last() =~= s);
}

proof fn lemma_count_concat(s: Seq<bool>, t: Seq<bool>)
    ensures
        count_set(s + t) == count_set(s) + count_set(t),
    decreases t.len(),
{
    if t.len() == 0 {
        assert(s + t =~= s);
    } else {
        lemma_count_concat(s, t.drop_last());
        assert((s + t).drop_last() =~= s + t.drop_last());
    }
}

proof fn lemma_count_first(s: Seq<bool>)
    requires
        s.len() > 0,
    ensures
        count_set(s) == count_set(s.drop_first()) + if s[0] {
            1nat
        } else {
            0
        },
{
    let one = seq![s[0]];
    lemma_count_concat(one, s.drop_first());
    assert(one + s.drop_first() =~= s);
    assert(one.drop_last() =~= Seq::<bool>::empty());
    assert(count_set(Seq::<bool>::empty()) == 0);
    assert(count_set(one) == count_set(one.drop_last()) + if one.last() {
        1nat
    } else {
        0
    });
    assert(one.last() == s[0]);
}

proof fn lemma_count_set_bit(s: Seq<bool>, i: int)
    requires
        0 <= i < s.len(),
        !s[i],
    ensures
        count_set(s.update(i, true)) == count_set(s) + 1,
{
    let a = s.subrange(0, i);
    let b = s.subrange(i + 1, s.len() as int);
    assert(s =~= a + seq![false] + b);
    assert(s.update(i, true) =~= a + seq![true] + b);
    lemma_count_concat(a + seq![false], b);
    lemma_count_concat(a + seq![true], b);
    lemma_count_push(a, false);
    lemma_count_push(a, true);
    assert(a.push(false) =~= a + seq![false]);
    assert(a.push(true) =~= a + seq![true]);
}

/// Which of a query's exponents have a base, built as the query grows.
#[derive(Clone, Debug)]
pub struct DensityTracker {
    pub bv: Vec<bool>,
    pub total_density: usize,
}

impl DensityTracker {
    /// The total is the number of set bits.
    pub open spec fn wf(&self) -> bool {
        self.total_density as nat == count_set(self.bv@)
    }

    pub open spec fn bits(&self) -> Seq<bool> {
        self.bv@
    }

    pub fn new() -> (r: DensityTracker)
        ensures
            r.wf(),
            r.bits().len() == 0,
    {
        DensityTracker { bv: Vec::new(), total_density: 0 }
    }

    /// Adds an exponent without a base.
    pub fn add_element(&mut self)
        requires
            old(self).wf(),
        ensures
            final(self).wf(),
            final(self).bits() == old(self).bits().push(false),
    {
        proof {
            lemma_count_push(self.bv@, false);
        }
        self.bv.push(false);
    }

    /// Marks exponent `idx` as having a base.
    pub fn inc(&mut self, idx: usize)
        requires
            old(self).wf(),
            idx < old(self).bits().len(),
        ensures
            final(self).wf(),
            final(self).bits() == old(self).bits().update(idx as int, true),
    {
        let len = self.bv.len();
        if !self.bv[idx] {
            proof {
                lemma_count_set_bit(self.bv@, idx as int);
                lemma_count_bound(self.bv@.update(idx as int, true));
            }
            self.bv.set(idx, true);
            self.total_density = self.total_density + 1;
        } else {
            proof {
                assert(self.bv@.update(idx as int, true) =~= self.bv@);
            }
        }
    }

    /// The number of exponents that have a base.
    pub fn get_total_density(&self) -> (r: usize)
        requires
            self.wf(),
        ensures
            r as nat == count_set(self.bits()),
    {
        self.total_density
    }

    /// Appends `other`. An input density's first bit stands for the constant
    /// one, which both share: it is merged into this one's first bit.
    pub fn extend(&mut self, other: DensityTracker, is_input_density: bool)
        requires
            old(self).wf(),
            other.wf(),
            old(self).bits().len() + other.bits().len() <= usize::MAX,
        ensures
            final(self).wf(),
            final(self).bits() == if other.bits().len() == 0 {
                old(self).bits()
            } else if old(self).bits().len() == 0 {
                other.bits()
            } else if is_input_density {
                old(self).bits().update(0, old(self).bits()[0] || other.bits()[0])
                    + other.bits().drop_first()
            } else {
                old(self).bits() + other.bits()
            },
    {
        if other.bv.len() == 0 {
            return;
        }
        if self.bv.len() == 0 {
            self.total_density = other.total_density;
            self.bv = other.bv;
            return;
        }
        let ghost first = self.bv@;
        let ghost rest = other.bv@;
        proof {
            lemma_count_bound(first + rest);
            lemma_count_concat(first, rest);
        }
        if is_input_density {
            let merged_total;
            if other.bv[0] {
                if self.bv[0] {
                    proof {
                        lemma_count_first(rest);
                    }
                    merged_total = self.total_density + other.total_density - 1;
                } else {
                    proof {
                        lemma_count_set_bit(first, 0);
                        lemma_count_first(rest);
                    }
                    self.bv.set(0, true);
                    merged_total = self.total_density + other.total_density;
                }
            } else {
                proof {
                    lemma_count_first(rest);
                    assert(first.update(0, first[0]) =~= first);
                }
                merged_total = self.total_density + other.total_density;
            }
            let ghost head = self.bv@;
            proof {
                lemma_count_first(rest);
                assert(merged_total as nat == count_set(head) + count_set(rest.drop_first()));
            }
            let mut i: usize = 1;
            while i < other.bv.len()
                invariant
                    1 <= i <= rest.len(),
                    rest == other.bv@,
                    self.bv@ == head + rest.subrange(1, i as int),
                    merged_total as nat == count_set(head) + count_set(rest.drop_first()),
                decreases rest.len() - i,
            {
                self.bv.push(other.bv[i]);
                i = i + 1;
                proof {
                    assert(self.bv@ =~= head + rest.subrange(1, i as int));
                }
            }
            proof {
                assert(rest.subrange(1, rest.len() as int) =~= rest.drop_first());
                lemma_count_concat(head, rest.drop_first());
                if !rest[0] || !first[0] {
                    assert(head =~= first.update(0, first[0] || rest[0]));
                } else {
                    assert(head =~= first.update(0, true));
                    assert(first.update(0, true) =~= first);
                }
            }
            self.total_density = merged_total;
        } else {
            let ghost head = self.bv@;
            proof {
                lemma_count_bound(first);
                lemma_count_bound(rest);
            }
            let total = self.total_density + other.total_density;
            let mut i: usize = 0;
            while i < other.bv.len()
                invariant
                    i <= rest.len(),
                    rest == other.bv@,
                    head == first,
                    self.bv@ == head + rest.subrange(0, i as int),
                    total as nat == count_set(first) + count_set(rest),
                decreases rest.len() - i,
            {
                self.bv.push(other.bv[i]);
                i = i + 1;
                proof {
                    assert(self.bv@ =~= head + rest.subrange(0, i as int));
                }
            }
            proof {
                assert(rest.subrange(0, rest.len() as int) =~= rest);
                lemma_count_concat(first, rest);
            }
            self.total_density = total;
        }
    }
}

proof fn lemma_count_bound(s: Seq<bool>)
    ensures
        count_set(s) <= s.len(),
    decreases s.len(),
{
    if s.len() > 0 {
        lemma_count_bound(s.drop_last());
    }
}

impl QueryDensity for DensityTracker {
    open spec fn spec_is_set(&self, i: int) -> bool {
        0 <= i < self.bv@.len() && self.bv@[i]
    }

    open spec fn spec_query_size(&self) -> Option<nat> {
        Some(self.bv@.len())
    }

    fn is_set(&self, i: usize) -> (r: bool) {
        i < self.bv.len() && self.bv[i]
    }

    fn get_query_size(&self) -> (r: Option<usize>) {
        Some(self.bv.len())
    }
}

/// A source of bases, read in order.
pub trait Source<G: CurvePoint> {
    /// The bases still to come.
    spec fn remaining(&self) -> Seq<G>;

    /// Adds the next base to `to` (the identity adds nothing). Fails when
    /// the source is empty.
    fn add_assign_mixed(&mut self, to: &mut G) -> (r: Result<(), SynthesisError>)
        ensures
            old(self).remaining().len() == 0 ==> r == Err::<(), SynthesisError>(
                SynthesisError::UnexpectedEof,
            ),
            old(self).remaining().len() > 0 ==> {
                &&& r is Ok
                &&& final(self).remaining() == old(self).remaining().drop_first()
                &&& final(to).dlog() == (old(to).dlog() + old(self).remaining()[0].dlog()) as int
                    % (G::order() as int)
            },
    ;

    /// Skips `amt` bases. Fails when the source is empty.
    fn skip(&mut self, amt: usize) -> (r: Result<(), SynthesisError>)
        ensures
            old(self).remaining().len() == 0 ==> r == Err::<(), SynthesisError>(
                SynthesisError::UnexpectedEof,
            ),
            old(self).remaining().len() > 0 ==> {
                &&& r is Ok
                &&& final(self).remaining() == old(self).remaining().skip(
                    if amt <= old(self).remaining().len() {
                        amt as int
                    } else {
                        old(self).remaining().len() as int
                    },
                )
            },
    ;
}

/// Something from which sources of the same bases can be made.
pub trait SourceBuilder<G: CurvePoint> {
    type Source: Source<G>;

    /// The bases that each new source yields.
    spec fn spec_bases(&self) -> Seq<G>;

    fn new(&self) -> (r: Self::Source)
        ensures
            r.remaining() == self.spec_bases(),
    ;

    /// The bases and the position of the first one.
    fn get(&self) -> (r: (Vec<G>, usize))
        ensures
            r.1 < r.0@.len() ==> r.0@.subrange(r.1 as int, r.0@.len() as int)
                == self.spec_bases(),
            r.1 >= r.0@.len() ==> self.spec_bases().len() == 0,
    ;
}

fn copy_points<G: CurvePoint>(v: &Vec<G>) -> (r: Vec<G>)
    ensures
        r@ == v@,
{
    let mut r: Vec<G> = Vec::new();
    let mut i: usize = 0;
    while i < v.len()
        invariant
            i <= v@.len(),
            r@ == v@.subrange(0, i as int),
        decreases v@.len() - i,
    {
        r.push(v[i]);
        i = i + 1;
        assert(r@ =~= v@.subrange(0, i as int));
    }
    assert(r@ =~= v@);
    r
}

impl<G: CurvePoint> Source<G> for (Vec<G>, usize) {
    open spec fn remaining(&self) -> Seq<G> {
        if self.1 < self.0@.len() {
            self.0@.subrange(self.1 as int, self.0@.len() as int)
        } else {
            Seq::empty()
        }
    }

    fn add_assign_mixed(&mut self, to: &mut G) -> (r: Result<(), SynthesisError>) {
        if self.0.len() <= self.1 {
            return Err(SynthesisError::UnexpectedEof);
        }
        if self.0[self.1].is_zero() {
            // a base at infinity is skipped
            proof {
                G::lemma_order_pos();
                G::lemma_dlog_range(*old(to));
                vstd::arithmetic::div_mod::lemma_small_mod(old(to).dlog(), G::order());
            }
        } else {
            let s = to.add(&self.0[self.1]);
            *to = s;
        }
        self.1 = self.1 + 1;
        proof {
            assert(self.remaining() =~= old(self).remaining().drop_first());
        }
        Ok(())
    }

    fn skip(&mut self, amt: usize) -> (r: Result<(), SynthesisError>) {
        if self.0.len() <= self.1 {
            return Err(SynthesisError::UnexpectedEof);
        }
        if amt >= self.0.len() - self.1 {
            self.1 = self.0.len();
        } else {
            self.1 = self.1 + amt;
        }
        proof {
            assert(self.remaining() =~= old(self).remaining().skip(
                if amt <= old(self).remaining().len() {
                    amt as int
                } else {
                    old(self).remaining().len() as int
                },
            ));
        }
        Ok(())
    }
}

impl<G: CurvePoint> SourceBuilder<G> for (Vec<G>, usize) {
    type Source = (Vec<G>, usize);

    open spec fn spec_bases(&self) -> Seq<G> {
        if self.1 < self.0@.len() {
            self.0@.subrange(self.1 as int, self.0@.len() as int)
        } else {
            Seq::empty()
        }
    }

    fn new(&self) -> (r: (Vec<G>, usize)) {
        (copy_points(&self.0), self.1)
    }

    fn get(&self) -> (r: (Vec<G>, usize)) {
        (copy_points(&self.0), self.1)
    }
}

/// The number of exponents before `i` that have a base.
pub open spec fn dense_count<D: QueryDensity>(d: D, i: nat) -> nat
    decreases i,
{
    if i == 0 {
        0
    } else {
        dense_count(d, (i - 1) as nat) + if d.spec_is_set(i - 1) {
            1nat
        } else {
            0
        }
    }
}

/// For each exponent, the logarithm of its base: the base's place in the
/// source is the number of exponents before it that have one. Zero where the
/// exponent has no base, or the source has run out.
pub open spec fn dense_dlogs<G: CurvePoint, D: QueryDensity>(d: D, b: Seq<G>, n: nat) -> Seq<int> {
    Seq::new(
        n,
        |i: int|
            if d.spec_is_set(i) && dense_count(d, i as nat) < b.len() {
                b[dense_count(d, i as nat) as int].dlog() as int
            } else {
                0
            },
    )
}

/// The digit of each exponent in the window of `c` bits from bit `skip`;
/// zero where the exponent has no base.
pub open spec fn dense_digits<D: QueryDensity>(d: D, e: Seq<BigInt>, skip: nat, c: nat, n: nat) -> Seq<
    int,
> {
    Seq::new(
        n,
        |i: int|
            if d.spec_is_set(i) {
                digit(e[i].value(), skip, c) as int
            } else {
                0
            },
    )
}

/// The source holds a base for every exponent that has one.
pub open spec fn has_bases<G: CurvePoint, D: QueryDensity>(d: D, b: Seq<G>, n: nat) -> bool {
    dense_count(d, n) <= b.len()
}

proof fn lemma_dense_count_step<D: QueryDensity>(d: D, i: nat)
    ensures
        dense_count(d, i + 1) == dense_count(d, i) + if d.spec_is_set(i as int) {
            1nat
        } else {
            0
        },
{
}

proof fn lemma_dense_count_grows<D: QueryDensity>(d: D, i: nat, n: nat)
    requires
        i <= n,
    ensures
        dense_count(d, i) <= dense_count(d, n),
    decreases n - i,
{
    if i < n {
        lemma_dense_count_grows(d, i + 1, n);
    }
}

proof fn lemma_digit_of_small(v: nat, s: nat, c: nat)
    requires
        c > 0,
        v <= 1,
    ensures
        digit(v, s, c) == if s == 0 {
            v
        } else {
            0
        },
{
    lemma_pow2_pos(s);
    lemma_pow2_pos(c);
    assert(pow2(0) == 1) by {
        vstd::arithmetic::power2::lemma2_to64();
    }
    vstd::arithmetic::power2::lemma_pow2_strictly_increases(0, c);
    if s == 0 {
        assert(v / 1 == v);
        vstd::arithmetic::div_mod::lemma_small_mod(v, pow2(c));
    } else {
        vstd::arithmetic::power2::lemma_pow2_strictly_increases(0, s);
        vstd::arithmetic::div_mod::lemma_basic_div(v as int, pow2(s) as int);
        vstd::arithmetic::div_mod::lemma_small_mod(0, pow2(c));
    }
}

/// One window of the bucket method over a source: the bases are read in the
/// order of their exponents, the ones that a nonzero digit needs into the
/// sum, the others skipped. A unit exponent is added directly, in the least
/// significant window only, where `handle_trivial` is set.
fn window_over_source<G: CurvePoint, S: Source<G>, D: QueryDensity>(
    src: &mut S,
    density: &D,
    exponents: &Vec<BigInt>,
    skip: usize,
    c: usize,
    handle_trivial: bool,
) -> (r: Result<G, SynthesisError>)
    requires
        0 < c < 63,
        c < usize::BITS,
        handle_trivial == (skip == 0),
    ensures
        r is Ok <==> has_bases(*density, old(src).remaining(), exponents@.len()),
        r matches Ok(p) ==> p.dlog() == dot(
            dense_digits(*density, exponents@, skip as nat, c as nat, exponents@.len()),
            dense_dlogs(*density, old(src).remaining(), exponents@.len()),
            exponents@.len(),
        ) % (G::order() as int),
{
    let ghost b = old(src).remaining();
    let ghost n = exponents@.len();
    let ghost dd = dense_digits(*density, exponents@, skip as nat, c as nat, n);
    let ghost dx = dense_dlogs(*density, b, n);
    let ghost ord = G::order() as int;
    proof {
        G::lemma_order_pos();
        lemma_usize_pow2_no_overflow(c as nat);
        lemma_usize_shl_is_mul(1usize, c);
        lemma_pow2_pos(c as nat);
        if c < 62 {
            vstd::arithmetic::power2::lemma_pow2_strictly_increases(c as nat, 62);
        }
        vstd::arithmetic::power2::lemma_pow2_strictly_increases(0, c as nat);
        assert(pow2(0) == 1) by {
            vstd::arithmetic::power2::lemma2_to64();
        }
        assert(pow2(62) == 0x4000_0000_0000_0000) by {
            vstd::arithmetic::power2::lemma2_to64();
            vstd::arithmetic::power2::lemma2_to64_rest();
        }
        vstd::arithmetic::div_mod::lemma_small_mod(0, ord as nat);
        assert(b.skip(0) =~= b);
    }
    let top: usize = (1usize << c) - 1;
    let mut picked: Vec<G> = Vec::new();
    let mut digits: Vec<i64> = Vec::new();
    let mut init = G::zero();
    let mut i: usize = 0;
    while i < exponents.len()
        invariant
            i <= n,
            n == exponents@.len(),
            0 < c < 63,
            handle_trivial == (skip == 0),
            top as nat == pow2(c as nat) - 1,
            1 <= top <= 0x4000_0000_0000_0000,
            ord == G::order() as int,
            ord > 1,
            b == old(src).remaining(),
            dd == dense_digits(*density, exponents@, skip as nat, c as nat, n),
            dx == dense_dlogs(*density, b, n),
            dense_count(*density, i as nat) <= b.len(),
            src.remaining() == b.skip(dense_count(*density, i as nat) as int),
            picked@.len() == i,
            digits@.len() == i,
            forall|j: int| 0 <= j < i ==> 0 <= #[trigger] digits@[j] <= top as int,
            init.dlog() == (dot(dd, dx, i as nat) - dot(int_digits(digits@), dlogs(picked@), i as nat))
                % ord,
        decreases n - i,
    {
        let ghost cnt = dense_count(*density, i as nat);
        let ghost before_digits = digits@;
        let ghost before_picked = picked@;
        let ghost rest = src.remaining();
        let ghost acc = dot(dd, dx, i as nat) - dot(int_digits(digits@), dlogs(picked@), i as nat);
        proof {
            lemma_dense_count_step(*density, i as nat);
            if cnt < b.len() {
                assert(rest[0] == b[cnt as int]);
            }
        }
        // what this exponent adds: `dd[i] · dx[i]` less `digit · dlog(picked)`
        let ghost mut added: int = 0;
        if density.is_set(i) {
            let e = &exponents[i];
            let ghost v = e.value();
            let zero = e.is_zero();
            let one = e.is_one();
            let d = e.window(skip, c);
            proof {
                if v <= 1 {
                    lemma_digit_of_small(v, skip as nat, c as nat);
                }
                assert(dd[i as int] == d as int);
            }
            if !zero && ((one && handle_trivial) || (!one && d != 0)) {
                let mut p = G::zero();
                match src.add_assign_mixed(&mut p) {
                    Err(err) => {
                        proof {
                            assert(density.spec_is_set(i as int));
                            lemma_dense_count_grows(*density, (i + 1) as nat, n);
                        }
                        return Err(err);
                    },
                    Ok(()) => {},
                }
                proof {
                    G::lemma_dlog_range(b[cnt as int]);
                    vstd::arithmetic::div_mod::lemma_small_mod(b[cnt as int].dlog(), ord as nat);
                    assert(p.dlog() == b[cnt as int].dlog());
                    assert(dx[i as int] == p.dlog());
                    assert(b.skip(cnt as int).drop_first() =~= b.skip(cnt + 1 as int));
                }
                if one {
                    init = init.add(&p);
                    picked.push(G::zero());
                    digits.push(0);
                    proof {
                        lemma_add_mod(acc, p.dlog() as int, ord);
                        added = dx[i as int];
                    }
                } else {
                    picked.push(p);
                    digits.push(d as i64);
                }
            } else {
                match src.skip(1) {
                    Err(err) => {
                        proof {
                            assert(density.spec_is_set(i as int));
                            lemma_dense_count_grows(*density, (i + 1) as nat, n);
                        }
                        return Err(err);
                    },
                    Ok(()) => {},
                }
                proof {
                    assert(b.skip(cnt as int).skip(1) =~= b.skip(cnt + 1 as int));
                }
                picked.push(G::zero());
                digits.push(0);
            }
        } else {
            picked.push(G::zero());
            digits.push(0);
        }
        proof {
            let e1 = int_digits(digits@);
            let x1 = dlogs(picked@);
            lemma_dot_prefix(int_digits(before_digits), e1, dlogs(before_picked), i as nat);
            lemma_dot_prefix_x(e1, dlogs(before_picked), x1, i as nat);
            assert(dot(e1, x1, (i + 1) as nat) == dot(e1, x1, i as nat) + e1[i as int] * x1[i as int]);
            assert(dot(dd, dx, (i + 1) as nat) == dot(dd, dx, i as nat) + dd[i as int] * dx[i as int]);
            if density.spec_is_set(i as int) && dd[i as int] != 0 && e1[i as int] == 0 {
                assert(dd[i as int] == 1);
                assert(dd[i as int] * dx[i as int] == dx[i as int]);
            }
            let (a1, a2) = (dd[i as int], dx[i as int]);
            let (b1, b2) = (e1[i as int], x1[i as int]);
            if a1 == 0 {
                assert(a1 * a2 == 0) by (nonlinear_arith)
                    requires
                        a1 == 0,
                ;
            }
            if b1 == 0 {
                assert(b1 * b2 == 0) by (nonlinear_arith)
                    requires
                        b1 == 0,
                ;
            }
        }
        i = i + 1;
    }
    let s = VariableBaseMSM::window_sum(picked.as_slice(), &digits, top, init);
    proof {
        let a = dot(dd, dx, n) - dot(int_digits(digits@), dlogs(picked@), n);
        let t = dot(int_digits(digits@), dlogs(picked@), n);
        lemma_add_mod(a % ord, t, ord);
        lemma_mod_twice(a, ord);
        lemma_add_mod(a, t, ord);
    }
    Ok(s)
}

/// `dot` reads only the first `n` entries of its second sequence.
proof fn lemma_dot_prefix_x(e: Seq<int>, x1: Seq<int>, x2: Seq<int>, n: nat)
    requires
        n <= x1.len(),
        n <= x2.len(),
        forall|i: int| 0 <= i < n ==> x1[i] == x2[i],
    ensures
        dot(e, x1, n) == dot(e, x2, n),
    decreases n,
{
    if n > 0 {
        lemma_dot_prefix_x(e, x1, x2, (n - 1) as nat);
    }
}

/// The digit of exponent `i` in window `w` of the windows from bit `skip`;
/// zero where it has no base.
pub open spec fn dense_windows<D: QueryDensity>(d: D, e: Seq<BigInt>, skip: nat, c: nat) -> spec_fn(
    int,
    nat,
) -> int {
    |i: int, w: nat|
        if d.spec_is_set(i) {
            digit(e[i].value(), skip + w * c, c) as int
        } else {
            0
        }
}

/// The exponents' values; zero where an exponent has no base.
pub open spec fn dense_values<D: QueryDensity>(d: D, e: Seq<BigInt>, n: nat) -> Seq<int> {
    Seq::new(
        n,
        |i: int|
            if d.spec_is_set(i) {
                e[i].value() as int
            } else {
                0
            },
    )
}

/// The windows of `c` bits from bit `skip` of the exponents, each summed
/// over the pairs and the sums folded from the most significant down.
pub open spec fn source_windows<G: CurvePoint, D: QueryDensity>(
    d: D,
    b: Seq<G>,
    e: Seq<BigInt>,
    skip: nat,
    c: nat,
    bits: nat,
) -> int {
    horner(
        |w: nat| dot(column(dense_windows(d, e, skip, c), w, e.len()), dense_dlogs(d, b, e.len()), e.len()),
        c,
        0,
        spec_num_windows((bits - skip) as nat, c),
    )
}

proof fn lemma_horner_zero(f: spec_fn(nat) -> int, c: nat, k: nat, n: nat)
    requires
        forall|w: nat| k <= w < n ==> #[trigger] f(w) == 0,
    ensures
        horner(f, c, k, n) == 0,
    decreases n - k,
{
    if k < n {
        lemma_horner_zero(f, c, k + 1, n);
        assert(pow2(c) * 0 == 0);
    }
}

/// Folding from window `k + 1` is folding the windows shifted down by one.
proof fn lemma_horner_shift(f: spec_fn(nat) -> int, g: spec_fn(nat) -> int, c: nat, k: nat, n: nat)
    requires
        k < n,
        forall|w: nat| #[trigger] g(w) == f(w + 1),
    ensures
        horner(f, c, k + 1, n) == horner(g, c, k, (n - 1) as nat),
    decreases n - k,
{
    if k + 1 < n {
        lemma_horner_shift(f, g, c, k + 1, n);
    }
}

/// The bucket method over a source, over the windows of `c` bits from bit
/// `skip` up. Each window reads the bases from a new source; the sum of the
/// windows above is doubled `c` times and this window's sum added.
fn multiexp_inner<G: CurvePoint, S: SourceBuilder<G>, D: QueryDensity>(
    bases: &S,
    density: &D,
    exponents: &Vec<BigInt>,
    skip: usize,
    c: usize,
    handle_trivial: bool,
) -> (r: Result<G, SynthesisError>)
    requires
        0 < c < 63,
        c < usize::BITS,
        handle_trivial == (skip == 0),
        skip < G::spec_scalar_bits(),
    ensures
        r is Ok <==> has_bases(*density, bases.spec_bases(), exponents@.len()),
        r matches Ok(p) ==> p.dlog() == source_windows(
            *density,
            bases.spec_bases(),
            exponents@,
            skip as nat,
            c as nat,
            G::spec_scalar_bits(),
        ) % (G::order() as int),
    decreases G::spec_scalar_bits() - skip,
{
    let ghost n = exponents@.len();
    let ghost b = bases.spec_bases();
    let ghost f = dense_windows(*density, exponents@, skip as nat, c as nat);
    let ghost x = dense_dlogs(*density, b, n);
    let ghost g = |w: nat| dot(column(f, w, n), x, n);
    let ghost ord = G::order() as int;
    let bits = G::scalar_bits();
    let ghost num = spec_num_windows((bits - skip) as nat, c as nat);
    proof {
        G::lemma_order_pos();
        assert(dense_digits(*density, exponents@, skip as nat, c as nat, n) =~= column(f, 0, n));
        assert(num >= 1) by (nonlinear_arith)
            requires
                num == ((bits - skip) + c - 1) as int / c as int,
                bits - skip > 0,
                c > 0,
        ;
    }
    let mut src = bases.new();
    let this = window_over_source(&mut src, density, exponents, skip, c, handle_trivial);
    if skip + c >= bits {
        proof {
            assert(num == 1) by (nonlinear_arith)
                requires
                    num == ((bits - skip) + c - 1) as int / c as int,
                    bits - skip > 0,
                    bits - skip <= c,
                    c > 0,
            ;
            assert(horner(g, c as nat, 0, num) == g(0) + pow2(c as nat) * horner(g, c as nat, 1, num));
            assert(pow2(c as nat) * 0 == 0);
            if this is Ok {
                lemma_mod_twice(g(0), ord);
            }
        }
        return this;
    }
    let higher = multiexp_inner(bases, density, exponents, skip + c, c, false);
    match this {
        Err(e) => Err(e),
        Ok(t) => match higher {
            Err(e) => Err(e),
            Ok(h) => {
                let d = VariableBaseMSM::double_times(h, c);
                let sum = d.add(&t);
                proof {
                    let f2 = dense_windows(*density, exponents@, (skip + c) as nat, c as nat);
                    let g2 = |w: nat| dot(column(f2, w, n), x, n);
                    assert(spec_num_windows((bits - (skip + c)) as nat, c as nat) == num - 1)
                        by (nonlinear_arith)
                        requires
                            num == ((bits - skip) + c - 1) as int / c as int,
                            bits - skip > c,
                            c > 0,
                    ;
                    assert forall|w: nat| #[trigger] g2(w) == g(w + 1) by {
                        assert(column(f2, w, n) =~= column(f, w + 1, n)) by {
                            assert((skip + c) + w * c == skip + (w + 1) * c) by (nonlinear_arith);
                        }
                    }
                    lemma_horner_shift(g, g2, c as nat, 0, num);
                    let hh = horner(g, c as nat, 1, num);
                    lemma_mul_mod_noop_right(pow2(c as nat) as int, hh, ord);
                    lemma_add_mod(pow2(c as nat) * hh, g(0), ord);
                    G::lemma_dlog_range(d);
                    G::lemma_dlog_range(t);
                    lemma_mod_twice(pow2(c as nat) * hh, ord);
                    lemma_mod_twice(g(0), ord);
                    assert(horner(g, c as nat, 0, num) == g(0) + pow2(c as nat) * hh);
                }
                Ok(sum)
            },
        },
    }
}

/// Multi-exponentiation over a source of bases, with windows of `c` bits.
/// The `i`-th exponent that the density marks pairs with the `i`-th base of
/// the source; a base at infinity contributes nothing. Fails when the source
/// holds too few bases.
pub fn multiexp_c<G: CurvePoint, S: SourceBuilder<G>, D: QueryDensity>(
    bases: &S,
    density: &D,
    exponents: &Vec<BigInt>,
    c: usize,
) -> (r: Result<G, SynthesisError>)
    requires
        0 < c < 63,
        c < usize::BITS,
        density.spec_query_size() matches Some(q) ==> q == exponents@.len(),
        forall|i: int|
            0 <= i < exponents@.len() ==> #[trigger] exponents@[i].value() < pow2(
                G::spec_scalar_bits(),
            ),
    ensures
        r is Ok <==> has_bases(*density, bases.spec_bases(), exponents@.len()),
        r matches Ok(p) ==> p.dlog() == dot(
            dense_values(*density, exponents@, exponents@.len()),
            dense_dlogs(*density, bases.spec_bases(), exponents@.len()),
            exponents@.len(),
        ) % (G::order() as int),
{
    let ghost n = exponents@.len();
    let ghost b = bases.spec_bases();
    let ghost f = dense_windows(*density, exponents@, 0, c as nat);
    let ghost x = dense_dlogs(*density, b, n);
    let ghost bits = G::spec_scalar_bits();
    let ghost num = spec_num_windows(bits, c as nat);
    // The contract of `scalar_bits` gives the bit length as positive.
    let _ = G::scalar_bits();
    proof {
        G::lemma_order_pos();
    }
    let r = multiexp_inner(bases, density, exponents, 0, c, true);
    proof {
        assert((bits - 0) as nat == bits);
        lemma_horner_dot(f, x, n, c as nat, 0, num);
        let p = Seq::new(n, |i: int| horner(|w: nat| f(i, w), c as nat, 0, num));
        let q = dense_values(*density, exponents@, n);
        assert forall|i: int| 0 <= i < n implies p[i] == q[i] by {
            if density.spec_is_set(i) {
                let v = exponents@[i].value();
                lemma_windows_cover(v, bits, c as nat);
                crate::recode::lemma_unsigned_value(v, c as nat, num);
                assert forall|w: nat| #[trigger] f(i, w) == digit(v, w * (c as nat), c as nat) as int by {
                    assert(0 + w * (c as nat) == w * (c as nat));
                }
                lemma_horner_ext(|w: nat| f(i, w), |w: nat| digit(v, w * (c as nat), c as nat) as int, c as nat, 0, num);
            } else {
                lemma_horner_zero(|w: nat| f(i, w), c as nat, 0, num);
            }
        }
        lemma_dot_prefix(p, q, x, n);
    }
    r
}

/// Multi-exponentiation over a source of bases, with the window width chosen
/// from the number of exponents.
pub fn multiexp<G: CurvePoint, S: SourceBuilder<G>, D: QueryDensity>(
    bases: &S,
    density: &D,
    exponents: &Vec<BigInt>,
) -> (r: Result<G, SynthesisError>)
    requires
        density.spec_query_size() matches Some(q) ==> q == exponents@.len(),
        forall|i: int|
            0 <= i < exponents@.len() ==> #[trigger] exponents@[i].value() < pow2(
                G::spec_scalar_bits(),
            ),
    ensures
        r is Ok <==> has_bases(*density, bases.spec_bases(), exponents@.len()),
        r matches Ok(p) ==> p.dlog() == dot(
            dense_values(*density, exponents@, exponents@.len()),
            dense_dlogs(*density, bases.spec_bases(), exponents@.len()),
            exponents@.len(),
        ) % (G::order() as int),
{
    let c = window_width(exponents.len());
    multiexp_c(bases, density, exponents, c)
}

/// The indices of the exponents that have a base, in order: the exponent at
/// index `i` is the `dense_count(i)`-th of them.
pub fn dense_indices<D: QueryDensity>(density: &D, n: usize) -> (r: Vec<usize>)
    ensures
        r@.len() == dense_count(*density, n as nat),
        forall|i: int|
            0 <= i < n && #[trigger] density.spec_is_set(i) ==> r@[dense_count(
                *density,
                i as nat,
            ) as int] == i,
{
    let mut r: Vec<usize> = Vec::new();
    let mut i: usize = 0;
    while i < n
        invariant
            i <= n,
            r@.len() == dense_count(*density, i as nat),
            forall|j: int|
                0 <= j < i && #[trigger] density.spec_is_set(j) ==> r@[dense_count(
                    *density,
                    j as nat,
                ) as int] == j,
        decreases n - i,
    {
        proof {
            lemma_dense_count_step(*density, i as nat);
        }
        let ghost before = r@;
        if density.is_set(i) {
            r.push(i);
        }
        proof {
            assert forall|j: int|
                0 <= j < i + 1 && #[trigger] density.spec_is_set(j) implies r@[dense_count(
                *density,
                j as nat,
            ) as int] == j by {
                if j < i {
                    lemma_dense_count_grows(*density, (j + 1) as nat, i as nat);
                    lemma_dense_count_step(*density, j as nat);
                    assert(r@[dense_count(*density, j as nat) as int] == before[dense_count(
                        *density,
                        j as nat,
                    ) as int]);
                }
            }
        }
        i = i + 1;
    }
    r
}

} // verus!
