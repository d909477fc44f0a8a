use vstd::arithmetic::div_mod::{lemma_mod_twice, lemma_mul_mod_noop_right};
use vstd::arithmetic::power2::{lemma2_to64, lemma_pow2_adds, lemma_pow2_pos, pow2};
use vstd::bits::{lemma_usize_pow2_no_overflow, lemma_usize_shl_is_mul};
use vstd::prelude::*;

use crate::group::CurvePoint;
use crate::model::lemma_add_mod;
use crate::pippenger::VariableBaseMSM;
use crate::recode::{num_windows, spec_num_windows};

verus! {

/// The largest window width a device launch uses.
pub const MAX_WINDOW_SIZE: usize = 10;

/// The global work size of a launch is a multiple of this.
pub const LOCAL_WORK_SIZE: usize = 256;

/// The number of bucket groups for `num_windows` windows: about two threads
/// per core in all.
pub fn calc_num_groups(core_count: usize, num_windows: usize) -> (r: usize)
    requires
        num_windows > 0,
        2 * core_count <= usize::MAX,
    ensures
        r as int == (2 * core_count) as int / num_windows as int,
{
    2 * core_count / num_windows
}

/// `n` rounded up to a multiple of `LOCAL_WORK_SIZE`.
pub open spec fn round_up_to_local(n: nat) -> nat {
    (n + (LOCAL_WORK_SIZE as int - n as int % LOCAL_WORK_SIZE as int) % LOCAL_WORK_SIZE as int) as nat
}

/// How a launch of the bucket kernel is shaped.
pub struct LaunchParams {
    pub window_size: usize,
    pub num_windows: usize,
    pub num_groups: usize,
    pub bucket_len: usize,
    pub global_work_size: usize,
}

/// The shape of a launch over exponents of `exp_bits` bits with windows of
/// `window_size` bits, on a device with `core_count` cores.
pub fn launch_params(exp_bits: usize, core_count: usize, window_size: usize) -> (r: LaunchParams)
    requires
        0 < window_size < usize::BITS,
        2 * core_count + LOCAL_WORK_SIZE <= usize::MAX,
    ensures
        r.window_size == window_size,
        r.num_windows as nat == spec_num_windows(exp_bits as nat, window_size as nat),
        r.num_windows > 0 ==> r.num_groups as int == (2 * core_count) as int / r.num_windows as int,
        r.num_windows == 0 ==> r.num_groups == 0,
        r.bucket_len as nat == pow2(window_size as nat),
        r.global_work_size as nat == round_up_to_local((r.num_windows * r.num_groups) as nat),
{
    let nw = num_windows(exp_bits, window_size);
    let ng = if nw > 0 {
        calc_num_groups(core_count, nw)
    } else {
        0
    };
    proof {
        lemma_usize_pow2_no_overflow(window_size as nat);
        lemma_usize_shl_is_mul(1usize, window_size);
        if nw > 0 {
            assert(nw * ng <= 2 * core_count) by (nonlinear_arith)
                requires
                    nw > 0,
                    ng as int == (2 * core_count) as int / nw as int,
            ;
        }
    }
    let bucket_len = 1usize << window_size;
    let work = nw * ng;
    let global_work_size = work + (LOCAL_WORK_SIZE - work % LOCAL_WORK_SIZE) % LOCAL_WORK_SIZE;
    LaunchParams { window_size, num_windows: nw, num_groups: ng, bucket_len, global_work_size }
}

/// The most bases (and exponents) that one launch can hold in `mem` bytes,
/// leaving a fifth of the memory free and room for the buckets of
/// `2 · core_count` threads at the largest window width. `None` where even
/// the buckets do not fit.
pub open spec fn spec_max_chunk_size(
    mem: nat,
    core_count: nat,
    affine_size: nat,
    exp_size: nat,
    projective_size: nat,
) -> Option<nat> {
    let usable = (mem - mem / 5) as nat;
    let buckets = 2 * core_count * (1024 + 1) * projective_size;
    if buckets <= usable {
        Some(((usable - buckets) / (affine_size + exp_size) as int) as nat)
    } else {
        None
    }
}

pub fn max_chunk_size(
    mem: u64,
    core_count: u64,
    affine_size: u64,
    exp_size: u64,
    projective_size: u64,
) -> (r: Option<u64>)
    requires
        affine_size + exp_size > 0,
        affine_size + exp_size <= u64::MAX,
        projective_size > 0,
    ensures
        r matches Some(n) <==> spec_max_chunk_size(
            mem as nat,
            core_count as nat,
            affine_size as nat,
            exp_size as nat,
            projective_size as nat,
        ) is Some,
        r matches Some(n) ==> Some(n as nat) == spec_max_chunk_size(
            mem as nat,
            core_count as nat,
            affine_size as nat,
            exp_size as nat,
            projective_size as nat,
        ),
{
    let usable = mem - mem / 5;
    let threads = core_count.checked_mul(2);
    let buckets = match threads {
        Some(t) => match t.checked_mul(1025) {
            Some(b) => b.checked_mul(projective_size),
            None => None,
        },
        None => None,
    };
    proof {
        if threads is None {
            assert(2 * core_count * 1025 * projective_size >= 2 * core_count) by (nonlinear_arith)
                requires
                    projective_size >= 1,
                    core_count >= 0,
            ;
        } else if buckets is None {
            let t = 2 * core_count;
            assert(t * 1025 * projective_size >= t * 1025) by (nonlinear_arith)
                requires
                    projective_size >= 1,
                    t >= 0,
            ;
        }
    }
    match buckets {
        Some(b) => {
            if b <= usable {
                Some((usable - b) / (affine_size + exp_size))
            } else {
                None
            }
        },
        None => None,
    }
}

/// The bits that the windows `0 .. i` of a launch cover, the most
/// significant first: `min(bits, i · c)`.
pub open spec fn bits_through(i: nat, c: nat, bits: nat) -> nat {
    if i * c <= bits {
        i * c
    } else {
        bits
    }
}

/// `Σ_{g < groups} dlog(results[g · num_windows + i])`: what the groups found
/// for window `i`.
pub open spec fn window_total<G: CurvePoint>(
    results: Seq<G>,
    groups: nat,
    num_windows: nat,
    i: nat,
) -> int
    decreases groups,
{
    if groups == 0 {
        0
    } else {
        window_total(results, (groups - 1) as nat, num_windows, i) + results[(groups - 1)
            * num_windows + i].dlog()
    }
}

/// `Σ_{i < k} 2^(bits - bits_through(i + 1)) · window_total(i)`: the windows
/// of a launch weighted by their place, window 0 being the most significant.
pub open spec fn device_sum<G: CurvePoint>(
    results: Seq<G>,
    groups: nat,
    num_windows: nat,
    c: nat,
    bits: nat,
    k: nat,
) -> int
    decreases k,
{
    if k == 0 {
        0
    } else {
        device_sum(results, groups, num_windows, c, bits, (k - 1) as nat) + pow2(
            (bits - bits_through(k, c, bits)) as nat,
        ) * window_total(results, groups, num_windows, (k - 1) as nat)
    }
}

/// Combines what the groups of a launch found for each window: from the most
/// significant window down, doubles the total by the window's width and
/// adds the window's groups.
pub fn reduce_results<G: CurvePoint>(
    results: &Vec<G>,
    num_groups: usize,
    num_windows: usize,
    window_size: usize,
    exp_bits: usize,
) -> (r: G)
    requires
        results@.len() == num_groups * num_windows,
        window_size > 0,
        num_windows * window_size >= exp_bits,
    ensures
        r.dlog() == device_sum(
            results@,
            num_groups as nat,
            num_windows as nat,
            window_size as nat,
            exp_bits as nat,
            num_windows as nat,
        ) % (G::order() as int),
{
    let ghost ord = G::order() as int;
    let ghost c = window_size as nat;
    let ghost bits = exp_bits as nat;
    let ghost ng = num_groups as nat;
    let ghost nw = num_windows as nat;
    proof {
        G::lemma_order_pos();
        vstd::arithmetic::div_mod::lemma_small_mod(0, ord as nat);
        assert(bits_through(0, c, bits) == 0);
        lemma_pow2_pos(bits);
        assert(pow2(bits) as int * 0 == 0);
    }
    let mut acc = G::zero();
    let mut done: usize = 0;
    let total = results.len();
    assert(total == num_groups * num_windows);
    let mut i: usize = 0;
    while i < num_windows
        invariant
            i <= num_windows,
            results@.len() == num_groups * num_windows,
            num_groups * num_windows <= usize::MAX,
            window_size > 0,
            num_windows * window_size >= exp_bits,
            ord == G::order() as int,
            ord > 1,
            c == window_size,
            bits == exp_bits,
            ng == num_groups,
            nw == num_windows,
            done as nat == bits_through(i as nat, c, bits),
            (pow2((bits - done) as nat) as int * acc.dlog() as int) % ord == device_sum(
                results@,
                ng,
                nw,
                c,
                bits,
                i as nat,
            ) % ord,
        decreases num_windows - i,
    {
        let w = if window_size <= exp_bits - done {
            window_size
        } else {
            exp_bits - done
        };
        let ghost a = acc.dlog() as int;
        let ghost p = pow2((bits - bits_through((i + 1) as nat, c, bits)) as nat);
        proof {
            assert(done + w == bits_through((i + 1) as nat, c, bits)) by (nonlinear_arith)
                requires
                    done == bits_through(i as nat, c, bits),
                    w == if c <= bits - done {
                        c
                    } else {
                        (bits - done) as nat
                    },
                    done <= bits,
                    c > 0,
            ;
            lemma_pow2_adds((bits - done - w) as nat, w as nat);
        }
        let mut cur = VariableBaseMSM::double_times(acc, w);
        let mut g: usize = 0;
        proof {
            lemma_pow2_pos(w as nat);
            vstd::arithmetic::div_mod::lemma_small_mod(0, ord as nat);
        }
        while g < num_groups
            invariant
                g <= num_groups,
                i < num_windows,
                results@.len() == num_groups * num_windows,
                num_groups * num_windows <= usize::MAX,
                ord == G::order() as int,
                ord > 1,
                ng == num_groups,
                nw == num_windows,
                cur.dlog() == (pow2(w as nat) * a + window_total(results@, g as nat, nw, i as nat))
                    % ord,
            decreases num_groups - g,
        {
            proof {
                assert(g * num_windows + i < num_groups * num_windows) by (nonlinear_arith)
                    requires
                        g < num_groups,
                        i < num_windows,
                ;
            }
            let idx = g * num_windows + i;
            let ghost before = pow2(w as nat) * a + window_total(results@, g as nat, nw, i as nat);
            cur = cur.add(&results[idx]);
            proof {
                G::lemma_dlog_range(results@[idx as int]);
                vstd::arithmetic::div_mod::lemma_small_mod(results@[idx as int].dlog(), ord as nat);
                lemma_add_mod(before, results@[idx as int].dlog() as int, ord);
                assert(window_total(results@, (g + 1) as nat, nw, i as nat) == window_total(
                    results@,
                    g as nat,
                    nw,
                    i as nat,
                ) + results@[(g * nw + i) as int].dlog());
            }
            g = g + 1;
        }
        proof {
            let wt = window_total(results@, ng, nw, i as nat);
            let s = device_sum(results@, ng, nw, c, bits, i as nat);
            let x = pow2(w as nat) * a + wt;
            // p · cur ≡ p · x = p · 2^w · a + p · wt ≡ s + p · wt.
            lemma_mul_mod_noop_right(p as int, x, ord);
            lemma_mod_twice(x, ord);
            assert(p * x == p * pow2(w as nat) * a + p * wt) by (nonlinear_arith)
                requires
                    x == pow2(w as nat) * a + wt,
            ;
            assert(p * pow2(w as nat) == pow2((bits - done) as nat));
            lemma_add_mod(pow2((bits - done) as nat) * a, p * wt, ord);
            lemma_add_mod(s, p * wt, ord);
            assert(device_sum(results@, ng, nw, c, bits, (i + 1) as nat) == s + p * wt);
        }
        acc = cur;
        done = done + w;
        i = i + 1;
    }
    proof {
        assert(done == bits) by (nonlinear_arith)
            requires
                done == bits_through(nw, c, bits),
                nw * c >= bits,
        ;
        assert(pow2(0) == 1) by {
            lemma2_to64();
        }
        G::lemma_dlog_range(acc);
        vstd::arithmetic::div_mod::lemma_small_mod(acc.dlog(), ord as nat);
        assert(pow2((bits - done) as nat) == 1);
        let a = acc.dlog() as int;
        let p = pow2((bits - done) as nat) as int;
        assert(p * a == a) by (nonlinear_arith)
            requires
                p == 1,
        ;
    }
    acc
}

} // verus!
