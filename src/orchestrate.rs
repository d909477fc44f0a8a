use vstd::prelude::*;

use crate::bigint::BigInt;
use crate::group::CurvePoint;
use crate::laws::{dot_range, lemma_dot_prefix2, lemma_dot_split};
use crate::model::{dlogs, lemma_add_mod, msm_value, values};

verus! {

/// The pairs `start .. end` of a call.
#[derive(Clone, Copy, Debug, PartialEq, Eq, Structural)]
pub struct Span {
    pub start: usize,
    pub end: usize,
}

/// How the pairs of one call are shared: the CPU takes the first ones, and
/// each device takes an even share of the rest, which it sends in launches
/// no larger than its chunk size.
pub struct WorkPlan {
    pub cpu: Span,
    pub devices: Vec<Vec<Span>>,
}

/// Why work on a device failed.
#[derive(Clone, Debug, PartialEq, Eq)]
pub enum GpuError {
    /// A caller of higher priority asked for the devices.
    Taken,
    /// The device reported an error.
    Device(String),
}

/// `floor(n · num / den)`: the pairs that the CPU takes at a utilization of
/// `num / den`.
pub fn cpu_share(n: usize, num: u64, den: u64) -> (r: usize)
    requires
        den > 0,
        num <= den,
    ensures
        r as int == (n as int * num as int) / den as int,
        r <= n,
{
    proof {
        assert(n as int * num as int <= 0xffff_ffff_ffff_ffff * 0xffff_ffff_ffff_ffff)
            by (nonlinear_arith)
            requires
                n <= 0xffff_ffff_ffff_ffffnat,
                num <= 0xffff_ffff_ffff_ffffnat,
        ;
    }
    let prod: u128 = (n as u128) * (num as u128);
    proof {
        assert(n as int * num as int <= n as int * den as int) by (nonlinear_arith)
            requires
                num <= den,
                n >= 0,
        ;
        assert((n as int * num as int) / den as int <= n) by (nonlinear_arith)
            requires
                n as int * num as int <= n as int * den as int,
                den > 0,
        ;
    }
    (prod / (den as u128)) as usize
}

/// `ceil(a / b)`.
pub open spec fn ceil_div(a: nat, b: nat) -> nat
    recommends
        b > 0,
{
    ((a + b - 1) as int / b as int) as nat
}

pub open spec fn min_nat(a: nat, b: nat) -> nat {
    if a <= b {
        a
    } else {
        b
    }
}

/// The share of device `d` among `devices`: `[lo, hi)` within `cpu_n .. n`.
pub open spec fn device_share(n: nat, cpu_n: nat, devices: nat, d: nat) -> (nat, nat) {
    let size = ceil_div((n - cpu_n) as nat, devices);
    (min_nat(n, cpu_n + d * size), min_nat(n, cpu_n + (d + 1) * size))
}

/// Launch `k` of a share `lo .. hi` sent in chunks of `size`.
pub open spec fn chunk(lo: nat, hi: nat, size: nat, k: nat) -> (nat, nat) {
    (min_nat(hi, lo + k * size), min_nat(hi, lo + (k + 1) * size))
}

/// The spans form a chain from `lo` to `hi`.
pub open spec fn chain(s: Seq<Span>, lo: nat, hi: nat) -> bool {
    &&& s.len() == 0 ==> lo == hi
    &&& s.len() > 0 ==> s[0].start == lo && s.last().end == hi
    &&& forall|k: int| 0 <= k < s.len() ==> #[trigger] s[k].start <= s[k].end
    &&& forall|k: int| 0 <= k < s.len() - 1 ==> #[trigger] s[k].end == s[k + 1].start
}

/// Shares come in order: each begins no later than it ends.
pub proof fn lemma_share_ordered(n: nat, cpu_n: nat, devices: nat, d: nat)
    ensures
        device_share(n, cpu_n, devices, d).0 <= device_share(n, cpu_n, devices, d).1,
{
    let size = ceil_div((n - cpu_n) as nat, devices);
    assert(d * size <= (d + 1) * size) by (nonlinear_arith);
}

/// The launches of one share.
fn chunks_of(lo: usize, hi: usize, size: usize) -> (r: Vec<Span>)
    requires
        lo <= hi,
        size > 0,
    ensures
        r@.len() == ceil_div((hi - lo) as nat, size as nat),
        forall|k: int|
            0 <= k < r@.len() ==> (#[trigger] r@[k].start as nat, r@[k].end as nat) == chunk(
                lo as nat,
                hi as nat,
                size as nat,
                k as nat,
            ),
        chain(r@, lo as nat, hi as nat),
{
    let mut r: Vec<Span> = Vec::new();
    let mut s = lo;
    let ghost mut k: nat = 0;
    proof {
        if lo == hi {
            assert(ceil_div(0, size as nat) == 0) by (nonlinear_arith)
                requires
                    size > 0,
            ;
        } else {
            assert(ceil_div((hi - lo) as nat, size as nat) >= 1) by (nonlinear_arith)
                requires
                    hi - lo >= 1,
                    size > 0,
            ;
        }
        assert(lo + 0 * size == lo);
    }
    while s < hi
        invariant
            lo <= s <= hi,
            size > 0,
            r@.len() == k,
            s == min_nat(hi as nat, (lo + k * size) as nat),
            s < hi ==> s == lo + k * size,
            s == hi ==> k == ceil_div((hi - lo) as nat, size as nat),
            s < hi ==> k < ceil_div((hi - lo) as nat, size as nat),
            forall|j: int|
                0 <= j < k ==> (#[trigger] r@[j].start as nat, r@[j].end as nat) == chunk(
                    lo as nat,
                    hi as nat,
                    size as nat,
                    j as nat,
                ),
            k > 0 ==> r@[k - 1].end == s,
            r@.len() > 0 ==> r@[0].start == lo,
            forall|j: int| 0 <= j < r@.len() ==> #[trigger] r@[j].start <= r@[j].end,
            forall|j: int| 0 <= j < r@.len() - 1 ==> #[trigger] r@[j].end == r@[j + 1].start,
        decreases hi - s,
    {
        let e = if hi - s <= size {
            hi
        } else {
            s + size
        };
        proof {
            assert(lo + (k + 1) * size == lo + k * size + size) by (nonlinear_arith);
            if e == hi {
                assert(ceil_div((hi - lo) as nat, size as nat) == k + 1) by (nonlinear_arith)
                    requires
                        hi - lo <= k * size + size,
                        hi - lo > k * size,
                        size > 0,
                ;
            } else {
                assert(k + 1 < ceil_div((hi - lo) as nat, size as nat)) by (nonlinear_arith)
                    requires
                        hi - lo > k * size + size,
                        size > 0,
                ;
            }
        }
        r.push(Span { start: s, end: e });
        s = e;
        proof {
            k = k + 1;
        }
    }
    proof {
        if lo == hi {
            assert(ceil_div(0, size as nat) == 0) by (nonlinear_arith)
                requires
                    size > 0,
            ;
        }
    }
    r
}

/// Shares the pairs `0 .. n` of a call: the first `cpu_n` to the CPU, the
/// rest evenly to the devices, each device's share in launches of at most
/// its chunk size.
pub fn plan_work(n: usize, cpu_n: usize, chunk_sizes: &Vec<usize>) -> (r: WorkPlan)
    requires
        cpu_n <= n,
        chunk_sizes@.len() > 0,
        forall|d: int| 0 <= d < chunk_sizes@.len() ==> #[trigger] chunk_sizes@[d] > 0,
    ensures
        r.cpu == (Span { start: 0, end: cpu_n }),
        r.devices@.len() == chunk_sizes@.len(),
        forall|d: int|
            0 <= d < r.devices@.len() ==> {
                let share = device_share(
                    n as nat,
                    cpu_n as nat,
                    chunk_sizes@.len() as nat,
                    d as nat,
                );
                &&& chain(#[trigger] r.devices@[d]@, share.0, share.1)
                &&& r.devices@[d]@.len() == ceil_div(
                    (share.1 - share.0) as nat,
                    chunk_sizes@[d] as nat,
                )
                &&& forall|k: int|
                    0 <= k < r.devices@[d]@.len() ==> (
                    #[trigger] r.devices@[d]@[k].start as nat,
                    r.devices@[d]@[k].end as nat,
                ) == chunk(share.0, share.1, chunk_sizes@[d] as nat, k as nat)
            },
{
    let nd = chunk_sizes.len();
    let rest = n - cpu_n;
    proof {
        if rest % nd != 0 {
            assert(nd >= 2);
            assert(rest / nd < usize::MAX) by (nonlinear_arith)
                requires
                    nd >= 2,
                    rest <= usize::MAX,
            ;
        }
    }
    let size = rest / nd + if rest % nd == 0 {
        0
    } else {
        1
    };
    proof {
        vstd::arithmetic::div_mod::lemma_fundamental_div_mod(rest as int, nd as int);
        if rest % nd == 0 {
            assert((rest + nd - 1) as int == (rest / nd) * nd + (nd - 1)) by (nonlinear_arith)
                requires
                    rest == nd * (rest / nd) + rest % nd,
                    rest % nd == 0,
            ;
            vstd::arithmetic::div_mod::lemma_fundamental_div_mod_converse_div(
                (rest + nd - 1) as int,
                nd as int,
                (rest / nd) as int,
                (nd - 1) as int,
            );
        } else {
            assert((rest + nd - 1) as int == (rest / nd + 1) * nd + (rest % nd - 1))
                by (nonlinear_arith)
                requires
                    rest == nd * (rest / nd) + rest % nd,
            ;
            vstd::arithmetic::div_mod::lemma_fundamental_div_mod_converse_div(
                (rest + nd - 1) as int,
                nd as int,
                (rest / nd + 1) as int,
                (rest % nd - 1) as int,
            );
        }
        assert(size == ceil_div(rest as nat, nd as nat));
    }
    let mut devices: Vec<Vec<Span>> = Vec::new();
    let mut d: usize = 0;
    let mut lo: usize = cpu_n;
    while d < nd
        invariant
            d <= nd,
            nd == chunk_sizes@.len(),
            cpu_n <= lo <= n,
            rest == n - cpu_n,
            size == ceil_div(rest as nat, nd as nat),
            lo == min_nat(n as nat, (cpu_n + d * size) as nat),
            forall|j: int| 0 <= j < chunk_sizes@.len() ==> #[trigger] chunk_sizes@[j] > 0,
            devices@.len() == d,
            forall|j: int|
                0 <= j < d ==> {
                    let share = device_share(n as nat, cpu_n as nat, nd as nat, j as nat);
                        &&& chain(#[trigger] devices@[j]@, share.0, share.1)
                    &&& devices@[j]@.len() == ceil_div(
                        (share.1 - share.0) as nat,
                        chunk_sizes@[j] as nat,
                    )
                    &&& forall|k: int|
                        0 <= k < devices@[j]@.len() ==> (
                        #[trigger] devices@[j]@[k].start as nat,
                        devices@[j]@[k].end as nat,
                    ) == chunk(share.0, share.1, chunk_sizes@[j] as nat, k as nat)
                },
        decreases nd - d,
    {
        let hi = if n - lo <= size {
            n
        } else {
            lo + size
        };
        proof {
            assert(cpu_n + (d + 1) * size == cpu_n + d * size + size) by (nonlinear_arith);
            assert(device_share(n as nat, cpu_n as nat, nd as nat, d as nat) == (
            lo as nat,
            hi as nat,
            ));
        }
        let launches = chunks_of(lo, hi, chunk_sizes[d]);
        let ghost before = devices@;
        devices.push(launches);
        proof {
            assert forall|j: int| 0 <= j < d + 1 implies {
                let share = device_share(n as nat, cpu_n as nat, nd as nat, j as nat);
                &&& chain(#[trigger] devices@[j]@, share.0, share.1)
                &&& devices@[j]@.len() == ceil_div(
                    (share.1 - share.0) as nat,
                    chunk_sizes@[j] as nat,
                )
                &&& forall|k: int|
                    0 <= k < devices@[j]@.len() ==> (
                    #[trigger] devices@[j]@[k].start as nat,
                    devices@[j]@[k].end as nat,
                ) == chunk(share.0, share.1, chunk_sizes@[j] as nat, k as nat)
            } by {
                if j < d {
                    assert(devices@[j] == before[j]);
                }
            }
            lemma_share_ordered(n as nat, cpu_n as nat, nd as nat, d as nat);
        }
        lo = hi;
        d = d + 1;
    }
    WorkPlan { cpu: Span { start: 0, end: cpu_n }, devices }
}

/// Adds up the partial results of a call. Any failure fails the whole
/// call: the first error is returned, never a partial sum.
pub fn combine_partials<G: CurvePoint>(parts: Vec<Result<G, GpuError>>) -> (r: Result<G, GpuError>)
    ensures
        r is Ok <==> forall|i: int| 0 <= i < parts@.len() ==> #[trigger] parts@[i] is Ok,
        r matches Ok(p) ==> p.dlog() == partial_sum(parts@, parts@.len()) % (G::order() as int),
        r is Err ==> exists|i: int|
            0 <= i < parts@.len() && parts@[i] == r && forall|j: int|
                0 <= j < i ==> #[trigger] parts@[j] is Ok,
{
    let ghost ord = G::order() as int;
    proof {
        G::lemma_order_pos();
        vstd::arithmetic::div_mod::lemma_small_mod(0, ord as nat);
    }
    let mut acc = G::zero();
    let mut i: usize = 0;
    while i < parts.len()
        invariant
            i <= parts@.len(),
            ord == G::order() as int,
            ord > 1,
            forall|j: int| 0 <= j < i ==> #[trigger] parts@[j] is Ok,
            acc.dlog() == partial_sum(parts@, i as nat) % ord,
        decreases parts@.len() - i,
    {
        if parts[i].is_err() {
            let ghost all = parts@;
            let mut parts = parts;
            let e = parts.swap_remove(i);
            proof {
                assert(e == all[i as int]);
            }
            return e;
        }
        match &parts[i] {
            Ok(p) => {
                let ghost before = partial_sum(parts@, i as nat);
                acc = acc.add(p);
                proof {
                    G::lemma_dlog_range(*p);
                    vstd::arithmetic::div_mod::lemma_small_mod(p.dlog(), ord as nat);
                    lemma_add_mod(before, p.dlog() as int, ord);
                }
            },
            Err(_) => {},
        }
        i = i + 1;
    }
    Ok(acc)
}

/// `Σ_{i < k} dlog(parts[i])` over the successful parts.
pub open spec fn partial_sum<G: CurvePoint>(parts: Seq<Result<G, GpuError>>, k: nat) -> int
    decreases k,
{
    if k == 0 {
        0
    } else {
        partial_sum(parts, (k - 1) as nat) + match parts[k - 1] {
            Ok(p) => p.dlog() as int,
            Err(_) => 0,
        }
    }
}

/// Whether work of the given priority must stop because a caller of higher
/// priority has asked for the devices.
pub fn should_break(priority: bool, priority_requested: bool) -> (r: bool)
    ensures
        r == (!priority && priority_requested),
{
    !priority && priority_requested
}

/// `Σ_k dot_range(spans[k])`.
pub open spec fn spans_sum(e: Seq<int>, x: Seq<int>, s: Seq<Span>) -> int
    decreases s.len(),
{
    if s.len() == 0 {
        0
    } else {
        spans_sum(e, x, s.drop_last()) + dot_range(e, x, s.last().start as int, s.last().end as int)
    }
}

/// The sums over a chain of spans add up to the sum over the whole range.
pub proof fn lemma_chain_sum(e: Seq<int>, x: Seq<int>, s: Seq<Span>, lo: nat, hi: nat)
    requires
        chain(s, lo, hi),
        hi <= e.len(),
        hi <= x.len(),
    ensures
        spans_sum(e, x, s) == dot_range(e, x, lo as int, hi as int),
    decreases s.len(),
{
    if s.len() > 0 {
        let t = s.drop_last();
        let mid = s.last().start as nat;
        if t.len() > 0 {
            assert(t.last().end == mid);
            assert(chain(t, lo, mid));
        } else {
            assert(mid == lo);
        }
        assert(lo <= mid) by {
            lemma_chain_ordered(s, lo, hi);
        }
        lemma_chain_sum(e, x, t, lo, mid);
        lemma_dot_split(e, x, lo as int, mid as int, hi as int);
    }
}

proof fn lemma_chain_ordered(s: Seq<Span>, lo: nat, hi: nat)
    requires
        chain(s, lo, hi),
        s.len() > 0,
    ensures
        lo <= s.last().start <= hi,
    decreases s.len(),
{
    if s.len() > 1 {
        let t = s.drop_last();
        assert(chain(t, lo, t.last().end as nat));
        lemma_chain_ordered(t, lo, t.last().end as nat);
    }
}

/// However the pairs are shared between the CPU and the devices, the partial
/// sums of a work plan add up to the whole sum.
pub proof fn lemma_plan_covers<G: CurvePoint>(
    bases: Seq<G>,
    scalars: Seq<BigInt>,
    cpu: Span,
    devices: Seq<Seq<Span>>,
    n: nat,
)
    requires
        bases.len() == n,
        scalars.len() == n,
        cpu.start == 0,
        cpu.end <= n,
        devices.len() > 0,
        forall|d: int|
            0 <= d < devices.len() ==> {
                let share = device_share(n, cpu.end as nat, devices.len(), d as nat);
                &&& chain(#[trigger] devices[d], share.0, share.1)
            },
    ensures
        dot_range(values(scalars), dlogs(bases), 0, cpu.end as int) + devices_sum(
            values(scalars),
            dlogs(bases),
            devices,
            devices.len(),
        ) == dot_range(values(scalars), dlogs(bases), 0, n as int),
        dot_range(values(scalars), dlogs(bases), 0, cpu.end as int) + devices_sum(
            values(scalars),
            dlogs(bases),
            devices,
            devices.len(),
        ) == msm_value(bases, scalars),
{
    let e = values(scalars);
    let x = dlogs(bases);
    let nd = devices.len();
    lemma_dot_prefix2(e.subrange(0, n as int), e, x.subrange(0, n as int), x, n);
    lemma_devices_sum(e, x, devices, n, cpu.end as nat, nd);
    let last = device_share(n, cpu.end as nat, nd, nd);
    assert(last.0 == n) by {
        lemma_shares_reach_end(n, cpu.end as nat, nd);
    }
    lemma_dot_split(e, x, 0, cpu.end as int, n as int);
}

/// `Σ_{d < k}` of the sums over the launches of device `d`.
pub open spec fn devices_sum(e: Seq<int>, x: Seq<int>, devices: Seq<Seq<Span>>, k: nat) -> int
    decreases k,
{
    if k == 0 {
        0
    } else {
        devices_sum(e, x, devices, (k - 1) as nat) + spans_sum(e, x, devices[k - 1])
    }
}

proof fn lemma_devices_sum(
    e: Seq<int>,
    x: Seq<int>,
    devices: Seq<Seq<Span>>,
    n: nat,
    cpu_n: nat,
    k: nat,
)
    requires
        cpu_n <= n,
        n <= e.len(),
        n <= x.len(),
        k <= devices.len(),
        devices.len() > 0,
        forall|d: int|
            0 <= d < devices.len() ==> {
                let share = device_share(n, cpu_n, devices.len(), d as nat);
                &&& chain(#[trigger] devices[d], share.0, share.1)
            },
    ensures
        devices_sum(e, x, devices, k) == dot_range(
            e,
            x,
            cpu_n as int,
            device_share(n, cpu_n, devices.len(), k).0 as int,
        ),
    decreases k,
{
    let nd = devices.len();
    let size = ceil_div((n - cpu_n) as nat, nd);
    if k == 0 {
        assert(0 * size == 0);
        assert(device_share(n, cpu_n, nd, 0).0 == cpu_n);
        assert(dot_range(e, x, cpu_n as int, cpu_n as int) == 0);
    } else {
        let j = (k - 1) as nat;
        lemma_devices_sum(e, x, devices, n, cpu_n, j);
        let share = device_share(n, cpu_n, nd, j);
        assert(device_share(n, cpu_n, nd, k).0 == share.1) by {
            assert(cpu_n + (j + 1) * size == cpu_n + k * size);
        }
        assert(chain(devices[j as int], share.0, share.1));
        lemma_share_ordered(n, cpu_n, nd, j);
        lemma_chain_sum(e, x, devices[j as int], share.0, share.1);
        assert(cpu_n <= share.0) by {
            assert(cpu_n + j * size >= cpu_n) by (nonlinear_arith);
        }
        lemma_dot_split(e, x, cpu_n as int, share.0 as int, share.1 as int);
    }
}

proof fn lemma_shares_reach_end(n: nat, cpu_n: nat, nd: nat)
    requires
        cpu_n <= n,
        nd > 0,
    ensures
        device_share(n, cpu_n, nd, nd).0 == n,
{
    let size = ceil_div((n - cpu_n) as nat, nd);
    let rest = (n - cpu_n) as nat;
    assert(nd * size >= rest) by (nonlinear_arith)
        requires
            size == (rest + nd - 1) as int / nd as int,
            nd > 0,
    ;
}

} // verus!
