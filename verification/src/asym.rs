//! Record distribution over asymmetric cores: an equal split and a split
//! proportional to core speed (a performance core counts `slow` times an
//! efficiency core). Both hand out every record exactly once. Also the
//! per-core synthetic work and the best-of-N measurement fold of the bench.
use vstd::prelude::*;
use crate::kernels::{mix_iter, work};

verus! {

/// Sum of `s[0..k)`.
pub open spec fn sum_to(s: Seq<usize>, k: int) -> int
    decreases k,
{
    if k <= 0 {
        0
    } else {
        sum_to(s, k - 1) + s[k - 1] as int
    }
}

/// The total of all shares.
pub open spec fn share_sum(s: Seq<usize>) -> int {
    sum_to(s, s.len() as int)
}

proof fn lemma_sum_update(s: Seq<usize>, k: int, i: int, v: usize)
    requires
        0 <= i < s.len(),
        0 <= k <= s.len(),
    ensures
        sum_to(s.update(i, v), k) == sum_to(s, k) + (if i < k {
            v as int - s[i] as int
        } else {
            0
        }),
    decreases k,
{
    if k > 0 {
        lemma_sum_update(s, k - 1, i, v);
    }
}

/// The equal split of `n` records over `cores` cores: `n / cores` each, the
/// remainder on core 0.
pub fn equal_shares(n: usize, cores: usize) -> (shares: Vec<usize>)
    requires
        cores > 0,
    ensures
        shares.len() == cores,
        shares[0] == n / cores + n % cores,
        forall|c: int| 1 <= c < cores ==> #[trigger] shares[c] == n / cores,
        share_sum(shares@) == n,
{
    let per = n / cores;
    let mut shares: Vec<usize> = Vec::new();
    let mut c: usize = 0;
    proof {
        assert(per * cores <= n) by (nonlinear_arith)
            requires
                per == n / cores,
                cores > 0,
        ;
    }
    while c < cores
        invariant
            cores > 0,
            per == n / cores,
            per * cores <= n,
            c <= cores,
            shares.len() == c,
            forall|q: int| 0 <= q < c ==> #[trigger] shares[q] == per,
            sum_to(shares@, c as int) == per * c,
        decreases cores - c,
    {
        proof {
            assert(per * c + per <= per * cores) by (nonlinear_arith)
                requires
                    c < cores,
            ;
        }
        let ghost old_shares = shares@;
        shares.push(per);
        proof {
            lemma_sum_agree(shares@, old_shares, c as int);
            assert(per * (c + 1) == per * c + per) by (nonlinear_arith);
        }
        c = c + 1;
    }
    let rem = n - per * cores;
    proof {
        assert(shares[0] == per);
        assert(per <= per * cores) by (nonlinear_arith)
            requires
                cores >= 1,
        ;
    }
    let ghost before = shares@;
    let first = shares[0] + rem;
    shares.set(0, first);
    proof {
        lemma_sum_update(before, cores as int, 0, first);
        assert(n % cores == n - per * cores) by (nonlinear_arith)
            requires
                per == n / cores,
                cores > 0,
        ;
    }
    shares
}

proof fn lemma_sum_agree(a: Seq<usize>, b: Seq<usize>, k: int)
    requires
        0 <= k <= a.len(),
        k <= b.len(),
        forall|i: int| 0 <= i < k ==> a[i] == b[i],
    ensures
        sum_to(a, k) == sum_to(b, k),
    decreases k,
{
    if k > 0 {
        lemma_sum_agree(a, b, k - 1);
    }
}

proof fn lemma_sum_ge_first(s: Seq<usize>, k: int)
    requires
        1 <= k <= s.len(),
    ensures
        sum_to(s, k) >= s[0] as int,
    decreases k,
{
    if k > 1 {
        lemma_sum_ge_first(s, k - 1);
    } else {
        assert(sum_to(s, 0) == 0);
    }
}

/// The speed weight of core `c`: `slow` for the first `p_cores` cores, 1 after.
pub open spec fn weight(c: int, p_cores: int, slow: int) -> int {
    if c < p_cores {
        slow
    } else {
        1
    }
}

/// The proportional split of `n` records over `p_cores` performance cores and
/// `e_cores` efficiency cores: core `c` gets `n * weight(c) / total_weight`
/// (rounded down), and the records left over go to core 0.
pub fn proportional_shares(n: usize, p_cores: usize, e_cores: usize, slow: usize) -> (shares: Vec<usize>)
    requires
        p_cores > 0,
        slow > 0,
        p_cores * slow + e_cores <= usize::MAX,
        n * slow <= usize::MAX,
    ensures
        shares.len() == p_cores + e_cores,
        forall|c: int|
            1 <= c < p_cores + e_cores ==> #[trigger] shares[c] == n * weight(
                c,
                p_cores as int,
                slow as int,
            ) / (p_cores * slow + e_cores),
        share_sum(shares@) == n,
{
    proof {
        assert(p_cores <= p_cores * slow) by (nonlinear_arith)
            requires
                slow >= 1,
        ;
    }
    let cores = p_cores + e_cores;
    let total_weight = p_cores * slow + e_cores;
    let mut shares: Vec<usize> = Vec::new();
    let mut assigned: usize = 0;
    let mut c: usize = 0;
    let ghost mut wsum: int = 0;
    proof {
        assert(total_weight >= 1) by (nonlinear_arith)
            requires
                total_weight == p_cores * slow + e_cores,
                p_cores > 0,
                slow > 0,
        ;
    }
    while c < cores
        invariant
            cores == p_cores + e_cores,
            total_weight == p_cores * slow + e_cores,
            total_weight >= 1,
            p_cores > 0,
            slow > 0,
            n * slow <= usize::MAX,
            c <= cores,
            shares.len() == c,
            forall|q: int|
                0 <= q < c ==> #[trigger] shares[q] == n * weight(q, p_cores as int, slow as int)
                    / (total_weight as int),
            assigned == sum_to(shares@, c as int),
            wsum == (if c <= p_cores {
                c * slow
            } else {
                p_cores * slow + (c - p_cores)
            }),
            assigned * total_weight <= n * wsum,
            wsum <= total_weight,
        decreases cores - c,
    {
        let w = if c < p_cores {
            slow
        } else {
            1
        };
        proof {
            assert(n * w <= n * slow) by (nonlinear_arith)
                requires
                    w <= slow,
            ;
        }
        let share = n * w / total_weight;
        proof {
            assert(share * total_weight <= n * w) by (nonlinear_arith)
                requires
                    share == (n * w) / (total_weight as int),
                    total_weight >= 1,
            ;
            assert((assigned + share) * total_weight <= n * (wsum + w)) by (nonlinear_arith)
                requires
                    assigned * total_weight <= n * wsum,
                    share * total_weight <= n * w,
            ;
            assert(wsum + w <= total_weight) by (nonlinear_arith)
                requires
                    wsum == (if c <= p_cores {
                        c * slow
                    } else {
                        p_cores * slow + (c - p_cores)
                    }),
                    w == (if c < p_cores {
                        slow
                    } else {
                        1
                    }),
                    c < p_cores + e_cores,
                    total_weight == p_cores * slow + e_cores,
            ;
            assert((assigned + share) <= n) by (nonlinear_arith)
                requires
                    (assigned + share) * total_weight <= n * (wsum + w),
                    wsum + w <= total_weight,
                    total_weight >= 1,
            ;
        }
        let ghost old_shares = shares@;
        shares.push(share);
        assigned = assigned + share;
        proof {
            lemma_sum_agree(shares@, old_shares, c as int);
            wsum = wsum + w;
            if c + 1 <= p_cores {
                assert((c + 1) * slow == c * slow + slow) by (nonlinear_arith);
            }
        }
        c = c + 1;
    }
    proof {
        assert(assigned <= n) by (nonlinear_arith)
            requires
                assigned * total_weight <= n * wsum,
                wsum <= total_weight,
                total_weight >= 1,
        ;
    }
    proof {
        lemma_sum_ge_first(shares@, cores as int);
    }
    let ghost before = shares@;
    let first = shares[0] + (n - assigned);
    shares.set(0, first);
    proof {
        lemma_sum_update(before, cores as int, 0, first);
    }
    shares
}

/// The wrapping sum of the synthetic work of records `[0, n)` on core `c`.
pub open spec fn core_acc(n: int, c: u32, base_seed: u32, iters: u32) -> u32
    decreases n,
{
    if n <= 0 {
        0
    } else {
        core_acc(n - 1, c, base_seed, iters).wrapping_add(
            mix_iter(base_seed ^ ((n - 1) as u32) ^ c, iters as nat),
        )
    }
}

/// One core's share of the bench: the wrapping sum of `work(seed ^ i ^ c)`
/// over its `n` records, with `iters` rounds per record.
pub fn run_core_share(n: usize, c: u32, base_seed: u32, iters: u32) -> (acc: u32)
    ensures
        acc == core_acc(n as int, c, base_seed, iters),
{
    let mut acc: u32 = 0;
    let mut i: usize = 0;
    while i < n
        invariant
            i <= n,
            acc == core_acc(i as int, c, base_seed, iters),
        decreases n - i,
    {
        acc = acc.wrapping_add(work(base_seed ^ (i as u32) ^ c, iters));
        i = i + 1;
    }
    acc
}

/// The smallest of the measurements, `u128::MAX` if there are none.
pub open spec fn spec_min(samples: Seq<u128>) -> u128
    decreases samples.len(),
{
    if samples.len() == 0 {
        u128::MAX
    } else {
        let m = spec_min(samples.drop_last());
        if samples.last() < m {
            samples.last()
        } else {
            m
        }
    }
}

/// Best of the timed runs: the minimum of the measured makespans.
pub fn bench_min(samples: &Vec<u128>) -> (best: u128)
    ensures
        best == spec_min(samples@),
        forall|k: int| 0 <= k < samples.len() ==> best <= #[trigger] samples[k],
        samples.len() > 0 ==> exists|k: int| 0 <= k < samples.len() && best == #[trigger] samples[k],
{
    let mut best = u128::MAX;
    let mut r: usize = 0;
    while r < samples.len()
        invariant
            r <= samples.len(),
            best == spec_min(samples@.take(r as int)),
            forall|k: int| 0 <= k < r ==> best <= #[trigger] samples[k],
            r > 0 ==> exists|k: int| 0 <= k < r && best == #[trigger] samples[k],
        decreases samples.len() - r,
    {
        proof {
            assert(samples@.take(r + 1).drop_last() =~= samples@.take(r as int));
        }
        if samples[r] < best {
            best = samples[r];
        }
        r = r + 1;
    }
    proof {
        assert(samples@.take(samples.len() as int) =~= samples@);
    }
    best
}

/// Shortest of the timed repetitions (the warm-up run is not among them).
pub fn min_dur(samples_nanos: &Vec<u128>) -> (best: u128)
    ensures
        best == spec_min(samples_nanos@),
{
    bench_min(samples_nanos)
}

} // verus!
