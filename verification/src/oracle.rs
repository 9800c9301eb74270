//! The one-core oracle: a commutative pipeline (per-record column plus a
//! wrapping-sum reduction) gives the same column and sum whether it runs over
//! `[0, n)` on one core or split over `k` cores.
use vstd::prelude::*;
use vstd::arithmetic::div_mod::lemma_add_mod_noop;
use crate::kernels::M1;
use crate::morsel::{record_slice, spec_slice_lo, spec_slice_hi, lemma_slices_tile};

verus! {

/// First stage: `i * M1` (wrapping).
pub open spec fn spec_f(i: u32) -> u32 {
    i.wrapping_mul(M1)
}

/// Second stage: `b = a * 2246822519 + 1`, then `(b >> 13) ^ b` (wrapping).
pub open spec fn spec_g(a: u32) -> u32 {
    let b = a.wrapping_mul(2246822519).wrapping_add(1);
    (b >> 13u32) ^ b
}

/// The column value of record `i`.
pub open spec fn value(i: int) -> u32 {
    spec_g(spec_f(i as u32))
}

/// First stage of the pipeline.
pub fn f(i: u32) -> (r: u32)
    ensures
        r == spec_f(i),
{
    i.wrapping_mul(M1)
}

/// Second stage of the pipeline.
pub fn g(a: u32) -> (r: u32)
    ensures
        r == spec_g(a),
{
    let b = a.wrapping_mul(2246822519).wrapping_add(1);
    (b >> 13u32) ^ b
}

/// Sum of the column values of records `[lo, hi)`, as an integer.
pub open spec fn total(lo: int, hi: int) -> int
    decreases hi - lo,
{
    if hi <= lo {
        0
    } else {
        total(lo, hi - 1) + value(hi - 1)
    }
}

/// The wrapping (mod 2^32) sum of records `[lo, hi)`.
pub open spec fn wsum(lo: int, hi: int) -> u32 {
    (total(lo, hi) % 0x1_0000_0000) as u32
}

proof fn lemma_total_split(lo: int, mid: int, hi: int)
    requires
        lo <= mid <= hi,
    ensures
        total(lo, hi) == total(lo, mid) + total(mid, hi),
    decreases hi - mid,
{
    if hi > mid {
        lemma_total_split(lo, mid, hi - 1);
    }
}

proof fn lemma_total_nonneg(lo: int, hi: int)
    ensures
        total(lo, hi) >= 0,
    decreases hi - lo,
{
    if hi > lo {
        lemma_total_nonneg(lo, hi - 1);
    }
}

/// Adding one record's value to a wrapping sum.
proof fn lemma_wsum_step(lo: int, hi: int, acc: u32)
    requires
        lo < hi,
        acc == wsum(lo, hi - 1),
    ensures
        acc.wrapping_add(value(hi - 1)) == wsum(lo, hi),
{
    lemma_total_nonneg(lo, hi - 1);
    lemma_add_mod_noop(total(lo, hi - 1), value(hi - 1) as int, 0x1_0000_0000);
    assert((value(hi - 1) as int) % 0x1_0000_0000 == value(hi - 1) as int);
}

/// Combining the wrapping sums of two adjacent record ranges gives the sum of
/// the joined range: the reduction does not depend on how the records are split
/// over cores.
pub proof fn lemma_wsum_join(lo: int, mid: int, hi: int)
    requires
        lo <= mid <= hi,
    ensures
        wsum(lo, mid).wrapping_add(wsum(mid, hi)) == wsum(lo, hi),
{
    lemma_total_split(lo, mid, hi);
    lemma_total_nonneg(lo, mid);
    lemma_total_nonneg(mid, hi);
    lemma_add_mod_noop(total(lo, mid), total(mid, hi), 0x1_0000_0000);
}

/// The one-core run: the column `g(f(i))` for every record and its wrapping sum.
pub fn serial(n: usize) -> (r: (Vec<u32>, u32))
    ensures
        r.0.len() == n,
        forall|i: int| 0 <= i < n ==> #[trigger] r.0[i] == value(i),
        r.1 == wsum(0, n as int),
{
    let mut col: Vec<u32> = vec![0u32; n];
    let mut sum: u32 = 0;
    let mut i: usize = 0;
    while i < n
        invariant
            i <= n,
            col.len() == n,
            forall|q: int| 0 <= q < i ==> #[trigger] col[q] == value(q),
            sum == wsum(0, i as int),
        decreases n - i,
    {
        let v = g(f(i as u32));
        col.set(i, v);
        proof {
            lemma_wsum_step(0, i + 1, sum);
        }
        sum = sum.wrapping_add(v);
        i = i + 1;
    }
    (col, sum)
}

/// One core's share: computes the column over `[lo, hi)` into `col` and
/// returns the wrapping sum of that range.
pub fn core_partial(col: &mut Vec<u32>, lo: usize, hi: usize) -> (partial: u32)
    requires
        lo <= hi <= old(col).len(),
    ensures
        final(col).len() == old(col).len(),
        partial == wsum(lo as int, hi as int),
        forall|q: int| lo <= q < hi ==> #[trigger] final(col)[q] == value(q),
        forall|q: int|
            0 <= q < final(col).len() && !(lo <= q < hi) ==> #[trigger] final(col)[q] == old(col)[q],
{
    let mut partial: u32 = 0;
    let mut i = lo;
    while i < hi
        invariant
            lo <= i <= hi <= col.len(),
            col.len() == old(col).len(),
            partial == wsum(lo as int, i as int),
            forall|q: int| lo <= q < i ==> #[trigger] col[q] == value(q),
            forall|q: int| 0 <= q < col.len() && !(lo <= q < i) ==> #[trigger] col[q] == old(col)[q],
        decreases hi - i,
    {
        let v = g(f(i as u32));
        col.set(i, v);
        proof {
            lemma_wsum_step(lo as int, i + 1, partial);
        }
        partial = partial.wrapping_add(v);
        i = i + 1;
    }
    partial
}

/// The `k`-core run: core `c` computes records `[c * per, min(c * per + per,
/// n))` with `per = ceil(n / k)`; the partial sums are combined with wrapping
/// adds in core order.
pub fn k_core(n: usize, k: usize) -> (r: (Vec<u32>, u32))
    requires
        0 < k,
    ensures
        r.0.len() == n,
        forall|i: int| 0 <= i < n ==> #[trigger] r.0[i] == value(i),
        r.1 == wsum(0, n as int),
{
    let mut col: Vec<u32> = vec![0u32; n];
    let mut sum: u32 = 0;
    let mut c: usize = 0;
    proof {
        lemma_slices_tile(n as int, k as int);
    }
    while c < k
        invariant
            0 < k,
            c <= k,
            col.len() == n,
            spec_slice_lo(n as int, k as int, 0) == 0,
            spec_slice_lo(n as int, k as int, k as int) == n,
            forall|d: int|
                0 <= d ==> spec_slice_lo(n as int, k as int, d) <= #[trigger] spec_slice_hi(
                    n as int,
                    k as int,
                    d,
                ) && spec_slice_hi(n as int, k as int, d) == spec_slice_lo(n as int, k as int, d + 1)
                    && spec_slice_hi(n as int, k as int, d) <= n,
            forall|q: int|
                0 <= q < spec_slice_lo(n as int, k as int, c as int) ==> #[trigger] col[q] == value(q),
            sum == wsum(0, spec_slice_lo(n as int, k as int, c as int)),
        decreases k - c,
    {
        let (lo, hi) = record_slice(c, k, n);
        proof {
            assert(spec_slice_hi(n as int, k as int, c as int) == spec_slice_lo(
                n as int,
                k as int,
                c + 1,
            ));
        }
        let partial = core_partial(&mut col, lo, hi);
        proof {
            lemma_wsum_join(0, lo as int, hi as int);
        }
        sum = sum.wrapping_add(partial);
        c = c + 1;
    }
    (col, sum)
}

} // verus!
