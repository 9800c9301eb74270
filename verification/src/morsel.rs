//! Record ranges: morsels, per-core record slices and per-core chunks.
//!
//! Every dispatch loop walks `[0, n)` in morsels; every multi-core split hands
//! each core one contiguous slice. The laws here say these pieces tile the
//! record range exactly: in order, without overlap and without a gap.
use vstd::prelude::*;

verus! {

/// A half-open record range `[start, start + len)`.
#[derive(Clone, Copy, Debug, PartialEq, Eq)]
pub struct MorselRange {
    pub start: usize,
    pub len: usize,
}

impl MorselRange {
    /// The range of `len` records starting at `start`.
    pub fn new(start: usize, len: usize) -> (r: MorselRange)
        ensures
            r.start == start,
            r.len == len,
    {
        MorselRange { start, len }
    }

    /// One past the last record of the range.
    pub fn end(&self) -> (r: usize)
        requires
            self.start + self.len <= usize::MAX,
        ensures
            r == self.start + self.len,
    {
        self.start + self.len
    }
}

/// Length of morsel `k` when `[0, n)` is cut into morsels of `m` records.
pub open spec fn spec_morsel_len(n: int, m: int, k: int) -> int {
    if k * m + m <= n {
        m
    } else {
        n - k * m
    }
}

/// Number of morsels of `m` records that cover `[0, n)`: `ceil(n / m)`.
pub open spec fn spec_morsel_count(n: int, m: int) -> int {
    (n + m - 1) / m
}

/// Cuts `[0, n)` into consecutive morsels of `m` records (the last one may be
/// shorter), in record order. This is the morsel loop every per-core body runs.
pub fn morsel_ranges(n: usize, m: usize) -> (r: Vec<MorselRange>)
    requires
        m > 0,
        n + m <= usize::MAX,
    ensures
        r.len() == spec_morsel_count(n as int, m as int),
        forall|k: int|
            0 <= k < r.len() ==> #[trigger] r[k].start == k * m && r[k].len == spec_morsel_len(
                n as int,
                m as int,
                k,
            ) && 0 < r[k].len <= m && r[k].start + r[k].len <= n,
{
    let mut r: Vec<MorselRange> = Vec::new();
    let mut s: usize = 0;
    proof {
        assert(s == r.len() * m) by (nonlinear_arith)
            requires
                s == 0,
                r.len() == 0,
        ;
    }
    while s < n
        invariant
            m > 0,
            n + m <= usize::MAX,
            s == r.len() * m,
            r.len() > 0 ==> s - m < n,
            s <= n + m - 1,
            forall|k: int|
                0 <= k < r.len() ==> #[trigger] r[k].start == k * m && r[k].len == spec_morsel_len(
                    n as int,
                    m as int,
                    k,
                ) && 0 < r[k].len <= m && r[k].start + r[k].len <= n,
        decreases n + m - s,
    {
        let len = if s + m <= n {
            m
        } else {
            n - s
        };
        let ghost k = r.len() as int;
        let ghost old_r = r@;
        r.push(MorselRange::new(s, len));
        proof {
            assert forall|q: int| 0 <= q < r.len() implies r[q].start == q * m && r[q].len
                == spec_morsel_len(n as int, m as int, q) && 0 < r[q].len <= m && r[q].start
                + r[q].len <= n by {
                if q < k {
                    assert(r[q] == old_r[q]);
                    assert(old_r[q].start == q * m);
                } else {
                    assert(r[q].start == s);
                }
            }
        }
        s = s + m;
        proof {
            assert(s == r.len() * m) by (nonlinear_arith)
                requires
                    s == k * m + m,
                    r.len() == k + 1,
            ;
        }
    }
    proof {
        let c = r.len() as int;
        assert(c == (n as int + m as int - 1) / (m as int)) by (nonlinear_arith)
            requires
                s == c * m,
                s >= n,
                c > 0 ==> s - m < n,
                m > 0,
                n >= 0,
                c >= 0,
        ;
    }
    r
}

/// The morsels of `morsel_ranges` tile `[0, n)`: the first starts at 0, each
/// starts where the previous one ends, and the last ends at `n`.
pub proof fn lemma_morsels_tile(n: int, m: int)
    requires
        m > 0,
        n >= 0,
    ensures
        forall|k: int|
            0 <= k && k + 1 < spec_morsel_count(n, m) ==> #[trigger] (k * m) + spec_morsel_len(
                n,
                m,
                k,
            ) == (k + 1) * m,
        n > 0 ==> (spec_morsel_count(n, m) - 1) * m + spec_morsel_len(
            n,
            m,
            spec_morsel_count(n, m) - 1,
        ) == n,
        n == 0 ==> spec_morsel_count(n, m) == 0,
{
    assert forall|k: int|
        0 <= k && k + 1 < spec_morsel_count(n, m) implies #[trigger] (k * m) + spec_morsel_len(
        n,
        m,
        k,
    ) == (k + 1) * m by {
        assert((k + 1) * m <= n - 1 + 0) by (nonlinear_arith)
            requires
                k + 1 < (n + m - 1) / m,
                m > 0,
        ;
        assert(k * m + m == (k + 1) * m) by (nonlinear_arith);
    }
    if n > 0 {
        let c = spec_morsel_count(n, m);
        assert((c - 1) * m < n && c * m >= n) by (nonlinear_arith)
            requires
                c == (n + m - 1) / m,
                n > 0,
                m > 0,
        ;
        assert((c - 1) * m + m == c * m) by (nonlinear_arith);
    } else {
        assert((n + m - 1) / m == 0) by (nonlinear_arith)
            requires
                n == 0,
                m > 0,
        ;
    }
}

/// Records per core in the record-slice split: `ceil(total / ncores)`.
pub open spec fn spec_per(total: int, ncores: int) -> int {
    (total + ncores - 1) / ncores
}

/// First record of core `c`'s slice: `min(c * per, total)`.
pub open spec fn spec_slice_lo(total: int, ncores: int, c: int) -> int {
    if c * spec_per(total, ncores) <= total {
        c * spec_per(total, ncores)
    } else {
        total
    }
}

/// One past the last record of core `c`'s slice: `min(lo + per, total)`.
pub open spec fn spec_slice_hi(total: int, ncores: int, c: int) -> int {
    if spec_slice_lo(total, ncores, c) + spec_per(total, ncores) <= total {
        spec_slice_lo(total, ncores, c) + spec_per(total, ncores)
    } else {
        total
    }
}

/// Core `c`'s record slice of `[0, total)` split over `ncores` cores: each core
/// owns `ceil(total / ncores)` records, surplus cores an empty slice.
pub fn record_slice(c: usize, ncores: usize, total: usize) -> (r: (usize, usize))
    requires
        0 < ncores,
        c <= ncores,
    ensures
        r.0 == spec_slice_lo(total as int, ncores as int, c as int),
        r.1 == spec_slice_hi(total as int, ncores as int, c as int),
        r.0 <= r.1 <= total,
{
    let q: usize = total / ncores;
    let rem: usize = total % ncores;
    proof {
        assert(rem != 0 ==> q < total) by (nonlinear_arith)
            requires
                q == total / ncores,
                rem == total % ncores,
                ncores > 0,
                total >= 0,
        ;
    }
    let per: usize = q + if rem != 0 {
        1
    } else {
        0
    };
    proof {
        assert(per == spec_per(total as int, ncores as int) && per <= total) by (nonlinear_arith)
            requires
                q == total / ncores,
                rem == total % ncores,
                per == q + (if rem != 0 {
                    1int
                } else {
                    0int
                }),
                ncores > 0,
                total >= 0,
        ;
    }
    let lo = if per == 0 {
        0
    } else if c <= total / per {
        proof {
            assert(c * per <= total) by (nonlinear_arith)
                requires
                    per > 0,
                    c <= total / per,
                    total >= 0,
            ;
        }
        c * per
    } else {
        proof {
            assert(c * per > total) by (nonlinear_arith)
                requires
                    per > 0,
                    c > total / per,
                    total >= 0,
            ;
        }
        total
    };
    let hi = if per <= total - lo {
        lo + per
    } else {
        total
    };
    (lo, hi)
}

/// Monotonicity of slice starts in the core index.
pub proof fn lemma_slice_lo_mono(total: int, ncores: int, a: int, b: int)
    requires
        0 < ncores,
        0 <= total,
        0 <= a <= b,
    ensures
        spec_slice_lo(total, ncores, a) <= spec_slice_lo(total, ncores, b),
{
    let per = spec_per(total, ncores);
    assert(per >= 0) by (nonlinear_arith)
        requires
            per == (total + ncores - 1) / ncores,
            ncores > 0,
            total >= 0,
    ;
    assert(a * per <= b * per) by (nonlinear_arith)
        requires
            a <= b,
            per >= 0,
    ;
}

/// A slice ends no later than any later slice starts.
pub proof fn lemma_slice_hi_le_lo(total: int, ncores: int, d: int, c: int)
    requires
        0 < ncores,
        0 <= total,
        0 <= d < c,
    ensures
        spec_slice_hi(total, ncores, d) <= spec_slice_lo(total, ncores, c),
{
    lemma_slices_tile(total, ncores);
    lemma_slice_lo_mono(total, ncores, d + 1, c);
    let per = spec_per(total, ncores);
    assert((d + 1) * per == d * per + per) by (nonlinear_arith);
}

/// The record slices tile `[0, total)`: slice 0 starts at 0, each slice ends
/// where the next starts, and slice `ncores` starts at `total`.
pub proof fn lemma_slices_tile(total: int, ncores: int)
    requires
        0 < ncores,
        0 <= total,
    ensures
        spec_slice_lo(total, ncores, 0) == 0,
        spec_slice_lo(total, ncores, ncores) == total,
        forall|d: int|
            0 <= d ==> spec_slice_lo(total, ncores, d) <= #[trigger] spec_slice_hi(
                total,
                ncores,
                d,
            ) && spec_slice_hi(total, ncores, d) == spec_slice_lo(total, ncores, d + 1)
                && spec_slice_hi(total, ncores, d) <= total,
{
    let per = spec_per(total, ncores);
    assert(per >= 0 && ncores * per >= total) by (nonlinear_arith)
        requires
            per == (total + ncores - 1) / ncores,
            ncores > 0,
            total >= 0,
    ;
    assert forall|d: int| 0 <= d implies spec_slice_lo(
        total,
        ncores,
        d,
    ) <= #[trigger] spec_slice_hi(total, ncores, d) && spec_slice_hi(total, ncores, d) == spec_slice_lo(
        total,
        ncores,
        d + 1,
    ) && spec_slice_hi(total, ncores, d) <= total by {
        assert((d + 1) * per == d * per + per) by (nonlinear_arith);
        assert(d * per >= 0) by (nonlinear_arith)
            requires
                d >= 0,
                per >= 0,
        ;
    }
    assert(0 * per == 0);
}

/// Core `core_id`'s chunk of `n` records over `ncores` cores in the pool
/// kernels: `n / ncores` records each, the last core also takes the remainder.
pub fn core_chunk(core_id: usize, ncores: usize, n: usize) -> (r: (usize, usize))
    requires
        core_id < ncores,
    ensures
        r.0 == core_id * (n / ncores),
        r.1 == (if core_id + 1 == ncores {
            n as int
        } else {
            r.0 + n / ncores
        }),
        r.0 <= r.1 <= n,
{
    let chunk = n / ncores;
    proof {
        assert(core_id * chunk + chunk <= n) by (nonlinear_arith)
            requires
                chunk == n / ncores,
                core_id < ncores,
        ;
        assert(core_id * chunk <= core_id * chunk + chunk) by (nonlinear_arith)
            requires
                chunk >= 0,
        ;
    }
    let start = core_id * chunk;
    let end = if core_id + 1 == ncores {
        n
    } else {
        start + chunk
    };
    (start, end)
}

/// The pool chunks tile `[0, n)`: chunk 0 starts at 0, each chunk ends where
/// the next starts, and the last chunk ends at `n`.
pub proof fn lemma_core_chunks_tile(n: int, ncores: int)
    requires
        0 < ncores,
        0 <= n,
    ensures
        forall|c: int|
            0 <= c && c + 1 < ncores ==> #[trigger] (c * (n / ncores)) + n / ncores == (c + 1) * (n
                / ncores),
        (ncores - 1) * (n / ncores) <= n,
{
    let chunk = n / ncores;
    assert forall|c: int| 0 <= c && c + 1 < ncores implies #[trigger] (c * (n / ncores)) + n
        / ncores == (c + 1) * (n / ncores) by {
        assert(c * chunk + chunk == (c + 1) * chunk) by (nonlinear_arith);
    }
    assert((ncores - 1) * chunk <= n) by (nonlinear_arith)
        requires
            chunk == n / ncores,
            ncores > 0,
            n >= 0,
    ;
}

} // verus!
