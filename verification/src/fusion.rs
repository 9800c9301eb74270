//! Record-op chain fusion: a fiber of per-record stages run either as
//! separate units through intermediate columns (morsel by morsel) or as one
//! fused unit that keeps the intermediates in registers. Both give the same
//! output column. Also the trunk policy threshold and the engine-owned meta
//! block a meta hook reads.
use vstd::prelude::*;
use crate::kernels::{fuse_s1, fuse_s2, fuse_s3, spec_fuse1, spec_fuse2, spec_fuse3};

verus! {

/// One per-record stage of the chain.
#[derive(Clone, Copy, Debug, PartialEq, Eq, Structural)]
pub enum RecordOp {
    S1,
    S2,
    S3,
}

/// What a stage does to one value.
pub open spec fn spec_apply(op: RecordOp, x: u32) -> u32 {
    match op {
        RecordOp::S1 => spec_fuse1(x),
        RecordOp::S2 => spec_fuse2(x),
        RecordOp::S3 => spec_fuse3(x),
    }
}

/// Applies one stage.
pub fn apply(op: RecordOp, x: u32) -> (r: u32)
    ensures
        r == spec_apply(op, x),
{
    match op {
        RecordOp::S1 => fuse_s1(x),
        RecordOp::S2 => fuse_s2(x),
        RecordOp::S3 => fuse_s3(x),
    }
}

/// The value after running the stages of `chain` in order.
pub open spec fn spec_run_chain(chain: Seq<RecordOp>, x: u32) -> u32
    decreases chain.len(),
{
    if chain.len() == 0 {
        x
    } else {
        spec_apply(chain.last(), spec_run_chain(chain.drop_last(), x))
    }
}

/// The three-stage chain S1, S2, S3.
pub fn chain123() -> (c: Vec<RecordOp>)
    ensures
        c@ == seq![RecordOp::S1, RecordOp::S2, RecordOp::S3],
{
    vec![RecordOp::S1, RecordOp::S2, RecordOp::S3]
}

/// Runs a chain on one value, the intermediates staying local.
pub fn run_chain(chain: &Vec<RecordOp>, x: u32) -> (r: u32)
    ensures
        r == spec_run_chain(chain@, x),
{
    let mut v = x;
    let mut k: usize = 0;
    while k < chain.len()
        invariant
            k <= chain.len(),
            v == spec_run_chain(chain@.take(k as int), x),
        decreases chain.len() - k,
    {
        proof {
            assert(chain@.take(k + 1).drop_last() =~= chain@.take(k as int));
        }
        v = apply(chain[k], v);
        k = k + 1;
    }
    proof {
        assert(chain@.take(chain.len() as int) =~= chain@);
    }
    v
}

/// The fused unit over records `[0, n)`: output `i` is the chain run on `i`.
pub fn run_fused(chain: &Vec<RecordOp>, n: usize) -> (out: Vec<u32>)
    requires
        n <= u32::MAX + 1,
    ensures
        out.len() == n,
        forall|i: int| 0 <= i < n ==> #[trigger] out[i] == spec_run_chain(chain@, i as u32),
{
    let mut out: Vec<u32> = Vec::new();
    let mut i: usize = 0;
    while i < n
        invariant
            n <= u32::MAX + 1,
            i <= n,
            out.len() == i,
            forall|q: int| 0 <= q < i ==> #[trigger] out[q] == spec_run_chain(chain@, q as u32),
        decreases n - i,
    {
        out.push(run_chain(chain, i as u32));
        i = i + 1;
    }
    out
}

/// The unfused fiber over records `[0, n)`: S1 writes column A, S2 column B,
/// S3 column C, morsel by morsel (morsels of `msize` records, 0 counting as 1).
/// Returns column C.
pub fn run_unfused(n: usize, msize: usize) -> (cv: Vec<u32>)
    requires
        n <= u32::MAX + 1,
        n + msize + 1 <= usize::MAX,
    ensures
        cv.len() == n,
        forall|i: int| 0 <= i < n ==> #[trigger] cv[i] == spec_fuse3(spec_fuse2(spec_fuse1(i as u32))),
{
    let m = if msize > 0 {
        msize
    } else {
        1
    };
    let mut av: Vec<u32> = vec![0u32; n];
    let mut bv: Vec<u32> = vec![0u32; n];
    let mut cv: Vec<u32> = vec![0u32; n];
    let mut s: usize = 0;
    while s < n
        invariant
            n <= u32::MAX + 1,
            m > 0,
            n + m <= usize::MAX,
            av.len() == n && bv.len() == n && cv.len() == n,
            forall|q: int| 0 <= q < s && q < n ==> #[trigger] cv[q] == spec_fuse3(spec_fuse2(spec_fuse1(q as u32))),
        decreases n + m - s,
    {
        let len = if s + m <= n {
            m
        } else {
            n - s
        };
        let mut i = s;
        while i < s + len
            invariant
                n <= u32::MAX + 1,
                s <= i <= s + len <= n,
                av.len() == n,
                forall|q: int| s <= q < i ==> #[trigger] av[q] == spec_fuse1(q as u32),
            decreases s + len - i,
        {
            av.set(i, fuse_s1(i as u32));
            i = i + 1;
        }
        let mut i = s;
        while i < s + len
            invariant
                s <= i <= s + len <= n,
                av.len() == n && bv.len() == n,
                forall|q: int| s <= q < s + len ==> #[trigger] av[q] == spec_fuse1(q as u32),
                forall|q: int| s <= q < i ==> #[trigger] bv[q] == spec_fuse2(spec_fuse1(q as u32)),
            decreases s + len - i,
        {
            bv.set(i, fuse_s2(av[i]));
            i = i + 1;
        }
        let mut i = s;
        while i < s + len
            invariant
                s <= i <= s + len <= n,
                bv.len() == n && cv.len() == n,
                forall|q: int| s <= q < s + len ==> #[trigger] bv[q] == spec_fuse2(spec_fuse1(q as u32)),
                forall|q: int|
                    0 <= q < i ==> #[trigger] cv[q] == spec_fuse3(spec_fuse2(spec_fuse1(q as u32))),
            decreases s + len - i,
        {
            cv.set(i, fuse_s3(bv[i]));
            i = i + 1;
        }
        s = s + m;
    }
    cv
}

/// Fusion changes nothing: the chain S1, S2, S3 run on a value is the value the
/// unfused stages produce through their columns.
pub proof fn lemma_fused_matches_unfused(x: u32)
    ensures
        spec_run_chain(seq![RecordOp::S1, RecordOp::S2, RecordOp::S3], x) == spec_fuse3(
            spec_fuse2(spec_fuse1(x)),
        ),
{
    let c = seq![RecordOp::S1, RecordOp::S2, RecordOp::S3];
    assert(c.drop_last() =~= seq![RecordOp::S1, RecordOp::S2]);
    assert(c.drop_last().drop_last() =~= seq![RecordOp::S1]);
    assert(c.drop_last().drop_last().drop_last() =~= Seq::<RecordOp>::empty());
    let c1 = seq![RecordOp::S1];
    assert(c1.drop_last() =~= Seq::<RecordOp>::empty());
    assert(spec_run_chain(Seq::<RecordOp>::empty(), x) == x);
    assert(c1.last() == RecordOp::S1);
    assert(spec_run_chain(c1, x) == spec_apply(RecordOp::S1, spec_run_chain(c1.drop_last(), x)));
    assert(spec_run_chain(c1, x) == spec_fuse1(x));
    assert(spec_run_chain(c.drop_last().drop_last(), x) == spec_fuse1(x));
    assert(spec_run_chain(c.drop_last(), x) == spec_fuse2(spec_fuse1(x)));
}

// ---------------------------------------------------------------------

/// Above this many fibers a trunk is split spectrally.
pub const SPECTRAL_THRESHOLD: usize = 5;

/// The trunk policy: a spectral split only above the threshold; otherwise one
/// trunk.
pub fn wants_spectral(fiber_count: usize) -> (r: bool)
    ensures
        r == (fiber_count > SPECTRAL_THRESHOLD),
{
    fiber_count > SPECTRAL_THRESHOLD
}

// ---------------------------------------------------------------------

/// The engine-owned scheduler metrics.
pub struct SchedulerMetrics {
    pub pass_count: u32,
}

/// The engine-owned meta block.
pub struct MetaBlock {
    pub metrics: SchedulerMetrics,
}

/// A meta hook's context: it carries the meta block.
pub struct MetaCtx<'f> {
    pub block: &'f MetaBlock,
}

impl<'f> MetaCtx<'f> {
    /// The scheduler metrics in the meta block.
    pub fn meta(&self) -> (r: &SchedulerMetrics)
        ensures
            r.pass_count == self.block.metrics.pass_count,
    {
        &self.block.metrics
    }
}

impl MetaBlock {
    /// The engine counts one pass.
    pub fn count_pass(&mut self)
        requires
            old(self).metrics.pass_count < u32::MAX,
        ensures
            final(self).metrics.pass_count == old(self).metrics.pass_count + 1,
    {
        self.metrics.pass_count = self.metrics.pass_count + 1;
    }
}

} // verus!
