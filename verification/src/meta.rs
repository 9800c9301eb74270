//! The self-hosting meta loop: lifecycle meta events around each frame, the
//! lifecycle rank of a work unit's schedule, and one frame of the two-phase
//! pipeline gated by a progress counter.
use vstd::prelude::*;
use crate::alloc_vec;
use crate::kernels::{s1_fn, s2_fn, spec_s1, spec_s2};
use crate::shapes::Dispatch;
use crate::walks::{step_of, unit_run, walk_runs};

verus! {

/// The lifecycle meta events a frame fires.
#[derive(Clone, Copy, Debug, PartialEq, Eq, Structural)]
pub enum Meta {
    PlanStage,
    ScheduleReady,
    PassStart,
    ScheduleEnd,
}

impl Default for Meta {
    /// The default event is `PassStart`.
    fn default() -> (r: Meta)
        ensures
            r == Meta::PassStart,
    {
        Meta::PassStart
    }
}

/// The events one frame logs: a replan frame adds `PlanStage` and
/// `ScheduleReady` before `PassStart`; every frame ends with `ScheduleEnd`.
pub open spec fn frame_events(plan_dirty: bool) -> Seq<Meta> {
    if plan_dirty {
        seq![Meta::PlanStage, Meta::ScheduleReady, Meta::PassStart, Meta::ScheduleEnd]
    } else {
        seq![Meta::PassStart, Meta::ScheduleEnd]
    }
}

/// Number of morsels of `m` records in `n` records: `ceil(n / m)`.
pub open spec fn morsel_count(n: int, m: int) -> int {
    (n + m - 1) / m
}

/// One frame of the two-phase pipeline. Phase 0 writes `av[i] = s1(inv[i])`
/// morsel by morsel and publishes each finished morsel in `progress`; phase 1
/// writes `bv[i] = s2(av[i])` over the published morsels. Every phase call is
/// logged to `calls` as (carrier 0, phase, morsel start, morsel length): all
/// phase-0 morsels in ascending order, then all phase-1 morsels. The frame logs
/// its meta events around the work (`morsel` 0 is treated as 1).
pub fn run_frame(
    inv: &Vec<u32>,
    av: &mut Vec<u32>,
    bv: &mut Vec<u32>,
    morsel: usize,
    plan_dirty: bool,
    progress: &mut usize,
    log: &mut alloc_vec::Vec<Meta>,
    calls: &mut Vec<Dispatch>,
)
    requires
        old(av).len() == inv.len(),
        old(bv).len() == inv.len(),
        old(log)@.len() + 4 <= alloc_vec::CAPACITY,
    ensures
        final(log)@ == old(log)@ + frame_events(plan_dirty),
        final(av).len() == inv.len() && final(bv).len() == inv.len(),
        forall|i: int| 0 <= i < inv.len() ==> #[trigger] final(av)[i] == spec_s1(inv[i]),
        forall|i: int| 0 <= i < inv.len() ==> #[trigger] final(bv)[i] == spec_s2(spec_s1(inv[i])),
        *final(progress) == morsel_count(inv.len() as int, step_of(morsel)),
        final(calls)@ == old(calls)@ + walk_runs(0, seq![0usize], inv.len() as int, step_of(morsel), 0)
            + walk_runs(0, seq![1usize], inv.len() as int, step_of(morsel), 0),
{
    let ghost log0 = log@;
    let ghost c0 = calls@;
    if plan_dirty {
        log.push(Meta::PlanStage);
        log.push(Meta::ScheduleReady);
    }
    log.push(Meta::PassStart);
    let nn = inv.len();
    let m = if morsel > 0 {
        morsel
    } else {
        1
    };
    *progress = 0;
    let mut s: usize = 0;
    let mut produced: usize = 0;
    while s < nn
        invariant
            nn == inv.len(),
            av.len() == nn,
            m == step_of(morsel),
            m > 0,
            s <= nn,
            produced <= s,
            s <= produced * m,
            s < nn ==> s == produced * m,
            produced > 0 ==> (produced - 1) * m < nn,
            *progress == produced,
            forall|i: int| 0 <= i < s ==> #[trigger] av[i] == spec_s1(inv[i]),
            c0 + walk_runs(0, seq![0usize], nn as int, m as int, 0) == calls@ + walk_runs(
                0,
                seq![0usize],
                nn as int,
                m as int,
                s as int,
            ),
        decreases nn - s,
    {
        let len = if m < nn - s {
            m
        } else {
            nn - s
        };
        let mut i = s;
        while i < s + len
            invariant
                nn == inv.len(),
                av.len() == nn,
                s <= i <= s + len <= nn,
                forall|q: int| 0 <= q < i ==> #[trigger] av[q] == spec_s1(inv[q]),
            decreases s + len - i,
        {
            av.set(i, s1_fn(inv[i]));
            i = i + 1;
        }
        let ghost before = calls@;
        calls.push(Dispatch { carrier: 0, phase: 0, start: s, len });
        proof {
            let rest = walk_runs(0, seq![0usize], nn as int, m as int, s + len);
            assert(unit_run(0, seq![0usize], s, len) =~= seq![Dispatch { carrier: 0, phase: 0, start: s, len }]);
            assert(before + (unit_run(0, seq![0usize], s, len) + rest) =~= calls@ + rest);
            assert((produced + 1) * m == produced * m + m) by (nonlinear_arith);
        }
        produced = produced + 1;
        *progress = produced;
        s = s + len;
    }
    proof {
        assert(calls@ + walk_runs(0, seq![0usize], nn as int, m as int, s as int) =~= calls@);
        assert(produced == (nn as int + m as int - 1) / (m as int)) by (nonlinear_arith)
            requires
                nn <= produced * m,
                produced > 0 ==> (produced - 1) * m < nn,
                produced == 0 ==> nn == 0,
                m > 0,
        ;
    }
    let ghost c1 = calls@;
    let avail = *progress;
    let mut consumed: usize = 0;
    let mut s: usize = 0;
    while s < nn && consumed < avail
        invariant
            nn == inv.len(),
            av.len() == nn,
            bv.len() == nn,
            m == step_of(morsel),
            m > 0,
            s <= nn,
            consumed <= s,
            s < nn ==> s == consumed * m,
            nn <= avail * m,
            forall|i: int| 0 <= i < nn ==> #[trigger] av[i] == spec_s1(inv[i]),
            forall|i: int| 0 <= i < s ==> #[trigger] bv[i] == spec_s2(spec_s1(inv[i])),
            c1 + walk_runs(0, seq![1usize], nn as int, m as int, 0) == calls@ + walk_runs(
                0,
                seq![1usize],
                nn as int,
                m as int,
                s as int,
            ),
        decreases nn - s,
    {
        let len = if m < nn - s {
            m
        } else {
            nn - s
        };
        let mut i = s;
        while i < s + len
            invariant
                nn == inv.len(),
                av.len() == nn,
                bv.len() == nn,
                s <= i <= s + len <= nn,
                forall|q: int| 0 <= q < nn ==> #[trigger] av[q] == spec_s1(inv[q]),
                forall|q: int| 0 <= q < i ==> #[trigger] bv[q] == spec_s2(spec_s1(inv[q])),
            decreases s + len - i,
        {
            bv.set(i, s2_fn(av[i]));
            i = i + 1;
        }
        let ghost before = calls@;
        calls.push(Dispatch { carrier: 0, phase: 1, start: s, len });
        proof {
            let rest = walk_runs(0, seq![1usize], nn as int, m as int, s + len);
            assert(unit_run(0, seq![1usize], s, len) =~= seq![Dispatch { carrier: 0, phase: 1, start: s, len }]);
            assert(before + (unit_run(0, seq![1usize], s, len) + rest) =~= calls@ + rest);
            assert((consumed + 1) * m == consumed * m + m) by (nonlinear_arith);
        }
        consumed = consumed + 1;
        s = s + len;
    }
    proof {
        if s < nn {
            assert(consumed >= avail);
            assert(consumed * m >= avail * m) by (nonlinear_arith)
                requires
                    consumed >= avail,
                    m > 0,
            ;
        }
        assert(calls@ + walk_runs(0, seq![1usize], nn as int, m as int, s as int) =~= calls@);
        assert(calls@ =~= c0 + walk_runs(0, seq![0usize], nn as int, m as int, 0) + walk_runs(
            0,
            seq![1usize],
            nn as int,
            m as int,
            0,
        ));
    }
    log.push(Meta::ScheduleEnd);
    proof {
        assert(log@ =~= log0 + frame_events(plan_dirty));
    }
}

// ---------------------------------------------------------------------
// Lifecycle classification of a work unit's schedule.

/// Lifecycle rank of planning work.
pub const RANK_PLAN: u8 = 0;

/// Lifecycle rank of consumer work.
pub const RANK_CONSUMER: u8 = 1;

/// Lifecycle rank of epilogue work.
pub const RANK_EPILOGUE: u8 = 2;

/// When a work unit runs: every frame, when a consumer virtual fires, or at a
/// lifecycle meta event.
#[derive(Clone, Copy, Debug, PartialEq, Eq, Structural)]
pub enum Schedule {
    Always,
    On,
    OnMeta(Meta),
}

/// The lifecycle rank of a meta event: plan stage and schedule ready belong to
/// planning, pass start to the consumers, schedule end to the epilogue.
pub fn meta_rank(v: Meta) -> (r: u8)
    ensures
        r == (match v {
            Meta::PlanStage => RANK_PLAN,
            Meta::ScheduleReady => RANK_PLAN,
            Meta::PassStart => RANK_CONSUMER,
            Meta::ScheduleEnd => RANK_EPILOGUE,
        }),
{
    match v {
        Meta::PlanStage => RANK_PLAN,
        Meta::ScheduleReady => RANK_PLAN,
        Meta::PassStart => RANK_CONSUMER,
        Meta::ScheduleEnd => RANK_EPILOGUE,
    }
}

/// The lifecycle rank of a schedule: consumers for `Always` and `On`, the meta
/// event's rank for `OnMeta`.
pub open spec fn spec_lifecycle_rank(s: Schedule) -> u8 {
    match s {
        Schedule::Always => RANK_CONSUMER,
        Schedule::On => RANK_CONSUMER,
        Schedule::OnMeta(v) => match v {
            Meta::PlanStage => RANK_PLAN,
            Meta::ScheduleReady => RANK_PLAN,
            Meta::PassStart => RANK_CONSUMER,
            Meta::ScheduleEnd => RANK_EPILOGUE,
        },
    }
}

/// The lifecycle rank of one schedule.
pub fn lifecycle_rank(s: Schedule) -> (r: u8)
    ensures
        r == spec_lifecycle_rank(s),
{
    match s {
        Schedule::Always => RANK_CONSUMER,
        Schedule::On => RANK_CONSUMER,
        Schedule::OnMeta(v) => meta_rank(v),
    }
}

/// Folds a carrier's schedules into their lifecycle ranks, in carrier order.
pub fn rank_fold(carrier: &Vec<Schedule>) -> (r: Vec<u8>)
    ensures
        r.len() == carrier.len(),
        forall|k: int| 0 <= k < r.len() ==> #[trigger] r[k] == spec_lifecycle_rank(carrier[k]),
{
    let mut out: Vec<u8> = Vec::new();
    let mut k: usize = 0;
    while k < carrier.len()
        invariant
            k <= carrier.len(),
            out.len() == k,
            forall|q: int| 0 <= q < k ==> #[trigger] out[q] == spec_lifecycle_rank(carrier[q]),
        decreases carrier.len() - k,
    {
        out.push(lifecycle_rank(carrier[k]));
        k = k + 1;
    }
    out
}

} // verus!
