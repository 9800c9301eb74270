//! Morsel-loop walks over a carrier: morsel-outer and unit-outer drives, the
//! dirty-gated walk, the slot-ordered walk that runs units by their order
//! position rather than their carrier position, the two-variant selector and
//! the two-phase per-core program. Each walk appends its unit dispatches
//! (carrier, unit, morsel) to a log.
use vstd::prelude::*;
use crate::shapes::Dispatch;
use crate::barrier::{phase_barrier, spec_arrive, PhaseBarrier};

verus! {

/// The dispatches of `units`, in order, over one morsel.
pub open spec fn unit_run(carrier: usize, units: Seq<usize>, start: usize, len: usize) -> Seq<Dispatch> {
    Seq::new(units.len(), |k: int| Dispatch { carrier, phase: units[k], start, len })
}

/// The morsel length used for a requested morsel size: 0 counts as 1.
pub open spec fn step_of(msize: usize) -> int {
    if msize > 0 {
        msize as int
    } else {
        1
    }
}

/// The dispatches of `units` for every morsel of `[s, total)`, morsel-outer.
pub open spec fn walk_runs(carrier: usize, units: Seq<usize>, total: int, step: int, s: int) -> Seq<Dispatch>
    decreases total - s,
{
    if s >= total || step <= 0 {
        Seq::empty()
    } else {
        let len = if step < total - s {
            step
        } else {
            total - s
        };
        unit_run(carrier, units, s as usize, len as usize) + walk_runs(
            carrier,
            units,
            total,
            step,
            s + len,
        )
    }
}

/// Appends the dispatches of `units` over one morsel.
fn run_units(carrier: usize, units: &Vec<usize>, start: usize, len: usize, log: &mut Vec<Dispatch>)
    ensures
        final(log)@ == old(log)@ + unit_run(carrier, units@, start, len),
{
    let ghost l0 = log@;
    let mut k: usize = 0;
    proof {
        assert(l0 + unit_run(carrier, units@.take(0), start, len) =~= l0);
    }
    while k < units.len()
        invariant
            k <= units.len(),
            log@ == l0 + unit_run(carrier, units@.take(k as int), start, len),
        decreases units.len() - k,
    {
        log.push(Dispatch { carrier, phase: units[k], start, len });
        k = k + 1;
        proof {
            assert(log@ =~= l0 + unit_run(carrier, units@.take(k as int), start, len));
        }
    }
    proof {
        assert(units@.take(units.len() as int) =~= units@);
    }
}

/// Appends the dispatches of `units` for every morsel of `[0, total)`.
fn walk(carrier: usize, units: &Vec<usize>, total: usize, msize: usize, log: &mut Vec<Dispatch>)
    ensures
        final(log)@ == old(log)@ + walk_runs(carrier, units@, total as int, step_of(msize), 0),
{
    let step = if msize > 0 {
        msize
    } else {
        1
    };
    let ghost l0 = log@;
    let mut start: usize = 0;
    while start < total
        invariant
            step == step_of(msize),
            start <= total,
            l0 + walk_runs(carrier, units@, total as int, step as int, 0) == log@ + walk_runs(
                carrier,
                units@,
                total as int,
                step as int,
                start as int,
            ),
        decreases total - start,
    {
        let len = if step < total - start {
            step
        } else {
            total - start
        };
        let ghost before = log@;
        run_units(carrier, units, start, len, log);
        proof {
            let rest = walk_runs(carrier, units@, total as int, step as int, start + len);
            assert(before + (unit_run(carrier, units@, start, len) + rest) =~= log@ + rest);
        }
        start = start + len;
    }
    proof {
        assert(log@ + walk_runs(carrier, units@, total as int, step as int, start as int) =~= log@);
    }
}

/// The units `[0, n)` in carrier order.
fn all_units(n: usize) -> (r: Vec<usize>)
    ensures
        r@ == Seq::new(n as nat, |k: int| k as usize),
{
    let mut r: Vec<usize> = Vec::new();
    let mut k: usize = 0;
    while k < n
        invariant
            k <= n,
            r@ == Seq::new(k as nat, |q: int| q as usize),
        decreases n - k,
    {
        r.push(k);
        k = k + 1;
        proof {
            assert(r@ =~= Seq::new(k as nat, |q: int| q as usize));
        }
    }
    r
}

/// The morsel-outer drive: each morsel runs the whole fiber (units `[0, n)`).
pub fn dispatch_morsel_outer(n_units: usize, total: usize, msize: usize, log: &mut Vec<Dispatch>)
    ensures
        final(log)@ == old(log)@ + walk_runs(
            0,
            Seq::new(n_units as nat, |k: int| k as usize),
            total as int,
            step_of(msize),
            0,
        ),
{
    let units = all_units(n_units);
    walk(0, &units, total, msize, log);
}

/// The unit-outer drive: one walk over the full record range.
pub fn dispatch_unit_outer(n_units: usize, total: usize, log: &mut Vec<Dispatch>)
    ensures
        final(log)@ == old(log)@ + unit_run(0, Seq::new(n_units as nat, |k: int| k as usize), 0, total),
{
    let units = all_units(n_units);
    run_units(0, &units, 0, total, log);
}

/// The single baked variant: the morsel-outer drive of one trunk.
pub fn dispatch_single(n_units: usize, total: usize, msize: usize, log: &mut Vec<Dispatch>)
    ensures
        final(log)@ == old(log)@ + walk_runs(
            0,
            Seq::new(n_units as nat, |k: int| k as usize),
            total as int,
            step_of(msize),
            0,
        ),
{
    dispatch_morsel_outer(n_units, total, msize, log);
}

/// The run-time selected variant: variant A (carrier 0, `n_a` units) when
/// `sel`, variant B (carrier 1, `n_b` units) otherwise, each morsel-outer.
pub fn dispatch_selected(sel: bool, n_a: usize, n_b: usize, total: usize, msize: usize, log: &mut Vec<Dispatch>)
    ensures
        sel ==> final(log)@ == old(log)@ + walk_runs(
            0,
            Seq::new(n_a as nat, |k: int| k as usize),
            total as int,
            step_of(msize),
            0,
        ),
        !sel ==> final(log)@ == old(log)@ + walk_runs(
            1,
            Seq::new(n_b as nat, |k: int| k as usize),
            total as int,
            step_of(msize),
            0,
        ),
{
    if sel {
        let units = all_units(n_a);
        walk(0, &units, total, msize, log);
    } else {
        let units = all_units(n_b);
        walk(1, &units, total, msize, log);
    }
}

/// One phase's morsel-outer drive over carrier `carrier`.
pub fn run_phase(carrier: usize, n_units: usize, total: usize, step: usize, log: &mut Vec<Dispatch>)
    ensures
        final(log)@ == old(log)@ + walk_runs(
            carrier,
            Seq::new(n_units as nat, |k: int| k as usize),
            total as int,
            step_of(step),
            0,
        ),
{
    let units = all_units(n_units);
    walk(carrier, &units, total, step, log);
}

/// The two-phase per-core program: phase 0 (carrier 0) over every morsel,
/// the barrier arrival, then phase 1 (carrier 1). Returns whether the core
/// has to wait at the barrier before phase 1 (it then runs phase 1 once the
/// counter reaches the expected arrivals; the log is the same either way).
pub fn per_core_program(
    n0: usize,
    n1: usize,
    total: usize,
    msize: usize,
    counter: &mut usize,
    cores: usize,
    log: &mut Vec<Dispatch>,
) -> (must_wait: bool)
    requires
        *old(counter) < usize::MAX,
    ensures
        *final(counter) == *old(counter) + 1,
        must_wait == (*old(counter) + 1 < (if cores > 0 {
            cores as int
        } else {
            1
        })),
        final(log)@ == old(log)@ + walk_runs(
            0,
            Seq::new(n0 as nat, |k: int| k as usize),
            total as int,
            step_of(msize),
            0,
        ) + walk_runs(1, Seq::new(n1 as nat, |k: int| k as usize), total as int, step_of(msize), 0),
{
    let expected = if cores > 0 {
        cores
    } else {
        1
    };
    run_phase(0, n0, total, msize, log);
    let must_wait = phase_barrier(counter, expected);
    run_phase(1, n1, total, msize, log);
    must_wait
}

/// The two-phase body with the generation barrier at the boundary: phase 0
/// (carrier 0) over every morsel of `morsel` records, the barrier arrival,
/// then phase 1 (carrier 1). Returns the generation the core arrived in and
/// whether it was the last arrival; a core that was not last waits for the
/// generation to change before phase 1 (the log is the same either way).
pub fn run_two_phase_barrier(
    morsel: usize,
    n0: usize,
    n1: usize,
    total: usize,
    barrier: &mut PhaseBarrier,
    n_cores: usize,
    log: &mut Vec<Dispatch>,
) -> (r: (usize, bool))
    requires
        morsel > 0,
    ensures
        *final(barrier) == spec_arrive(*old(barrier), n_cores),
        r.0 == old(barrier).gen,
        r.1 == (old(barrier).arrived.wrapping_add(1) == n_cores),
        final(log)@ == old(log)@ + walk_runs(
            0,
            Seq::new(n0 as nat, |k: int| k as usize),
            total as int,
            morsel as int,
            0,
        ) + walk_runs(1, Seq::new(n1 as nat, |k: int| k as usize), total as int, morsel as int, 0),
{
    run_phase(0, n0, total, morsel, log);
    let r = barrier.arrive(n_cores);
    run_phase(1, n1, total, morsel, log);
    r
}

/// The positions among `[0, k)` whose bit is set in `dirty`.
pub open spec fn dirty_units(dirty: u64, k: int) -> Seq<usize>
    decreases k,
{
    if k <= 0 {
        Seq::empty()
    } else if dirty & (1u64 << ((k - 1) as u64)) != 0 {
        dirty_units(dirty, k - 1).push((k - 1) as usize)
    } else {
        dirty_units(dirty, k - 1)
    }
}

/// The units the dirty-gated walk runs in each morsel are exactly the dirty
/// positions below `k`, in strictly increasing carrier order.
pub proof fn lemma_dirty_units(dirty: u64, k: int)
    requires
        0 <= k <= 64,
    ensures
        forall|i: int, j: int|
            0 <= i < j < dirty_units(dirty, k).len() ==> #[trigger] dirty_units(dirty, k)[i] < #[trigger] dirty_units(
                dirty,
                k,
            )[j],
        forall|i: int| 0 <= i < dirty_units(dirty, k).len() ==> #[trigger] dirty_units(dirty, k)[i] < k,
        forall|p: int|
            0 <= p < k ==> (#[trigger] dirty_units(dirty, k).contains(p as usize) <==> dirty & (1u64 << (p as u64))
                != 0),
    decreases k,
{
    if k > 0 {
        lemma_dirty_units(dirty, k - 1);
        let prev = dirty_units(dirty, k - 1);
        let cur = dirty_units(dirty, k);
        let x = (k - 1) as usize;
        assert forall|p: int| 0 <= p < k implies (#[trigger] cur.contains(p as usize) <==> dirty & (1u64 << (
        p as u64)) != 0) by {
            let pu = p as usize;
            if cur.contains(pu) {
                let i = choose|i: int| 0 <= i < cur.len() && cur[i] == pu;
                if i < prev.len() {
                    assert(prev[i] == cur[i]);
                    assert(prev.contains(pu));
                }
            }
            if p < k - 1 {
                if prev.contains(pu) {
                    let i = choose|i: int| 0 <= i < prev.len() && prev[i] == pu;
                    assert(cur[i] == prev[i]);
                }
            } else if dirty & (1u64 << (x as u64)) != 0 {
                assert(cur[prev.len() as int] == x);
            } else {
                if prev.contains(pu) {
                    let i = choose|i: int| 0 <= i < prev.len() && prev[i] == pu;
                    assert(prev[i] < k - 1);
                }
            }
        }
    }
}

/// The morsel size of the dirty-gated walk.
pub const GATED_MORSEL: usize = 512;

/// The dirty-gated walk: each morsel of 512 records runs, in carrier order,
/// exactly the units whose dirty bit is set; clean units are skipped.
pub fn gated_run(n_units: usize, total: usize, dirty: u64, log: &mut Vec<Dispatch>)
    requires
        n_units <= 64,
    ensures
        final(log)@ == old(log)@ + walk_runs(
            0,
            dirty_units(dirty, n_units as int),
            total as int,
            GATED_MORSEL as int,
            0,
        ),
{
    let mut units: Vec<usize> = Vec::new();
    let mut p: usize = 0;
    while p < n_units
        invariant
            p <= n_units <= 64,
            units@ == dirty_units(dirty, p as int),
        decreases n_units - p,
    {
        if dirty & (1u64 << (p as u64)) != 0 {
            units.push(p);
        }
        p = p + 1;
    }
    walk(0, &units, total, GATED_MORSEL, log);
}

/// The carrier positions among `[0, k)` whose order position is `slot`.
pub open spec fn at_slot(pos: Seq<usize>, slot: usize, k: int) -> Seq<usize>
    decreases k,
{
    if k <= 0 {
        Seq::empty()
    } else if pos[k - 1] == slot {
        at_slot(pos, slot, k - 1).push((k - 1) as usize)
    } else {
        at_slot(pos, slot, k - 1)
    }
}

/// The carrier positions in slot order for slots `[0, s)`: slot by slot, and
/// within a slot in carrier order.
pub open spec fn slot_order(pos: Seq<usize>, s: int) -> Seq<usize>
    decreases s,
{
    if s <= 0 {
        Seq::empty()
    } else {
        slot_order(pos, s - 1) + at_slot(pos, (s - 1) as usize, pos.len() as int)
    }
}

/// The slot-ordered walk: each morsel walks the carrier once per output slot
/// `0..n_wus`, running the unit whose order position is that slot, so units
/// run in order-position order whatever their carrier order.
pub fn dispatch_rcm_ordered(pos: &Vec<usize>, total: usize, msize: usize, n_wus: usize, log: &mut Vec<Dispatch>)
    ensures
        final(log)@ == old(log)@ + walk_runs(
            0,
            slot_order(pos@, n_wus as int),
            total as int,
            step_of(msize),
            0,
        ),
{
    let mut units: Vec<usize> = Vec::new();
    let mut slot: usize = 0;
    while slot < n_wus
        invariant
            slot <= n_wus,
            units@ == slot_order(pos@, slot as int),
        decreases n_wus - slot,
    {
        let ghost base = units@;
        let mut c: usize = 0;
        while c < pos.len()
            invariant
                c <= pos.len(),
                units@ == base + at_slot(pos@, slot, c as int),
            decreases pos.len() - c,
        {
            if pos[c] == slot {
                units.push(c);
                proof {
                    assert(units@ =~= base + at_slot(pos@, slot, c + 1));
                }
            }
            c = c + 1;
        }
        slot = slot + 1;
    }
    walk(0, &units, total, msize, log);
}

} // verus!
