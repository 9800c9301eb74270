use dispatch_lab::accum::AccumColPtr;
use dispatch_lab::adapt::{ema_step, metric, Hysteresis, Naive};
use dispatch_lab::alloc_vec;
use dispatch_lab::barrier::{barrier_open, phase_barrier, waist_barrier, PhaseBarrier};
use dispatch_lab::bump::{bump, BumpProvider, HeapBump};
use dispatch_lab::bundle::{
    assert_same, AccPtrCons, AccPtrNil, AccumBundleOf, Accum, ColBundleOf, ColPtrCons, ColPtrNil, Column,
    Cons, Empty, PtrCons, PtrNil, Resource, ResourceBundleOf, VirtBundleOf, VirtCons, VirtNil, Virtual,
};
use dispatch_lab::dirty::{bit, dispatch_skip, predecessor_masks, propagate};
use dispatch_lab::fusion::{MetaBlock, MetaCtx, SchedulerMetrics};
use dispatch_lab::gate::{run_epoch, run_gated, should_run, FireCtx, FiredSet, Gate, GatedUnit, VirtualStamps};
use dispatch_lab::meta::{lifecycle_rank, meta_rank, rank_fold, run_frame, Meta, Schedule};
use dispatch_lab::pass_select::{compute, custom_pass_available, select_pass, PassChoice};
use dispatch_lab::shapes::{count, current_shape_frame, hoisted_frame, split_frame, Dispatch, EventLog};
use dispatch_lab::topology::{homogeneous, topology_from_probes, CoreTopology};
use dispatch_lab::walks::{
    run_two_phase_barrier,
    dispatch_morsel_outer, dispatch_rcm_ordered, dispatch_selected, dispatch_single, dispatch_unit_outer,
    gated_run, per_core_program, run_phase,
};

const M1: u32 = 2654435761;

#[test]
fn dirty_cones_skip_clean_units() {
    let preds = predecessor_masks();
    let (ran, skipped) = dispatch_skip(propagate(bit(0), &preds));
    assert_eq!(ran, dispatch_lab::dirty::set(&vec![0, 3, 4, 5]));
    assert_eq!(skipped, dispatch_lab::dirty::set(&vec![1, 2, 6]));
    let (ran, skipped) = dispatch_skip(propagate(bit(2), &preds));
    assert_eq!(ran, dispatch_lab::dirty::set(&vec![2, 6]));
    assert_eq!(skipped, dispatch_lab::dirty::set(&vec![0, 1, 3, 4, 5]));
    let (ran, _) = dispatch_skip(propagate(0, &preds));
    assert_eq!(ran, 0);
    let (ran, skipped) = dispatch_skip(propagate(bit(1), &preds));
    assert_eq!(ran, dispatch_lab::dirty::set(&vec![1, 5]));
    assert_eq!(skipped, dispatch_lab::dirty::set(&vec![0, 2, 3, 4, 6]));
    let (ran, skipped) = dispatch_skip(propagate(dispatch_lab::dirty::set(&vec![0, 1, 2]), &preds));
    assert_eq!(ran, dispatch_lab::dirty::set(&vec![0, 1, 2, 3, 4, 5, 6]));
    assert_eq!(skipped, 0);
}

#[test]
fn dirty_skip_partitions_units() {
    let (ran, skipped) = dispatch_skip(0b1010_0101);
    assert_eq!(ran | skipped, 0x7f);
    assert_eq!(ran & skipped, 0);
    assert_eq!(ran, 0b010_0101);
    assert_eq!(bit(5), 32);
    assert_eq!(dispatch_lab::dirty::set(&vec![]), 0);
}

#[test]
fn hysteresis_cuts_oscillation() {
    let threshold = 1000u32;
    let mut naive = Naive { threshold, state: false, transitions: 0 };
    let mut hyst = Hysteresis {
        lo: threshold - 25,
        hi: threshold + 25,
        k: 4,
        cooldown: 16,
        state: false,
        run: 0,
        cool: 0,
        transitions: 0,
    };
    let mut ema = threshold;
    for frame in 0..4000u32 {
        let measured = metric(frame, threshold);
        ema = ema_step(ema, measured);
        naive.observe(ema);
        hyst.observe(ema);
    }
    assert!(hyst.transitions * 3 < naive.transitions.max(1));
    assert!(hyst.transitions <= 40);
}

#[test]
fn hysteresis_needs_k_consecutive_and_cools_down() {
    let mut h = Hysteresis { lo: 10, hi: 20, k: 2, cooldown: 2, state: false, run: 0, cool: 0, transitions: 0 };
    h.observe(25);
    assert!(!h.state);
    h.observe(5);
    assert_eq!(h.run, 0);
    h.observe(25);
    h.observe(25);
    assert!(h.state);
    assert_eq!(h.cool, 2);
    h.observe(0);
    h.observe(0);
    assert!(h.state, "no flip during cooldown");
    assert_eq!(h.cool, 0);
    h.observe(0);
    h.observe(0);
    assert!(!h.state);
    assert_eq!(h.transitions, 2);
}

#[test]
fn ema_and_metric_values() {
    assert_eq!(ema_step(1000, 1000), 1000);
    assert_eq!(ema_step(8, 0), 7);
    assert_eq!(metric(0, 1000), 975);
    assert_eq!(metric(1, 1000), 945);
    assert_eq!(metric(200, 1000), 1055);
    assert_eq!(metric(1, 10), 0);
    let mut n = Naive { threshold: 5, state: false, transitions: 0 };
    n.observe(5);
    n.observe(6);
    n.observe(4);
    assert_eq!(n.transitions, 2);
}

#[test]
fn pass_choice_degrades_to_stock() {
    for (present, compatible) in [(true, true), (true, false), (false, true), (false, false)] {
        let on = select_pass(true, present, compatible);
        let expect = if present && compatible { PassChoice::Custom } else { PassChoice::Stock };
        assert_eq!(on, expect);
        assert_eq!(select_pass(false, present, compatible), PassChoice::Stock);
    }
    assert!(custom_pass_available(true, true));
    assert!(!custom_pass_available(true, false));
    let records: Vec<u32> = (0..4096).collect();
    let reference = compute(&records, PassChoice::Stock);
    assert_eq!(compute(&records, PassChoice::Custom), reference);
    let expect = (0..4096u32).fold(0u32, |a, r| a.wrapping_add(r.wrapping_mul(M1)));
    assert_eq!(reference, expect);
}

#[test]
fn schedule_gate_opens_on_fire_within_walk() {
    let units = vec![
        GatedUnit { gate: Gate::Always, fires: Some(0) },
        GatedUnit { gate: Gate::On(0), fires: None },
        GatedUnit { gate: Gate::On(1), fires: None },
    ];
    let mut fired = FiredSet::new();
    let mut ran = vec![0u32; 3];
    run_gated(&units, &mut fired, &mut ran);
    assert_eq!(ran, vec![1, 1, 0]);
    assert!(fired.is_set(0));
    assert!(!fired.is_set(1));
    assert!(should_run(Gate::Always, &fired));
    assert!(!should_run(Gate::On(1), &fired));
    fired.fire(1);
    assert!(should_run(Gate::On(1), &fired));
}

#[test]
fn gate_order_matters_within_walk() {
    // The consumer precedes the producer: it does not see this walk's fire.
    let units = vec![
        GatedUnit { gate: Gate::On(0), fires: None },
        GatedUnit { gate: Gate::Always, fires: Some(0) },
    ];
    let mut fired = FiredSet::new();
    let mut ran = vec![0u32; 2];
    run_gated(&units, &mut fired, &mut ran);
    assert_eq!(ran, vec![0, 1]);
}

#[test]
fn epoch_stamps_decay() {
    let gates = vec![Gate::Always, Gate::On(0), Gate::Always];
    let mut stamps = VirtualStamps::new(1);
    let ctx = FireCtx { epoch: 1 };
    ctx.fire(&mut stamps, 0);
    let mut pass1 = Vec::new();
    run_epoch(&gates, &stamps, 1, &mut pass1);
    assert_eq!(pass1, vec![0, 1, 2]);
    let mut pass2 = Vec::new();
    run_epoch(&gates, &stamps, 2, &mut pass2);
    assert_eq!(pass2, vec![0, 2]);
    FireCtx { epoch: 3 }.fire(&mut stamps, 0);
    let mut pass3 = Vec::new();
    run_epoch(&gates, &stamps, 3, &mut pass3);
    assert_eq!(pass3, vec![0, 1, 2]);
    assert!(stamps.open(0, 3));
    assert!(!stamps.open(0, 1));
    stamps.fire(0, 9);
    assert!(stamps.open(0, 9));
}

#[test]
fn generation_barrier_round() {
    let mut b = PhaseBarrier::new();
    let (g0, last0) = b.arrive(3);
    let (g1, last1) = b.arrive(3);
    assert_eq!((g0, last0, g1, last1), (0, false, 0, false));
    assert!(!b.released(0));
    let (g2, last2) = b.arrive(3);
    assert_eq!((g2, last2), (0, true));
    assert!(b.released(0));
    assert_eq!((b.gen, b.arrived), (1, 0));
    let mut single = PhaseBarrier::new();
    assert_eq!(single.arrive(1), (0, true));
}

#[test]
fn counting_barrier() {
    let mut counter = 0usize;
    assert!(phase_barrier(&mut counter, 2));
    assert!(!barrier_open(counter, 2));
    assert!(!waist_barrier(&mut counter, 2));
    assert!(barrier_open(counter, 2));
    let mut one = 0usize;
    assert!(!phase_barrier(&mut one, 1));
}

#[test]
fn bump_alignment_and_refusal() {
    let mut h = HeapBump::new(64);
    assert_eq!(h.allocate(3, 1), Some(0));
    assert_eq!(h.allocate(8, 8), Some(8));
    assert_eq!(h.used, 16);
    assert_eq!(h.allocate(64, 1), None);
    assert_eq!(h.used, 16);
    assert_eq!(h.allocate(4, 0), Some(16));
    let mut p = BumpProvider::new(10);
    assert_eq!(p.allocate(5, 4), Some(0));
    assert_eq!(p.allocate(5, 4), None);
    assert_eq!(p.allocate(2, 4), Some(8));
    assert_eq!(bump(5, 100, 10, 16), Some((16, 26)));
}

#[test]
fn inline_vec_push_clear() {
    let mut v = alloc_vec::Vec::<u32>::new();
    assert_eq!(v.as_slice(), &[] as &[u32]);
    v.push(3);
    v.push(4);
    assert_eq!(v.as_slice(), &[3, 4]);
    assert_eq!(v.len(), 2);
    v.clear();
    assert_eq!(v.len(), 0);
    for k in 0..64 {
        v.push(k);
    }
    assert_eq!(v.len(), 64);
    assert_eq!(v.as_slice()[63], 63);
}

#[test]
fn meta_loop_frames() {
    let n = 1 << 14;
    let inv: Vec<u32> = (0..n as u32).collect();
    let mut av = vec![0u32; n];
    let mut bv = vec![0u32; n];
    let mut progress = 0usize;
    let mut log = alloc_vec::Vec::<Meta>::new();
    for frame in 0..3 {
        log.clear();
        let dirty = frame == 0;
        let mut calls = Vec::new();
        run_frame(&inv, &mut av, &mut bv, 1024, dirty, &mut progress, &mut log, &mut calls);
        assert_eq!(calls.len(), 32);
        assert_eq!(calls[0], d(0, 0, 0, 1024));
        assert_eq!(calls[15], d(0, 0, 15 * 1024, 1024));
        assert_eq!(calls[16], d(0, 1, 0, 1024));
        for i in 0..n {
            assert_eq!(bv[i], dispatch_lab::kernels::s2_fn(dispatch_lab::kernels::s1_fn(i as u32)));
        }
        assert_eq!(progress, 16);
        if dirty {
            assert_eq!(
                log.as_slice(),
                &[Meta::PlanStage, Meta::ScheduleReady, Meta::PassStart, Meta::ScheduleEnd]
            );
        } else {
            assert_eq!(log.as_slice(), &[Meta::PassStart, Meta::ScheduleEnd]);
        }
    }
    assert_eq!(Meta::default(), Meta::PassStart);
}

#[test]
fn meta_zero_morsel_counts_as_one() {
    let inv = vec![1u32, 2, 3];
    let mut av = vec![0u32; 3];
    let mut bv = vec![0u32; 3];
    let mut progress = 0usize;
    let mut log = alloc_vec::Vec::<Meta>::new();
    let mut calls = Vec::new();
    run_frame(&inv, &mut av, &mut bv, 0, false, &mut progress, &mut log, &mut calls);
    assert_eq!(progress, 3);
    assert_eq!(
        calls,
        vec![d(0, 0, 0, 1), d(0, 0, 1, 1), d(0, 0, 2, 1), d(0, 1, 0, 1), d(0, 1, 1, 1), d(0, 1, 2, 1)]
    );
}

#[test]
fn meta_huge_morsel_is_one_morsel() {
    let inv = vec![1u32, 2, 3];
    let mut av = vec![0u32; 3];
    let mut bv = vec![0u32; 3];
    let mut progress = 0usize;
    let mut log = alloc_vec::Vec::<Meta>::new();
    let mut calls = Vec::new();
    run_frame(&inv, &mut av, &mut bv, usize::MAX, false, &mut progress, &mut log, &mut calls);
    assert_eq!(progress, 1);
    assert_eq!(calls, vec![d(0, 0, 0, 3), d(0, 1, 0, 3)]);
}

#[test]
fn lifecycle_classification() {
    let carrier = vec![
        Schedule::OnMeta(Meta::PlanStage),
        Schedule::Always,
        Schedule::On,
        Schedule::OnMeta(Meta::ScheduleEnd),
    ];
    assert_eq!(rank_fold(&carrier), vec![0, 1, 1, 2]);
    assert_eq!(meta_rank(Meta::ScheduleReady), 0);
    assert_eq!(lifecycle_rank(Schedule::OnMeta(Meta::PassStart)), 1);
}

#[test]
fn topology_partitions_cores() {
    let t = topology_from_probes(Some(2), &vec![Some(4), Some(4), None, None], Some(8));
    assert!(t.is_heterogeneous());
    assert_eq!(t.p_cores(), 4);
    assert_eq!(t.e_cores(), 4);
    assert_eq!(t.p_cores() + t.e_cores(), t.total_logical());
    let homo = homogeneous(8);
    assert!(!homo.is_heterogeneous());
    assert_eq!(homo.e_cores(), 0);
    assert_eq!(homo.p_cores(), 8);
    assert_eq!(homo.total_logical(), 8);
}

#[test]
fn topology_probe_fallbacks() {
    let none = topology_from_probes(None, &vec![None, None, None, None], None);
    assert_eq!((none.levels, none.logical_per_level[0]), (1, 1));
    let bad = topology_from_probes(Some(3), &vec![Some(0), Some(4), Some(2), None], Some(12));
    assert_eq!((bad.levels, bad.logical_per_level[0]), (1, 12));
    let cut = topology_from_probes(Some(3), &vec![Some(6), Some(2), Some(-1), Some(5)], Some(9));
    assert_eq!(cut.levels, 2);
    assert_eq!(cut.total_logical(), 8);
    let capped = topology_from_probes(Some(9), &vec![Some(1), Some(1), Some(1), Some(1)], None);
    assert_eq!(capped.levels, 4);
    let t = CoreTopology { levels: 0, logical_per_level: [3, 0, 0, 0, 0, 0, 0, 0] };
    assert_eq!((t.p_cores(), t.e_cores(), t.total_logical()), (0, 0, 0));
}

fn d(carrier: usize, phase: usize, start: usize, len: usize) -> Dispatch {
    Dispatch { carrier, phase, start, len }
}

#[test]
fn hoisted_bands_run_once_per_frame() {
    let mut cur = Vec::new();
    current_shape_frame(5, 1, 1024, 256, true, &mut cur);
    assert_eq!(cur.len(), 20);
    assert_eq!(cur.iter().filter(|x| x.phase == 0).count(), 4);
    let mut hoisted = Vec::new();
    hoisted_frame(5, 1, 2, 4, 1024, 256, true, &mut hoisted);
    assert_eq!(hoisted.iter().filter(|x| x.phase == 0).count(), 1);
    assert_eq!(hoisted.iter().filter(|x| x.phase == 2).count(), 4);
    assert_eq!(hoisted.iter().filter(|x| x.phase == 4).count(), 1);
    assert_eq!(hoisted[0], d(0, 0, 0, 0));
    assert_eq!(hoisted[2], d(0, 2, 0, 256));
    let mut clean = Vec::new();
    hoisted_frame(5, 1, 2, 4, 1024, 256, false, &mut clean);
    assert_eq!(clean.iter().filter(|x| x.phase == 0).count(), 0);
    let mut split = Vec::new();
    split_frame(4, 1, 2, 2, 2, 600, 256, true, &mut split);
    assert_eq!(split.len(), 2 + 6 + 2);
    assert_eq!(split[2], d(1, 0, 0, 256));
    assert_eq!(split[7], d(1, 1, 512, 88));
}

#[test]
fn event_log_counts() {
    let mut log = EventLog::new();
    log.log_event(1);
    log.log_event(2);
    log.log_event(1);
    let taken = log.take_log();
    assert_eq!(taken, vec![1, 2, 1]);
    assert_eq!(count(&taken, 1), 2);
    assert_eq!(count(&taken, 3), 0);
    assert!(log.take_log().is_empty());
}

#[test]
fn walks_cover_each_morsel() {
    let mut m = Vec::new();
    dispatch_morsel_outer(2, 5, 2, &mut m);
    assert_eq!(
        m,
        vec![d(0, 0, 0, 2), d(0, 1, 0, 2), d(0, 0, 2, 2), d(0, 1, 2, 2), d(0, 0, 4, 1), d(0, 1, 4, 1)]
    );
    let mut u = Vec::new();
    dispatch_unit_outer(2, 5, &mut u);
    assert_eq!(u, vec![d(0, 0, 0, 5), d(0, 1, 0, 5)]);
    let mut s = Vec::new();
    dispatch_single(1, 3, 0, &mut s);
    assert_eq!(s.len(), 3);
    let mut sel = Vec::new();
    dispatch_selected(false, 1, 2, 4, 4, &mut sel);
    assert_eq!(sel, vec![d(1, 0, 0, 4), d(1, 1, 0, 4)]);
    let mut ph = Vec::new();
    run_phase(3, 1, 2, 1, &mut ph);
    assert_eq!(ph, vec![d(3, 0, 0, 1), d(3, 0, 1, 1)]);
}

#[test]
fn per_core_program_barrier_between_phases() {
    let mut counter = 0usize;
    let mut log = Vec::new();
    let wait = per_core_program(1, 1, 2, 2, &mut counter, 1, &mut log);
    assert!(!wait);
    assert_eq!(log, vec![d(0, 0, 0, 2), d(1, 0, 0, 2)]);
    assert_eq!(counter, 1);
}

#[test]
fn gated_walk_skips_clean_units() {
    let mut log = Vec::new();
    gated_run(3, 1024, 0b100, &mut log);
    assert_eq!(log, vec![d(0, 2, 0, 512), d(0, 2, 512, 512)]);
    let mut none = Vec::new();
    gated_run(3, 1024, 0, &mut none);
    assert!(none.is_empty());
}

#[test]
fn slot_ordered_walk_runs_in_position_order() {
    // Carrier registered C, A, B with order positions 2, 0, 1.
    let mut log = Vec::new();
    dispatch_rcm_ordered(&vec![2, 0, 1], 64, 32, 3, &mut log);
    let units: Vec<usize> = log.iter().map(|x| x.phase).collect();
    assert_eq!(units, vec![1, 2, 0, 1, 2, 0]);
}

#[test]
fn bundles_project_by_kind() {
    type R = Cons<Resource<u8>, Cons<Column<u16>, Empty>>;
    type W = Cons<Column<u32>, Cons<Accum<u64>, Cons<Virtual<i8>, Empty>>>;
    assert_same::<<R as ResourceBundleOf>::Out, PtrCons<u8, PtrNil>>();
    assert_same::<<R as ColBundleOf>::Out, ColPtrCons<u16, ColPtrNil>>();
    assert_same::<<W as ColBundleOf>::Out, ColPtrCons<u32, ColPtrNil>>();
    assert_same::<<W as AccumBundleOf<'static>>::Out, AccPtrCons<'static, u64, AccPtrNil>>();
    assert_same::<<W as VirtBundleOf<'static>>::Out, VirtCons<'static, i8, VirtNil>>();
    assert_same::<<Empty as ResourceBundleOf>::Out, PtrNil>();
}

#[test]
fn meta_hook_reads_engine_metrics() {
    let mut block = MetaBlock { metrics: SchedulerMetrics { pass_count: 0 } };
    block.count_pass();
    assert_eq!(MetaCtx { block: &block }.meta().pass_count, 1);
    block.count_pass();
    assert_eq!(MetaCtx { block: &block }.meta().pass_count, 2);
}

#[test]
fn accumulator_and_meta_hook_per_frame() {
    let mut block = MetaBlock { metrics: SchedulerMetrics { pass_count: 0 } };
    for frame in 1..=2u32 {
        let mut buf = vec![0u32; 8];
        let mut acc = AccumColPtr::new(0, 8);
        // The appender runs, the engine counts the pass, the end hook reads it.
        acc.append(&mut buf, 9);
        block.count_pass();
        let pc = MetaCtx { block: &block }.meta().pass_count;
        acc.append(&mut buf, pc);
        assert_eq!(acc.len, 2);
        assert_eq!(&buf[..2], &[9, frame]);
    }
}

#[test]
fn two_phase_program_arrives_between_phases() {
    let mut barrier = PhaseBarrier::new();
    let mut log = Vec::new();
    let r = run_two_phase_barrier(2, 1, 2, 3, &mut barrier, 2, &mut log);
    assert_eq!(r, (0, false));
    assert_eq!(barrier, PhaseBarrier { gen: 0, arrived: 1 });
    assert_eq!(
        log,
        vec![d(0, 0, 0, 2), d(0, 0, 2, 1), d(1, 0, 0, 2), d(1, 1, 0, 2), d(1, 0, 2, 1), d(1, 1, 2, 1)]
    );
    let mut log2 = Vec::new();
    let r2 = run_two_phase_barrier(2, 1, 2, 3, &mut barrier, 2, &mut log2);
    assert_eq!(r2, (0, true));
    assert_eq!(barrier, PhaseBarrier { gen: 1, arrived: 0 });
}

#[test]
fn hysteresis_flips_are_spaced_by_cooldown_plus_k() {
    // Readings that are always past the active edge flip as fast as allowed.
    let mut h = Hysteresis { lo: 10, hi: 20, k: 2, cooldown: 3, state: false, run: 0, cool: 0, transitions: 0 };
    let mut flips_at = Vec::new();
    for m in 1..=20u32 {
        let ema = if h.state { 0 } else { 30 };
        let before = h.transitions;
        h.observe(ema);
        if h.transitions != before {
            flips_at.push(m);
        }
    }
    assert_eq!(flips_at, vec![2, 7, 12, 17]);
    // At most (20 + 3 + 0) / (3 + 2) flips.
    assert!(h.transitions * 5 <= 20 + 3);
}

#[test]
fn bump_accepts_an_arena_spanning_the_address_range() {
    assert_eq!(bump(0, usize::MAX, 10, 8), Some((0, 10)));
    let mut h = HeapBump::new(usize::MAX);
    assert_eq!(h.allocate(1, 1), Some(0));
    assert_eq!(h.allocate(1, 4), Some(4));
}

#[test]
fn hysteresis_counters_at_their_limit_during_cooldown_and_reset() {
    let mut h = Hysteresis {
        lo: 10,
        hi: 20,
        k: 2,
        cooldown: 1,
        state: false,
        run: u32::MAX,
        cool: 1,
        transitions: u32::MAX,
    };
    h.observe(30);
    assert_eq!((h.run, h.cool, h.state, h.transitions), (0, 0, false, u32::MAX));
    h.observe(0);
    assert_eq!((h.run, h.state, h.transitions), (0, false, u32::MAX));
}

#[test]
fn dirty_propagation_over_another_table() {
    // A chain 0 -> 3 -> 4 -> 6 -> 5 in walk order; units 1 and 2 are inputs.
    let preds = vec![0u64, 0, 0, 1, 8, 64, 16];
    assert_eq!(propagate(bit(0), &preds), dispatch_lab::dirty::set(&vec![0, 3, 4, 5, 6]));
    assert_eq!(propagate(bit(1), &preds), bit(1));
    let once = propagate(bit(4), &preds);
    assert_eq!(propagate(once, &preds), once);
}

#[test]
fn barrier_generation_wraps() {
    let mut b = PhaseBarrier { gen: usize::MAX, arrived: 0 };
    assert_eq!(b.arrive(2), (usize::MAX, false));
    assert_eq!(b.arrive(2), (usize::MAX, true));
    assert_eq!(b, PhaseBarrier { gen: 0, arrived: 0 });
    assert!(b.released(usize::MAX));
}
