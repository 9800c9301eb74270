use dispatch_lab::accum::{
    append_region, compact_regions, rebase_bundle, single_core_reference, threaded_percore,
    wu_append_for_record, AccumColPtr,
};
use dispatch_lab::asym::{bench_min, equal_shares, min_dur, proportional_shares, run_core_share};
use dispatch_lab::convergence::{claim_head, claim_tail, pack, run_convergence, unpack};
use dispatch_lab::facade::{
    expected_transform, facade_per_morsel, plugin_batch, plugin_side_effect, plugin_transform, Plugin,
};
use dispatch_lab::fusion::{apply, chain123, run_chain, run_fused, run_unfused, wants_spectral, RecordOp};
use dispatch_lab::kernels::{
    chain_abc, combine, fa, fb, fc, fuse_s1, fuse_s2, fuse_s3, fx, fy, fz, heavy, phase_f, phase_g,
    rotate_left7, s1_fn, s2_fn, stage1, stage2, variant_stage2, want, work,
};
use dispatch_lab::morsel::{core_chunk, morsel_ranges, record_slice, MorselRange};
use dispatch_lab::oracle::{f, g, k_core, serial};
use dispatch_lab::pool::{dispatch_core, expected, run_pool_frame, worker_step, Shared, WorkerStep};

const M1: u32 = 2654435761;
const M2: u32 = 2246822519;

fn keep_ref(total: usize) -> Vec<u32> {
    (0..total as u32).filter(|r| r % 7 != 0).map(|r| r * 10).collect()
}

#[test]
fn morsels_tile_record_range() {
    let r = morsel_ranges(10, 4);
    assert_eq!(r, vec![MorselRange::new(0, 4), MorselRange::new(4, 4), MorselRange::new(8, 2)]);
    assert_eq!(r[2].end(), 10);
    assert!(morsel_ranges(0, 4).is_empty());
    assert_eq!(morsel_ranges(8, 4).len(), 2);
}

#[test]
fn record_slices_cover_each_record_once() {
    let mut covered = vec![0u32; 10];
    for c in 0..4 {
        let (lo, hi) = record_slice(c, 4, 10);
        for i in lo..hi {
            covered[i] += 1;
        }
    }
    assert!(covered.iter().all(|&x| x == 1));
    assert_eq!(record_slice(3, 4, 5), (5, 5));
    assert_eq!(record_slice(0, 3, 7), (0, 3));
}

#[test]
fn core_chunks_last_takes_remainder() {
    assert_eq!(core_chunk(0, 3, 10), (0, 3));
    assert_eq!(core_chunk(1, 3, 10), (3, 6));
    assert_eq!(core_chunk(2, 3, 10), (6, 10));
}

#[test]
fn filtering_unit_decisions() {
    assert_eq!(wu_append_for_record(7), None);
    assert_eq!(wu_append_for_record(0), None);
    assert_eq!(wu_append_for_record(8), Some(80));
}

#[test]
fn accum_append_saturates_at_capacity() {
    let mut buf = vec![0u32; 4];
    let mut acc = AccumColPtr::new(1, 2);
    acc.append(&mut buf, 5);
    acc.append(&mut buf, 6);
    acc.append(&mut buf, 7);
    assert_eq!(acc.len, 2);
    assert_eq!(buf, vec![0, 5, 6, 0]);
    let r = acc.rebase(1, 3);
    assert_eq!((r.base, r.len, r.cap), (2, 0, 3));
}

#[test]
fn rebase_bundle_shifts_every_accumulator() {
    let bundle = vec![AccumColPtr::new(0, 10), AccumColPtr::new(100, 10)];
    let r = rebase_bundle(&bundle, 5, 4);
    assert_eq!(r.len(), 2);
    assert_eq!((r[0].base, r[0].cap, r[0].len), (5, 4, 0));
    assert_eq!((r[1].base, r[1].cap, r[1].len), (105, 4, 0));
}

#[test]
fn percore_regions_match_single_core() {
    for &(total, ncores) in &[(100usize, 1usize), (100, 2), (100, 7), (5, 8), (0, 3)] {
        let r = threaded_percore(total, total, ncores);
        assert_eq!(r, keep_ref(total), "total={total} ncores={ncores}");
        assert_eq!(r, single_core_reference(total, total));
    }
}

#[test]
fn single_core_reference_truncates_at_capacity() {
    let r = single_core_reference(20, 3);
    assert_eq!(r, vec![10, 20, 30]);
}

#[test]
fn append_region_and_compaction() {
    let mut buf = vec![u32::MAX; 10];
    let live0 = append_region(&mut buf, 0, 5);
    let live1 = append_region(&mut buf, 5, 10);
    assert_eq!((live0, live1), (4, 4));
    compact_regions(&mut buf, &vec![live0, live1], 10, 2);
    assert_eq!(buf, keep_ref(10));
}

#[test]
fn oracle_k_cores_equal_serial() {
    let (col, sum) = serial(1000);
    for k in [1usize, 2, 7] {
        let (ck, sk) = k_core(1000, k);
        assert_eq!(ck, col);
        assert_eq!(sk, sum);
    }
    let expect: u32 = (0..1000u32).map(|i| g(f(i))).fold(0u32, |a, v| a.wrapping_add(v));
    assert_eq!(sum, expect);
    assert_eq!(f(3), 3u32.wrapping_mul(M1));
    let b = 5u32.wrapping_mul(2246822519).wrapping_add(1);
    assert_eq!(g(5), (b >> 13) ^ b);
}

#[test]
fn convergence_each_record_once_any_interleaving() {
    for sched in [vec![], vec![false; 20], vec![true, false, false, true, true, false], vec![false]] {
        let (out, processed) = run_convergence(17, &sched);
        assert!(processed.iter().all(|&p| p == 1));
        for i in 0..17u32 {
            assert_eq!(out[i as usize], dispatch_lab::convergence::f(i));
        }
    }
    let (_, one) = run_convergence(1, &vec![false]);
    assert_eq!(one, vec![1]);
}

#[test]
fn convergence_cursor_protocol() {
    assert_eq!(unpack(pack(7, 9)), (7, 9));
    let mut c = pack(0, 1);
    assert_eq!(claim_tail(&mut c), Some(1));
    assert_eq!(claim_head(&mut c), Some(0));
    assert_eq!(claim_head(&mut c), None);
    assert_eq!(claim_tail(&mut c), None);
    let mut z = pack(0, 0);
    assert_eq!(claim_tail(&mut z), Some(0));
    assert_eq!(unpack(z), (1, 0));
    assert_eq!(dispatch_lab::convergence::f(16), 16u32.wrapping_mul(M1) ^ 2);
}

#[test]
fn asym_partitions_cover_every_record() {
    let n = 1 << 20;
    let eq = equal_shares(n, 8);
    assert_eq!(eq.iter().sum::<usize>(), n);
    assert_eq!(eq[1], n / 8);
    let prop = proportional_shares(n, 4, 4, 3);
    assert_eq!(prop.len(), 8);
    assert_eq!(prop.iter().sum::<usize>(), n);
    assert_eq!(prop[1], n * 3 / 16);
    assert_eq!(prop[7], n / 16);
    let odd = equal_shares(10, 3);
    assert_eq!(odd, vec![4, 3, 3]);
}

#[test]
fn asym_core_share_and_best_of() {
    let mut expect = 0u32;
    for i in 0..5u32 {
        expect = expect.wrapping_add(work(0x9e37 ^ i ^ 2, 4));
    }
    assert_eq!(run_core_share(5, 2, 0x9e37, 4), expect);
    assert_eq!(bench_min(&vec![5, 3, 9]), 3);
    assert_eq!(bench_min(&vec![]), u128::MAX);
    assert_eq!(min_dur(&vec![40, 12, 12, 50]), 12);
}

#[test]
fn pool_frame_equals_formula_for_each_core_count() {
    for ncores in [1u32, 2, 3] {
        let mut shared = Shared::new(ncores);
        let mut last = vec![0u32; ncores as usize];
        let mut out = vec![0u64; 4096];
        for frame in 1..=8u32 {
            run_pool_frame(&mut shared, &mut last, &mut out, frame);
            assert!(shared.frame_done());
            for i in 0..4096 {
                assert_eq!(out[i], expected(frame, i));
            }
        }
        assert_eq!(shared.ncores_spawned(), ncores);
    }
}

#[test]
fn pool_worker_steps() {
    let mut shared = Shared::new(2);
    let mut seen = 0u32;
    let mut out = vec![0u64; 6];
    assert_eq!(worker_step(&mut shared, &mut seen, 0, &mut out), WorkerStep::Park);
    shared.begin_frame(3);
    assert_eq!(worker_step(&mut shared, &mut seen, 1, &mut out), WorkerStep::Ran { wake: false });
    assert_eq!(out, vec![0, 0, 0, 3003, 3004, 3005]);
    let mut seen0 = 0u32;
    assert_eq!(worker_step(&mut shared, &mut seen0, 0, &mut out), WorkerStep::Ran { wake: true });
    shared.request_shutdown();
    assert_eq!(worker_step(&mut shared, &mut seen0, 0, &mut out), WorkerStep::Exit);
    let mut direct = vec![0u64; 5];
    dispatch_core(&mut direct, 0, 2, 7);
    assert_eq!(direct, vec![7000, 7001, 0, 0, 0]);
}

#[test]
fn facade_batches_once_per_morsel() {
    let mut p = Plugin::new();
    facade_per_morsel(&mut p, 256, 32);
    assert_eq!(p.batch_calls, 8);
    assert_eq!(p.cursor, 256);
    for i in 0..256usize {
        assert_eq!(p.buf[i], (i as u32).wrapping_mul(M1));
    }
    let mut q = Plugin::new();
    facade_per_morsel(&mut q, 100, 32);
    assert_eq!(q.batch_calls, 4);
}

#[test]
fn facade_capabilities() {
    let mut p = Plugin::new();
    assert_eq!(plugin_transform(&mut p, 3), expected_transform(3));
    assert_eq!(expected_transform(3), 3u32.wrapping_mul(M1).wrapping_add(1));
    plugin_side_effect(&mut p);
    plugin_side_effect(&mut p);
    assert_eq!((p.transform_calls, p.side_effects), (1, 2));
    plugin_batch(&mut p, 0, 3);
    assert_eq!(p.cursor, 3);
    assert_eq!(&p.buf[..4], &[0, M1, 2u32.wrapping_mul(M1), 0]);
}

#[test]
fn fused_chain_matches_unfused_columns() {
    let c = chain123();
    assert_eq!(c, vec![RecordOp::S1, RecordOp::S2, RecordOp::S3]);
    let fused = run_fused(&c, 3000);
    let unfused = run_unfused(3000, 1024);
    assert_eq!(fused, unfused);
    for i in 0..3000u32 {
        assert_eq!(fused[i as usize], want(i));
    }
    assert_eq!(run_chain(&vec![], 9), 9);
    assert_eq!(apply(RecordOp::S1, 2), fuse_s1(2));
    assert_eq!(run_unfused(5, 0), run_fused(&c, 5));
}

#[test]
fn spectral_threshold() {
    assert!(!wants_spectral(5));
    assert!(wants_spectral(6));
}

#[test]
fn kernel_values() {
    assert_eq!(s1_fn(3), 3u32.wrapping_mul(M1));
    assert_eq!(s2_fn(3), 3u32.wrapping_mul(M2).wrapping_add(1));
    assert_eq!(fx(7), 7u32.wrapping_mul(M1));
    assert_eq!(fy(7), 7u32.wrapping_mul(M2).wrapping_add(1));
    let a = 0x1234_5678u32;
    assert_eq!(fz(a), (a >> 13) ^ a);
    assert_eq!(rotate_left7(a), a.rotate_left(7));
    assert_eq!(combine(3, 5), (3u32 ^ 5u32.rotate_left(7)).wrapping_add(15));
    let mut x = 11u32;
    for _ in 0..3 {
        let y = x.wrapping_mul(M1).wrapping_add(1);
        x = y ^ (y >> 13);
    }
    assert_eq!(work(11, 3), x);
    assert_eq!(heavy(1), work(1, 8192));
    assert_eq!(stage1(4), 4u32.wrapping_mul(M1));
    assert_eq!(stage2(4), 4 + 40503);
    assert_eq!(variant_stage2(4), 4 * 40503);
    assert_eq!(phase_f(2), 2u32.wrapping_mul(M1));
    assert_eq!(phase_g(2), 12347);
    assert_eq!(chain_abc(1), fc(fb(fa(1))));
    assert_eq!(fc(fb(fa(1))), M1.wrapping_add(40503).wrapping_mul(M2));
    let b = 9u32.wrapping_mul(M2).wrapping_add(1);
    assert_eq!(fuse_s2(9), (b >> 13) ^ b);
    assert_eq!(fuse_s3(9), (9u32 * 40503).rotate_left(7));
    assert_eq!(want(9), fuse_s3(fuse_s2(fuse_s1(9))));
}

#[test]
fn accumulator_values_wrap_in_32_bits() {
    assert_eq!(wu_append_for_record(429_496_730), Some(429_496_730u32.wrapping_mul(10)));
    assert_eq!(wu_append_for_record(429_496_731), Some(429_496_731u32.wrapping_mul(10)));
}

#[test]
fn claims_from_both_ends_hand_out_each_record_once() {
    let n = 10u32;
    let mut cursor = pack(0, n - 1);
    let mut seen = vec![0u32; n as usize];
    let mut head = true;
    let mut ended = false;
    for _ in 0..30 {
        let r = if head { claim_head(&mut cursor) } else { claim_tail(&mut cursor) };
        head = !head;
        match r {
            Some(i) => {
                assert!(!ended);
                seen[i as usize] += 1;
            }
            None => ended = true,
        }
    }
    assert!(ended);
    assert!(seen.iter().all(|&c| c == 1));
}
