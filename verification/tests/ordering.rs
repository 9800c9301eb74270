use dispatch_lab::carrier::{
    carrier_order_const, carrier_reads, carrier_writes, dispatch_in_order, dispatch_runtime_order,
    dispatch_tier_a1, dispatch_tier_au, record, run_slot,
};
use dispatch_lab::fiber::{dispatch_per_fiber, group_fibers, NibbleTrace};
use dispatch_lab::grouping::{compute_phase, compute_trunks, trunk_of};
use dispatch_lab::pairs::{dispatch_all, dispatch_trunks, flat_walk, phase_of, run_one, run_one_trunk, run_pairs, run_step};
use dispatch_lab::renumber::{lex_lt, pair_eq, renumber};
use dispatch_lab::topo::{topo, topo_order};
use dispatch_lab::unionfind;
use dispatch_lab::waist::{build_adj, depth_phases, mk_col, overlaps, phases_from_flags};

fn mix_mul(a: u64) -> u64 {
    a.wrapping_mul(2654435761).wrapping_add(1)
}
fn mix_rot(a: u64) -> u64 {
    a.rotate_left(7) ^ 0x9e3779b9
}
fn mix_add(a: u64) -> u64 {
    a.wrapping_add(0x1234567)
}

#[test]
fn topo_orders_anti_topological_carrier() {
    // Carrier [C, B, A]: A writes S1 read by B, B writes S2 read by C.
    let order = topo_order(&[4, 2, 1], &[8, 4, 2]);
    assert_eq!(order, vec![2, 1, 0]);
    assert_eq!(topo(&[4, 2, 1], &[8, 4, 2]), vec![2, 1, 0]);
}

#[test]
fn topo_lowest_index_tie_break() {
    // Perfiber carrier [A, C, P]: P -> C, A independent.
    assert_eq!(topo(&[1, 2, 1], &[4, 0, 2]), vec![0, 2, 1]);
    // No edges at all: identity order.
    assert_eq!(topo(&[0, 0, 0, 0], &[0, 0, 0, 0]), vec![0, 1, 2, 3]);
}

#[test]
fn topo_cycle_leaves_zeros() {
    // 0 -> 1 -> 0 is a cycle; 2 is free.
    let order = topo(&[2, 1, 0], &[1, 2, 0]);
    assert_eq!(order, vec![2, 0, 0]);
}

#[test]
fn topo_every_dependency_before_its_consumer() {
    let reads = [0u64, 1, 1, 6, 8, 8];
    let writes = [1u64, 2, 4, 8, 16, 32];
    let order = topo(&reads, &writes);
    let mut pos = [0usize; 6];
    for (k, &u) in order.iter().enumerate() {
        pos[u] = k;
    }
    for i in 0..6 {
        for j in 0..6 {
            if i != j && writes[i] & reads[j] != 0 {
                assert!(pos[i] < pos[j], "{i} before {j}");
            }
        }
    }
}

#[test]
fn runtime_order_dispatches_a_b_c() {
    let mut acc = 1u64;
    let mut trace = 0u64;
    dispatch_runtime_order(&mut acc, &mut trace);
    assert_eq!(trace, 0xABC);
    assert_eq!(acc, mix_add(mix_rot(mix_mul(1))));
}

#[test]
fn tier_a1_and_au_dispatch_a_b_c() {
    let mut acc = 1u64;
    let mut trace = 0u64;
    dispatch_tier_a1(&mut acc, &mut trace);
    assert_eq!(trace, 0xABC);
    let mut acc2 = 1u64;
    let mut trace2 = 0u64;
    dispatch_tier_au(&mut acc2, &mut trace2);
    assert_eq!(trace2, 0xABC);
    assert_eq!(acc, acc2);
    assert_eq!(carrier_order_const(), vec![2, 1, 0]);
}

#[test]
fn carrier_masks_and_slots() {
    assert_eq!(carrier_reads(), vec![4, 2, 1]);
    assert_eq!(carrier_writes(), vec![8, 4, 2]);
    let mut acc = 5u64;
    let mut trace = 0u64;
    run_slot(0, &mut acc, &mut trace);
    assert_eq!(acc, mix_add(5));
    assert_eq!(trace, 0xC);
    let mut t = 0x1u64;
    record(&mut t, 0xF);
    assert_eq!(t, 0x1F);
}

#[test]
fn carrier_order_dispatch_is_anti_topological_trace() {
    let mut acc = 1u64;
    let mut trace = 0u64;
    dispatch_in_order(&vec![0, 1, 2], &mut acc, &mut trace);
    assert_eq!(trace, 0xCBA);
}

#[test]
fn per_fiber_locality_trace() {
    let mut acc = 1u64;
    let mut trace = NibbleTrace::new();
    dispatch_per_fiber(&mut acc, &mut trace, 3);
    assert_eq!(trace.len, 9);
    assert_eq!(trace.word, 0xcbcbcbaaa);
    let mut expect = 1u64;
    for _ in 0..3 {
        expect = mix_add(expect);
    }
    for _ in 0..3 {
        expect = mix_rot(mix_mul(expect));
    }
    assert_eq!(acc, expect);
}

#[test]
fn nibble_trace_stores_sixteen() {
    let mut t = NibbleTrace::new();
    for k in 0..18u64 {
        t.record(k % 16);
    }
    assert_eq!(t.len, 18);
    assert_eq!(t.word, 0xfedcba9876543210);
}

#[test]
fn group_fibers_splits_accumulator() {
    let (fstart, flen, flocal, fc) =
        group_fibers(&vec![0, 2, 1], &vec![1, 2, 1], &vec![4, 0, 2], &vec![true, false, false]);
    assert_eq!(fc, 2);
    assert_eq!(fstart, vec![0, 1, 0]);
    assert_eq!(flen, vec![1, 2, 0]);
    assert_eq!(flocal, vec![false, true, false]);
}

#[test]
fn group_fibers_breaks_unchained() {
    // Three units, none consuming the previous: three singleton fibers.
    let (fstart, flen, _flocal, fc) =
        group_fibers(&vec![0, 1, 2], &vec![1, 2, 4], &vec![8, 16, 32], &vec![false, false, false]);
    assert_eq!(fc, 3);
    assert_eq!(fstart, vec![0, 1, 2]);
    assert_eq!(flen, vec![1, 1, 1]);
}

#[test]
fn grouping_from_masks_phase_and_trunks() {
    let reads = vec![1u64, 4, 2];
    let writes = vec![2u64, 8, 16];
    let phase = compute_phase(&reads, &writes);
    assert_eq!(phase, vec![0, 0, 1]);
    let trunks = compute_trunks(&reads, &writes, &phase);
    assert_eq!(trunks, vec![0, 1, 2]);
    assert_eq!(trunk_of(&trunks, 2), 2);
}

#[test]
fn compute_phase_chain_depth() {
    // 0 -> 1 -> 2 -> 3 registered in reverse.
    let reads = vec![4u64, 2, 1, 0];
    let writes = vec![8u64, 4, 2, 1];
    assert_eq!(compute_phase(&reads, &writes), vec![3, 2, 1, 0]);
}

#[test]
fn compute_trunks_joins_same_phase_overlap() {
    let reads = vec![1u64, 1, 2];
    let writes = vec![2u64, 4, 8];
    let phase = vec![0u64, 0, 0];
    // Units 0 and 1 share column 0: one trunk; unit 2 shares column 1 with 0.
    assert_eq!(compute_trunks(&reads, &writes, &phase), vec![0, 0, 0]);
    let phase2 = vec![0u64, 1, 0];
    assert_eq!(compute_trunks(&reads, &writes, &phase2), vec![0, 1, 0]);
}

#[test]
fn compute_trunks_follow_chains_of_shared_columns() {
    // Unit 2 shares column 0 with unit 0 and column 1 with unit 1: one trunk.
    let reads = vec![1u64, 2, 3];
    let writes = vec![0u64, 0, 0];
    assert_eq!(compute_trunks(&reads, &writes, &vec![0u64, 0, 0]), vec![0, 0, 0]);
    // Ids count up in carrier order of each trunk's first unit.
    let reads = vec![4u64, 1, 2, 1, 4];
    let writes = vec![0u64, 0, 0, 0, 0];
    assert_eq!(compute_trunks(&reads, &writes, &vec![0u64, 0, 0, 0, 0]), vec![0, 1, 2, 1, 0]);
    // Units in different phases never share a trunk.
    assert_eq!(compute_trunks(&reads, &writes, &vec![0u64, 0, 0, 0, 1]), vec![0, 1, 2, 1, 3]);
}

#[test]
fn union_find_trunks_share_columns() {
    let reads = vec![1u64, 4, 2];
    let writes = vec![2u64, 8, 16];
    let g = unionfind::compute_trunks(&reads, &writes, 3);
    assert_eq!(g[0], g[2]);
    assert_ne!(g[0], g[1]);
}

#[test]
fn union_find_leaves_slots_past_n_alone() {
    let reads = vec![1u64, 1, 1, 1];
    let writes = vec![0u64, 0, 0, 0];
    let g = unionfind::compute_trunks(&reads, &writes, 2);
    assert_eq!(g[0], g[1]);
    assert_eq!(g[2], 2);
    assert_eq!(g[3], 3);
}

#[test]
fn union_find_transitive_chain() {
    // 0-1 share column 0, 1-2 share column 1, 3 alone.
    let reads = vec![1u64, 3, 2, 8];
    let writes = vec![0u64, 0, 0, 0];
    let g = unionfind::compute_trunks(&reads, &writes, 4);
    assert_eq!(g[0], g[1]);
    assert_eq!(g[1], g[2]);
    assert_eq!(g[3], 3);
}

#[test]
fn trunk_roots_min_root_within_phase() {
    let reads = vec![1u64, 0, 2, 4];
    let writes = vec![2u64, 8, 4, 16];
    let phase = vec![0usize, 0, 0, 1];
    assert_eq!(unionfind::trunk_roots(&reads, &writes, &phase), vec![0, 1, 0, 3]);
}

#[test]
fn dispatch_all_phase_major_trunks() {
    let grouping = vec![0usize, 1, 0, 3];
    let phase = vec![0usize, 0, 0, 1];
    let mut log = Vec::new();
    dispatch_all(&grouping, &phase, 2, &mut log);
    assert_eq!(log, vec![0, 2, 1, 3]);
    assert_eq!(phase_of(&phase, 3), 1);
    let mut t = Vec::new();
    run_one_trunk(&grouping, 0, &mut t);
    assert_eq!(t, vec![0, 2]);
}

#[test]
fn pairs_enumeration_matches_flat_walk() {
    let units = vec![(0usize, 0usize), (0, 0), (0, 0), (0, 0), (1, 4), (1, 5)];
    let pairs = vec![(0usize, 0usize), (1, 4), (1, 5)];
    let mut paired = Vec::new();
    run_pairs(&units, &pairs, &mut paired);
    assert_eq!(paired.len(), 6);
    assert_eq!(paired, vec![0, 1, 2, 3, 4, 5]);
    let mut flat = Vec::new();
    flat_walk(6, &mut flat);
    assert_eq!(paired, flat);
}

#[test]
fn pairs_run_one_and_step() {
    let units = vec![(1usize, 2usize), (0, 0), (1, 2)];
    let mut log = Vec::new();
    run_one(&units, 1, 2, &mut log);
    assert_eq!(log, vec![0, 2]);
    let pairs = vec![(0usize, 0usize), (1, 2)];
    let mut log2 = Vec::new();
    run_step(&units, &pairs, 1, &mut log2);
    assert_eq!(log2, vec![0, 2]);
    let mut empty = Vec::new();
    run_pairs(&units, &Vec::new(), &mut empty);
    assert!(empty.is_empty());
}

#[test]
fn renumber_lifecycle_bands() {
    let rank = vec![0u8, 1, 2, 3, 3, 4];
    let wphase = vec![0usize, 0, 0, 0, 1, 0];
    let mut out = vec![0usize; 8];
    renumber(&rank, &wphase, 6, &mut out);
    assert_eq!(&out[..6], &[0, 1, 2, 3, 4, 5]);
    assert_eq!(&out[6..], &[0, 0]);
}

#[test]
fn renumber_equal_pairs_share_phase() {
    let rank = vec![0u8, 2, 2, 3];
    let wphase = vec![0usize, 0, 0, 0];
    let mut out = vec![9usize; 4];
    renumber(&rank, &wphase, 4, &mut out);
    assert_eq!(out, vec![0, 1, 1, 2]);
    assert!(lex_lt(1, 5, 2, 0));
    assert!(lex_lt(2, 0, 2, 1));
    assert!(!lex_lt(2, 1, 2, 1));
    assert!(pair_eq(3, 1, 3, 1));
    assert!(!pair_eq(3, 1, 3, 2));
}

#[test]
fn waist_phases_differ_from_depth() {
    let reads: Vec<u8> = vec![mk_col(0), mk_col(1), mk_col(1), mk_col(6), mk_col(8), mk_col(8)];
    let writes: Vec<u8> = vec![mk_col(1), mk_col(2), mk_col(4), mk_col(8), mk_col(16), mk_col(32)];
    let flags = vec![false, false, false, true, false, false];
    let phases = phases_from_flags(&flags);
    assert_eq!(phases, vec![0, 0, 0, 0, 1, 1]);
    let depth = depth_phases(&reads, &writes);
    assert_eq!(depth, vec![0, 1, 1, 2, 3, 3]);
    assert_ne!(phases, depth);
}

#[test]
fn build_adj_rows() {
    let reads: Vec<u8> = vec![0, 1, 1, 6];
    let writes: Vec<u8> = vec![1, 2, 4, 8];
    let adj = build_adj(&reads, &writes);
    assert_eq!(adj, vec![0b0110, 0b1000, 0b1000, 0]);
    assert!(overlaps(6, 2));
    assert!(!overlaps(6, 1));
    assert_eq!(mk_col(0x1ff), 0xff);
    assert_eq!(mk_col(0b1010), 0b1010);
}

#[test]
fn diamond_phases_respect_every_dependency() {
    // 0 writes c0; 1 and 2 read c0 and write c1, c2; 3 reads c1 and c2.
    let reads = vec![0u64, 1, 1, 6];
    let writes = vec![1u64, 2, 4, 8];
    let phase = compute_phase(&reads, &writes);
    assert_eq!(phase, vec![0, 1, 1, 2]);
    for i in 0..4 {
        for j in 0..4 {
            if i != j && (reads[j] & writes[i]) != 0 {
                assert!(phase[i] < phase[j]);
            }
        }
    }
    let r8: Vec<u8> = vec![0, 1, 1, 6];
    let w8: Vec<u8> = vec![1, 2, 4, 8];
    assert_eq!(depth_phases(&r8, &w8), vec![0, 1, 1, 2]);
}

#[test]
fn union_find_chain_linked_out_of_order() {
    // Column c0 joins units 0 and 3, c1 joins 1 and 2, c2 joins 2 and 3.
    let reads = vec![0u64, 0, 2, 5];
    let writes = vec![1u64, 2, 4, 0];
    // Plain union-find links the later root under the earlier unit's root.
    assert_eq!(unionfind::compute_trunks(&reads, &writes, 4), vec![1, 1, 1, 1]);
    // The smaller-root variant labels the whole component by its smallest unit.
    let phase = vec![0usize; 4];
    assert_eq!(unionfind::trunk_roots(&reads, &writes, &phase), vec![0, 0, 0, 0]);
    assert_eq!(unionfind::trunk_of(&reads, &writes, &phase, 2), 0);
    // In different phases nothing merges.
    let split = vec![0usize, 1, 0, 1];
    assert_eq!(unionfind::trunk_roots(&reads, &writes, &split), vec![0, 1, 2, 3]);
}

#[test]
fn dispatch_trunks_from_masks() {
    let reads = vec![0b0001u64, 0b0000, 0b0010, 0b0100];
    let writes = vec![0b0010u64, 0b1000, 0b0100, 0b1_0000];
    let phase = vec![0usize, 0, 0, 1];
    let mut log = Vec::new();
    dispatch_trunks(&reads, &writes, &phase, 2, &mut log);
    assert_eq!(log, vec![0, 2, 1, 3]);
}
