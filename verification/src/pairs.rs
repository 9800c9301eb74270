//! Dispatch by enumerating (phase, trunk) pairs, and the phase-major trunk
//! dispatch over trunk roots. Each run appends the carrier positions of the
//! units it runs to a log.
use vstd::prelude::*;
use crate::unionfind::{conflict_rel, rel_connected, trunk_roots};

verus! {

/// The positions among `[0, upto)` of the units in (`phase`, `trunk`).
pub open spec fn pair_units(units: Seq<(usize, usize)>, phase: usize, trunk: usize, upto: int) -> Seq<usize>
    decreases upto,
{
    if upto <= 0 {
        Seq::empty()
    } else if units[upto - 1] == (phase, trunk) {
        pair_units(units, phase, trunk, upto - 1).push((upto - 1) as usize)
    } else {
        pair_units(units, phase, trunk, upto - 1)
    }
}

/// Runs the units of one (phase, trunk) pair, in carrier order.
pub fn run_one(units: &Vec<(usize, usize)>, phase: usize, trunk: usize, log: &mut Vec<usize>)
    ensures
        final(log)@ == old(log)@ + pair_units(units@, phase, trunk, units.len() as int),
{
    let ghost l0 = log@;
    let mut i: usize = 0;
    proof {
        assert(l0 + pair_units(units@, phase, trunk, 0) =~= l0);
    }
    while i < units.len()
        invariant
            i <= units.len(),
            log@ == l0 + pair_units(units@, phase, trunk, i as int),
        decreases units.len() - i,
    {
        if units[i].0 == phase && units[i].1 == trunk {
            log.push(i);
            proof {
                assert(l0 + pair_units(units@, phase, trunk, i + 1) =~= (l0 + pair_units(
                    units@,
                    phase,
                    trunk,
                    i as int,
                )).push(i));
            }
        }
        i = i + 1;
    }
}

/// The positions run by pairs `[i, pairs.len())`, in pair order.
pub open spec fn pairs_from(units: Seq<(usize, usize)>, pairs: Seq<(usize, usize)>, i: int) -> Seq<usize>
    decreases pairs.len() - i,
{
    if i >= pairs.len() {
        Seq::empty()
    } else {
        pair_units(units, pairs[i].0, pairs[i].1, units.len() as int) + pairs_from(units, pairs, i + 1)
    }
}

/// Runs pair `i` and then the pairs after it.
pub fn run_step(units: &Vec<(usize, usize)>, pairs: &Vec<(usize, usize)>, i: usize, log: &mut Vec<usize>)
    requires
        i < pairs.len(),
    ensures
        final(log)@ == old(log)@ + pairs_from(units@, pairs@, i as int),
    decreases pairs.len() - i,
{
    let ghost l0 = log@;
    run_one(units, pairs[i].0, pairs[i].1, log);
    if i + 1 < pairs.len() {
        run_step(units, pairs, i + 1, log);
    }
    proof {
        if i + 1 >= pairs.len() {
            assert(pairs_from(units@, pairs@, i + 1) =~= Seq::<usize>::empty());
        }
        assert(log@ =~= l0 + pairs_from(units@, pairs@, i as int));
    }
}

/// Runs every (phase, trunk) pair in the listed order.
pub fn run_pairs(units: &Vec<(usize, usize)>, pairs: &Vec<(usize, usize)>, log: &mut Vec<usize>)
    ensures
        final(log)@ == old(log)@ + pairs_from(units@, pairs@, 0),
{
    if pairs.len() > 0 {
        run_step(units, pairs, 0, log);
    } else {
        proof {
            assert(old(log)@ + pairs_from(units@, pairs@, 0) =~= old(log)@);
        }
    }
}

/// Runs every unit once, in carrier order.
pub fn flat_walk(n: usize, log: &mut Vec<usize>)
    ensures
        final(log)@ == old(log)@ + Seq::new(n as nat, |i: int| i as usize),
{
    let ghost l0 = log@;
    let mut i: usize = 0;
    while i < n
        invariant
            i <= n,
            log@ == l0 + Seq::new(i as nat, |q: int| q as usize),
        decreases n - i,
    {
        log.push(i);
        i = i + 1;
        proof {
            assert(log@ =~= l0 + Seq::new(i as nat, |q: int| q as usize));
        }
    }
}

/// How many times `x` occurs in `s`.
pub open spec fn occurrences(s: Seq<usize>, x: usize) -> nat
    decreases s.len(),
{
    if s.len() == 0 {
        0
    } else {
        occurrences(s.drop_last(), x) + (if s.last() == x {
            1nat
        } else {
            0nat
        })
    }
}

proof fn lemma_occurrences_concat(a: Seq<usize>, b: Seq<usize>, x: usize)
    ensures
        occurrences(a + b, x) == occurrences(a, x) + occurrences(b, x),
    decreases b.len(),
{
    if b.len() == 0 {
        assert(a + b =~= a);
    } else {
        lemma_occurrences_concat(a, b.drop_last(), x);
        assert((a + b).drop_last() =~= a + b.drop_last());
    }
}

proof fn lemma_pair_units_occurrences(units: Seq<(usize, usize)>, phase: usize, trunk: usize, upto: int, x: usize)
    requires
        0 <= upto <= units.len() <= usize::MAX,
        x < units.len(),
    ensures
        occurrences(pair_units(units, phase, trunk, upto), x) == (if x < upto && units[x as int]
            == (phase, trunk) {
            1nat
        } else {
            0nat
        }),
    decreases upto,
{
    if upto > 0 {
        lemma_pair_units_occurrences(units, phase, trunk, upto - 1, x);
        if units[upto - 1] == (phase, trunk) {
            assert(pair_units(units, phase, trunk, upto).drop_last() =~= pair_units(
                units,
                phase,
                trunk,
                upto - 1,
            ));
        }
    }
}

/// How many of pairs `[i, pairs.len())` equal `p`.
pub open spec fn pair_hits(pairs: Seq<(usize, usize)>, p: (usize, usize), i: int) -> nat
    decreases pairs.len() - i,
{
    if i >= pairs.len() {
        0
    } else {
        (if pairs[i] == p {
            1nat
        } else {
            0nat
        }) + pair_hits(pairs, p, i + 1)
    }
}

/// Every unit runs once per listed pair equal to its own (phase, trunk): when
/// the pairs list each distinct pair of the units exactly once, every unit
/// runs exactly once.
pub proof fn lemma_pairs_run_each_unit(units: Seq<(usize, usize)>, pairs: Seq<(usize, usize)>, i: int, x: usize)
    requires
        0 <= i <= pairs.len(),
        units.len() <= usize::MAX,
        x < units.len(),
    ensures
        occurrences(pairs_from(units, pairs, i), x) == pair_hits(pairs, units[x as int], i),
    decreases pairs.len() - i,
{
    if i < pairs.len() {
        lemma_pairs_run_each_unit(units, pairs, i + 1, x);
        lemma_occurrences_concat(
            pair_units(units, pairs[i].0, pairs[i].1, units.len() as int),
            pairs_from(units, pairs, i + 1),
            x,
        );
        lemma_pair_units_occurrences(units, pairs[i].0, pairs[i].1, units.len() as int, x);
    }
}

// ---------------------------------------------------------------------
// Phase-major dispatch over trunk roots.

/// The phase of the unit at position `pos`.
pub fn phase_of(phase: &Vec<usize>, pos: usize) -> (r: usize)
    requires
        pos < phase.len(),
    ensures
        r == phase[pos as int],
{
    phase[pos]
}

/// The positions among `[0, upto)` whose trunk is `trunk`.
pub open spec fn trunk_units(grouping: Seq<usize>, trunk: usize, upto: int) -> Seq<usize>
    decreases upto,
{
    if upto <= 0 {
        Seq::empty()
    } else if grouping[upto - 1] == trunk {
        trunk_units(grouping, trunk, upto - 1).push((upto - 1) as usize)
    } else {
        trunk_units(grouping, trunk, upto - 1)
    }
}

/// Runs the members of one trunk, in carrier order.
pub fn run_one_trunk(grouping: &Vec<usize>, trunk: usize, log: &mut Vec<usize>)
    ensures
        final(log)@ == old(log)@ + trunk_units(grouping@, trunk, grouping.len() as int),
{
    let ghost l0 = log@;
    let mut pos: usize = 0;
    proof {
        assert(l0 + trunk_units(grouping@, trunk, 0) =~= l0);
    }
    while pos < grouping.len()
        invariant
            pos <= grouping.len(),
            log@ == l0 + trunk_units(grouping@, trunk, pos as int),
        decreases grouping.len() - pos,
    {
        if grouping[pos] == trunk {
            log.push(pos);
            proof {
                assert(l0 + trunk_units(grouping@, trunk, pos + 1) =~= (l0 + trunk_units(
                    grouping@,
                    trunk,
                    pos as int,
                )).push(pos));
            }
        }
        pos = pos + 1;
    }
}

/// The positions run in phase `p` by the trunk roots among `[0, upto)`: each
/// root (a position that is its own trunk) of phase `p` runs its trunk.
pub open spec fn phase_pass(grouping: Seq<usize>, phase: Seq<usize>, p: usize, upto: int) -> Seq<usize>
    decreases upto,
{
    if upto <= 0 {
        Seq::empty()
    } else {
        let r = upto - 1;
        let prev = phase_pass(grouping, phase, p, upto - 1);
        if grouping[r] == r && phase[r] == p {
            prev + trunk_units(grouping, r as usize, grouping.len() as int)
        } else {
            prev
        }
    }
}

/// The positions run by phases `[0, np)`, phase by phase.
pub open spec fn all_phases(grouping: Seq<usize>, phase: Seq<usize>, np: int) -> Seq<usize>
    decreases np,
{
    if np <= 0 {
        Seq::empty()
    } else {
        all_phases(grouping, phase, np - 1) + phase_pass(
            grouping,
            phase,
            (np - 1) as usize,
            grouping.len() as int,
        )
    }
}

/// Runs phases `0..nphases` in order; within a phase, every trunk root of that
/// phase (in carrier order) runs its whole trunk.
pub fn dispatch_all(grouping: &Vec<usize>, phase: &Vec<usize>, nphases: usize, log: &mut Vec<usize>)
    requires
        phase.len() == grouping.len(),
    ensures
        final(log)@ == old(log)@ + all_phases(grouping@, phase@, nphases as int),
{
    let ghost l0 = log@;
    let mut p: usize = 0;
    proof {
        assert(l0 + all_phases(grouping@, phase@, 0) =~= l0);
    }
    while p < nphases
        invariant
            phase.len() == grouping.len(),
            p <= nphases,
            log@ == l0 + all_phases(grouping@, phase@, p as int),
        decreases nphases - p,
    {
        let ghost base = log@;
        let mut pos: usize = 0;
        proof {
            assert(base + phase_pass(grouping@, phase@, p, 0) =~= base);
        }
        while pos < grouping.len()
            invariant
                phase.len() == grouping.len(),
                pos <= grouping.len(),
                log@ == base + phase_pass(grouping@, phase@, p, pos as int),
            decreases grouping.len() - pos,
        {
            if grouping[pos] == pos {
                if phase_of(phase, pos) == p {
                    run_one_trunk(grouping, pos, log);
                    proof {
                        assert(log@ =~= base + phase_pass(grouping@, phase@, p, pos + 1));
                    }
                }
            }
            pos = pos + 1;
        }
        proof {
            assert(log@ =~= l0 + all_phases(grouping@, phase@, p + 1));
        }
        p = p + 1;
    }
}

/// The trunk root of unit `k`: the smallest unit joined to it by a chain of
/// same-phase column conflicts.
pub open spec fn component_min(reads: Seq<u64>, writes: Seq<u64>, phase: Seq<usize>, k: int) -> usize {
    choose|j: usize|
        j < reads.len() && rel_connected(conflict_rel(reads, writes, phase), reads.len() as int, k, j as int)
            && forall|q: int|
            0 <= q < reads.len() && #[trigger] rel_connected(
                conflict_rel(reads, writes, phase),
                reads.len() as int,
                k,
                q,
            ) ==> j <= q
}

/// The phase-major trunk dispatch driven by the access masks: computes each
/// unit's trunk root (union-find over same-phase column conflicts), then runs
/// phases `0..nphases` in order, each trunk root of a phase running its whole
/// trunk in carrier order.
pub fn dispatch_trunks(
    reads: &Vec<u64>,
    writes: &Vec<u64>,
    phase: &Vec<usize>,
    nphases: usize,
    log: &mut Vec<usize>,
)
    requires
        reads.len() == writes.len() == phase.len(),
    ensures
        final(log)@ == old(log)@ + all_phases(
            Seq::new(reads.len() as nat, |k: int| component_min(reads@, writes@, phase@, k)),
            phase@,
            nphases as int,
        ),
{
    let roots = trunk_roots(reads, writes, phase);
    proof {
        let n = reads.len() as int;
        let rel = conflict_rel(reads@, writes@, phase@);
        assert forall|k: int| 0 <= k < n implies #[trigger] roots@[k] == component_min(
            reads@,
            writes@,
            phase@,
            k,
        ) by {
            let r = roots[k];
            assert(roots[r as int] == roots[k]);
            assert(rel_connected(rel, n, k, r as int));
            let c = component_min(reads@, writes@, phase@, k);
            assert(r < n && rel_connected(rel, n, k, r as int) && forall|q: int|
                0 <= q < n && #[trigger] rel_connected(rel, n, k, q) ==> r <= q);
            assert(rel_connected(rel, n, k, c as int));
            assert(r <= c);
            assert(c <= r);
        }
        assert(roots@ =~= Seq::new(reads.len() as nat, |k: int| component_min(reads@, writes@, phase@, k)));
    }
    dispatch_all(&roots, phase, nphases, log);
}

} // verus!
