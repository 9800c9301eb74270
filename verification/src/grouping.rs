//! Grouping of work units from their access masks: phases by dependency
//! depth, trunks within a phase, and the phase-major trunk dispatch.
use vstd::prelude::*;
use crate::unionfind::{columns, group_roots, group_rel, lemma_and_comm, rel_connected, share_column};

verus! {

// ---------------------------------------------------------------------
// Phases: longest read-after-write depth by repeated relaxation.

/// One relaxation of edge `i -> j` (`j` reads a column `i` writes): `j`'s phase
/// rises to `i`'s phase plus one if it is lower.
pub open spec fn relax_one(p: Seq<u64>, reads: Seq<u64>, writes: Seq<u64>, i: int, j: int) -> Seq<u64> {
    if i != j && (reads[j] & writes[i]) != 0 && p[j] < p[i] + 1 {
        p.update(j, (p[i] + 1) as u64)
    } else {
        p
    }
}

/// Relaxes the edges out of `i` towards units `[0, j)`, in order.
pub open spec fn relax_row(p: Seq<u64>, reads: Seq<u64>, writes: Seq<u64>, i: int, j: int) -> Seq<u64>
    decreases j,
{
    if j <= 0 {
        p
    } else {
        relax_one(relax_row(p, reads, writes, i, j - 1), reads, writes, i, j - 1)
    }
}

/// One pass: relaxes the rows of units `[0, i)`, in order.
pub open spec fn relax_pass(p: Seq<u64>, reads: Seq<u64>, writes: Seq<u64>, i: int) -> Seq<u64>
    decreases i,
{
    if i <= 0 {
        p
    } else {
        relax_row(relax_pass(p, reads, writes, i - 1), reads, writes, i - 1, reads.len() as int)
    }
}

/// `it` full passes starting from `p`.
pub open spec fn relax_iter(p: Seq<u64>, reads: Seq<u64>, writes: Seq<u64>, it: nat) -> Seq<u64>
    decreases it,
{
    if it == 0 {
        p
    } else {
        relax_pass(relax_iter(p, reads, writes, (it - 1) as nat), reads, writes, reads.len() as int)
    }
}

/// The phase of every unit after as many relaxation passes as there are
/// units, starting from phase 0 everywhere. For an acyclic dependency graph
/// this is the longest dependency depth of each unit.
pub open spec fn phases(reads: Seq<u64>, writes: Seq<u64>) -> Seq<u64> {
    relax_iter(Seq::new(reads.len(), |_i: int| 0u64), reads, writes, reads.len())
}

proof fn lemma_relax_row_bound(p: Seq<u64>, reads: Seq<u64>, writes: Seq<u64>, i: int, j: int, b: int)
    requires
        0 <= i < p.len(),
        0 <= j <= p.len(),
        forall|x: int| 0 <= x < p.len() ==> p[x] <= b,
        b + 1 <= u64::MAX,
    ensures
        relax_row(p, reads, writes, i, j).len() == p.len(),
        relax_row(p, reads, writes, i, j)[i] == p[i],
        forall|x: int| 0 <= x < p.len() ==> #[trigger] relax_row(p, reads, writes, i, j)[x] <= b + 1,
    decreases j,
{
    if j > 0 {
        lemma_relax_row_bound(p, reads, writes, i, j - 1, b);
    }
}

/// Computes each unit's phase from the read and write masks: as many passes as
/// there are units, each relaxing every edge `i -> j` (`j` reads a column `i`
/// writes) so that `phase[j] >= phase[i] + 1`.
pub fn compute_phase(reads: &Vec<u64>, writes: &Vec<u64>) -> (r: Vec<u64>)
    requires
        reads.len() == writes.len(),
        reads.len() < 0x1_0000_0000,
    ensures
        r@ == phases(reads@, writes@),
{
    let n = reads.len();
    let ghost rs = reads@;
    let ghost ws = writes@;
    let mut phase: Vec<u64> = vec![0u64; n];
    let ghost zero = phase@;
    proof {
        assert(zero =~= Seq::new(n as nat, |_i: int| 0u64));
        assert((n as int) * (n as int) < 0x1_0000_0000 * 0x1_0000_0000) by (nonlinear_arith)
            requires
                n < 0x1_0000_0000,
        ;
    }
    let mut iter: usize = 0;
    while iter < n
        invariant
            n == rs.len() == ws.len(),
            rs == reads@,
            ws == writes@,
            n < 0x1_0000_0000,
            zero == Seq::new(n as nat, |_i: int| 0u64),
            iter <= n,
            phase.len() == n,
            phase@ == relax_iter(zero, rs, ws, iter as nat),
            forall|x: int| 0 <= x < n ==> #[trigger] phase[x] <= iter * n,
        decreases n - iter,
    {
        let ghost start = phase@;
        let mut i: usize = 0;
        proof {
            assert(iter * n + n <= n * n) by (nonlinear_arith)
                requires
                    iter < n,
            ;
            assert((n as int) * (n as int) < 0x1_0000_0000 * 0x1_0000_0000) by (nonlinear_arith)
                requires
                    n < 0x1_0000_0000,
            ;
        }
        while i < n
            invariant
                n == rs.len() == ws.len(),
                rs == reads@,
                ws == writes@,
                iter < n,
                iter * n + n <= n * n,
                n * n < 0x1_0000_0000 * 0x1_0000_0000,
                i <= n,
                phase.len() == n,
                phase@ == relax_pass(start, rs, ws, i as int),
                forall|x: int| 0 <= x < n ==> #[trigger] phase[x] <= iter * n + i,
            decreases n - i,
        {
            let ghost row = phase@;
            proof {
                lemma_relax_row_bound(row, rs, ws, i as int, n as int, iter * n + i);
            }
            let mut j: usize = 0;
            while j < n
                invariant
                    n == rs.len() == ws.len(),
                    rs == reads@,
                    ws == writes@,
                    i < n,
                    j <= n,
                    iter * n + n <= n * n,
                    n * n < 0x1_0000_0000 * 0x1_0000_0000,
                    row.len() == n,
                    phase.len() == n,
                    forall|x: int| 0 <= x < n ==> #[trigger] row[x] <= iter * n + i,
                    phase@ == relax_row(row, rs, ws, i as int, j as int),
                    phase[i as int] == row[i as int],
                decreases n - j,
            {
                proof {
                    lemma_relax_row_bound(row, rs, ws, i as int, j as int, iter * n + i);
                }
                if i != j && (reads[j] & writes[i]) != 0 && phase[j] < phase[i] + 1 {
                    let v = phase[i] + 1;
                    phase.set(j, v);
                }
                j = j + 1;
            }
            proof {
                lemma_relax_row_bound(row, rs, ws, i as int, n as int, iter * n + i);
            }
            i = i + 1;
        }
        iter = iter + 1;
        proof {
            assert(iter * n == (iter - 1) * n + n) by (nonlinear_arith);
        }
    }
    phase
}

// ---------------------------------------------------------------------
// The phases respect every dependency of an acyclic graph.

/// Unit `j` reads a column that unit `i` writes: the dependency `i -> j`.
pub open spec fn raw_dep(reads: Seq<u64>, writes: Seq<u64>, i: int, j: int) -> bool {
    i != j && (reads[j] & writes[i]) != 0
}

/// `pos` numbers the units in `[0, n)` so that every dependency goes from a
/// lower number to a higher one: a witness that the graph is acyclic.
pub open spec fn topo_positions(reads: Seq<u64>, writes: Seq<u64>, pos: Seq<int>) -> bool {
    &&& pos.len() == reads.len()
    &&& forall|v: int| 0 <= v < pos.len() ==> 0 <= #[trigger] pos[v] < pos.len()
    &&& forall|i: int, j: int|
        0 <= i < pos.len() && 0 <= j < pos.len() && #[trigger] raw_dep(reads, writes, i, j)
            ==> pos[i] < pos[j]
}

spec fn below_pos(p: Seq<u64>, pos: Seq<int>) -> bool {
    forall|v: int| 0 <= v < p.len() ==> #[trigger] p[v] <= pos[v]
}

/// Every dependency into a unit numbered below `k` holds strictly.
spec fn settled(p: Seq<u64>, reads: Seq<u64>, writes: Seq<u64>, pos: Seq<int>, k: int) -> bool {
    forall|u: int, v: int|
        0 <= u < p.len() && 0 <= v < p.len() && pos[v] < k && #[trigger] raw_dep(reads, writes, u, v)
            ==> p[u] < p[v]
}

spec fn grows(p: Seq<u64>, q: Seq<u64>) -> bool {
    q.len() == p.len() && forall|v: int| 0 <= v < p.len() ==> p[v] <= #[trigger] q[v]
}

spec fn frozen(p: Seq<u64>, q: Seq<u64>, pos: Seq<int>, k: int) -> bool {
    forall|v: int| 0 <= v < p.len() && pos[v] < k ==> #[trigger] q[v] == p[v]
}

/// Every positive phase is at most one above the phase of some unit it
/// depends on.
spec fn witnessed(p: Seq<u64>, reads: Seq<u64>, writes: Seq<u64>) -> bool {
    forall|v: int|
        0 <= v < p.len() && #[trigger] p[v] > 0 ==> exists|u: int|
            0 <= u < p.len() && #[trigger] raw_dep(reads, writes, u, v) && p[v] <= p[u] + 1
}

spec fn relax_ctx(p: Seq<u64>, reads: Seq<u64>, writes: Seq<u64>, pos: Seq<int>, k: int) -> bool {
    &&& reads.len() == writes.len() == p.len()
    &&& reads.len() <= u64::MAX
    &&& topo_positions(reads, writes, pos)
    &&& below_pos(p, pos)
    &&& settled(p, reads, writes, pos, k)
    &&& witnessed(p, reads, writes)
}

proof fn lemma_dag_relax_one(p: Seq<u64>, reads: Seq<u64>, writes: Seq<u64>, pos: Seq<int>, k: int, i: int, j: int)
    requires
        relax_ctx(p, reads, writes, pos, k),
        0 <= i < p.len(),
        0 <= j < p.len(),
    ensures
        relax_ctx(relax_one(p, reads, writes, i, j), reads, writes, pos, k),
        grows(p, relax_one(p, reads, writes, i, j)),
        frozen(p, relax_one(p, reads, writes, i, j), pos, k),
        relax_one(p, reads, writes, i, j)[i] == p[i],
        raw_dep(reads, writes, i, j) ==> relax_one(p, reads, writes, i, j)[i] < relax_one(
            p,
            reads,
            writes,
            i,
            j,
        )[j],
{
    let q = relax_one(p, reads, writes, i, j);
    if raw_dep(reads, writes, i, j) {
        assert(pos[i] < pos[j]);
        assert(p[i] <= pos[i]);
        assert(0 <= pos[j] < pos.len());
        if p[j] < p[i] + 1 {
            assert(q == p.update(j, (p[i] + 1) as u64));
            assert(pos[j] >= k);
            assert(below_pos(q, pos));
            assert(settled(q, reads, writes, pos, k)) by {
                assert forall|u: int, v: int|
                    0 <= u < q.len() && 0 <= v < q.len() && pos[v] < k && #[trigger] raw_dep(
                        reads,
                        writes,
                        u,
                        v,
                    ) implies q[u] < q[v] by {
                    assert(pos[u] < pos[v]);
                    assert(p[u] < p[v]);
                }
            }
            assert forall|v: int| 0 <= v < q.len() && #[trigger] q[v] > 0 implies exists|u: int|
                0 <= u < q.len() && #[trigger] raw_dep(reads, writes, u, v) && q[v] <= q[u] + 1 by {
                if v == j {
                    assert(raw_dep(reads, writes, i, j) && q[j] <= q[i] + 1);
                } else {
                    let u = choose|u: int|
                        0 <= u < p.len() && #[trigger] raw_dep(reads, writes, u, v) && p[v] <= p[u] + 1;
                    assert(raw_dep(reads, writes, u, v) && q[v] <= q[u] + 1);
                }
            }
        }
    }
}

proof fn lemma_dag_relax_row(p: Seq<u64>, reads: Seq<u64>, writes: Seq<u64>, pos: Seq<int>, k: int, i: int, j: int)
    requires
        relax_ctx(p, reads, writes, pos, k),
        0 <= i < p.len(),
        0 <= j <= p.len(),
    ensures
        relax_ctx(relax_row(p, reads, writes, i, j), reads, writes, pos, k),
        grows(p, relax_row(p, reads, writes, i, j)),
        frozen(p, relax_row(p, reads, writes, i, j), pos, k),
        relax_row(p, reads, writes, i, j)[i] == p[i],
        forall|w: int|
            0 <= w < j && #[trigger] raw_dep(reads, writes, i, w) ==> relax_row(
                p,
                reads,
                writes,
                i,
                j,
            )[i] < relax_row(p, reads, writes, i, j)[w],
    decreases j,
{
    if j > 0 {
        lemma_dag_relax_row(p, reads, writes, pos, k, i, j - 1);
        let mid = relax_row(p, reads, writes, i, j - 1);
        lemma_dag_relax_one(mid, reads, writes, pos, k, i, j - 1);
        let q = relax_row(p, reads, writes, i, j);
        assert(q == relax_one(mid, reads, writes, i, j - 1));
        assert forall|v: int| 0 <= v < p.len() implies p[v] <= #[trigger] q[v] by {
            assert(p[v] <= mid[v]);
        }
        assert forall|v: int| 0 <= v < p.len() && pos[v] < k implies #[trigger] q[v] == p[v] by {
            assert(mid[v] == p[v]);
        }
        assert forall|w: int| 0 <= w < j && #[trigger] raw_dep(reads, writes, i, w) implies q[i] < q[w] by {
            if w < j - 1 {
                assert(mid[i] < mid[w]);
                assert(mid[w] <= q[w]);
            }
        }
    }
}

proof fn lemma_dag_relax_pass(p: Seq<u64>, reads: Seq<u64>, writes: Seq<u64>, pos: Seq<int>, k: int, m: int)
    requires
        relax_ctx(p, reads, writes, pos, k),
        0 <= m <= p.len(),
    ensures
        relax_ctx(relax_pass(p, reads, writes, m), reads, writes, pos, k),
        grows(p, relax_pass(p, reads, writes, m)),
        frozen(p, relax_pass(p, reads, writes, m), pos, k),
        forall|u: int, v: int|
            0 <= u < m && 0 <= v < p.len() && pos[v] == k && #[trigger] raw_dep(reads, writes, u, v)
                ==> relax_pass(p, reads, writes, m)[u] < relax_pass(p, reads, writes, m)[v],
    decreases m,
{
    if m > 0 {
        lemma_dag_relax_pass(p, reads, writes, pos, k, m - 1);
        let mid = relax_pass(p, reads, writes, m - 1);
        lemma_dag_relax_row(mid, reads, writes, pos, k, m - 1, reads.len() as int);
        let q = relax_pass(p, reads, writes, m);
        assert(q == relax_row(mid, reads, writes, m - 1, reads.len() as int));
        assert forall|v: int| 0 <= v < p.len() implies p[v] <= #[trigger] q[v] by {
            assert(p[v] <= mid[v]);
        }
        assert forall|v: int| 0 <= v < p.len() && pos[v] < k implies #[trigger] q[v] == p[v] by {
            assert(mid[v] == p[v]);
        }
        assert forall|u: int, v: int|
            0 <= u < m && 0 <= v < p.len() && pos[v] == k && #[trigger] raw_dep(reads, writes, u, v)
                implies q[u] < q[v] by {
            if u < m - 1 {
                assert(pos[u] < pos[v]);
                assert(mid[u] < mid[v]);
                assert(q[u] == mid[u]);
                assert(mid[v] <= q[v]);
            }
        }
    }
}

proof fn lemma_dag_relax_iter(reads: Seq<u64>, writes: Seq<u64>, pos: Seq<int>, it: nat)
    requires
        reads.len() == writes.len(),
        reads.len() <= u64::MAX,
        topo_positions(reads, writes, pos),
    ensures
        relax_ctx(
            relax_iter(Seq::new(reads.len(), |_i: int| 0u64), reads, writes, it),
            reads,
            writes,
            pos,
            it as int,
        ),
    decreases it,
{
    let zero = Seq::new(reads.len(), |_i: int| 0u64);
    if it == 0 {
        assert(below_pos(zero, pos));
    } else {
        lemma_dag_relax_iter(reads, writes, pos, (it - 1) as nat);
        let prev = relax_iter(zero, reads, writes, (it - 1) as nat);
        let k = it - 1;
        lemma_dag_relax_pass(prev, reads, writes, pos, k, reads.len() as int);
        let q = relax_iter(zero, reads, writes, it);
        assert(q == relax_pass(prev, reads, writes, reads.len() as int));
        assert forall|u: int, v: int|
            0 <= u < q.len() && 0 <= v < q.len() && pos[v] < it && #[trigger] raw_dep(reads, writes, u, v)
                implies q[u] < q[v] by {
            if pos[v] < k {
                assert(settled(q, reads, writes, pos, k));
            }
        }
    }
}

/// On an acyclic dependency graph (witnessed by topological numbers `pos`)
/// the phases are the longest dependency depths: a unit that reads a column
/// another unit writes is in a strictly later phase, every unit in a phase
/// above 0 depends on a unit exactly one phase earlier, and no phase exceeds
/// the unit's topological number.
pub proof fn lemma_phases_respect_dependencies(reads: Seq<u64>, writes: Seq<u64>, pos: Seq<int>)
    requires
        reads.len() == writes.len(),
        reads.len() <= u64::MAX,
        topo_positions(reads, writes, pos),
    ensures
        phases(reads, writes).len() == reads.len(),
        forall|i: int, j: int|
            0 <= i < reads.len() && 0 <= j < reads.len() && #[trigger] raw_dep(reads, writes, i, j)
                ==> phases(reads, writes)[i] < phases(reads, writes)[j],
        forall|v: int| 0 <= v < reads.len() ==> #[trigger] phases(reads, writes)[v] <= pos[v],
        forall|v: int|
            0 <= v < reads.len() && #[trigger] phases(reads, writes)[v] > 0 ==> exists|u: int|
                0 <= u < reads.len() && #[trigger] raw_dep(reads, writes, u, v) && phases(reads, writes)[v]
                    == phases(reads, writes)[u] + 1,
{
    lemma_dag_relax_iter(reads, writes, pos, reads.len());
    let q = phases(reads, writes);
    assert forall|i: int, j: int|
        0 <= i < reads.len() && 0 <= j < reads.len() && #[trigger] raw_dep(reads, writes, i, j)
            implies q[i] < q[j] by {
        assert(pos[j] < pos.len());
    }
    assert forall|v: int| 0 <= v < reads.len() && #[trigger] q[v] > 0 implies exists|u: int|
        0 <= u < reads.len() && #[trigger] raw_dep(reads, writes, u, v) && q[v] == q[u] + 1 by {
        let u = choose|u: int| 0 <= u < q.len() && #[trigger] raw_dep(reads, writes, u, v) && q[v] <= q[u] + 1;
        assert(pos[v] < pos.len());
        assert(q[u] < q[v]);
    }
}

// ---------------------------------------------------------------------
// Trunks within a phase: groups joined by shared columns.

/// Unit `j` opens its trunk: no earlier unit is joined to it by a chain of
/// same-phase units sharing columns.
pub open spec fn trunk_leader(reads: Seq<u64>, writes: Seq<u64>, phase: Seq<u64>, j: int) -> bool {
    forall|q: int|
        0 <= q < j ==> !#[trigger] rel_connected(group_rel(reads, writes, phase, true), reads.len() as int, j, q)
}

/// The number of trunks opened by units `[0, k)`.
pub open spec fn leaders_below(reads: Seq<u64>, writes: Seq<u64>, phase: Seq<u64>, k: int) -> nat
    decreases k,
{
    if k <= 0 {
        0
    } else {
        leaders_below(reads, writes, phase, k - 1) + (if trunk_leader(reads, writes, phase, k - 1) {
            1nat
        } else {
            0nat
        })
    }
}

/// The number of self-rooted units among `[0, k)`.
spec fn roots_below(roots: Seq<usize>, k: int) -> nat
    decreases k,
{
    if k <= 0 {
        0
    } else {
        roots_below(roots, k - 1) + (if roots[k - 1] == k - 1 {
            1nat
        } else {
            0nat
        })
    }
}

proof fn lemma_roots_below_mono(roots: Seq<usize>, j: int, k: int)
    requires
        0 <= j <= k,
    ensures
        roots_below(roots, j) <= roots_below(roots, k),
        roots_below(roots, k) <= k,
    decreases k,
{
    if k > 0 {
        if j < k {
            lemma_roots_below_mono(roots, j, k - 1);
        } else {
            lemma_roots_below_mono(roots, k - 1, k - 1);
        }
    }
}

proof fn lemma_leaders_match(reads: Seq<u64>, writes: Seq<u64>, phase: Seq<u64>, roots: Seq<usize>, k: int)
    requires
        0 <= k <= roots.len(),
        forall|j: int| 0 <= j < roots.len() ==> (roots[j] == j) == #[trigger] trunk_leader(reads, writes, phase, j),
    ensures
        leaders_below(reads, writes, phase, k) == roots_below(roots, k),
    decreases k,
{
    if k > 0 {
        lemma_leaders_match(reads, writes, phase, roots, k - 1);
        assert((roots[k - 1] == k - 1) == trunk_leader(reads, writes, phase, k - 1));
    }
}

/// Trunk ids within phases: two units get the same id exactly when a chain of
/// same-phase units, each sharing an accessed column with the next, joins
/// them, so distinct trunks of a phase never share a column. Ids count up from
/// 0 in carrier order of each trunk's first unit.
pub fn compute_trunks(reads: &Vec<u64>, writes: &Vec<u64>, phase: &Vec<u64>) -> (r: Vec<u64>)
    requires
        reads.len() == writes.len() == phase.len(),
    ensures
        r.len() == reads.len(),
        forall|a: int, b: int|
            0 <= a < reads.len() && 0 <= b < reads.len() ==> (#[trigger] r[a] == #[trigger] r[b]
                <==> rel_connected(group_rel(reads@, writes@, phase@, true), reads.len() as int, a, b)),
        forall|a: int, b: int|
            0 <= a < reads.len() && 0 <= b < reads.len() && phase[a] == phase[b] && share_column(
                reads@,
                writes@,
                a,
                b,
            ) ==> #[trigger] r[a] == #[trigger] r[b],
        forall|a: int, b: int|
            0 <= a < reads.len() && 0 <= b < reads.len() && #[trigger] r[a] == #[trigger] r[b] ==> phase[a]
                == phase[b],
        forall|j: int|
            0 <= j < reads.len() && #[trigger] trunk_leader(reads@, writes@, phase@, j) ==> r[j]
                == leaders_below(reads@, writes@, phase@, j),
{
    let roots = group_roots(reads, writes, phase, true);
    let n = reads.len();
    let ghost rel = group_rel(reads@, writes@, phase@, true);
    let mut ids: Vec<u64> = Vec::new();
    let mut next: u64 = 0;
    let mut i: usize = 0;
    while i < n
        invariant
            n == roots.len() == reads.len(),
            i <= n,
            ids.len() == i,
            forall|k: int| 0 <= k < n ==> #[trigger] roots[k] <= k,
            forall|k: int| 0 <= k < n ==> roots[roots[k] as int] == #[trigger] roots[k],
            forall|q: int| 0 <= q < i ==> #[trigger] ids[q] == roots_below(roots@, roots[q] as int),
            next == roots_below(roots@, i as int),
        decreases n - i,
    {
        proof {
            lemma_roots_below_mono(roots@, i as int, i as int);
        }
        if roots[i] == i {
            ids.push(next);
            next = next + 1;
        } else {
            let t = ids[roots[i]];
            ids.push(t);
        }
        i = i + 1;
    }
    proof {
        assert forall|a: int, b: int|
            0 <= a < n && 0 <= b < n && #[trigger] ids[a] == #[trigger] ids[b] implies roots[a] == roots[b] by {
            let (x, y) = (roots[a] as int, roots[b] as int);
            if x < y {
                lemma_roots_below_mono(roots@, x + 1, y);
                assert(roots[x] == x);
            } else if y < x {
                lemma_roots_below_mono(roots@, y + 1, x);
                assert(roots[y] == y);
            }
        }
        assert forall|a: int, b: int|
            0 <= a < n && 0 <= b < n implies (#[trigger] ids[a] == #[trigger] ids[b] <==> rel_connected(
                rel,
                n as int,
                a,
                b,
            )) by {
            assert(roots[a] == roots[b] <==> rel_connected(rel, n as int, a, b));
        }
        assert forall|a: int, b: int|
            0 <= a < n && 0 <= b < n && phase[a] == phase[b] && share_column(reads@, writes@, a, b) implies #[trigger] ids[a]
                == #[trigger] ids[b] by {
            if a < b {
                assert(rel(a, b));
                assert(roots[a] == roots[b]);
            } else if b < a {
                lemma_and_comm();
                assert(rel(b, a));
                assert(roots[b] == roots[a]);
            }
        }
        assert forall|a: int, b: int|
            0 <= a < n && 0 <= b < n && #[trigger] ids[a] == #[trigger] ids[b] implies phase[a] == phase[b] by {
            assert(roots[a] == roots[b]);
            assert(phase[roots[a] as int] == phase[a]);
            assert(phase[roots[b] as int] == phase[b]);
        }
        assert forall|j: int| 0 <= j < n implies (roots[j] == j) == #[trigger] trunk_leader(
            reads@,
            writes@,
            phase@,
            j,
        ) by {
            if roots[j] == j {
                assert forall|q: int| 0 <= q < j implies !#[trigger] rel_connected(rel, n as int, j, q) by {
                    if rel_connected(rel, n as int, j, q) {
                        assert(roots[j] <= q);
                    }
                }
            } else {
                let t = roots[j] as int;
                assert(roots[t] == roots[j]);
                assert(rel_connected(rel, n as int, j, t));
            }
        }
        lemma_leaders_match(reads@, writes@, phase@, roots@, n as int);
        assert forall|j: int|
            0 <= j < n && #[trigger] trunk_leader(reads@, writes@, phase@, j) implies ids[j] == leaders_below(
                reads@,
                writes@,
                phase@,
                j,
            ) by {
            assert(roots[j] == j);
            lemma_leaders_match(reads@, writes@, phase@, roots@, j);
        }
    }
    ids
}

/// The trunk id of the unit at carrier position `pos` in a computed grouping.
pub fn trunk_of(grouping: &Vec<u64>, pos: usize) -> (r: u64)
    requires
        pos < grouping.len(),
    ensures
        r == grouping[pos as int],
{
    grouping[pos]
}

} // verus!
