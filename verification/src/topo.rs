//! Dispatch order from access masks: Kahn's topological sort.
//!
//! Work unit `i` must run before work unit `j` when `i` writes a column that
//! `j` reads. The order places, step by step, the lowest-index work unit whose
//! predecessors are all placed; when none is left (a cycle) the rest of the
//! order stays 0.
use vstd::prelude::*;

verus! {

/// `i` must run before `j`: `i` writes a column `j` reads (a read-after-write
/// edge), and they are different units.
pub open spec fn dep(reads: Seq<u64>, writes: Seq<u64>, i: int, j: int) -> bool {
    i != j && (writes[i] & reads[j]) != 0
}

/// Unit `k` can be placed next: it is not placed yet and all of its
/// predecessors are.
pub open spec fn ready(reads: Seq<u64>, writes: Seq<u64>, done: Seq<bool>, k: int) -> bool {
    &&& 0 <= k < reads.len()
    &&& !done[k]
    &&& forall|i: int| 0 <= i < reads.len() && #[trigger] dep(reads, writes, i, k) ==> done[i]
}

/// The lowest-index ready unit at or after `k`, or `reads.len()` if there is none.
pub open spec fn first_ready(reads: Seq<u64>, writes: Seq<u64>, done: Seq<bool>, k: int) -> int
    decreases reads.len() - k,
{
    if k >= reads.len() {
        reads.len() as int
    } else if ready(reads, writes, done, k) {
        k
    } else {
        first_ready(reads, writes, done, k + 1)
    }
}

/// The state after `p` steps of the greedy sort: the units placed so far, in
/// order, and which units are placed. A step with no ready unit places nothing.
pub open spec fn kahn(reads: Seq<u64>, writes: Seq<u64>, p: nat) -> (Seq<usize>, Seq<bool>)
    decreases p,
{
    if p == 0 {
        (Seq::empty(), Seq::new(reads.len(), |_i: int| false))
    } else {
        let prev = kahn(reads, writes, (p - 1) as nat);
        let k = first_ready(reads, writes, prev.1, 0);
        if k < reads.len() {
            (prev.0.push(k as usize), prev.1.update(k, true))
        } else {
            prev
        }
    }
}

/// The units the sort places, in dispatch order.
pub open spec fn kahn_order(reads: Seq<u64>, writes: Seq<u64>) -> Seq<usize> {
    kahn(reads, writes, reads.len()).0
}

/// Number of predecessors of `j` among units `[0, upto)` that are not placed.
pub open spec fn pending(reads: Seq<u64>, writes: Seq<u64>, done: Seq<bool>, j: int, upto: int) -> nat
    decreases upto,
{
    if upto <= 0 {
        0
    } else {
        pending(reads, writes, done, j, upto - 1) + (if !done[upto - 1] && dep(
            reads,
            writes,
            upto - 1,
            j,
        ) {
            1nat
        } else {
            0nat
        })
    }
}

proof fn lemma_pending_le(reads: Seq<u64>, writes: Seq<u64>, done: Seq<bool>, j: int, upto: int)
    requires
        upto >= 0,
    ensures
        pending(reads, writes, done, j, upto) <= upto,
    decreases upto,
{
    if upto > 0 {
        lemma_pending_le(reads, writes, done, j, upto - 1);
    }
}

proof fn lemma_pending_zero(reads: Seq<u64>, writes: Seq<u64>, done: Seq<bool>, j: int, upto: int)
    requires
        upto >= 0,
    ensures
        pending(reads, writes, done, j, upto) == 0 <==> (forall|i: int|
            0 <= i < upto && #[trigger] dep(reads, writes, i, j) ==> done[i]),
    decreases upto,
{
    if upto > 0 {
        lemma_pending_zero(reads, writes, done, j, upto - 1);
    }
}

proof fn lemma_pending_place(
    reads: Seq<u64>,
    writes: Seq<u64>,
    done: Seq<bool>,
    pick: int,
    j: int,
    upto: int,
)
    requires
        0 <= upto <= done.len(),
        0 <= pick < done.len(),
        !done[pick],
    ensures
        pending(reads, writes, done.update(pick, true), j, upto) + (if pick < upto && dep(
            reads,
            writes,
            pick,
            j,
        ) {
            1int
        } else {
            0int
        }) == pending(reads, writes, done, j, upto),
    decreases upto,
{
    if upto > 0 {
        lemma_pending_place(reads, writes, done, pick, j, upto - 1);
    }
}

proof fn lemma_first_ready(reads: Seq<u64>, writes: Seq<u64>, done: Seq<bool>, s: int, k0: int)
    requires
        0 <= s <= k0 <= reads.len(),
        forall|k: int| s <= k < k0 ==> !ready(reads, writes, done, k),
        k0 == reads.len() || ready(reads, writes, done, k0),
    ensures
        first_ready(reads, writes, done, s) == k0,
    decreases k0 - s,
{
    if s < k0 {
        lemma_first_ready(reads, writes, done, s + 1, k0);
    }
}

proof fn lemma_first_ready_bounds(reads: Seq<u64>, writes: Seq<u64>, done: Seq<bool>, s: int)
    requires
        0 <= s,
    ensures
        s <= first_ready(reads, writes, done, s) <= reads.len() || (s > reads.len()
            && first_ready(reads, writes, done, s) == reads.len()),
        first_ready(reads, writes, done, s) < reads.len() ==> ready(
            reads,
            writes,
            done,
            first_ready(reads, writes, done, s),
        ),
    decreases reads.len() - s,
{
    if s < reads.len() && !ready(reads, writes, done, s) {
        lemma_first_ready_bounds(reads, writes, done, s + 1);
    }
}

/// Basic shape of the sort's state: the placed flags have one entry per unit,
/// at most one unit is placed per step, and every placed unit is a valid index.
pub proof fn lemma_kahn_shape(reads: Seq<u64>, writes: Seq<u64>, p: nat)
    ensures
        kahn(reads, writes, p).1.len() == reads.len(),
        kahn(reads, writes, p).0.len() <= p,
        forall|q: int|
            0 <= q < kahn(reads, writes, p).0.len() ==> #[trigger] kahn(reads, writes, p).0[q]
                < reads.len(),
    decreases p,
{
    if p > 0 {
        lemma_kahn_shape(reads, writes, (p - 1) as nat);
        let prev = kahn(reads, writes, (p - 1) as nat);
        lemma_first_ready_bounds(reads, writes, prev.1, 0);
    }
}

/// Once a step places nothing, no later step does either.
proof fn lemma_kahn_stable(reads: Seq<u64>, writes: Seq<u64>, p: nat, q: nat)
    requires
        p <= q,
        first_ready(reads, writes, kahn(reads, writes, p).1, 0) >= reads.len(),
    ensures
        kahn(reads, writes, q) == kahn(reads, writes, p),
    decreases q - p,
{
    if q > p {
        lemma_kahn_stable(reads, writes, p, (q - 1) as nat);
    }
}

/// Unit `i` sits among the first `q` entries of `o`.
pub open spec fn placed_before(o: Seq<usize>, q: int, i: int) -> bool {
    exists|q2: int| 0 <= q2 < q && o[q2] == i
}

/// The invariant of the greedy sort after any number of steps: the placed
/// flags are exactly the units in the order, no unit is placed twice, and every
/// predecessor of a placed unit is placed before it.
pub proof fn lemma_kahn_sound(reads: Seq<u64>, writes: Seq<u64>, p: nat)
    requires
        reads.len() <= usize::MAX,
    ensures
        forall|k: int|
            0 <= k < reads.len() ==> (#[trigger] kahn(reads, writes, p).1[k] <==> placed_before(
                kahn(reads, writes, p).0,
                kahn(reads, writes, p).0.len() as int,
                k,
            )),
        forall|q1: int, q2: int|
            0 <= q1 < q2 < kahn(reads, writes, p).0.len() ==> #[trigger] kahn(
                reads,
                writes,
                p,
            ).0[q1] != #[trigger] kahn(reads, writes, p).0[q2],
        forall|q: int, i: int|
            0 <= q < kahn(reads, writes, p).0.len() && 0 <= i < reads.len() && #[trigger] dep(
                reads,
                writes,
                i,
                kahn(reads, writes, p).0[q] as int,
            ) ==> placed_before(kahn(reads, writes, p).0, q, i),
    decreases p,
{
    lemma_kahn_shape(reads, writes, p);
    if p > 0 {
        let prev = kahn(reads, writes, (p - 1) as nat);
        lemma_kahn_sound(reads, writes, (p - 1) as nat);
        lemma_kahn_shape(reads, writes, (p - 1) as nat);
        let k = first_ready(reads, writes, prev.1, 0);
        lemma_first_ready_bounds(reads, writes, prev.1, 0);
        if k < reads.len() {
            let o = prev.0.push(k as usize);
            let d = prev.1.update(k, true);
            assert(kahn(reads, writes, p) == (o, d));
            assert forall|j: int| 0 <= j < reads.len() implies (#[trigger] d[j] <==> placed_before(
                o,
                o.len() as int,
                j,
            )) by {
                if d[j] {
                    if j == k {
                        assert(o[o.len() - 1] == j);
                    } else {
                        assert(prev.1[j]);
                        let q2 = choose|q2: int| 0 <= q2 < prev.0.len() && prev.0[q2] == j;
                        assert(o[q2] == j);
                    }
                } else {
                    if placed_before(o, o.len() as int, j) {
                        let q2 = choose|q2: int| 0 <= q2 < o.len() && o[q2] == j;
                        if q2 < prev.0.len() {
                            assert(prev.0[q2] == j);
                            assert(placed_before(prev.0, prev.0.len() as int, j));
                        }
                    }
                }
            }
            assert forall|q1: int, q2: int| 0 <= q1 < q2 < o.len() implies #[trigger] o[q1]
                != #[trigger] o[q2] by {
                if q2 == o.len() - 1 {
                    assert(prev.0[q1] == o[q1]);
                    if o[q1] == k {
                        assert(placed_before(prev.0, prev.0.len() as int, k));
                    }
                } else {
                    assert(prev.0[q1] == o[q1] && prev.0[q2] == o[q2]);
                }
            }
            assert forall|q: int, i: int|
                0 <= q < o.len() && 0 <= i < reads.len() && #[trigger] dep(
                    reads,
                    writes,
                    i,
                    o[q] as int,
                ) implies placed_before(o, q, i) by {
                if q == o.len() - 1 {
                    assert(prev.1[i]);
                    let q2 = choose|q2: int| 0 <= q2 < prev.0.len() && prev.0[q2] == i;
                    assert(o[q2] == i);
                } else {
                    assert(o[q] == prev.0[q]);
                    assert(placed_before(prev.0, q, i));
                    let q2 = choose|q2: int| 0 <= q2 < q && prev.0[q2] == i;
                    assert(o[q2] == i);
                }
            }
        }
    } else {
        assert forall|k: int| 0 <= k < reads.len() implies (#[trigger] kahn(reads, writes, p).1[k]
            <==> placed_before(kahn(reads, writes, p).0, kahn(reads, writes, p).0.len() as int, k)) by {
        }
    }
}

/// The dispatch order is a valid schedule: no unit appears twice, every unit
/// in it is a valid index, and each unit comes after every unit it depends on.
/// When it places fewer than all units, every unit left out has a predecessor
/// that is also left out: the units left out contain a dependency cycle.
pub proof fn lemma_topo_order_valid(reads: Seq<u64>, writes: Seq<u64>)
    requires
        reads.len() <= usize::MAX,
    ensures
        kahn_order(reads, writes).len() <= reads.len(),
        forall|q: int|
            0 <= q < kahn_order(reads, writes).len() ==> #[trigger] kahn_order(reads, writes)[q]
                < reads.len(),
        forall|q1: int, q2: int|
            0 <= q1 < q2 < kahn_order(reads, writes).len() ==> #[trigger] kahn_order(
                reads,
                writes,
            )[q1] != #[trigger] kahn_order(reads, writes)[q2],
        forall|q: int, i: int|
            0 <= q < kahn_order(reads, writes).len() && 0 <= i < reads.len() && #[trigger] dep(
                reads,
                writes,
                i,
                kahn_order(reads, writes)[q] as int,
            ) ==> placed_before(kahn_order(reads, writes), q, i),
        kahn_order(reads, writes).len() < reads.len() ==> forall|k: int|
            0 <= k < reads.len() && !placed_before(
                kahn_order(reads, writes),
                kahn_order(reads, writes).len() as int,
                k,
            ) ==> exists|i: int|
                0 <= i < reads.len() && #[trigger] dep(reads, writes, i, k) && !placed_before(
                    kahn_order(reads, writes),
                    kahn_order(reads, writes).len() as int,
                    i,
                ),
{
    let n = reads.len();
    lemma_kahn_shape(reads, writes, n);
    lemma_kahn_sound(reads, writes, n);
    let st = kahn(reads, writes, n);
    if st.0.len() < n {
        // Some step placed nothing; from then on the state is fixed.
        lemma_kahn_stuck(reads, writes, n);
        assert forall|k: int|
            0 <= k < n && !placed_before(st.0, st.0.len() as int, k) implies exists|i: int|
            0 <= i < n && #[trigger] dep(reads, writes, i, k) && !placed_before(
                st.0,
                st.0.len() as int,
                i,
            ) by {
            assert(!st.1[k]);
            assert(!ready(reads, writes, st.1, k));
            let i = choose|i: int| 0 <= i < n && #[trigger] dep(reads, writes, i, k) && !st.1[i];
            assert(!placed_before(st.0, st.0.len() as int, i));
        }
    }
}

/// If fewer than `p` units are placed after `p` steps, no unit is ready then.
proof fn lemma_kahn_stuck(reads: Seq<u64>, writes: Seq<u64>, p: nat)
    requires
        kahn(reads, writes, p).0.len() < p,
    ensures
        forall|k: int| 0 <= k < reads.len() ==> !ready(reads, writes, kahn(reads, writes, p).1, k),
    decreases p,
{
    let prev = kahn(reads, writes, (p - 1) as nat);
    let k0 = first_ready(reads, writes, prev.1, 0);
    lemma_first_ready_bounds(reads, writes, prev.1, 0);
    lemma_kahn_shape(reads, writes, (p - 1) as nat);
    if k0 < reads.len() {
        lemma_kahn_stuck(reads, writes, (p - 1) as nat);
        assert(!ready(reads, writes, prev.1, k0));
    } else {
        assert forall|k: int| 0 <= k < reads.len() implies !ready(reads, writes, prev.1, k) by {
            if ready(reads, writes, prev.1, k) {
                lemma_first_ready_none(reads, writes, prev.1, 0, k);
            }
        }
    }
}

proof fn lemma_first_ready_none(reads: Seq<u64>, writes: Seq<u64>, done: Seq<bool>, s: int, k: int)
    requires
        0 <= s <= k < reads.len(),
        ready(reads, writes, done, k),
    ensures
        first_ready(reads, writes, done, s) < reads.len(),
    decreases k - s,
{
    if s < k && !ready(reads, writes, done, s) {
        lemma_first_ready_none(reads, writes, done, s + 1, k);
    }
}

/// Kahn's topological order of the work units whose read and write column masks
/// are `reads` and `writes`. `r[k]` is the unit dispatched at step `k`; each
/// step takes the lowest-index unit whose predecessors are all placed. If the
/// dependency graph has a cycle, the steps after the last placement hold 0.
pub fn topo_order(reads: &[u64], writes: &[u64]) -> (r: Vec<usize>)
    requires
        reads.len() == writes.len(),
    ensures
        r.len() == reads.len(),
        forall|p: int|
            0 <= p < r.len() ==> #[trigger] r[p] == (if p < kahn_order(reads@, writes@).len() {
                kahn_order(reads@, writes@)[p]
            } else {
                0
            }),
{
    let n = reads.len();
    let ghost rs = reads@;
    let ghost ws = writes@;
    let ghost none = Seq::new(n as nat, |_i: int| false);
    let mut indeg: Vec<usize> = vec![0usize; n];
    let mut i: usize = 0;
    while i < n
        invariant
            n == rs.len() == ws.len(),
            rs == reads@,
            ws == writes@,
            none == Seq::new(n as nat, |_i: int| false),
            i <= n,
            indeg.len() == n,
            forall|j: int| 0 <= j < n ==> #[trigger] indeg[j] == pending(rs, ws, none, j, i as int),
        decreases n - i,
    {
        let mut j: usize = 0;
        while j < n
            invariant
                n == rs.len() == ws.len(),
                rs == reads@,
                ws == writes@,
                none == Seq::new(n as nat, |_i: int| false),
                i < n,
                j <= n,
                indeg.len() == n,
                forall|q: int|
                    0 <= q < j ==> #[trigger] indeg[q] == pending(rs, ws, none, q, i + 1),
                forall|q: int|
                    j <= q < n ==> #[trigger] indeg[q] == pending(rs, ws, none, q, i as int),
            decreases n - j,
        {
            proof {
                lemma_pending_le(rs, ws, none, j as int, i as int);
            }
            if i != j && (writes[i] & reads[j]) != 0 {
                let v = indeg[j] + 1;
                indeg.set(j, v);
            }
            j = j + 1;
        }
        i = i + 1;
    }
    let mut order: Vec<usize> = vec![0usize; n];
    let mut done: Vec<bool> = vec![false; n];
    let mut out: usize = 0;
    proof {
        assert(done@ =~= none);
        assert(order@.take(0) =~= kahn(rs, ws, 0).0);
    }
    while out < n
        invariant_except_break
            out <= n,
            kahn(rs, ws, out as nat).0.len() == out,
        invariant
            n == rs.len() == ws.len(),
            rs == reads@,
            ws == writes@,
            out <= n,
            indeg.len() == n,
            order.len() == n,
            done.len() == n,
            done@ == kahn(rs, ws, out as nat).1,
            order@.take(out as int) == kahn(rs, ws, out as nat).0,
            forall|p: int| out <= p < n ==> #[trigger] order[p] == 0,
            forall|j: int|
                0 <= j < n && !done[j] ==> #[trigger] indeg[j] == pending(rs, ws, done@, j, n as int),
        ensures
            order@.take(out as int) == kahn(rs, ws, n as nat).0,
            forall|p: int| out <= p < n ==> #[trigger] order[p] == 0,
            order.len() == n,
        decreases n - out,
    {
        let mut pick: usize = n;
        let mut k: usize = 0;
        while k < n
            invariant_except_break
                pick == n,
            invariant
                n == rs.len() == ws.len(),
                k <= n,
                indeg.len() == n,
                done.len() == n,
                forall|j: int|
                    0 <= j < n && !done[j] ==> #[trigger] indeg[j] == pending(rs, ws, done@, j, n as int),
                forall|q: int| 0 <= q < k ==> !ready(rs, ws, done@, q),
            ensures
                pick <= n,
                pick == n ==> forall|q: int| 0 <= q < n ==> !ready(rs, ws, done@, q),
                pick < n ==> ready(rs, ws, done@, pick as int) && forall|q: int|
                    0 <= q < pick ==> !ready(rs, ws, done@, q),
            decreases n - k,
        {
            proof {
                lemma_pending_zero(rs, ws, done@, k as int, n as int);
            }
            if !done[k] && indeg[k] == 0 {
                pick = k;
                break;
            }
            k = k + 1;
        }
        proof {
            lemma_first_ready(rs, ws, done@, 0, pick as int);
            lemma_kahn_shape(rs, ws, out as nat);
        }
        if pick == n {
            proof {
                lemma_kahn_stable(rs, ws, out as nat, n as nat);
            }
            break;
        }
        let ghost done_before = done@;
        let ghost order_before = order@;
        done.set(pick, true);
        order.set(out, pick);
        out = out + 1;
        proof {
            assert(kahn(rs, ws, out as nat) == (kahn(rs, ws, (out - 1) as nat).0.push(
                pick,
            ), done_before.update(pick as int, true)));
            assert(order@.take(out as int) =~= order_before.take(out - 1).push(pick));
        }
        let mut j: usize = 0;
        while j < n
            invariant
                n == rs.len() == ws.len(),
                rs == reads@,
                ws == writes@,
                j <= n,
                pick < n,
                indeg.len() == n,
                done.len() == n,
                done_before.len() == n,
                !done_before[pick as int],
                done@ == done_before.update(pick as int, true),
                forall|q: int|
                    0 <= q < n && !done_before[q] ==> #[trigger] indeg[q] == pending(
                        rs,
                        ws,
                        done_before,
                        q,
                        n as int,
                    ) - (if q < j && dep(rs, ws, pick as int, q) {
                        1int
                    } else {
                        0int
                    }),
            decreases n - j,
        {
            proof {
                lemma_pending_place(rs, ws, done_before, pick as int, j as int, n as int);
            }
            if j != pick && !done[j] && (writes[pick] & reads[j]) != 0 {
                let v = indeg[j] - 1;
                indeg.set(j, v);
            }
            j = j + 1;
        }
        proof {
            assert forall|q: int| 0 <= q < n && !done[q] implies #[trigger] indeg[q] == pending(
                rs,
                ws,
                done@,
                q,
                n as int,
            ) by {
                lemma_pending_place(rs, ws, done_before, pick as int, q, n as int);
            }
        }
    }
    proof {
        lemma_kahn_shape(rs, ws, n as nat);
        assert forall|p: int| 0 <= p < order.len() implies #[trigger] order[p] == (if p
            < kahn_order(rs, ws).len() {
            kahn_order(rs, ws)[p]
        } else {
            0
        }) by {
            if p < out {
                assert(order@.take(out as int)[p] == order[p]);
            }
        }
    }
    order
}

/// The same order computed at run time right before dispatch.
pub fn topo(reads: &[u64], writes: &[u64]) -> (r: Vec<usize>)
    requires
        reads.len() == writes.len(),
    ensures
        r.len() == reads.len(),
        forall|p: int|
            0 <= p < r.len() ==> #[trigger] r[p] == (if p < kahn_order(reads@, writes@).len() {
                kahn_order(reads@, writes@)[p]
            } else {
                0
            }),
{
    topo_order(reads, writes)
}

} // verus!
