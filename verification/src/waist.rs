//! Phases from access masks. A waist (a unit every later unit depends on
//! through it) closes a phase: the phase of a unit is the number of waists
//! before it. Beside it, the dependency depth of each unit, which the waist
//! phases deliberately differ from.
use vstd::prelude::*;

verus! {

/// The column mask of up to 8 target columns: bit `j` of `targets` for
/// `j < 8`.
pub fn mk_col(targets: u64) -> (w: u8)
    ensures
        w == (targets & 0xffu64) as u8,
{
    let mut w: u8 = 0;
    let mut j: u32 = 0;
    proof {
        assert(0u8 as u64 == targets & (((1u64 << 0u64) - 1) as u64)) by (bit_vector);
    }
    while j < 8
        invariant
            j <= 8,
            w as u64 == targets & (((1u64 << (j as u64)) - 1) as u64),
        decreases 8 - j,
    {
        if (targets >> (j as u64)) & 1 == 1 {
            let nw = w | (1u8 << j);
            proof {
                lemma_col_step(targets, w, j, true);
            }
            w = nw;
        } else {
            proof {
                lemma_col_step(targets, w, j, false);
            }
        }
        j = j + 1;
    }
    proof {
        assert(((1u64 << 8u64) - 1) as u64 == 0xffu64) by (bit_vector);
        assert((targets & 0xffu64) < 256) by (bit_vector);
    }
    w
}

proof fn lemma_col_step(targets: u64, w: u8, j: u32, set: bool)
    requires
        j < 8,
        w as u64 == targets & (((1u64 << (j as u64)) - 1) as u64),
        set == ((targets >> (j as u64)) & 1 == 1),
    ensures
        set ==> (w | (1u8 << j)) as u64 == targets & (((1u64 << ((j + 1) as u64)) - 1) as u64),
        !set ==> w as u64 == targets & (((1u64 << ((j + 1) as u64)) - 1) as u64),
{
    let jj = j as u64;
    assert(set ==> (w | (1u8 << j)) as u64 == targets & (((1u64 << ((jj + 1) as u64)) - 1) as u64))
        by (bit_vector)
        requires
            jj == j as u64,
            j < 8,
            w as u64 == targets & (((1u64 << jj) - 1) as u64),
            set == ((targets >> jj) & 1 == 1),
    ;
    assert(!set ==> w as u64 == targets & (((1u64 << ((jj + 1) as u64)) - 1) as u64)) by (bit_vector)
        requires
            jj == j as u64,
            j < 8,
            w as u64 == targets & (((1u64 << jj) - 1) as u64),
            set == ((targets >> jj) & 1 == 1),
    ;
}

/// Two column masks share a column.
pub fn overlaps(a: u8, b: u8) -> (r: bool)
    ensures
        r == ((a & b) != 0),
{
    (a & b) != 0
}

/// There is an edge `i -> j`: `j` reads a column `i` writes.
pub open spec fn waist_edge(reads: Seq<u8>, writes: Seq<u8>, i: int, j: int) -> bool {
    i != j && (reads[j] & writes[i]) != 0
}

/// The adjacency row of unit `i` over units `[0, k)`: bit `j` set for each
/// edge `i -> j`.
pub open spec fn adj_row(reads: Seq<u8>, writes: Seq<u8>, i: int, k: int) -> u64
    decreases k,
{
    if k <= 0 {
        0
    } else if waist_edge(reads, writes, i, k - 1) {
        adj_row(reads, writes, i, k - 1) | (1u64 << ((k - 1) as u64))
    } else {
        adj_row(reads, writes, i, k - 1)
    }
}

proof fn lemma_bit_or(x: u64, k: u64, j: u64)
    requires
        k < 64,
        j < 64,
    ensures
        ((x | (1u64 << k)) >> j) & 1 == (if j == k {
            1u64
        } else {
            (x >> j) & 1
        }),
{
    assert(((x | (1u64 << k)) >> j) & 1 == (if j == k {
        1u64
    } else {
        (x >> j) & 1
    })) by (bit_vector)
        requires
            k < 64,
            j < 64,
    ;
}

/// Bit `j` of an adjacency row is set exactly for the edges `i -> j`.
pub proof fn lemma_adj_row_bits(reads: Seq<u8>, writes: Seq<u8>, i: int, k: int, j: int)
    requires
        0 <= k <= 64,
        0 <= j < 64,
    ensures
        (adj_row(reads, writes, i, k) >> (j as u64)) & 1 == (if j < k && waist_edge(
            reads,
            writes,
            i,
            j,
        ) {
            1u64
        } else {
            0u64
        }),
    decreases k,
{
    if k > 0 {
        lemma_adj_row_bits(reads, writes, i, k - 1, j);
        if waist_edge(reads, writes, i, k - 1) {
            lemma_bit_or(adj_row(reads, writes, i, k - 1), (k - 1) as u64, j as u64);
        }
    } else {
        let jj = j as u64;
        assert((0u64 >> jj) & 1 == 0) by (bit_vector);
    }
}

/// The adjacency rows of the dependency graph: row `i` has bit `j` set when
/// `j` reads a column `i` writes (`i != j`).
pub fn build_adj(reads: &Vec<u8>, writes: &Vec<u8>) -> (adj: Vec<u64>)
    requires
        reads.len() == writes.len(),
        reads.len() <= 64,
    ensures
        adj.len() == reads.len(),
        forall|i: int| 0 <= i < adj.len() ==> #[trigger] adj[i] == adj_row(reads@, writes@, i, reads.len() as int),
{
    let n = reads.len();
    let mut adj: Vec<u64> = Vec::new();
    let mut i: usize = 0;
    while i < n
        invariant
            n == reads.len() == writes.len(),
            n <= 64,
            i <= n,
            adj.len() == i,
            forall|q: int| 0 <= q < i ==> #[trigger] adj[q] == adj_row(reads@, writes@, q, n as int),
        decreases n - i,
    {
        let mut row: u64 = 0;
        let mut j: usize = 0;
        while j < n
            invariant
                n == reads.len() == writes.len(),
                n <= 64,
                i < n,
                j <= n,
                row == adj_row(reads@, writes@, i as int, j as int),
            decreases n - j,
        {
            if i != j && overlaps(reads[j], writes[i]) {
                row = row | (1u64 << (j as u64));
            }
            j = j + 1;
        }
        adj.push(row);
        i = i + 1;
    }
    adj
}

/// Number of set flags among `[0, k)`.
pub open spec fn flags_before(flags: Seq<bool>, k: int) -> int
    decreases k,
{
    if k <= 0 {
        0
    } else {
        flags_before(flags, k - 1) + (if flags[k - 1] {
            1int
        } else {
            0int
        })
    }
}

proof fn lemma_flags_before_bound(flags: Seq<bool>, k: int)
    requires
        k >= 0,
    ensures
        0 <= flags_before(flags, k) <= k,
    decreases k,
{
    if k > 0 {
        lemma_flags_before_bound(flags, k - 1);
    }
}

/// The phase of each unit from the waist flags: the number of waists before
/// it (a waist itself still belongs to the phase it closes).
pub fn phases_from_flags(flags: &Vec<bool>) -> (ph: Vec<usize>)
    ensures
        ph.len() == flags.len(),
        forall|k: int| 0 <= k < ph.len() ==> #[trigger] ph[k] == flags_before(flags@, k),
{
    let mut ph: Vec<usize> = Vec::new();
    let mut count: usize = 0;
    let mut k: usize = 0;
    while k < flags.len()
        invariant
            k <= flags.len(),
            ph.len() == k,
            count == flags_before(flags@, k as int),
            forall|q: int| 0 <= q < k ==> #[trigger] ph[q] == flags_before(flags@, q),
        decreases flags.len() - k,
    {
        proof {
            lemma_flags_before_bound(flags@, k as int);
        }
        ph.push(count);
        if flags[k] {
            count = count + 1;
        }
        k = k + 1;
    }
    ph
}

/// Waist phases start at 0 and never skip: each unit's phase is its
/// predecessor's, or one more if the predecessor is a waist.
pub proof fn lemma_phases_contiguous(flags: Seq<bool>, k: int)
    requires
        0 < k < flags.len(),
    ensures
        flags_before(flags, 0) == 0,
        flags_before(flags, k) == flags_before(flags, k - 1) + (if flags[k - 1] {
            1int
        } else {
            0int
        }),
{
}

/// Depth relaxation of the edges into `j` from units `[0, i)`, in order.
pub open spec fn depth_row(d: Seq<usize>, reads: Seq<u8>, writes: Seq<u8>, j: int, i: int) -> Seq<usize>
    decreases i,
{
    if i <= 0 {
        d
    } else {
        let p = depth_row(d, reads, writes, j, i - 1);
        if waist_edge(reads, writes, i - 1, j) && p[j] < p[i - 1] + 1 {
            p.update(j, (p[i - 1] + 1) as usize)
        } else {
            p
        }
    }
}

/// One pass over targets `[0, j)`.
pub open spec fn depth_pass(d: Seq<usize>, reads: Seq<u8>, writes: Seq<u8>, j: int) -> Seq<usize>
    decreases j,
{
    if j <= 0 {
        d
    } else {
        depth_row(depth_pass(d, reads, writes, j - 1), reads, writes, j - 1, reads.len() as int)
    }
}

/// `k` passes from `d`.
pub open spec fn depth_iter(d: Seq<usize>, reads: Seq<u8>, writes: Seq<u8>, k: nat) -> Seq<usize>
    decreases k,
{
    if k == 0 {
        d
    } else {
        depth_pass(depth_iter(d, reads, writes, (k - 1) as nat), reads, writes, reads.len() as int)
    }
}

/// The dependency depth of every unit after as many passes as units.
pub open spec fn depths(reads: Seq<u8>, writes: Seq<u8>) -> Seq<usize> {
    depth_iter(Seq::new(reads.len(), |_i: int| 0usize), reads, writes, reads.len())
}

proof fn lemma_depth_row_bound(d: Seq<usize>, reads: Seq<u8>, writes: Seq<u8>, j: int, i: int, b: int)
    requires
        0 <= j < d.len(),
        0 <= i <= d.len(),
        forall|x: int| 0 <= x < d.len() && x != j ==> d[x] <= b,
        d[j] <= b + 1,
        b + 1 <= usize::MAX,
    ensures
        depth_row(d, reads, writes, j, i).len() == d.len(),
        forall|x: int| 0 <= x < d.len() && x != j ==> #[trigger] depth_row(d, reads, writes, j, i)[x] == d[x],
        depth_row(d, reads, writes, j, i)[j] <= b + 1,
    decreases i,
{
    if i > 0 {
        lemma_depth_row_bound(d, reads, writes, j, i - 1, b);
    }
}

/// The dependency depth of each unit by repeated relaxation: as many passes
/// as units, each raising `d[j]` to `d[i] + 1` for every edge `i -> j`.
pub fn depth_phases(reads: &Vec<u8>, writes: &Vec<u8>) -> (d: Vec<usize>)
    requires
        reads.len() == writes.len(),
        reads.len() < 0x1_0000,
    ensures
        d@ == depths(reads@, writes@),
{
    let n = reads.len();
    let ghost rs = reads@;
    let ghost ws = writes@;
    let mut d: Vec<usize> = vec![0usize; n];
    let ghost zero = d@;
    proof {
        assert(zero =~= Seq::new(n as nat, |_i: int| 0usize));
    }
    let mut pass: usize = 0;
    while pass < n
        invariant
            n == rs.len() == ws.len(),
            rs == reads@ && ws == writes@,
            n < 0x1_0000,
            zero == Seq::new(n as nat, |_i: int| 0usize),
            pass <= n,
            d.len() == n,
            d@ == depth_iter(zero, rs, ws, pass as nat),
            forall|x: int| 0 <= x < n ==> #[trigger] d[x] <= pass * n,
        decreases n - pass,
    {
        let ghost start = d@;
        proof {
            assert(pass * n + n <= n * n) by (nonlinear_arith)
                requires
                    pass < n,
            ;
            assert(n * n < 0x1_0000 * 0x1_0000) by (nonlinear_arith)
                requires
                    n < 0x1_0000,
            ;
        }
        let mut j: usize = 0;
        while j < n
            invariant
                n == rs.len() == ws.len(),
                rs == reads@ && ws == writes@,
                pass < n,
                pass * n + n <= n * n,
                n * n < 0x1_0000 * 0x1_0000,
                j <= n,
                d.len() == n,
                d@ == depth_pass(start, rs, ws, j as int),
                forall|x: int| 0 <= x < n ==> #[trigger] d[x] <= pass * n + j,
            decreases n - j,
        {
            let ghost row = d@;
            let mut i: usize = 0;
            while i < n
                invariant
                    n == rs.len() == ws.len(),
                    rs == reads@ && ws == writes@,
                    j < n,
                    i <= n,
                    pass * n + n <= n * n,
                    n * n < 0x1_0000 * 0x1_0000,
                    row.len() == n,
                    forall|x: int| 0 <= x < n ==> #[trigger] row[x] <= pass * n + j,
                    d.len() == n,
                    d@ == depth_row(row, rs, ws, j as int, i as int),
                decreases n - i,
            {
                proof {
                    lemma_depth_row_bound(row, rs, ws, j as int, i as int, pass * n + j);
                }
                if i != j && overlaps(reads[j], writes[i]) {
                    let cand = d[i] + 1;
                    if d[j] < cand {
                        d.set(j, cand);
                    }
                }
                i = i + 1;
            }
            proof {
                lemma_depth_row_bound(row, rs, ws, j as int, n as int, pass * n + j);
            }
            j = j + 1;
        }
        pass = pass + 1;
        proof {
            assert(pass * n == (pass - 1) * n + n) by (nonlinear_arith);
        }
    }
    d
}


// ---------------------------------------------------------------------
// The depths respect every edge of an acyclic graph.

/// `pos` numbers the units in `[0, n)` so that every edge goes from a lower
/// number to a higher one: a witness that the graph is acyclic.
pub open spec fn edge_positions(reads: Seq<u8>, writes: Seq<u8>, pos: Seq<int>) -> bool {
    &&& pos.len() == reads.len()
    &&& forall|v: int| 0 <= v < pos.len() ==> 0 <= #[trigger] pos[v] < pos.len()
    &&& forall|i: int, j: int|
        0 <= i < pos.len() && 0 <= j < pos.len() && #[trigger] waist_edge(reads, writes, i, j)
            ==> pos[i] < pos[j]
}

/// Every edge into a unit numbered below `k` holds strictly, no depth exceeds
/// its unit's number, every positive depth is at most one above the depth of
/// some predecessor, and the shapes agree.
spec fn depth_ctx(d: Seq<usize>, reads: Seq<u8>, writes: Seq<u8>, pos: Seq<int>, k: int) -> bool {
    &&& reads.len() == writes.len() == d.len()
    &&& reads.len() <= usize::MAX
    &&& edge_positions(reads, writes, pos)
    &&& forall|v: int| 0 <= v < d.len() ==> #[trigger] d[v] <= pos[v]
    &&& forall|u: int, v: int|
        0 <= u < d.len() && 0 <= v < d.len() && pos[v] < k && #[trigger] waist_edge(reads, writes, u, v)
            ==> d[u] < d[v]
    &&& forall|v: int|
        0 <= v < d.len() && #[trigger] d[v] > 0 ==> exists|u: int|
            0 <= u < d.len() && #[trigger] waist_edge(reads, writes, u, v) && d[v] <= d[u] + 1
}

spec fn depth_grows(d: Seq<usize>, e: Seq<usize>, pos: Seq<int>, k: int) -> bool {
    &&& e.len() == d.len()
    &&& forall|v: int| 0 <= v < d.len() ==> d[v] <= #[trigger] e[v]
    &&& forall|v: int| 0 <= v < d.len() && pos[v] < k ==> #[trigger] e[v] == d[v]
}

proof fn lemma_dag_depth_row(d: Seq<usize>, reads: Seq<u8>, writes: Seq<u8>, pos: Seq<int>, k: int, j: int, i: int)
    requires
        depth_ctx(d, reads, writes, pos, k),
        0 <= j < d.len(),
        0 <= i <= d.len(),
    ensures
        depth_ctx(depth_row(d, reads, writes, j, i), reads, writes, pos, k),
        depth_grows(d, depth_row(d, reads, writes, j, i), pos, k),
        forall|x: int| 0 <= x < d.len() && x != j ==> #[trigger] depth_row(d, reads, writes, j, i)[x] == d[x],
        forall|w: int|
            0 <= w < i && #[trigger] waist_edge(reads, writes, w, j) ==> depth_row(
                d,
                reads,
                writes,
                j,
                i,
            )[w] < depth_row(d, reads, writes, j, i)[j],
    decreases i,
{
    if i > 0 {
        lemma_dag_depth_row(d, reads, writes, pos, k, j, i - 1);
        let p = depth_row(d, reads, writes, j, i - 1);
        let q = depth_row(d, reads, writes, j, i);
        if waist_edge(reads, writes, i - 1, j) && p[j] < p[i - 1] + 1 {
            assert(pos[i - 1] < pos[j]);
            assert(p[i - 1] <= pos[i - 1]);
            assert(0 <= pos[j] < pos.len());
            assert(q == p.update(j, (p[i - 1] + 1) as usize));
            assert(pos[j] >= k);
            assert forall|u: int, v: int|
                0 <= u < q.len() && 0 <= v < q.len() && pos[v] < k && #[trigger] waist_edge(
                    reads,
                    writes,
                    u,
                    v,
                ) implies q[u] < q[v] by {
                assert(pos[u] < pos[v]);
                assert(p[u] < p[v]);
            }
            assert forall|v: int| 0 <= v < q.len() && #[trigger] q[v] > 0 implies exists|u: int|
                0 <= u < q.len() && #[trigger] waist_edge(reads, writes, u, v) && q[v] <= q[u] + 1 by {
                if v == j {
                    assert(waist_edge(reads, writes, i - 1, j) && q[j] <= q[i - 1] + 1);
                } else {
                    let u = choose|u: int|
                        0 <= u < p.len() && #[trigger] waist_edge(reads, writes, u, v) && p[v] <= p[u] + 1;
                    assert(waist_edge(reads, writes, u, v) && q[v] <= q[u] + 1);
                }
            }
        }
        assert forall|v: int| 0 <= v < d.len() implies d[v] <= #[trigger] q[v] by {
            assert(d[v] <= p[v]);
        }
        assert forall|v: int| 0 <= v < d.len() && pos[v] < k implies #[trigger] q[v] == d[v] by {
            assert(p[v] == d[v]);
        }
        assert forall|w: int| 0 <= w < i && #[trigger] waist_edge(reads, writes, w, j) implies q[w]
            < q[j] by {
            if w < i - 1 {
                assert(p[w] < p[j]);
            }
        }
    }
}

proof fn lemma_dag_depth_pass(d: Seq<usize>, reads: Seq<u8>, writes: Seq<u8>, pos: Seq<int>, k: int, m: int)
    requires
        depth_ctx(d, reads, writes, pos, k),
        0 <= m <= d.len(),
    ensures
        depth_ctx(depth_pass(d, reads, writes, m), reads, writes, pos, k),
        depth_grows(d, depth_pass(d, reads, writes, m), pos, k),
        forall|u: int, v: int|
            0 <= u < d.len() && 0 <= v < m && pos[v] == k && #[trigger] waist_edge(reads, writes, u, v)
                ==> depth_pass(d, reads, writes, m)[u] < depth_pass(d, reads, writes, m)[v],
    decreases m,
{
    if m > 0 {
        lemma_dag_depth_pass(d, reads, writes, pos, k, m - 1);
        let mid = depth_pass(d, reads, writes, m - 1);
        lemma_dag_depth_row(mid, reads, writes, pos, k, m - 1, reads.len() as int);
        let q = depth_pass(d, reads, writes, m);
        assert(q == depth_row(mid, reads, writes, m - 1, reads.len() as int));
        assert forall|v: int| 0 <= v < d.len() implies d[v] <= #[trigger] q[v] by {
            assert(d[v] <= mid[v]);
        }
        assert forall|v: int| 0 <= v < d.len() && pos[v] < k implies #[trigger] q[v] == d[v] by {
            assert(mid[v] == d[v]);
        }
        assert forall|u: int, v: int|
            0 <= u < d.len() && 0 <= v < m && pos[v] == k && #[trigger] waist_edge(reads, writes, u, v)
                implies q[u] < q[v] by {
            assert(pos[u] < pos[v]);
            assert(q[u] == mid[u]);
            if v < m - 1 {
                assert(mid[u] < mid[v]);
                assert(q[v] == mid[v]);
            }
        }
    }
}

proof fn lemma_dag_depth_iter(reads: Seq<u8>, writes: Seq<u8>, pos: Seq<int>, it: nat)
    requires
        reads.len() == writes.len(),
        reads.len() <= usize::MAX,
        edge_positions(reads, writes, pos),
    ensures
        depth_ctx(
            depth_iter(Seq::new(reads.len(), |_i: int| 0usize), reads, writes, it),
            reads,
            writes,
            pos,
            it as int,
        ),
    decreases it,
{
    let zero = Seq::new(reads.len(), |_i: int| 0usize);
    if it > 0 {
        lemma_dag_depth_iter(reads, writes, pos, (it - 1) as nat);
        let prev = depth_iter(zero, reads, writes, (it - 1) as nat);
        let k = it - 1;
        lemma_dag_depth_pass(prev, reads, writes, pos, k, reads.len() as int);
        let q = depth_iter(zero, reads, writes, it);
        assert(q == depth_pass(prev, reads, writes, reads.len() as int));
        assert forall|u: int, v: int|
            0 <= u < q.len() && 0 <= v < q.len() && pos[v] < it && #[trigger] waist_edge(
                reads,
                writes,
                u,
                v,
            ) implies q[u] < q[v] by {
            if pos[v] < k {
                assert(depth_ctx(q, reads, writes, pos, k));
            }
        }
    }
}

/// On an acyclic graph (witnessed by topological numbers `pos`) the depths
/// are the longest path lengths: a unit that reads a column another unit
/// writes is strictly deeper, every unit of positive depth has a predecessor
/// exactly one shallower, and no depth exceeds the unit's topological number.
pub proof fn lemma_depths_respect_edges(reads: Seq<u8>, writes: Seq<u8>, pos: Seq<int>)
    requires
        reads.len() == writes.len(),
        reads.len() <= usize::MAX,
        edge_positions(reads, writes, pos),
    ensures
        depths(reads, writes).len() == reads.len(),
        forall|i: int, j: int|
            0 <= i < reads.len() && 0 <= j < reads.len() && #[trigger] waist_edge(reads, writes, i, j)
                ==> depths(reads, writes)[i] < depths(reads, writes)[j],
        forall|v: int| 0 <= v < reads.len() ==> #[trigger] depths(reads, writes)[v] <= pos[v],
        forall|v: int|
            0 <= v < reads.len() && #[trigger] depths(reads, writes)[v] > 0 ==> exists|u: int|
                0 <= u < reads.len() && #[trigger] waist_edge(reads, writes, u, v) && depths(reads, writes)[v]
                    == depths(reads, writes)[u] + 1,
{
    lemma_dag_depth_iter(reads, writes, pos, reads.len());
    let q = depths(reads, writes);
    assert forall|i: int, j: int|
        0 <= i < reads.len() && 0 <= j < reads.len() && #[trigger] waist_edge(reads, writes, i, j)
            implies q[i] < q[j] by {
        assert(pos[j] < pos.len());
    }
    assert forall|v: int| 0 <= v < reads.len() && #[trigger] q[v] > 0 implies exists|u: int|
        0 <= u < reads.len() && #[trigger] waist_edge(reads, writes, u, v) && q[v] == q[u] + 1 by {
        let u = choose|u: int| 0 <= u < q.len() && #[trigger] waist_edge(reads, writes, u, v) && q[v] <= q[u] + 1;
        assert(pos[v] < pos.len());
        assert(q[u] < q[v]);
    }
}

} // verus!
