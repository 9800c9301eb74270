//! Trunk grouping by union-find over shared columns: every pair of units that
//! touch a common column is merged into one trunk; a unit's trunk id is the
//! root of its tree.
//!
//! Termination of the root walks rests on ghost ranks: a parent always has a
//! higher rank than its child, and every rank plus the number of roots is at
//! most the node count.
use vstd::prelude::*;

verus! {

/// The node reached from `x` by following parents at most `fuel` times.
pub open spec fn root(parent: Seq<usize>, x: int, fuel: nat) -> int
    decreases fuel,
{
    if fuel == 0 || parent[x] == x {
        x
    } else {
        root(parent, parent[x] as int, (fuel - 1) as nat)
    }
}

/// Enough fuel to reach the root from any node of a forest of `cap` nodes.
pub open spec fn full(cap: int) -> nat {
    (cap + 2) as nat
}

/// The trunk label of `x`: its root in the forest.
pub open spec fn label(parent: Seq<usize>, x: int) -> int {
    root(parent, x, full(parent.len() as int))
}

/// Number of roots among nodes `[0, upto)`.
pub open spec fn nroots(parent: Seq<usize>, upto: int) -> nat
    decreases upto,
{
    if upto <= 0 {
        0
    } else {
        nroots(parent, upto - 1) + (if parent[upto - 1] == upto - 1 {
            1nat
        } else {
            0nat
        })
    }
}

/// `parent` is a forest ranked by `rk`.
pub open spec fn forest(parent: Seq<usize>, rk: Seq<nat>) -> bool {
    &&& rk.len() == parent.len()
    &&& forall|x: int| 0 <= x < parent.len() ==> #[trigger] parent[x] < parent.len()
    &&& forall|x: int|
        0 <= x < parent.len() && parent[x] != x ==> rk[parent[x] as int] > #[trigger] rk[x]
    &&& forall|x: int| 0 <= x < parent.len() ==> #[trigger] rk[x] + nroots(parent, parent.len() as int) <= parent.len()
}

proof fn lemma_root_is_root(parent: Seq<usize>, rk: Seq<nat>, x: int, f: nat)
    requires
        forest(parent, rk),
        0 <= x < parent.len(),
        f > parent.len() - rk[x],
    ensures
        0 <= root(parent, x, f) < parent.len(),
        parent[root(parent, x, f)] == root(parent, x, f),
    decreases f,
{
    if parent[x] != x {
        lemma_root_is_root(parent, rk, parent[x] as int, (f - 1) as nat);
    }
}

proof fn lemma_root_stable(parent: Seq<usize>, rk: Seq<nat>, x: int, f1: nat, f2: nat)
    requires
        forest(parent, rk),
        0 <= x < parent.len(),
        f1 > parent.len() - rk[x],
        f2 > parent.len() - rk[x],
    ensures
        root(parent, x, f1) == root(parent, x, f2),
    decreases f1,
{
    if parent[x] != x {
        lemma_root_stable(parent, rk, parent[x] as int, (f1 - 1) as nat, (f2 - 1) as nat);
    }
}

proof fn lemma_nroots_link(parent: Seq<usize>, rb: int, ra: usize, upto: int)
    requires
        0 <= rb < parent.len(),
        parent[rb] == rb,
        ra != rb,
        0 <= upto <= parent.len(),
    ensures
        nroots(parent.update(rb, ra), upto) + (if rb < upto {
            1int
        } else {
            0int
        }) == nroots(parent, upto),
    decreases upto,
{
    if upto > 0 {
        lemma_nroots_link(parent, rb, ra, upto - 1);
    }
}

proof fn lemma_nroots_pos(parent: Seq<usize>, x: int, upto: int)
    requires
        0 <= x < upto <= parent.len(),
        parent[x] == x,
    ensures
        nroots(parent, upto) >= 1,
    decreases upto,
{
    if x < upto - 1 {
        lemma_nroots_pos(parent, x, upto - 1);
    }
}

/// The new rank of root `ra` when root `rb` is linked under it.
pub open spec fn linked_rank(rk: Seq<nat>, ra: int, rb: int) -> nat {
    if rk[ra] > rk[rb] {
        rk[ra]
    } else {
        rk[rb] + 1
    }
}

proof fn lemma_link_root(parent: Seq<usize>, rk: Seq<nat>, ra: usize, rb: usize, x: int, f: nat)
    requires
        forest(parent, rk),
        ra < parent.len() && rb < parent.len(),
        parent[ra as int] == ra && parent[rb as int] == rb,
        ra != rb,
        0 <= x < parent.len(),
        f > parent.len() - rk[x] + 1,
    ensures
        root(parent.update(rb as int, ra), x, f) == (if root(parent, x, f) == rb {
            ra as int
        } else {
            root(parent, x, f)
        }),
    decreases f,
{
    let np = parent.update(rb as int, ra);
    if x == rb {
        assert(np[ra as int] == ra);
        assert(root(np, ra as int, (f - 1) as nat) == ra) by {
            if f - 1 > 0 {
            }
        }
    } else if parent[x] != x {
        lemma_link_root(parent, rk, ra, rb, parent[x] as int, (f - 1) as nat);
    }
}

/// Linking root `rb` under root `ra` keeps a ranked forest, and every node's
/// label becomes `ra` if it was `rb` and stays otherwise.
proof fn lemma_link(parent: Seq<usize>, rk: Seq<nat>, ra: usize, rb: usize)
    requires
        forest(parent, rk),
        ra < parent.len() && rb < parent.len(),
        parent[ra as int] == ra && parent[rb as int] == rb,
        ra != rb,
    ensures
        forest(
            parent.update(rb as int, ra),
            rk.update(ra as int, linked_rank(rk, ra as int, rb as int)),
        ),
        forall|x: int|
            0 <= x < parent.len() ==> #[trigger] label(parent.update(rb as int, ra), x) == (if label(
                parent,
                x,
            ) == rb {
                ra as int
            } else {
                label(parent, x)
            }),
{
    let cap = parent.len() as int;
    let np = parent.update(rb as int, ra);
    let nrk = rk.update(ra as int, linked_rank(rk, ra as int, rb as int));
    lemma_nroots_link(parent, rb as int, ra, cap);
    lemma_nroots_pos(np, ra as int, cap);
    assert forall|x: int| 0 <= x < cap implies #[trigger] nrk[x] + nroots(np, cap) <= cap by {
    }
    assert forall|x: int| 0 <= x < cap && np[x] != x implies nrk[np[x] as int] > #[trigger] nrk[x] by {
    }
    assert forall|x: int| 0 <= x < cap implies #[trigger] label(np, x) == (if label(parent, x)
        == rb {
        ra as int
    } else {
        label(parent, x)
    }) by {
        lemma_link_root(parent, rk, ra, rb, x, full(cap));
    }
}

/// Follows parents from `x` to its root.
fn find(parent: &Vec<usize>, x: usize, Ghost(rk): Ghost<Seq<nat>>) -> (r: usize)
    requires
        forest(parent@, rk),
        x < parent.len(),
    ensures
        r == label(parent@, x as int),
        r < parent.len(),
        parent[r as int] == r,
{
    let ghost cap = parent.len() as int;
    proof {
        lemma_root_is_root(parent@, rk, x as int, full(cap));
    }
    let mut r = x;
    while parent[r] != r
        invariant
            forest(parent@, rk),
            cap == parent.len(),
            r < parent.len(),
            label(parent@, r as int) == label(parent@, x as int),
        decreases cap - rk[r as int],
    {
        proof {
            let p = parent[r as int] as int;
            lemma_root_stable(parent@, rk, p, (full(cap) - 1) as nat, full(cap));
        }
        r = parent[r];
    }
    r
}

/// The accessed columns of unit `i`.
pub open spec fn columns(reads: Seq<u64>, writes: Seq<u64>, i: int) -> u64 {
    reads[i] | writes[i]
}

/// Units `a` and `b` touch a common column.
pub open spec fn share_column(reads: Seq<u64>, writes: Seq<u64>, a: int, b: int) -> bool {
    (columns(reads, writes, a) & columns(reads, writes, b)) != 0
}

/// The pairs `(a2, b2)`, `a2 < b2 < n`, that come before `(a, b)` in the scan.
pub open spec fn scanned(a2: int, b2: int, a: int, b: int, n: int) -> bool {
    &&& 0 <= a2 < b2 < n
    &&& (a2 < a || (a2 == a && b2 < b))
}

// ---------------------------------------------------------------------
// Connectivity: units joined by a walk of related units.

/// Consecutive units `k` and `k + 1` of `path` are related.
pub open spec fn hop(rel: spec_fn(int, int) -> bool, path: Seq<int>, k: int) -> bool {
    rel(path[k], path[k + 1])
}

/// `path` is a non-empty walk over units `[0, n)` whose consecutive units are
/// related by `rel`.
pub open spec fn rel_walk(rel: spec_fn(int, int) -> bool, n: int, path: Seq<int>) -> bool {
    &&& path.len() >= 1
    &&& forall|k: int| 0 <= k < path.len() ==> 0 <= #[trigger] path[k] < n
    &&& forall|k: int| 0 <= k < path.len() - 1 ==> #[trigger] hop(rel, path, k)
}

/// Units `a` and `b` are joined by a walk of related units in `[0, n)`.
pub open spec fn rel_connected(rel: spec_fn(int, int) -> bool, n: int, a: int, b: int) -> bool {
    exists|path: Seq<int>| #[trigger] rel_walk(rel, n, path) && path[0] == a && path[path.len() - 1] == b
}

/// `rel` relates `x` to `y` whenever it relates `y` to `x`.
pub open spec fn symmetric(rel: spec_fn(int, int) -> bool) -> bool {
    forall|x: int, y: int| #[trigger] rel(x, y) ==> rel(y, x)
}

proof fn lemma_conn_refl(rel: spec_fn(int, int) -> bool, n: int, x: int)
    requires
        0 <= x < n,
    ensures
        rel_connected(rel, n, x, x),
{
    let p = seq![x];
    assert(rel_walk(rel, n, p));
}

proof fn lemma_conn_edge(rel: spec_fn(int, int) -> bool, n: int, a: int, b: int)
    requires
        0 <= a < n,
        0 <= b < n,
        rel(a, b),
    ensures
        rel_connected(rel, n, a, b),
{
    let p = seq![a, b];
    assert(hop(rel, p, 0));
    assert(rel_walk(rel, n, p));
}

proof fn lemma_conn_sym(rel: spec_fn(int, int) -> bool, n: int, a: int, b: int)
    requires
        symmetric(rel),
        rel_connected(rel, n, a, b),
    ensures
        rel_connected(rel, n, b, a),
{
    let p = choose|p: Seq<int>| #[trigger] rel_walk(rel, n, p) && p[0] == a && p[p.len() - 1] == b;
    let l = p.len() as int;
    let r = Seq::new(l as nat, |i: int| p[l - 1 - i]);
    assert forall|k: int| 0 <= k < r.len() implies 0 <= #[trigger] r[k] < n by {
        assert(r[k] == p[l - 1 - k]);
    }
    assert forall|k: int| 0 <= k < r.len() - 1 implies #[trigger] hop(rel, r, k) by {
        assert(hop(rel, p, l - 2 - k));
        assert(r[k] == p[l - 1 - k] && r[k + 1] == p[l - 2 - k]);
        assert(rel(p[l - 2 - k], p[l - 1 - k]));
    }
    assert(rel_walk(rel, n, r));
    assert(r[0] == b && r[r.len() - 1] == a);
}

proof fn lemma_conn_trans(rel: spec_fn(int, int) -> bool, n: int, a: int, b: int, c: int)
    requires
        rel_connected(rel, n, a, b),
        rel_connected(rel, n, b, c),
    ensures
        rel_connected(rel, n, a, c),
{
    let p1 = choose|p: Seq<int>| #[trigger] rel_walk(rel, n, p) && p[0] == a && p[p.len() - 1] == b;
    let p2 = choose|p: Seq<int>| #[trigger] rel_walk(rel, n, p) && p[0] == b && p[p.len() - 1] == c;
    let l1 = p1.len() as int;
    let l2 = p2.len() as int;
    let q = p1 + p2.subrange(1, l2);
    assert(q.len() == l1 + l2 - 1);
    assert forall|k: int| 0 <= k < q.len() implies 0 <= #[trigger] q[k] < n by {
        if k < l1 {
            assert(q[k] == p1[k]);
        } else {
            assert(q[k] == p2[k - l1 + 1]);
        }
    }
    assert forall|k: int| 0 <= k < q.len() - 1 implies #[trigger] hop(rel, q, k) by {
        if k < l1 - 1 {
            assert(hop(rel, p1, k));
            assert(q[k] == p1[k] && q[k + 1] == p1[k + 1]);
        } else if k == l1 - 1 {
            assert(hop(rel, p2, 0));
            assert(q[k] == p2[0] && q[k + 1] == p2[1]);
        } else {
            let j = k - l1 + 1;
            assert(hop(rel, p2, j));
            assert(q[k] == p2[j] && q[k + 1] == p2[j + 1]);
        }
    }
    assert(rel_walk(rel, n, q));
    assert(q[0] == a);
    if l2 > 1 {
        assert(q[q.len() - 1] == p2[l2 - 1]);
    } else {
        assert(q[q.len() - 1] == p1[l1 - 1]);
    }
}

proof fn lemma_walk_prefix(rel: spec_fn(int, int) -> bool, n: int, lab: spec_fn(int) -> int, path: Seq<int>, k: int)
    requires
        rel_walk(rel, n, path),
        0 <= k < path.len(),
        forall|x: int, y: int| 0 <= x < n && 0 <= y < n && #[trigger] rel(x, y) ==> lab(x) == lab(y),
    ensures
        lab(path[k]) == lab(path[0]),
    decreases k,
{
    if k > 0 {
        lemma_walk_prefix(rel, n, lab, path, k - 1);
        assert(hop(rel, path, k - 1));
        assert(0 <= path[k - 1] < n && 0 <= path[k] < n);
    }
}

/// A labelling that agrees on every related pair agrees on connected units.
proof fn lemma_connected_same_label(rel: spec_fn(int, int) -> bool, n: int, lab: spec_fn(int) -> int, a: int, b: int)
    requires
        rel_connected(rel, n, a, b),
        forall|x: int, y: int| 0 <= x < n && 0 <= y < n && #[trigger] rel(x, y) ==> lab(x) == lab(y),
    ensures
        lab(a) == lab(b),
{
    let p = choose|p: Seq<int>| #[trigger] rel_walk(rel, n, p) && p[0] == a && p[p.len() - 1] == b;
    lemma_walk_prefix(rel, n, lab, p, p.len() - 1);
}

/// The relation of units that touch a common column.
pub open spec fn share_rel(reads: Seq<u64>, writes: Seq<u64>) -> spec_fn(int, int) -> bool {
    |a: int, b: int| share_column(reads, writes, a, b)
}

/// The relation of units in the same phase that conflict on a column.
pub open spec fn conflict_rel(reads: Seq<u64>, writes: Seq<u64>, phase: Seq<usize>) -> spec_fn(int, int) -> bool {
    |a: int, b: int| phase[a] == phase[b] && conflict(reads, writes, a, b)
}

pub(crate) proof fn lemma_and_comm()
    ensures
        forall|p: u64, q: u64| #[trigger] (p & q) == (q & p),
{
    assert forall|p: u64, q: u64| #[trigger] (p & q) == (q & p) by {
        assert((p & q) == (q & p)) by (bit_vector);
    }
}

proof fn lemma_share_symmetric(reads: Seq<u64>, writes: Seq<u64>)
    ensures
        symmetric(share_rel(reads, writes)),
{
    lemma_and_comm();
    assert forall|x: int, y: int| #[trigger] share_rel(reads, writes)(x, y) implies share_rel(reads, writes)(y, x) by {
        assert((columns(reads, writes, x) & columns(reads, writes, y)) == (columns(reads, writes, y) & columns(
            reads,
            writes,
            x,
        )));
    }
}

/// After linking root `rb` under root `ra`, where `a` (labelled `ra`) and `b`
/// (labelled `rb`) are related, every unit stays connected to its label.
proof fn lemma_link_connected(
    rel: spec_fn(int, int) -> bool,
    n: int,
    old_parent: Seq<usize>,
    new_parent: Seq<usize>,
    a: int,
    b: int,
    ra: int,
    rb: int,
)
    requires
        symmetric(rel),
        0 <= a < n,
        0 <= b < n,
        rel(a, b),
        label(old_parent, a) == ra,
        label(old_parent, b) == rb,
        forall|x: int| 0 <= x < n ==> #[trigger] rel_connected(rel, n, x, label(old_parent, x)),
        forall|x: int|
            0 <= x < n ==> #[trigger] label(new_parent, x) == (if label(old_parent, x) == rb {
                ra
            } else {
                label(old_parent, x)
            }),
    ensures
        forall|x: int| 0 <= x < n ==> #[trigger] rel_connected(rel, n, x, label(new_parent, x)),
{
    assert(rel_connected(rel, n, a, label(old_parent, a)));
    assert(rel_connected(rel, n, b, label(old_parent, b)));
    lemma_conn_edge(rel, n, a, b);
    lemma_conn_sym(rel, n, a, b);
    lemma_conn_sym(rel, n, b, rb);
    lemma_conn_trans(rel, n, rb, b, a);
    lemma_conn_trans(rel, n, rb, a, ra);
    assert forall|x: int| 0 <= x < n implies #[trigger] rel_connected(rel, n, x, label(new_parent, x)) by {
        assert(rel_connected(rel, n, x, label(old_parent, x)));
        assert(label(new_parent, x) == (if label(old_parent, x) == rb {
            ra
        } else {
            label(old_parent, x)
        }));
        if label(old_parent, x) == rb {
            lemma_conn_trans(rel, n, x, rb, ra);
        }
    }
}

/// Two units with the same label are connected.
proof fn lemma_same_label_connected(rel: spec_fn(int, int) -> bool, n: int, parent: Seq<usize>, a: int, b: int)
    requires
        symmetric(rel),
        0 <= a < n,
        0 <= b < n,
        label(parent, a) == label(parent, b),
        forall|x: int| 0 <= x < n ==> #[trigger] rel_connected(rel, n, x, label(parent, x)),
    ensures
        rel_connected(rel, n, a, b),
{
    assert(rel_connected(rel, n, a, label(parent, a)));
    assert(rel_connected(rel, n, b, label(parent, b)));
    lemma_conn_sym(rel, n, b, label(parent, b));
    lemma_conn_trans(rel, n, a, label(parent, a), b);
}

/// Merged trunk ids by union-find: over the first `n` units, every pair that
/// shares a column is merged (the later root is linked under the earlier
/// unit's root); slots from `n` on stay singletons. Returns each slot's root,
/// so two of the first `n` units get the same id exactly when a chain of
/// column-sharing units joins them.
pub fn compute_trunks(reads: &Vec<u64>, writes: &Vec<u64>, n: usize) -> (trunk: Vec<u64>)
    requires
        reads.len() == writes.len(),
        n <= reads.len(),
    ensures
        trunk.len() == reads.len(),
        forall|a: int, b: int|
            0 <= a < b < n && share_column(reads@, writes@, a, b) ==> #[trigger] trunk[a]
                == #[trigger] trunk[b],
        forall|k: int| 0 <= k < trunk.len() ==> #[trigger] trunk[k] < reads.len(),
        forall|k: int| 0 <= k < trunk.len() ==> trunk[trunk[k] as int] == #[trigger] trunk[k],
        forall|k: int| 0 <= k < n ==> #[trigger] trunk[k] < n,
        forall|k: int| n <= k < trunk.len() ==> #[trigger] trunk[k] == k,
        forall|a: int, b: int|
            0 <= a < n && 0 <= b < n ==> (#[trigger] trunk[a] == #[trigger] trunk[b] <==> rel_connected(
                share_rel(reads@, writes@),
                n as int,
                a,
                b,
            )),
{
    let cap = reads.len();
    let ghost rs = reads@;
    let ghost ws = writes@;
    let mut parent: Vec<usize> = Vec::new();
    let mut i: usize = 0;
    while i < cap
        invariant
            i <= cap,
            parent.len() == i,
            forall|k: int| 0 <= k < i ==> #[trigger] parent[k] == k,
        decreases cap - i,
    {
        parent.push(i);
        i = i + 1;
    }
    let ghost mut rk: Seq<nat> = Seq::new(cap as nat, |_k: int| 0nat);
    proof {
        assert forall|u: int| 0 <= u <= cap implies #[trigger] nroots(parent@, u) == u by {
            lemma_nroots_all(parent@, u);
        }
        assert forall|x: int| 0 <= x < n implies #[trigger] rel_connected(share_rel(rs, ws), n as int, x, label(parent@, x)) by {
            assert(label(parent@, x) == x);
            lemma_conn_refl(share_rel(rs, ws), n as int, x);
        }
        lemma_share_symmetric(rs, ws);
    }
    let mut a: usize = 0;
    while a < n
        invariant
            cap == reads.len() == writes.len() == rs.len(),
            rs == reads@ && ws == writes@,
            n <= cap,
            a <= n,
            parent.len() == cap,
            forest(parent@, rk),
            forall|k: int| n <= k < cap ==> #[trigger] parent[k] == k,
            forall|k: int| 0 <= k < n ==> #[trigger] parent[k] < n,
            forall|a2: int, b2: int|
                scanned(a2, b2, a as int, a as int + 1, n as int) && share_column(rs, ws, a2, b2)
                    ==> #[trigger] label(parent@, a2) == #[trigger] label(parent@, b2),
            forall|x: int| 0 <= x < n ==> #[trigger] rel_connected(share_rel(rs, ws), n as int, x, label(parent@, x)),
        decreases n - a,
    {
        let mut b = a + 1;
        while b < n
            invariant
                cap == reads.len() == writes.len() == rs.len(),
                rs == reads@ && ws == writes@,
                n <= cap,
                a < n,
                a < b <= n,
                parent.len() == cap,
                forest(parent@, rk),
                forall|k: int| n <= k < cap ==> #[trigger] parent[k] == k,
                forall|k: int| 0 <= k < n ==> #[trigger] parent[k] < n,
                forall|a2: int, b2: int|
                    scanned(a2, b2, a as int, b as int, n as int) && share_column(rs, ws, a2, b2)
                        ==> #[trigger] label(parent@, a2) == #[trigger] label(parent@, b2),
                forall|x: int|
                    0 <= x < n ==> #[trigger] rel_connected(share_rel(rs, ws), n as int, x, label(parent@, x)),
            decreases n - b,
        {
            if ((reads[a] | writes[a]) & (reads[b] | writes[b])) != 0 {
                let ra = find(&parent, a, Ghost(rk));
                let rb = find(&parent, b, Ghost(rk));
                proof {
                    lemma_label_below(parent@, rk, n as int, a as int);
                    lemma_label_below(parent@, rk, n as int, b as int);
                }
                if ra != rb {
                    let ghost old_parent = parent@;
                    let ghost old_rk = rk;
                    proof {
                        lemma_link(old_parent, old_rk, ra, rb);
                        rk = old_rk.update(ra as int, linked_rank(old_rk, ra as int, rb as int));
                    }
                    parent.set(rb, ra);
                    proof {
                        lemma_share_symmetric(rs, ws);
                        assert(share_rel(rs, ws)(a as int, b as int));
                        lemma_link_connected(
                            share_rel(rs, ws),
                            n as int,
                            old_parent,
                            parent@,
                            a as int,
                            b as int,
                            ra as int,
                            rb as int,
                        );
                        assert forall|a2: int, b2: int|
                            scanned(a2, b2, a as int, b + 1, n as int) && share_column(rs, ws, a2, b2)
                                implies #[trigger] label(parent@, a2) == #[trigger] label(parent@, b2) by {
                            if !(a2 == a && b2 == b) {
                                assert(label(old_parent, a2) == label(old_parent, b2));
                            }
                        }
                    }
                } else {
                    proof {
                        assert forall|a2: int, b2: int|
                            scanned(a2, b2, a as int, b + 1, n as int) && share_column(rs, ws, a2, b2)
                                implies #[trigger] label(parent@, a2) == #[trigger] label(parent@, b2) by {
                            if !(a2 == a && b2 == b) {
                                assert(scanned(a2, b2, a as int, b as int, n as int));
                            }
                        }
                    }
                }
            } else {
                proof {
                    assert forall|a2: int, b2: int|
                        scanned(a2, b2, a as int, b + 1, n as int) && share_column(rs, ws, a2, b2)
                            implies #[trigger] label(parent@, a2) == #[trigger] label(parent@, b2) by {
                        assert(scanned(a2, b2, a as int, b as int, n as int));
                    }
                }
            }
            b = b + 1;
        }
        proof {
            assert forall|a2: int, b2: int|
                scanned(a2, b2, a + 1, a + 2, n as int) && share_column(rs, ws, a2, b2)
                    implies #[trigger] label(parent@, a2) == #[trigger] label(parent@, b2) by {
                assert(scanned(a2, b2, a as int, n as int, n as int));
            }
        }
        a = a + 1;
    }
    let mut trunk: Vec<u64> = Vec::new();
    let mut k: usize = 0;
    while k < cap
        invariant
            cap == reads.len() == rs.len(),
            rs == reads@ && ws == writes@,
            n <= cap,
            parent.len() == cap,
            forest(parent@, rk),
            forall|q: int| n <= q < cap ==> #[trigger] parent[q] == q,
            forall|q: int| 0 <= q < n ==> #[trigger] parent[q] < n,
            forall|a2: int, b2: int|
                scanned(a2, b2, n as int, n as int + 1, n as int) && share_column(rs, ws, a2, b2)
                    ==> #[trigger] label(parent@, a2) == #[trigger] label(parent@, b2),
            forall|x: int| 0 <= x < n ==> #[trigger] rel_connected(share_rel(rs, ws), n as int, x, label(parent@, x)),
            k <= cap,
            trunk.len() == k,
            forall|q: int| 0 <= q < k ==> #[trigger] trunk[q] == label(parent@, q),
        decreases cap - k,
    {
        let r = find(&parent, k, Ghost(rk));
        trunk.push(r as u64);
        k = k + 1;
    }
    proof {
        assert forall|q: int| 0 <= q < cap implies trunk[trunk[q] as int] == #[trigger] trunk[q] by {
            lemma_root_is_root(parent@, rk, q, full(cap as int));
            let r = label(parent@, q);
            assert(label(parent@, r) == r) by {
                assert(root(parent@, r, full(cap as int)) == r);
            }
        }
        assert forall|q: int| 0 <= q < n implies #[trigger] trunk[q] < n by {
            lemma_label_below(parent@, rk, n as int, q);
        }
        assert forall|a2: int, b2: int|
            0 <= a2 < b2 < n && share_column(rs, ws, a2, b2) implies #[trigger] trunk[a2]
                == #[trigger] trunk[b2] by {
            assert(scanned(a2, b2, n as int, n as int + 1, n as int));
        }
        assert forall|q: int| n <= q < cap implies #[trigger] trunk[q] == q by {
            assert(root(parent@, q, full(cap as int)) == q);
        }
        assert forall|q: int| 0 <= q < cap implies #[trigger] trunk[q] < cap by {
            lemma_root_is_root(parent@, rk, q, full(cap as int));
        }
        lemma_share_symmetric(rs, ws);
        let lab = |x: int| trunk@[x] as int;
        assert forall|x: int, y: int| 0 <= x < n && 0 <= y < n && #[trigger] share_rel(rs, ws)(x, y) implies lab(x)
            == lab(y) by {
            if x < y {
                assert(trunk[x] == trunk[y]);
            } else if y < x {
                assert(share_rel(rs, ws)(y, x));
                assert(trunk[y] == trunk[x]);
            }
        }
        assert forall|a2: int, b2: int|
            0 <= a2 < n && 0 <= b2 < n implies (#[trigger] trunk[a2] == #[trigger] trunk[b2] <==> rel_connected(
                share_rel(rs, ws),
                n as int,
                a2,
                b2,
            )) by {
            if trunk[a2] == trunk[b2] {
                lemma_same_label_connected(share_rel(rs, ws), n as int, parent@, a2, b2);
            }
            if rel_connected(share_rel(rs, ws), n as int, a2, b2) {
                lemma_connected_same_label(share_rel(rs, ws), n as int, lab, a2, b2);
            }
        }
    }
    trunk
}

/// Units `a` and `b` conflict: one writes a column the other reads or writes.
pub open spec fn conflict(reads: Seq<u64>, writes: Seq<u64>, a: int, b: int) -> bool {
    (writes[a] & reads[b]) != 0 || (writes[a] & writes[b]) != 0 || (reads[a] & writes[b]) != 0
}

proof fn lemma_label_le(parent: Seq<usize>, x: int, f: nat)
    requires
        0 <= x < parent.len(),
        forall|k: int| 0 <= k < parent.len() ==> #[trigger] parent[k] <= k,
    ensures
        0 <= root(parent, x, f) <= x,
    decreases f,
{
    if f > 0 && parent[x] != x {
        lemma_label_le(parent, parent[x] as int, (f - 1) as nat);
    }
}

/// Units `a` and `b` are in the same phase and related: they share an
/// accessed column when `overlap`, otherwise one writes a column the other
/// reads or writes.
pub open spec fn group_rel(reads: Seq<u64>, writes: Seq<u64>, phase: Seq<u64>, overlap: bool) -> spec_fn(
    int,
    int,
) -> bool {
    |a: int, b: int|
        phase[a] == phase[b] && (if overlap {
            share_column(reads, writes, a, b)
        } else {
            conflict(reads, writes, a, b)
        })
}

proof fn lemma_group_symmetric(reads: Seq<u64>, writes: Seq<u64>, phase: Seq<u64>, overlap: bool)
    ensures
        symmetric(group_rel(reads, writes, phase, overlap)),
{
    lemma_and_comm();
    assert forall|x: int, y: int| #[trigger] group_rel(reads, writes, phase, overlap)(x, y) implies group_rel(
        reads,
        writes,
        phase,
        overlap,
    )(y, x) by {
        assert((writes[x] & reads[y]) == (reads[y] & writes[x]));
        assert((writes[x] & writes[y]) == (writes[y] & writes[x]));
        assert((reads[x] & writes[y]) == (writes[y] & reads[x]));
        assert((columns(reads, writes, x) & columns(reads, writes, y)) == (columns(reads, writes, y)
            & columns(reads, writes, x)));
    }
}

/// Connectivity carries over between relations that agree on `[0, n)`.
proof fn lemma_conn_agree(r1: spec_fn(int, int) -> bool, r2: spec_fn(int, int) -> bool, n: int, a: int, b: int)
    requires
        forall|x: int, y: int| 0 <= x < n && 0 <= y < n ==> #[trigger] r1(x, y) == r2(x, y),
        rel_connected(r1, n, a, b),
    ensures
        rel_connected(r2, n, a, b),
{
    let p = choose|p: Seq<int>| #[trigger] rel_walk(r1, n, p) && p[0] == a && p[p.len() - 1] == b;
    assert forall|k: int| 0 <= k < p.len() - 1 implies #[trigger] hop(r2, p, k) by {
        assert(hop(r1, p, k));
        assert(0 <= p[k] < n && 0 <= p[k + 1] < n);
        assert(r1(p[k], p[k + 1]) == r2(p[k], p[k + 1]));
    }
    assert(rel_walk(r2, n, p));
}

/// Roots of the same-phase groups by union-find with the smaller root kept:
/// every pair of units in the same phase that are related (sharing an accessed
/// column when `overlap`, otherwise conflicting on a written column) is
/// merged, and a merged group is labelled by its smaller root. Returns each
/// unit's root: two units share a root exactly when a chain of related
/// same-phase units joins them, and the root is the smallest unit so joined.
pub fn group_roots(reads: &Vec<u64>, writes: &Vec<u64>, phase: &Vec<u64>, overlap: bool) -> (roots: Vec<usize>)
    requires
        reads.len() == writes.len() == phase.len(),
    ensures
        roots.len() == reads.len(),
        forall|a: int, b: int|
            0 <= a < b < reads.len() && group_rel(reads@, writes@, phase@, overlap)(a, b)
                ==> #[trigger] roots[a] == #[trigger] roots[b],
        forall|k: int| 0 <= k < roots.len() ==> #[trigger] roots[k] <= k,
        forall|k: int| 0 <= k < roots.len() ==> roots[roots[k] as int] == #[trigger] roots[k],
        forall|k: int| 0 <= k < roots.len() ==> phase[roots[k] as int] == #[trigger] phase[k],
        forall|a: int, b: int|
            0 <= a < roots.len() && 0 <= b < roots.len() ==> (#[trigger] roots[a] == #[trigger] roots[b]
                <==> rel_connected(group_rel(reads@, writes@, phase@, overlap), reads.len() as int, a, b)),
        forall|k: int, j: int|
            0 <= k < roots.len() && 0 <= j < roots.len() && #[trigger] rel_connected(
                group_rel(reads@, writes@, phase@, overlap),
                reads.len() as int,
                k,
                j,
            ) ==> roots[k] <= j,
{
    let n = reads.len();
    let ghost rs = reads@;
    let ghost ws = writes@;
    let ghost ps = phase@;
    let mut parent: Vec<usize> = Vec::new();
    let mut i: usize = 0;
    while i < n
        invariant
            i <= n,
            parent.len() == i,
            forall|k: int| 0 <= k < i ==> #[trigger] parent[k] == k,
        decreases n - i,
    {
        parent.push(i);
        i = i + 1;
    }
    let ghost mut rk: Seq<nat> = Seq::new(n as nat, |_k: int| 0nat);
    proof {
        assert forall|u: int| 0 <= u <= n implies #[trigger] nroots(parent@, u) == u by {
            lemma_nroots_all(parent@, u);
        }
        assert forall|x: int| 0 <= x < n implies #[trigger] rel_connected(group_rel(rs, ws, ps, overlap), n as int, x, label(parent@, x)) by {
            assert(label(parent@, x) == x);
            lemma_conn_refl(group_rel(rs, ws, ps, overlap), n as int, x);
        }
    }
    let mut a: usize = 0;
    while a < n
        invariant
            n == reads.len() == writes.len() == phase.len(),
            rs == reads@ && ws == writes@ && ps == phase@,
            a <= n,
            parent.len() == n,
            forest(parent@, rk),
            forall|k: int| 0 <= k < n ==> #[trigger] parent[k] <= k,
            forall|x: int|
                0 <= x < n ==> #[trigger] rel_connected(group_rel(rs, ws, ps, overlap), n as int, x, label(parent@, x)),
            forall|a2: int, b2: int|
                scanned(a2, b2, a as int, a as int + 1, n as int) && group_rel(rs, ws, ps, overlap)(a2, b2) ==> #[trigger] label(parent@, a2) == #[trigger] label(parent@, b2),
        decreases n - a,
    {
        let mut b = a + 1;
        while b < n
            invariant
                n == reads.len() == writes.len() == phase.len(),
                rs == reads@ && ws == writes@ && ps == phase@,
                a < n,
                a < b <= n,
                parent.len() == n,
                forest(parent@, rk),
                forall|k: int| 0 <= k < n ==> #[trigger] parent[k] <= k,
                forall|x: int|
                    0 <= x < n ==> #[trigger] rel_connected(group_rel(rs, ws, ps, overlap), n as int, x, label(parent@, x)),
                forall|a2: int, b2: int|
                    scanned(a2, b2, a as int, b as int, n as int) && group_rel(rs, ws, ps, overlap)(a2, b2) ==> #[trigger] label(parent@, a2) == #[trigger] label(parent@, b2),
            decreases n - b,
        {
            let c = if overlap {
                ((reads[a] | writes[a]) & (reads[b] | writes[b])) != 0
            } else {
                (writes[a] & reads[b]) != 0 || (writes[a] & writes[b]) != 0 || (reads[a] & writes[b]) != 0
            };
            let same_phase = phase[a] == phase[b];
            if same_phase && c {
                let ra = find(&parent, a, Ghost(rk));
                let rb = find(&parent, b, Ghost(rk));
                let ghost old_parent = parent@;
                let ghost old_rk = rk;
                if ra < rb {
                    proof {
                        lemma_link(old_parent, old_rk, ra, rb);
                        rk = old_rk.update(ra as int, linked_rank(old_rk, ra as int, rb as int));
                    }
                    parent.set(rb, ra);
                    proof {
                        lemma_group_symmetric(rs, ws, ps, overlap);
                        assert(group_rel(rs, ws, ps, overlap)(a as int, b as int));
                        lemma_link_connected(
                            group_rel(rs, ws, ps, overlap),
                            n as int,
                            old_parent,
                            parent@,
                            a as int,
                            b as int,
                            ra as int,
                            rb as int,
                        );
                    }
                } else if rb < ra {
                    proof {
                        lemma_link(old_parent, old_rk, rb, ra);
                        rk = old_rk.update(rb as int, linked_rank(old_rk, rb as int, ra as int));
                    }
                    parent.set(ra, rb);
                    proof {
                        lemma_group_symmetric(rs, ws, ps, overlap);
                        assert(group_rel(rs, ws, ps, overlap)(a as int, b as int));
                        assert(group_rel(rs, ws, ps, overlap)(b as int, a as int));
                        lemma_link_connected(
                            group_rel(rs, ws, ps, overlap),
                            n as int,
                            old_parent,
                            parent@,
                            b as int,
                            a as int,
                            rb as int,
                            ra as int,
                        );
                    }
                }
                proof {
                    assert forall|a2: int, b2: int|
                        scanned(a2, b2, a as int, b + 1, n as int) && group_rel(rs, ws, ps, overlap)(a2, b2) implies #[trigger] label(parent@, a2) == #[trigger] label(parent@, b2) by {
                        if !(a2 == a && b2 == b) {
                            assert(label(old_parent, a2) == label(old_parent, b2));
                        }
                    }
                }
            } else {
                proof {
                    assert forall|a2: int, b2: int|
                        scanned(a2, b2, a as int, b + 1, n as int) && group_rel(rs, ws, ps, overlap)(a2, b2) implies #[trigger] label(parent@, a2) == #[trigger] label(parent@, b2) by {
                        assert(scanned(a2, b2, a as int, b as int, n as int));
                    }
                }
            }
            b = b + 1;
        }
        proof {
            assert forall|a2: int, b2: int|
                scanned(a2, b2, a + 1, a + 2, n as int) && group_rel(rs, ws, ps, overlap)(a2, b2)
                    implies #[trigger] label(parent@, a2) == #[trigger] label(parent@, b2) by {
                assert(scanned(a2, b2, a as int, n as int, n as int));
            }
        }
        a = a + 1;
    }
    let mut roots: Vec<usize> = Vec::new();
    let mut k: usize = 0;
    while k < n
        invariant
            n == reads.len() == rs.len(),
            rs == reads@ && ws == writes@ && ps == phase@,
            parent.len() == n,
            forest(parent@, rk),
            forall|q: int| 0 <= q < n ==> #[trigger] parent[q] <= q,
            forall|x: int|
                0 <= x < n ==> #[trigger] rel_connected(group_rel(rs, ws, ps, overlap), n as int, x, label(parent@, x)),
            forall|a2: int, b2: int|
                scanned(a2, b2, n as int, n as int + 1, n as int) && group_rel(rs, ws, ps, overlap)(a2, b2) ==> #[trigger] label(parent@, a2) == #[trigger] label(parent@, b2),
            k <= n,
            roots.len() == k,
            forall|q: int| 0 <= q < k ==> #[trigger] roots[q] == label(parent@, q),
        decreases n - k,
    {
        let r = find(&parent, k, Ghost(rk));
        roots.push(r);
        k = k + 1;
    }
    proof {
        assert forall|q: int| 0 <= q < n implies roots[roots[q] as int] == #[trigger] roots[q] by {
            lemma_root_is_root(parent@, rk, q, full(n as int));
            let r = label(parent@, q);
            assert(root(parent@, r, full(n as int)) == r);
        }
        assert forall|q: int| 0 <= q < n implies #[trigger] roots[q] <= q by {
            lemma_label_le(parent@, q, full(n as int));
        }
        assert forall|a2: int, b2: int|
            0 <= a2 < b2 < n && group_rel(rs, ws, ps, overlap)(a2, b2) implies #[trigger] roots[a2]
                == #[trigger] roots[b2] by {
            assert(scanned(a2, b2, n as int, n as int + 1, n as int));
        }
        lemma_group_symmetric(rs, ws, ps, overlap);
        let lab = |x: int| roots@[x] as int;
        assert forall|x: int, y: int|
            0 <= x < n && 0 <= y < n && #[trigger] group_rel(rs, ws, ps, overlap)(x, y) implies lab(x) == lab(y) by {
            if x < y {
                assert(roots[x] == roots[y]);
            } else if y < x {
                assert(group_rel(rs, ws, ps, overlap)(y, x));
                assert(roots[y] == roots[x]);
            }
        }
        assert forall|a2: int, b2: int|
            0 <= a2 < n && 0 <= b2 < n implies (#[trigger] roots[a2] == #[trigger] roots[b2] <==> rel_connected(
                group_rel(rs, ws, ps, overlap),
                n as int,
                a2,
                b2,
            )) by {
            if roots[a2] == roots[b2] {
                lemma_same_label_connected(group_rel(rs, ws, ps, overlap), n as int, parent@, a2, b2);
            }
            if rel_connected(group_rel(rs, ws, ps, overlap), n as int, a2, b2) {
                lemma_connected_same_label(group_rel(rs, ws, ps, overlap), n as int, lab, a2, b2);
            }
        }
        assert forall|k2: int, j2: int|
            0 <= k2 < n && 0 <= j2 < n && #[trigger] rel_connected(group_rel(rs, ws, ps, overlap), n as int, k2, j2)
                implies roots[k2] <= j2 by {
            lemma_connected_same_label(group_rel(rs, ws, ps, overlap), n as int, lab, k2, j2);
            assert(roots[j2] <= j2);
        }
        let plab = |x: int| ps[x] as int;
        assert forall|x: int, y: int|
            0 <= x < n && 0 <= y < n && #[trigger] group_rel(rs, ws, ps, overlap)(x, y) implies plab(x) == plab(y) by {
        }
        assert forall|q: int| 0 <= q < n implies phase[roots[q] as int] == #[trigger] phase[q] by {
            assert(roots[roots[q] as int] == roots[q]);
            assert(rel_connected(group_rel(rs, ws, ps, overlap), n as int, roots[q] as int, q));
            lemma_connected_same_label(group_rel(rs, ws, ps, overlap), n as int, plab, roots[q] as int, q);
        }
    }
    roots
}


/// Trunk roots within phases by union-find with the smaller root kept: every
/// pair of units in the same phase that conflict on a column is merged, and a
/// merged trunk is labelled by its smaller root. Returns each unit's root: two
/// units share a root exactly when a chain of same-phase conflicts joins them,
/// and the root is the smallest unit so joined.
pub fn trunk_roots(reads: &Vec<u64>, writes: &Vec<u64>, phase: &Vec<usize>) -> (roots: Vec<usize>)
    requires
        reads.len() == writes.len() == phase.len(),
    ensures
        roots.len() == reads.len(),
        forall|a: int, b: int|
            0 <= a < b < reads.len() && phase[a] == phase[b] && conflict(reads@, writes@, a, b)
                ==> #[trigger] roots[a] == #[trigger] roots[b],
        forall|k: int| 0 <= k < roots.len() ==> #[trigger] roots[k] <= k,
        forall|k: int| 0 <= k < roots.len() ==> roots[roots[k] as int] == #[trigger] roots[k],
        forall|k: int| 0 <= k < roots.len() ==> phase[roots[k] as int] == #[trigger] phase[k],
        forall|a: int, b: int|
            0 <= a < roots.len() && 0 <= b < roots.len() ==> (#[trigger] roots[a] == #[trigger] roots[b]
                <==> rel_connected(conflict_rel(reads@, writes@, phase@), reads.len() as int, a, b)),
        forall|k: int, j: int|
            0 <= k < roots.len() && 0 <= j < roots.len() && #[trigger] rel_connected(
                conflict_rel(reads@, writes@, phase@),
                reads.len() as int,
                k,
                j,
            ) ==> roots[k] <= j,
{
    let n = phase.len();
    let mut wide: Vec<u64> = Vec::new();
    let mut i: usize = 0;
    while i < n
        invariant
            n == phase.len(),
            i <= n,
            wide.len() == i,
            forall|q: int| 0 <= q < i ==> #[trigger] wide[q] == phase[q] as u64,
        decreases n - i,
    {
        wide.push(phase[i] as u64);
        i = i + 1;
    }
    let roots = group_roots(reads, writes, &wide, false);
    proof {
        let r1 = conflict_rel(reads@, writes@, phase@);
        let r2 = group_rel(reads@, writes@, wide@, false);
        assert forall|x: int, y: int| 0 <= x < n && 0 <= y < n implies #[trigger] r1(x, y) == r2(x, y) by {
            assert(wide[x] == phase[x] as u64 && wide[y] == phase[y] as u64);
        }
        assert forall|x: int, y: int| 0 <= x < n && 0 <= y < n implies #[trigger] r2(x, y) == r1(x, y) by {
            assert(r1(x, y) == r2(x, y));
        }
        assert forall|a: int, b: int|
            0 <= a < n && 0 <= b < n implies (#[trigger] roots[a] == #[trigger] roots[b] <==> rel_connected(
                r1,
                n as int,
                a,
                b,
            )) by {
            if rel_connected(r1, n as int, a, b) {
                lemma_conn_agree(r1, r2, n as int, a, b);
            }
            if rel_connected(r2, n as int, a, b) {
                lemma_conn_agree(r2, r1, n as int, a, b);
            }
        }
        assert forall|k: int, j: int|
            0 <= k < n && 0 <= j < n && #[trigger] rel_connected(r1, n as int, k, j) implies roots[k] <= j by {
            lemma_conn_agree(r1, r2, n as int, k, j);
        }
        assert forall|a: int, b: int|
            0 <= a < b < n && phase[a] == phase[b] && conflict(reads@, writes@, a, b) implies #[trigger] roots[a]
                == #[trigger] roots[b] by {
            assert(r1(a, b));
            assert(r2(a, b));
        }
        assert forall|k: int| 0 <= k < n implies phase[roots[k] as int] == #[trigger] phase[k] by {
            assert(wide[roots[k] as int] == wide[k]);
        }
    }
    roots
}

/// The trunk of the unit at `pos`: the smallest unit joined to it by a chain
/// of same-phase column conflicts. The trunk is in the unit's phase and is
/// its own trunk.
pub fn trunk_of(reads: &Vec<u64>, writes: &Vec<u64>, phase: &Vec<usize>, pos: usize) -> (r: usize)
    requires
        reads.len() == writes.len() == phase.len(),
        pos < reads.len(),
    ensures
        r <= pos,
        rel_connected(conflict_rel(reads@, writes@, phase@), reads.len() as int, pos as int, r as int),
        forall|j: int|
            0 <= j < reads.len() && #[trigger] rel_connected(
                conflict_rel(reads@, writes@, phase@),
                reads.len() as int,
                pos as int,
                j,
            ) ==> r <= j,
        phase[r as int] == phase[pos as int],
        forall|j: int|
            0 <= j < reads.len() && #[trigger] rel_connected(
                conflict_rel(reads@, writes@, phase@),
                reads.len() as int,
                r as int,
                j,
            ) ==> r <= j,
{
    let roots = trunk_roots(reads, writes, phase);
    let r = roots[pos];
    proof {
        assert(roots[r as int] == roots[pos as int]);
    }
    r
}

proof fn lemma_nroots_all(parent: Seq<usize>, u: int)
    requires
        0 <= u <= parent.len(),
        forall|k: int| 0 <= k < parent.len() ==> #[trigger] parent[k] == k,
    ensures
        nroots(parent, u) == u,
    decreases u,
{
    if u > 0 {
        lemma_nroots_all(parent, u - 1);
    }
}

/// Nodes below `n` keep their roots below `n` when their parents are below `n`.
proof fn lemma_label_below(parent: Seq<usize>, rk: Seq<nat>, n: int, x: int)
    requires
        forest(parent, rk),
        n <= parent.len(),
        0 <= x < n,
        forall|k: int| 0 <= k < n ==> #[trigger] parent[k] < n,
    ensures
        0 <= label(parent, x) < n,
{
    lemma_root_below(parent, n, x, full(parent.len() as int));
}

proof fn lemma_root_below(parent: Seq<usize>, n: int, x: int, f: nat)
    requires
        n <= parent.len(),
        0 <= x < n,
        forall|k: int| 0 <= k < n ==> #[trigger] parent[k] < n,
    ensures
        0 <= root(parent, x, f) < n,
    decreases f,
{
    if f > 0 && parent[x] != x {
        lemma_root_below(parent, n, parent[x] as int, (f - 1) as nat);
    }
}

} // verus!
