//! Dirty-mask incremental skip: a frame marks the changed inputs, the dirty
//! set grows along the dependency graph in topological order, and dispatch
//! runs only the dirty units.
use vstd::prelude::*;

verus! {

/// Number of units of the skip graph.
pub const N_UNITS: usize = 7;

/// Predecessor masks of the skip graph: units 0..2 are inputs; 3 <- 0,
/// 4 <- 3, 5 <- {1, 4} (the join), 6 <- 2.
pub open spec fn spec_preds() -> Seq<u64> {
    seq![0u64, 0u64, 0u64, 1u64, 8u64, 18u64, 4u64]
}

/// The topological order the propagation walks.
pub open spec fn spec_topo() -> Seq<usize> {
    seq![0usize, 1usize, 2usize, 3usize, 4usize, 6usize, 5usize]
}

/// The predecessor masks of the skip graph.
pub fn predecessor_masks() -> (p: Vec<u64>)
    ensures
        p@ == spec_preds(),
{
    let mut p: Vec<u64> = vec![0u64; 7];
    p.set(3, 1u64 << 0u64);
    p.set(4, 1u64 << 3u64);
    p.set(5, (1u64 << 1u64) | (1u64 << 4u64));
    p.set(6, 1u64 << 2u64);
    proof {
        assert(1u64 << 0u64 == 1u64) by (bit_vector);
        assert(1u64 << 3u64 == 8u64) by (bit_vector);
        assert((1u64 << 1u64) | (1u64 << 4u64) == 18u64) by (bit_vector);
        assert(1u64 << 2u64 == 4u64) by (bit_vector);
        assert(p@ =~= spec_preds());
    }
    p
}

/// The dirty set after the first `k` steps of the topological walk from `seed`:
/// a unit becomes dirty when one of its predecessors is dirty.
pub open spec fn propagated(seed: u64, preds: Seq<u64>, k: int) -> u64
    decreases k,
{
    if k <= 0 {
        seed
    } else {
        let d = propagated(seed, preds, k - 1);
        let i = spec_topo()[k - 1];
        if preds[i as int] & d != 0 {
            d | (1u64 << (i as u64))
        } else {
            d
        }
    }
}

/// Grows the dirty set `seed` along the dependency graph: walking the units in
/// topological order, a unit with a dirty predecessor becomes dirty.
pub fn propagate(seed: u64, preds: &Vec<u64>) -> (d: u64)
    requires
        preds.len() == N_UNITS,
    ensures
        d == propagated(seed, preds@, 7),
        d & seed == seed,
        (d & !0x7fu64) == (seed & !0x7fu64),
{
    let topo: Vec<usize> = vec![0usize, 1, 2, 3, 4, 6, 5];
    proof {
        assert(topo@ =~= spec_topo());
    }
    let mut dirty = seed;
    proof {
        assert(seed & seed == seed) by (bit_vector);
    }
    let mut k: usize = 0;
    while k < 7
        invariant
            topo@ == spec_topo(),
            preds.len() == N_UNITS,
            k <= 7,
            dirty == propagated(seed, preds@, k as int),
            dirty & seed == seed,
            (dirty & !0x7fu64) == (seed & !0x7fu64),
        decreases 7 - k,
    {
        let i = topo[k];
        if preds[i] & dirty != 0 {
            let nd = dirty | (1u64 << (i as u64));
            proof {
                let iu = i as u64;
                assert(iu < 7);
                assert(nd & seed == seed) by (bit_vector)
                    requires
                        nd == dirty | (1u64 << iu),
                        dirty & seed == seed,
                ;
                assert((nd & !0x7fu64) == (seed & !0x7fu64)) by (bit_vector)
                    requires
                        nd == dirty | (1u64 << iu),
                        iu < 7,
                        (dirty & !0x7fu64) == (seed & !0x7fu64),
                ;
            }
            dirty = nd;
        }
        k = k + 1;
    }
    dirty
}

/// Splits the units into those that run (dirty) and those skipped (clean):
/// `ran` is the dirty units' bits, `skipped` the clean units' bits; together
/// they cover every unit exactly once.
pub fn dispatch_skip(dirty: u64) -> (r: (u64, u64))
    ensures
        r.0 == dirty & 0x7fu64,
        r.1 == !dirty & 0x7fu64,
        r.0 | r.1 == 0x7fu64,
        r.0 & r.1 == 0,
{
    let mut ran: u64 = 0;
    let mut skipped: u64 = 0;
    let mut i: u64 = 0;
    proof {
        assert(dirty & (((1u64 << 0u64) - 1) as u64) == 0) by (bit_vector);
        assert(!dirty & (((1u64 << 0u64) - 1) as u64) == 0) by (bit_vector);
    }
    while i < 7
        invariant
            i <= 7,
            ran == dirty & (((1u64 << i) - 1) as u64),
            skipped == !dirty & (((1u64 << i) - 1) as u64),
        decreases 7 - i,
    {
        if dirty & (1u64 << i) != 0 {
            proof {
                assert((dirty & (((1u64 << i) - 1) as u64)) | (1u64 << i) == dirty & (((1u64 << (
                i + 1) as u64) - 1) as u64)) by (bit_vector)
                    requires
                        i < 7,
                        dirty & (1u64 << i) != 0,
                ;
                assert(!dirty & (((1u64 << i) - 1) as u64) == !dirty & (((1u64 << (i + 1) as u64)
                    - 1) as u64)) by (bit_vector)
                    requires
                        i < 7,
                        dirty & (1u64 << i) != 0,
                ;
            }
            ran = ran | (1u64 << i);
        } else {
            proof {
                assert((!dirty & (((1u64 << i) - 1) as u64)) | (1u64 << i) == !dirty & (((1u64 << (
                i + 1) as u64) - 1) as u64)) by (bit_vector)
                    requires
                        i < 7,
                        dirty & (1u64 << i) == 0,
                ;
                assert(dirty & (((1u64 << i) - 1) as u64) == dirty & (((1u64 << (i + 1) as u64)
                    - 1) as u64)) by (bit_vector)
                    requires
                        i < 7,
                        dirty & (1u64 << i) == 0,
                ;
            }
            skipped = skipped | (1u64 << i);
        }
        i = i + 1;
    }
    proof {
        assert(((1u64 << 7u64) - 1) as u64 == 0x7fu64) by (bit_vector);
        assert((dirty & 0x7fu64) | (!dirty & 0x7fu64) == 0x7fu64) by (bit_vector);
        assert((dirty & 0x7fu64) & (!dirty & 0x7fu64) == 0) by (bit_vector);
    }
    (ran, skipped)
}

/// The mask of unit `i`.
pub fn bit(i: usize) -> (r: u64)
    requires
        i < 64,
    ensures
        r == 1u64 << (i as u64),
{
    1u64 << (i as u64)
}

/// The union of the masks of the listed units.
pub open spec fn spec_set(bits: Seq<usize>) -> u64
    decreases bits.len(),
{
    if bits.len() == 0 {
        0
    } else {
        spec_set(bits.drop_last()) | (1u64 << (bits.last() as u64))
    }
}

/// The mask of a list of units.
pub fn set(bits: &Vec<usize>) -> (r: u64)
    requires
        forall|k: int| 0 <= k < bits.len() ==> #[trigger] bits[k] < 64,
    ensures
        r == spec_set(bits@),
{
    let mut a: u64 = 0;
    let mut k: usize = 0;
    while k < bits.len()
        invariant
            k <= bits.len(),
            forall|q: int| 0 <= q < bits.len() ==> #[trigger] bits[q] < 64,
            a == spec_set(bits@.take(k as int)),
        decreases bits.len() - k,
    {
        proof {
            assert(bits@.take(k + 1).drop_last() =~= bits@.take(k as int));
        }
        a = a | bit(bits[k]);
        k = k + 1;
    }
    proof {
        assert(bits@.take(bits.len() as int) =~= bits@);
    }
    a
}

/// Unit `v` is marked in the dirty set `d`.
pub open spec fn marked(d: u64, v: int) -> bool {
    d & (1u64 << (v as u64)) != 0
}

/// Every unit of `a` is in `b`.
pub open spec fn within(a: u64, b: u64) -> bool {
    a & b == a
}

/// `preds` fits the walk order: no unit has a predecessor at or after its own
/// position in the topological order.
pub open spec fn fits_topo(preds: Seq<u64>) -> bool {
    &&& preds.len() == N_UNITS
    &&& forall|k: int, m: int|
        0 <= k <= m < 7 ==> #[trigger] preds[spec_topo()[k] as int] & (1u64 << (#[trigger] spec_topo()[m] as u64))
            == 0
}

/// `d` is closed under the dependency graph: every unit with a dirty
/// predecessor is dirty.
pub open spec fn closed(d: u64, preds: Seq<u64>) -> bool {
    forall|i: int| 0 <= i < 7 && (#[trigger] preds[i] & d) != 0 ==> marked(d, i)
}

proof fn lemma_bits()
    ensures
        forall|d: u64, e: u64, p: u64| #[trigger] (d & e) == d && (p & d) != 0 ==> #[trigger] (p & e) != 0,
        forall|d: u64, e: u64, i: u64|
            i < 64 && (d & e) == d && #[trigger] (e & (1u64 << i)) != 0 ==> #[trigger] ((d | (1u64 << i)) & e)
                == (d | (1u64 << i)),
        forall|p: u64, d: u64, i: u64|
            i < 64 && (p & (1u64 << i)) == 0 ==> #[trigger] (p & (d | (1u64 << i))) == (p & d),
        forall|d: u64, i: u64| i < 64 ==> #[trigger] ((d & (d | (1u64 << i)))) == d,
        forall|d: u64, i: u64| i < 64 ==> #[trigger] ((d | (1u64 << i)) & (1u64 << i)) != 0,
        forall|a: u64, b: u64, c: u64| #[trigger] (a & b) == a && #[trigger] (b & c) == b ==> (a & c) == a,
        forall|a: u64, b: u64| #[trigger] (a & b) == a && #[trigger] (b & a) == b ==> a == b,
        forall|a: u64| #[trigger] (a & a) == a,
        forall|x: u64, e: u64, p: u64| #[trigger] (x & e) == x && #[trigger] (x & p) != 0 ==> (e & p) != 0,
{
    assert forall|x: u64, e: u64, p: u64| #[trigger] (x & e) == x && #[trigger] (x & p) != 0 implies (e & p) != 0 by {
        assert((x & e) == x && (x & p) != 0 ==> (e & p) != 0) by (bit_vector);
    }
    assert forall|d: u64, e: u64, p: u64| #[trigger] (d & e) == d && (p & d) != 0 implies #[trigger] (p & e) != 0 by {
        assert((d & e) == d && (p & d) != 0 ==> (p & e) != 0) by (bit_vector);
    }
    assert forall|d: u64, e: u64, i: u64|
        i < 64 && (d & e) == d && #[trigger] (e & (1u64 << i)) != 0 implies #[trigger] ((d | (1u64 << i)) & e)
            == (d | (1u64 << i)) by {
        assert(i < 64 && (d & e) == d && (e & (1u64 << i)) != 0 ==> ((d | (1u64 << i)) & e) == (d | (1u64
            << i))) by (bit_vector);
    }
    assert forall|p: u64, d: u64, i: u64| i < 64 && (p & (1u64 << i)) == 0 implies #[trigger] (p & (d | (1u64 << i)))
        == (p & d) by {
        assert(i < 64 && (p & (1u64 << i)) == 0 ==> (p & (d | (1u64 << i))) == (p & d)) by (bit_vector);
    }
    assert forall|d: u64, i: u64| i < 64 implies #[trigger] ((d & (d | (1u64 << i)))) == d by {
        assert(i < 64 ==> (d & (d | (1u64 << i))) == d) by (bit_vector);
    }
    assert forall|d: u64, i: u64| i < 64 implies #[trigger] ((d | (1u64 << i)) & (1u64 << i)) != 0 by {
        assert(i < 64 ==> ((d | (1u64 << i)) & (1u64 << i)) != 0) by (bit_vector);
    }
    assert forall|a: u64, b: u64, c: u64| #[trigger] (a & b) == a && #[trigger] (b & c) == b implies (a & c) == a by {
        assert((a & b) == a && (b & c) == b ==> (a & c) == a) by (bit_vector);
    }
    assert forall|a: u64, b: u64| #[trigger] (a & b) == a && #[trigger] (b & a) == b implies a == b by {
        assert((a & b) == a && (b & a) == b ==> a == b) by (bit_vector);
    }
    assert forall|a: u64| #[trigger] (a & a) == a by {
        assert((a & a) == a) by (bit_vector);
    }
}

proof fn lemma_topo_units()
    ensures
        forall|k: int| 0 <= k < 7 ==> #[trigger] spec_topo()[k] < 7,
{
}

/// The dirty set only grows along the walk, and always holds the seed.
proof fn lemma_prop_grows(seed: u64, preds: Seq<u64>, j: int, k: int)
    requires
        0 <= j <= k <= 7,
    ensures
        within(propagated(seed, preds, j), propagated(seed, preds, k)),
        within(seed, propagated(seed, preds, k)),
    decreases k,
{
    lemma_bits();
    lemma_topo_units();
    if k == 0 {
    } else {
        let jj = if j < k { j } else { k - 1 };
        lemma_prop_grows(seed, preds, jj, k - 1);
        let d = propagated(seed, preds, k - 1);
        let i = spec_topo()[k - 1] as u64;
        assert(i < 64);
        assert(within(d, propagated(seed, preds, k))) by {
            assert((d & (d | (1u64 << i))) == d);
        }
        let dk = propagated(seed, preds, k);
        assert((dk & dk) == dk);
    }
}

/// A predecessor mask's overlap with the dirty set is settled once the walk
/// reaches its unit.
proof fn lemma_prop_frozen(seed: u64, preds: Seq<u64>, k: int, m: int)
    requires
        fits_topo(preds),
        0 <= k <= m <= 7,
        k < 7,
    ensures
        preds[spec_topo()[k] as int] & propagated(seed, preds, m) == preds[spec_topo()[k] as int] & propagated(
            seed,
            preds,
            k,
        ),
    decreases m,
{
    lemma_bits();
    lemma_topo_units();
    if m > k {
        lemma_prop_frozen(seed, preds, k, m - 1);
        let i = spec_topo()[m - 1] as u64;
        assert(preds[spec_topo()[k] as int] & (1u64 << (spec_topo()[m - 1] as u64)) == 0);
        assert(i < 64);
    }
}

proof fn lemma_prop_least(seed: u64, preds: Seq<u64>, e: u64, k: int)
    requires
        within(seed, e),
        closed(e, preds),
        preds.len() == N_UNITS,
        0 <= k <= 7,
    ensures
        within(propagated(seed, preds, k), e),
    decreases k,
{
    lemma_bits();
    lemma_topo_units();
    if k > 0 {
        lemma_prop_least(seed, preds, e, k - 1);
        let d = propagated(seed, preds, k - 1);
        let i = spec_topo()[k - 1];
        if preds[i as int] & d != 0 {
            assert((preds[i as int] & e) != 0);
            assert(marked(e, i as int));
            assert(((d | (1u64 << (i as u64))) & e) == (d | (1u64 << (i as u64))));
        }
    }
}

/// The position of unit `i` in the walk order.
spec fn topo_pos(i: int) -> int {
    if i == 5 {
        6
    } else if i == 6 {
        5
    } else {
        i
    }
}

/// For any predecessor table that fits the walk order, the propagated dirty
/// set is the least closed superset of the seed: the seed and exactly its
/// transitive descendants. Hence propagation is monotone in the seed and
/// propagating twice changes nothing.
pub proof fn lemma_dirty_is_least_closure(seed: u64, preds: Seq<u64>)
    requires
        fits_topo(preds),
    ensures
        within(seed, propagated(seed, preds, 7)),
        closed(propagated(seed, preds, 7), preds),
        forall|e: u64| within(seed, e) && closed(e, preds) ==> #[trigger] within(propagated(seed, preds, 7), e),
        forall|s2: u64| within(seed, s2) ==> #[trigger] within(propagated(seed, preds, 7), propagated(s2, preds, 7)),
        propagated(propagated(seed, preds, 7), preds, 7) == propagated(seed, preds, 7),
{
    lemma_bits();
    lemma_topo_units();
    let d = propagated(seed, preds, 7);
    lemma_prop_grows(seed, preds, 7, 7);
    assert forall|i: int| 0 <= i < 7 && (#[trigger] preds[i] & d) != 0 implies marked(d, i) by {
        let k = topo_pos(i);
        assert(spec_topo()[k] == i);
        lemma_prop_frozen(seed, preds, k, 7);
        lemma_prop_grows(seed, preds, k + 1, 7);
        let dk = propagated(seed, preds, k);
        assert((preds[i] & dk) != 0);
        let b = 1u64 << (i as u64);
        assert(((dk | b) & b) != 0);
        assert(propagated(seed, preds, k + 1) == dk | b);
        assert((propagated(seed, preds, k + 1) & d) == propagated(seed, preds, k + 1));
        assert((propagated(seed, preds, k + 1) & b) != 0);
    }
    assert forall|e: u64| within(seed, e) && closed(e, preds) implies #[trigger] within(d, e) by {
        lemma_prop_least(seed, preds, e, 7);
    }
    assert forall|s2: u64| within(seed, s2) implies #[trigger] within(d, propagated(s2, preds, 7)) by {
        lemma_prop_grows(s2, preds, 7, 7);
        assert forall|i: int| 0 <= i < 7 && (#[trigger] preds[i] & propagated(s2, preds, 7)) != 0 implies marked(
            propagated(s2, preds, 7),
            i,
        ) by {
            let k = topo_pos(i);
            let d2 = propagated(s2, preds, 7);
            assert(spec_topo()[k] == i);
            lemma_prop_frozen(s2, preds, k, 7);
            lemma_prop_grows(s2, preds, k + 1, 7);
            let dk = propagated(s2, preds, k);
            let b = 1u64 << (i as u64);
            assert(((dk | b) & b) != 0);
            assert(propagated(s2, preds, k + 1) == dk | b);
            assert((propagated(s2, preds, k + 1) & d2) == propagated(s2, preds, k + 1));
            assert((propagated(s2, preds, k + 1) & b) != 0);
        }
        lemma_prop_least(seed, preds, propagated(s2, preds, 7), 7);
    }
    let dd = propagated(d, preds, 7);
    lemma_prop_grows(d, preds, 7, 7);
    assert((d & d) == d);
    lemma_prop_least(d, preds, d, 7);
}

} // verus!
