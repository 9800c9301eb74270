//! Per-fiber dispatch: the topological order cut into fibers, each fiber run as
//! its own loop nest over the morsels.
//!
//! Walking the order, a fiber grows while the next unit consumes a column the
//! fiber writes and neither the fiber's first unit nor the next unit is an
//! accumulator. A fiber without an accumulator runs morsel-outer (each morsel
//! runs the whole fiber); an accumulator fiber runs unit-outer (each unit
//! completes every morsel first).
use vstd::prelude::*;
use crate::topo::{kahn_order, topo};
use crate::carrier::{mix_add, mix_mul, mix_rot};

verus! {

/// End (exclusive) of the fiber starting at `k`, scanning from `nk` with the
/// fiber's written columns `pw`.
pub open spec fn fiber_end(
    order: Seq<usize>,
    reads: Seq<u64>,
    writes: Seq<u64>,
    is_accum: Seq<bool>,
    k: int,
    nk: int,
    pw: u64,
) -> int
    decreases order.len() - nk,
{
    if nk >= order.len() {
        order.len() as int
    } else {
        let nu = order[nk] as int;
        if (pw & reads[nu]) != 0 && !is_accum[order[k] as int] && !is_accum[nu] {
            fiber_end(order, reads, writes, is_accum, k, nk + 1, pw | writes[nu])
        } else {
            nk
        }
    }
}

/// Start of fiber `f` in the order; `order.len()` once the fibers are used up.
pub open spec fn fiber_start(
    order: Seq<usize>,
    reads: Seq<u64>,
    writes: Seq<u64>,
    is_accum: Seq<bool>,
    f: nat,
) -> int
    decreases f,
{
    if f == 0 {
        0
    } else {
        let s = fiber_start(order, reads, writes, is_accum, (f - 1) as nat);
        if s >= order.len() {
            order.len() as int
        } else {
            fiber_end(order, reads, writes, is_accum, s, s + 1, writes[order[s] as int])
        }
    }
}

/// The inputs the grouping reads are consistent: one mask pair and one
/// accumulator flag per carrier slot, and the order names carrier slots.
pub open spec fn fiber_inputs_ok(
    order: Seq<usize>,
    reads: Seq<u64>,
    writes: Seq<u64>,
    is_accum: Seq<bool>,
) -> bool {
    &&& reads.len() == writes.len() == is_accum.len()
    &&& forall|k: int| 0 <= k < order.len() ==> #[trigger] order[k] < reads.len()
}

proof fn lemma_fiber_end_bounds(
    order: Seq<usize>,
    reads: Seq<u64>,
    writes: Seq<u64>,
    is_accum: Seq<bool>,
    k: int,
    nk: int,
    pw: u64,
)
    requires
        nk <= order.len(),
    ensures
        nk <= fiber_end(order, reads, writes, is_accum, k, nk, pw) <= order.len(),
    decreases order.len() - nk,
{
    if nk < order.len() {
        let nu = order[nk] as int;
        if (pw & reads[nu]) != 0 && !is_accum[order[k] as int] && !is_accum[nu] {
            lemma_fiber_end_bounds(order, reads, writes, is_accum, k, nk + 1, pw | writes[nu]);
        }
    }
}

proof fn lemma_fiber_end_accum(
    order: Seq<usize>,
    reads: Seq<u64>,
    writes: Seq<u64>,
    is_accum: Seq<bool>,
    k: int,
    nk: int,
    pw: u64,
)
    requires
        0 <= k < nk <= order.len(),
    ensures
        forall|p: int|
            nk <= p < fiber_end(order, reads, writes, is_accum, k, nk, pw) ==> !#[trigger] is_accum[order[p] as int],
        is_accum[order[k] as int] ==> fiber_end(order, reads, writes, is_accum, k, nk, pw) == nk,
    decreases order.len() - nk,
{
    if nk < order.len() {
        let nu = order[nk] as int;
        if (pw & reads[nu]) != 0 && !is_accum[order[k] as int] && !is_accum[nu] {
            lemma_fiber_end_accum(order, reads, writes, is_accum, k, nk + 1, pw | writes[nu]);
        }
    }
}

/// Accumulators run alone: a fiber that holds an accumulator unit holds
/// nothing else (it is one unit long), so an accumulator never joins a fiber
/// started by another unit and no unit joins an accumulator's fiber.
pub proof fn lemma_accumulators_run_alone(
    order: Seq<usize>,
    reads: Seq<u64>,
    writes: Seq<u64>,
    is_accum: Seq<bool>,
    f: nat,
)
    ensures
        forall|p: int|
            fiber_start(order, reads, writes, is_accum, f) <= p < fiber_start(order, reads, writes, is_accum, f + 1)
                && #[trigger] is_accum[order[p] as int] ==> fiber_start(order, reads, writes, is_accum, f + 1)
                == fiber_start(order, reads, writes, is_accum, f) + 1,
{
    let s = fiber_start(order, reads, writes, is_accum, f);
    lemma_fiber_starts(order, reads, writes, is_accum, f);
    if s < order.len() {
        lemma_fiber_end_accum(order, reads, writes, is_accum, s, s + 1, writes[order[s] as int]);
    }
}

/// Fiber starts increase strictly until they reach the end of the order, which
/// they do within `order.len()` fibers: the fibers tile the order.
pub proof fn lemma_fiber_starts(
    order: Seq<usize>,
    reads: Seq<u64>,
    writes: Seq<u64>,
    is_accum: Seq<bool>,
    f: nat,
)
    ensures
        0 <= fiber_start(order, reads, writes, is_accum, f) <= order.len(),
        fiber_start(order, reads, writes, is_accum, f) < order.len() ==> fiber_start(
            order,
            reads,
            writes,
            is_accum,
            f + 1,
        ) > fiber_start(order, reads, writes, is_accum, f),
        fiber_start(order, reads, writes, is_accum, f) >= order.len() ==> fiber_start(
            order,
            reads,
            writes,
            is_accum,
            f + 1,
        ) == order.len(),
        fiber_start(order, reads, writes, is_accum, f) >= f || fiber_start(
            order,
            reads,
            writes,
            is_accum,
            f,
        ) == order.len(),
    decreases f,
{
    let s = fiber_start(order, reads, writes, is_accum, f);
    if f > 0 {
        lemma_fiber_starts(order, reads, writes, is_accum, (f - 1) as nat);
        let sp = fiber_start(order, reads, writes, is_accum, (f - 1) as nat);
        if sp < order.len() {
            lemma_fiber_end_bounds(order, reads, writes, is_accum, sp, sp + 1, writes[order[sp] as int]);
        }
    }
    if s < order.len() {
        lemma_fiber_end_bounds(order, reads, writes, is_accum, s, s + 1, writes[order[s] as int]);
    }
}

/// Cuts the dispatch order into fibers. Returns, per fiber, its start position
/// in the order, its length and whether it is morsel-local (has no
/// accumulator), and the fiber count; entries past the count stay 0 / false.
pub fn group_fibers(order: &Vec<usize>, reads: &Vec<u64>, writes: &Vec<u64>, is_accum: &Vec<bool>) -> (r: (
    Vec<usize>,
    Vec<usize>,
    Vec<bool>,
    usize,
))
    requires
        order.len() == reads.len(),
        fiber_inputs_ok(order@, reads@, writes@, is_accum@),
    ensures
        r.0.len() == order.len() && r.1.len() == order.len() && r.2.len() == order.len(),
        r.3 <= order.len(),
        fiber_start(order@, reads@, writes@, is_accum@, r.3 as nat) == order.len(),
        forall|f: int|
            0 <= f < r.3 ==> #[trigger] fiber_start(order@, reads@, writes@, is_accum@, f as nat)
                < order.len(),
        forall|f: int|
            0 <= f < r.3 ==> #[trigger] r.0[f] == fiber_start(
                order@,
                reads@,
                writes@,
                is_accum@,
                f as nat,
            ) && r.1[f] == fiber_start(order@, reads@, writes@, is_accum@, (f + 1) as nat)
                - fiber_start(order@, reads@, writes@, is_accum@, f as nat) && r.2[f]
                == !is_accum[order[r.0[f] as int] as int],
        forall|f: int| r.3 <= f < order.len() ==> #[trigger] r.0[f] == 0,
        forall|f: int| r.3 <= f < order.len() ==> #[trigger] r.1[f] == 0,
        forall|f: int| r.3 <= f < order.len() ==> !#[trigger] r.2[f],
{
    let n = order.len();
    let ghost os = order@;
    let ghost rs = reads@;
    let ghost ws = writes@;
    let ghost ac = is_accum@;
    let mut fstart: Vec<usize> = vec![0usize; n];
    let mut flen: Vec<usize> = vec![0usize; n];
    let mut flocal: Vec<bool> = vec![false; n];
    let mut fc: usize = 0;
    let mut k: usize = 0;
    while k < n
        invariant
            n == os.len() == rs.len(),
            os == order@,
            rs == reads@,
            ws == writes@,
            ac == is_accum@,
            fiber_inputs_ok(os, rs, ws, ac),
            fstart.len() == n && flen.len() == n && flocal.len() == n,
            k <= n,
            fc <= k,
            k == fiber_start(os, rs, ws, ac, fc as nat),
            forall|f: int| 0 <= f < fc ==> #[trigger] fiber_start(os, rs, ws, ac, f as nat) < n,
            forall|f: int|
                0 <= f < fc ==> #[trigger] fstart[f] == fiber_start(os, rs, ws, ac, f as nat)
                    && flen[f] == fiber_start(os, rs, ws, ac, (f + 1) as nat) - fiber_start(
                    os,
                    rs,
                    ws,
                    ac,
                    f as nat,
                ) && flocal[f] == !ac[os[fstart[f] as int] as int],
            forall|f: int| fc <= f < n ==> #[trigger] fstart[f] == 0,
            forall|f: int| fc <= f < n ==> #[trigger] flen[f] == 0,
            forall|f: int| fc <= f < n ==> !#[trigger] flocal[f],
        decreases n - k,
    {
        let u = order[k];
        fstart.set(fc, k);
        let mut len: usize = 1;
        let fiber_accum = is_accum[u];
        let mut prev_writes = writes[u];
        let mut nk = k + 1;
        while nk < n
            invariant_except_break
                fiber_end(os, rs, ws, ac, k as int, k + 1, ws[u as int]) == fiber_end(
                    os,
                    rs,
                    ws,
                    ac,
                    k as int,
                    nk as int,
                    prev_writes,
                ),
            invariant
                n == os.len() == rs.len(),
                os == order@,
                rs == reads@,
                ws == writes@,
                ac == is_accum@,
                fiber_inputs_ok(os, rs, ws, ac),
                k < nk <= n,
                len == nk - k,
                u == os[k as int],
                fiber_accum == ac[u as int],
            ensures
                fiber_end(os, rs, ws, ac, k as int, k + 1, ws[u as int]) == nk,
                k < nk <= n,
                len == nk - k,
            decreases n - nk,
        {
            let nu = order[nk];
            let chains = (prev_writes & reads[nu]) != 0;
            if chains && !fiber_accum && !is_accum[nu] {
                len = len + 1;
                prev_writes = prev_writes | writes[nu];
                nk = nk + 1;
            } else {
                break;
            }
        }
        flen.set(fc, len);
        flocal.set(fc, !fiber_accum);
        proof {
            lemma_fiber_starts(os, rs, ws, ac, fc as nat);
            assert(fiber_start(os, rs, ws, ac, (fc + 1) as nat) == nk);
            assert forall|f: int|
                0 <= f < fc + 1 implies #[trigger] fstart[f] == fiber_start(os, rs, ws, ac, f as nat)
                    && flen[f] == fiber_start(os, rs, ws, ac, (f + 1) as nat) - fiber_start(
                    os,
                    rs,
                    ws,
                    ac,
                    f as nat,
                ) && flocal[f] == !ac[os[fstart[f] as int] as int] by {
                if f == fc {
                    assert(fstart[f] == k);
                }
            }
            assert forall|f: int| fc + 1 <= f < n implies #[trigger] fstart[f] == 0 by {
                assert(f != fc);
            }
            assert forall|f: int| fc + 1 <= f < n implies #[trigger] flen[f] == 0 by {
                assert(f != fc);
            }
            assert forall|f: int| fc + 1 <= f < n implies !#[trigger] flocal[f] by {
                assert(f != fc);
            }
        }
        fc = fc + 1;
        k = k + len;
    }
    proof {
        lemma_fiber_starts(os, rs, ws, ac, fc as nat);
    }
    (fstart, flen, flocal, fc)
}

/// A trace of dispatch tags packed four bits each into one word (the first
/// tag in the low nibble, room for sixteen), with the count of records.
pub struct NibbleTrace {
    pub word: u64,
    pub len: u64,
}

/// The trace after recording `tag`.
pub open spec fn nibble_record(t: NibbleTrace, tag: u64) -> NibbleTrace {
    NibbleTrace {
        word: if t.len < 16 {
            t.word | (tag << ((t.len * 4) as u64))
        } else {
            t.word
        },
        len: t.len.wrapping_add(1),
    }
}

impl NibbleTrace {
    /// An empty trace.
    pub fn new() -> (r: NibbleTrace)
        ensures
            r.word == 0,
            r.len == 0,
    {
        NibbleTrace { word: 0, len: 0 }
    }

    /// Records `tag` in the next free nibble; records past the sixteenth are
    /// counted but not stored.
    pub fn record(&mut self, tag: u64)
        ensures
            *final(self) == nibble_record(*old(self), tag),
    {
        let i = self.len;
        self.len = i.wrapping_add(1);
        if i < 16 {
            self.word = self.word | (tag << (i * 4));
        }
    }
}

/// Accumulator mix of carrier slot `slot` of the carrier `[A, C, P]`.
#[verifier::opaque]
pub open spec fn fiber_mix(slot: usize, acc: u64) -> u64 {
    if slot == 0 {
        mix_add(acc)
    } else if slot == 1 {
        mix_rot(acc)
    } else {
        mix_mul(acc)
    }
}

/// Trace tag of carrier slot `slot` (A = 0xA, C = 0xC, P = 0xB).
#[verifier::opaque]
pub open spec fn fiber_tag(slot: usize) -> u64 {
    if slot == 0 {
        0xA
    } else if slot == 1 {
        0xC
    } else {
        0xB
    }
}

/// Unit A, the accumulator: additive mix, tag 0xA.
pub fn run_a(acc: &mut u64, trace: &mut NibbleTrace, _m: usize)
    ensures
        *final(acc) == mix_add(*old(acc)),
        *final(trace) == nibble_record(*old(trace), 0xA),
{
    trace.record(0xA);
    *acc = acc.wrapping_add(0x1234567);
}

/// Unit C, the consumer: rotate-xor mix, tag 0xC.
pub fn run_c(acc: &mut u64, trace: &mut NibbleTrace, _m: usize)
    ensures
        *final(acc) == mix_rot(*old(acc)),
        *final(trace) == nibble_record(*old(trace), 0xC),
{
    trace.record(0xC);
    let x = *acc;
    *acc = ((x << 7u64) | (x >> 57u64)) ^ 0x9e3779b9;
}

/// Unit P, the producer: multiply-add mix, tag 0xB.
pub fn run_p(acc: &mut u64, trace: &mut NibbleTrace, _m: usize)
    ensures
        *final(acc) == mix_mul(*old(acc)),
        *final(trace) == nibble_record(*old(trace), 0xB),
{
    trace.record(0xB);
    *acc = acc.wrapping_mul(2654435761).wrapping_add(1);
}

/// Runs carrier slot `slot` through the slot table `[run_a, run_c, run_p]`.
pub fn run_fiber_slot(slot: usize, acc: &mut u64, trace: &mut NibbleTrace, m: usize)
    requires
        slot < 3,
    ensures
        *final(acc) == fiber_mix(slot, *old(acc)),
        *final(trace) == nibble_record(*old(trace), fiber_tag(slot)),
{
    reveal(fiber_mix);
    reveal(fiber_tag);
    if slot == 0 {
        run_a(acc, trace, m);
    } else if slot == 1 {
        run_c(acc, trace, m);
    } else {
        run_p(acc, trace, m);
    }
}

/// Accumulator after running the slots of `s` in sequence.
#[verifier::opaque]
pub open spec fn fold_acc(acc: u64, s: Seq<usize>) -> u64
    decreases s.len(),
{
    if s.len() == 0 {
        acc
    } else {
        fiber_mix(s.last(), fold_acc(acc, s.drop_last()))
    }
}

/// Trace after running the slots of `s` in sequence.
#[verifier::opaque]
pub open spec fn fold_trace(t: NibbleTrace, s: Seq<usize>) -> NibbleTrace
    decreases s.len(),
{
    if s.len() == 0 {
        t
    } else {
        nibble_record(fold_trace(t, s.drop_last()), fiber_tag(s.last()))
    }
}

proof fn lemma_fold_push(acc: u64, t: NibbleTrace, s: Seq<usize>, slot: usize)
    ensures
        fold_acc(acc, s.push(slot)) == fiber_mix(slot, fold_acc(acc, s)),
        fold_trace(t, s.push(slot)) == nibble_record(fold_trace(t, s), fiber_tag(slot)),
{
    reveal(fold_acc);
    reveal(fold_trace);
    assert(s.push(slot).drop_last() =~= s);
}

/// Morsel-outer run of positions `[s, e)` of the order for `m` morsels: each
/// morsel runs the whole span.
pub open spec fn morsel_outer(order: Seq<usize>, s: int, e: int, m: nat) -> Seq<usize>
    decreases m,
{
    if m == 0 {
        Seq::empty()
    } else {
        morsel_outer(order, s, e, (m - 1) as nat) + order.subrange(s, e)
    }
}

/// Unit-outer run of positions `[s, k)` of the order: each unit runs all
/// `morsels` morsels before the next.
pub open spec fn unit_outer(order: Seq<usize>, s: int, k: int, morsels: nat) -> Seq<usize>
    decreases k - s,
{
    if k <= s {
        Seq::empty()
    } else {
        unit_outer(order, s, k - 1, morsels) + Seq::new(morsels, |_i: int| order[k - 1])
    }
}

/// The slots run by fibers `[0, f)` in the per-fiber body.
pub open spec fn fibers_run(
    order: Seq<usize>,
    reads: Seq<u64>,
    writes: Seq<u64>,
    is_accum: Seq<bool>,
    morsels: nat,
    f: nat,
) -> Seq<usize>
    decreases f,
{
    if f == 0 {
        Seq::empty()
    } else {
        let s = fiber_start(order, reads, writes, is_accum, (f - 1) as nat);
        let e = fiber_start(order, reads, writes, is_accum, f);
        let prev = fibers_run(order, reads, writes, is_accum, morsels, (f - 1) as nat);
        if s >= order.len() {
            prev
        } else if !is_accum[order[s] as int] {
            prev + morsel_outer(order, s, e, morsels)
        } else {
            prev + unit_outer(order, s, e, morsels)
        }
    }
}

proof fn lemma_fibers_run_done(
    order: Seq<usize>,
    reads: Seq<u64>,
    writes: Seq<u64>,
    is_accum: Seq<bool>,
    morsels: nat,
    fc: nat,
    f: nat,
)
    requires
        fc <= f,
        fiber_start(order, reads, writes, is_accum, fc) == order.len(),
    ensures
        fibers_run(order, reads, writes, is_accum, morsels, f) == fibers_run(
            order,
            reads,
            writes,
            is_accum,
            morsels,
            fc,
        ),
        fiber_start(order, reads, writes, is_accum, f) == order.len(),
    decreases f - fc,
{
    if f > fc {
        lemma_fibers_run_done(order, reads, writes, is_accum, morsels, fc, (f - 1) as nat);
        lemma_fiber_starts(order, reads, writes, is_accum, (f - 1) as nat);
    }
}

/// Read masks of the carrier `[A, C, P]`.
pub open spec fn fiber_reads() -> Seq<u64> {
    seq![1u64, 2u64, 1u64]
}

/// Write masks of the carrier `[A, C, P]`.
pub open spec fn fiber_writes() -> Seq<u64> {
    seq![4u64, 0u64, 2u64]
}

/// Which slots of the carrier `[A, C, P]` write an accumulator.
pub open spec fn fiber_accums() -> Seq<bool> {
    seq![true, false, false]
}

/// The dispatch order of the carrier `[A, C, P]`.
#[verifier::opaque]
pub open spec fn fiber_order() -> Seq<usize> {
    Seq::new(3, |p: int| if p < kahn_order(fiber_reads(), fiber_writes()).len() {
        kahn_order(fiber_reads(), fiber_writes())[p]
    } else {
        0usize
    })
}

/// The slots the per-fiber body runs, in order, for `morsels` morsels.
pub open spec fn per_fiber_run(morsels: nat) -> Seq<usize> {
    fibers_run(fiber_order(), fiber_reads(), fiber_writes(), fiber_accums(), morsels, 3)
}

/// The per-core body: computes the dispatch order and the fibers of the
/// carrier `[A, C, P]`, then runs each fiber as its own loop nest over
/// `morsels` morsels (morsel-outer for an accumulator-free fiber, unit-outer
/// for an accumulator fiber).
pub fn dispatch_per_fiber(acc: &mut u64, trace: &mut NibbleTrace, morsels: usize)
    ensures
        *final(acc) == fold_acc(*old(acc), per_fiber_run(morsels as nat)),
        *final(trace) == fold_trace(*old(trace), per_fiber_run(morsels as nat)),
{
    let reads: Vec<u64> = vec![1u64, 2u64, 1u64];
    let writes: Vec<u64> = vec![4u64, 0u64, 2u64];
    let is_accum: Vec<bool> = vec![true, false, false];
    let order = topo(reads.as_slice(), writes.as_slice());
    proof {
        assert(reads@ =~= fiber_reads());
        assert(writes@ =~= fiber_writes());
        assert(is_accum@ =~= fiber_accums());
        reveal(fiber_order);
        assert(order@ =~= fiber_order());
        crate::topo::lemma_topo_order_valid(fiber_reads(), fiber_writes());
        assert forall|k: int| 0 <= k < order.len() implies #[trigger] order[k] < 3 by {
        }
    }
    let (fstart, flen, flocal, fc) = group_fibers(&order, &reads, &writes, &is_accum);
    let ghost os = order@;
    let ghost rs = reads@;
    let ghost ws = writes@;
    let ghost ac = is_accum@;
    let ghost acc0 = *acc;
    let ghost trace0 = *trace;
    let ghost mut ran: Seq<usize> = Seq::empty();
    proof {
        reveal(fold_acc);
        reveal(fold_trace);
    }
    let mut fi: usize = 0;
    while fi < fc
        invariant
            os == order@ && rs == reads@ && ws == writes@ && ac == is_accum@,
            os.len() == 3 && rs.len() == 3 && ac.len() == 3,
            forall|k: int| 0 <= k < 3 ==> #[trigger] os[k] < 3,
            fstart.len() == 3 && flen.len() == 3 && flocal.len() == 3,
            fc <= 3,
            fi <= fc,
            forall|f: int| 0 <= f < fc ==> #[trigger] fiber_start(os, rs, ws, ac, f as nat) < 3,
            forall|f: int|
                0 <= f < fc ==> #[trigger] fstart[f] == fiber_start(os, rs, ws, ac, f as nat)
                    && flen[f] == fiber_start(os, rs, ws, ac, (f + 1) as nat) - fiber_start(
                    os,
                    rs,
                    ws,
                    ac,
                    f as nat,
                ) && flocal[f] == !ac[os[fstart[f] as int] as int],
            ran == fibers_run(os, rs, ws, ac, morsels as nat, fi as nat),
            *acc == fold_acc(acc0, ran),
            *trace == fold_trace(trace0, ran),
        decreases fc - fi,
    {
        let start = fstart[fi];
        proof {
            lemma_fiber_starts(os, rs, ws, ac, fi as nat);
            lemma_fiber_starts(os, rs, ws, ac, (fi + 1) as nat);
        }
        let end = start + flen[fi];
        let ghost base = ran;
        if flocal[fi] {
            let mut m: usize = 0;
            while m < morsels
                invariant
                    os == order@,
                    os.len() == 3,
                    forall|k: int| 0 <= k < 3 ==> #[trigger] os[k] < 3,
                    start < end <= 3,
                    m <= morsels,
                    ran == base + morsel_outer(os, start as int, end as int, m as nat),
                    *acc == fold_acc(acc0, ran),
                    *trace == fold_trace(trace0, ran),
                decreases morsels - m,
            {
                let mut k = start;
                let ghost mid = ran;
                while k < end
                    invariant
                        os == order@,
                        os.len() == 3,
                        forall|q: int| 0 <= q < 3 ==> #[trigger] os[q] < 3,
                        start <= k <= end <= 3,
                        ran == mid + os.subrange(start as int, k as int),
                        *acc == fold_acc(acc0, ran),
                        *trace == fold_trace(trace0, ran),
                    decreases end - k,
                {
                    proof {
                        lemma_fold_push(acc0, trace0, ran, os[k as int]);
                        assert(mid + os.subrange(start as int, k + 1) =~= (mid + os.subrange(
                            start as int,
                            k as int,
                        )).push(os[k as int]));
                        ran = ran.push(os[k as int]);
                    }
                    run_fiber_slot(order[k], acc, trace, m);
                    k = k + 1;
                }
                proof {
                    assert(base + morsel_outer(os, start as int, end as int, (m + 1) as nat) =~= base
                        + morsel_outer(os, start as int, end as int, m as nat) + os.subrange(
                        start as int,
                        end as int,
                    ));
                }
                m = m + 1;
            }
        } else {
            let mut k = start;
            while k < end
                invariant
                    os == order@,
                    os.len() == 3,
                    forall|q: int| 0 <= q < 3 ==> #[trigger] os[q] < 3,
                    start <= k <= end <= 3,
                    ran == base + unit_outer(os, start as int, k as int, morsels as nat),
                    *acc == fold_acc(acc0, ran),
                    *trace == fold_trace(trace0, ran),
                decreases end - k,
            {
                let mut m: usize = 0;
                let ghost mid = ran;
                while m < morsels
                    invariant
                        os == order@,
                        os.len() == 3,
                        forall|q: int| 0 <= q < 3 ==> #[trigger] os[q] < 3,
                        start <= k < end <= 3,
                        m <= morsels,
                        ran == mid + Seq::new(m as nat, |_i: int| os[k as int]),
                        *acc == fold_acc(acc0, ran),
                        *trace == fold_trace(trace0, ran),
                    decreases morsels - m,
                {
                    proof {
                        lemma_fold_push(acc0, trace0, ran, os[k as int]);
                        assert(mid + Seq::new((m + 1) as nat, |_i: int| os[k as int]) =~= (mid
                            + Seq::new(m as nat, |_i: int| os[k as int])).push(os[k as int]));
                        ran = ran.push(os[k as int]);
                    }
                    run_fiber_slot(order[k], acc, trace, m);
                    m = m + 1;
                }
                proof {
                    assert(base + unit_outer(os, start as int, k + 1, morsels as nat) =~= base
                        + unit_outer(os, start as int, k as int, morsels as nat) + Seq::new(
                        morsels as nat,
                        |_i: int| os[k as int],
                    ));
                }
                k = k + 1;
            }
        }
        proof {
            assert(ran == fibers_run(os, rs, ws, ac, morsels as nat, (fi + 1) as nat));
        }
        fi = fi + 1;
    }
    proof {
        lemma_fibers_run_done(os, rs, ws, ac, morsels as nat, fc as nat, 3);
        assert(os == fiber_order());
    }
}

} // verus!
