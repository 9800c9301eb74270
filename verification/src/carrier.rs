//! A three-unit carrier dispatched in dependency order.
//!
//! The builder prepends, so the registered chain A -> B -> C sits in the
//! carrier as `[C, B, A]`: anti-topological. Dispatching by the topological
//! order of the access masks runs A, then B, then C. Each unit records its tag
//! into a trace word (shifted in, first unit in the high nibble) and mixes the
//! accumulator.
use vstd::prelude::*;
use crate::topo::{kahn_order, topo, topo_order};

verus! {

/// The three accumulator mixes of the units.
pub open spec fn mix_mul(acc: u64) -> u64 {
    acc.wrapping_mul(2654435761).wrapping_add(1)
}

/// Rotation of a 64-bit word left by 7 bits.
pub open spec fn rotl7_64(x: u64) -> u64 {
    (x << 7u64) | (x >> 57u64)
}

/// Second mix: rotate left by 7, then xor a golden-ratio constant.
pub open spec fn mix_rot(acc: u64) -> u64 {
    rotl7_64(acc) ^ 0x9e3779b9
}

/// Third mix: add a constant.
pub open spec fn mix_add(acc: u64) -> u64 {
    acc.wrapping_add(0x1234567)
}

/// Shifts a 4-bit tag into the trace word.
pub open spec fn shift_in(trace: u64, tag: u64) -> u64 {
    (trace << 4u64) | tag
}

/// Records `tag` into the trace word: the earlier tags move up one nibble.
pub fn record(trace: &mut u64, tag: u64)
    ensures
        *final(trace) == shift_in(*old(trace), tag),
{
    *trace = (*trace << 4u64) | tag;
}

/// Unit A (reads S0, writes S1): multiply-add mix, tag 0xA.
pub fn run_a(acc: &mut u64, trace: &mut u64)
    ensures
        *final(acc) == mix_mul(*old(acc)),
        *final(trace) == shift_in(*old(trace), 0xA),
{
    record(trace, 0xA);
    *acc = acc.wrapping_mul(2654435761).wrapping_add(1);
}

/// Unit B (reads S1, writes S2): rotate-xor mix, tag 0xB.
pub fn run_b(acc: &mut u64, trace: &mut u64)
    ensures
        *final(acc) == mix_rot(*old(acc)),
        *final(trace) == shift_in(*old(trace), 0xB),
{
    record(trace, 0xB);
    let x = *acc;
    *acc = ((x << 7u64) | (x >> 57u64)) ^ 0x9e3779b9;
}

/// Unit C (reads S2, writes S3): additive mix, tag 0xC.
pub fn run_c(acc: &mut u64, trace: &mut u64)
    ensures
        *final(acc) == mix_add(*old(acc)),
        *final(trace) == shift_in(*old(trace), 0xC),
{
    record(trace, 0xC);
    *acc = acc.wrapping_add(0x1234567);
}

/// Read masks of the carrier `[C, B, A]`.
pub open spec fn chain_reads() -> Seq<u64> {
    seq![4u64, 2u64, 1u64]
}

/// Write masks of the carrier `[C, B, A]`.
pub open spec fn chain_writes() -> Seq<u64> {
    seq![8u64, 4u64, 2u64]
}

/// The carrier's read masks, gathered in carrier order.
pub fn carrier_reads() -> (r: Vec<u64>)
    ensures
        r@ == chain_reads(),
{
    vec![4u64, 2u64, 1u64]
}

/// The carrier's write masks, gathered in carrier order.
pub fn carrier_writes() -> (r: Vec<u64>)
    ensures
        r@ == chain_writes(),
{
    vec![8u64, 4u64, 2u64]
}

/// The accumulator mix of carrier slot `slot` (0 = C, 1 = B, 2 = A).
#[verifier::opaque]
pub open spec fn slot_mix(slot: usize, acc: u64) -> u64 {
    if slot == 0 {
        mix_add(acc)
    } else if slot == 1 {
        mix_rot(acc)
    } else {
        mix_mul(acc)
    }
}

/// The trace tag of carrier slot `slot`.
#[verifier::opaque]
pub open spec fn slot_tag(slot: usize) -> u64 {
    if slot == 0 {
        0xC
    } else if slot == 1 {
        0xB
    } else {
        0xA
    }
}

/// Accumulator after dispatching the slots of `order` in sequence.
#[verifier::opaque]
pub open spec fn acc_after(acc: u64, order: Seq<usize>) -> u64
    decreases order.len(),
{
    if order.len() == 0 {
        acc
    } else {
        slot_mix(order.last(), acc_after(acc, order.drop_last()))
    }
}

/// Trace after dispatching the slots of `order` in sequence.
#[verifier::opaque]
pub open spec fn trace_after(trace: u64, order: Seq<usize>) -> u64
    decreases order.len(),
{
    if order.len() == 0 {
        trace
    } else {
        shift_in(trace_after(trace, order.drop_last()), slot_tag(order.last()))
    }
}

/// Runs carrier slot `slot` through the local slot table `[run_c, run_b, run_a]`.
pub fn run_slot(slot: usize, acc: &mut u64, trace: &mut u64)
    requires
        slot < 3,
    ensures
        *final(acc) == slot_mix(slot, *old(acc)),
        *final(trace) == shift_in(*old(trace), slot_tag(slot)),
{
    reveal(slot_mix);
    reveal(slot_tag);
    if slot == 0 {
        run_c(acc, trace);
    } else if slot == 1 {
        run_b(acc, trace);
    } else {
        run_a(acc, trace);
    }
}

/// Dispatches the carrier slots in the given order.
pub fn dispatch_in_order(order: &Vec<usize>, acc: &mut u64, trace: &mut u64)
    requires
        forall|k: int| 0 <= k < order.len() ==> order[k] < 3,
    ensures
        *final(acc) == acc_after(*old(acc), order@),
        *final(trace) == trace_after(*old(trace), order@),
{
    proof {
        reveal(acc_after);
        reveal(trace_after);
        assert(order@.take(0) =~= Seq::<usize>::empty());
    }
    let mut k: usize = 0;
    while k < order.len()
        invariant
            k <= order.len(),
            forall|q: int| 0 <= q < order.len() ==> order[q] < 3,
            *acc == acc_after(*old(acc), order@.take(k as int)),
            *trace == trace_after(*old(trace), order@.take(k as int)),
        decreases order.len() - k,
    {
        let ghost pre = order@.take(k as int);
        proof {
            assert(order@.take(k + 1).drop_last() =~= pre);
        }
        run_slot(order[k], acc, trace);
        k = k + 1;
        proof {
            reveal(acc_after);
            reveal(trace_after);
            assert(order@.take(k as int).last() == order@[k - 1]);
        }
    }
    proof {
        assert(order@.take(order.len() as int) =~= order@);
    }
}

/// The dispatch order of the carrier, computed at run time from its masks.
#[verifier::opaque]
pub open spec fn carrier_order() -> Seq<usize> {
    Seq::new(3, |p: int| if p < kahn_order(chain_reads(), chain_writes()).len() {
        kahn_order(chain_reads(), chain_writes())[p]
    } else {
        0usize
    })
}

proof fn lemma_carrier_order_slots()
    ensures
        carrier_order().len() == 3,
        forall|k: int| 0 <= k < 3 ==> #[trigger] carrier_order()[k] < 3,
{
    reveal(carrier_order);
    crate::topo::lemma_topo_order_valid(chain_reads(), chain_writes());
}

/// Computes the dispatch order at run time from the carrier masks and
/// dispatches the carrier slots in that order.
pub fn dispatch_runtime_order(acc: &mut u64, trace: &mut u64)
    ensures
        *final(acc) == acc_after(*old(acc), carrier_order()),
        *final(trace) == trace_after(*old(trace), carrier_order()),
{
    let reads = carrier_reads();
    let writes = carrier_writes();
    let order = topo(reads.as_slice(), writes.as_slice());
    proof {
        lemma_carrier_order_slots();
        reveal(carrier_order);
        assert(order@ =~= carrier_order());
    }
    dispatch_in_order(&order, acc, trace);
}

/// The dispatch order computed by the const-style sort of the carrier masks.
pub fn carrier_order_const() -> (r: Vec<usize>)
    ensures
        r@ == carrier_order(),
{
    let reads = carrier_reads();
    let writes = carrier_writes();
    let order = topo_order(reads.as_slice(), writes.as_slice());
    proof {
        reveal(carrier_order);
        assert(order@ =~= carrier_order());
    }
    order
}

/// Dispatch through a loop over the precomputed order.
pub fn dispatch_tier_a1(acc: &mut u64, trace: &mut u64)
    ensures
        *final(acc) == acc_after(*old(acc), carrier_order()),
        *final(trace) == trace_after(*old(trace), carrier_order()),
{
    let order = carrier_order_const();
    proof {
        lemma_carrier_order_slots();
    }
    dispatch_in_order(&order, acc, trace);
}

/// Dispatch written out as three calls at the precomputed order's positions.
pub fn dispatch_tier_au(acc: &mut u64, trace: &mut u64)
    ensures
        *final(acc) == acc_after(*old(acc), carrier_order()),
        *final(trace) == trace_after(*old(trace), carrier_order()),
{
    let order = carrier_order_const();
    let ghost o = carrier_order();
    let ghost acc0 = *acc;
    let ghost trace0 = *trace;
    proof {
        lemma_carrier_order_slots();
        reveal(acc_after);
        reveal(trace_after);
        assert(o.take(0) =~= Seq::<usize>::empty());
    }
    run_slot(order[0], acc, trace);
    proof {
        reveal(acc_after);
        reveal(trace_after);
        assert(o.take(1).drop_last() =~= o.take(0));
        assert(o.take(0) =~= Seq::<usize>::empty());
        assert(acc_after(acc0, o.take(0)) == acc0);
        assert(trace_after(trace0, o.take(0)) == trace0);
        assert(o.take(1).last() == order[0]);
        assert(*acc == acc_after(acc0, o.take(1)));
        assert(*trace == trace_after(trace0, o.take(1)));
    }
    run_slot(order[1], acc, trace);
    proof {
        reveal(acc_after);
        reveal(trace_after);
        assert(o.take(2).drop_last() =~= o.take(1));
        assert(o.take(2).last() == order[1]);
        assert(*acc == acc_after(acc0, o.take(2)));
        assert(*trace == trace_after(trace0, o.take(2)));
    }
    run_slot(order[2], acc, trace);
    proof {
        reveal(acc_after);
        reveal(trace_after);
        assert(o.take(3).drop_last() =~= o.take(2));
        assert(o.take(3).last() == order[2]);
        assert(o.take(3) =~= o);
    }
}

} // verus!
