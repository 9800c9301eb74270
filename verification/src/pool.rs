//! The persistent worker pool's frame protocol. Each frame the driver
//! publishes the frame value and bumps the sequence word; every spawned worker
//! that sees a new sequence runs its chunk of the carrier (if its core takes
//! part) and counts itself done; the last one wakes the driver. Parking and
//! waking are done by the caller around these steps.
use vstd::prelude::*;
use crate::morsel::core_chunk;

verus! {

/// The value record `i` holds after frame `frame_val`.
pub open spec fn spec_expected(frame_val: u64, i: int) -> u64 {
    frame_val.wrapping_mul(1000).wrapping_add(i as u64)
}

/// The value record `i` holds after frame `frame_val`: `frame_val * 1000 + i`
/// (wrapping).
pub fn expected(frame_val: u32, i: usize) -> (r: u64)
    ensures
        r == spec_expected(frame_val as u64, i as int),
{
    (frame_val as u64).wrapping_mul(1000).wrapping_add(i as u64)
}

/// Record `i` lies in core `core`'s chunk of `n` records over `ncores` cores:
/// `n / ncores` records each, the last core also takes the remainder.
pub open spec fn in_chunk(n: int, ncores: int, core: int, i: int) -> bool {
    core * (n / ncores) <= i && (i < (core + 1) * (n / ncores) || core + 1 == ncores)
}

/// One core's share of a frame: the records of its chunk of the carrier get
/// the frame's value; the other records are untouched.
pub fn dispatch_core(carrier: &mut Vec<u64>, core_id: usize, ncores: usize, frame_val: u64)
    requires
        core_id < ncores,
    ensures
        final(carrier).len() == old(carrier).len(),
        forall|i: int|
            0 <= i < old(carrier).len() ==> #[trigger] final(carrier)[i] == (if in_chunk(
                old(carrier).len() as int,
                ncores as int,
                core_id as int,
                i,
            ) {
                spec_expected(frame_val, i)
            } else {
                old(carrier)[i]
            }),
        final(carrier)@ == core_effect(old(carrier)@, ncores as int, core_id as int, frame_val),
{
    let n = carrier.len();
    let (start, end) = core_chunk(core_id, ncores, n);
    proof {
        assert((core_id + 1) * (n / ncores) == core_id * (n / ncores) + n / ncores) by (nonlinear_arith);
    }
    let ghost before = carrier@;
    let mut i = start;
    while i < end
        invariant
            carrier.len() == n,
            start <= i <= end <= n,
            forall|q: int| start <= q < i ==> #[trigger] carrier[q] == spec_expected(frame_val, q),
            forall|q: int| 0 <= q < n && !(start <= q < i) ==> #[trigger] carrier[q] == before[q],
        decreases end - i,
    {
        carrier.set(i, frame_val.wrapping_mul(1000).wrapping_add(i as u64));
        i = i + 1;
    }
}

/// The carrier `c` after core `core` of `ncores` ran its share of frame
/// `frame_val`.
pub open spec fn core_effect(c: Seq<u64>, ncores: int, core: int, frame_val: u64) -> Seq<u64> {
    Seq::new(
        c.len(),
        |i: int|
            if in_chunk(c.len() as int, ncores, core, i) {
                spec_expected(frame_val, i)
            } else {
                c[i]
            },
    )
}

/// The carrier `c` after the cores of `order` ran their shares, in that order.
pub open spec fn cores_effect(c: Seq<u64>, ncores: int, order: Seq<int>, frame_val: u64) -> Seq<u64>
    decreases order.len(),
{
    if order.len() == 0 {
        c
    } else {
        core_effect(cores_effect(c, ncores, order.drop_last(), frame_val), ncores, order.last(), frame_val)
    }
}

/// The core whose chunk holds record `i`.
spec fn owner(n: int, ncores: int, i: int) -> int {
    let q = n / ncores;
    if q == 0 || i / q >= ncores - 1 {
        ncores - 1
    } else {
        i / q
    }
}

proof fn lemma_owner(n: int, ncores: int, i: int)
    requires
        ncores > 0,
        0 <= i < n,
    ensures
        0 <= owner(n, ncores, i) < ncores,
        in_chunk(n, ncores, owner(n, ncores, i), i),
{
    let q = n / ncores;
    assert(q >= 0) by (nonlinear_arith)
        requires
            n >= 0,
            ncores > 0,
            q == n / ncores,
    ;
    if q == 0 {
    } else if i / q >= ncores - 1 {
        assert((ncores - 1) * q <= i) by (nonlinear_arith)
            requires
                q > 0,
                i >= 0,
                i / q >= ncores - 1,
                ncores >= 1,
        ;
    } else {
        let c = i / q;
        assert(c * q <= i && i < (c + 1) * q && c >= 0) by (nonlinear_arith)
            requires
                q > 0,
                i >= 0,
                c == i / q,
        ;
    }
}

proof fn lemma_cores_effect(c: Seq<u64>, ncores: int, order: Seq<int>, frame_val: u64)
    requires
        ncores > 0,
    ensures
        cores_effect(c, ncores, order, frame_val).len() == c.len(),
        forall|i: int|
            0 <= i < c.len() && order.contains(owner(c.len() as int, ncores, i)) ==> #[trigger] cores_effect(
                c,
                ncores,
                order,
                frame_val,
            )[i] == spec_expected(frame_val, i),
    decreases order.len(),
{
    if order.len() > 0 {
        let pre = order.drop_last();
        lemma_cores_effect(c, ncores, pre, frame_val);
        let r = cores_effect(c, ncores, order, frame_val);
        let p = cores_effect(c, ncores, pre, frame_val);
        assert forall|i: int|
            0 <= i < c.len() && order.contains(owner(c.len() as int, ncores, i)) implies #[trigger] r[i]
                == spec_expected(frame_val, i) by {
            let o = owner(c.len() as int, ncores, i);
            lemma_owner(c.len() as int, ncores, i);
            let k = choose|k: int| 0 <= k < order.len() && order[k] == o;
            if k < pre.len() {
                assert(pre[k] == o);
                assert(pre.contains(o));
                assert(p[i] == spec_expected(frame_val, i));
            } else {
                assert(order.last() == o);
            }
        }
    }
}

/// The order in which the workers run does not matter: once every core of
/// `ncores` has run its share of a frame, in any order (a core running twice
/// included), every record holds the frame's value.
pub proof fn lemma_any_worker_order(c: Seq<u64>, ncores: int, order: Seq<int>, frame_val: u64)
    requires
        ncores > 0,
        forall|core: int| 0 <= core < ncores ==> #[trigger] order.contains(core),
    ensures
        cores_effect(c, ncores, order, frame_val).len() == c.len(),
        forall|i: int|
            0 <= i < c.len() ==> #[trigger] cores_effect(c, ncores, order, frame_val)[i] == spec_expected(
                frame_val,
                i,
            ),
{
    lemma_cores_effect(c, ncores, order, frame_val);
    assert forall|i: int| 0 <= i < c.len() implies #[trigger] cores_effect(c, ncores, order, frame_val)[i]
        == spec_expected(frame_val, i) by {
        lemma_owner(c.len() as int, ncores, i);
        assert(order.contains(owner(c.len() as int, ncores, i)));
    }
}

/// The shared control block of the pool.
pub struct Shared {
    pub seq: u32,
    pub done: u32,
    pub shutdown: bool,
    pub ncores: u32,
    pub frame_val: u32,
}

/// What a worker does after looking at the sequence word.
#[derive(Clone, Copy, Debug, PartialEq, Eq, Structural)]
pub enum WorkerStep {
    /// Nothing new: park on the sequence word.
    Park,
    /// Shutdown was requested: exit.
    Exit,
    /// The frame was handled; `wake` asks to wake the driver.
    Ran { wake: bool },
}

impl Shared {
    /// A control block for `ncores` workers, before the first frame.
    pub fn new(ncores: u32) -> (r: Shared)
        ensures
            r.seq == 0 && r.done == 0 && !r.shutdown && r.ncores == ncores && r.frame_val == 0,
    {
        Shared { seq: 0, done: 0, shutdown: false, ncores, frame_val: 0 }
    }

    /// The number of spawned workers.
    pub fn ncores_spawned(&self) -> (r: u32)
        ensures
            r == self.ncores,
    {
        self.ncores
    }

    /// The driver publishes a frame: clears the done count, sets the frame
    /// value and bumps the sequence word.
    pub fn begin_frame(&mut self, frame_val: u32)
        ensures
            final(self).done == 0,
            final(self).frame_val == frame_val,
            final(self).seq == old(self).seq.wrapping_add(1),
            final(self).shutdown == old(self).shutdown,
            final(self).ncores == old(self).ncores,
    {
        self.done = 0;
        self.frame_val = frame_val;
        self.seq = self.seq.wrapping_add(1);
    }

    /// The driver requests shutdown and bumps the sequence word.
    pub fn request_shutdown(&mut self)
        ensures
            final(self).shutdown,
            final(self).seq == old(self).seq.wrapping_add(1),
            final(self).ncores == old(self).ncores,
    {
        self.shutdown = true;
        self.seq = self.seq.wrapping_add(1);
    }

    /// The driver's frame is complete once every spawned worker is done.
    pub fn frame_done(&self) -> (r: bool)
        ensures
            r == (self.done == self.ncores),
    {
        self.done == self.ncores
    }
}

/// One worker step. A worker that has already seen the current sequence
/// parks; on a new sequence it exits if shutdown was requested, and otherwise
/// runs its chunk (if its core takes part), counts itself done, and asks to
/// wake the driver if it was the last one.
pub fn worker_step(shared: &mut Shared, last_seen: &mut u32, core_id: usize, carrier: &mut Vec<u64>) -> (r: WorkerStep)
    requires
        old(shared).done < u32::MAX,
    ensures
        old(shared).seq == *old(last_seen) ==> r == WorkerStep::Park && *final(shared) == *old(
            shared,
        ) && *final(last_seen) == *old(last_seen) && final(carrier)@ == old(carrier)@,
        old(shared).seq != *old(last_seen) ==> *final(last_seen) == old(shared).seq,
        old(shared).seq != *old(last_seen) && old(shared).shutdown ==> r == WorkerStep::Exit
            && *final(shared) == *old(shared) && final(carrier)@ == old(carrier)@,
        old(shared).seq != *old(last_seen) && !old(shared).shutdown ==> r == (WorkerStep::Ran {
            wake: old(shared).done + 1 == old(shared).ncores,
        }) && final(shared).done == old(shared).done + 1 && final(shared).seq == old(shared).seq
            && final(shared).ncores == old(shared).ncores && final(shared).frame_val == old(
            shared,
        ).frame_val && !final(shared).shutdown,
        old(shared).seq != *old(last_seen) && !old(shared).shutdown && core_id >= old(shared).ncores
            ==> final(carrier)@ == old(carrier)@,
        final(carrier).len() == old(carrier).len(),
        forall|i: int|
            0 <= i < old(carrier).len() && old(shared).seq != *old(last_seen) && !old(shared).shutdown
                && core_id < old(shared).ncores ==> #[trigger] final(carrier)[i] == (if in_chunk(
                old(carrier).len() as int,
                old(shared).ncores as int,
                core_id as int,
                i,
            ) {
                spec_expected(old(shared).frame_val as u64, i)
            } else {
                old(carrier)[i]
            }),
        old(shared).seq != *old(last_seen) && !old(shared).shutdown && core_id < old(shared).ncores
            ==> final(carrier)@ == core_effect(
            old(carrier)@,
            old(shared).ncores as int,
            core_id as int,
            old(shared).frame_val as u64,
        ),
{
    let cur = shared.seq;
    if cur == *last_seen {
        return WorkerStep::Park;
    }
    *last_seen = cur;
    if shared.shutdown {
        return WorkerStep::Exit;
    }
    let ncores = shared.ncores as usize;
    if core_id < ncores {
        let frame_val = shared.frame_val as u64;
        dispatch_core(carrier, core_id, ncores, frame_val);
    }
    let prev = shared.done;
    shared.done = prev + 1;
    WorkerStep::Ran { wake: prev + 1 == shared.ncores_spawned() }
}

/// One whole frame with the workers' steps taken one after another: after
/// every worker ran, the carrier holds the frame's value at every record (the
/// same as one core computing all of them) and the frame is done.
pub fn run_pool_frame(shared: &mut Shared, last_seen: &mut Vec<u32>, carrier: &mut Vec<u64>, frame_val: u32)
    requires
        old(shared).ncores > 0,
        old(last_seen).len() == old(shared).ncores,
        forall|c: int| 0 <= c < old(last_seen).len() ==> #[trigger] old(last_seen)[c] == old(shared).seq,
        !old(shared).shutdown,
    ensures
        final(carrier).len() == old(carrier).len(),
        forall|i: int| 0 <= i < final(carrier).len() ==> #[trigger] final(carrier)[i] == spec_expected(
            frame_val as u64,
            i,
        ),
        final(shared).done == final(shared).ncores,
        final(shared).ncores == old(shared).ncores,
        final(last_seen).len() == old(last_seen).len(),
        forall|c: int| 0 <= c < final(last_seen).len() ==> #[trigger] final(last_seen)[c] == final(shared).seq,
        !final(shared).shutdown,
{
    let ghost seq0 = shared.seq;
    shared.begin_frame(frame_val);
    let n = shared.ncores as usize;
    let len = carrier.len();
    proof {
        assert(seq0.wrapping_add(1) != seq0) by (bit_vector);
    }
    let mut c: usize = 0;
    while c < n
        invariant
            n == shared.ncores,
            n > 0,
            !shared.shutdown,
            shared.frame_val == frame_val,
            shared.seq == seq0.wrapping_add(1),
            seq0.wrapping_add(1) != seq0,
            shared.done == c,
            c <= n,
            carrier.len() == len,
            last_seen.len() == n,
            forall|q: int| 0 <= q < c ==> #[trigger] last_seen[q] == shared.seq,
            forall|q: int| c <= q < n ==> #[trigger] last_seen[q] == seq0,
            forall|i: int|
                0 <= i < len && i < c * (len / n) ==> #[trigger] carrier[i] == spec_expected(
                    frame_val as u64,
                    i,
                ),
            c == n ==> forall|i: int| 0 <= i < len ==> #[trigger] carrier[i] == spec_expected(
                frame_val as u64,
                i,
            ),
        decreases n - c,
    {
        let mut seen = last_seen[c];
        let step = worker_step(shared, &mut seen, c, carrier);
        last_seen.set(c, seen);
        proof {
            assert((c + 1) * (len / n) == c * (len / n) + len / n) by (nonlinear_arith);
        }
        c = c + 1;
    }
}

} // verus!
