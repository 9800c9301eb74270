//! Phase barriers. The generation barrier counts arrivals; the last of
//! `n_cores` arrivals resets the count and advances the generation, which
//! releases the waiting cores. The counting barrier releases once the shared
//! counter reaches the expected number of arrivals. The waiting itself (a spin
//! on the shared word) is done by the caller.
use vstd::prelude::*;

verus! {

/// The generation barrier's state: the current generation and the number of
/// cores that arrived in it.
#[derive(Clone, Copy, Debug, PartialEq, Eq, Structural)]
pub struct PhaseBarrier {
    pub gen: usize,
    pub arrived: usize,
}

/// The barrier after one arrival of `n_cores` expected (the counters wrap).
pub open spec fn spec_arrive(b: PhaseBarrier, n_cores: usize) -> PhaseBarrier {
    if b.arrived.wrapping_add(1) == n_cores {
        PhaseBarrier { gen: b.gen.wrapping_add(1), arrived: 0 }
    } else {
        PhaseBarrier { gen: b.gen, arrived: b.arrived.wrapping_add(1) }
    }
}

/// The barrier after `k` arrivals.
pub open spec fn arrivals(b: PhaseBarrier, n_cores: usize, k: nat) -> PhaseBarrier
    decreases k,
{
    if k == 0 {
        b
    } else {
        spec_arrive(arrivals(b, n_cores, (k - 1) as nat), n_cores)
    }
}

impl PhaseBarrier {
    /// A fresh barrier: generation 0, no arrivals.
    pub fn new() -> (r: PhaseBarrier)
        ensures
            r.gen == 0,
            r.arrived == 0,
    {
        PhaseBarrier { gen: 0, arrived: 0 }
    }

    /// One core arrives. Returns the generation it arrived in and whether it
    /// was the last of `n_cores`; a core that is not last waits until the
    /// generation differs from the returned one.
    pub fn arrive(&mut self, n_cores: usize) -> (r: (usize, bool))
        ensures
            *final(self) == spec_arrive(*old(self), n_cores),
            r.0 == old(self).gen,
            r.1 == (old(self).arrived.wrapping_add(1) == n_cores),
    {
        let g = self.gen;
        let prev = self.arrived;
        self.arrived = prev.wrapping_add(1);
        if prev.wrapping_add(1) == n_cores {
            self.arrived = 0;
            self.gen = g.wrapping_add(1);
            (g, true)
        } else {
            (g, false)
        }
    }

    /// Whether cores that arrived in generation `g` are released.
    pub fn released(&self, g: usize) -> (r: bool)
        ensures
            r == (self.gen != g),
    {
        self.gen != g
    }
}

/// One barrier round: from an empty generation, the first `n_cores - 1`
/// arrivals leave the generation unchanged (their cores wait), and the
/// `n_cores`-th advances it by one (wrapping) and empties it (everyone is
/// released), so the barrier is ready for the next round.
pub proof fn lemma_barrier_round(b: PhaseBarrier, n_cores: usize, k: nat)
    requires
        b.arrived == 0,
        0 < n_cores,
        k <= n_cores,
    ensures
        k < n_cores ==> arrivals(b, n_cores, k) == (PhaseBarrier { gen: b.gen, arrived: k as usize }),
        k == n_cores ==> arrivals(b, n_cores, k) == (PhaseBarrier {
            gen: b.gen.wrapping_add(1),
            arrived: 0,
        }),
        k == n_cores ==> arrivals(b, n_cores, k).gen != b.gen,
    decreases k,
{
    if k > 0 {
        lemma_barrier_round(b, n_cores, (k - 1) as nat);
    }
}

/// Counting barrier arrival: bumps the shared counter and reports whether
/// this core has to wait for the others (fewer than `expected` arrived).
pub fn phase_barrier(counter: &mut usize, expected: usize) -> (must_wait: bool)
    requires
        *old(counter) < usize::MAX,
    ensures
        *final(counter) == *old(counter) + 1,
        must_wait == (*old(counter) + 1 < expected),
{
    let arrived = *counter + 1;
    *counter = arrived;
    arrived < expected
}

/// The waist barrier between phases: the same counting arrival.
pub fn waist_barrier(counter: &mut usize, expected: usize) -> (must_wait: bool)
    requires
        *old(counter) < usize::MAX,
    ensures
        *final(counter) == *old(counter) + 1,
        must_wait == (*old(counter) + 1 < expected),
{
    phase_barrier(counter, expected)
}

/// A waiting core may go on once the counter reached the expected arrivals.
pub fn barrier_open(counter: usize, expected: usize) -> (r: bool)
    ensures
        r == (counter >= expected),
{
    counter >= expected
}

} // verus!
