//! Schedule gates: a work unit scheduled `Always` runs on every walk; one
//! scheduled `On(v)` runs only when virtual `v` has fired. Firing is recorded
//! either as a flag per virtual (within one walk) or as the epoch in which the
//! virtual last fired (so a gate closes again in a later epoch).
use vstd::prelude::*;

verus! {

/// Number of virtual slots.
pub const MAX_VIRTUALS: usize = 8;

/// Which virtuals have fired during the current walk.
pub struct FiredSet {
    pub flag: [bool; 8],
}

impl FiredSet {
    /// No virtual has fired.
    pub fn new() -> (r: FiredSet)
        ensures
            forall|v: int| 0 <= v < MAX_VIRTUALS ==> !#[trigger] r.flag[v],
    {
        FiredSet { flag: [false; 8] }
    }

    /// Marks virtual `v` as fired.
    pub fn fire(&mut self, v: usize)
        requires
            v < MAX_VIRTUALS,
        ensures
            final(self).flag@ == old(self).flag@.update(v as int, true),
    {
        self.flag[v] = true;
    }

    /// Whether virtual `v` has fired.
    pub fn is_set(&self, v: usize) -> (r: bool)
        requires
            v < MAX_VIRTUALS,
        ensures
            r == self.flag[v as int],
    {
        self.flag[v]
    }
}

/// A work unit's schedule gate.
#[derive(Clone, Copy, Debug, PartialEq, Eq, Structural)]
pub enum Gate {
    Always,
    On(usize),
}

/// Whether a gate is valid: an `On` gate names a virtual slot.
pub open spec fn gate_ok(g: Gate) -> bool {
    match g {
        Gate::Always => true,
        Gate::On(v) => v < MAX_VIRTUALS,
    }
}

/// Whether a gate lets its unit run given the fired flags.
pub open spec fn spec_should_run(g: Gate, flags: Seq<bool>) -> bool {
    match g {
        Gate::Always => true,
        Gate::On(v) => flags[v as int],
    }
}

/// Whether a gate lets its unit run now.
pub fn should_run(g: Gate, fired: &FiredSet) -> (r: bool)
    requires
        gate_ok(g),
    ensures
        r == spec_should_run(g, fired.flag@),
{
    match g {
        Gate::Always => true,
        Gate::On(v) => fired.is_set(v),
    }
}

/// A work unit of a gated walk: its gate, and the virtual it fires when it
/// runs (if any).
#[derive(Clone, Copy, Debug)]
pub struct GatedUnit {
    pub gate: Gate,
    pub fires: Option<usize>,
}

/// Whether a unit is valid: its gate and the virtual it fires are in range.
pub open spec fn unit_ok(u: GatedUnit) -> bool {
    gate_ok(u.gate) && match u.fires {
        Some(v) => v < MAX_VIRTUALS,
        None => true,
    }
}

/// The fired flags and run counts after walking units `[0, k)`.
pub open spec fn gated_walk(units: Seq<GatedUnit>, flags: Seq<bool>, ran: Seq<u32>, k: int) -> (Seq<bool>, Seq<u32>)
    decreases k,
{
    if k <= 0 {
        (flags, ran)
    } else {
        let prev = gated_walk(units, flags, ran, k - 1);
        let u = units[k - 1];
        if spec_should_run(u.gate, prev.0) {
            let f = match u.fires {
                Some(v) => prev.0.update(v as int, true),
                None => prev.0,
            };
            (f, prev.1.update(k - 1, (prev.1[k - 1] + 1) as u32))
        } else {
            prev
        }
    }
}

/// Each step of a gated walk, stated over the walk's state when it reaches
/// unit `j`: a unit whose gate is closed (an `On(v)` gate with `v` not yet
/// fired) changes nothing, neither run counts nor fired flags; a unit whose
/// gate is open adds one to its own run count, leaves the other counts alone,
/// and sets the flag of the virtual it fires, leaving every other flag as it
/// was.
pub proof fn lemma_gated_step(units: Seq<GatedUnit>, flags: Seq<bool>, ran: Seq<u32>, j: int)
    requires
        0 <= j < units.len(),
        ran.len() == units.len(),
        flags.len() <= usize::MAX,
        forall|q: int| 0 <= q < units.len() ==> fires_ok(#[trigger] units[q], flags.len()),
        forall|q: int| 0 <= q < units.len() ==> #[trigger] ran[q] < u32::MAX,
    ensures
        ({
            let before = gated_walk(units, flags, ran, j);
            let after = gated_walk(units, flags, ran, j + 1);
            let open = match units[j].gate {
                Gate::Always => true,
                Gate::On(v) => before.0[v as int],
            };
            &&& !open ==> after == before
            &&& open ==> after.1[j] == before.1[j] + 1
            &&& open ==> forall|q: int| 0 <= q < ran.len() && q != j ==> #[trigger] after.1[q] == before.1[q]
            &&& open ==> forall|v: int|
                0 <= v < before.0.len() ==> #[trigger] after.0[v] == (before.0[v] || units[j].fires == Some(
                    v as usize,
                ))
        }),
{
    lemma_walk_untouched(units, flags, ran, j);
}

/// The virtual a unit fires, if any, is one of `n` flags.
pub open spec fn fires_ok(u: GatedUnit, n: nat) -> bool {
    match u.fires {
        Some(v) => v < n,
        None => true,
    }
}

/// Whether unit `j`'s gate is open when a gated walk from `flags` reaches it:
/// an `Always` gate is, an `On(w)` gate is when virtual `w` has fired by then.
pub open spec fn gate_open_at(units: Seq<GatedUnit>, flags: Seq<bool>, ran: Seq<u32>, j: int) -> bool {
    match units[j].gate {
        Gate::Always => true,
        Gate::On(w) => gated_walk(units, flags, ran, j).0[w as int],
    }
}

/// Where a fired flag comes from: after walking units `[0, k)`, a virtual is
/// fired only if it was fired before the walk or some unit that fires it had
/// its gate open when the walk reached it. A unit's run count goes up by one
/// exactly when its gate was open when the walk reached it.
pub proof fn lemma_gated_walk_provenance(units: Seq<GatedUnit>, flags: Seq<bool>, ran: Seq<u32>, k: int)
    requires
        0 <= k <= units.len(),
        ran.len() == units.len(),
        flags.len() <= usize::MAX,
        forall|q: int| 0 <= q < units.len() ==> fires_ok(#[trigger] units[q], flags.len()),
        forall|q: int| 0 <= q < units.len() ==> #[trigger] ran[q] < u32::MAX,
    ensures
        gated_walk(units, flags, ran, k).0.len() == flags.len(),
        forall|v: int|
            0 <= v < flags.len() && #[trigger] gated_walk(units, flags, ran, k).0[v] ==> flags[v] || exists|j: int|
                0 <= j < k && units[j].fires == Some(v as usize) && #[trigger] gate_open_at(units, flags, ran, j),
        forall|j: int|
            0 <= j < k ==> #[trigger] gated_walk(units, flags, ran, k).1[j] == (if gate_open_at(units, flags, ran, j) {
                (ran[j] + 1) as u32
            } else {
                ran[j]
            }),
    decreases k,
{
    if k > 0 {
        lemma_gated_walk_provenance(units, flags, ran, k - 1);
        lemma_gated_step(units, flags, ran, k - 1);
        let before = gated_walk(units, flags, ran, k - 1);
        let after = gated_walk(units, flags, ran, k);
        assert forall|v: int| 0 <= v < flags.len() && #[trigger] after.0[v] implies flags[v] || exists|j: int|
            0 <= j < k && units[j].fires == Some(v as usize) && #[trigger] gate_open_at(units, flags, ran, j) by {
            if !before.0[v] {
                let j = k - 1;
                assert(units[j].fires == Some(v as usize));
                assert(gate_open_at(units, flags, ran, j));
            } else if !flags[v] {
                let j = choose|j: int|
                    0 <= j < k - 1 && units[j].fires == Some(v as usize) && #[trigger] gate_open_at(units, flags, ran, j);
                assert(gate_open_at(units, flags, ran, j));
            }
        }
        assert forall|j: int| 0 <= j < k implies #[trigger] after.1[j] == (if gate_open_at(units, flags, ran, j) {
            (ran[j] + 1) as u32
        } else {
            ran[j]
        }) by {
            if j < k - 1 {
                assert(before.1[j] == (if gate_open_at(units, flags, ran, j) {
                    (ran[j] + 1) as u32
                } else {
                    ran[j]
                }));
            } else {
                lemma_walk_untouched(units, flags, ran, k - 1);
            }
        }
    }
}

proof fn lemma_walk_untouched(units: Seq<GatedUnit>, flags: Seq<bool>, ran: Seq<u32>, k: int)
    requires
        0 <= k <= units.len(),
        ran.len() == units.len(),
        forall|q: int| 0 <= q < units.len() ==> fires_ok(#[trigger] units[q], flags.len()),
    ensures
        gated_walk(units, flags, ran, k).0.len() == flags.len(),
        gated_walk(units, flags, ran, k).1.len() == ran.len(),
        forall|q: int| k <= q < ran.len() ==> #[trigger] gated_walk(units, flags, ran, k).1[q] == ran[q],
    decreases k,
{
    if k > 0 {
        lemma_walk_untouched(units, flags, ran, k - 1);
        assert(fires_ok(units[k - 1], flags.len()));
    }
}

/// Walks the carrier once in order: each unit whose gate is open runs (its run
/// count goes up by one) and fires its virtual, which opens the gates of later
/// units scheduled on it within the same walk.
pub fn run_gated(units: &Vec<GatedUnit>, fired: &mut FiredSet, ran: &mut Vec<u32>)
    requires
        old(ran).len() == units.len(),
        forall|k: int| 0 <= k < units.len() ==> unit_ok(#[trigger] units[k]),
        forall|k: int| 0 <= k < units.len() ==> #[trigger] old(ran)[k] < u32::MAX,
    ensures
        (final(fired).flag@, final(ran)@) == gated_walk(
            units@,
            old(fired).flag@,
            old(ran)@,
            units.len() as int,
        ),
{
    let ghost f0 = fired.flag@;
    let ghost r0 = ran@;
    let mut k: usize = 0;
    while k < units.len()
        invariant
            ran.len() == units.len(),
            r0.len() == units.len(),
            fired.flag@.len() == MAX_VIRTUALS,
            forall|q: int| 0 <= q < units.len() ==> unit_ok(#[trigger] units[q]),
            forall|q: int| 0 <= q < units.len() ==> #[trigger] r0[q] < u32::MAX,
            k <= units.len(),
            (fired.flag@, ran@) == gated_walk(units@, f0, r0, k as int),
            forall|q: int| k <= q < units.len() ==> #[trigger] ran[q] == r0[q],
        decreases units.len() - k,
    {
        let u = units[k];
        if should_run(u.gate, fired) {
            let c = ran[k] + 1;
            ran.set(k, c);
            match u.fires {
                Some(v) => fired.fire(v),
                None => {},
            }
        }
        k = k + 1;
    }
}

// ---------------------------------------------------------------------
// Epoch-stamped firing.

/// The epoch in which each virtual last fired.
pub struct VirtualStamps {
    pub stamp: Vec<u64>,
}

impl VirtualStamps {
    /// No virtual has fired (stamp 0; epochs start at 1).
    pub fn new(nvirtuals: usize) -> (r: VirtualStamps)
        ensures
            r.stamp@ == Seq::new(nvirtuals as nat, |_v: int| 0u64),
    {
        let r = VirtualStamps { stamp: vec![0u64; nvirtuals] };
        proof {
            assert(r.stamp@ =~= Seq::new(nvirtuals as nat, |_v: int| 0u64));
        }
        r
    }

    /// Records that virtual `v` fired in `epoch`.
    pub fn fire(&mut self, v: usize, epoch: u64)
        requires
            v < old(self).stamp.len(),
        ensures
            final(self).stamp@ == old(self).stamp@.update(v as int, epoch),
    {
        self.stamp.set(v, epoch);
    }

    /// Whether an `On(v)` gate is open in `epoch`: `v` fired in this epoch.
    pub fn open(&self, v: usize, epoch: u64) -> (r: bool)
        requires
            v < self.stamp.len(),
        ensures
            r == (self.stamp[v as int] == epoch),
    {
        self.stamp[v] == epoch
    }
}

/// The firing context of one pass: the virtuals a unit may write and the
/// current epoch.
pub struct FireCtx {
    pub epoch: u64,
}

impl FireCtx {
    /// Fires virtual `v` in this context's epoch.
    pub fn fire(&self, stamps: &mut VirtualStamps, v: usize)
        requires
            v < old(stamps).stamp.len(),
        ensures
            final(stamps).stamp@ == old(stamps).stamp@.update(v as int, self.epoch),
    {
        stamps.fire(v, self.epoch);
    }
}

/// Whether a gate is open in `epoch` given the stamps.
pub open spec fn spec_open_in(g: Gate, stamps: Seq<u64>, epoch: u64) -> bool {
    match g {
        Gate::Always => true,
        Gate::On(v) => stamps[v as int] == epoch,
    }
}

/// The units (by carrier position) that run in one epoch-gated pass over
/// positions `[0, k)`.
pub open spec fn epoch_pass(gates: Seq<Gate>, stamps: Seq<u64>, epoch: u64, k: int) -> Seq<usize>
    decreases k,
{
    if k <= 0 {
        Seq::empty()
    } else if spec_open_in(gates[k - 1], stamps, epoch) {
        epoch_pass(gates, stamps, epoch, k - 1).push((k - 1) as usize)
    } else {
        epoch_pass(gates, stamps, epoch, k - 1)
    }
}

/// One pass in `epoch`: appends to `log` the position of every unit whose gate
/// is open.
pub fn run_epoch(gates: &Vec<Gate>, stamps: &VirtualStamps, epoch: u64, log: &mut Vec<usize>)
    requires
        forall|k: int|
            0 <= k < gates.len() ==> match #[trigger] gates[k] {
                Gate::Always => true,
                Gate::On(v) => v < stamps.stamp.len(),
            },
    ensures
        final(log)@ == old(log)@ + epoch_pass(gates@, stamps.stamp@, epoch, gates.len() as int),
{
    let ghost l0 = log@;
    let mut k: usize = 0;
    proof {
        assert(l0 + epoch_pass(gates@, stamps.stamp@, epoch, 0) =~= l0);
    }
    while k < gates.len()
        invariant
            k <= gates.len(),
            forall|q: int|
                0 <= q < gates.len() ==> match #[trigger] gates[q] {
                    Gate::Always => true,
                    Gate::On(v) => v < stamps.stamp.len(),
                },
            log@ == l0 + epoch_pass(gates@, stamps.stamp@, epoch, k as int),
        decreases gates.len() - k,
    {
        let open = match gates[k] {
            Gate::Always => true,
            Gate::On(v) => stamps.open(v, epoch),
        };
        if open {
            log.push(k);
            proof {
                assert(l0 + epoch_pass(gates@, stamps.stamp@, epoch, k + 1) =~= (l0 + epoch_pass(
                    gates@,
                    stamps.stamp@,
                    epoch,
                    k as int,
                )).push(k));
            }
        }
        k = k + 1;
    }
}

/// The epoch pass runs exactly the units whose gate is open in the epoch, in
/// carrier order: an `Always` unit always, an `On(v)` unit exactly when
/// virtual `v`'s own stamp equals the epoch (the stamps of other virtuals play
/// no part).
pub proof fn lemma_epoch_pass_members(gates: Seq<Gate>, stamps: Seq<u64>, epoch: u64, k: int)
    requires
        0 <= k <= usize::MAX + 1,
    ensures
        forall|i: int, j: int|
            0 <= i < j < epoch_pass(gates, stamps, epoch, k).len() ==> #[trigger] epoch_pass(gates, stamps, epoch, k)[i]
                < #[trigger] epoch_pass(gates, stamps, epoch, k)[j],
        forall|i: int|
            0 <= i < epoch_pass(gates, stamps, epoch, k).len() ==> #[trigger] epoch_pass(gates, stamps, epoch, k)[i]
                < k,
        forall|p: int|
            0 <= p < k ==> (#[trigger] epoch_pass(gates, stamps, epoch, k).contains(p as usize) <==> match gates[p] {
                Gate::Always => true,
                Gate::On(v) => stamps[v as int] == epoch,
            }),
    decreases k,
{
    if k > 0 {
        lemma_epoch_pass_members(gates, stamps, epoch, k - 1);
        let prev = epoch_pass(gates, stamps, epoch, k - 1);
        let cur = epoch_pass(gates, stamps, epoch, k);
        let x = (k - 1) as usize;
        assert(x == k - 1);
        assert forall|p: int| 0 <= p < k implies (#[trigger] cur.contains(p as usize) <==> match gates[p] {
            Gate::Always => true,
            Gate::On(v) => stamps[v as int] == epoch,
        }) by {
            let pu = p as usize;
            assert(pu == p);
            if cur.contains(pu) {
                let i = choose|i: int| 0 <= i < cur.len() && cur[i] == pu;
                if i < prev.len() {
                    assert(prev[i] == cur[i]);
                    assert(prev.contains(pu));
                }
            }
            if p < k - 1 {
                if prev.contains(pu) {
                    let i = choose|i: int| 0 <= i < prev.len() && prev[i] == pu;
                    assert(cur[i] == prev[i]);
                }
            } else if spec_open_in(gates[k - 1], stamps, epoch) {
                assert(cur[prev.len() as int] == x);
            } else {
                if prev.contains(pu) {
                    let i = choose|i: int| 0 <= i < prev.len() && prev[i] == pu;
                    assert(prev[i] < k - 1);
                }
            }
        }
    }
}

/// Epoch decay: a virtual fired in epoch `e` opens its gates in `e` and in no
/// other epoch, until it fires again.
pub proof fn lemma_epoch_decay(stamps: Seq<u64>, v: usize, e: u64, later: u64)
    requires
        v < stamps.len(),
        later != e,
    ensures
        spec_open_in(Gate::On(v), stamps.update(v as int, e), e),
        !spec_open_in(Gate::On(v), stamps.update(v as int, e), later),
{
}

} // verus!
