//! Adaptive decisions between frames: an EMA of a measured metric and two
//! comparators over it, a naive single threshold and a hysteresis comparator
//! (dead band, K consecutive readings, cooldown) that does not thrash.
use vstd::prelude::*;

verus! {

/// One EMA step: `(ema * 7 + measured) >> 3`, with wrapping arithmetic.
pub open spec fn spec_ema_step(ema: u32, measured: u32) -> u32 {
    (ema.wrapping_mul(7).wrapping_add(measured)) >> 3u32
}

/// Folds one measurement into the exponential moving average.
pub fn ema_step(ema: u32, measured: u32) -> (r: u32)
    ensures
        r == spec_ema_step(ema, measured),
{
    (ema.wrapping_mul(7).wrapping_add(measured)) >> 3u32
}

/// The naive comparator: on whenever the EMA is at or above the threshold.
pub struct Naive {
    pub threshold: u32,
    pub state: bool,
    pub transitions: u32,
}

impl Naive {
    /// Takes one EMA reading; every change of the decision is a transition.
    pub fn observe(&mut self, ema: u32)
        requires
            old(self).transitions < u32::MAX,
        ensures
            final(self).threshold == old(self).threshold,
            final(self).state == (ema >= old(self).threshold),
            final(self).transitions == old(self).transitions + (if (ema >= old(self).threshold)
                != old(self).state {
                1int
            } else {
                0int
            }),
    {
        let want = ema >= self.threshold;
        if want != self.state {
            self.state = want;
            self.transitions = self.transitions + 1;
        }
    }
}

/// The hysteresis comparator: leaves "off" only after `k` consecutive
/// readings at or above `hi`, leaves "on" only after `k` consecutive readings
/// below `lo`, and ignores `cooldown` readings after each flip.
pub struct Hysteresis {
    pub lo: u32,
    pub hi: u32,
    pub k: u32,
    pub cooldown: u32,
    pub state: bool,
    pub run: u32,
    pub cool: u32,
    pub transitions: u32,
}

/// Whether `ema` is past the edge that would flip a comparator in `state`.
pub open spec fn past_edge(h: Hysteresis, ema: u32) -> bool {
    if h.state {
        ema < h.lo
    } else {
        ema >= h.hi
    }
}

/// The comparator after one reading. During cooldown only the cooldown
/// counts down (and the run resets); otherwise a reading that is not past the
/// active edge resets the run, one that is extends it, and a run reaching `k`
/// flips the decision, counts a transition and starts the cooldown. The run
/// and transition counters wrap in 32 bits.
pub open spec fn hyst_step(h: Hysteresis, ema: u32) -> Hysteresis {
    if h.cool > 0 {
        Hysteresis {
            lo: h.lo,
            hi: h.hi,
            k: h.k,
            cooldown: h.cooldown,
            state: h.state,
            run: 0,
            cool: (h.cool - 1) as u32,
            transitions: h.transitions,
        }
    } else if !past_edge(h, ema) {
        Hysteresis {
            lo: h.lo,
            hi: h.hi,
            k: h.k,
            cooldown: h.cooldown,
            state: h.state,
            run: 0,
            cool: 0,
            transitions: h.transitions,
        }
    } else if h.run.wrapping_add(1) < h.k {
        Hysteresis {
            lo: h.lo,
            hi: h.hi,
            k: h.k,
            cooldown: h.cooldown,
            state: h.state,
            run: h.run.wrapping_add(1),
            cool: 0,
            transitions: h.transitions,
        }
    } else {
        Hysteresis {
            lo: h.lo,
            hi: h.hi,
            k: h.k,
            cooldown: h.cooldown,
            state: !h.state,
            run: 0,
            cool: h.cooldown,
            transitions: h.transitions.wrapping_add(1),
        }
    }
}

/// The comparator after the readings `emas`, in order.
pub open spec fn hyst_run(h: Hysteresis, emas: Seq<u32>) -> Hysteresis
    decreases emas.len(),
{
    if emas.len() == 0 {
        h
    } else {
        hyst_step(hyst_run(h, emas.drop_last()), emas.last())
    }
}

/// Reading `t` of `emas` flips the decision of a comparator that started as `h`.
pub open spec fn flips_at(h: Hysteresis, emas: Seq<u32>, t: int) -> bool {
    hyst_run(h, emas.take(t + 1)).state != hyst_run(h, emas.take(t)).state
}

/// The number of flips among the first `m` readings.
pub open spec fn flip_count(h: Hysteresis, emas: Seq<u32>, m: int) -> nat
    decreases m,
{
    if m <= 0 {
        0
    } else {
        flip_count(h, emas, m - 1) + (if flips_at(h, emas, m - 1) {
            1nat
        } else {
            0nat
        })
    }
}

proof fn lemma_run_step(h: Hysteresis, emas: Seq<u32>, t: int)
    requires
        0 <= t < emas.len(),
    ensures
        hyst_run(h, emas.take(t + 1)) == hyst_step(hyst_run(h, emas.take(t)), emas[t]),
{
    assert(emas.take(t + 1).drop_last() =~= emas.take(t));
}

proof fn lemma_run_settings(h: Hysteresis, emas: Seq<u32>)
    ensures
        hyst_run(h, emas).cooldown == h.cooldown,
        hyst_run(h, emas).k == h.k,
        hyst_run(h, emas).lo == h.lo,
        hyst_run(h, emas).hi == h.hi,
    decreases emas.len(),
{
    if emas.len() > 0 {
        lemma_run_settings(h, emas.drop_last());
    }
}

/// Reading `j` of `emas` came outside cooldown and lay past the edge that
/// would flip the comparator's decision at that point (at or above `hi` while
/// off, below `lo` while on).
pub open spec fn reading_past(h: Hysteresis, emas: Seq<u32>, j: int) -> bool {
    let before = hyst_run(h, emas.take(j));
    &&& before.cool == 0
    &&& if before.state {
        emas[j] < h.lo
    } else {
        emas[j] >= h.hi
    }
}

proof fn lemma_run_streak(h: Hysteresis, emas: Seq<u32>, m: int)
    requires
        0 <= m <= emas.len(),
    ensures
        forall|j: int|
            0 <= j < m && m - hyst_run(h, emas.take(m)).run <= j ==> #[trigger] reading_past(h, emas, j),
    decreases m,
{
    if m > 0 {
        lemma_run_streak(h, emas, m - 1);
        lemma_run_step(h, emas, m - 1);
        lemma_run_settings(h, emas.take(m - 1));
        let p = hyst_run(h, emas.take(m - 1));
        let q = hyst_run(h, emas.take(m));
        assert forall|j: int| 0 <= j < m && m - q.run <= j implies #[trigger] reading_past(h, emas, j) by {
            if j < m - 1 {
                assert(m - 1 - p.run <= j);
            }
        }
    }
}

/// The decision flips only after `k` consecutive readings past the active
/// edge: if reading `t` flips it, every reading of the last `k` up to and
/// including `t` (those that exist) came outside cooldown and lay past the
/// edge, and so did reading `t` itself whatever `k`. A reading back inside the
/// band restarts the count.
pub proof fn lemma_flip_needs_k_consecutive(h: Hysteresis, emas: Seq<u32>, t: int)
    requires
        0 <= t < emas.len(),
        flips_at(h, emas, t),
    ensures
        reading_past(h, emas, t),
        forall|j: int| 0 <= j <= t && t + 1 - h.k <= j ==> #[trigger] reading_past(h, emas, j),
{
    lemma_run_streak(h, emas, t);
    lemma_run_step(h, emas, t);
    lemma_run_settings(h, emas.take(t));
    let p = hyst_run(h, emas.take(t));
    assert forall|j: int| 0 <= j <= t && t + 1 - h.k <= j implies #[trigger] reading_past(h, emas, j) by {
        if j < t {
            assert(t - p.run <= j);
        }
    }
}

proof fn lemma_run_below_k(h: Hysteresis, emas: Seq<u32>, m: int)
    requires
        h.run < h.k,
        0 <= m <= emas.len(),
    ensures
        hyst_run(h, emas.take(m)).run < h.k,
    decreases m,
{
    if m == 0 {
        assert(emas.take(0) =~= Seq::<u32>::empty());
    } else {
        lemma_run_below_k(h, emas, m - 1);
        lemma_run_step(h, emas, m - 1);
        lemma_run_settings(h, emas.take(m - 1));
    }
}

proof fn lemma_streak_builds(h: Hysteresis, emas: Seq<u32>, s: int, i: int)
    requires
        h.run < h.k,
        0 <= s,
        0 <= i,
        s + i <= emas.len(),
        forall|j: int| s <= j < s + i ==> #[trigger] reading_past(h, emas, j) && !flips_at(h, emas, j),
    ensures
        hyst_run(h, emas.take(s + i)).run >= i,
    decreases i,
{
    if i > 0 {
        lemma_streak_builds(h, emas, s, i - 1);
        let j = s + i - 1;
        assert(reading_past(h, emas, j) && !flips_at(h, emas, j));
        lemma_run_step(h, emas, j);
        lemma_run_settings(h, emas.take(j));
        lemma_run_below_k(h, emas, j);
    }
}

/// `k` consecutive readings past the active edge outside cooldown force a
/// flip: from a comparator whose run is below `k`, if the `k` readings ending
/// at `t` all came outside cooldown and lay past the edge, the decision flips
/// at one of them.
pub proof fn lemma_k_consecutive_force_flip(h: Hysteresis, emas: Seq<u32>, t: int)
    requires
        h.k >= 1,
        h.run < h.k,
        h.k <= t + 1,
        t < emas.len(),
        forall|j: int| t + 1 - h.k <= j <= t ==> #[trigger] reading_past(h, emas, j),
    ensures
        exists|j: int| t + 1 - h.k <= j <= t && #[trigger] flips_at(h, emas, j),
{
    let s = t + 1 - h.k;
    if forall|j: int| s <= j <= t ==> !#[trigger] flips_at(h, emas, j) {
        assert forall|j: int| s <= j < s + (h.k - 1) implies #[trigger] reading_past(h, emas, j) && !flips_at(
            h,
            emas,
            j,
        ) by {
            assert(!flips_at(h, emas, j));
        }
        lemma_streak_builds(h, emas, s, h.k - 1);
        assert(reading_past(h, emas, t));
        lemma_run_step(h, emas, t);
        lemma_run_settings(h, emas.take(t));
        lemma_run_below_k(h, emas, t);
        assert(flips_at(h, emas, t));
    }
}

/// The transition counter counts the flips: after `m` readings it has grown by
/// exactly the number of readings that flipped the decision (modulo 2^32, as
/// the counter wraps).
pub proof fn lemma_transitions_count_flips(h: Hysteresis, emas: Seq<u32>, m: int)
    requires
        0 <= m <= emas.len(),
    ensures
        hyst_run(h, emas.take(m)).transitions as int == (h.transitions + flip_count(h, emas, m))
            % 0x1_0000_0000,
        flip_count(h, emas, m) <= m,
    decreases m,
{
    if m == 0 {
        assert(emas.take(0) =~= Seq::<u32>::empty());
    } else {
        lemma_transitions_count_flips(h, emas, m - 1);
        lemma_run_step(h, emas, m - 1);
        let b = hyst_run(h, emas.take(m - 1)).transitions as int;
        let f = flip_count(h, emas, m - 1) as int;
        let t0 = h.transitions as int;
        assert((t0 + f + 1) % 0x1_0000_0000 == (if b + 1 < 0x1_0000_0000 {
            b + 1
        } else {
            0
        })) by (nonlinear_arith)
            requires
                b == (t0 + f) % 0x1_0000_0000,
                0 <= t0 + f,
        ;
    }
}

proof fn lemma_hyst_credit(h: Hysteresis, emas: Seq<u32>, m: int)
    requires
        h.cool <= h.cooldown,
        0 <= m <= emas.len(),
    ensures
        hyst_run(h, emas.take(m)).cool <= h.cooldown,
        m + h.cooldown + h.run - flip_count(h, emas, m) * (h.cooldown + h.k) >= hyst_run(h, emas.take(m)).run
            + h.cooldown - hyst_run(h, emas.take(m)).cool,
    decreases m,
{
    if m == 0 {
        assert(emas.take(0) =~= Seq::<u32>::empty());
    } else {
        lemma_hyst_credit(h, emas, m - 1);
        lemma_run_step(h, emas, m - 1);
        lemma_run_settings(h, emas.take(m - 1));
        let f = flip_count(h, emas, m - 1);
        let ck = h.cooldown + h.k;
        assert((f + 1) * ck == f * ck + ck) by (nonlinear_arith);
    }
}

/// Hysteresis cannot thrash: from any state whose cooldown is within its
/// setting, `m` readings flip the decision at most
/// `(m + cooldown + run) / (cooldown + k)` times, whatever the readings.
pub proof fn lemma_hysteresis_flip_bound(h: Hysteresis, emas: Seq<u32>)
    requires
        h.cool <= h.cooldown,
    ensures
        flip_count(h, emas, emas.len() as int) * (h.cooldown + h.k) <= emas.len() + h.cooldown + h.run,
{
    lemma_hyst_credit(h, emas, emas.len() as int);
}

proof fn lemma_after_flip(h: Hysteresis, emas: Seq<u32>, t1: int, d: int)
    requires
        0 <= t1,
        0 <= d,
        t1 + 1 + d <= emas.len(),
        flips_at(h, emas, t1),
        forall|j: int| t1 < j < t1 + 1 + d ==> !#[trigger] flips_at(h, emas, j),
    ensures
        hyst_run(h, emas.take(t1 + 1 + d)).cool <= h.cooldown,
        hyst_run(h, emas.take(t1 + 1 + d)).run + h.cooldown - hyst_run(h, emas.take(t1 + 1 + d)).cool
            <= d,
    decreases d,
{
    if d == 0 {
        lemma_run_step(h, emas, t1);
        lemma_run_settings(h, emas.take(t1));
    } else {
        lemma_after_flip(h, emas, t1, d - 1);
        lemma_run_step(h, emas, t1 + d);
        lemma_run_settings(h, emas.take(t1 + d));
        assert(!flips_at(h, emas, t1 + d));
    }
}

proof fn lemma_before_first_flip(h: Hysteresis, emas: Seq<u32>, d: int)
    requires
        h.run == 0,
        h.cool == 0,
        0 <= d <= emas.len(),
        forall|j: int| 0 <= j < d ==> !#[trigger] flips_at(h, emas, j),
    ensures
        hyst_run(h, emas.take(d)).cool == 0,
        hyst_run(h, emas.take(d)).run <= d,
    decreases d,
{
    if d == 0 {
        assert(emas.take(0) =~= Seq::<u32>::empty());
    } else {
        lemma_before_first_flip(h, emas, d - 1);
        lemma_run_step(h, emas, d - 1);
        lemma_run_settings(h, emas.take(d - 1));
        assert(!flips_at(h, emas, d - 1));
    }
}

/// Two successive flips are at least `cooldown + k` readings apart: the
/// cooldown readings are ignored and then `k` readings past the edge are
/// needed.
pub proof fn lemma_hysteresis_flip_spacing(h: Hysteresis, emas: Seq<u32>, t1: int, t2: int)
    requires
        0 <= t1 < t2 < emas.len(),
        flips_at(h, emas, t1),
        flips_at(h, emas, t2),
        forall|j: int| t1 < j < t2 ==> !#[trigger] flips_at(h, emas, j),
    ensures
        t2 - t1 >= h.cooldown + h.k,
{
    lemma_after_flip(h, emas, t1, t2 - t1 - 1);
    lemma_run_step(h, emas, t2);
    lemma_run_settings(h, emas.take(t2));
}

/// From a fresh comparator (no run, no cooldown) the first flip needs at least
/// `k` readings.
pub proof fn lemma_hysteresis_first_flip(h: Hysteresis, emas: Seq<u32>, t: int)
    requires
        h.run == 0,
        h.cool == 0,
        0 <= t < emas.len(),
        flips_at(h, emas, t),
        forall|j: int| 0 <= j < t ==> !#[trigger] flips_at(h, emas, j),
    ensures
        t + 1 >= h.k,
{
    lemma_before_first_flip(h, emas, t);
    lemma_run_step(h, emas, t);
    lemma_run_settings(h, emas.take(t));
}

impl Hysteresis {
    /// Takes one EMA reading. During cooldown it only counts the cooldown
    /// down; otherwise a reading past the active edge extends the run, and a
    /// run of `k` flips the decision and starts the cooldown.
    pub fn observe(&mut self, ema: u32)
        ensures
            *final(self) == hyst_step(*old(self), ema),
    {
        if self.cool > 0 {
            self.cool = self.cool - 1;
            self.run = 0;
            return ;
        }
        let past = if self.state {
            ema < self.lo
        } else {
            ema >= self.hi
        };
        if past {
            self.run = self.run.wrapping_add(1);
            if self.run >= self.k {
                self.state = !self.state;
                self.transitions = self.transitions.wrapping_add(1);
                self.run = 0;
                self.cool = self.cooldown;
            }
        } else {
            self.run = 0;
        }
    }
}

/// The synthetic metric stream of frame `frame`: a slow triangle trend from
/// `threshold - 40` to `threshold + 40` and back over 400 frames, plus or minus
/// 15 of alternating noise, clamped at 0.
pub open spec fn spec_metric(frame: u32, threshold: u32) -> u32 {
    let t = frame % 400;
    let trend = if t < 200 {
        t as int
    } else {
        400 - t
    };
    let level: int = threshold - 40 + trend * 80 / 200;
    let noise: int = if frame % 2 == 0 {
        15
    } else {
        -15
    };
    let v = level + noise;
    (if v > 0 {
        v
    } else {
        0
    }) as u32
}

/// The metric reading of a frame.
pub fn metric(frame: u32, threshold: u32) -> (r: u32)
    ensures
        r == spec_metric(frame, threshold),
{
    let t = frame % 400;
    let trend: u32 = if t < 200 {
        t
    } else {
        400 - t
    };
    let level: i64 = threshold as i64 - 40 + (trend as i64 * 80 / 200);
    let noise: i64 = if frame % 2 == 0 {
        15
    } else {
        -15
    };
    let v = level + noise;
    let clamped: i64 = if v > 0 {
        v
    } else {
        0
    };
    clamped as u32
}

} // verus!
