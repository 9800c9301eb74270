//! Frame shapes: which phase dispatches one frame issues, and the event log
//! the meta units write. In the current shape every phase, the lifecycle
//! bands included, runs inside the morsel loop; in the hoisted shapes the
//! leading and trailing meta bands run once per frame and only the consumer
//! phases run per morsel.
use vstd::prelude::*;

verus! {

/// One dispatch: a carrier (0 = the whole or meta carrier, 1 = the consumer
/// carrier), a phase and the morsel `[start, start + len)` it covers; meta
/// dispatches cover the empty morsel `(0, 0)`.
#[derive(Clone, Copy, Debug, PartialEq, Eq, Structural)]
pub struct Dispatch {
    pub carrier: usize,
    pub phase: usize,
    pub start: usize,
    pub len: usize,
}

/// Dispatches of phases `[a, b)` of `carrier` over one morsel.
pub open spec fn phase_run(carrier: usize, a: int, b: int, start: usize, len: usize) -> Seq<Dispatch> {
    Seq::new(
        (if b > a {
            b - a
        } else {
            0
        }) as nat,
        |k: int| Dispatch { carrier, phase: (a + k) as usize, start, len },
    )
}

/// Dispatches of phases `[a, b)` of `carrier` for every morsel from `s` on
/// (morsels of `msize` records, the last one shorter), morsel-outer.
pub open spec fn morsel_runs(carrier: usize, a: int, b: int, total: int, msize: int, s: int) -> Seq<Dispatch>
    decreases total - s,
{
    if s >= total || msize <= 0 {
        Seq::empty()
    } else {
        let len = if msize < total - s {
            msize
        } else {
            total - s
        };
        phase_run(carrier, a, b, s as usize, len as usize) + morsel_runs(
            carrier,
            a,
            b,
            total,
            msize,
            s + len,
        )
    }
}

/// Appends the dispatches of phases `[a, b)` of `carrier` over one morsel.
fn run_phases(carrier: usize, a: usize, b: usize, start: usize, len: usize, log: &mut Vec<Dispatch>)
    ensures
        final(log)@ == old(log)@ + phase_run(carrier, a as int, b as int, start, len),
{
    let ghost l0 = log@;
    let mut p = a;
    proof {
        assert(l0 + Seq::<Dispatch>::empty() =~= l0);
    }
    while p < b
        invariant
            a <= p,
            p <= b || a >= b,
            a >= b ==> p == a,
            log@ == l0 + phase_run(carrier, a as int, p as int, start, len),
        decreases b - p,
    {
        log.push(Dispatch { carrier, phase: p, start, len });
        p = p + 1;
        proof {
            assert(log@ =~= l0 + phase_run(carrier, a as int, p as int, start, len));
        }
    }
    proof {
        if a >= b {
            assert(phase_run(carrier, a as int, b as int, start, len) =~= phase_run(
                carrier,
                a as int,
                p as int,
                start,
                len,
            ));
        }
    }
}

/// Appends the dispatches of phases `[a, b)` of `carrier` for every morsel of
/// `[0, total)`.
fn run_morsels(carrier: usize, a: usize, b: usize, total: usize, msize: usize, log: &mut Vec<Dispatch>)
    requires
        msize > 0,
    ensures
        final(log)@ == old(log)@ + morsel_runs(carrier, a as int, b as int, total as int, msize as int, 0),
{
    let ghost l0 = log@;
    let mut s: usize = 0;
    proof {
        assert(l0 + morsel_runs(carrier, a as int, b as int, total as int, msize as int, 0) =~= log@
            + morsel_runs(carrier, a as int, b as int, total as int, msize as int, 0));
    }
    while s < total
        invariant
            msize > 0,
            s <= total,
            l0 + morsel_runs(carrier, a as int, b as int, total as int, msize as int, 0) == log@
                + morsel_runs(carrier, a as int, b as int, total as int, msize as int, s as int),
        decreases total - s,
    {
        let len = if msize < total - s {
            msize
        } else {
            total - s
        };
        let ghost before = log@;
        run_phases(carrier, a, b, s, len, log);
        proof {
            let rest = morsel_runs(carrier, a as int, b as int, total as int, msize as int, s + len);
            assert(before + (phase_run(carrier, a as int, b as int, s, len) + rest) =~= log@ + rest);
        }
        s = s + len;
    }
    proof {
        assert(log@ + morsel_runs(carrier, a as int, b as int, total as int, msize as int, s as int)
            =~= log@);
    }
}

/// The current frame shape: every phase from the first one the frame runs
/// (phase 0 on a replan frame, past the plan phases otherwise) runs inside
/// the morsel loop.
pub fn current_shape_frame(
    nphases: usize,
    plan: usize,
    total: usize,
    msize: usize,
    plan_dirty: bool,
    log: &mut Vec<Dispatch>,
)
    requires
        msize > 0,
    ensures
        final(log)@ == old(log)@ + morsel_runs(
            0,
            (if plan_dirty {
                0
            } else {
                plan
            }) as int,
            nphases as int,
            total as int,
            msize as int,
            0,
        ),
{
    let start = if plan_dirty {
        0
    } else {
        plan
    };
    run_morsels(0, start, nphases, total, msize, log);
}

/// The hoisted frame shape: the leading meta phases `[start, pre)` once, the
/// consumer phases `[pre, cend)` per morsel, then the trailing meta phases
/// `[cend, nphases)` once.
pub fn hoisted_frame(
    nphases: usize,
    plan: usize,
    pre: usize,
    cend: usize,
    total: usize,
    msize: usize,
    plan_dirty: bool,
    log: &mut Vec<Dispatch>,
)
    requires
        msize > 0,
    ensures
        final(log)@ == old(log)@ + phase_run(
            0,
            (if plan_dirty {
                0
            } else {
                plan
            }) as int,
            pre as int,
            0,
            0,
        ) + morsel_runs(0, pre as int, cend as int, total as int, msize as int, 0) + phase_run(
            0,
            cend as int,
            nphases as int,
            0,
            0,
        ),
{
    let start = if plan_dirty {
        0
    } else {
        plan
    };
    run_phases(0, start, pre, 0, 0, log);
    run_morsels(0, pre, cend, total, msize, log);
    run_phases(0, cend, nphases, 0, 0, log);
}

/// The split-carrier frame: the meta carrier's leading phases once, every
/// phase of the consumer carrier per morsel, then the meta carrier's
/// trailing phases once.
pub fn split_frame(
    m_nphases: usize,
    m_plan: usize,
    m_pre: usize,
    m_cend: usize,
    c_nphases: usize,
    total: usize,
    msize: usize,
    plan_dirty: bool,
    log: &mut Vec<Dispatch>,
)
    requires
        msize > 0,
    ensures
        final(log)@ == old(log)@ + phase_run(
            0,
            (if plan_dirty {
                0
            } else {
                m_plan
            }) as int,
            m_pre as int,
            0,
            0,
        ) + morsel_runs(1, 0, c_nphases as int, total as int, msize as int, 0) + phase_run(
            0,
            m_cend as int,
            m_nphases as int,
            0,
            0,
        ),
{
    let start = if plan_dirty {
        0
    } else {
        m_plan
    };
    run_phases(0, start, m_pre, 0, 0, log);
    run_morsels(1, 0, c_nphases, total, msize, log);
    run_phases(0, m_cend, m_nphases, 0, 0, log);
}

/// Number of dispatches of phases `[a, b)` over all morsels: the phase count
/// times the morsel count.
pub proof fn lemma_morsel_runs_len(carrier: usize, a: int, b: int, total: int, msize: int, s: int)
    requires
        msize > 0,
        0 <= s,
        a <= b,
    ensures
        morsel_runs(carrier, a, b, total, msize, s).len() == (b - a) * (if s < total {
            (total - s + msize - 1) / msize
        } else {
            0
        }),
    decreases total - s,
{
    if s < total {
        let len = if msize < total - s {
            msize
        } else {
            total - s
        };
        lemma_morsel_runs_len(carrier, a, b, total, msize, s + len);
        let m = if s + len < total {
            (total - s - len + msize - 1) / msize
        } else {
            0
        };
        assert((total - s + msize - 1) / msize == m + 1) by (nonlinear_arith)
            requires
                msize > 0,
                s < total,
                len == (if msize < total - s {
                    msize
                } else {
                    total - s
                }),
                m == (if s + len < total {
                    (total - s - len + msize - 1) / msize
                } else {
                    0
                }),
        ;
        assert((b - a) * (m + 1) == (b - a) + (b - a) * m) by (nonlinear_arith);
    }
}

// ---------------------------------------------------------------------
// The meta units' event log.

/// The events logged so far in a frame.
pub struct EventLog {
    pub events: Vec<u32>,
}

impl EventLog {
    /// An empty log.
    pub fn new() -> (r: EventLog)
        ensures
            r.events@ == Seq::<u32>::empty(),
    {
        EventLog { events: Vec::new() }
    }

    /// Logs event `e`.
    pub fn log_event(&mut self, e: u32)
        ensures
            final(self).events@ == old(self).events@.push(e),
    {
        self.events.push(e);
    }

    /// Takes the logged events out, leaving the log empty.
    pub fn take_log(&mut self) -> (r: Vec<u32>)
        ensures
            r@ == old(self).events@,
            final(self).events@ == Seq::<u32>::empty(),
    {
        let mut out: Vec<u32> = Vec::new();
        std::mem::swap(&mut out, &mut self.events);
        out
    }
}

/// Number of entries of `log` equal to `e`.
pub open spec fn spec_count(log: Seq<u32>, e: u32) -> nat
    decreases log.len(),
{
    if log.len() == 0 {
        0
    } else {
        spec_count(log.drop_last(), e) + (if log.last() == e {
            1nat
        } else {
            0nat
        })
    }
}

/// How many times event `e` was logged.
pub fn count(log: &Vec<u32>, e: u32) -> (r: usize)
    ensures
        r == spec_count(log@, e),
{
    let mut c: usize = 0;
    let mut k: usize = 0;
    while k < log.len()
        invariant
            k <= log.len(),
            c == spec_count(log@.take(k as int), e),
            c <= k,
        decreases log.len() - k,
    {
        proof {
            assert(log@.take(k + 1).drop_last() =~= log@.take(k as int));
        }
        if log[k] == e {
            c = c + 1;
        }
        k = k + 1;
    }
    proof {
        assert(log@.take(log.len() as int) =~= log@);
    }
    c
}

} // verus!
