//! Core topology: logical cores per performance level (level 0 = the
//! performance cores, the later levels = the efficiency cores), and the
//! topology built from the platform's probe readings.
use vstd::prelude::*;

verus! {

/// Number of performance levels a topology can hold.
pub const MAX_LEVELS: usize = 8;

/// Number of performance-level probes the platform offers.
pub const LEVEL_PROBES: usize = 4;

/// Logical cores per performance level; `levels` levels are in use.
#[derive(Clone, Copy, Debug)]
pub struct CoreTopology {
    pub levels: usize,
    pub logical_per_level: [usize; 8],
}

/// The levels in use, capped at `MAX_LEVELS`.
pub open spec fn used_levels(t: CoreTopology) -> int {
    if t.levels < MAX_LEVELS {
        t.levels as int
    } else {
        MAX_LEVELS as int
    }
}

/// Sum of the logical cores of levels `[from, to)`.
pub open spec fn level_sum(t: CoreTopology, from: int, to: int) -> int
    decreases to - from,
{
    if to <= from {
        0
    } else {
        level_sum(t, from, to - 1) + t.logical_per_level[to - 1] as int
    }
}

proof fn lemma_level_sum_split(t: CoreTopology, from: int, mid: int, to: int)
    requires
        from <= mid <= to,
    ensures
        level_sum(t, from, to) == level_sum(t, from, mid) + level_sum(t, mid, to),
    decreases to - mid,
{
    if to > mid {
        lemma_level_sum_split(t, from, mid, to - 1);
    }
}

proof fn lemma_level_sum_mono(t: CoreTopology, from: int, to: int)
    requires
        from <= to,
    ensures
        level_sum(t, from, to) >= 0,
    decreases to - from,
{
    if to > from {
        lemma_level_sum_mono(t, from, to - 1);
    }
}

impl CoreTopology {
    /// All logical cores.
    pub fn total_logical(&self) -> (r: usize)
        requires
            level_sum(*self, 0, used_levels(*self)) <= usize::MAX,
        ensures
            r == level_sum(*self, 0, used_levels(*self)),
    {
        let lim = if self.levels < MAX_LEVELS {
            self.levels
        } else {
            MAX_LEVELS
        };
        let mut s: usize = 0;
        let mut i: usize = 0;
        while i < lim
            invariant
                lim == used_levels(*self),
                i <= lim <= 8,
                s == level_sum(*self, 0, i as int),
                level_sum(*self, 0, lim as int) <= usize::MAX,
            decreases lim - i,
        {
            proof {
                lemma_level_sum_split(*self, 0, i + 1, lim as int);
                lemma_level_sum_mono(*self, i + 1, lim as int);
            }
            s = s + self.logical_per_level[i];
            i = i + 1;
        }
        s
    }

    /// More than one performance level.
    pub fn is_heterogeneous(&self) -> (r: bool)
        ensures
            r == (self.levels > 1),
    {
        self.levels > 1
    }

    /// The performance cores: the logical cores of level 0 (none without levels).
    pub fn p_cores(&self) -> (r: usize)
        ensures
            r == (if self.levels == 0 {
                0
            } else {
                self.logical_per_level[0]
            }),
    {
        if self.levels == 0 {
            0
        } else {
            self.logical_per_level[0]
        }
    }

    /// The efficiency cores: the logical cores of every level after 0.
    pub fn e_cores(&self) -> (r: usize)
        requires
            level_sum(*self, 0, used_levels(*self)) <= usize::MAX,
        ensures
            r == level_sum(*self, 1, used_levels(*self)),
    {
        let lim = if self.levels < MAX_LEVELS {
            self.levels
        } else {
            MAX_LEVELS
        };
        let mut s: usize = 0;
        let mut i: usize = 1;
        proof {
            if lim >= 1 {
                lemma_level_sum_split(*self, 0, 1, lim as int);
                lemma_level_sum_mono(*self, 0, 1);
            }
        }
        while i < lim
            invariant
                lim == used_levels(*self),
                1 <= i,
                i <= lim || lim == 0,
                lim <= 1 ==> i == 1,
                lim <= 8,
                i <= 8,
                lim >= 1 ==> level_sum(*self, 1, lim as int) <= usize::MAX,
                s == level_sum(*self, 1, i as int),
            decreases lim - i,
        {
            proof {
                lemma_level_sum_split(*self, 1, i + 1, lim as int);
                lemma_level_sum_mono(*self, i + 1, lim as int);
            }
            s = s + self.logical_per_level[i];
            i = i + 1;
        }
        proof {
            if lim <= 1 {
                assert(level_sum(*self, 1, lim as int) == 0);
            } else {
                assert(i == lim);
            }
            assert(s == level_sum(*self, 1, lim as int));
            assert(lim == used_levels(*self));
        }
        s
    }
}

/// The performance and efficiency cores partition the logical cores of any
/// topology with at least one level.
pub proof fn lemma_p_plus_e(t: CoreTopology)
    requires
        t.levels >= 1,
    ensures
        (t.logical_per_level[0] as int) + level_sum(t, 1, used_levels(t)) == level_sum(
            t,
            0,
            used_levels(t),
        ),
{
    lemma_level_sum_split(t, 0, 1, used_levels(t));
    assert(level_sum(t, 0, 0) == 0);
    assert(level_sum(t, 0, 1) == t.logical_per_level[0] as int);
}

/// The single-level topology with `total` logical cores.
pub fn homogeneous(total: usize) -> (r: CoreTopology)
    ensures
        r.levels == 1,
        r.logical_per_level[0] == total,
        forall|i: int| 1 <= i < MAX_LEVELS ==> #[trigger] r.logical_per_level[i] == 0,
{
    let mut logical = [0usize; 8];
    logical[0] = total;
    CoreTopology { levels: 1, logical_per_level: logical }
}

/// A probe reading as a count: absent readings count as 1, and at least 1.
pub open spec fn probe_count(p: Option<i32>) -> int {
    match p {
        Some(v) => if v > 1 {
            v as int
        } else {
            1
        },
        None => 1,
    }
}

/// Number of leading level probes among `[0, lim)` from `i` on that read a
/// positive count.
pub open spec fn leading_levels(probes: Seq<Option<i32>>, lim: int, i: int) -> int
    decreases lim - i,
{
    if i >= lim {
        0
    } else {
        match probes[i] {
            Some(c) => if c > 0 {
                1 + leading_levels(probes, lim, i + 1)
            } else {
                0
            },
            None => 0,
        }
    }
}

/// How many level probes are consulted: the probed level count, capped at
/// the number of level probes.
pub open spec fn probe_limit(nlevels: Option<i32>) -> int {
    if probe_count(nlevels) < LEVEL_PROBES {
        probe_count(nlevels)
    } else {
        LEVEL_PROBES as int
    }
}

proof fn lemma_leading_levels(probes: Seq<Option<i32>>, lim: int, i: int)
    requires
        0 <= i <= lim,
    ensures
        0 <= leading_levels(probes, lim, i) <= lim - i,
        forall|k: int|
            i <= k < i + leading_levels(probes, lim, i) ==> (#[trigger] probes[k] matches Some(c)
                && c > 0),
    decreases lim - i,
{
    if i < lim {
        lemma_leading_levels(probes, lim, i + 1);
    }
}

/// Builds the topology from the platform's readings: the level count, the
/// per-level logical counts (levels 0..3) and the total logical count. Levels
/// are taken while their reading is positive; with none, the topology is a
/// single level holding the total.
pub fn topology_from_probes(
    nlevels: Option<i32>,
    level_probes: &Vec<Option<i32>>,
    total: Option<i32>,
) -> (r: CoreTopology)
    requires
        level_probes.len() == LEVEL_PROBES,
    ensures
        leading_levels(level_probes@, probe_limit(nlevels), 0) == 0 ==> r.levels == 1
            && r.logical_per_level[0] == probe_count(total) && forall|i: int|
            1 <= i < MAX_LEVELS ==> #[trigger] r.logical_per_level[i] == 0,
        leading_levels(level_probes@, probe_limit(nlevels), 0) > 0 ==> r.levels == leading_levels(
            level_probes@,
            probe_limit(nlevels),
            0,
        ) && (forall|i: int|
            0 <= i < r.levels ==> (#[trigger] level_probes@[i] matches Some(c)
                && r.logical_per_level[i] == c)) && forall|i: int|
            r.levels <= i < MAX_LEVELS ==> #[trigger] r.logical_per_level[i] == 0,
{
    let n: usize = match nlevels {
        Some(v) => if v > 1 {
            v as usize
        } else {
            1
        },
        None => 1,
    };
    let lim = if n < LEVEL_PROBES {
        n
    } else {
        LEVEL_PROBES
    };
    let mut logical = [0usize; 8];
    let mut real_levels: usize = 0;
    let mut i: usize = 0;
    let ghost probes = level_probes@;
    proof {
        lemma_leading_levels(probes, lim as int, 0);
    }
    while i < lim
        invariant_except_break
            leading_levels(probes, lim as int, 0) >= i,
        invariant
            probes == level_probes@,
            level_probes.len() == LEVEL_PROBES,
            lim == probe_limit(nlevels),
            lim <= LEVEL_PROBES,
            i <= lim,
            real_levels == i,
            forall|k: int| 0 <= k < i ==> (#[trigger] probes[k] matches Some(c) && logical[k] == c),
            forall|k: int| i <= k < 8 ==> #[trigger] logical[k] == 0,
            leading_levels(probes, lim as int, 0) == i + leading_levels(probes, lim as int, i as int),
        ensures
            real_levels == leading_levels(probes, lim as int, 0),
            forall|k: int| 0 <= k < real_levels ==> (#[trigger] probes[k] matches Some(c) && logical[k] == c),
            forall|k: int| real_levels <= k < 8 ==> #[trigger] logical[k] == 0,
        decreases lim - i,
    {
        match level_probes[i] {
            Some(c) => {
                if c > 0 {
                    proof {
                        lemma_leading_levels(probes, lim as int, i + 1);
                        assert(leading_levels(probes, lim as int, i as int) == 1 + leading_levels(
                            probes,
                            lim as int,
                            i + 1,
                        ));
                    }
                    logical[i] = c as usize;
                    real_levels = real_levels + 1;
                } else {
                    break;
                }
            },
            None => {
                break;
            },
        }
        i = i + 1;
    }
    if real_levels == 0 {
        let t: usize = match total {
            Some(v) => if v > 1 {
                v as usize
            } else {
                1
            },
            None => 1,
        };
        logical[0] = t;
        return CoreTopology { levels: 1, logical_per_level: logical };
    }
    CoreTopology { levels: real_levels, logical_per_level: logical }
}

} // verus!
