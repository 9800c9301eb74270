//! Phase renumbering by lifecycle rank: each work unit carries a pair
//! (lifecycle rank, waist phase); the final phase of a unit is the number of
//! distinct pairs that are lexicographically smaller than its own. This gives
//! contiguous phase bands ordered rank-first.
use vstd::prelude::*;

verus! {

/// Lexicographic `<` on (rank, waist phase) pairs.
pub open spec fn spec_lex_lt(ri: u8, wi: usize, rj: u8, wj: usize) -> bool {
    ri < rj || (ri == rj && wi < wj)
}

/// `(ri, wi) < (rj, wj)` lexicographically.
pub fn lex_lt(ri: u8, wi: usize, rj: u8, wj: usize) -> (r: bool)
    ensures
        r == spec_lex_lt(ri, wi, rj, wj),
{
    ri < rj || (ri == rj && wi < wj)
}

/// `(ri, wi) == (rj, wj)`.
pub fn pair_eq(ri: u8, wi: usize, rj: u8, wj: usize) -> (r: bool)
    ensures
        r == (ri == rj && wi == wj),
{
    ri == rj && wi == wj
}

/// Unit `j` is the first unit carrying its pair.
pub open spec fn first_occurrence(rank: Seq<u8>, wphase: Seq<usize>, j: int) -> bool {
    forall|k: int| 0 <= k < j ==> !(rank[k] == rank[j] && wphase[k] == wphase[j])
}

/// Unit `j` counts towards unit `i`'s phase: its pair is smaller than `i`'s and
/// it is the first unit carrying that pair.
pub open spec fn counts_below(rank: Seq<u8>, wphase: Seq<usize>, i: int, j: int) -> bool {
    spec_lex_lt(rank[j], wphase[j], rank[i], wphase[i]) && first_occurrence(rank, wphase, j)
}

/// How many of units `[0, upto)` count towards unit `i`'s phase.
pub open spec fn below_count(rank: Seq<u8>, wphase: Seq<usize>, i: int, upto: int) -> nat
    decreases upto,
{
    if upto <= 0 {
        0
    } else {
        below_count(rank, wphase, i, upto - 1) + (if counts_below(rank, wphase, i, upto - 1) {
            1nat
        } else {
            0nat
        })
    }
}

proof fn lemma_below_count_le(rank: Seq<u8>, wphase: Seq<usize>, i: int, upto: int)
    requires
        upto >= 0,
    ensures
        below_count(rank, wphase, i, upto) <= upto,
    decreases upto,
{
    if upto > 0 {
        lemma_below_count_le(rank, wphase, i, upto - 1);
    }
}

/// Writes the phase of each of the first `n` units into `phase_out`: the number
/// of distinct (rank, waist phase) pairs below the unit's own pair.
pub fn renumber(rank: &Vec<u8>, wphase: &Vec<usize>, n: usize, phase_out: &mut Vec<usize>)
    requires
        n <= rank.len(),
        n <= wphase.len(),
        n <= old(phase_out).len(),
    ensures
        final(phase_out).len() == old(phase_out).len(),
        forall|i: int|
            0 <= i < n ==> #[trigger] final(phase_out)[i] == below_count(rank@, wphase@, i, n as int),
        forall|i: int|
            n <= i < final(phase_out).len() ==> #[trigger] final(phase_out)[i] == old(phase_out)[i],
{
    let mut i: usize = 0;
    while i < n
        invariant
            n <= rank.len() && n <= wphase.len(),
            i <= n,
            phase_out.len() == old(phase_out).len(),
            n <= phase_out.len(),
            forall|q: int|
                0 <= q < i ==> #[trigger] phase_out[q] == below_count(rank@, wphase@, q, n as int),
            forall|q: int| i <= q < phase_out.len() ==> #[trigger] phase_out[q] == old(phase_out)[q],
        decreases n - i,
    {
        let ri = rank[i];
        let wi = wphase[i];
        let mut count: usize = 0;
        let mut j: usize = 0;
        while j < n
            invariant
                n <= rank.len() && n <= wphase.len(),
                i < n,
                j <= n,
                ri == rank[i as int] && wi == wphase[i as int],
                count == below_count(rank@, wphase@, i as int, j as int),
            decreases n - j,
        {
            proof {
                lemma_below_count_le(rank@, wphase@, i as int, j as int);
            }
            let rj = rank[j];
            let wj = wphase[j];
            if lex_lt(rj, wj, ri, wi) {
                let mut first = true;
                let mut k: usize = 0;
                while k < j
                    invariant
                        n <= rank.len() && n <= wphase.len(),
                        j < n,
                        k <= j,
                        rj == rank[j as int] && wj == wphase[j as int],
                        first == (forall|q: int|
                            0 <= q < k ==> !(rank[q] == rank[j as int] && wphase[q] == wphase[j as int])),
                    decreases j - k,
                {
                    if pair_eq(rank[k], wphase[k], rj, wj) {
                        first = false;
                    }
                    k = k + 1;
                }
                if first {
                    count = count + 1;
                }
            }
            j = j + 1;
        }
        phase_out.set(i, count);
        i = i + 1;
    }
}

/// The first unit in `[k, i]` carrying unit `i`'s pair.
pub open spec fn first_index(rank: Seq<u8>, wphase: Seq<usize>, i: int, k: int) -> int
    decreases i - k,
{
    if k >= i {
        i
    } else if rank[k] == rank[i] && wphase[k] == wphase[i] {
        k
    } else {
        first_index(rank, wphase, i, k + 1)
    }
}

proof fn lemma_first_index(rank: Seq<u8>, wphase: Seq<usize>, i: int, k: int)
    requires
        0 <= k <= i,
        forall|q: int| 0 <= q < k ==> !(rank[q] == rank[i] && wphase[q] == wphase[i]),
    ensures
        0 <= first_index(rank, wphase, i, k) <= i,
        rank[first_index(rank, wphase, i, k)] == rank[i],
        wphase[first_index(rank, wphase, i, k)] == wphase[i],
        first_occurrence(rank, wphase, first_index(rank, wphase, i, k)),
    decreases i - k,
{
    if k < i && !(rank[k] == rank[i] && wphase[k] == wphase[i]) {
        lemma_first_index(rank, wphase, i, k + 1);
    }
}

proof fn lemma_count_mono(rank: Seq<u8>, wphase: Seq<usize>, a: int, b: int, upto: int)
    requires
        upto >= 0,
        spec_lex_lt(rank[a], wphase[a], rank[b], wphase[b]) || (rank[a] == rank[b] && wphase[a]
            == wphase[b]),
    ensures
        below_count(rank, wphase, a, upto) <= below_count(rank, wphase, b, upto),
    decreases upto,
{
    if upto > 0 {
        lemma_count_mono(rank, wphase, a, b, upto - 1);
    }
}

proof fn lemma_count_strict(rank: Seq<u8>, wphase: Seq<usize>, a: int, b: int, f: int, upto: int)
    requires
        0 <= f < upto,
        spec_lex_lt(rank[a], wphase[a], rank[b], wphase[b]),
        rank[f] == rank[a] && wphase[f] == wphase[a],
        first_occurrence(rank, wphase, f),
    ensures
        below_count(rank, wphase, a, upto) < below_count(rank, wphase, b, upto),
    decreases upto,
{
    if upto - 1 > f {
        lemma_count_strict(rank, wphase, a, b, f, upto - 1);
    } else {
        lemma_count_mono(rank, wphase, a, b, upto - 1);
    }
}

/// Renumbering keeps the lifecycle order and merges equal pairs: a unit with
/// a smaller (rank, waist phase) pair gets a smaller phase, and units with the
/// same pair get the same phase.
pub proof fn lemma_renumber_ordered(rank: Seq<u8>, wphase: Seq<usize>, n: int, a: int, b: int)
    requires
        0 <= a < n,
        0 <= b < n,
        n <= rank.len(),
        n <= wphase.len(),
    ensures
        spec_lex_lt(rank[a], wphase[a], rank[b], wphase[b]) ==> below_count(rank, wphase, a, n)
            < below_count(rank, wphase, b, n),
        (rank[a] == rank[b] && wphase[a] == wphase[b]) ==> below_count(rank, wphase, a, n)
            == below_count(rank, wphase, b, n),
{
    if spec_lex_lt(rank[a], wphase[a], rank[b], wphase[b]) {
        lemma_first_index(rank, wphase, a, 0);
        let f = first_index(rank, wphase, a, 0);
        lemma_count_strict(rank, wphase, a, b, f, n);
    }
    if rank[a] == rank[b] && wphase[a] == wphase[b] {
        lemma_count_mono(rank, wphase, a, b, n);
        lemma_count_mono(rank, wphase, b, a, n);
    }
}

} // verus!
