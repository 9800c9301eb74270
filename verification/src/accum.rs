//! Per-core accumulator regions and their forward-compaction merge.
//!
//! An accumulator reserves one buffer whose capacity bounds the appends (at
//! most one per record). Each core owns the sub-region of the buffer at the
//! offset of its record slice and appends into it with its own live-length;
//! after the phase the live prefixes are concatenated, in core order, to the
//! front of the buffer. The result equals the single-appender run.
use vstd::prelude::*;
use crate::morsel::{record_slice, spec_slice_lo, spec_slice_hi, spec_per, lemma_slices_tile};

verus! {

/// Whether the filtering work unit keeps record `rec` (it drops multiples of 7).
pub open spec fn keeps(rec: int) -> bool {
    rec % 7 != 0
}

/// The values the filtering work unit appends over records `[lo, hi)`, in
/// record order: `rec * 10` (wrapping in 32 bits) for each kept record.
pub open spec fn kept(lo: int, hi: int) -> Seq<u32>
    decreases hi - lo,
{
    if hi <= lo {
        Seq::empty()
    } else {
        let prev = kept(lo, hi - 1);
        if keeps(hi - 1) {
            prev.push(((hi - 1) * 10) as u32)
        } else {
            prev
        }
    }
}

/// `kept` over adjacent ranges concatenates.
pub proof fn lemma_kept_split(lo: int, mid: int, hi: int)
    requires
        lo <= mid <= hi,
    ensures
        kept(lo, hi) == kept(lo, mid) + kept(mid, hi),
    decreases hi - mid,
{
    if hi == mid {
        assert(kept(mid, hi) =~= Seq::<u32>::empty());
        assert(kept(lo, mid) + kept(mid, hi) =~= kept(lo, mid));
    } else {
        lemma_kept_split(lo, mid, hi - 1);
        if keeps(hi - 1) {
            assert(kept(lo, hi) =~= kept(lo, mid) + kept(mid, hi));
        } else {
            assert(kept(lo, hi) =~= kept(lo, mid) + kept(mid, hi));
        }
    }
}

/// At most one value per record.
pub proof fn lemma_kept_len(lo: int, hi: int)
    requires
        lo <= hi,
    ensures
        kept(lo, hi).len() <= hi - lo,
    decreases hi - lo,
{
    if hi > lo {
        lemma_kept_len(lo, hi - 1);
    }
}

/// The filtering work unit's per-record decision: append `rec * 10` (wrapping) unless
/// `rec` is a multiple of 7.
pub fn wu_append_for_record(rec: usize) -> (r: Option<u32>)
    requires
    ensures
        keeps(rec as int) ==> r == Some((rec * 10) as u32),
        !keeps(rec as int) ==> r is None,
{
    if rec % 7 == 0 {
        None
    } else {
        proof {
            let r32 = rec as u32;
            assert(r32.wrapping_mul(10) == ((rec * 10) as u32)) by (bit_vector)
                requires
                    r32 == rec as u32,
            ;
        }
        Some((rec as u32).wrapping_mul(10))
    }
}

/// An accumulator's append handle: the region's first slot in the buffer, its
/// live length, and its capacity.
pub struct AccumColPtr {
    pub base: usize,
    pub len: usize,
    pub cap: usize,
}

impl AccumColPtr {
    /// A handle over the region starting at `base` with room for `cap` values.
    pub fn new(base: usize, cap: usize) -> (r: AccumColPtr)
        ensures
            r.base == base,
            r.cap == cap,
            r.len == 0,
    {
        AccumColPtr { base, len: 0, cap }
    }

    /// Appends `v` at the live end of the region; a full region drops the value
    /// (saturating capacity guard).
    pub fn append(&mut self, buf: &mut Vec<u32>, v: u32)
        requires
            old(self).base + old(self).cap <= old(buf).len(),
        ensures
            final(self).base == old(self).base,
            final(self).cap == old(self).cap,
            old(self).len >= old(self).cap ==> final(self).len == old(self).len && final(buf)@
                == old(buf)@,
            old(self).len < old(self).cap ==> final(self).len == old(self).len + 1 && final(buf)@
                == old(buf)@.update(old(self).base + old(self).len, v),
    {
        if self.len >= self.cap {
            return ;
        }
        buf.set(self.base + self.len, v);
        self.len = self.len + 1;
    }

    /// The per-core variant of this handle: its base moves `lo` slots into the
    /// region, its capacity becomes `region_cap`, and it gets a fresh live
    /// length of its own.
    pub fn rebase(&self, lo: usize, region_cap: usize) -> (r: AccumColPtr)
        requires
            self.base + lo <= usize::MAX,
        ensures
            r.base == self.base + lo,
            r.cap == region_cap,
            r.len == 0,
    {
        AccumColPtr { base: self.base + lo, len: 0, cap: region_cap }
    }
}

/// Rebases every accumulator of a projected bundle for one core: all of them
/// partition by the same record slice, so each gets the same offset and
/// capacity and its own fresh live length.
pub fn rebase_bundle(bundle: &Vec<AccumColPtr>, lo: usize, region_cap: usize) -> (r: Vec<
    AccumColPtr,
>)
    requires
        forall|i: int| 0 <= i < bundle.len() ==> bundle[i].base + lo <= usize::MAX,
    ensures
        r.len() == bundle.len(),
        forall|i: int|
            0 <= i < r.len() ==> r[i].base == bundle[i].base + lo && r[i].cap == region_cap
                && r[i].len == 0,
{
    let mut r: Vec<AccumColPtr> = Vec::new();
    let mut i: usize = 0;
    while i < bundle.len()
        invariant
            i <= bundle.len(),
            r.len() == i,
            forall|j: int| 0 <= j < bundle.len() ==> bundle[j].base + lo <= usize::MAX,
            forall|j: int|
                0 <= j < i ==> r[j].base == bundle[j].base + lo && r[j].cap == region_cap
                    && r[j].len == 0,
        decreases bundle.len() - i,
    {
        r.push(bundle[i].rebase(lo, region_cap));
        i = i + 1;
    }
    r
}

/// One core's work: appends the kept values of records `[lo, hi)` into the
/// buffer region starting at `lo` (capacity `hi - lo`) and returns the live
/// count. Only the live prefix of the region is written.
pub fn append_region(buf: &mut Vec<u32>, lo: usize, hi: usize) -> (live: usize)
    requires
        lo <= hi <= old(buf).len(),
    ensures
        final(buf).len() == old(buf).len(),
        live == kept(lo as int, hi as int).len(),
        final(buf)@.subrange(lo as int, lo + live) == kept(lo as int, hi as int),
        forall|k: int|
            0 <= k < final(buf).len() && !(lo <= k < lo + live) ==> final(buf)[k] == old(
                buf,
            )[k],
{
    let mut acc = AccumColPtr::new(lo, hi - lo);
    let mut rec = lo;
    proof {
        assert(buf@.subrange(lo as int, lo as int) =~= kept(lo as int, lo as int));
    }
    while rec < hi
        invariant
            lo <= rec <= hi <= buf.len(),
            buf.len() == old(buf).len(),
            acc.base == lo,
            acc.cap == hi - lo,
            acc.len == kept(lo as int, rec as int).len(),
            acc.len <= rec - lo,
            buf@.subrange(lo as int, lo + acc.len) == kept(lo as int, rec as int),
            forall|k: int|
                0 <= k < buf.len() && !(lo <= k < lo + acc.len) ==> buf[k] == old(buf)[k],
        decreases hi - rec,
    {
        let ghost before = buf@;
        let ghost n0 = acc.len;
        match wu_append_for_record(rec) {
            Some(v) => {
                acc.append(buf, v);
                proof {
                    assert(buf@.subrange(lo as int, lo + acc.len) =~= before.subrange(
                        lo as int,
                        lo + n0,
                    ).push(v));
                }
            },
            None => {},
        }
        rec = rec + 1;
    }
    acc.len
}

/// The single-core reference: one appender over every record of `[0, total)`
/// into a buffer of capacity `cap`; the result is the live prefix.
pub fn single_core_reference(total: usize, cap: usize) -> (r: Vec<u32>)
    requires
    ensures
        r@ == kept(0, total as int).take(
            if kept(0, total as int).len() <= cap {
                kept(0, total as int).len() as int
            } else {
                cap as int
            },
        ),
{
    let mut buf: Vec<u32> = vec![u32::MAX; cap];
    let mut acc = AccumColPtr::new(0, cap);
    let mut rec: usize = 0;
    while rec < total
        invariant
            rec <= total,
            buf.len() == cap,
            acc.base == 0,
            acc.cap == cap,
            acc.len == (if kept(0, rec as int).len() <= cap {
                kept(0, rec as int).len() as int
            } else {
                cap as int
            }),
            buf@.subrange(0, acc.len as int) == kept(0, rec as int).take(acc.len as int),
        decreases total - rec,
    {
        let ghost before = buf@;
        let ghost n0 = acc.len;
        match wu_append_for_record(rec) {
            Some(v) => {
                acc.append(&mut buf, v);
                proof {
                    assert(kept(0, rec + 1) == kept(0, rec as int).push(v));
                    if n0 < cap {
                        assert(n0 == kept(0, rec as int).len());
                        assert(kept(0, rec as int).take(n0 as int) =~= kept(0, rec as int));
                        assert(before.subrange(0, n0 as int) == kept(0, rec as int));
                        assert(buf@ == before.update(n0 as int, v));
                        assert(buf@.subrange(0, acc.len as int) =~= kept(0, rec + 1).take(
                            acc.len as int,
                        ));
                    } else {
                        assert(kept(0, rec + 1).take(acc.len as int) =~= kept(0, rec as int).take(
                            acc.len as int,
                        ));
                    }
                }
            },
            None => {
                proof {
                    assert(kept(0, rec + 1) == kept(0, rec as int));
                }
            },
        }
        rec = rec + 1;
    }
    buf.truncate(acc.len);
    proof {
        assert(buf@ =~= kept(0, total as int).take(acc.len as int));
    }
    buf
}

/// Concatenation of the per-core kept sequences for cores `[0, c)` of the
/// record-slice split of `[0, total)` over `ncores` cores.
pub open spec fn kept_cores(total: int, ncores: int, c: int) -> Seq<u32>
    decreases c,
{
    if c <= 0 {
        Seq::empty()
    } else {
        kept_cores(total, ncores, c - 1) + kept(
            spec_slice_lo(total, ncores, c - 1),
            spec_slice_hi(total, ncores, c - 1),
        )
    }
}

/// The per-core kept sequences of all cores concatenate to the whole range's.
pub proof fn lemma_kept_cores(total: int, ncores: int, c: int)
    requires
        0 < ncores,
        0 <= total,
        0 <= c <= ncores,
    ensures
        kept_cores(total, ncores, c) == kept(0, spec_slice_lo(total, ncores, c)),
    decreases c,
{
    lemma_slices_tile(total, ncores);
    if c == 0 {
        assert(kept(0, 0) =~= Seq::<u32>::empty());
    } else {
        lemma_kept_cores(total, ncores, c - 1);
        lemma_kept_split(
            0,
            spec_slice_lo(total, ncores, c - 1),
            spec_slice_hi(total, ncores, c - 1),
        );
    }
}

/// Region `d` of the buffer holds its core's kept values: `lives[d]` is their
/// count and they sit at the start of the core's record slice.
pub open spec fn region_holds(buf: Seq<u32>, total: int, ncores: int, lives: Seq<usize>, d: int) -> bool {
    let lo = spec_slice_lo(total, ncores, d);
    let hi = spec_slice_hi(total, ncores, d);
    &&& lives[d] == kept(lo, hi).len()
    &&& buf.subrange(lo, lo + lives[d]) == kept(lo, hi)
}

/// A region stays intact when every slot from `bound` on is unchanged and the
/// region starts at or after `bound`.
proof fn lemma_region_preserved(
    old_buf: Seq<u32>,
    new_buf: Seq<u32>,
    total: int,
    ncores: int,
    lives: Seq<usize>,
    d: int,
    bound: int,
)
    requires
        0 < ncores,
        0 <= total,
        0 <= d,
        old_buf.len() == new_buf.len(),
        total <= old_buf.len(),
        bound <= spec_slice_lo(total, ncores, d),
        forall|k: int| bound <= k < new_buf.len() ==> new_buf[k] == old_buf[k],
        region_holds(old_buf, total, ncores, lives, d),
    ensures
        region_holds(new_buf, total, ncores, lives, d),
{
    lemma_slices_tile(total, ncores);
    let lo = spec_slice_lo(total, ncores, d);
    let hi = spec_slice_hi(total, ncores, d);
    assert(spec_slice_lo(total, ncores, d) <= spec_slice_hi(total, ncores, d));
    lemma_kept_len(lo, hi);
    assert(new_buf.subrange(lo, lo + lives[d]) =~= old_buf.subrange(lo, lo + lives[d]));
}

/// Forward compaction: concatenates the live prefixes of the per-core regions
/// (region `c` at offset `lo_c` of the record-slice split, `lives[c]` values
/// long) in core order into the front of the buffer, then truncates to the
/// total live count.
pub fn compact_regions(buf: &mut Vec<u32>, lives: &Vec<usize>, total: usize, ncores: usize)
    requires
        0 < ncores,
        lives.len() == ncores,
        total <= old(buf).len(),
        forall|c: int|
            0 <= c < ncores ==> #[trigger] region_holds(
                old(buf)@,
                total as int,
                ncores as int,
                lives@,
                c,
            ),
    ensures
        final(buf)@ == kept(0, total as int),
{
    proof {
        lemma_slices_tile(total as int, ncores as int);
    }
    let mut write_pos: usize = 0;
    let mut c: usize = 0;
    proof {
        assert(buf@.subrange(0, 0) =~= kept_cores(total as int, ncores as int, 0));
    }
    while c < ncores
        invariant
            0 < ncores,
            c <= ncores,
            lives.len() == ncores,
            total <= buf.len(),
            buf.len() == old(buf).len(),
            write_pos == kept_cores(total as int, ncores as int, c as int).len(),
            write_pos <= spec_slice_lo(total as int, ncores as int, c as int),
            buf@.subrange(0, write_pos as int) == kept_cores(total as int, ncores as int, c as int),
            forall|d: int|
                c <= d < ncores ==> #[trigger] region_holds(
                    buf@,
                    total as int,
                    ncores as int,
                    lives@,
                    d,
                ),
        decreases ncores - c,
    {
        let (lo, hi) = record_slice(c, ncores, total);
        let live = lives[c];
        proof {
            assert(region_holds(buf@, total as int, ncores as int, lives@, c as int));
            lemma_kept_len(lo as int, hi as int);
        }
        let ghost before = buf@;
        let mut j: usize = 0;
        while j < live
            invariant
                j <= live,
                live <= hi - lo,
                write_pos <= lo,
                lo <= hi <= total <= buf.len(),
                buf.len() == before.len(),
                forall|k: int| 0 <= k < write_pos ==> #[trigger] buf[k] == before[k],
                forall|k: int|
                    write_pos <= k < write_pos + j ==> #[trigger] buf[k] == before[k - write_pos
                        + lo],
                forall|k: int| lo + j <= k < buf.len() ==> #[trigger] buf[k] == before[k],
            decreases live - j,
        {
            let v = buf[lo + j];
            buf.set(write_pos + j, v);
            j = j + 1;
        }
        proof {
            let kc = kept(lo as int, hi as int);
            let kp = kept_cores(total as int, ncores as int, c as int);
            assert(before.subrange(lo as int, lo + live) == kc);
            assert(buf@.subrange(write_pos as int, write_pos + live) =~= kc);
            assert(before.subrange(0, write_pos as int) == kp);
            assert(buf@.subrange(0, write_pos + live) =~= kp + kc);
            assert(kept_cores(total as int, ncores as int, c + 1) == kp + kc);
            assert forall|d: int| c + 1 <= d < ncores implies #[trigger] region_holds(
                buf@,
                total as int,
                ncores as int,
                lives@,
                d,
            ) by {
                crate::morsel::lemma_slice_hi_le_lo(total as int, ncores as int, c as int, d);
                lemma_region_preserved(
                    before,
                    buf@,
                    total as int,
                    ncores as int,
                    lives@,
                    d,
                    lo + live,
                );
            }
            crate::morsel::lemma_slice_hi_le_lo(total as int, ncores as int, c as int, c + 1);
        }
        write_pos = write_pos + live;
        c = c + 1;
    }
    proof {
        lemma_kept_cores(total as int, ncores as int, ncores as int);
    }
    buf.truncate(write_pos);
    proof {
        assert(buf@ =~= kept(0, total as int));
    }
}

/// The per-core region path: `ncores` cores each append their record slice of
/// `[0, total)` into their own region of one reserved buffer of capacity `cap`,
/// then the regions are compacted in core order. The cores' appends touch
/// disjoint regions, so running them one after another here computes exactly
/// what concurrent cores compute.
pub fn threaded_percore(total: usize, cap: usize, ncores: usize) -> (r: Vec<u32>)
    requires
        0 < ncores,
        total <= cap,
    ensures
        r@ == kept(0, total as int),
{
    let mut buf: Vec<u32> = vec![u32::MAX; cap];
    let mut lives: Vec<usize> = Vec::new();
    proof {
        lemma_slices_tile(total as int, ncores as int);
    }
    let mut c: usize = 0;
    while c < ncores
        invariant
            0 < ncores,
            c <= ncores,
            total <= cap,
            buf.len() == cap,
            lives.len() == c,
            forall|d: int|
                0 <= d < c ==> #[trigger] region_holds(
                    buf@,
                    total as int,
                    ncores as int,
                    lives@,
                    d,
                ),
        decreases ncores - c,
    {
        let (lo, hi) = record_slice(c, ncores, total);
        let ghost before = buf@;
        let ghost lives_before = lives@;
        let live = append_region(&mut buf, lo, hi);
        lives.push(live);
        proof {
            assert forall|d: int| 0 <= d < c + 1 implies #[trigger] region_holds(
                buf@,
                total as int,
                ncores as int,
                lives@,
                d,
            ) by {
                if d < c {
                    assert(region_holds(before, total as int, ncores as int, lives_before, d));
                    assert(lives@[d] == lives_before[d]);
                    crate::morsel::lemma_slice_hi_le_lo(total as int, ncores as int, d, c as int);
                    let dlo = spec_slice_lo(total as int, ncores as int, d);
                    let dhi = spec_slice_hi(total as int, ncores as int, d);
                    lemma_kept_len(dlo, dhi);
                    assert(buf@.subrange(dlo, dlo + lives@[d]) =~= before.subrange(
                        dlo,
                        dlo + lives@[d],
                    ));
                }
            }
        }
        c = c + 1;
    }
    compact_regions(&mut buf, &lives, total, ncores);
    buf
}

/// The oracle law of the per-core accumulator: for any core count and any
/// reserved capacity that holds one value per record, the per-core region path
/// yields exactly the single-core append.
pub proof fn lemma_percore_matches_single_core(total: int, cap: int)
    requires
        0 <= total <= cap,
    ensures
        kept(0, total).take(
            if kept(0, total).len() <= cap {
                kept(0, total).len() as int
            } else {
                cap
            },
        ) == kept(0, total),
{
    lemma_kept_len(0, total);
    assert(kept(0, total).take(kept(0, total).len() as int) =~= kept(0, total));
}

} // verus!
