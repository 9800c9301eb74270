//! Head and tail convergence: two cores claim records from opposite ends of
//! `[0, n)` through one packed cursor word until the cursors cross.
//!
//! The cursor packs the next head index (`low`, high 32 bits) and the next
//! tail index (`high`, low 32 bits). The unclaimed records are always the
//! interval `[low, high]`; a claim hands out one end of it.
use vstd::prelude::*;
use crate::kernels::M1;

verus! {

/// The per-record commutative op of the converging fiber.
pub open spec fn spec_f(i: u32) -> u32 {
    i.wrapping_mul(M1) ^ (i >> 3u32)
}

/// Per-record op: `i * M1 ^ (i >> 3)` (wrapping).
pub fn f(i: u32) -> (r: u32)
    ensures
        r == spec_f(i),
{
    i.wrapping_mul(M1) ^ (i >> 3u32)
}

/// The cursor word of `(low, high)`.
pub open spec fn spec_pack(low: u32, high: u32) -> u64 {
    ((low as u64) << 32u64) | (high as u64)
}

/// The head cursor of a cursor word.
pub open spec fn cursor_low(w: u64) -> u32 {
    (w >> 32u64) as u32
}

/// The tail cursor of a cursor word.
pub open spec fn cursor_high(w: u64) -> u32 {
    (w & 0xffff_ffffu64) as u32
}

/// Packs the two cursors into one word.
pub fn pack(low: u32, high: u32) -> (w: u64)
    ensures
        w == spec_pack(low, high),
        cursor_low(w) == low,
        cursor_high(w) == high,
{
    let w = ((low as u64) << 32u64) | (high as u64);
    proof {
        assert(((((low as u64) << 32u64) | (high as u64)) >> 32u64) as u32 == low) by (bit_vector);
        assert(((((low as u64) << 32u64) | (high as u64)) & 0xffff_ffffu64) as u32 == high)
            by (bit_vector);
    }
    w
}

/// Splits a cursor word into `(low, high)`.
pub fn unpack(w: u64) -> (r: (u32, u32))
    ensures
        r.0 == cursor_low(w),
        r.1 == cursor_high(w),
        spec_pack(r.0, r.1) == w,
{
    let r = ((w >> 32u64) as u32, (w & 0xffff_ffffu64) as u32);
    proof {
        assert(((((w >> 32u64) as u32) as u64) << 32u64) | (((w & 0xffff_ffffu64) as u32) as u64)
            == w) by (bit_vector);
    }
    r
}

/// Packing then unpacking gives the cursors back.
pub proof fn lemma_pack_roundtrip(low: u32, high: u32)
    ensures
        cursor_low(spec_pack(low, high)) == low,
        cursor_high(spec_pack(low, high)) == high,
{
    assert(((((low as u64) << 32u64) | (high as u64)) >> 32u64) as u32 == low) by (bit_vector);
    assert(((((low as u64) << 32u64) | (high as u64)) & 0xffff_ffffu64) as u32 == high)
        by (bit_vector);
}

/// The records a cursor word still leaves unclaimed: `[low, high]`.
pub open spec fn unclaimed(w: u64) -> Set<int> {
    Set::new(|i: int| cursor_low(w) <= i <= cursor_high(w))
}

/// A cursor word that a claim can advance: the head cursor can move up one.
pub open spec fn cursor_ok(w: u64) -> bool {
    cursor_low(w) < u32::MAX || cursor_low(w) > cursor_high(w)
}

/// The head core's claim: hands out the lowest unclaimed record and moves the
/// head cursor up; `None` once the cursors have crossed.
pub fn claim_head(cursor: &mut u64) -> (r: Option<u32>)
    requires
        cursor_ok(*old(cursor)),
    ensures
        cursor_low(*old(cursor)) > cursor_high(*old(cursor)) ==> r is None && *final(cursor) == *old(
            cursor,
        ),
        cursor_low(*old(cursor)) <= cursor_high(*old(cursor)) ==> r == Some(cursor_low(*old(cursor)))
            && *final(cursor) == spec_pack(
            (cursor_low(*old(cursor)) + 1) as u32,
            cursor_high(*old(cursor)),
        ),
        (*final(cursor), r) == claim_step(*old(cursor), true),
{
    let (low, high) = unpack(*cursor);
    if low > high {
        return None;
    }
    *cursor = pack(low + 1, high);
    Some(low)
}

/// The tail core's claim: hands out the highest unclaimed record and moves the
/// tail cursor down; claiming record 0 leaves the crossed word `(1, 0)`.
pub fn claim_tail(cursor: &mut u64) -> (r: Option<u32>)
    ensures
        cursor_low(*old(cursor)) > cursor_high(*old(cursor)) ==> r is None && *final(cursor) == *old(
            cursor,
        ),
        cursor_low(*old(cursor)) <= cursor_high(*old(cursor)) ==> r == Some(
            cursor_high(*old(cursor)),
        ) && *final(cursor) == (if cursor_high(*old(cursor)) == 0 {
            spec_pack(1, 0)
        } else {
            spec_pack(cursor_low(*old(cursor)), (cursor_high(*old(cursor)) - 1) as u32)
        }),
        (*final(cursor), r) == claim_step(*old(cursor), false),
{
    let (low, high) = unpack(*cursor);
    if low > high {
        return None;
    }
    let nw = if high == 0 {
        pack(1, 0)
    } else {
        pack(low, high - 1)
    };
    *cursor = nw;
    Some(high)
}

/// Exactly-once claiming: a claim from either end hands out a record that was
/// unclaimed and removes exactly that record from the unclaimed interval; a
/// claim that returns `None` finds nothing left.
pub proof fn lemma_claim_exactly_once(w: u64, head: bool)
    requires
        cursor_ok(w),
    ensures
        cursor_low(w) > cursor_high(w) ==> unclaimed(w) == Set::<int>::empty(),
        cursor_low(w) <= cursor_high(w) && head ==> unclaimed(w).contains(cursor_low(w) as int)
            && unclaimed(spec_pack((cursor_low(w) + 1) as u32, cursor_high(w))) == unclaimed(
            w,
        ).remove(cursor_low(w) as int),
        cursor_low(w) <= cursor_high(w) && !head ==> unclaimed(w).contains(cursor_high(w) as int)
            && unclaimed(
            if cursor_high(w) == 0 {
                spec_pack(1, 0)
            } else {
                spec_pack(cursor_low(w), (cursor_high(w) - 1) as u32)
            },
        ) == unclaimed(w).remove(cursor_high(w) as int),
{
    let l = cursor_low(w);
    let h = cursor_high(w);
    if l > h {
        assert(unclaimed(w) =~= Set::<int>::empty());
    } else if head {
        lemma_pack_roundtrip((l + 1) as u32, h);
        assert(unclaimed(spec_pack((l + 1) as u32, h)) =~= unclaimed(w).remove(l as int));
    } else if h == 0 {
        lemma_pack_roundtrip(1, 0);
        assert(unclaimed(spec_pack(1, 0)) =~= unclaimed(w).remove(h as int));
    } else {
        lemma_pack_roundtrip(l, (h - 1) as u32);
        assert(unclaimed(spec_pack(l, (h - 1) as u32)) =~= unclaimed(w).remove(h as int));
    }
}

/// One claim on the cursor word `w` from the head (`head`) or the tail: the
/// new word and the record handed out, if any.
pub open spec fn claim_step(w: u64, head: bool) -> (u64, Option<u32>) {
    let l = cursor_low(w);
    let h = cursor_high(w);
    if l > h {
        (w, None)
    } else if head {
        (spec_pack((l + 1) as u32, h), Some(l))
    } else if h == 0 {
        (spec_pack(1, 0), Some(h))
    } else {
        (spec_pack(l, (h - 1) as u32), Some(h))
    }
}

/// The claims `heads` made one after another from the word `w` (in whatever
/// order the cores' claims take effect on the shared word): the final word and
/// each claim's result.
pub open spec fn claim_seq(w: u64, heads: Seq<bool>) -> (u64, Seq<Option<u32>>)
    decreases heads.len(),
{
    if heads.len() == 0 {
        (w, Seq::empty())
    } else {
        let prev = claim_seq(w, heads.drop_last());
        let step = claim_step(prev.0, heads.last());
        (step.0, prev.1.push(step.1))
    }
}

/// Exactly-once claiming over any sequence of head and tail claims from the
/// cursor word `(0, n - 1)`: every record handed out is below `n` and handed
/// out once; the records handed out are exactly those no longer unclaimed;
/// once a claim finds nothing, every later claim finds nothing. So when the
/// claims end with `None`, every record in `[0, n)` was handed out exactly
/// once.
pub proof fn lemma_claims_exactly_once(n: int, heads: Seq<bool>)
    requires
        1 <= n <= u32::MAX,
    ensures
        ({
            let st = claim_seq(spec_pack(0, (n - 1) as u32), heads);
            &&& st.1.len() == heads.len()
            &&& cursor_high(st.0) < n
            &&& cursor_low(st.0) <= cursor_high(st.0) + 1
            &&& forall|t: int|
                0 <= t < heads.len() && (#[trigger] st.1[t]) is Some ==> st.1[t]->0 < n && !unclaimed(st.0).contains(
                    st.1[t]->0 as int,
                )
            &&& forall|t1: int, t2: int|
                0 <= t1 < t2 < heads.len() && (#[trigger] st.1[t1]) is Some ==> #[trigger] st.1[t2] != st.1[t1]
            &&& forall|i: int|
                0 <= i < n && !unclaimed(st.0).contains(i) ==> exists|t: int|
                    0 <= t < heads.len() && #[trigger] st.1[t] == Some(i as u32)
            &&& forall|t: int| 0 <= t < heads.len() && (#[trigger] st.1[t]) is None ==> cursor_low(st.0) > cursor_high(st.0)
            &&& forall|t1: int, t2: int|
                0 <= t1 < t2 < heads.len() && (#[trigger] st.1[t1]) is None ==> (#[trigger] st.1[t2]) is None
        }),
    decreases heads.len(),
{
    let w0 = spec_pack(0, (n - 1) as u32);
    lemma_pack_roundtrip(0, (n - 1) as u32);
    if heads.len() == 0 {
        let st = claim_seq(w0, heads);
        assert forall|i: int| 0 <= i < n && !unclaimed(st.0).contains(i) implies exists|t: int|
            0 <= t < heads.len() && #[trigger] st.1[t] == Some(i as u32) by {
            assert(unclaimed(st.0).contains(i));
        }
    } else {
        let pre = heads.drop_last();
        lemma_claims_exactly_once(n, pre);
        let p = claim_seq(w0, pre);
        let w = p.0;
        let head = heads.last();
        let step = claim_step(w, head);
        let st = claim_seq(w0, heads);
        assert(st.0 == step.0 && st.1 == p.1.push(step.1));
        let m = pre.len() as int;
        let l = cursor_low(w);
        let h = cursor_high(w);
        lemma_claim_exactly_once(w, head);
        if l > h {
            assert(st.0 == w);
        } else if head {
            lemma_pack_roundtrip((l + 1) as u32, h);
        } else if h == 0 {
            lemma_pack_roundtrip(1, 0);
        } else {
            lemma_pack_roundtrip(l, (h - 1) as u32);
        }
        assert forall|t: int|
            0 <= t < heads.len() && (#[trigger] st.1[t]) is Some implies st.1[t]->0 < n && !unclaimed(st.0).contains(
                st.1[t]->0 as int,
            ) by {
            if t < m {
                assert(st.1[t] == p.1[t]);
            }
        }
        assert forall|t1: int, t2: int|
            0 <= t1 < t2 < heads.len() && (#[trigger] st.1[t1]) is Some implies #[trigger] st.1[t2] != st.1[t1] by {
            assert(st.1[t1] == p.1[t1]);
            if t2 < m {
                assert(st.1[t2] == p.1[t2]);
            } else {
                assert(p.1[t1] is Some);
                assert(!unclaimed(w).contains(p.1[t1]->0 as int));
            }
        }
        assert forall|i: int| 0 <= i < n && !unclaimed(st.0).contains(i) implies exists|t: int|
            0 <= t < heads.len() && #[trigger] st.1[t] == Some(i as u32) by {
            if !unclaimed(w).contains(i) {
                let t = choose|t: int| 0 <= t < pre.len() && #[trigger] p.1[t] == Some(i as u32);
                assert(st.1[t] == p.1[t]);
            } else {
                assert(st.1[m] == step.1);
                if head {
                    assert(i == l);
                } else {
                    assert(i == h);
                }
            }
        }
        assert forall|t: int| 0 <= t < heads.len() && (#[trigger] st.1[t]) is None implies cursor_low(st.0)
            > cursor_high(st.0) by {
            if t < m {
                assert(st.1[t] == p.1[t]);
            }
        }
        assert forall|t1: int, t2: int|
            0 <= t1 < t2 < heads.len() && (#[trigger] st.1[t1]) is None implies (#[trigger] st.1[t2]) is None by {
            assert(st.1[t1] == p.1[t1]);
            if t2 < m {
                assert(st.1[t2] == p.1[t2]);
            }
        }
    }
}

/// Runs the convergence over `[0, n)` with one interleaving of the two cores:
/// attempt `k` is made by the head core if `schedule[k]` holds, by the tail
/// core otherwise (after the schedule ends the head core goes on alone), until
/// both find the cursors crossed. Returns the output column (`f(i)` at `i`)
/// and how many times each record was claimed.
pub fn run_convergence(n: usize, schedule: &Vec<bool>) -> (r: (Vec<u32>, Vec<u32>))
    requires
        0 < n,
        n <= u32::MAX,
    ensures
        r.0.len() == n && r.1.len() == n,
        forall|i: int| 0 <= i < n ==> #[trigger] r.0[i] == spec_f(i as u32),
        forall|i: int| 0 <= i < n ==> #[trigger] r.1[i] == 1,
{
    let mut out: Vec<u32> = vec![0u32; n];
    let mut processed: Vec<u32> = vec![0u32; n];
    let mut cursor = pack(0, (n - 1) as u32);
    let mut k: usize = 0;
    let mut done = false;
    while !done
        invariant
            0 < n <= u32::MAX,
            out.len() == n && processed.len() == n,
            done ==> cursor_low(cursor) > cursor_high(cursor),
            cursor_high(cursor) < n,
            cursor_low(cursor) <= cursor_high(cursor) + 1,
            cursor_low(cursor) <= cursor_high(cursor) ==> cursor_high(cursor) + 1 <= n,
            forall|i: int|
                0 <= i < n ==> #[trigger] processed[i] == (if unclaimed(cursor).contains(i) {
                    0u32
                } else {
                    1u32
                }),
            forall|i: int|
                0 <= i < n && !unclaimed(cursor).contains(i) ==> #[trigger] out[i] == spec_f(
                    i as u32,
                ),
        decreases (if done {
            0int
        } else {
            cursor_high(cursor) + 2 - cursor_low(cursor)
        }),
    {
        let head = if k < schedule.len() {
            schedule[k]
        } else {
            true
        };
        if k < schedule.len() {
            k = k + 1;
        }
        let ghost w = cursor;
        proof {
            lemma_claim_exactly_once(w, head);
        }
        let claimed = if head {
            claim_head(&mut cursor)
        } else {
            claim_tail(&mut cursor)
        };
        match claimed {
            Some(i) => {
                proof {
                    if head {
                        lemma_pack_roundtrip((cursor_low(w) + 1) as u32, cursor_high(w));
                    } else if cursor_high(w) == 0 {
                        lemma_pack_roundtrip(1, 0);
                    } else {
                        lemma_pack_roundtrip(cursor_low(w), (cursor_high(w) - 1) as u32);
                    }
                }
                out.set(i as usize, f(i));
                let c = processed[i as usize] + 1;
                processed.set(i as usize, c);
            },
            None => {
                done = true;
            },
        }
    }
    proof {
        assert forall|i: int| 0 <= i < n implies !unclaimed(cursor).contains(i) by {}
    }
    (out, processed)
}

} // verus!
