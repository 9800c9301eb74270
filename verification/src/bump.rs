//! Bump allocation over a fixed arena: each request is placed at the next
//! offset aligned to the requested alignment after the bytes in use, and
//! refused when it would not fit. Nothing is ever freed. The arena's bytes are
//! the memory provider's; this is its placement arithmetic.
use vstd::prelude::*;

verus! {

/// `used` rounded up to a multiple of `align`.
pub open spec fn align_up(used: int, align: int) -> int {
    (used + align - 1) / align * align
}

/// The alignment actually used: 0 means 1.
pub open spec fn eff_align(align: usize) -> int {
    if align > 1 {
        align as int
    } else {
        1
    }
}

/// Places a request of `len` bytes aligned to `align` in an arena of `cap`
/// bytes of which `used` are taken. Returns the offset and the new `used`, or
/// `None` if it does not fit.
pub fn bump(used: usize, cap: usize, len: usize, align: usize) -> (r: Option<(usize, usize)>)
    requires
        used <= cap,
        used + eff_align(align) - 1 <= usize::MAX,
    ensures
        align_up(used as int, eff_align(align)) + len > cap ==> r is None,
        align_up(used as int, eff_align(align)) + len <= cap ==> r == Some(
            (
                align_up(used as int, eff_align(align)) as usize,
                (align_up(used as int, eff_align(align)) + len) as usize,
            ),
        ),
        r matches Some(p) ==> p.0 >= used && (p.0 as int) % eff_align(align) == 0 && p.1 == p.0 + len && p.1 <= cap,
{
    let a = if align > 1 {
        align
    } else {
        1
    };
    let s = used + (a - 1);
    let q = s / a;
    proof {
        assert(q * a <= s && q * a >= used && (q * a) % (a as int) == 0) by (nonlinear_arith)
            requires
                a >= 1,
                used >= 0,
                s == used + a - 1,
                q == (s as int) / (a as int),
        ;
    }
    let aligned = q * a;
    if aligned > cap || len > cap - aligned {
        return None;
    }
    Some((aligned, aligned + len))
}

/// A heap-backed bump arena of `cap` bytes.
pub struct HeapBump {
    pub cap: usize,
    pub used: usize,
}

impl HeapBump {
    /// An empty arena of `bytes` bytes.
    pub fn new(bytes: usize) -> (r: HeapBump)
        ensures
            r.cap == bytes,
            r.used == 0,
    {
        HeapBump { cap: bytes, used: 0 }
    }

    /// Allocates `len` bytes aligned to `align`; returns their offset, or
    /// `None` (the null pointer) if they do not fit.
    pub fn allocate(&mut self, len: usize, align: usize) -> (r: Option<usize>)
        requires
            old(self).used <= old(self).cap,
            old(self).used + eff_align(align) - 1 <= usize::MAX,
        ensures
            final(self).cap == old(self).cap,
            align_up(old(self).used as int, eff_align(align)) + len > old(self).cap ==> r is None
                && final(self).used == old(self).used,
            align_up(old(self).used as int, eff_align(align)) + len <= old(self).cap ==> r == Some(
                align_up(old(self).used as int, eff_align(align)) as usize,
            ) && final(self).used == align_up(old(self).used as int, eff_align(align)) + len,
            r matches Some(off) ==> off >= old(self).used && (off as int) % eff_align(align) == 0,
            final(self).used <= final(self).cap,
    {
        match bump(self.used, self.cap, len, align) {
            Some((off, used)) => {
                self.used = used;
                Some(off)
            },
            None => None,
        }
    }
}

/// An inline bump arena of `cap` bytes.
pub struct BumpProvider {
    pub cap: usize,
    pub used: usize,
}

impl BumpProvider {
    /// An empty arena of `cap` bytes.
    pub fn new(cap: usize) -> (r: BumpProvider)
        ensures
            r.cap == cap,
            r.used == 0,
    {
        BumpProvider { cap, used: 0 }
    }

    /// Allocates `len` bytes aligned to `align`; returns their offset, or
    /// `None` if they do not fit.
    pub fn allocate(&mut self, len: usize, align: usize) -> (r: Option<usize>)
        requires
            old(self).used <= old(self).cap,
            old(self).used + eff_align(align) - 1 <= usize::MAX,
        ensures
            final(self).cap == old(self).cap,
            align_up(old(self).used as int, eff_align(align)) + len > old(self).cap ==> r is None
                && final(self).used == old(self).used,
            align_up(old(self).used as int, eff_align(align)) + len <= old(self).cap ==> r == Some(
                align_up(old(self).used as int, eff_align(align)) as usize,
            ) && final(self).used == align_up(old(self).used as int, eff_align(align)) + len,
            r matches Some(off) ==> off >= old(self).used && (off as int) % eff_align(align) == 0,
            final(self).used <= final(self).cap,
    {
        match bump(self.used, self.cap, len, align) {
            Some((off, used)) => {
                self.used = used;
                Some(off)
            },
            None => None,
        }
    }
}

/// Two allocations in a row never overlap: the second starts at or after the
/// end of the first.
pub proof fn lemma_bump_disjoint(used: int, len1: int, align1: int, len2: int, align2: int)
    requires
        used >= 0,
        len1 >= 0,
        align1 >= 1,
        align2 >= 1,
    ensures
        align_up(align_up(used, align1) + len1, align2) >= align_up(used, align1) + len1,
        align_up(used, align1) >= used,
{
    assert(align_up(used, align1) >= used) by (nonlinear_arith)
        requires
            used >= 0,
            align1 >= 1,
    {
        let q = (used + align1 - 1) / align1;
        assert(q * align1 > used + align1 - 1 - align1);
    }
    let u2 = align_up(used, align1) + len1;
    assert(align_up(u2, align2) >= u2) by (nonlinear_arith)
        requires
            u2 >= 0,
            align2 >= 1,
    {
        let q = (u2 + align2 - 1) / align2;
        assert(q * align2 > u2 + align2 - 1 - align2);
    }
}

} // verus!
