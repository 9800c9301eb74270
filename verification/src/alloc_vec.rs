//! A fixed-capacity vector for the meta-event log: 64 inline slots and a live
//! length, no allocation.
use vstd::prelude::*;
use vstd::slice::slice_subrange;

verus! {

/// Number of inline slots.
pub const CAPACITY: usize = 64;

/// A vector of at most 64 `Copy` values stored inline.
pub struct Vec<T: Copy + Default> {
    buf: [T; 64],
    len: usize,
}

impl<T: Copy + Default> View for Vec<T> {
    type V = Seq<T>;

    /// The live values, in push order.
    closed spec fn view(&self) -> Seq<T> {
        self.buf@.take(self.len as int)
    }
}

impl<T: Copy + Default> Vec<T> {
    /// The live length never exceeds the inline capacity.
    #[verifier::type_invariant]
    spec fn inv(self) -> bool {
        self.len <= 64
    }

    /// An empty vector.
    pub fn new() -> (r: Self)
        ensures
            r@ == Seq::<T>::empty(),
    {
        let r = Vec { buf: [T::default(); 64], len: 0 };
        proof {
            assert(r@ =~= Seq::<T>::empty());
        }
        r
    }

    /// Appends `v`; the vector must have a free slot.
    pub fn push(&mut self, v: T)
        requires
            old(self)@.len() < CAPACITY,
        ensures
            final(self)@ == old(self)@.push(v),
    {
        proof {
            use_type_invariant(&*self);
            assert(self.buf@.len() == 64);
        }
        let ghost before = self@;
        let i = self.len;
        self.buf[i] = v;
        self.len = i + 1;
        proof {
            assert(self@ =~= before.push(v));
        }
    }

    /// The live values as a slice: never more than the inline capacity.
    pub fn as_slice(&self) -> (s: &[T])
        ensures
            s@ == self@,
            s@.len() <= CAPACITY,
    {
        proof {
            use_type_invariant(self);
            assert(self.buf@.len() == 64);
        }
        let all: &[T] = self.buf.as_slice();
        slice_subrange(all, 0, self.len)
    }

    /// Drops every value.
    pub fn clear(&mut self)
        ensures
            final(self)@ == Seq::<T>::empty(),
    {
        self.len = 0;
        proof {
            assert(self@ =~= Seq::<T>::empty());
        }
    }

    /// The number of live values, never more than the inline capacity.
    pub fn len(&self) -> (r: usize)
        ensures
            r == self@.len(),
            r <= CAPACITY,
    {
        proof {
            use_type_invariant(self);
            assert(self.buf@.len() == 64);
        }
        self.len
    }
}

/// One call on the vector: `push(v)` or `clear()`.
pub enum VecOp<T> {
    Push(T),
    Clear,
}

/// The view after the calls `ops` on a vector whose view was `start`, each
/// call changing the view as its contract says: `push` appends, `clear`
/// empties.
pub open spec fn replay<T>(start: Seq<T>, ops: Seq<VecOp<T>>) -> Seq<T>
    decreases ops.len(),
{
    if ops.len() == 0 {
        start
    } else {
        match ops.last() {
            VecOp::Push(v) => replay(start, ops.drop_last()).push(v),
            VecOp::Clear => Seq::empty(),
        }
    }
}

/// The values of the pushes after the last clear of `ops`, in push order.
pub open spec fn pushed_since_clear<T>(ops: Seq<VecOp<T>>) -> Seq<T>
    decreases ops.len(),
{
    if ops.len() == 0 {
        Seq::empty()
    } else {
        match ops.last() {
            VecOp::Push(v) => pushed_since_clear(ops.drop_last()).push(v),
            VecOp::Clear => Seq::empty(),
        }
    }
}

/// The history law: after `new()` and any sequence of `push` and `clear`
/// calls, the vector holds exactly the values pushed since `new()` or the
/// latest `clear()`, in push order; and when every push was made on a
/// non-full vector, it holds at most `CAPACITY` values.
pub proof fn lemma_vec_history<T>(ops: Seq<VecOp<T>>)
    ensures
        replay(Seq::<T>::empty(), ops) == pushed_since_clear(ops),
        (forall|m: int|
            0 <= m < ops.len() && (#[trigger] ops[m]) is Push ==> replay(Seq::<T>::empty(), ops.take(m)).len()
                < CAPACITY) ==> replay(Seq::<T>::empty(), ops).len() <= CAPACITY,
    decreases ops.len(),
{
    if ops.len() > 0 {
        let pre = ops.drop_last();
        lemma_vec_history(pre);
        let m = pre.len() as int;
        assert(ops.take(m) =~= pre);
        if (forall|q: int|
            0 <= q < ops.len() && (#[trigger] ops[q]) is Push ==> replay(Seq::<T>::empty(), ops.take(q)).len()
                < CAPACITY) {
            assert forall|q: int|
                0 <= q < pre.len() && (#[trigger] pre[q]) is Push implies replay(Seq::<T>::empty(), pre.take(q)).len()
                    < CAPACITY by {
                assert(ops[q] == pre[q]);
                assert(ops.take(q) =~= pre.take(q));
            }
            if ops.last() is Push {
                assert(ops[m] is Push);
            }
        }
    }
}

} // verus!
