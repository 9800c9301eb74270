//! Type-level projection of an access set onto the context's handle bundles:
//! the resources, the columns, the accumulators and the virtuals of an access
//! list, each as its own cons-list, in access order.
use vstd::prelude::*;
use std::marker::PhantomData;

verus! {

/// The empty access list.
pub struct Empty;

/// An access list with head `H` and tail `T`.
pub struct Cons<H, T> {
    pub head: PhantomData<H>,
    pub tail: PhantomData<T>,
}

/// A resource store of `T`.
pub struct Resource<T> {
    pub store: PhantomData<T>,
}

/// A column store of `T`.
pub struct Column<T> {
    pub store: PhantomData<T>,
}

/// An accumulator store of `T`.
pub struct Accum<T> {
    pub store: PhantomData<T>,
}

/// A virtual (a fire-only signal) `T`.
pub struct Virtual<T> {
    pub store: PhantomData<T>,
}

/// The empty resource bundle.
pub struct PtrNil;

/// A resource bundle: a handle to resource `T`, then the rest.
pub struct PtrCons<T, Tail> {
    pub head: PhantomData<T>,
    pub tail: PhantomData<Tail>,
}

/// The empty column bundle.
pub struct ColPtrNil;

/// A column bundle: a handle to column `T`, then the rest.
pub struct ColPtrCons<T, Tail> {
    pub head: PhantomData<T>,
    pub tail: PhantomData<Tail>,
}

/// The empty accumulator bundle.
pub struct AccPtrNil;

/// An accumulator bundle of one frame: a handle to accumulator `T`, then the rest.
pub struct AccPtrCons<'frame, T, Tail> {
    pub frame: PhantomData<&'frame ()>,
    pub head: PhantomData<T>,
    pub tail: PhantomData<Tail>,
}

/// The empty virtual bundle.
pub struct VirtNil;

/// A virtual bundle of one frame: a firer for virtual `V`, then the rest.
pub struct VirtCons<'frame, V, Tail> {
    pub frame: PhantomData<&'frame ()>,
    pub head: PhantomData<V>,
    pub tail: PhantomData<Tail>,
}

/// The resources of an access list, as a resource bundle.
pub trait ResourceBundleOf {
    type Out;
}

impl ResourceBundleOf for Empty {
    type Out = PtrNil;
}

impl<T, Tail: ResourceBundleOf> ResourceBundleOf for Cons<Resource<T>, Tail> {
    type Out = PtrCons<T, Tail::Out>;
}

impl<T, Tail: ResourceBundleOf> ResourceBundleOf for Cons<Column<T>, Tail> {
    type Out = Tail::Out;
}

impl<T, Tail: ResourceBundleOf> ResourceBundleOf for Cons<Accum<T>, Tail> {
    type Out = Tail::Out;
}

impl<T, Tail: ResourceBundleOf> ResourceBundleOf for Cons<Virtual<T>, Tail> {
    type Out = Tail::Out;
}

/// The columns of an access list, as a column bundle.
pub trait ColBundleOf {
    type Out;
}

impl ColBundleOf for Empty {
    type Out = ColPtrNil;
}

impl<T, Tail: ColBundleOf> ColBundleOf for Cons<Column<T>, Tail> {
    type Out = ColPtrCons<T, Tail::Out>;
}

impl<T, Tail: ColBundleOf> ColBundleOf for Cons<Resource<T>, Tail> {
    type Out = Tail::Out;
}

impl<T, Tail: ColBundleOf> ColBundleOf for Cons<Accum<T>, Tail> {
    type Out = Tail::Out;
}

impl<T, Tail: ColBundleOf> ColBundleOf for Cons<Virtual<T>, Tail> {
    type Out = Tail::Out;
}

/// The accumulators of an access list, as an accumulator bundle of one frame.
pub trait AccumBundleOf<'frame> {
    type Out;
}

impl<'frame> AccumBundleOf<'frame> for Empty {
    type Out = AccPtrNil;
}

impl<'frame, T, Tail: AccumBundleOf<'frame>> AccumBundleOf<'frame> for Cons<Accum<T>, Tail> {
    type Out = AccPtrCons<'frame, T, Tail::Out>;
}

impl<'frame, T, Tail: AccumBundleOf<'frame>> AccumBundleOf<'frame> for Cons<Resource<T>, Tail> {
    type Out = Tail::Out;
}

impl<'frame, T, Tail: AccumBundleOf<'frame>> AccumBundleOf<'frame> for Cons<Column<T>, Tail> {
    type Out = Tail::Out;
}

impl<'frame, T, Tail: AccumBundleOf<'frame>> AccumBundleOf<'frame> for Cons<Virtual<T>, Tail> {
    type Out = Tail::Out;
}

/// The virtuals of an access list, as a virtual bundle of one frame.
pub trait VirtBundleOf<'frame> {
    type Out;
}

impl<'frame> VirtBundleOf<'frame> for Empty {
    type Out = VirtNil;
}

impl<'frame, V, Tail: VirtBundleOf<'frame>> VirtBundleOf<'frame> for Cons<Virtual<V>, Tail> {
    type Out = VirtCons<'frame, V, Tail::Out>;
}

impl<'frame, T, Tail: VirtBundleOf<'frame>> VirtBundleOf<'frame> for Cons<Resource<T>, Tail> {
    type Out = Tail::Out;
}

impl<'frame, T, Tail: VirtBundleOf<'frame>> VirtBundleOf<'frame> for Cons<Column<T>, Tail> {
    type Out = Tail::Out;
}

impl<'frame, T, Tail: VirtBundleOf<'frame>> VirtBundleOf<'frame> for Cons<Accum<T>, Tail> {
    type Out = Tail::Out;
}

/// Type identity: implemented exactly when the two types are the same.
pub trait SameAs<T> {
}

impl<T> SameAs<T> for T {
}

/// Compiles only when `B` is the same type as `A`.
pub fn assert_same<A, B: SameAs<A>>() {
}

} // verus!
