//! A verified model of the dispatch engine's scheduling logic: record ranges,
//! per-core splits, barriers, cursors, grouping and ordering, dirty
//! propagation, adaptive hysteresis and the per-record kernels.
use vstd::prelude::*;

pub mod accum;
pub mod adapt;
pub mod alloc_vec;
pub mod asym;
pub mod barrier;
pub mod bump;
pub mod bundle;
pub mod carrier;
pub mod convergence;
pub mod dirty;
pub mod facade;
pub mod fiber;
pub mod fusion;
pub mod gate;
pub mod grouping;
pub mod kernels;
pub mod meta;
pub mod morsel;
pub mod oracle;
pub mod pairs;
pub mod pass_select;
pub mod pool;
pub mod renumber;
pub mod shapes;
pub mod topo;
pub mod topology;
pub mod unionfind;
pub mod walks;
pub mod waist;

verus! {

} // verus!
