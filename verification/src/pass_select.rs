//! Choosing the optimisation pass: the custom pass is used only when the
//! feature is on and the pass is both present and compatible; otherwise the
//! build degrades to the stock pipeline. The computed output never depends on
//! the choice.
use vstd::prelude::*;
use crate::kernels::M1;

verus! {

/// Which optimisation pipeline runs.
#[derive(Clone, Copy, Debug, PartialEq, Eq, Structural)]
pub enum PassChoice {
    Stock,
    Custom,
}

/// The custom pass can be loaded: it is present and built for a compatible
/// compiler version.
pub fn custom_pass_available(present: bool, compatible: bool) -> (r: bool)
    ensures
        r == (present && compatible),
{
    present && compatible
}

/// Selects the pipeline. With the feature off the choice is always stock; with
/// it on, custom exactly when the pass is available.
pub fn select_pass(feature_on: bool, present: bool, compatible: bool) -> (r: PassChoice)
    ensures
        r == (if feature_on && present && compatible {
            PassChoice::Custom
        } else {
            PassChoice::Stock
        }),
{
    if feature_on {
        if custom_pass_available(present, compatible) {
            return PassChoice::Custom;
        }
        PassChoice::Stock
    } else {
        PassChoice::Stock
    }
}

/// The wrapping sum of `r * M1` over the records.
pub open spec fn spec_compute(records: Seq<u32>) -> u32
    decreases records.len(),
{
    if records.len() == 0 {
        0
    } else {
        spec_compute(records.drop_last()).wrapping_add(records.last().wrapping_mul(M1))
    }
}

/// The workload: the wrapping sum of `r * M1` over the records, whatever
/// pipeline was chosen.
pub fn compute(records: &Vec<u32>, choice: PassChoice) -> (r: u32)
    ensures
        r == spec_compute(records@),
{
    let mut acc: u32 = 0;
    let mut k: usize = 0;
    while k < records.len()
        invariant
            k <= records.len(),
            acc == spec_compute(records@.take(k as int)),
        decreases records.len() - k,
    {
        proof {
            assert(records@.take(k + 1).drop_last() =~= records@.take(k as int));
        }
        acc = acc.wrapping_add(records[k].wrapping_mul(M1));
        k = k + 1;
    }
    proof {
        assert(records@.take(records.len() as int) =~= records@);
    }
    let _ = choice;
    acc
}

} // verus!
