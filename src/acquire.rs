//! The run of a lock operation: acquisitions one after another, in the
//! planned order, stopping at the first failure.
use vstd::prelude::*;

use crate::state::LockStep;

verus! {

/// How a lock operation ended.
#[derive(Debug, Clone, Copy, PartialEq, Eq)]
pub struct Acquisition {
    /// How many acquisitions were attempted, from the first step on.
    pub attempted: usize,
    /// The step whose failure ended the run, if one did.
    pub failed: Option<usize>,
}

/// The first step among the first `n` that fails: a fallible step whose
/// attempt does not succeed. Steps that cannot fail always succeed.
pub open spec fn first_failure(steps: Seq<LockStep>, succeeds: Seq<bool>, n: int) -> Option<int>
    decreases n,
{
    if n <= 0 {
        None
    } else {
        match first_failure(steps, succeeds, n - 1) {
            Some(f) => Some(f),
            None => if steps[n - 1].fallible && !succeeds[n - 1] {
                Some(n - 1)
            } else {
                None
            },
        }
    }
}

/// Runs the acquisitions of `steps` in order, where `succeeds[j]` tells
/// whether attempting step `j` succeeds. The run stops at the first failure:
/// no later step is attempted, and that failure is what the operation returns.
pub fn acquire_in_order(steps: &Vec<LockStep>, succeeds: &Vec<bool>) -> (r: Acquisition)
    requires
        steps@.len() == succeeds@.len(),
    ensures
        match first_failure(steps@, succeeds@, steps@.len() as int) {
            Some(f) => r.attempted == f + 1 && r.failed == Some(f as usize),
            None => r.attempted == steps@.len() && r.failed is None,
        },
{
    let mut i: usize = 0;
    while i < steps.len()
        invariant
            i <= steps@.len(),
            steps@.len() == succeeds@.len(),
            first_failure(steps@, succeeds@, i as int) is None,
        decreases steps@.len() - i,
    {
        if steps[i].fallible && !succeeds[i] {
            proof {
                lemma_failure_stays(steps@, succeeds@, i + 1, steps@.len() as int);
            }
            return Acquisition { attempted: i + 1, failed: Some(i) };
        }
        i = i + 1;
    }
    Acquisition { attempted: i, failed: None }
}

proof fn lemma_failure_stays(steps: Seq<LockStep>, succeeds: Seq<bool>, a: int, b: int)
    requires
        0 <= a <= b,
        first_failure(steps, succeeds, a) is Some,
    ensures
        first_failure(steps, succeeds, b) == first_failure(steps, succeeds, a),
    decreases b - a,
{
    if a < b {
        lemma_failure_stays(steps, succeeds, a, b - 1);
    }
}

} // verus!
