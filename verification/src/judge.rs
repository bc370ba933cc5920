//! Judges: closures that measure items and answer yes or no.
//!
//! The library decides which items to compare, in which order, and what
//! follows from each answer. How two items compare is measured by the caller,
//! who passes a judge. A contract that says `decides(judge, rel) ==> ..` holds
//! for every relation `rel` that the judge is known to compute.

use vstd::prelude::*;

verus! {

/// The judge may be asked about every pair of items below `n`.
pub open spec fn callable<F: Fn(usize, usize) -> bool>(judge: F, n: nat) -> bool {
    forall|i: usize, j: usize| i < n && j < n ==> #[trigger] call_requires(judge, (i, j))
}

/// The judge answers as `rel` does.
pub open spec fn decides<F: Fn(usize, usize) -> bool>(judge: F, rel: spec_fn(int, int) -> bool) -> bool {
    forall|i: usize, j: usize, b: bool| #[trigger] call_ensures(judge, (i, j), b) ==> b == rel(i as int, j as int)
}

/// The judge may be asked about every group of items.
pub open spec fn group_callable<F: Fn(&Vec<usize>) -> bool>(judge: F) -> bool {
    forall|group: &Vec<usize>| #[trigger] call_requires(judge, (group,))
}

/// The judge answers as `rel` does.
pub open spec fn group_decides<F: Fn(&Vec<usize>) -> bool>(judge: F, rel: spec_fn(Seq<usize>) -> bool) -> bool {
    forall|group: &Vec<usize>, b: bool| #[trigger] call_ensures(judge, (group,), b) ==> b == rel(group@)
}

} // verus!
