//! The features of a pair of boxes for the model that tells whether both are on
//! one line.

use vstd::prelude::*;

use crate::measure;
use crate::measure::Measure;

verus! {

/// Two lists, item by item in turn.
pub open spec fn interleaved<T>(a: Seq<T>, b: Seq<T>) -> Seq<T> {
    Seq::new(
        a.len() * 2,
        |i: int|
            if i % 2 == 0 {
                a[i / 2]
            } else {
                b[i / 2]
            },
    )
}

/// The features of both boxes, in turn.
pub fn prepare_features<T: Copy>(first: &Vec<T>, second: &Vec<T>) -> (features: Vec<T>)
    requires
        first.len() == second.len(),
    ensures
        features@ == interleaved(first@, second@),
{
    let mut features: Vec<T> = Vec::new();
    let mut k: usize = 0;
    while k < first.len()
        invariant
            k <= first.len(),
            first.len() == second.len(),
            features.len() == 2 * k,
            forall|i: int|
                0 <= i < features.len() ==> #[trigger] features[i] == if i % 2 == 0 {
                    first[i / 2]
                } else {
                    second[i / 2]
                },
        decreases first.len() - k,
    {
        features.push(first[k]);
        features.push(second[k]);
        k = k + 1;
    }
    assert(features@ =~= interleaved(first@, second@));
    features
}

/// The model's answer says that the boxes are on one line.
pub fn is_same_line(answer: Measure) -> (same: bool)
    ensures
        same == measure::exceeds(Some(measure::HALF), answer),
{
    measure::is_above(Some(measure::HALF), answer)
}

/// The features of each box can be told apart again.
pub proof fn law_features_come_in_turn<T>(a: Seq<T>, b: Seq<T>, i: int)
    requires
        a.len() == b.len(),
        0 <= i < a.len(),
    ensures
        interleaved(a, b)[2 * i] == a[i],
        interleaved(a, b)[2 * i + 1] == b[i],
{
}

} // verus!
