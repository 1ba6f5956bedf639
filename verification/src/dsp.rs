use vstd::prelude::*;

verus! {

/// Two processors run one after the other: the output of `first` feeds `then`.
#[derive(Clone, Copy)]
pub struct Chain<A, B> {
    pub first: A,
    pub then: B,
}

/// Picks the strongest of a bank of resonators from their squared magnitudes,
/// given as order-preserving keys (a non-negative `f32` keyed by its bits).
///
/// The search starts from index 0 with a strength of 0 and moves on only to a
/// strictly greater strength, so the result is the first index at which the
/// greatest strength occurs, together with that strength; an empty bank, or
/// one that is silent everywhere, gives `(0, 0)`.
pub fn strongest(norms: &[u32]) -> (r: (usize, u32))
    ensures
        forall|j: int| 0 <= j < norms@.len() ==> norms@[j] <= r.1,
        forall|j: int| 0 <= j < r.0 ==> norms@[j] < r.1,
        norms@.len() > 0 ==> r.0 < norms@.len() && norms@[r.0 as int] == r.1,
        norms@.len() == 0 ==> r == (0usize, 0u32),
{
    let mut max_norm: u32 = 0;
    let mut max_index: usize = 0;
    let mut i: usize = 0;
    while i < norms.len()
        invariant
            0 <= i <= norms@.len(),
            forall|j: int| 0 <= j < i ==> norms@[j] <= max_norm,
            forall|j: int| 0 <= j < max_index ==> norms@[j] < max_norm,
            i == 0 ==> max_index == 0 && max_norm == 0,
            i > 0 ==> max_index < i && norms@[max_index as int] == max_norm,
            max_norm == 0 ==> max_index == 0,
        decreases norms@.len() - i,
    {
        if norms[i] > max_norm {
            max_norm = norms[i];
            max_index = i;
        }
        i += 1;
    }
    (max_index, max_norm)
}

} // verus!
