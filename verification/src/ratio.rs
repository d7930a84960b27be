//! Probabilities as quotients of counts.
use vstd::prelude::*;

verus! {

/// The quotient of two counts, kept as the two counts. A denominator of zero
/// stands for no value.
#[derive(PartialEq, Eq, Structural, Debug, Clone, Copy)]
pub struct Ratio {
    pub numer: u128,
    pub denom: u128,
}

impl Ratio {
    /// Whether the quotient is greater than zero.
    pub open spec fn is_positive(self) -> bool {
        self.numer > 0 && self.denom > 0
    }

    /// Whether the quotient is at most one.
    pub open spec fn is_at_most_one(self) -> bool {
        self.denom > 0 && self.numer <= self.denom
    }

    /// The quotient of the counts `numer` and `denom`.
    pub fn new(numer: usize, denom: usize) -> (r: Ratio)
        ensures
            r.numer == numer,
            r.denom == denom,
    {
        Ratio { numer: numer as u128, denom: denom as u128 }
    }
}

/// The add-one estimate of how likely a word is in a context: one more than
/// the number of times it was seen there, over its number of occurrences
/// anywhere plus the number of all occurrences of all words.
pub open spec fn add_one_estimate(in_context: nat, occurrences: nat, all_occurrences: nat) -> Ratio {
    Ratio { numer: (in_context + 1) as u128, denom: (occurrences + all_occurrences) as u128 }
}

/// The add-one estimate for the given counts. It is never zero, not even
/// for a word that was not seen in the context.
pub fn smooth(in_context: usize, occurrences: usize, all_occurrences: usize) -> (r: Ratio)
    ensures
        r == add_one_estimate(in_context as nat, occurrences as nat, all_occurrences as nat),
        r.numer == in_context + 1,
        r.denom == occurrences + all_occurrences,
{
    Ratio {
        numer: in_context as u128 + 1,
        denom: occurrences as u128 + all_occurrences as u128,
    }
}

/// Bounds of smoothing: wherever a word was seen in the context less often
/// than the denominator counts, its estimate is greater than zero and at
/// most one; and the estimate of a word that was not seen in the context at
/// all is greater than zero too.
pub proof fn lemma_smoothing_bounds(in_context: usize, occurrences: usize, all_occurrences: usize)
    requires
        in_context < occurrences + all_occurrences,
    ensures
        add_one_estimate(
            in_context as nat,
            occurrences as nat,
            all_occurrences as nat,
        ).is_positive(),
        add_one_estimate(
            in_context as nat,
            occurrences as nat,
            all_occurrences as nat,
        ).is_at_most_one(),
        add_one_estimate(0, occurrences as nat, all_occurrences as nat).is_positive(),
{
}

} // verus!
