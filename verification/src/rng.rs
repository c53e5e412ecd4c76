use vstd::prelude::*;

verus! {

/// Relies on `rand::random_ratio`: draws from the thread-local generator
/// and returns `true` with probability `num / den`.  The call panics only
/// when `den == 0` or `num > den`, which the precondition rules out.
/// Nothing can be promised of a random outcome, so no result is stated.
#[verifier::external_body]
pub(crate) fn random_ratio(num: u32, den: u32) -> bool
    requires
        0 < den,
        num <= den,
{
    rand::random_ratio(num, den)
}

} // verus!
