use vstd::prelude::*;

verus! {

/// The level-generation probability of a skip list, held exactly as the
/// ratio `num / den` with `0 < num < den`, so that it always lies
/// strictly between 0 and 1.
#[derive(Clone, Copy, Debug)]
pub struct Probability {
    num: u32,
    den: u32,
}

impl Probability {
    /// A probability value is valid when it lies strictly between 0 and 1.
    pub closed spec fn wf(self) -> bool {
        0 < self.num < self.den
    }

    pub closed spec fn num_spec(self) -> u32 {
        self.num
    }

    pub closed spec fn den_spec(self) -> u32 {
        self.den
    }

    /// A valid probability has a positive numerator strictly below its
    /// denominator.
    pub proof fn lemma_wf_bounds(self)
        requires
            self.wf(),
        ensures
            0 < self.num_spec() < self.den_spec(),
    {
    }

    /// Builds the probability `num / den`, rejecting any ratio that does
    /// not lie strictly between 0 and 1.
    pub fn new(num: u32, den: u32) -> (r: Option<Probability>)
        ensures
            r is Some <==> 0 < num < den,
            r matches Some(p) ==> p.wf() && p.num_spec() == num && p.den_spec() == den,
    {
        if 0 < num && num < den {
            Some(Probability { num, den })
        } else {
            None
        }
    }

    /// The probability 1/2: a fair coin.
    pub fn half() -> (r: Probability)
        ensures
            r.wf(),
            r.num_spec() == 1,
            r.den_spec() == 2,
    {
        Probability { num: 1, den: 2 }
    }

    /// The numerator of the ratio.
    pub fn numerator(&self) -> (r: u32)
        ensures
            r == self.num_spec(),
    {
        self.num
    }

    /// The denominator of the ratio.
    pub fn denominator(&self) -> (r: u32)
        ensures
            r == self.den_spec(),
    {
        self.den
    }
}

} // verus!
