use vstd::prelude::*;

verus! {

/// The sign of a decimal literal, as written in front of its digits.
#[derive(Clone, Copy, Debug, PartialEq, Eq, Structural)]
pub enum Sign {
    Positive,
    Negative,
}

impl Default for Sign {
    /// A literal without a sign is positive.
    fn default() -> (r: Self)
        ensures
            r == Sign::Positive,
    {
        Sign::Positive
    }
}

} // verus!
