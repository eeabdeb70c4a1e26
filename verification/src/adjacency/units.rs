use vstd::prelude::*;

verus! {

/// A number strictly between 0 and 1, held exactly as a fraction of two integers.
///
/// It is the share of the sphere's area that lies above a node's latitude. Neither
/// end of the interval is ever reached, so no node sits on a pole.
#[derive(Debug, Copy, Clone, PartialEq, Eq)]
pub struct ClosedUnitInterval {
    numerator: u32,
    denominator: u32,
}

impl ClosedUnitInterval {
    #[verifier::type_invariant]
    spec fn inside(self) -> bool {
        0 < self.numerator < self.denominator
    }

    pub closed spec fn spec_numerator(self) -> u32 {
        self.numerator
    }

    pub closed spec fn spec_denominator(self) -> u32 {
        self.denominator
    }

    /// The area fraction of node `n` of `N`: `(n + 1/2) / N`, which is
    /// `(2 n + 1) / (2 N)`.
    #[allow(non_snake_case)]
    pub fn fraction(n: u16, N: u16) -> (f: ClosedUnitInterval)
        requires
            n < N,
        ensures
            f.spec_numerator() == 2 * n + 1,
            f.spec_denominator() == 2 * N,
    {
        ClosedUnitInterval { numerator: 2 * (n as u32) + 1, denominator: 2 * (N as u32) }
    }

    /// The numerator, which is above zero and below the denominator.
    #[verifier::when_used_as_spec(spec_numerator)]
    pub fn numerator(self) -> (n: u32)
        ensures
            n == self.spec_numerator(),
            0 < n < self.spec_denominator(),
    {
        proof {
            use_type_invariant(self);
        }
        self.numerator
    }

    /// The denominator, which is above the numerator.
    #[verifier::when_used_as_spec(spec_denominator)]
    pub fn denominator(self) -> (d: u32)
        ensures
            d == self.spec_denominator(),
            self.spec_numerator() < d,
    {
        proof {
            use_type_invariant(self);
        }
        self.denominator
    }
}

} // verus!
