use vstd::prelude::*;

verus! {

/// Edit-distance label attached to each automaton state: either the exact
/// distance, or a lower bound meaning "at least this far away" (rejected).
#[derive(Debug, Clone, Copy, PartialEq, Eq, Structural, Hash)]
pub enum Distance {
    Exact(u8),
    AtLeast(u8),
}

impl Distance {
    /// The numeric value carried by either variant.
    pub open spec fn spec_to_u8(self) -> u8 {
        match self {
            Distance::Exact(d) => d,
            Distance::AtLeast(d) => d,
        }
    }

    /// Returns the underlying distance value, whichever variant holds it.
    pub fn to_u8(&self) -> (r: u8)
        ensures
            r == self.spec_to_u8(),
    {
        match *self {
            Distance::Exact(d) => d,
            Distance::AtLeast(d) => d,
        }
    }
}

} // verus!
