use vstd::prelude::*;

verus! {

/// Largest magnitude, in thousandths, that a `Fixed` may hold.
///
/// The bound (one quintillion thousandths, i.e. values up to 10^15) leaves
/// enough headroom in an `i128` to sum one such term per element of any
/// vector without overflow.
pub const FIXED_MAX_MILLIS: i128 = 1_000_000_000_000_000_000;

/// A decimal number with exactly three fractional digits, held as a count of
/// thousandths. `Fixed { millis: 23456 }` denotes 23.456.
///
/// Temperatures (read as millidegrees) and log fields are represented this
/// way, so arithmetic on them is exact.
#[derive(Clone, Copy, Debug, PartialEq, Eq, Structural)]
pub struct Fixed {
    pub millis: i128,
}

impl Fixed {
    /// The representation invariant: the magnitude stays within
    /// `FIXED_MAX_MILLIS`.
    pub open spec fn wf(self) -> bool {
        -FIXED_MAX_MILLIS <= self.millis <= FIXED_MAX_MILLIS
    }

    /// Build a `Fixed` from a count of thousandths, rejecting magnitudes beyond what the
    /// type can hold.
    pub fn from_millis(millis: i128) -> (r: Option<Fixed>)
        ensures
            -FIXED_MAX_MILLIS <= millis <= FIXED_MAX_MILLIS ==> r == Some(Fixed { millis }),
            !(-FIXED_MAX_MILLIS <= millis <= FIXED_MAX_MILLIS) ==> r is None,
            r matches Some(f) ==> f.wf(),
    {
        if -FIXED_MAX_MILLIS <= millis && millis <= FIXED_MAX_MILLIS {
            Some(Fixed { millis })
        } else {
            None
        }
    }
}

} // verus!
