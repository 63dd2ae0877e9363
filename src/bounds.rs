//! Bounds of a range of row or column indices, and how they resolve to a
//! half-open interval.
use vstd::prelude::*;

verus! {

/// One end of a range of indices.
#[derive(Clone, Copy, Debug, PartialEq, Eq, Structural)]
pub enum Bound {
    /// The range holds this index.
    Included(usize),
    /// The range stops short of this index.
    Excluded(usize),
    /// The range goes on as far as it can.
    Unbounded,
}

/// The first index that a range with this start bound holds.
pub open spec fn start_of(b: Bound) -> int {
    match b {
        Bound::Included(p) => p as int,
        Bound::Excluded(p) => p + 1,
        Bound::Unbounded => 0,
    }
}

/// The index that a range with this end bound stops short of; `max` where
/// the range is unbounded.
pub open spec fn end_of(b: Bound, max: int) -> int {
    match b {
        Bound::Included(p) => p + 1,
        Bound::Excluded(p) => p as int,
        Bound::Unbounded => max,
    }
}

/// The range `bounds` resolves to an interval `start .. end` with
/// `start <= end <= max`.
pub open spec fn fits(bounds: (Bound, Bound), max: int) -> bool {
    start_of(bounds.0) <= end_of(bounds.1, max) <= max
}

} // verus!
