//! Errors raised while building or collapsing a grid.

use crate::util::IPos;
use vstd::prelude::*;

verus! {

/// A failure during engine construction or collapse.
#[derive(Debug)]
pub enum Error {
    /// Propagation emptied the candidate set of the cell at `position`.
    /// `neighbor` is the opposing cell whose candidates forced the pruning,
    /// `direction` the direction id from `position` toward `neighbor`, and
    /// the two vectors snapshot the neighbor's candidate variant ids and the
    /// socket ids those candidates exposed toward `position`.
    Contradiction {
        position: IPos,
        neighbor: IPos,
        direction: usize,
        neighbor_variants: Vec<usize>,
        neighbor_sockets: Vec<usize>,
    },
    /// A required rule lookup found no rule for this variant value.
    NoRule { variant: u64 },
    /// A variant had to be chosen from an empty or all-zero-weight candidate set.
    NoPossibilities,
    /// The size names a different number of axes than the direction type provides.
    DimensionMismatch { const_value: usize, dimension_count: usize },
}

/// A failure converting between position representations.
#[derive(Debug)]
pub enum ConversionError {
    /// The signed position has a negative coordinate.
    IPosToUPos(IPos),
}

} // verus!
