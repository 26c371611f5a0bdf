//! Stock weight values for weighted variant selection.

use crate::Weight;
use vstd::prelude::*;

verus! {

/// Every candidate weighs the same, so weighting changes nothing.
#[derive(Debug, Clone, Copy)]
pub struct NoWeight;

impl Weight for NoWeight {
    open spec fn value_spec(&self) -> usize {
        1
    }

    fn value(&self) -> usize {
        1
    }
}

/// A weight given directly as a number.
#[derive(Debug, Clone, Copy)]
pub struct DirectWeight(pub usize);

impl Default for DirectWeight {
    fn default() -> (r: Self)
        ensures
            r.0 == 1,
    {
        DirectWeight(1)
    }
}

impl Weight for DirectWeight {
    open spec fn value_spec(&self) -> usize {
        self.0
    }

    fn value(&self) -> usize {
        self.0
    }
}

} // verus!
