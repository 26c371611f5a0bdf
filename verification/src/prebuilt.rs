//! Ready-made direction enumerations, constraints, arbiters, adjusters,
//! shapes and rule finders for common grids.

pub mod arbiters;
pub mod auto;
pub mod constraints;
pub mod dims;
pub mod e2e;
pub mod shapes;
pub mod weights;
