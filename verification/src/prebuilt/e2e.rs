//! End-to-end rule providers for ready-made scenarios.

pub mod chaos;
pub mod maze2d;
