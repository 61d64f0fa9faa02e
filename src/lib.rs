//! Splits a rank-1 constraint system into balanced wire blocks, one block per
//! subprover, keeping every constraint satisfied under the rebuilt witness.

pub mod check;
pub mod circuit;
pub mod distribute;
pub mod field;
pub mod laws;
pub mod metrics;
pub mod placement;
