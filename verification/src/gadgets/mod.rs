//! Circuit gadgets: their witnesses and their rank-1 constraints.
pub mod circuit;
pub mod curve_laws;
pub mod ecc;
pub mod helpers;
pub mod identity;
pub mod less_than;
pub mod r1cs;
pub mod scalar_mul;
pub mod utils;
