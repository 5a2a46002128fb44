//! Radix-2 number-theoretic transforms, polynomial arithmetic and circuit
//! gadget logic over the scalar field of the Pallas curve.

pub mod constants;
pub mod field;
pub mod gadgets;
pub mod sum;
pub mod poly;
pub mod dft;
pub mod ntt;
