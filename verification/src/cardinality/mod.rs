//! Cardinality estimation structures.
//!
//! The structures here keep the verified counting state; the
//! floating-point estimate formulas that read it live with the callers.

pub mod hll;
pub mod linear_count;
