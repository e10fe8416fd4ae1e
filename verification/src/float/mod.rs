//! Binary floating-point numbers held by their bit patterns.

pub mod accuracy;
pub mod arith;
pub mod double;
pub mod exactness;
pub mod laws;
pub mod rounding;
pub mod scaling;
pub mod single;
pub mod sums;
