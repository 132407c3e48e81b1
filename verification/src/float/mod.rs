//! Binary floating-point arithmetic on bit patterns.
pub mod arith;
pub mod close;
pub mod close_double;
pub mod double;
pub mod error;
pub mod exact;
pub mod order;
pub mod rounding;
pub mod scaled;
pub mod single;
