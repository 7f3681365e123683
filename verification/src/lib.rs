//! Symbolic differentiation of single-variable polynomials.
//!
//! The crate has two components, consumed in sequence: a finite-state parser
//! that turns text such as `-3x^2 + 4x^1.5` into a list of terms, and a
//! differentiator that applies the power rule, merges like terms and sorts
//! the result by strictly descending exponent.  Coefficients and exponents
//! are exact decimal numbers (an integer mantissa with a decimal scale), so
//! every arithmetic step is exact and fully specified.

pub mod decimal;
pub mod differentiate;
pub mod state_machine;
