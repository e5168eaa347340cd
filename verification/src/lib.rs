//! A KZG10 polynomial commitment scheme over BLS12-381.
//!
//! A prover commits to a univariate polynomial with a single short group
//! element and later proves, with a constant-size proof, that the polynomial
//! takes a claimed value at a claimed point.  Field and curve arithmetic come
//! from the arkworks crates through a small trusted boundary; the polynomial
//! engine, Lagrange interpolation, commitment, opening and verification logic
//! are verified here.

pub mod errors;
pub mod field;
pub mod poly;
pub mod interp;
pub mod group;
pub mod kzg;
