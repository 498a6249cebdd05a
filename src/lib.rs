//! Binary relations over a finite set `{0, .., n-1}`, held as square boolean
//! matrices: checks of the classical relational properties and the
//! reflexive, symmetric and transitive closures.

pub mod relation;
pub mod matrix;
mod parallel;

pub use matrix::{Matrix, MatrixError};
