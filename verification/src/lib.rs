//! Tableau simplex method over exact rational numbers, with a step-by-step
//! history of the dictionaries it visits.

pub mod constraint;
pub mod dictionary;
pub mod error;
pub mod laws;
pub mod linear;
pub mod linear_function;
pub mod names;
pub mod parse;
pub mod program;
pub mod rational;
pub mod render;
pub mod scan;
pub mod semantics;
pub mod solver;

pub use program::LinearProgram;
pub use solver::Simplex;
