//! An array IR: every value is an array of `f64`, scalars being the arrays
//! of rank zero.
pub mod ty;
pub mod function;
pub mod jvp;
pub mod vmap;
pub mod chunk;
pub mod display;
pub mod backend;
