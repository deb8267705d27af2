//! Structural core of a small automatic-differentiation toolkit: sparsity
//! patterns and their colorings, compressed sparse column storage, expression
//! tapes with their compilation and forward-mode transform, source
//! transformation of expression graphs, array types of the IR, and the
//! validation of nonlinear programs handed to an interior-point solver.
pub mod sparsity;
pub mod drivers;
pub mod bits;
pub mod op;
pub mod function;
pub mod tape;
pub mod graph;
pub mod deriv;
pub mod nlp;
pub mod ir;
pub mod ad;
pub mod solver;
pub mod expr;
pub mod order;
pub mod grad;
pub mod jacobian;
