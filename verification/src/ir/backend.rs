//! Backends that run the functions of the IR.
use vstd::prelude::*;

verus! {

/// The backend that runs a function by interpreting its layout, one
/// instruction at a time.
#[derive(Default, Clone, Copy, Debug)]
pub struct Interpreter;

} // verus!
