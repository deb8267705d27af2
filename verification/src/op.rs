//! Elementwise operations of tapes and of the IR.
use vstd::prelude::*;

verus! {

#[derive(Clone, Copy, PartialEq, Eq, Hash, Debug, Structural)]
pub enum UnaryOp {
    Neg,
    Sin,
    Cos,
}

#[derive(Clone, Copy, PartialEq, Eq, Hash, Debug, Structural)]
pub enum BinaryOp {
    Add,
    Sub,
    Mul,
    Div,
}

#[derive(Clone, Copy, PartialEq, Eq, Hash, Debug, Structural)]
pub enum ReduceOp {
    Sum,
}

} // verus!
