//! Constructors of constraints, normalized to `<=` where they compare.
use vstd::prelude::*;

use crate::solver::Constraint;

verus! {

/// `lhs <= rhs`.
pub fn le(lhs: usize, rhs: usize) -> (c: Constraint)
    ensures
        c == Constraint::Le(lhs, rhs),
{
    Constraint::Le(lhs, rhs)
}

/// `lhs >= rhs`, stated as `rhs <= lhs`.
pub fn ge(lhs: usize, rhs: usize) -> (c: Constraint)
    ensures
        c == Constraint::Le(rhs, lhs),
{
    le(rhs, lhs)
}

/// `lhs == rhs`.
pub fn eq(lhs: usize, rhs: usize) -> (c: Constraint)
    ensures
        c == Constraint::Eq(lhs, rhs),
{
    Constraint::Eq(lhs, rhs)
}

/// `lb <= expr <= ub`.
pub fn bounded(lb: usize, expr: usize, ub: usize) -> (c: Constraint)
    ensures
        c == Constraint::Bounded(lb, expr, ub),
{
    Constraint::Bounded(lb, expr, ub)
}

} // verus!
