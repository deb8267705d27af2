//! A nonlinear program built on a tape: decision variables, an objective,
//! constraints and initial values, and the errors of lowering it for a
//! solver.
pub mod cns;

use std::collections::HashMap;

use vstd::prelude::*;

use crate::bits::Bits64;
use crate::op::{BinaryOp, UnaryOp};
use crate::tape::{Tape, ValueData, Var};

verus! {

broadcast use vstd::std_specs::hash::group_hash_axioms;

/// A constraint between tape values.
#[derive(Debug, Clone, Copy, PartialEq, Eq, Structural)]
pub enum Constraint {
    /// `lhs == rhs`
    Eq(usize, usize),
    /// `lhs <= rhs`
    Le(usize, usize),
    /// `lb <= expr <= ub`
    Bounded(usize, usize, usize),
}

/// How the two sides of a stated constraint compare.
#[derive(Clone, Copy, Debug, PartialEq, Eq, Structural)]
pub enum Order {
    Geq,
    Leq,
    Eq,
}

#[derive(Debug, Clone, Copy, PartialEq, Eq, Structural)]
pub enum ConstraintErrorKind {
    /// No decision variables reachable from the constraint.
    NoDecisionVariables,
    /// Simplified to something unexpected after lowering.
    Degenerate,
    /// Constant bounds that can never hold (e.g. lb > ub, or 1 <= 0).
    InfeasibleConstant,
}

#[derive(Debug, Clone, Copy, PartialEq, Eq, Structural)]
pub enum SolveError {
    NoObjective,
    Constraint { index: usize, kind: ConstraintErrorKind },
}

/// A program being stated: its tape, decision variables, objective,
/// constraints and initial values.
pub struct NlpSolver {
    tape: Tape,
    decision_variables: Vec<usize>,
    objective: Option<usize>,
    constraints: Vec<Constraint>,
    initial: HashMap<usize, Bits64>,
}

impl NlpSolver {
    pub closed spec fn spec_tape(&self) -> Tape {
        self.tape
    }

    pub closed spec fn spec_decision_variables(&self) -> Seq<usize> {
        self.decision_variables@
    }

    pub closed spec fn spec_objective(&self) -> Option<usize> {
        self.objective
    }

    pub closed spec fn spec_constraints(&self) -> Seq<Constraint> {
        self.constraints@
    }

    /// Initial value of each value given one.
    pub closed spec fn spec_initial(&self) -> Map<usize, Bits64> {
        self.initial@
    }

    pub fn new() -> (s: Self)
        ensures
            s.spec_tape().spec_nodes() == Seq::<ValueData>::empty(),
            s.spec_tape().spec_num_params() == 0,
            s.spec_decision_variables() == Seq::<usize>::empty(),
            s.spec_objective() is None,
            s.spec_constraints() == Seq::<Constraint>::empty(),
            s.spec_initial() == Map::<usize, Bits64>::empty(),
    {
        NlpSolver {
            tape: Tape::new(),
            decision_variables: Vec::new(),
            objective: None,
            constraints: Vec::new(),
            initial: HashMap::new(),
        }
    }

    pub fn tape(&self) -> (r: &Tape)
        ensures
            *r == self.spec_tape(),
    {
        &self.tape
    }

    /// A new decision variable: a new parameter of the tape.
    pub fn decision_variable(&mut self) -> (v: Var)
        requires
            old(self).spec_tape().spec_num_params() < u32::MAX,
        ensures
            final(self).spec_tape().spec_nodes() == old(self).spec_tape().spec_nodes().push(
                ValueData::Param(old(self).spec_tape().spec_num_params() as u32),
            ),
            final(self).spec_tape().spec_num_params() == old(self).spec_tape().spec_num_params() + 1,
            v@ == old(self).spec_tape().spec_nodes().len(),
            final(self).spec_decision_variables() == old(self).spec_decision_variables().push(v@),
            final(self).spec_objective() == old(self).spec_objective(),
            final(self).spec_constraints() == old(self).spec_constraints(),
            final(self).spec_initial() == old(self).spec_initial(),
    {
        let v = self.tape.param();
        self.decision_variables.push(v.id());
        v
    }

    /// A new constant, by its bit pattern.
    pub fn constant(&mut self, x: Bits64) -> (v: Var)
        ensures
            final(self).spec_tape().spec_nodes() == old(self).spec_tape().spec_nodes().push(ValueData::Constant(x)),
            final(self).spec_tape().spec_num_params() == old(self).spec_tape().spec_num_params(),
            v@ == old(self).spec_tape().spec_nodes().len(),
            final(self).spec_decision_variables() == old(self).spec_decision_variables(),
            final(self).spec_objective() == old(self).spec_objective(),
            final(self).spec_constraints() == old(self).spec_constraints(),
            final(self).spec_initial() == old(self).spec_initial(),
    {
        self.tape.constant(x)
    }

    /// Records `op(a)` on the tape.
    pub fn unary(&mut self, op: UnaryOp, a: Var) -> (v: Var)
        requires
            old(self).spec_tape().holds(a),
        ensures
            final(self).spec_tape().spec_nodes() == old(self).spec_tape().spec_nodes().push(ValueData::Unary(op, a@)),
            final(self).spec_tape().spec_num_params() == old(self).spec_tape().spec_num_params(),
            v@ == old(self).spec_tape().spec_nodes().len(),
            final(self).spec_decision_variables() == old(self).spec_decision_variables(),
            final(self).spec_objective() == old(self).spec_objective(),
            final(self).spec_constraints() == old(self).spec_constraints(),
            final(self).spec_initial() == old(self).spec_initial(),
    {
        self.tape.unary(op, a)
    }

    /// Records `op(a, b)` on the tape.
    pub fn binary(&mut self, op: BinaryOp, a: Var, b: Var) -> (v: Var)
        requires
            old(self).spec_tape().holds(a),
            old(self).spec_tape().holds(b),
        ensures
            final(self).spec_tape().spec_nodes() == old(self).spec_tape().spec_nodes().push(
                ValueData::Binary(op, a@, b@),
            ),
            final(self).spec_tape().spec_num_params() == old(self).spec_tape().spec_num_params(),
            v@ == old(self).spec_tape().spec_nodes().len(),
            final(self).spec_decision_variables() == old(self).spec_decision_variables(),
            final(self).spec_objective() == old(self).spec_objective(),
            final(self).spec_constraints() == old(self).spec_constraints(),
            final(self).spec_initial() == old(self).spec_initial(),
    {
        self.tape.binary(op, a, b)
    }

    /// Makes `f` the objective to minimize.
    pub fn minimize(&mut self, f: Var)
        ensures
            final(self).spec_objective() == Some(f@),
            final(self).spec_tape() == old(self).spec_tape(),
            final(self).spec_decision_variables() == old(self).spec_decision_variables(),
            final(self).spec_constraints() == old(self).spec_constraints(),
            final(self).spec_initial() == old(self).spec_initial(),
    {
        self.objective = Some(f.id());
    }

    /// Makes `-f` the objective to minimize.
    pub fn maximize(&mut self, f: Var)
        requires
            old(self).spec_tape().holds(f),
        ensures
            final(self).spec_tape().spec_nodes() == old(self).spec_tape().spec_nodes().push(
                ValueData::Unary(UnaryOp::Neg, f@),
            ),
            final(self).spec_tape().spec_num_params() == old(self).spec_tape().spec_num_params(),
            final(self).spec_objective() == Some(old(self).spec_tape().spec_nodes().len() as usize),
            final(self).spec_decision_variables() == old(self).spec_decision_variables(),
            final(self).spec_constraints() == old(self).spec_constraints(),
            final(self).spec_initial() == old(self).spec_initial(),
    {
        let neg = self.tape.unary(UnaryOp::Neg, f);
        self.minimize(neg);
    }

    /// Sets the initial value of `v`, replacing an earlier one.
    pub fn set_initial(&mut self, v: Var, x: Bits64)
        ensures
            final(self).spec_initial() == old(self).spec_initial().insert(v@, x),
            final(self).spec_tape() == old(self).spec_tape(),
            final(self).spec_decision_variables() == old(self).spec_decision_variables(),
            final(self).spec_objective() == old(self).spec_objective(),
            final(self).spec_constraints() == old(self).spec_constraints(),
    {
        self.initial.insert(v.id(), x);
    }

    pub fn subject_to(&mut self, c: Constraint)
        ensures
            final(self).spec_constraints() == old(self).spec_constraints().push(c),
            final(self).spec_tape() == old(self).spec_tape(),
            final(self).spec_decision_variables() == old(self).spec_decision_variables(),
            final(self).spec_objective() == old(self).spec_objective(),
            final(self).spec_initial() == old(self).spec_initial(),
    {
        self.constraints.push(c);
    }
}

} // verus!
