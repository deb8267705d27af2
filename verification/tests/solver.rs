use autodiff::bits::Bits64;
use autodiff::op::{BinaryOp, UnaryOp};
use autodiff::solver::cns::{bounded, eq, ge, le};
use autodiff::solver::{Constraint, NlpSolver};
use autodiff::tape::ValueData;

#[test]
fn constraints_normalize_to_le() {
    assert_eq!(le(1, 2), Constraint::Le(1, 2));
    assert_eq!(ge(1, 2), Constraint::Le(2, 1));
    assert_eq!(eq(3, 4), Constraint::Eq(3, 4));
    assert_eq!(bounded(0, 1, 2), Constraint::Bounded(0, 1, 2));
}

#[test]
fn maximize_minimizes_the_negation() {
    let mut s = NlpSolver::new();
    let x = s.decision_variable();
    let y = s.decision_variable();
    let p = s.binary(BinaryOp::Mul, x, y);
    s.maximize(p);
    let nodes = s.tape().nodes();
    assert_eq!(nodes.len(), 4);
    assert_eq!(nodes[3], ValueData::Unary(UnaryOp::Neg, p.id()));
    let c = s.constant(Bits64(1.0f64.to_bits()));
    s.subject_to(le(x.id(), c.id()));
    s.set_initial(x, Bits64(0.5f64.to_bits()));
}
