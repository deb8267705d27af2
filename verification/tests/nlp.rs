use autodiff::nlp::{check, Error, InvalidProblem, ProblemShape, Status};

fn shape() -> ProblemShape {
    ProblemShape {
        n: 2,
        m: 1,
        x_l_len: 2,
        x_u_len: 2,
        g_u_len: 1,
        has_objective: true,
        has_gradient: true,
        has_hessian: true,
        has_constraints: true,
        has_jacobian: true,
        jacobian_sparsity: vec![(0, 0), (0, 1)],
        hessian_sparsity: vec![(0, 0), (1, 0), (1, 1)],
    }
}

fn invalid(r: Result<(), Error>) -> InvalidProblem {
    match r {
        Err(Error::Invalid(e)) => e,
        other => panic!("expected an invalid problem, got {:?}", other),
    }
}

fn missing(r: Result<(), Error>) -> &'static str {
    match r {
        Err(Error::Missing(what)) => what,
        other => panic!("expected a missing callback, got {:?}", other),
    }
}

#[test]
fn valid_problem_passes() {
    assert!(check(&shape(), 2).is_ok());
}

#[test]
fn start_length_is_checked_first() {
    let mut p = shape();
    p.has_objective = false;
    assert_eq!(invalid(check(&p, 3)), InvalidProblem::StartLength { got: 3, expected: 2 });
}

#[test]
fn bound_lengths_are_checked() {
    let mut p = shape();
    p.x_u_len = 1;
    assert_eq!(invalid(check(&p, 2)), InvalidProblem::VariableBoundsLength);
    let mut p = shape();
    p.g_u_len = 2;
    assert_eq!(invalid(check(&p, 2)), InvalidProblem::ConstraintBoundsLength);
}

#[test]
fn callbacks_are_required_in_order() {
    let mut p = shape();
    p.has_objective = false;
    p.has_gradient = false;
    assert_eq!(missing(check(&p, 2)), "objective");
    let mut p = shape();
    p.has_gradient = false;
    assert_eq!(missing(check(&p, 2)), "gradient");
    let mut p = shape();
    p.has_hessian = false;
    assert_eq!(missing(check(&p, 2)), "hessian");
    let mut p = shape();
    p.has_constraints = false;
    assert_eq!(missing(check(&p, 2)), "constraints");
    let mut p = shape();
    p.has_jacobian = false;
    assert_eq!(missing(check(&p, 2)), "jacobian");
}

#[test]
fn unconstrained_problem_needs_no_constraint_callbacks() {
    let mut p = shape();
    p.m = 0;
    p.g_u_len = 0;
    p.has_constraints = false;
    p.has_jacobian = false;
    // The Jacobian pattern is ignored without constraints.
    p.jacobian_sparsity = vec![(7, 7)];
    assert!(check(&p, 2).is_ok());
}

#[test]
fn jacobian_entries_must_be_in_range() {
    let mut p = shape();
    p.jacobian_sparsity = vec![(0, 1), (0, 2), (1, 0)];
    assert_eq!(
        invalid(check(&p, 2)),
        InvalidProblem::JacobianEntryOutOfRange { row: 0, col: 2, m: 1, n: 2 }
    );
}

#[test]
fn hessian_entries_must_be_in_the_lower_triangle() {
    let mut p = shape();
    p.hessian_sparsity = vec![(0, 0), (0, 1)];
    assert_eq!(invalid(check(&p, 2)), InvalidProblem::HessianAboveDiagonal { row: 0, col: 1 });
    let mut p = shape();
    p.hessian_sparsity = vec![(2, 0), (0, 1)];
    assert_eq!(
        invalid(check(&p, 2)),
        InvalidProblem::HessianEntryOutOfRange { row: 2, col: 0, n: 2 }
    );
}

#[test]
fn success_statuses() {
    assert!(Status::SolveSucceeded.is_success());
    assert!(Status::SolvedToAcceptableLevel.is_success());
    assert!(!Status::MaximumIterationsExceeded.is_success());
    assert!(!Status::InfeasibleProblemDetected.is_success());
}
