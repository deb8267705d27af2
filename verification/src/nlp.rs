//! Outcomes of the interior-point solver, and the checks a nonlinear
//! program must pass before it is handed to the solver.
use vstd::prelude::*;

verus! {

/// How a solve ended.
#[derive(Debug, Clone, Copy, PartialEq, Eq, Structural)]
pub enum Status {
    SolveSucceeded,
    SolvedToAcceptableLevel,
    InfeasibleProblemDetected,
    SearchDirectionBecomesTooSmall,
    DivergingIterates,
    UserRequestedStop,
    FeasiblePointFound,
    MaximumIterationsExceeded,
    RestorationFailed,
    ErrorInStepComputation,
    MaximumCpuTimeExceeded,
    MaximumWallTimeExceeded,
    NotEnoughDegreesOfFreedom,
    InvalidProblemDefinition,
    InvalidOption,
    InvalidNumberDetected,
    UnrecoverableException,
    NonIpoptExceptionThrown,
    InsufficientMemory,
    InternalError,
}

impl Status {
    /// The solve found a solution, to the requested or an acceptable
    /// tolerance.
    pub fn is_success(self) -> (r: bool)
        ensures
            r == (self is SolveSucceeded || self is SolvedToAcceptableLevel),
    {
        match self {
            Status::SolveSucceeded | Status::SolvedToAcceptableLevel => true,
            _ => false,
        }
    }
}

/// What is wrong with the lengths or sparsity patterns of a problem.
#[derive(Debug, Clone, PartialEq, Eq, Structural)]
pub enum InvalidProblem {
    /// The starting point does not have one entry per variable.
    StartLength { got: usize, expected: usize },
    /// A vector of variable bounds does not have one entry per variable.
    VariableBoundsLength,
    /// The lower and upper constraint bounds differ in length.
    ConstraintBoundsLength,
    /// A Jacobian entry lies outside the `m x n` matrix.
    JacobianEntryOutOfRange { row: usize, col: usize, m: usize, n: usize },
    /// A Hessian entry lies outside the `n x n` matrix.
    HessianEntryOutOfRange { row: usize, col: usize, n: usize },
    /// A Hessian entry lies above the diagonal; only the lower triangle is
    /// given.
    HessianAboveDiagonal { row: usize, col: usize },
}

#[derive(Debug)]
pub enum Error {
    /// A required callback was never set.
    Missing(&'static str),
    /// Bad lengths, or a sparsity entry out of range.
    Invalid(InvalidProblem),
    /// The solver could not create the problem.
    CreateFailed,
    /// The solver rejected an option.
    BadOption(String),
}

/// What the checks read of a problem: its sizes, the lengths of its bound
/// vectors, which callbacks are set, and the sparsity patterns of the
/// constraint Jacobian and of the lower triangle of the Hessian.
pub struct ProblemShape {
    /// Number of variables.
    pub n: usize,
    /// Number of constraints, the length of the lower constraint bounds.
    pub m: usize,
    pub x_l_len: usize,
    pub x_u_len: usize,
    pub g_u_len: usize,
    pub has_objective: bool,
    pub has_gradient: bool,
    pub has_hessian: bool,
    pub has_constraints: bool,
    pub has_jacobian: bool,
    /// `(row, col)` entries of the constraint Jacobian.
    pub jacobian_sparsity: Vec<(usize, usize)>,
    /// `(row, col)` entries of the Hessian of the Lagrangian.
    pub hessian_sparsity: Vec<(usize, usize)>,
}

pub open spec fn jacobian_entry_bad(e: (usize, usize), m: usize, n: usize) -> bool {
    e.0 >= m || e.1 >= n
}

pub open spec fn hessian_entry_bad(e: (usize, usize), n: usize) -> bool {
    e.0 >= n || e.1 >= n || e.1 > e.0
}

/// Position of the first entry of `sp` from `from` on that lies outside
/// the `m x n` matrix, or the length of `sp` if there is none.
pub open spec fn first_bad_jacobian(sp: Seq<(usize, usize)>, m: usize, n: usize, from: int) -> int
    decreases sp.len() - from,
{
    if from < 0 || from >= sp.len() {
        sp.len() as int
    } else if jacobian_entry_bad(sp[from], m, n) {
        from
    } else {
        first_bad_jacobian(sp, m, n, from + 1)
    }
}

/// Position of the first entry of `sp` from `from` on that lies outside
/// the `n x n` matrix or above its diagonal, or the length of `sp`.
pub open spec fn first_bad_hessian(sp: Seq<(usize, usize)>, n: usize, from: int) -> int
    decreases sp.len() - from,
{
    if from < 0 || from >= sp.len() {
        sp.len() as int
    } else if hessian_entry_bad(sp[from], n) {
        from
    } else {
        first_bad_hessian(sp, n, from + 1)
    }
}

/// The error for a bad Hessian entry.
pub open spec fn hessian_error(e: (usize, usize), n: usize) -> InvalidProblem {
    if e.0 >= n || e.1 >= n {
        InvalidProblem::HessianEntryOutOfRange { row: e.0, col: e.1, n }
    } else {
        InvalidProblem::HessianAboveDiagonal { row: e.0, col: e.1 }
    }
}

/// The outcome of the checks, in the order they are made: lengths, then
/// the callbacks (constraints and Jacobian only where there are
/// constraints), then the Jacobian pattern (only where there are
/// constraints), then the Hessian pattern.
pub open spec fn check_outcome(p: ProblemShape, x0_len: usize) -> Result<(), Error> {
    let jac = p.jacobian_sparsity@;
    let hess = p.hessian_sparsity@;
    let bj = first_bad_jacobian(jac, p.m, p.n, 0);
    let bh = first_bad_hessian(hess, p.n, 0);
    if x0_len != p.n {
        Err(Error::Invalid(InvalidProblem::StartLength { got: x0_len, expected: p.n }))
    } else if p.x_l_len != p.n || p.x_u_len != p.n {
        Err(Error::Invalid(InvalidProblem::VariableBoundsLength))
    } else if p.g_u_len != p.m {
        Err(Error::Invalid(InvalidProblem::ConstraintBoundsLength))
    } else if !p.has_objective {
        Err(Error::Missing("objective"))
    } else if !p.has_gradient {
        Err(Error::Missing("gradient"))
    } else if !p.has_hessian {
        Err(Error::Missing("hessian"))
    } else if p.m > 0 && !p.has_constraints {
        Err(Error::Missing("constraints"))
    } else if p.m > 0 && !p.has_jacobian {
        Err(Error::Missing("jacobian"))
    } else if p.m > 0 && bj < jac.len() {
        Err(
            Error::Invalid(
                InvalidProblem::JacobianEntryOutOfRange { row: jac[bj].0, col: jac[bj].1, m: p.m, n: p.n },
            ),
        )
    } else if bh < hess.len() {
        Err(Error::Invalid(hessian_error(hess[bh], p.n)))
    } else {
        Ok(())
    }
}

proof fn lemma_first_bad_hessian(sp: Seq<(usize, usize)>, n: usize, from: int)
    requires
        0 <= from <= sp.len(),
    ensures
        from <= first_bad_hessian(sp, n, from) <= sp.len(),
        first_bad_hessian(sp, n, from) < sp.len() ==> hessian_entry_bad(
            sp[first_bad_hessian(sp, n, from)],
            n,
        ),
    decreases sp.len() - from,
{
    if from < sp.len() && !hessian_entry_bad(sp[from], n) {
        lemma_first_bad_hessian(sp, n, from + 1);
    }
}

/// The checks before the Jacobian pattern pass: the lengths agree and the
/// callbacks that the problem needs are set.
pub open spec fn shape_ready(p: ProblemShape, x0_len: usize) -> bool {
    &&& x0_len == p.n
    &&& p.x_l_len == p.n
    &&& p.x_u_len == p.n
    &&& p.g_u_len == p.m
    &&& p.has_objective
    &&& p.has_gradient
    &&& p.has_hessian
    &&& p.m > 0 ==> p.has_constraints && p.has_jacobian
}

proof fn lemma_first_bad_jacobian(sp: Seq<(usize, usize)>, m: usize, n: usize, from: int)
    requires
        0 <= from <= sp.len(),
    ensures
        from <= first_bad_jacobian(sp, m, n, from) <= sp.len(),
        first_bad_jacobian(sp, m, n, from) < sp.len() ==> {
            let e = sp[first_bad_jacobian(sp, m, n, from)];
            e.0 >= m || e.1 >= n
        },
        forall|k: int| from <= k < first_bad_jacobian(sp, m, n, from) ==> (#[trigger] sp[k]).0 < m && sp[k].1 < n,
    decreases sp.len() - from,
{
    if from < sp.len() && !jacobian_entry_bad(sp[from], m, n) {
        lemma_first_bad_jacobian(sp, m, n, from + 1);
    }
}

proof fn lemma_first_bad_hessian_before(sp: Seq<(usize, usize)>, n: usize, from: int)
    requires
        0 <= from <= sp.len(),
    ensures
        forall|k: int| from <= k < first_bad_hessian(sp, n, from) ==> (#[trigger] sp[k]).1 <= sp[k].0 && sp[k].0 < n,
    decreases sp.len() - from,
{
    if from < sp.len() && !hessian_entry_bad(sp[from], n) {
        lemma_first_bad_hessian_before(sp, n, from + 1);
    }
}

/// A problem passes the checks exactly when its lengths agree, the
/// callbacks it needs are set, every Jacobian entry lies in the `m x n`
/// matrix (where there are constraints), and every Hessian entry lies in
/// the lower triangle of the `n x n` matrix.
pub proof fn lemma_check_accepts_exactly_valid(p: ProblemShape, x0_len: usize)
    ensures
        check_outcome(p, x0_len) is Ok <==> {
            &&& shape_ready(p, x0_len)
            &&& p.m > 0 ==> forall|k: int|
                0 <= k < p.jacobian_sparsity@.len() ==> (#[trigger] p.jacobian_sparsity@[k]).0 < p.m
                    && p.jacobian_sparsity@[k].1 < p.n
            &&& forall|k: int|
                0 <= k < p.hessian_sparsity@.len() ==> (#[trigger] p.hessian_sparsity@[k]).1
                    <= p.hessian_sparsity@[k].0 && p.hessian_sparsity@[k].0 < p.n
        },
{
    let jac = p.jacobian_sparsity@;
    let hess = p.hessian_sparsity@;
    lemma_first_bad_jacobian(jac, p.m, p.n, 0);
    lemma_first_bad_hessian(hess, p.n, 0);
    lemma_first_bad_hessian_before(hess, p.n, 0);
    let bj = first_bad_jacobian(jac, p.m, p.n, 0);
    let bh = first_bad_hessian(hess, p.n, 0);
    if bj < jac.len() {
        assert(!(jac[bj].0 < p.m && jac[bj].1 < p.n));
    }
    if bh < hess.len() {
        assert(hessian_entry_bad(hess[bh], p.n));
        assert(!(hess[bh].1 <= hess[bh].0 && hess[bh].0 < p.n));
    }
}

/// Where the earlier checks pass and there are constraints, the first
/// Jacobian entry outside the `m x n` matrix is the one reported, with its
/// row and column and the matrix's size.
pub proof fn lemma_check_reports_first_bad_jacobian_entry(p: ProblemShape, x0_len: usize, k: int)
    requires
        shape_ready(p, x0_len),
        p.m > 0,
        0 <= k < p.jacobian_sparsity@.len(),
        p.jacobian_sparsity@[k].0 >= p.m || p.jacobian_sparsity@[k].1 >= p.n,
        forall|j: int|
            0 <= j < k ==> (#[trigger] p.jacobian_sparsity@[j]).0 < p.m && p.jacobian_sparsity@[j].1 < p.n,
    ensures
        check_outcome(p, x0_len) == Err::<(), Error>(
            Error::Invalid(
                InvalidProblem::JacobianEntryOutOfRange {
                    row: p.jacobian_sparsity@[k].0,
                    col: p.jacobian_sparsity@[k].1,
                    m: p.m,
                    n: p.n,
                },
            ),
        ),
{
    let jac = p.jacobian_sparsity@;
    lemma_first_bad_jacobian(jac, p.m, p.n, 0);
    let bj = first_bad_jacobian(jac, p.m, p.n, 0);
    if bj < k {
        assert(jac[bj].0 < p.m && jac[bj].1 < p.n);
    }
    if bj > k {
        assert(jac[k].0 < p.m && jac[k].1 < p.n);
    }
}

/// Where the earlier checks and the Jacobian pattern pass, the first
/// Hessian entry outside the lower triangle of the `n x n` matrix is the
/// one reported: out of range if its row or column is not below `n`,
/// above the diagonal otherwise.
pub proof fn lemma_check_reports_first_bad_hessian_entry(p: ProblemShape, x0_len: usize, k: int)
    requires
        shape_ready(p, x0_len),
        p.m > 0 ==> forall|j: int|
            0 <= j < p.jacobian_sparsity@.len() ==> (#[trigger] p.jacobian_sparsity@[j]).0 < p.m
                && p.jacobian_sparsity@[j].1 < p.n,
        0 <= k < p.hessian_sparsity@.len(),
        !(p.hessian_sparsity@[k].1 <= p.hessian_sparsity@[k].0 && p.hessian_sparsity@[k].0 < p.n),
        forall|j: int|
            0 <= j < k ==> (#[trigger] p.hessian_sparsity@[j]).1 <= p.hessian_sparsity@[j].0
                && p.hessian_sparsity@[j].0 < p.n,
    ensures
        check_outcome(p, x0_len) == Err::<(), Error>(
            Error::Invalid(
                if p.hessian_sparsity@[k].0 >= p.n || p.hessian_sparsity@[k].1 >= p.n {
                    InvalidProblem::HessianEntryOutOfRange {
                        row: p.hessian_sparsity@[k].0,
                        col: p.hessian_sparsity@[k].1,
                        n: p.n,
                    }
                } else {
                    InvalidProblem::HessianAboveDiagonal { row: p.hessian_sparsity@[k].0, col: p.hessian_sparsity@[k].1 }
                },
            ),
        ),
{
    let jac = p.jacobian_sparsity@;
    let hess = p.hessian_sparsity@;
    lemma_first_bad_jacobian(jac, p.m, p.n, 0);
    lemma_first_bad_hessian(hess, p.n, 0);
    lemma_first_bad_hessian_before(hess, p.n, 0);
    let bj = first_bad_jacobian(jac, p.m, p.n, 0);
    let bh = first_bad_hessian(hess, p.n, 0);
    if p.m > 0 && bj < jac.len() {
        assert(jac[bj].0 < p.m && jac[bj].1 < p.n);
    }
    if bh < k {
        assert(hess[bh].1 <= hess[bh].0 && hess[bh].0 < p.n);
    }
    if bh > k {
        assert(hess[k].1 <= hess[k].0 && hess[k].0 < p.n);
    }
}

/// The first entry of `sp` outside the `m x n` matrix.
fn find_bad_jacobian(sp: &Vec<(usize, usize)>, m: usize, n: usize) -> (r: usize)
    ensures
        r == first_bad_jacobian(sp@, m, n, 0),
{
    let mut i: usize = 0;
    while i < sp.len()
        invariant
            i <= sp@.len(),
            first_bad_jacobian(sp@, m, n, 0) == first_bad_jacobian(sp@, m, n, i as int),
        decreases sp@.len() - i,
    {
        let (r, c) = sp[i];
        if r >= m || c >= n {
            return i;
        }
        i += 1;
    }
    i
}

/// The first entry of `sp` outside the `n x n` matrix or above its
/// diagonal.
fn find_bad_hessian(sp: &Vec<(usize, usize)>, n: usize) -> (r: usize)
    ensures
        r == first_bad_hessian(sp@, n, 0),
{
    let mut i: usize = 0;
    while i < sp.len()
        invariant
            i <= sp@.len(),
            first_bad_hessian(sp@, n, 0) == first_bad_hessian(sp@, n, i as int),
        decreases sp@.len() - i,
    {
        let (r, c) = sp[i];
        if r >= n || c >= n || c > r {
            return i;
        }
        i += 1;
    }
    i
}

/// Checks a problem and a starting point of length `x0_len` before a
/// solve: the lengths of the starting point and of the bounds, that the
/// objective, its gradient and the Hessian are set, that the constraints
/// and their Jacobian are set where there are constraints, that every
/// Jacobian entry lies in the `m x n` matrix, and that every Hessian entry
/// lies in the lower triangle of the `n x n` matrix. The first failing
/// check gives the error.
pub fn check(p: &ProblemShape, x0_len: usize) -> (r: Result<(), Error>)
    ensures
        r == check_outcome(*p, x0_len),
{
    let n = p.n;
    let m = p.m;
    if x0_len != n {
        return Err(Error::Invalid(InvalidProblem::StartLength { got: x0_len, expected: n }));
    }
    if p.x_l_len != n || p.x_u_len != n {
        return Err(Error::Invalid(InvalidProblem::VariableBoundsLength));
    }
    if p.g_u_len != m {
        return Err(Error::Invalid(InvalidProblem::ConstraintBoundsLength));
    }
    if !p.has_objective {
        return Err(Error::Missing("objective"));
    }
    if !p.has_gradient {
        return Err(Error::Missing("gradient"));
    }
    if !p.has_hessian {
        return Err(Error::Missing("hessian"));
    }
    if m > 0 {
        if !p.has_constraints {
            return Err(Error::Missing("constraints"));
        }
        if !p.has_jacobian {
            return Err(Error::Missing("jacobian"));
        }
        // Without constraints the solver gets an empty Jacobian.
        let bj = find_bad_jacobian(&p.jacobian_sparsity, m, n);
        if bj < p.jacobian_sparsity.len() {
            let (row, col) = p.jacobian_sparsity[bj];
            return Err(Error::Invalid(InvalidProblem::JacobianEntryOutOfRange { row, col, m, n }));
        }
    }
    let bh = find_bad_hessian(&p.hessian_sparsity, n);
    if bh < p.hessian_sparsity.len() {
        let (row, col) = p.hessian_sparsity[bh];
        proof {
            lemma_first_bad_hessian(p.hessian_sparsity@, n, 0);
        }
        if row >= n || col >= n {
            return Err(Error::Invalid(InvalidProblem::HessianEntryOutOfRange { row, col, n }));
        }
        return Err(Error::Invalid(InvalidProblem::HessianAboveDiagonal { row, col }));
    }
    Ok(())
}

} // verus!
