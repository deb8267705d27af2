# autodiff

A small automatic-differentiation toolkit whose structural core is verified
with Verus. The functions in `src/` carry contracts; what the derivative
transforms compute is stated over symbolic expressions, node by node, and a
few properties that relate several calls (transposing twice, pruning twice,
the Jacobian of a single output against its gradient)
are stated as public proof functions.

## Layout

- `src/` — the verified library.
  - `sparsity` — compressed-column sparsity patterns: validation,
    transposition, and the greedy (first-fit) distance-2 column coloring.
  - `drivers` — compressed-column storage of derivative matrices and the
    Jacobian driver of a tape.
  - `tape`, `function` — recording expressions on a tape, compiling the
    part that given outputs need into a straight-line function, and the
    forward-mode (tangent) transform of such a function.
  - `graph`, `deriv` — frozen graphs and the source-transformation passes:
    forward and reverse mode with constant folding, gradient, pruning.
  - `ad` — functions of sparse-matrix inputs: tape validation, Jacobian
    sparsity by dependency propagation, and the forward-mode Jacobian (one
    sweep per input nonzero) emitted through a function builder.
  - `ir` — an array IR: types, functions, forward mode (`jvp`), batching
    (`vmap`), planning of chunked code generation, and liveness for printing.
  - `expr` — expressions built in a context and lowered to a tape of what
    given roots need.
  - `grad`, `jacobian` — reverse-mode gradient, Jacobian and Hessian tapes
    of such a tape, each derivative stated as the symbolic adjoint sum that
    the sweep builds.
  - `solver`, `nlp` — stating nonlinear programs, and the checks a program
    must pass before it is handed to an interior-point solver.
- `app/` — what works on doubles, calls native code or prints: evaluation,
  the Cranelift back end, the IPOPT bridge, the pretty-printer, and the
  expression trees of the optimization front end.
- `tests/` — tests of the library.

Constants are held by their IEEE-754 bit pattern (`bits::Bits64`); folding
them with double arithmetic is left to an implementation of
`deriv::ConstantFolder`, whose methods are tied by their contracts to the
spec functions the implementation names; `app/` provides one.
