//! Jacobians and Hessians of expression tapes, built on the reverse sweep
//! of gradients: the forward instructions stay the prefix of the result and
//! every derivative is appended as an extra output.
use vstd::prelude::*;

use crate::expr::{instr_ok, instr_term, lemma_instr_term_extends, Instr, Slot, Tape};
use crate::grad::{
    adjoint_from, gradient, gradient_term, has_rules, is_gradient, lemma_prefix_trans, outputs_in,
    push_input_adjoints, reverse_sweep, tape_ok, var_adjoint_upto, zero_at,
};

verus! {

/// Past `out`, the sweep has only the seed.
proof fn lemma_past_out(insts: Seq<Instr>, out: int, t: int, i: int)
    requires
        0 <= out < i,
    ensures
        adjoint_from(insts, out, t, i) == (if t == out {
            Some(crate::expr::Term::Const(crate::bits::Bits64(crate::deriv::ONE_BITS)))
        } else {
            None
        }),
    decreases insts.len() - i,
{
    if i < insts.len() {
        lemma_past_out(insts, out, t, i + 1);
        lemma_past_out(insts, out, i, i + 1);
    }
}

/// Nothing reaches an instruction after `out`.
proof fn lemma_after_out(insts: Seq<Instr>, out: int, s: int, i: int)
    requires
        tape_ok(insts),
        0 <= out < s,
        0 <= i,
    ensures
        adjoint_from(insts, out, s, i) is None,
    decreases insts.len() - i,
{
    if i < insts.len() {
        lemma_after_out(insts, out, s, i + 1);
        assert(instr_ok(insts[i], i));
        if i > out {
            lemma_past_out(insts, out, i, i + 1);
        }
    }
}

/// Up to `out`, the sweep over a prefix that holds `out` is the same.
proof fn lemma_sweep_prefix(insts: Seq<Instr>, k: int, out: int, t: int, i: int)
    requires
        tape_ok(insts),
        0 <= out < k <= insts.len(),
        0 <= i <= out + 1,
    ensures
        adjoint_from(insts, out, t, i) == adjoint_from(insts.take(k), out, t, i),
    decreases out + 1 - i,
{
    let p = insts.take(k);
    if i == out + 1 {
        lemma_past_out(insts, out, t, i);
        lemma_past_out(p, out, t, i);
    } else {
        lemma_sweep_prefix(insts, k, out, t, i + 1);
        lemma_sweep_prefix(insts, k, out, i, i + 1);
        assert(p[i] == insts[i]);
        assert(instr_ok(insts[i], i));
        assert(p.is_prefix_of(insts));
        lemma_instr_term_extends(p, insts, i);
        match insts[i] {
            Instr::Unary(_, x) => {
                if x < k {
                    lemma_instr_term_extends(p, insts, x as int);
                }
            },
            Instr::Binary(_, x, y) => {
                if x < k {
                    lemma_instr_term_extends(p, insts, x as int);
                }
                if y < k {
                    lemma_instr_term_extends(p, insts, y as int);
                }
            },
            _ => {},
        }
    }
}

/// The instructions after `out` add nothing to a variable's adjoint.
proof fn lemma_var_after_out(insts: Seq<Instr>, out: int, v: u32, j: int)
    requires
        tape_ok(insts),
        0 <= out < j <= insts.len(),
    ensures
        var_adjoint_upto(insts, out, v, j) == var_adjoint_upto(insts, out, v, out + 1),
    decreases j,
{
    if j > out + 1 {
        lemma_var_after_out(insts, out, v, j - 1);
        lemma_after_out(insts, out, j - 1, 0);
    }
}

proof fn lemma_var_prefix(insts: Seq<Instr>, k: int, out: int, v: u32, j: int)
    requires
        tape_ok(insts),
        0 <= out < k <= insts.len(),
        0 <= j <= out + 1,
    ensures
        var_adjoint_upto(insts, out, v, j) == var_adjoint_upto(insts.take(k), out, v, j),
    decreases j,
{
    if j > 0 {
        lemma_var_prefix(insts, k, out, v, j - 1);
        lemma_sweep_prefix(insts, k, out, j - 1, 0);
        assert(insts.take(k)[j - 1] == insts[j - 1]);
    }
}

/// The derivatives of `out` do not depend on what follows it.
proof fn lemma_gradient_prefix(insts: Seq<Instr>, k: int, out: int, v: u32)
    requires
        tape_ok(insts),
        0 <= out < k <= insts.len(),
    ensures
        gradient_term(insts, out, v) == gradient_term(insts.take(k), out, v),
{
    let p = insts.take(k);
    assert(tape_ok(p)) by {
        assert forall|i: int| 0 <= i < p.len() implies instr_ok(#[trigger] p[i], i) by {
            assert(p[i] == insts[i]);
        }
    }
    lemma_var_after_out(insts, out, v, insts.len() as int);
    lemma_var_after_out(p, out, v, k);
    lemma_var_prefix(insts, k, out, v, out + 1);
}

proof fn lemma_row_index(m: int, n: int, k: int, v: int, k2: int)
    requires
        0 <= k2 < k,
        0 <= v < n,
        0 <= m,
    ensures
        m <= m + k2 * n + v < m + k * n,
        (k + 1) * n == k * n + n,
{
    assert(k2 * n + v < k * n) by (nonlinear_arith)
        requires
            0 <= k2 < k,
            0 <= v < n,
    ;
    assert(0 <= k2 * n) by (nonlinear_arith)
        requires
            0 <= k2,
            0 <= n,
    ;
    assert((k + 1) * n == k * n + n) by (nonlinear_arith);
}

/// One more block of `n_vars` derivatives, of instruction `out` of `fwd`,
/// appended to `outputs` and `b`.
fn push_block(
    b: &mut Vec<Instr>,
    outputs: &mut Vec<Slot>,
    fwd: &Vec<Instr>,
    out: Slot,
    n_vars: u32,
    zero: &mut Option<Slot>,
)
    requires
        tape_ok(fwd@),
        has_rules(fwd@),
        out < fwd@.len(),
        fwd@.is_prefix_of(old(b)@),
        tape_ok(old(b)@),
        has_rules(old(b)@),
        zero_at(old(b)@, *old(zero)),
        outputs_in(old(b)@, old(outputs)@),
    ensures
        old(b)@.is_prefix_of(final(b)@),
        tape_ok(final(b)@),
        has_rules(final(b)@),
        zero_at(final(b)@, *final(zero)),
        outputs_in(final(b)@, final(outputs)@),
        final(outputs)@.len() == old(outputs)@.len() + n_vars,
        final(outputs)@.take(old(outputs)@.len() as int) == old(outputs)@,
        forall|j: int|
            0 <= j < old(outputs)@.len() ==> instr_term(final(b)@, #[trigger] final(outputs)@[j] as int)
                == instr_term(old(b)@, old(outputs)@[j] as int),
        forall|v: int|
            0 <= v < n_vars ==> instr_term(final(b)@, #[trigger] final(outputs)@[old(outputs)@.len() + v] as int)
                == gradient_term(fwd@, out as int, v as u32),
{
    let ghost b0 = b@;
    let ghost o0 = outputs@;
    let adj = reverse_sweep(b, fwd, out);
    proof {
        let b1 = b@;
        if let Some(z) = *zero {
            lemma_instr_term_extends(b0, b1, z as int);
        }
    }
    push_input_adjoints(b, outputs, fwd, &adj, Ghost(out as int), n_vars, zero);
    proof {
        lemma_prefix_trans(b0, old(b)@, b@);
        assert forall|j: int| 0 <= j < o0.len() implies instr_term(b@, #[trigger] outputs@[j] as int)
            == instr_term(b0, o0[j] as int) by {
            assert(outputs@[j] == outputs@.take(o0.len() as int)[j]);
            lemma_instr_term_extends(b0, b@, o0[j] as int);
        }
    }
}

/// The instructions of `j` start with those of `tape`, whose outputs come
/// first; after them come, output by output, the derivatives of that
/// output with respect to each variable below `n_vars`.
pub open spec fn is_jacobian(tape: Tape, n_vars: u32, j: Tape) -> bool {
    let m = tape.outputs@.len() as int;
    let n = n_vars as int;
    &&& j.wf()
    &&& has_rules(j.insts@)
    &&& tape.insts@.is_prefix_of(j.insts@)
    &&& j.outputs@.len() == m + m * n
    &&& j.outputs@.take(m) == tape.outputs@
    &&& forall|k: int, v: int|
        0 <= k < m && 0 <= v < n ==> instr_term(j.insts@, #[trigger] j.outputs@[m + k * n + v] as int)
            == gradient_term(tape.insts@, tape.outputs@[k] as int, v as u32)
}

/// The Jacobian tape of every output with respect to the variables below
/// `n_vars`: one reverse sweep per output after the instructions of
/// `tape`, and the outputs of `tape` followed by the Jacobian row by row.
pub fn jacobian(tape: &Tape, n_vars: u32) -> (j: Tape)
    requires
        tape.wf(),
        has_rules(tape.insts@),
    ensures
        is_jacobian(*tape, n_vars, j),
{
    let mut b = tape.insts.clone();
    let mut outputs = tape.outputs.clone();
    proof {
        assert(b@ =~= tape.insts@);
        assert(outputs@ =~= tape.outputs@);
        assert(tape.insts@.is_prefix_of(b@));
    }
    let mut zero: Option<Slot> = None;
    let m = tape.outputs.len();
    let ghost n = n_vars as int;
    let mut k: usize = 0;
    while k < m
        invariant
            k <= m == tape.outputs@.len(),
            n == n_vars,
            tape.wf(),
            has_rules(tape.insts@),
            tape.insts@.is_prefix_of(b@),
            tape_ok(b@),
            has_rules(b@),
            zero_at(b@, zero),
            outputs_in(b@, outputs@),
            outputs@.len() == m + k * n,
            outputs@.take(m as int) == tape.outputs@,
            forall|k2: int, v: int|
                0 <= k2 < k && 0 <= v < n ==> instr_term(b@, #[trigger] outputs@[m + k2 * n + v] as int)
                    == gradient_term(tape.insts@, tape.outputs@[k2] as int, v as u32),
        decreases m - k,
    {
        let ghost b0 = b@;
        let ghost o0 = outputs@;
        let out = tape.outputs[k];
        push_block(&mut b, &mut outputs, &tape.insts, out, n_vars, &mut zero);
        proof {
            lemma_prefix_trans(tape.insts@, b0, b@);
            assert((k as int + 1) * n == k as int * n + n) by (nonlinear_arith);
            assert(outputs@.take(m as int) =~= tape.outputs@) by {
                assert forall|j: int| 0 <= j < m implies outputs@[j] == tape.outputs@[j] by {
                    assert(outputs@[j] == outputs@.take(o0.len() as int)[j]);
                    assert(o0[j] == o0.take(m as int)[j]);
                }
            }
            assert forall|k2: int, v: int| 0 <= k2 < k + 1 && 0 <= v < n implies instr_term(
                b@,
                #[trigger] outputs@[m + k2 * n + v] as int,
            ) == gradient_term(tape.insts@, tape.outputs@[k2] as int, v as u32) by {
                if k2 < k {
                    lemma_row_index(m as int, n, k as int, v, k2);
                } else {
                    assert(m + k2 * n + v == o0.len() + v);
                }
            }
        }
        k += 1;
    }
    Tape { insts: b, outputs }
}

/// The instructions of `h` start with those of `tape`, whose outputs come
/// first; then the derivatives of output `output_idx` with respect to each
/// variable below `n_vars`; then, row by row, the derivatives of each of
/// those with respect to each variable, taken by a reverse sweep over the
/// instructions of `h` itself.
pub open spec fn is_hessian(tape: Tape, output_idx: int, n_vars: u32, h: Tape) -> bool {
    let m = tape.outputs@.len() as int;
    let n = n_vars as int;
    &&& h.wf()
    &&& has_rules(h.insts@)
    &&& tape.insts@.is_prefix_of(h.insts@)
    &&& h.outputs@.len() == m + n + n * n
    &&& h.outputs@.take(m) == tape.outputs@
    &&& forall|v: int|
        0 <= v < n ==> instr_term(h.insts@, #[trigger] h.outputs@[m + v] as int) == gradient_term(
            tape.insts@,
            tape.outputs@[output_idx] as int,
            v as u32,
        )
    &&& forall|i: int, v: int|
        0 <= i < n && 0 <= v < n ==> instr_term(h.insts@, #[trigger] h.outputs@[m + n + i * n + v] as int)
            == gradient_term(h.insts@, h.outputs@[m + i] as int, v as u32)
}

/// The Hessian tape of output `output_idx` with respect to the variables
/// below `n_vars`: the gradient tape, then one reverse sweep over it from
/// each derivative, whose results follow the gradient row by row. Both
/// triangles are computed.
pub fn hessian(tape: &Tape, output_idx: usize, n_vars: u32) -> (h: Tape)
    requires
        tape.wf(),
        has_rules(tape.insts@),
        output_idx < tape.outputs@.len(),
    ensures
        is_hessian(*tape, output_idx as int, n_vars, h),
{
    let g = gradient(tape, output_idx, n_vars);
    let n = n_vars as usize;
    let grad_start = g.outputs.len() - n;
    let mut b = g.insts.clone();
    let mut outputs = g.outputs.clone();
    proof {
        assert(b@ =~= g.insts@);
        assert(outputs@ =~= g.outputs@);
        assert(g.insts@.is_prefix_of(b@));
    }
    let mut zero: Option<Slot> = None;
    let ghost m = tape.outputs@.len() as int;
    let ghost gl = g.insts@.len() as int;
    let mut i: usize = 0;
    while i < n
        invariant
            i <= n == n_vars,
            grad_start == m,
            is_gradient(*tape, output_idx as int, n_vars, g),
            g.insts@.is_prefix_of(b@),
            tape_ok(b@),
            has_rules(b@),
            zero_at(b@, zero),
            outputs_in(b@, outputs@),
            outputs@.len() == m + n + i * n,
            outputs@.take(m + n) == g.outputs@,
            forall|i2: int, v: int|
                0 <= i2 < i && 0 <= v < n ==> instr_term(b@, #[trigger] outputs@[m + n + i2 * n + v] as int)
                    == gradient_term(g.insts@, g.outputs@[m + i2] as int, v as u32),
        decreases n - i,
    {
        let ghost b0 = b@;
        let ghost o0 = outputs@;
        let row = g.outputs[grad_start + i];
        push_block(&mut b, &mut outputs, &g.insts, row, n_vars, &mut zero);
        proof {
            lemma_prefix_trans(g.insts@, b0, b@);
            assert((i as int + 1) * n == i as int * n + n) by (nonlinear_arith);
            assert(outputs@.take(m + n) =~= g.outputs@) by {
                assert forall|j: int| 0 <= j < m + n implies outputs@[j] == g.outputs@[j] by {
                    assert(outputs@[j] == outputs@.take(o0.len() as int)[j]);
                    assert(o0[j] == o0.take(m + n)[j]);
                }
            }
            assert forall|i2: int, v: int| 0 <= i2 < i + 1 && 0 <= v < n implies instr_term(
                b@,
                #[trigger] outputs@[m + n + i2 * n + v] as int,
            ) == gradient_term(g.insts@, g.outputs@[m + i2] as int, v as u32) by {
                if i2 < i {
                    lemma_row_index(m + n, n as int, i as int, v, i2);
                } else {
                    assert(m + n + i2 * n + v == o0.len() + v);
                }
            }
        }
        i += 1;
    }
    proof {
        let hb = b@;
        assert(hb.take(gl) =~= g.insts@);
        assert forall|v: int| 0 <= v < n implies instr_term(hb, #[trigger] outputs@[m + v] as int)
            == gradient_term(tape.insts@, tape.outputs@[output_idx as int] as int, v as u32) by {
            assert(outputs@[m + v] == outputs@.take(m + n)[m + v]);
            assert(g.outputs@[m + v] < gl);
            lemma_instr_term_extends(g.insts@, hb, g.outputs@[m + v] as int);
        }
        assert forall|i2: int, v: int| 0 <= i2 < n && 0 <= v < n implies instr_term(
            hb,
            #[trigger] outputs@[m + n + i2 * n + v] as int,
        ) == gradient_term(hb, outputs@[m + i2] as int, v as u32) by {
            assert(outputs@[m + i2] == outputs@.take(m + n)[m + i2]);
            assert(g.outputs@[m + i2] < gl);
            lemma_gradient_prefix(hb, gl, g.outputs@[m + i2] as int, v as u32);
        }
        assert(outputs@.take(m) =~= tape.outputs@) by {
            assert forall|j: int| 0 <= j < m implies outputs@[j] == tape.outputs@[j] by {
                assert(outputs@[j] == outputs@.take(m + n)[j]);
                assert(g.outputs@[j] == g.outputs@.take(m)[j]);
            }
        }
        lemma_prefix_trans(tape.insts@, g.insts@, hb);
    }
    Tape { insts: b, outputs }
}

/// For a tape with a single output, the Jacobian is the gradient: the two
/// tapes have as many outputs, and each derivative computes the same.
pub proof fn lemma_jacobian_of_one_output(tape: Tape, n_vars: u32, g: Tape, j: Tape)
    requires
        tape.outputs@.len() == 1,
        is_gradient(tape, 0, n_vars, g),
        is_jacobian(tape, n_vars, j),
    ensures
        j.outputs@.len() == g.outputs@.len(),
        forall|v: int|
            0 <= v < n_vars ==> instr_term(j.insts@, #[trigger] j.outputs@[1 + v] as int) == instr_term(
                g.insts@,
                g.outputs@[1 + v] as int,
            ),
{
    assert forall|v: int| 0 <= v < n_vars implies instr_term(j.insts@, #[trigger] j.outputs@[1 + v] as int)
        == instr_term(g.insts@, g.outputs@[1 + v] as int) by {
        assert(1 + 0 * (n_vars as int) + v == 1 + v);
    }
}

} // verus!
