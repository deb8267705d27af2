//! Forward-mode differentiation of IR functions.
use vstd::prelude::*;

use crate::bits::Bits64;
use crate::function::{add_tan, binary_tan, bin, sub_tan, un, unary_tan, Sym};
use crate::ir::function::{
    grows, is_zero_value, is_elementwise, operands_below, lemma_grows, value_sym, Function, InstructionData, Value, ValueData,
};
use crate::ir::ty::TyData;
use crate::op::{BinaryOp, UnaryOp};

verus! {

/// `v` is a parameter of `f`.
pub open spec fn is_param(f: &Function, v: int) -> bool {
    exists|k: int| 0 <= k < f.params@.len() && #[trigger] f.params@[k] == v
}

/// `v` is a parameter, or the result of one of the first `pos`
/// instructions of the layout.
pub open spec fn available(f: &Function, pos: int, v: int) -> bool {
    ||| is_param(f, v)
    ||| exists|q: int| 0 <= q < pos && #[trigger] f.results@[f.layout@[q] as int] == v
}

/// Layout position `p` holds an elementwise instruction that reads only
/// available values of equal types and whose result has the type the IR
/// gives it.
pub open spec fn layout_ok(f: &Function, p: int) -> bool {
    let inst = f.layout@[p] as int;
    let r = f.results@[inst] as int;
    match f.insts@[inst] {
        InstructionData::Constant(_) => f.value_ty_data(r) == TyData::spec_scalar(),
        InstructionData::Unary(_, a) => available(f, p, a as int) && f.value_ty_data(r) == f.value_ty_data(
            a as int,
        ),
        InstructionData::Binary(_, a, b) => available(f, p, a as int) && available(f, p, b as int)
            && f.values@[a as int].spec_ty() == f.values@[b as int].spec_ty() && f.value_ty_data(r)
            == f.value_ty_data(a as int),
        _ => false,
    }
}

/// The layout is straight-line elementwise code over the parameters, and
/// the returns are defined by its end.
pub open spec fn straight_line(f: &Function) -> bool {
    &&& f.wf()
    &&& forall|p: int| 0 <= p < f.layout@.len() ==> #[trigger] layout_ok(f, p)
    &&& forall|k: int| 0 <= k < f.returns@.len() ==> available(f, f.layout@.len() as int, #[trigger] f.returns@[k] as int)
}

/// The tangent of value `v` by the chain rule, when parameter `num` has
/// tangent `Param(n + num)`; `None` is a structural zero.
pub open spec fn ir_tan(values: Seq<ValueData>, insts: Seq<InstructionData>, n: nat, v: int) -> Option<Sym>
    decreases v,
{
    if v < 0 || v >= values.len() {
        None
    } else {
        match values[v] {
            ValueData::Param { num, .. } => Some(Sym::Param((n + num) as u32)),
            ValueData::Result { inst, .. } => if 0 <= inst < insts.len() {
                match insts[inst as int] {
                    InstructionData::Unary(op, a) => if a < v {
                        match ir_tan(values, insts, n, a as int) {
                            Some(da) => Some(unary_tan(op, value_sym(values, insts, a as int), da)),
                            None => None,
                        }
                    } else {
                        None
                    },
                    InstructionData::Binary(op, a, b) => if a < v && b < v {
                        binary_tan(
                            op,
                            value_sym(values, insts, a as int),
                            value_sym(values, insts, b as int),
                            ir_tan(values, insts, n, a as int),
                            ir_tan(values, insts, n, b as int),
                        )
                    } else {
                        None
                    },
                    _ => None,
                }
            } else {
                None
            },
        }
    }
}

/// The tangent of value `v` of `f`.
pub open spec fn tangent(f: &Function, v: int) -> Option<Sym> {
    ir_tan(f.values@, f.insts@, f.params@.len(), v)
}

/// What an optional value computes.
pub open spec fn osym(f: &Function, t: Option<Value>) -> Option<Sym> {
    match t {
        Some(v) => Some(f.sym(v as int)),
        None => None,
    }
}

/// An optional value of `f` with type data `td`.
pub open spec fn typed_opt(f: &Function, t: Option<Value>, td: TyData) -> bool {
    t is Some ==> t->0 < f.values@.len() && f.value_ty_data(t->0 as int) == td
}

pub(crate) proof fn lemma_opt_grows(old: &Function, new: &Function, t: Option<Value>, td: TyData)
    requires
        old.wf(),
        grows(old, new),
        typed_opt(old, t, td),
    ensures
        typed_opt(new, t, td),
        osym(new, t) == osym(old, t),
{
    if t is Some {
        lemma_grows(old, new, t->0 as int);
    }
}

/// Emits the sum of two tangents of type `td`.
pub(crate) fn emit_add_tan(out: &mut Function, x: Option<Value>, y: Option<Value>, Ghost(td): Ghost<TyData>) -> (r:
    Option<Value>)
    requires
        old(out).wf(),
        typed_opt(old(out), x, td),
        typed_opt(old(out), y, td),
    ensures
        grows(old(out), final(out)),
        typed_opt(final(out), r, td),
        osym(final(out), r) == add_tan(osym(old(out), x), osym(old(out), y)),
{
    match (x, y) {
        (Some(a), Some(b)) => Some(out.emit_binary(BinaryOp::Add, a, b)),
        (Some(a), None) => {
            proof {
                assert(old(out).values@.is_prefix_of(out.values@));
            }
            Some(a)
        },
        (None, t) => t,
    }
}

/// Emits the difference of two tangents of type `td`.
pub(crate) fn emit_sub_tan(out: &mut Function, x: Option<Value>, y: Option<Value>, Ghost(td): Ghost<TyData>) -> (r:
    Option<Value>)
    requires
        old(out).wf(),
        typed_opt(old(out), x, td),
        typed_opt(old(out), y, td),
    ensures
        grows(old(out), final(out)),
        typed_opt(final(out), r, td),
        osym(final(out), r) == sub_tan(osym(old(out), x), osym(old(out), y)),
{
    match (x, y) {
        (t, None) => t,
        (None, Some(b)) => Some(out.emit_unary(UnaryOp::Neg, b)),
        (Some(a), Some(b)) => Some(out.emit_binary(BinaryOp::Sub, a, b)),
    }
}


pub(crate) proof fn lemma_grows_trans(a: &Function, b: &Function, c: &Function)
    requires
        grows(a, b),
        grows(b, c),
    ensures
        grows(a, c),
{
    assert(a.values@.is_prefix_of(c.values@)) by {
        assert forall|i: int| 0 <= i < a.values@.len() implies c.values@[i] == a.values@[i] by {
            assert(b.values@[i] == a.values@[i]);
        }
    }
    assert(a.insts@.is_prefix_of(c.insts@)) by {
        assert forall|i: int| 0 <= i < a.insts@.len() implies c.insts@[i] == a.insts@[i] by {
            assert(b.insts@[i] == a.insts@[i]);
        }
    }
    assert(a.spec_types().is_prefix_of(c.spec_types())) by {
        assert forall|i: int| 0 <= i < a.spec_types().len() implies c.spec_types()[i] == a.spec_types()[i] by {
            assert(b.spec_types()[i] == a.spec_types()[i]);
        }
    }
}

/// A value of `f` with type data `td`.
pub open spec fn typed(f: &Function, v: Value, td: TyData) -> bool {
    v < f.values@.len() && f.value_ty_data(v as int) == td
}

/// Emits the tangent of `op(x)`, where `pa` computes `x` and `t` is the
/// tangent of `x`, both of type `td`.
pub(crate) fn emit_unary_tan(out: &mut Function, op: UnaryOp, pa: Value, t: Value, Ghost(td): Ghost<TyData>) -> (r:
    Value)
    requires
        old(out).wf(),
        typed(old(out), pa, td),
        typed(old(out), t, td),
    ensures
        grows(old(out), final(out)),
        typed(final(out), r, td),
        final(out).sym(r as int) == unary_tan(op, old(out).sym(pa as int), old(out).sym(t as int)),
{
    let ghost out0 = *out;
    match op {
        UnaryOp::Neg => out.emit_unary(UnaryOp::Neg, t),
        UnaryOp::Sin => {
            let c = out.emit_unary(UnaryOp::Cos, pa);
            let ghost out1 = *out;
            proof {
                lemma_grows(&out0, &out1, t as int);
            }
            let m = out.emit_binary(BinaryOp::Mul, c, t);
            proof {
                lemma_grows_trans(&out0, &out1, out);
            }
            m
        },
        UnaryOp::Cos => {
            let sv = out.emit_unary(UnaryOp::Sin, pa);
            let ghost out1 = *out;
            proof {
                lemma_grows(&out0, &out1, t as int);
            }
            let m = out.emit_binary(BinaryOp::Mul, sv, t);
            let ghost out2 = *out;
            proof {
                lemma_grows_trans(&out0, &out1, &out2);
            }
            let n = out.emit_unary(UnaryOp::Neg, m);
            proof {
                lemma_grows_trans(&out0, &out2, out);
            }
            n
        },
    }
}

/// Emits the tangent of `op(x, y)`, where `pa` and `pb` compute `x` and
/// `y`, and `ta` and `tb` are their tangents, all of type `td`.
fn emit_binary_tan(
    out: &mut Function,
    op: BinaryOp,
    pa: Value,
    pb: Value,
    ta: Option<Value>,
    tb: Option<Value>,
    Ghost(td): Ghost<TyData>,
) -> (r: Option<Value>)
    requires
        old(out).wf(),
        typed(old(out), pa, td),
        typed(old(out), pb, td),
        typed_opt(old(out), ta, td),
        typed_opt(old(out), tb, td),
    ensures
        grows(old(out), final(out)),
        typed_opt(final(out), r, td),
        osym(final(out), r) == binary_tan(
            op,
            old(out).sym(pa as int),
            old(out).sym(pb as int),
            osym(old(out), ta),
            osym(old(out), tb),
        ),
{
    let ghost out0 = *out;
    match op {
        BinaryOp::Add => emit_add_tan(out, ta, tb, Ghost(td)),
        BinaryOp::Sub => emit_sub_tan(out, ta, tb, Ghost(td)),
        // d(a*b) = da*b + a*db
        BinaryOp::Mul => {
            let l = match ta {
                Some(t) => Some(out.emit_binary(BinaryOp::Mul, t, pb)),
                None => None,
            };
            let ghost out1 = *out;
            proof {
                assert(grows(&out0, &out1));
                lemma_grows(&out0, &out1, pa as int);
                lemma_opt_grows(&out0, &out1, tb, td);
            }
            let r = match tb {
                Some(t) => Some(out.emit_binary(BinaryOp::Mul, pa, t)),
                None => None,
            };
            let ghost out2 = *out;
            proof {
                assert(grows(&out1, &out2));
                lemma_opt_grows(&out1, &out2, l, td);
                lemma_grows_trans(&out0, &out1, &out2);
            }
            let s = emit_add_tan(out, l, r, Ghost(td));
            proof {
                lemma_grows_trans(&out0, &out2, out);
            }
            s
        },
        // d(a/b) = (da - (a/b)*db) / b
        BinaryOp::Div => {
            let num = match tb {
                None => {
                    proof {
                        assert(out0.values@.is_prefix_of(out.values@));
                    }
                    ta
                },
                Some(t) => {
                    let q = out.emit_binary(BinaryOp::Div, pa, pb);
                    let ghost out1 = *out;
                    proof {
                        lemma_grows(&out0, &out1, t as int);
                        lemma_opt_grows(&out0, &out1, ta, td);
                    }
                    let qd = out.emit_binary(BinaryOp::Mul, q, t);
                    let ghost out2 = *out;
                    proof {
                        lemma_grows_trans(&out0, &out1, &out2);
                        lemma_opt_grows(&out1, &out2, ta, td);
                    }
                    let d = emit_sub_tan(out, ta, Some(qd), Ghost(td));
                    proof {
                        lemma_grows_trans(&out0, &out2, out);
                    }
                    d
                },
            };
            let ghost out3 = *out;
            proof {
                lemma_grows(&out0, &out3, pb as int);
            }
            match num {
                None => None,
                Some(nv) => {
                    let d = out.emit_binary(BinaryOp::Div, nv, pb);
                    proof {
                        lemma_grows_trans(&out0, &out3, out);
                    }
                    Some(d)
                },
            }
        },
    }
}


/// The image of value `w` of `func` in `out`: a value computing the same,
/// of the same type, with its tangent.
spec fn entry_ok(func: &Function, out: &Function, w: int, e: (Value, Option<Value>)) -> bool {
    &&& typed(out, e.0, func.value_ty_data(w))
    &&& out.sym(e.0 as int) == func.sym(w)
    &&& typed_opt(out, e.1, func.value_ty_data(w))
    &&& osym(out, e.1) == tangent(func, w)
}

spec fn env_ok(func: &Function, out: &Function, env: Seq<Option<(Value, Option<Value>)>>) -> bool {
    &&& env.len() == func.values@.len()
    &&& forall|w: int| 0 <= w < env.len() && (#[trigger] env[w]) is Some ==> entry_ok(func, out, w, env[w]->0)
}

proof fn lemma_env_grows(func: &Function, old: &Function, new: &Function, env: Seq<Option<(Value, Option<Value>)>>)
    requires
        old.wf(),
        grows(old, new),
        env_ok(func, old, env),
    ensures
        env_ok(func, new, env),
{
    assert forall|w: int| 0 <= w < env.len() && (#[trigger] env[w]) is Some implies entry_ok(func, new, w, env[w]->0) by {
        let e = env[w]->0;
        lemma_grows(old, new, e.0 as int);
        lemma_opt_grows(old, new, e.1, func.value_ty_data(w));
    }
}

/// Transforms the instruction at layout position `p`: its tangent first,
/// then the instruction itself.
fn jvp_step(func: &Function, out: &mut Function, env: &mut Vec<Option<(Value, Option<Value>)>>, p: usize)
    requires
        straight_line(func),
        p < func.layout@.len(),
        old(out).wf(),
        env_ok(func, old(out), old(env)@),
        forall|w: int| 0 <= w < func.values@.len() && available(func, p as int, w) ==> (#[trigger] old(env)@[w]) is Some,
    ensures
        grows(old(out), final(out)),
        env_ok(func, final(out), final(env)@),
        forall|w: int|
            0 <= w < func.values@.len() && available(func, p + 1, w) ==> (#[trigger] final(env)@[w]) is Some,
{
    let inst = func.layout[p];
    let r = func.results[inst];
    let ghost out0 = *out;
    proof {
        assert(layout_ok(func, p as int));
        assert(inst < func.insts@.len());
        assert(r < func.values@.len());
        assert(func.values@[r as int] is Result);
    }
    let entry: (Value, Option<Value>) = match func.insts[inst] {
        InstructionData::Constant(c) => {
            let v = out.emit_constant(c);
            (v, None)
        },
        InstructionData::Unary(op, a) => {
            proof {
                assert(available(func, p as int, a as int));
                assert(entry_ok(func, out, a as int, env@[a as int]->0));
            }
            let (pa, ta) = env[a].unwrap();
            let ghost td = func.value_ty_data(a as int);
            let tan = match ta {
                None => None,
                Some(t) => Some(emit_unary_tan(out, op, pa, t, Ghost(td))),
            };
            let ghost out1 = *out;
            proof {
                lemma_grows(&out0, &out1, pa as int);
            }
            let v = out.emit_unary(op, pa);
            proof {
                lemma_grows_trans(&out0, &out1, out);
                lemma_opt_grows(&out1, out, tan, td);
            }
            (v, tan)
        },
        InstructionData::Binary(op, a, b) => {
            proof {
                assert(available(func, p as int, a as int));
                assert(available(func, p as int, b as int));
                assert(entry_ok(func, out, a as int, env@[a as int]->0));
                assert(entry_ok(func, out, b as int, env@[b as int]->0));
            }
            let (pa, ta) = env[a].unwrap();
            let (pb, tb) = env[b].unwrap();
            let ghost td = func.value_ty_data(a as int);
            let tan = emit_binary_tan(out, op, pa, pb, ta, tb, Ghost(td));
            let ghost out1 = *out;
            proof {
                lemma_grows(&out0, &out1, pa as int);
                lemma_grows(&out0, &out1, pb as int);
            }
            let v = out.emit_binary(op, pa, pb);
            proof {
                lemma_grows_trans(&out0, &out1, out);
                lemma_opt_grows(&out1, out, tan, td);
            }
            (v, tan)
        },
        _ => {
            proof {
                assert(false);
            }
            (0, None)
        },
    };
    proof {
        lemma_env_grows(func, &out0, out, env@);
        assert(entry_ok(func, out, r as int, entry));
    }
    let ghost env0 = env@;
    env.set(r, Some(entry));
    proof {
        assert forall|w: int| 0 <= w < env@.len() && (#[trigger] env@[w]) is Some implies entry_ok(
            func,
            out,
            w,
            env@[w]->0,
        ) by {
            if w != r {
                assert(env@[w] == env0[w]);
            }
        }
        assert forall|w: int| 0 <= w < func.values@.len() && available(func, p + 1, w) implies (
        #[trigger] env@[w]) is Some by {
            if w != r {
                assert(env@[w] == env0[w]);
                if !is_param(func, w) {
                    let q = choose|q: int| 0 <= q < p + 1 && #[trigger] func.results@[func.layout@[q] as int] == w;
                    assert(q != p);
                    assert(available(func, p as int, w));
                }
            }
        }
    }
}

/// Value `v` of `out` is the tangent of return `k` of `func`, with the
/// return's type: the tangent the chain rule gives, or the zero value where
/// there is none.
pub open spec fn tan_return(func: &Function, out: &Function, k: int, v: Value) -> bool {
    &&& v < out.values@.len()
    &&& out.value_ty_data(v as int) == func.value_ty_data(func.returns@[k] as int)
    &&& match tangent(func, func.returns@[k] as int) {
        Some(t) => out.sym(v as int) == t,
        None => is_zero_value(out, v as int),
    }
}

proof fn lemma_zero_value_grows(old: &Function, new: &Function, v: int)
    requires
        old.wf(),
        grows(old, new),
        0 <= v < old.values@.len(),
        is_zero_value(old, v),
    ensures
        is_zero_value(new, v),
{
    assert(new.values@[v] == old.values@[v]);
    let i = old.values@[v]->inst as int;
    assert(i < old.insts@.len());
    assert(new.insts@[i] == old.insts@[i]);
    match old.insts@[i] {
        InstructionData::Broadcast(z, _, _) => {
            assert(operands_below(old.insts@[i], v));
            assert(new.values@[z as int] == old.values@[z as int]);
            let iz = old.values@[z as int]->inst as int;
            assert(iz < old.insts@.len());
            assert(new.insts@[iz] == old.insts@[iz]);
        },
        _ => {},
    }
}

/// Returns a function computing the returns of `func` followed by their
/// tangents, from the parameters of `func` followed by their tangents.
#[verifier::loop_isolation(false)]
pub fn jvp(func: &Function) -> (out: Function)
    requires
        straight_line(func),
        2 * func.params@.len() <= 0x1_0000,
    ensures
        out.wf(),
        out.params@.len() == 2 * func.params@.len(),
        forall|k: int|
            0 <= k < func.params@.len() ==> #[trigger] out.value_ty_data(out.params@[k] as int)
                == func.value_ty_data(func.params@[k] as int) && out.value_ty_data(
                out.params@[func.params@.len() + k] as int,
            ) == func.value_ty_data(func.params@[k] as int),
        out.returns@.len() == 2 * func.returns@.len(),
        forall|k: int|
            0 <= k < func.returns@.len() ==> #[trigger] out.sym(out.returns@[k] as int) == func.sym(
                func.returns@[k] as int,
            ) && out.value_ty_data(out.returns@[k] as int) == func.value_ty_data(func.returns@[k] as int),
        // The tangent of a return that no parameter reaches is the
        // constant zero, broadcast to the return's type.
        forall|k: int|
            0 <= k < func.returns@.len() ==> tan_return(func, &out, k, #[trigger] out.returns@[func.returns@.len() + k]),
{
    let n = func.num_params();
    let mut param_tys: Vec<TyData> = Vec::new();
    let mut k: usize = 0;
    while k < 2 * n
        invariant
            func.wf(),
            n == func.params@.len(),
            2 * n <= 0x1_0000,
            k <= 2 * n,
            param_tys@.len() == k,
            forall|j: int| 0 <= j < k ==> #[trigger] param_tys@[j] == func.value_ty_data(func.params@[j % (n as int)] as int),
        decreases 2 * n - k,
    {
        let j = if k < n { k } else { k - n };
        proof {
            assert(j == (k as int) % (n as int)) by (nonlinear_arith)
                requires
                    j == if k < n { k as int } else { k - n },
                    k < 2 * n,
            ;
            assert(func.params@[j as int] < func.values@.len());
        }
        param_tys.push(func.ty_data(func.value_ty(func.params[j])));
        k += 1;
    }
    let mut out = Function::new(param_tys.as_slice());
    let mut env: Vec<Option<(Value, Option<Value>)>> = Vec::new();
    let mut w: usize = 0;
    while w < func.values.len()
        invariant
            w <= func.values@.len(),
            env@.len() == w,
            forall|i: int| 0 <= i < w ==> #[trigger] env@[i] is None,
        decreases func.values@.len() - w,
    {
        env.push(None);
        w += 1;
    }
    let mut k: usize = 0;
    while k < n
        invariant
            func.wf(),
            out.wf(),
            n == func.params@.len(),
            2 * n <= 0x1_0000,
            out.params@.len() == 2 * n,
            param_tys@.len() == 2 * n,
            forall|j: int| 0 <= j < 2 * n ==> #[trigger] out.value_ty_data(out.params@[j] as int) == param_tys@[j],
            forall|j: int| 0 <= j < 2 * n ==> #[trigger] param_tys@[j] == func.value_ty_data(func.params@[j % (n as int)] as int),
            k <= n,
            env_ok(func, &out, env@),
            forall|j: int| 0 <= j < k ==> (#[trigger] env@[func.params@[j] as int]) is Some,
        decreases n - k,
    {
        let pv = func.params[k];
        let ghost env0 = env@;
        proof {
            assert((k as int) % (n as int) == k) by (nonlinear_arith)
                requires
                    0 <= k < n,
            ;
            assert((n + k) % (n as int) == k) by (nonlinear_arith)
                requires
                    0 <= k < n,
            ;
            assert(out.value_ty_data(out.params@[k as int] as int) == param_tys@[k as int]);
            assert(out.value_ty_data(out.params@[n + k] as int) == param_tys@[n + k]);
            assert(pv < func.values@.len());
        }
        let e = (out.params[k], Some(out.params[n + k]));
        proof {
            assert(entry_ok(func, &out, pv as int, e));
        }
        env.set(pv, Some(e));
        proof {
            assert forall|w2: int| 0 <= w2 < env@.len() && (#[trigger] env@[w2]) is Some implies entry_ok(
                func,
                &out,
                w2,
                env@[w2]->0,
            ) by {
                if w2 != pv {
                    assert(env@[w2] == env0[w2]);
                }
            }
            assert forall|j: int| 0 <= j < k + 1 implies (#[trigger] env@[func.params@[j] as int]) is Some by {
                if func.params@[j] != pv {
                    assert(env@[func.params@[j] as int] == env0[func.params@[j] as int]);
                }
            }
        }
        k += 1;
    }
    let mut p: usize = 0;
    while p < func.layout.len()
        invariant
            straight_line(func),
            2 * n <= 0x1_0000,
            n == func.params@.len(),
            out.wf(),
            out.params@.len() == 2 * n,
            out.returns@.len() == 0,
            param_tys@.len() == 2 * n,
            forall|j: int| 0 <= j < 2 * n ==> #[trigger] out.value_ty_data(out.params@[j] as int) == param_tys@[j],
            p <= func.layout@.len(),
            env_ok(func, &out, env@),
            forall|w2: int| 0 <= w2 < func.values@.len() && available(func, p as int, w2) ==> (#[trigger] env@[w2]) is Some,
        decreases func.layout@.len() - p,
    {
        let ghost out0 = out;
        jvp_step(func, &mut out, &mut env, p);
        proof {
            assert forall|j: int| 0 <= j < 2 * n implies #[trigger] out.value_ty_data(out.params@[j] as int) == param_tys@[j] by {
                assert(out0.params@[j] < out0.values@.len());
                lemma_grows(&out0, &out, out0.params@[j] as int);
            }
        }
        p += 1;
    }
    let nr = func.returns.len();
    let mut rets: Vec<Value> = Vec::new();
    let mut k: usize = 0;
    while k < nr
        invariant
            straight_line(func),
            nr == func.returns@.len(),
            out.wf(),
            env_ok(func, &out, env@),
            forall|w2: int|
                0 <= w2 < func.values@.len() && available(func, func.layout@.len() as int, w2) ==> (#[trigger] env@[w2]) is Some,
            k <= nr,
            rets@.len() == k,
            forall|j: int|
                0 <= j < k ==> #[trigger] rets@[j] < out.values@.len() && out.sym(rets@[j] as int) == func.sym(
                    func.returns@[j] as int,
                ) && out.value_ty_data(rets@[j] as int) == func.value_ty_data(func.returns@[j] as int),
        decreases nr - k,
    {
        let r = func.returns[k];
        proof {
            assert(available(func, func.layout@.len() as int, r as int));
            assert(r < func.values@.len());
            assert(entry_ok(func, &out, r as int, env@[r as int]->0));
        }
        let (pv, _) = env[r].unwrap();
        rets.push(pv);
        k += 1;
    }
    // A return without a tangent gets a zero of its type.
    let mut k: usize = 0;
    while k < nr
        invariant
            straight_line(func),
            nr == func.returns@.len(),
            out.wf(),
            out.params@.len() == 2 * n,
            out.returns@.len() == 0,
            forall|j: int| 0 <= j < 2 * n ==> #[trigger] out.value_ty_data(out.params@[j] as int) == param_tys@[j],
            env_ok(func, &out, env@),
            forall|w2: int|
                0 <= w2 < func.values@.len() && available(func, func.layout@.len() as int, w2) ==> (#[trigger] env@[w2]) is Some,
            k <= nr,
            rets@.len() == nr + k,
            forall|j: int|
                0 <= j < nr ==> #[trigger] rets@[j] < out.values@.len() && out.sym(rets@[j] as int) == func.sym(
                    func.returns@[j] as int,
                ) && out.value_ty_data(rets@[j] as int) == func.value_ty_data(func.returns@[j] as int),
            forall|j: int| 0 <= j < k ==> #[trigger] tan_return(func, &out, j, rets@[nr + j]),
        decreases nr - k,
    {
        let r = func.returns[k];
        proof {
            assert(available(func, func.layout@.len() as int, r as int));
            assert(r < func.values@.len());
            assert(entry_ok(func, &out, r as int, env@[r as int]->0));
        }
        let (pv, tv) = env[r].unwrap();
        let ghost out0 = out;
        let t = match tv {
            Some(t) => t,
            None => {
                let z = out.emit_constant(Bits64(0));
                let ghost out1 = out;
                proof {
                    lemma_grows(&out0, &out1, pv as int);
                    assert(out1.values@[z as int] is Result);
                }
                let ty = out.value_ty(pv);
                let b = out.broadcast_to(z, ty);
                proof {
                    lemma_grows_trans(&out0, &out1, &out);
                    lemma_grows(&out1, &out, z as int);
                    lemma_grows(&out0, &out, pv as int);
                    assert(out1.insts@[out1.values@[z as int]->inst as int] == InstructionData::Constant(Bits64(0)));
                    assert(out.values@[z as int] == out1.values@[z as int]);
                    assert(out.insts@[out1.values@[z as int]->inst as int] == out1.insts@[out1.values@[z as int]->inst as int]);
                }
                b
            },
        };
        let ghost r0 = rets@;
        rets.push(t);
        proof {
            if tv is None {
                lemma_env_grows(func, &out0, &out, env@);
            }
            assert(tan_return(func, &out, k as int, t));
            assert forall|j: int| 0 <= j < 2 * n implies #[trigger] out.value_ty_data(out.params@[j] as int) == param_tys@[j] by {
                if tv is None {
                    lemma_grows(&out0, &out, out0.params@[j] as int);
                }
            }
            assert forall|j: int| 0 <= j < nr implies #[trigger] rets@[j] < out.values@.len() && out.sym(rets@[j] as int) == func.sym(
                func.returns@[j] as int,
            ) && out.value_ty_data(rets@[j] as int) == func.value_ty_data(func.returns@[j] as int) by {
                assert(rets@[j] == r0[j]);
                if tv is None {
                    lemma_grows(&out0, &out, r0[j] as int);
                }
            }
            assert forall|j: int| 0 <= j < k + 1 implies #[trigger] tan_return(func, &out, j, rets@[nr + j]) by {
                if j < k {
                    assert(rets@[nr + j] == r0[nr + j]);
                    assert(tan_return(func, &out0, j, r0[nr + j]));
                    if tv is None {
                        let v = r0[nr + j];
                        lemma_grows(&out0, &out, v as int);
                        if tangent(func, func.returns@[j] as int) is None {
                            lemma_zero_value_grows(&out0, &out, v as int);
                        }
                    }
                }
            }
        }
        k += 1;
    }
    let ghost ob = out;
    let ghost rs = rets@;
    out.returns = rets;
    proof {
        assert(out.values@ == ob.values@);
        assert(out.insts@ == ob.insts@);
        assert(out.params@ == ob.params@);
        assert(out.spec_types() == ob.spec_types());
        assert(out.returns@ == rs);
        assert forall|j: int| 0 <= j < out.returns@.len() implies #[trigger] out.returns@[j] < out.values@.len() by {
            if j < nr {
                assert(rs[j] < ob.values@.len());
            } else {
                assert(tan_return(func, &ob, j - nr, rs[nr + (j - nr)]));
                assert(rs[nr + (j - nr)] < ob.values@.len());
            }
        }
        assert forall|k2: int| 0 <= k2 < func.params@.len() implies #[trigger] out.value_ty_data(out.params@[k2] as int)
            == func.value_ty_data(func.params@[k2] as int) && out.value_ty_data(
            out.params@[func.params@.len() + k2] as int,
        ) == func.value_ty_data(func.params@[k2] as int) by {
            assert(k2 % (n as int) == k2) by (nonlinear_arith)
                requires
                    0 <= k2 < n,
            ;
            assert((n + k2) % (n as int) == k2) by (nonlinear_arith)
                requires
                    0 <= k2 < n,
            ;
            assert(ob.value_ty_data(ob.params@[n + k2] as int) == param_tys@[n + k2]);
            assert(ob.value_ty_data(ob.params@[k2] as int) == param_tys@[k2]);
        }
        assert forall|k2: int| 0 <= k2 < nr implies #[trigger] out.sym(out.returns@[k2] as int) == func.sym(
            func.returns@[k2] as int,
        ) && out.value_ty_data(out.returns@[k2] as int) == func.value_ty_data(func.returns@[k2] as int) by {
            assert(rs[k2] < ob.values@.len());
            assert(ob.sym(rs[k2] as int) == func.sym(func.returns@[k2] as int));
        }
        assert forall|k2: int| 0 <= k2 < nr implies #[trigger] tan_return(func, &out, k2, out.returns@[nr + k2]) by {
            assert(tan_return(func, &ob, k2, rs[nr + k2]));
            assert(out.returns@[nr + k2] == rs[nr + k2]);
        }
    }
    out
}

} // verus!
