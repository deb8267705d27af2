//! Forward mode on straight-line scalar code: each instruction of the
//! layout gives its primal and then its tangent, and a return whose tangent
//! is structurally zero shares one zero constant.
use vstd::prelude::*;

use crate::bits::Bits64;
use crate::function::{add_tan, bin, binary_tan, unary_tan, zero_sym, Sym};
use crate::ir::function::{grows, lemma_grows, value_sym, Function, InstructionData, Value, ValueData};
use crate::ir::jvp::{
    available, emit_add_tan, emit_sub_tan, emit_unary_tan, is_param, lemma_grows_trans, lemma_opt_grows, osym,
    typed, typed_opt,
};
use crate::ir::ty::TyData;
use crate::op::BinaryOp;

verus! {

/// Tangent of `x op y` whose operands have tangents `da` and `db`; a
/// product's tangent is `y * da + x * db`.
pub open spec fn scalar_binary_tan(op: BinaryOp, x: Sym, y: Sym, da: Option<Sym>, db: Option<Sym>) -> Option<Sym> {
    match op {
        BinaryOp::Mul => add_tan(
            match da {
                Some(d) => Some(bin(BinaryOp::Mul, y, d)),
                None => None,
            },
            match db {
                Some(d) => Some(bin(BinaryOp::Mul, x, d)),
                None => None,
            },
        ),
        _ => binary_tan(op, x, y, da, db),
    }
}

/// The tangent of value `v` by the chain rule, when parameter `num` has
/// tangent `Param(n + num)`; `None` is a structural zero.
pub open spec fn scalar_tan(values: Seq<ValueData>, insts: Seq<InstructionData>, n: nat, v: int) -> Option<Sym>
    decreases v,
{
    if v < 0 || v >= values.len() {
        None
    } else {
        match values[v] {
            ValueData::Param { num, .. } => Some(Sym::Param((n + num) as u32)),
            ValueData::Result { inst, .. } => if 0 <= inst < insts.len() {
                match insts[inst as int] {
                    InstructionData::Unary(op, a) => if a < v {
                        match scalar_tan(values, insts, n, a as int) {
                            Some(da) => Some(unary_tan(op, value_sym(values, insts, a as int), da)),
                            None => None,
                        }
                    } else {
                        None
                    },
                    InstructionData::Binary(op, a, b) => if a < v && b < v {
                        scalar_binary_tan(
                            op,
                            value_sym(values, insts, a as int),
                            value_sym(values, insts, b as int),
                            scalar_tan(values, insts, n, a as int),
                            scalar_tan(values, insts, n, b as int),
                        )
                    } else {
                        None
                    },
                    _ => None,
                }
            } else {
                None
            },
        }
    }
}

/// The tangent of value `v` of `f`.
pub open spec fn tan_of(f: &Function, v: int) -> Option<Sym> {
    scalar_tan(f.values@, f.insts@, f.params@.len(), v)
}

/// The tangent of value `v` of `f`, zero where it is structurally zero.
pub open spec fn tan_or_zero_of(f: &Function, v: int) -> Sym {
    match tan_of(f, v) {
        Some(t) => t,
        None => zero_sym(),
    }
}

/// Layout position `p` holds a constant, unary or binary instruction
/// whose operands are available there.
pub open spec fn step_ok(f: &Function, p: int) -> bool {
    match f.insts@[f.layout@[p] as int] {
        InstructionData::Constant(_) => true,
        InstructionData::Unary(_, a) => available(f, p, a as int),
        InstructionData::Binary(_, a, b) => available(f, p, a as int) && available(f, p, b as int),
        _ => false,
    }
}

/// The layout is straight-line scalar code over the parameters, and the
/// returns are defined by its end.
pub open spec fn scalar_code(f: &Function) -> bool {
    &&& f.wf()
    &&& forall|p: int| 0 <= p < f.layout@.len() ==> #[trigger] step_ok(f, p)
    &&& forall|k: int| 0 <= k < f.returns@.len() ==> available(f, f.layout@.len() as int, #[trigger] f.returns@[k] as int)
}

/// The image of value `w` of `func` in `out`: a scalar computing the same,
/// with its tangent.
spec fn entry_ok(func: &Function, out: &Function, w: int, e: (Value, Option<Value>)) -> bool {
    &&& typed(out, e.0, TyData::spec_scalar())
    &&& out.sym(e.0 as int) == func.sym(w)
    &&& typed_opt(out, e.1, TyData::spec_scalar())
    &&& osym(out, e.1) == tan_of(func, w)
}

spec fn env_ok(func: &Function, out: &Function, env: Seq<Option<(Value, Option<Value>)>>) -> bool {
    &&& env.len() == func.values@.len()
    &&& forall|w: int| 0 <= w < env.len() && (#[trigger] env[w]) is Some ==> entry_ok(func, out, w, env[w]->0)
}

proof fn lemma_env_grows(func: &Function, old: &Function, new: &Function, env: Seq<Option<(Value, Option<Value>)>>)
    requires
        old.wf(),
        grows(old, new),
        env_ok(func, old, env),
    ensures
        env_ok(func, new, env),
{
    assert forall|w: int| 0 <= w < env.len() && (#[trigger] env[w]) is Some implies entry_ok(func, new, w, env[w]->0) by {
        let e = env[w]->0;
        lemma_grows(old, new, e.0 as int);
        lemma_opt_grows(old, new, e.1, TyData::spec_scalar());
    }
}

/// Emits the tangent of `x op y`, where `pa`, `pb` and `p` compute `x`,
/// `y` and `x op y`, and `ta` and `tb` are the tangents of `x` and `y`.
fn emit_binary_tan(
    out: &mut Function,
    op: BinaryOp,
    pa: Value,
    pb: Value,
    p: Value,
    ta: Option<Value>,
    tb: Option<Value>,
) -> (r: Option<Value>)
    requires
        old(out).wf(),
        typed(old(out), pa, TyData::spec_scalar()),
        typed(old(out), pb, TyData::spec_scalar()),
        typed(old(out), p, TyData::spec_scalar()),
        old(out).sym(p as int) == bin(op, old(out).sym(pa as int), old(out).sym(pb as int)),
        typed_opt(old(out), ta, TyData::spec_scalar()),
        typed_opt(old(out), tb, TyData::spec_scalar()),
    ensures
        grows(old(out), final(out)),
        typed_opt(final(out), r, TyData::spec_scalar()),
        osym(final(out), r) == scalar_binary_tan(
            op,
            old(out).sym(pa as int),
            old(out).sym(pb as int),
            osym(old(out), ta),
            osym(old(out), tb),
        ),
{
    let ghost td = TyData::spec_scalar();
    let ghost out0 = *out;
    match op {
        BinaryOp::Add => emit_add_tan(out, ta, tb, Ghost(td)),
        BinaryOp::Sub => emit_sub_tan(out, ta, tb, Ghost(td)),
        // d(a * b) = b * da + a * db
        BinaryOp::Mul => {
            let l = match ta {
                Some(t) => Some(out.emit_binary(BinaryOp::Mul, pb, t)),
                None => None,
            };
            let ghost out1 = *out;
            proof {
                assert(grows(&out0, &out1));
                lemma_grows(&out0, &out1, pa as int);
                lemma_opt_grows(&out0, &out1, tb, td);
            }
            let r = match tb {
                Some(t) => Some(out.emit_binary(BinaryOp::Mul, pa, t)),
                None => None,
            };
            let ghost out2 = *out;
            proof {
                assert(grows(&out1, &out2));
                lemma_opt_grows(&out1, &out2, l, td);
                lemma_grows_trans(&out0, &out1, &out2);
            }
            let s = emit_add_tan(out, l, r, Ghost(td));
            proof {
                lemma_grows_trans(&out0, &out2, out);
            }
            s
        },
        // d(a / b) = (da - (a / b) * db) / b, reusing the primal quotient.
        BinaryOp::Div => {
            let num = match tb {
                None => {
                    proof {
                        assert(out0.values@.is_prefix_of(out.values@));
                    }
                    ta
                },
                Some(t) => {
                    let u = out.emit_binary(BinaryOp::Mul, p, t);
                    let ghost out1 = *out;
                    proof {
                        lemma_opt_grows(&out0, &out1, ta, td);
                    }
                    let d = emit_sub_tan(out, ta, Some(u), Ghost(td));
                    proof {
                        lemma_grows_trans(&out0, &out1, out);
                    }
                    d
                },
            };
            let ghost out3 = *out;
            proof {
                lemma_grows(&out0, &out3, pb as int);
            }
            match num {
                None => None,
                Some(nv) => {
                    let d = out.emit_binary(BinaryOp::Div, nv, pb);
                    proof {
                        lemma_grows_trans(&out0, &out3, out);
                    }
                    Some(d)
                },
            }
        },
    }
}

/// Transforms the instruction at layout position `p`: its primal, then its
/// tangent.
fn jvp_step(func: &Function, out: &mut Function, env: &mut Vec<Option<(Value, Option<Value>)>>, p: usize)
    requires
        scalar_code(func),
        p < func.layout@.len(),
        old(out).wf(),
        env_ok(func, old(out), old(env)@),
        forall|w: int| 0 <= w < func.values@.len() && available(func, p as int, w) ==> (#[trigger] old(env)@[w]) is Some,
    ensures
        grows(old(out), final(out)),
        env_ok(func, final(out), final(env)@),
        forall|w: int|
            0 <= w < func.values@.len() && available(func, p + 1, w) ==> (#[trigger] final(env)@[w]) is Some,
{
    let ghost td = TyData::spec_scalar();
    let inst = func.layout[p];
    let r = func.results[inst];
    let ghost out0 = *out;
    proof {
        assert(step_ok(func, p as int));
        assert(inst < func.insts@.len());
        assert(r < func.values@.len());
        assert(func.values@[r as int] is Result);
    }
    let entry: (Value, Option<Value>) = match func.insts[inst] {
        InstructionData::Constant(c) => {
            let v = out.emit_constant(c);
            (v, None)
        },
        InstructionData::Unary(op, a) => {
            proof {
                assert(available(func, p as int, a as int));
                assert(entry_ok(func, out, a as int, env@[a as int]->0));
            }
            let (pa, ta) = env[a].unwrap();
            let v = out.emit_unary(op, pa);
            let ghost out1 = *out;
            proof {
                lemma_grows(&out0, &out1, pa as int);
                lemma_opt_grows(&out0, &out1, ta, td);
            }
            let tan = match ta {
                None => None,
                Some(t) => Some(emit_unary_tan(out, op, pa, t, Ghost(td))),
            };
            proof {
                if tan is None {
                    assert(out1.values@.is_prefix_of(out.values@));
                }
                lemma_grows_trans(&out0, &out1, out);
                lemma_grows(&out1, out, v as int);
            }
            (v, tan)
        },
        InstructionData::Binary(op, a, b) => {
            proof {
                assert(available(func, p as int, a as int));
                assert(available(func, p as int, b as int));
                assert(entry_ok(func, out, a as int, env@[a as int]->0));
                assert(entry_ok(func, out, b as int, env@[b as int]->0));
            }
            let (pa, ta) = env[a].unwrap();
            let (pb, tb) = env[b].unwrap();
            let v = out.emit_binary(op, pa, pb);
            let ghost out1 = *out;
            proof {
                lemma_grows(&out0, &out1, pa as int);
                lemma_grows(&out0, &out1, pb as int);
                lemma_opt_grows(&out0, &out1, ta, td);
                lemma_opt_grows(&out0, &out1, tb, td);
            }
            let tan = emit_binary_tan(out, op, pa, pb, v, ta, tb);
            proof {
                lemma_grows_trans(&out0, &out1, out);
                lemma_grows(&out1, out, v as int);
            }
            (v, tan)
        },
        _ => {
            proof {
                assert(false);
            }
            (0, None)
        },
    };
    proof {
        lemma_env_grows(func, &out0, out, env@);
        assert(entry_ok(func, out, r as int, entry));
    }
    let ghost env0 = env@;
    env.set(r, Some(entry));
    proof {
        assert forall|w: int| 0 <= w < env@.len() && (#[trigger] env@[w]) is Some implies entry_ok(
            func,
            out,
            w,
            env@[w]->0,
        ) by {
            if w != r {
                assert(env@[w] == env0[w]);
            }
        }
        assert forall|w: int| 0 <= w < func.values@.len() && available(func, p + 1, w) implies (
        #[trigger] env@[w]) is Some by {
            if w != r {
                assert(env@[w] == env0[w]);
                if !is_param(func, w) {
                    let q = choose|q: int| 0 <= q < p + 1 && #[trigger] func.results@[func.layout@[q] as int] == w;
                    assert(q != p);
                    assert(available(func, p as int, w));
                }
            }
        }
    }
}

/// Returns a function computing the returns of `func` followed by their
/// tangents, from the parameters of `func` followed by their tangents. A
/// tangent that is structurally zero is one shared zero constant, and
/// every value of the result is a scalar.
#[verifier::loop_isolation(false)]
pub fn jvp(func: &Function) -> (out: Function)
    requires
        scalar_code(func),
        2 * func.params@.len() <= 0x1_0000,
    ensures
        out.wf(),
        out.params@.len() == 2 * func.params@.len(),
        forall|k: int|
            0 <= k < out.params@.len() ==> #[trigger] out.value_ty_data(out.params@[k] as int) == TyData::spec_scalar(),
        out.returns@.len() == 2 * func.returns@.len(),
        forall|k: int|
            0 <= k < func.returns@.len() ==> #[trigger] out.sym(out.returns@[k] as int) == func.sym(
                func.returns@[k] as int,
            ),
        forall|k: int|
            0 <= k < func.returns@.len() ==> #[trigger] out.sym(out.returns@[func.returns@.len() + k] as int)
                == tan_or_zero_of(func, func.returns@[k] as int),
{
    let n = func.num_params();
    let mut param_tys: Vec<TyData> = Vec::new();
    let mut k: usize = 0;
    while k < 2 * n
        invariant
            2 * n <= 0x1_0000,
            k <= 2 * n,
            param_tys@.len() == k,
            forall|j: int| 0 <= j < k ==> #[trigger] param_tys@[j] == TyData::spec_scalar(),
        decreases 2 * n - k,
    {
        param_tys.push(TyData::scalar());
        k += 1;
    }
    let mut out = Function::new(param_tys.as_slice());
    let mut env: Vec<Option<(Value, Option<Value>)>> = Vec::new();
    let mut w: usize = 0;
    while w < func.values.len()
        invariant
            w <= func.values@.len(),
            env@.len() == w,
            forall|i: int| 0 <= i < w ==> #[trigger] env@[i] is None,
        decreases func.values@.len() - w,
    {
        env.push(None);
        w += 1;
    }
    // Parameter `k` is primal `k` and tangent `n + k`.
    let mut k: usize = 0;
    while k < n
        invariant
            k <= n,
            out.wf(),
            out.params@.len() == 2 * n,
            forall|j: int| 0 <= j < 2 * n ==> #[trigger] out.value_ty_data(out.params@[j] as int) == TyData::spec_scalar(),
            env_ok(func, &out, env@),
            forall|j: int| 0 <= j < k ==> (#[trigger] env@[func.params@[j] as int]) is Some,
        decreases n - k,
    {
        let pv = func.params[k];
        let ghost env0 = env@;
        let e = (out.params[k], Some(out.params[n + k]));
        proof {
            assert(pv < func.values@.len());
            assert(out.value_ty_data(out.params@[k as int] as int) == TyData::spec_scalar());
            assert(out.value_ty_data(out.params@[n + k] as int) == TyData::spec_scalar());
            assert(entry_ok(func, &out, pv as int, e));
        }
        env.set(pv, Some(e));
        proof {
            assert forall|w2: int| 0 <= w2 < env@.len() && (#[trigger] env@[w2]) is Some implies entry_ok(
                func,
                &out,
                w2,
                env@[w2]->0,
            ) by {
                if w2 != pv {
                    assert(env@[w2] == env0[w2]);
                }
            }
            assert forall|j: int| 0 <= j < k + 1 implies (#[trigger] env@[func.params@[j] as int]) is Some by {
                if func.params@[j] != pv {
                    assert(env@[func.params@[j] as int] == env0[func.params@[j] as int]);
                }
            }
        }
        k += 1;
    }
    let mut p: usize = 0;
    while p < func.layout.len()
        invariant
            p <= func.layout@.len(),
            out.wf(),
            out.params@.len() == 2 * n,
            out.returns@.len() == 0,
            forall|j: int| 0 <= j < 2 * n ==> #[trigger] out.value_ty_data(out.params@[j] as int) == TyData::spec_scalar(),
            env_ok(func, &out, env@),
            forall|w2: int| 0 <= w2 < func.values@.len() && available(func, p as int, w2) ==> (#[trigger] env@[w2]) is Some,
        decreases func.layout@.len() - p,
    {
        let ghost out0 = out;
        jvp_step(func, &mut out, &mut env, p);
        proof {
            assert forall|j: int| 0 <= j < 2 * n implies #[trigger] out.value_ty_data(out.params@[j] as int)
                == TyData::spec_scalar() by {
                assert(out0.params@[j] < out0.values@.len());
                lemma_grows(&out0, &out, out0.params@[j] as int);
            }
        }
        p += 1;
    }
    // Primal returns first, then tangent returns.
    let nr = func.returns.len();
    let mut rets: Vec<Value> = Vec::new();
    let mut k: usize = 0;
    while k < nr
        invariant
            nr == func.returns@.len(),
            out.wf(),
            env_ok(func, &out, env@),
            forall|w2: int|
                0 <= w2 < func.values@.len() && available(func, func.layout@.len() as int, w2) ==> (#[trigger] env@[w2]) is Some,
            k <= nr,
            rets@.len() == k,
            forall|j: int|
                0 <= j < k ==> #[trigger] rets@[j] < out.values@.len() && out.sym(rets@[j] as int) == func.sym(
                    func.returns@[j] as int,
                ),
        decreases nr - k,
    {
        let r = func.returns[k];
        proof {
            assert(available(func, func.layout@.len() as int, r as int));
            assert(r < func.values@.len());
            assert(entry_ok(func, &out, r as int, env@[r as int]->0));
        }
        let (pv, _) = env[r].unwrap();
        rets.push(pv);
        k += 1;
    }
    let mut zero: Option<Value> = None;
    let mut k: usize = 0;
    while k < nr
        invariant
            nr == func.returns@.len(),
            out.wf(),
            out.params@.len() == 2 * n,
            out.returns@.len() == 0,
            forall|j: int| 0 <= j < 2 * n ==> #[trigger] out.value_ty_data(out.params@[j] as int) == TyData::spec_scalar(),
            env_ok(func, &out, env@),
            forall|w2: int|
                0 <= w2 < func.values@.len() && available(func, func.layout@.len() as int, w2) ==> (#[trigger] env@[w2]) is Some,
            k <= nr,
            rets@.len() == nr + k,
            zero matches Some(z) ==> z < out.values@.len() && out.sym(z as int) == zero_sym(),
            forall|j: int|
                0 <= j < nr ==> #[trigger] rets@[j] < out.values@.len() && out.sym(rets@[j] as int) == func.sym(
                    func.returns@[j] as int,
                ),
            forall|j: int|
                0 <= j < k ==> #[trigger] rets@[nr + j] < out.values@.len() && out.sym(rets@[nr + j] as int)
                    == tan_or_zero_of(func, func.returns@[j] as int),
        decreases nr - k,
    {
        let r = func.returns[k];
        proof {
            assert(available(func, func.layout@.len() as int, r as int));
            assert(r < func.values@.len());
            assert(entry_ok(func, &out, r as int, env@[r as int]->0));
        }
        let (_, t) = env[r].unwrap();
        let ghost out0 = out;
        let tv = match t {
            Some(t) => t,
            None => match zero {
                Some(z) => z,
                None => {
                    let z = out.emit_constant(Bits64(0));
                    zero = Some(z);
                    z
                },
            },
        };
        proof {
            if out.values@.len() != out0.values@.len() {
                lemma_env_grows(func, &out0, &out, env@);
                assert forall|j: int| 0 <= j < 2 * n implies #[trigger] out.value_ty_data(out.params@[j] as int)
                    == TyData::spec_scalar() by {
                    assert(out0.params@[j] < out0.values@.len());
                    lemma_grows(&out0, &out, out0.params@[j] as int);
                }
                assert forall|j: int| 0 <= j < rets@.len() implies #[trigger] out.sym(rets@[j] as int) == out0.sym(
                    rets@[j] as int,
                ) by {
                    if j < nr {
                        assert(rets@[j] < out0.values@.len());
                    } else {
                        assert(rets@[nr + (j - nr)] < out0.values@.len());
                    }
                    lemma_grows(&out0, &out, rets@[j] as int);
                }
            }
            assert(entry_ok(func, &out, r as int, env@[r as int]->0));
        }
        let ghost r0 = rets@;
        rets.push(tv);
        proof {
            assert forall|j: int| 0 <= j < nr implies #[trigger] rets@[j] < out.values@.len() && out.sym(rets@[j] as int)
                == func.sym(func.returns@[j] as int) by {
                assert(rets@[j] == r0[j]);
                if out.values@.len() != out0.values@.len() {
                    assert(out.sym(r0[j] as int) == out0.sym(r0[j] as int));
                }
            }
            assert forall|j: int| 0 <= j < k + 1 implies #[trigger] rets@[nr + j] < out.values@.len() && out.sym(
                rets@[nr + j] as int,
            ) == tan_or_zero_of(func, func.returns@[j] as int) by {
                if j < k {
                    assert(rets@[nr + j] == r0[nr + j]);
                    if out.values@.len() != out0.values@.len() {
                        assert(out.sym(r0[nr + j] as int) == out0.sym(r0[nr + j] as int));
                    }
                }
            }
        }
        k += 1;
    }
    let ghost ob = out;
    let ghost rs = rets@;
    out.returns = rets;
    proof {
        assert(out.values@ == ob.values@);
        assert(out.insts@ == ob.insts@);
        assert(out.params@ == ob.params@);
        assert(out.spec_types() == ob.spec_types());
        assert forall|j: int| 0 <= j < out.params@.len() implies #[trigger] out.value_ty_data(out.params@[j] as int)
            == TyData::spec_scalar() by {
            assert(ob.value_ty_data(ob.params@[j] as int) == TyData::spec_scalar());
        }
        assert forall|j: int| 0 <= j < out.returns@.len() implies #[trigger] out.returns@[j] < out.values@.len() by {
            if j < nr {
                assert(rs[j] < ob.values@.len());
            } else {
                assert(rs[nr + (j - nr)] < ob.values@.len());
            }
        }
        assert forall|k2: int| 0 <= k2 < nr implies #[trigger] out.sym(out.returns@[k2] as int) == func.sym(
            func.returns@[k2] as int,
        ) by {
            assert(rs[k2] < ob.values@.len());
        }
        assert forall|k2: int| 0 <= k2 < nr implies #[trigger] out.sym(out.returns@[nr + k2] as int)
            == tan_or_zero_of(func, func.returns@[k2] as int) by {
            assert(rs[nr + k2] < ob.values@.len());
        }
    }
    out
}

} // verus!
