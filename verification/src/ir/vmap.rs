//! Vectorizing map of IR functions over a leading batch dimension.
use vstd::prelude::*;

use crate::ir::function::{grows, lemma_grows, Function, InstructionData, Value, ValueData};
use crate::ir::jvp::{available, is_param, layout_ok, straight_line};
use crate::ir::ty::TyData;

verus! {

/// Value `v` carries the batch dimension: it is a batched parameter, or an
/// elementwise operation on a batched value.
pub open spec fn batched(values: Seq<ValueData>, insts: Seq<InstructionData>, in_batched: Seq<bool>, v: int) -> bool
    decreases v,
{
    if v < 0 || v >= values.len() {
        false
    } else {
        match values[v] {
            ValueData::Param { num, .. } => num < in_batched.len() && in_batched[num as int],
            ValueData::Result { inst, .. } => if 0 <= inst < insts.len() {
                match insts[inst as int] {
                    InstructionData::Unary(_, a) => a < v && batched(values, insts, in_batched, a as int),
                    InstructionData::Binary(_, a, b) => a < v && b < v && (batched(values, insts, in_batched, a as int)
                        || batched(values, insts, in_batched, b as int)),
                    _ => false,
                }
            } else {
                false
            },
        }
    }
}

pub open spec fn is_batched(f: &Function, in_batched: Seq<bool>, v: int) -> bool {
    batched(f.values@, f.insts@, in_batched, v)
}

/// `func` can be mapped over a batch of its batched parameters: its layout
/// is straight-line elementwise code, no binary operation mixes a batched
/// and an unbatched operand, every return is batched, and every batched
/// parameter has room for one more dimension.
pub open spec fn vmap_ok(func: &Function, in_batched: Seq<bool>) -> bool {
    &&& straight_line(func)
    &&& in_batched.len() == func.params@.len()
    &&& forall|p: int|
        0 <= p < func.layout@.len() ==> match #[trigger] func.insts@[func.layout@[p] as int] {
            InstructionData::Binary(_, a, b) => is_batched(func, in_batched, a as int) == is_batched(
                func,
                in_batched,
                b as int,
            ),
            _ => true,
        }
    &&& forall|k: int| 0 <= k < func.returns@.len() ==> is_batched(func, in_batched, #[trigger] func.returns@[k] as int)
    &&& forall|k: int|
        0 <= k < func.params@.len() && in_batched[k] ==> (#[trigger] func.value_ty_data(
            func.params@[k] as int,
        )).spec_dims().len() < 8
}

/// The type of the image of a value of type `td`.
pub open spec fn batched_ty(td: TyData, is_b: bool, b: u32) -> TyData {
    if is_b {
        td.spec_prepend(b)
    } else {
        td
    }
}

spec fn entry_ok(func: &Function, out: &Function, ib: Seq<bool>, b: u32, w: int, e: (Value, bool)) -> bool {
    &&& e.0 < out.values@.len()
    &&& out.sym(e.0 as int) == func.sym(w)
    &&& e.1 == is_batched(func, ib, w)
    &&& out.value_ty_data(e.0 as int) == batched_ty(func.value_ty_data(w), e.1, b)
}

spec fn env_ok(func: &Function, out: &Function, ib: Seq<bool>, b: u32, env: Seq<Option<(Value, bool)>>) -> bool {
    &&& env.len() == func.values@.len()
    &&& forall|w: int| 0 <= w < env.len() && (#[trigger] env[w]) is Some ==> entry_ok(func, out, ib, b, w, env[w]->0)
}

proof fn lemma_env_grows(
    func: &Function,
    old: &Function,
    new: &Function,
    ib: Seq<bool>,
    b: u32,
    env: Seq<Option<(Value, bool)>>,
)
    requires
        old.wf(),
        grows(old, new),
        env_ok(func, old, ib, b, env),
    ensures
        env_ok(func, new, ib, b, env),
{
    assert forall|w: int| 0 <= w < env.len() && (#[trigger] env[w]) is Some implies entry_ok(
        func,
        new,
        ib,
        b,
        w,
        env[w]->0,
    ) by {
        lemma_grows(old, new, (env[w]->0).0 as int);
    }
}

/// Transforms the instruction at layout position `p`.
fn vmap_step(
    func: &Function,
    out: &mut Function,
    env: &mut Vec<Option<(Value, bool)>>,
    p: usize,
    Ghost(ib): Ghost<Seq<bool>>,
    b: u32,
)
    requires
        vmap_ok(func, ib),
        p < func.layout@.len(),
        old(out).wf(),
        env_ok(func, old(out), ib, b, old(env)@),
        forall|w: int| 0 <= w < func.values@.len() && available(func, p as int, w) ==> (#[trigger] old(env)@[w]) is Some,
    ensures
        grows(old(out), final(out)),
        env_ok(func, final(out), ib, b, final(env)@),
        forall|w: int|
            0 <= w < func.values@.len() && available(func, p + 1, w) ==> (#[trigger] final(env)@[w]) is Some,
{
    let inst = func.layout[p];
    let r = func.results[inst];
    let ghost out0 = *out;
    proof {
        assert(layout_ok(func, p as int));
        assert(inst < func.insts@.len());
        assert(r < func.values@.len());
        assert(func.values@[r as int] is Result);
    }
    let entry: (Value, bool) = match func.insts[inst] {
        InstructionData::Constant(c) => {
            let v = out.emit_constant(c);
            (v, false)
        },
        InstructionData::Unary(op, a) => {
            proof {
                assert(available(func, p as int, a as int));
                assert(entry_ok(func, out, ib, b, a as int, env@[a as int]->0));
            }
            let (na, ba) = env[a].unwrap();
            let v = out.emit_unary(op, na);
            (v, ba)
        },
        InstructionData::Binary(op, a, c) => {
            proof {
                assert(available(func, p as int, a as int));
                assert(available(func, p as int, c as int));
                assert(entry_ok(func, out, ib, b, a as int, env@[a as int]->0));
                assert(entry_ok(func, out, ib, b, c as int, env@[c as int]->0));
                assert(func.value_ty_data(a as int) == func.value_ty_data(c as int));
            }
            let (na, ba) = env[a].unwrap();
            let (nc, bc) = env[c].unwrap();
            // Operands agree in batching, so neither needs a broadcast.
            let v = out.emit_binary(op, na, nc);
            (v, ba || bc)
        },
        _ => {
            proof {
                assert(false);
            }
            (0, false)
        },
    };
    proof {
        lemma_env_grows(func, &out0, out, ib, b, env@);
        assert(entry_ok(func, out, ib, b, r as int, entry));
    }
    let ghost env0 = env@;
    env.set(r, Some(entry));
    proof {
        assert forall|w: int| 0 <= w < env@.len() && (#[trigger] env@[w]) is Some implies entry_ok(
            func,
            out,
            ib,
            b,
            w,
            env@[w]->0,
        ) by {
            if w != r {
                assert(env@[w] == env0[w]);
            }
        }
        assert forall|w: int| 0 <= w < func.values@.len() && available(func, p + 1, w) implies (
        #[trigger] env@[w]) is Some by {
            if w != r {
                assert(env@[w] == env0[w]);
                if !is_param(func, w) {
                    let q = choose|q: int| 0 <= q < p + 1 && #[trigger] func.results@[func.layout@[q] as int] == w;
                    assert(q != p);
                    assert(available(func, p as int, w));
                }
            }
        }
    }
}

/// Maps `func` over a leading batch dimension of size `b`: each parameter
/// flagged in `in_batched` gains that dimension, and so does every value
/// computed from one. Returns compute what they computed, batched.
#[verifier::loop_isolation(false)]
pub fn vmap(func: &Function, in_batched: &[bool], b: u32) -> (out: Function)
    requires
        vmap_ok(func, in_batched@),
        b > 0,
        func.params@.len() <= 0x1_0000,
    ensures
        out.wf(),
        out.params@.len() == func.params@.len(),
        forall|k: int|
            0 <= k < func.params@.len() ==> #[trigger] out.value_ty_data(out.params@[k] as int) == batched_ty(
                func.value_ty_data(func.params@[k] as int),
                in_batched@[k],
                b,
            ),
        out.returns@.len() == func.returns@.len(),
        forall|k: int|
            0 <= k < func.returns@.len() ==> #[trigger] out.sym(out.returns@[k] as int) == func.sym(
                func.returns@[k] as int,
            ) && out.value_ty_data(out.returns@[k] as int) == func.value_ty_data(
                func.returns@[k] as int,
            ).spec_prepend(b),
{
    let ghost ib = in_batched@;
    let n = func.num_params();
    let mut param_tys: Vec<TyData> = Vec::new();
    let mut k: usize = 0;
    while k < n
        invariant
            k <= n,
            param_tys@.len() == k,
            forall|j: int|
                0 <= j < k ==> #[trigger] param_tys@[j] == batched_ty(
                    func.value_ty_data(func.params@[j] as int),
                    ib[j],
                    b,
                ),
        decreases n - k,
    {
        proof {
            assert(func.params@[k as int] < func.values@.len());
        }
        let td = func.ty_data(func.value_ty(func.params[k]));
        if in_batched[k] {
            proof {
                assert(td == func.value_ty_data(func.params@[k as int] as int));
            }
            param_tys.push(td.prepend(b));
        } else {
            param_tys.push(td);
        }
        k += 1;
    }
    let mut out = Function::new(param_tys.as_slice());
    let mut env: Vec<Option<(Value, bool)>> = Vec::new();
    let mut w: usize = 0;
    while w < func.values.len()
        invariant
            w <= func.values@.len(),
            env@.len() == w,
            forall|i: int| 0 <= i < w ==> #[trigger] env@[i] is None,
        decreases func.values@.len() - w,
    {
        env.push(None);
        w += 1;
    }
    let mut k: usize = 0;
    while k < n
        invariant
            out.wf(),
            out.params@.len() == n,
            param_tys@.len() == n,
            forall|j: int| 0 <= j < n ==> #[trigger] out.value_ty_data(out.params@[j] as int) == param_tys@[j],
            k <= n,
            env_ok(func, &out, ib, b, env@),
            forall|j: int| 0 <= j < k ==> (#[trigger] env@[func.params@[j] as int]) is Some,
        decreases n - k,
    {
        let pv = func.params[k];
        let ghost env0 = env@;
        proof {
            assert(pv < func.values@.len());
            assert(out.value_ty_data(out.params@[k as int] as int) == param_tys@[k as int]);
        }
        let e = (out.params[k], in_batched[k]);
        proof {
            assert(entry_ok(func, &out, ib, b, pv as int, e));
        }
        env.set(pv, Some(e));
        proof {
            assert forall|w2: int| 0 <= w2 < env@.len() && (#[trigger] env@[w2]) is Some implies entry_ok(
                func,
                &out,
                ib,
                b,
                w2,
                env@[w2]->0,
            ) by {
                if w2 != pv {
                    assert(env@[w2] == env0[w2]);
                }
            }
            assert forall|j: int| 0 <= j < k + 1 implies (#[trigger] env@[func.params@[j] as int]) is Some by {
                if func.params@[j] != pv {
                    assert(env@[func.params@[j] as int] == env0[func.params@[j] as int]);
                }
            }
        }
        k += 1;
    }
    let mut p: usize = 0;
    while p < func.layout.len()
        invariant
            out.wf(),
            out.params@.len() == n,
            out.returns@.len() == 0,
            param_tys@.len() == n,
            forall|j: int| 0 <= j < n ==> #[trigger] out.value_ty_data(out.params@[j] as int) == param_tys@[j],
            p <= func.layout@.len(),
            env_ok(func, &out, ib, b, env@),
            forall|w2: int| 0 <= w2 < func.values@.len() && available(func, p as int, w2) ==> (#[trigger] env@[w2]) is Some,
        decreases func.layout@.len() - p,
    {
        let ghost out0 = out;
        vmap_step(func, &mut out, &mut env, p, Ghost(ib), b);
        proof {
            assert forall|j: int| 0 <= j < n implies #[trigger] out.value_ty_data(out.params@[j] as int) == param_tys@[j] by {
                assert(out0.params@[j] < out0.values@.len());
                lemma_grows(&out0, &out, out0.params@[j] as int);
            }
        }
        p += 1;
    }
    let nr = func.returns.len();
    let mut rets: Vec<Value> = Vec::new();
    let mut k: usize = 0;
    while k < nr
        invariant
            out.wf(),
            env_ok(func, &out, ib, b, env@),
            forall|w2: int|
                0 <= w2 < func.values@.len() && available(func, func.layout@.len() as int, w2) ==> (#[trigger] env@[w2]) is Some,
            k <= nr,
            rets@.len() == k,
            forall|j: int|
                0 <= j < k ==> #[trigger] rets@[j] < out.values@.len() && out.sym(rets@[j] as int) == func.sym(
                    func.returns@[j] as int,
                ) && out.value_ty_data(rets@[j] as int) == func.value_ty_data(func.returns@[j] as int).spec_prepend(b),
        decreases nr - k,
    {
        let r = func.returns[k];
        proof {
            assert(available(func, func.layout@.len() as int, r as int));
            assert(r < func.values@.len());
            assert(entry_ok(func, &out, ib, b, r as int, env@[r as int]->0));
            assert(is_batched(func, ib, func.returns@[k as int] as int));
        }
        // Every return is batched, so none needs a broadcast.
        let (v, _) = env[r].unwrap();
        rets.push(v);
        k += 1;
    }
    let ghost ob = out;
    let ghost rs = rets@;
    out.returns = rets;
    proof {
        assert(out.values@ == ob.values@);
        assert(out.insts@ == ob.insts@);
        assert(out.params@ == ob.params@);
        assert(out.spec_types() == ob.spec_types());
        assert(out.returns@ == rs);
        assert forall|j: int| 0 <= j < out.returns@.len() implies #[trigger] out.returns@[j] < out.values@.len() by {
            assert(rs[j] < ob.values@.len());
        }
        assert forall|k2: int| 0 <= k2 < func.params@.len() implies #[trigger] out.value_ty_data(out.params@[k2] as int)
            == batched_ty(func.value_ty_data(func.params@[k2] as int), in_batched@[k2], b) by {
            assert(ob.value_ty_data(ob.params@[k2] as int) == param_tys@[k2]);
        }
        assert forall|k2: int| 0 <= k2 < nr implies #[trigger] out.sym(out.returns@[k2] as int) == func.sym(
            func.returns@[k2] as int,
        ) && out.value_ty_data(out.returns@[k2] as int) == func.value_ty_data(func.returns@[k2] as int).spec_prepend(b) by {
            assert(rs[k2] < ob.values@.len());
            assert(ob.sym(rs[k2] as int) == func.sym(func.returns@[k2] as int));
        }
    }
    out
}

} // verus!
