use autodiff::bits::Bits64;
use autodiff::ir::chunk::plan;
use autodiff::ir::display::{binary_name, unary_name};
use autodiff::ir::function::{Function, InstructionData, ValueData};
use autodiff::ir::jvp::jvp;
use autodiff::ir::ty::TyData;
use autodiff::ir::vmap::vmap;
use autodiff::op::{BinaryOp, UnaryOp};

#[test]
fn tydata_dims_and_prepend() {
    let s = TyData::scalar();
    assert!(s.is_scalar());
    assert_eq!(s.dims(), &[] as &[u32]);
    let v = s.prepend(3);
    assert_eq!(v.dims(), &[3]);
    let m = v.prepend(2);
    assert_eq!(m.dims(), &[2, 3]);
    assert!(!m.is_scalar());
    assert!(m.same(&TyData::scalar().prepend(3).prepend(2)));
    assert!(!m.same(&v));
}

#[test]
fn interning_reuses_types() {
    let s = TyData::scalar();
    let v = s.prepend(4);
    let mut f = Function::new(&[s, v, s]);
    assert_eq!(f.num_params(), 3);
    let t0 = f.value_ty(f.params[0]);
    let t2 = f.value_ty(f.params[2]);
    assert_eq!(t0, t2);
    assert_ne!(t0, f.value_ty(f.params[1]));
    assert_eq!(f.intern_ty(v), f.value_ty(f.params[1]));
    assert!(f.ty_data(t0).same(&s));
}

#[test]
fn emit_appends_to_layout() {
    let s = TyData::scalar();
    let mut f = Function::new(&[s]);
    let x = f.params[0];
    let c = f.emit(InstructionData::Constant(Bits64(2.0f64.to_bits())));
    let y = f.emit(InstructionData::Binary(BinaryOp::Mul, x, c));
    assert_eq!(f.layout(), &[0, 1]);
    assert_eq!(f.inst_result(1), y);
    assert_eq!(f.values[y], ValueData::Result { ty: f.value_ty(x), inst: 1 });
}

/// f(x, y) = sin(x) * y
fn sample() -> Function {
    let s = TyData::scalar();
    let mut f = Function::new(&[s, s]);
    let (x, y) = (f.params[0], f.params[1]);
    let sx = f.emit(InstructionData::Unary(UnaryOp::Sin, x));
    let p = f.emit(InstructionData::Binary(BinaryOp::Mul, sx, y));
    f.returns.push(p);
    f
}

#[test]
fn jvp_returns_primals_then_tangents() {
    let f = sample();
    let g = jvp(&f);
    assert_eq!(g.num_params(), 4);
    assert_eq!(g.returns.len(), 2);
    // Tangent of sin(x): cos(x) * dx, emitted before the primal sine.
    assert!(matches!(g.insts[0], InstructionData::Unary(UnaryOp::Cos, _)));
    assert!(matches!(g.insts[1], InstructionData::Binary(BinaryOp::Mul, _, _)));
    assert!(matches!(g.insts[2], InstructionData::Unary(UnaryOp::Sin, _)));
    // The primal return is sin(x) * y.
    let r = g.returns[0];
    match g.values[r] {
        ValueData::Result { inst, .. } => match g.insts[inst] {
            InstructionData::Binary(BinaryOp::Mul, a, b) => {
                assert_eq!(b, g.params[1]);
                assert!(matches!(g.values[a], ValueData::Result { .. }));
            }
            other => panic!("unexpected {:?}", other),
        },
        other => panic!("unexpected {:?}", other),
    }
    // The tangent return is d(sin x) * y + sin(x) * dy.
    let t = g.returns[1];
    match g.values[t] {
        ValueData::Result { inst, .. } => {
            assert!(matches!(g.insts[inst], InstructionData::Binary(BinaryOp::Add, _, _)))
        }
        other => panic!("unexpected {:?}", other),
    }
}

#[test]
fn vmap_prepends_batch_dimension() {
    let f = sample();
    let g = vmap(&f, &[true, true], 5);
    assert_eq!(g.num_params(), 2);
    assert_eq!(g.ty_data(g.value_ty(g.params[0])).dims(), &[5]);
    assert_eq!(g.ty_data(g.value_ty(g.returns[0])).dims(), &[5]);
    assert_eq!(g.insts.len(), 2);
}

#[test]
fn vmap_keeps_unbatched_parameters() {
    let s = TyData::scalar();
    let mut f = Function::new(&[s, s]);
    let (x, y) = (f.params[0], f.params[1]);
    let n = f.emit(InstructionData::Unary(UnaryOp::Neg, x));
    f.returns.push(n);
    let _ = y;
    let g = vmap(&f, &[true, false], 3);
    assert_eq!(g.ty_data(g.value_ty(g.params[0])).dims(), &[3]);
    assert_eq!(g.ty_data(g.value_ty(g.params[1])).dims(), &[] as &[u32]);
}

#[test]
fn chunk_plan_spills_crossing_values() {
    // Layout: [sin(x), (sin x) * y]; with chunks of one instruction the
    // sine is read in the next chunk, so it gets a slot; the product is
    // returned from the last chunk and needs none.
    let f = sample();
    let p = plan(&f, 1);
    assert_eq!(p.n_chunks, 2);
    assert_eq!(p.chunk_of, vec![0, 1]);
    assert_eq!(p.slot, vec![Some(0), None]);
    assert_eq!(p.n_slots, 1);
    let p = plan(&f, 16);
    assert_eq!(p.n_chunks, 1);
    assert_eq!(p.slot, vec![None, None]);
    assert_eq!(p.n_slots, 0);
}

#[test]
fn chunk_plan_of_empty_layout() {
    let s = TyData::scalar();
    let mut f = Function::new(&[s, s]);
    let y = f.params[1];
    f.returns.push(y);
    let p = plan(&f, 4);
    assert_eq!(p.n_chunks, 1);
    assert!(p.chunk_of.is_empty());
    assert_eq!(p.n_slots, 0);
}

#[test]
fn chunk_plan_spills_returns_of_early_chunks() {
    let f = sample();
    let mut g = sample();
    g.returns.insert(0, g.inst_result(0));
    let _ = f;
    let p = plan(&g, 1);
    // sin(x) is read by chunk 1 and returned: one slot; the product none.
    assert_eq!(p.slot, vec![Some(0), None]);
}

#[test]
fn opcode_names() {
    assert_eq!(unary_name(UnaryOp::Neg), "neg");
    assert_eq!(unary_name(UnaryOp::Sin), "sin");
    assert_eq!(unary_name(UnaryOp::Cos), "cos");
    assert_eq!(binary_name(BinaryOp::Add), "add");
    assert_eq!(binary_name(BinaryOp::Sub), "sub");
    assert_eq!(binary_name(BinaryOp::Mul), "mul");
    assert_eq!(binary_name(BinaryOp::Div), "div");
}

use autodiff::ir::display::live_counts;

#[test]
fn live_counts_of_sample() {
    // Line 0: sin(x), read on line 1. Line 1: the product, returned.
    let f = sample();
    assert_eq!(live_counts(&f), vec![1, 1]);
}

#[test]
fn live_counts_with_long_lived_value() {
    let s = TyData::scalar();
    let mut f = Function::new(&[s]);
    let x = f.params[0];
    let a = f.emit(InstructionData::Unary(UnaryOp::Sin, x));
    let b = f.emit(InstructionData::Unary(UnaryOp::Cos, x));
    let c = f.emit(InstructionData::Binary(BinaryOp::Add, b, b));
    let d = f.emit(InstructionData::Binary(BinaryOp::Mul, a, c));
    f.returns.push(d);
    // a lives across lines 0..=2, b across 1, c across 2, d past the end.
    assert_eq!(live_counts(&f), vec![1, 2, 2, 1]);
}

#[test]
fn jvp_gives_a_constant_return_a_zero_tangent() {
    let s = TyData::scalar();
    let v = s.prepend(3);
    let mut f = Function::new(&[v]);
    let c = f.emit(InstructionData::Constant(Bits64(2.0f64.to_bits())));
    f.returns.push(c);
    let g = jvp(&f);
    assert_eq!(g.returns.len(), 2);
    let t = g.returns[1];
    match g.values[t] {
        ValueData::Result { inst, .. } => {
            assert_eq!(g.insts[inst], InstructionData::Constant(Bits64(0)))
        }
        other => panic!("unexpected {:?}", other),
    }
    assert!(g.ty_data(g.value_ty(t)).same(&s));
}

#[test]
fn broadcast_to_a_wider_type_emits_a_broadcast() {
    let s = TyData::scalar();
    let v = s.prepend(3);
    let mut f = Function::new(&[v]);
    let z = f.emit(InstructionData::Constant(Bits64(0)));
    let target = f.value_ty(f.params[0]);
    let b = f.broadcast_to(z, target);
    assert_ne!(b, z);
    assert_eq!(f.value_ty(b), target);
    match f.values[b] {
        ValueData::Result { inst, .. } => {
            assert!(matches!(f.insts[inst], InstructionData::Broadcast(a, t, _) if a == z && t == target))
        }
        other => panic!("unexpected {:?}", other),
    }
    let same = f.broadcast_to(z, f.value_ty(z));
    assert_eq!(same, z);
}
