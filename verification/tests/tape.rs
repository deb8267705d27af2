use autodiff::bits::Bits64;
use autodiff::drivers::Jacobian;
use autodiff::ir::function::{Function as IrFunction, InstructionData as IrInst};
use autodiff::ir::ty::TyData;
use autodiff::tape::jvp::jvp;
use autodiff::function::InstructionData;
use autodiff::op::{BinaryOp, UnaryOp};
use autodiff::tape::Tape;

#[test]
fn compile_keeps_only_what_outputs_need() {
    let mut t = Tape::new();
    let x = t.param();
    let y = t.param();
    let unused = t.unary(UnaryOp::Cos, y);
    let s = t.unary(UnaryOp::Sin, x);
    let z = t.binary(BinaryOp::Mul, s, x);
    let _ = unused;
    let f = t.compile(&[x, y], &[z]);
    assert_eq!(f.num_params, 2);
    assert_eq!(
        f.insts,
        vec![
            InstructionData::Param(0),
            InstructionData::Param(1),
            InstructionData::Unary(UnaryOp::Sin, 0),
            InstructionData::Binary(BinaryOp::Mul, 2, 0),
        ]
    );
    assert_eq!(f.returns, vec![3]);
    assert!(f.verify());
}

#[test]
fn compile_numbers_parameters_by_input_order() {
    let mut t = Tape::new();
    let x = t.param();
    let y = t.param();
    let k = t.constant(Bits64(2.0f64.to_bits()));
    let d = t.binary(BinaryOp::Div, x, k);
    let f = t.compile(&[y, x], &[d, y]);
    assert_eq!(
        f.insts,
        vec![
            InstructionData::Param(0),
            InstructionData::Param(1),
            InstructionData::Constant(Bits64(2.0f64.to_bits())),
            InstructionData::Binary(BinaryOp::Div, 1, 2),
        ]
    );
    assert_eq!(f.returns, vec![3, 0]);
}

#[test]
fn forward_appends_tangents() {
    let mut t = Tape::new();
    let x = t.param();
    let s = t.unary(UnaryOp::Sin, x);
    let f = t.compile(&[x], &[s]);
    let g = f.forward();
    assert_eq!(g.num_params, 2);
    assert_eq!(
        g.insts,
        vec![
            InstructionData::Param(0),
            InstructionData::Param(1),
            InstructionData::Unary(UnaryOp::Sin, 0),
            InstructionData::Unary(UnaryOp::Cos, 0),
            InstructionData::Binary(BinaryOp::Mul, 3, 1),
        ]
    );
    assert_eq!(g.returns, vec![2, 4]);
    assert!(g.verify());
}

#[test]
fn forward_gives_constant_outputs_a_shared_zero() {
    let mut t = Tape::new();
    let x = t.param();
    let k = t.constant(Bits64(3.0f64.to_bits()));
    let f = t.compile(&[x], &[k, k]);
    let g = f.forward();
    assert_eq!(g.returns.len(), 4);
    assert_eq!(g.returns[2], g.returns[3]);
    assert_eq!(g.insts[g.returns[2]], InstructionData::Constant(Bits64(0)));
}

#[test]
fn verify_rejects_forward_references() {
    let f = autodiff::function::Function {
        insts: vec![InstructionData::Unary(UnaryOp::Neg, 0)],
        num_params: 0,
        returns: vec![0],
    };
    assert!(!f.verify());
}

use autodiff::tape::CompileError;

#[test]
fn try_compile_reports_bad_inputs() {
    let mut t = Tape::new();
    let x = t.param();
    let y = t.param();
    let s = t.unary(UnaryOp::Sin, x);
    let p = t.binary(BinaryOp::Mul, s, y);
    assert_eq!(t.try_compile(&[x, s], &[p]).err(), Some(CompileError::InputNotParameter(1)));
    assert_eq!(t.try_compile(&[x, x], &[p]).err(), Some(CompileError::InputListedTwice(1)));
    assert_eq!(t.try_compile(&[x], &[p]).err(), Some(CompileError::UnlistedParameter));
    let f = t.try_compile(&[y, x], &[p]).unwrap();
    assert_eq!(f.num_params, 2);
    assert_eq!(f.returns, vec![3]);
}

#[test]
fn jacobian_holds_the_forward_transform() {
    let mut t = Tape::new();
    let x = t.param();
    let y = t.param();
    let xx = t.binary(BinaryOp::Mul, x, x);
    let z = t.binary(BinaryOp::Mul, xx, y);
    let s = t.unary(UnaryOp::Sin, y);
    let jac = Jacobian::new(&t, &[x, y], &[z, s]);
    assert_eq!(jac.num_rows(), 2);
    assert_eq!(jac.num_cols(), 2);
    let g = jac.jvp();
    assert!(g.verify());
    assert_eq!(g.num_params, 4);
    assert_eq!(g.returns.len(), 4);
    // The forward transform of the compiled function, built separately.
    let f = t.compile(&[x, y], &[z, s]).forward();
    assert_eq!(g.insts, f.insts);
    assert_eq!(g.returns, f.returns);
}

#[test]
fn scalar_jvp_of_a_product() {
    // f(x, y) = x * y: primal first, then y * dx + x * dy.
    let s = TyData::scalar();
    let mut f = IrFunction::new(&[s, s]);
    let (x, y) = (f.params[0], f.params[1]);
    let p = f.emit(IrInst::Binary(BinaryOp::Mul, x, y));
    f.returns.push(p);
    let g = jvp(&f);
    assert_eq!(g.num_params(), 4);
    assert!(g.check());
    assert_eq!(
        g.insts,
        vec![
            IrInst::Binary(BinaryOp::Mul, 0, 1),
            IrInst::Binary(BinaryOp::Mul, 1, 2),
            IrInst::Binary(BinaryOp::Mul, 0, 3),
            IrInst::Binary(BinaryOp::Add, 5, 6),
        ]
    );
    assert_eq!(g.returns, vec![4, 7]);
}

#[test]
fn scalar_jvp_shares_one_zero_tangent() {
    let s = TyData::scalar();
    let c = Bits64(3.0f64.to_bits());
    let mut f = IrFunction::new(&[s]);
    let k = f.emit(IrInst::Constant(c));
    f.returns.push(k);
    f.returns.push(k);
    let g = jvp(&f);
    assert_eq!(g.insts, vec![IrInst::Constant(c), IrInst::Constant(Bits64(0))]);
    assert_eq!(g.returns, vec![2, 2, 3, 3]);
}

#[test]
fn scalar_jvp_of_a_quotient_reuses_the_primal() {
    // f(x, y) = x / y: dq = (dx - q * dy) / y with q the primal quotient.
    let s = TyData::scalar();
    let mut f = IrFunction::new(&[s, s]);
    let (x, y) = (f.params[0], f.params[1]);
    let q = f.emit(IrInst::Binary(BinaryOp::Div, x, y));
    f.returns.push(q);
    let g = jvp(&f);
    assert_eq!(
        g.insts,
        vec![
            IrInst::Binary(BinaryOp::Div, 0, 1),
            IrInst::Binary(BinaryOp::Mul, 4, 3),
            IrInst::Binary(BinaryOp::Sub, 2, 5),
            IrInst::Binary(BinaryOp::Div, 6, 1),
        ]
    );
    assert_eq!(g.returns, vec![4, 7]);
}

#[test]
fn forward_lays_out_primals_then_tangents() {
    let f = autodiff::function::Function {
        insts: vec![InstructionData::Param(0), InstructionData::Constant(Bits64(2.0f64.to_bits()))],
        num_params: 1,
        returns: vec![1, 1],
    };
    let g = f.forward();
    assert_eq!(g.num_params, 2);
    assert_eq!(
        g.insts,
        vec![
            InstructionData::Param(0),
            InstructionData::Param(1),
            InstructionData::Constant(Bits64(2.0f64.to_bits())),
            InstructionData::Constant(Bits64(0)),
        ]
    );
    assert_eq!(g.returns, vec![2, 2, 3, 3]);
}

#[test]
fn forward_adds_no_zero_when_every_return_has_a_tangent() {
    let f = autodiff::function::Function {
        insts: vec![InstructionData::Param(0)],
        num_params: 1,
        returns: vec![0],
    };
    let g = f.forward();
    assert_eq!(g.insts, vec![InstructionData::Param(0), InstructionData::Param(1)]);
    assert_eq!(g.returns, vec![0, 1]);
}

#[test]
fn sparse_storage_keeps_present_entries_column_by_column() {
    let cols = vec![
        vec![None, Some(1.5), Some(2.0)],
        vec![None, None, None],
        vec![Some(3.0), None, None],
    ];
    let s = autodiff::drivers::SparseStorage::from_column_entries(3, &cols);
    assert_eq!(s.num_rows(), 3);
    assert_eq!(s.num_cols(), 3);
    assert_eq!(s.col_ptrs(), &[0, 2, 2, 3]);
    assert_eq!(s.row_indices(), &[1, 2, 0]);
    assert_eq!(s.values(), &[1.5, 2.0, 3.0]);
}

#[test]
fn sparse_storage_reads_back_what_columns_list() {
    let cols = vec![vec![Some(4.0), None], vec![None, Some(-1.0)], vec![None, None]];
    let s = autodiff::drivers::SparseStorage::from_column_entries(2, &cols);
    for c in 0..3 {
        for r in 0..2 {
            assert_eq!(s.get(r, c), cols[c][r].unwrap_or_default());
        }
    }
    assert_eq!(s.get(0, 0), 4.0);
    assert_eq!(s.get(1, 1), -1.0);
    assert_eq!(s.get(1, 2), 0.0);
}

#[test]
fn try_compile_refuses_a_var_of_another_tape() {
    let mut t = Tape::new();
    let x = t.param();
    let mut u = Tape::new();
    let y = u.param();
    assert!(t.owns(x));
    assert!(!t.owns(y));
    assert_eq!(t.try_compile(&[y], &[x]).err(), Some(CompileError::ForeignVar));
    assert_eq!(t.try_compile(&[x], &[y]).err(), Some(CompileError::ForeignVar));
    assert!(t.try_compile(&[x], &[x]).is_ok());
}
