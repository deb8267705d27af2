use autodiff::ad::{BinaryOp, Function, UnaryOp, ValueData, VerifyError};
use autodiff::bits::Bits64;
use autodiff::sparsity::Sparsity;

#[test]
fn new_accepts_ordered_tape() {
    let tape = vec![
        ValueData::Input { input: 0, nonzero: 0 },
        ValueData::Constant(Bits64(0)),
        ValueData::Binary(BinaryOp::Mul, 0, 1),
        ValueData::Unary(UnaryOp::Exp, 2),
    ];
    let f = Function::new(vec![Sparsity::from_dense(1, 1)], tape, vec![]).unwrap();
    assert_eq!(f.num_inputs(), 1);
    assert_eq!(f.num_outputs(), 0);
}

#[test]
fn new_rejects_first_forward_reference() {
    let tape = vec![
        ValueData::Input { input: 0, nonzero: 0 },
        ValueData::Binary(BinaryOp::Add, 0, 2),
        ValueData::Unary(UnaryOp::Neg, 2),
    ];
    let e = Function::new(vec![], tape, vec![]).err().unwrap();
    assert_eq!(e, VerifyError::OperandOutOfOrder { at: 1, operand: 2 });
}

#[test]
fn new_rejects_self_reference() {
    let tape = vec![ValueData::Binary(BinaryOp::Sub, 0, 0)];
    let e = Function::new(vec![], tape, vec![]).err().unwrap();
    assert_eq!(e, VerifyError::OperandOutOfOrder { at: 0, operand: 0 });
}

use autodiff::ad::Output;

#[test]
fn jacobian_sparsity_follows_dependencies() {
    // x has two nonzeros, y one; the output's nonzeros are x0 * y, sin(x1)
    // and a constant.
    let tape = vec![
        ValueData::Input { input: 0, nonzero: 0 },
        ValueData::Input { input: 0, nonzero: 1 },
        ValueData::Input { input: 1, nonzero: 0 },
        ValueData::Binary(BinaryOp::Mul, 0, 2),
        ValueData::Unary(UnaryOp::Sin, 1),
        ValueData::Constant(Bits64(0)),
    ];
    let out = Output { sparsity: Sparsity::from_dense(3, 1), values: vec![3, 4, 5] };
    let f = Function::new(
        vec![Sparsity::from_dense(2, 1), Sparsity::from_dense(1, 1)],
        tape,
        vec![out],
    )
    .unwrap();
    let j = f.jacobian_sparsity();
    assert_eq!(j.num_rows(), 3);
    assert_eq!(j.num_cols(), 3);
    assert_eq!(j.col_range(0), 0..1);
    assert_eq!(j.col_range(1), 1..2);
    assert_eq!(j.col_range(2), 2..3);
    assert_eq!(j.rows(), &[0, 1, 0]);
}

#[test]
fn jacobian_sparsity_spans_several_blocks() {
    // One input with 70 nonzeros; the output reads the first and the last.
    let mut tape: Vec<ValueData> = (0..70).map(|k| ValueData::Input { input: 0, nonzero: k }).collect();
    tape.push(ValueData::Binary(BinaryOp::Add, 0, 69));
    tape.push(ValueData::Unary(UnaryOp::Cos, 65));
    let out = Output { sparsity: Sparsity::from_dense(2, 1), values: vec![70, 71] };
    let f = Function::new(vec![Sparsity::from_dense(70, 1)], tape, vec![out]).unwrap();
    let j = f.jacobian_sparsity();
    assert_eq!(j.num_rows(), 2);
    assert_eq!(j.num_cols(), 70);
    assert_eq!(j.nnz(), 3);
    assert_eq!(j.col_range(0), 0..1);
    assert_eq!(j.col_range(65), 1..2);
    assert_eq!(j.col_range(69), 2..3);
    assert_eq!(j.rows(), &[0, 1, 0]);
}

#[test]
fn jacobian_forward_gives_one_column_per_input_nonzero() {
    // f(x, y) = x * y with scalar inputs; its Jacobian columns are y and x.
    let tape = vec![
        ValueData::Input { input: 0, nonzero: 0 },
        ValueData::Input { input: 1, nonzero: 0 },
        ValueData::Binary(BinaryOp::Mul, 0, 1),
    ];
    let out = Output { sparsity: Sparsity::from_dense(1, 1), values: vec![2] };
    let f = Function::new(
        vec![Sparsity::from_dense(1, 1), Sparsity::from_dense(1, 1)],
        tape,
        vec![out],
    )
    .unwrap();
    let g = f.jacobian_forward();
    assert_eq!(g.num_inputs(), 2);
    assert_eq!(g.num_outputs(), 2);
    // Column of x depends on y only; column of y on x only.
    let j = g.jacobian_sparsity();
    assert_eq!(j.num_rows(), 2);
    assert_eq!(j.num_cols(), 2);
    assert_eq!(j.col_range(0), 0..1);
    assert_eq!(j.col_range(1), 1..2);
    assert_eq!(j.rows(), &[1, 0]);
}
