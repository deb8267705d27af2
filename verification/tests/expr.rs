use autodiff::bits::Bits64;
use autodiff::expr::{BinaryOp, Context, Instr, UnaryOp};

#[test]
fn lower_keeps_what_roots_need() {
    let mut ctx = Context::new();
    let x = ctx.var();
    let y = ctx.var();
    let dead = ctx.unary(UnaryOp::Exp, y);
    let s = ctx.unary(UnaryOp::Sqrt, x);
    let c = ctx.constant(Bits64(1.0f64.to_bits()));
    let r = ctx.binary(BinaryOp::Pow, s, c);
    let _ = dead;
    assert_eq!(ctx.n_vars(), 2);
    let t = ctx.lower(&[r, x]);
    assert_eq!(
        t.insts,
        vec![
            Instr::Input(0),
            Instr::Unary(UnaryOp::Sqrt, 0),
            Instr::Const(Bits64(1.0f64.to_bits())),
            Instr::Binary(BinaryOp::Pow, 1, 2),
        ]
    );
    assert_eq!(t.outputs, vec![3, 0]);
}

#[test]
fn lower_of_nothing_is_empty() {
    let mut ctx = Context::new();
    let _ = ctx.var();
    let t = ctx.lower(&[]);
    assert!(t.insts.is_empty());
    assert!(t.outputs.is_empty());
}

#[test]
fn powi_squares_and_multiplies() {
    let mut ctx = Context::new();
    let x = ctx.var();
    let cube = ctx.powi(x, 3);
    let t = ctx.lower(&[cube]);
    assert_eq!(
        t.insts,
        vec![Instr::Input(0), Instr::Binary(BinaryOp::Mul, 0, 0), Instr::Binary(BinaryOp::Mul, 1, 0)]
    );
    assert_eq!(t.outputs, vec![2]);
}

#[test]
fn powi_of_zero_and_negative_exponents() {
    let one = Bits64(1.0f64.to_bits());
    let mut ctx = Context::new();
    let x = ctx.var();
    let unit = ctx.powi(x, 0);
    assert_eq!(ctx.lower(&[unit]).insts, vec![Instr::Const(one)]);
    let same = ctx.powi(x, 1);
    assert_eq!(same.id(), x.id());
    let inv_sq = ctx.powi(x, -2);
    let t = ctx.lower(&[inv_sq]);
    assert_eq!(
        t.insts,
        vec![
            Instr::Input(0),
            Instr::Binary(BinaryOp::Mul, 0, 0),
            Instr::Const(one),
            Instr::Binary(BinaryOp::Div, 2, 1),
        ]
    );
}

#[test]
fn named_operations_record_their_opcodes() {
    let mut ctx = Context::new();
    let x = ctx.var();
    let y = ctx.var();
    let a = ctx.ln(x);
    let b = ctx.abs(y);
    let m = ctx.max(a, b);
    let p = ctx.powf(m, x);
    let t = ctx.lower(&[p]);
    assert_eq!(
        t.insts,
        vec![
            Instr::Input(0),
            Instr::Input(1),
            Instr::Unary(UnaryOp::Ln, 0),
            Instr::Unary(UnaryOp::Abs, 1),
            Instr::Binary(BinaryOp::Max, 2, 3),
            Instr::Binary(BinaryOp::Pow, 4, 0),
        ]
    );
}
