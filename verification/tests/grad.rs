use autodiff::bits::Bits64;
use autodiff::expr::{BinaryOp, Context, Expr, Instr, Tape, UnaryOp};
use autodiff::grad::{can_differentiate, gradient};
use autodiff::jacobian::{hessian, jacobian};

fn unary(op: UnaryOp, a: f64) -> f64 {
    match op {
        UnaryOp::Neg => -a,
        UnaryOp::Sqrt => a.sqrt(),
        UnaryOp::Exp => a.exp(),
        UnaryOp::Ln => a.ln(),
        UnaryOp::Sin => a.sin(),
        UnaryOp::Cos => a.cos(),
        UnaryOp::Abs => a.abs(),
    }
}

fn binary(op: BinaryOp, a: f64, b: f64) -> f64 {
    match op {
        BinaryOp::Add => a + b,
        BinaryOp::Sub => a - b,
        BinaryOp::Mul => a * b,
        BinaryOp::Div => a / b,
        BinaryOp::Mod => a % b,
        BinaryOp::Min => a.min(b),
        BinaryOp::Max => a.max(b),
        BinaryOp::Pow => a.powf(b),
    }
}

fn eval1(tape: &Tape, xs: &[f64]) -> Vec<f64> {
    let mut vals: Vec<f64> = Vec::with_capacity(tape.insts.len());
    for inst in &tape.insts {
        let v = match *inst {
            Instr::Const(c) => f64::from_bits(c.0),
            Instr::Input(v) => xs[v as usize],
            Instr::Unary(op, a) => unary(op, vals[a]),
            Instr::Binary(op, a, b) => binary(op, vals[a], vals[b]),
        };
        vals.push(v);
    }
    tape.outputs.iter().map(|&s| vals[s]).collect()
}

fn c(ctx: &mut Context, x: f64) -> Expr {
    ctx.constant(Bits64(x.to_bits()))
}

fn mul(ctx: &mut Context, a: Expr, b: Expr) -> Expr {
    ctx.binary(BinaryOp::Mul, a, b)
}

fn add(ctx: &mut Context, a: Expr, b: Expr) -> Expr {
    ctx.binary(BinaryOp::Add, a, b)
}

#[test]
fn eval_and_gradient() {
    let mut ctx = Context::new();
    let x = ctx.var();
    let y = ctx.var();
    // f(x, y) = x*y + x^2
    let xy = mul(&mut ctx, x, y);
    let xx = mul(&mut ctx, x, x);
    let f = add(&mut ctx, xy, xx);
    let tape = ctx.lower(&[f]);

    let (xv, yv) = (1.5, 3.2);
    let eval = eval1(&tape, &[xv, yv]);
    assert_eq!(eval.len(), 1);
    assert!((eval[0] - (xv * yv + xv * xv)).abs() < 1e-12);

    // df/dx = y + 2x, df/dy = x
    let grad_tape = gradient(&tape, 0, ctx.n_vars());
    let grads = eval1(&grad_tape, &[xv, yv]);
    assert_eq!(grads.len(), 3);
    assert!((grads[1] - (yv + 2.0 * xv)).abs() < 1e-12);
    assert!((grads[2] - xv).abs() < 1e-12);
}

#[test]
fn grad_matches_closed_form_and_fd() {
    let mut ctx = Context::new();
    let x = ctx.var();
    let y = ctx.var();
    let xx = mul(&mut ctx, x, x);
    let yy = mul(&mut ctx, y, y);
    let r2 = add(&mut ctx, xx, yy);
    let r = ctx.sqrt(r2);
    let s = ctx.sin(r);
    let one = c(&mut ctx, 1.0);
    let d = add(&mut ctx, one, r);
    let f = ctx.binary(BinaryOp::Div, s, d);

    let fwd = ctx.lower(&[f]);
    let g = gradient(&fwd, 0, ctx.n_vars());

    let p = [3.0, 4.0];
    let out = eval1(&g, &p);

    let r: f64 = 5.0;
    let gp = (r.cos() * (1.0 + r) - r.sin()) / (1.0 + r).powi(2);
    assert!((out[1] - 0.6 * gp).abs() < 1e-12);
    assert!((out[2] - 0.8 * gp).abs() < 1e-12);

    let h = 1e-6;
    for i in 0..2 {
        let (mut lo, mut hi) = (p, p);
        lo[i] -= h;
        hi[i] += h;
        let fd = (eval1(&fwd, &hi)[0] - eval1(&fwd, &lo)[0]) / (2.0 * h);
        assert!((out[1 + i] - fd).abs() < 1e-6, "var {i}: {} vs {}", out[1 + i], fd);
    }
}

#[test]
fn jacobian_matches_closed_form_and_fd() {
    // f0 = x^2 * y, f1 = sin(x*y)
    let mut ctx = Context::new();
    let x = ctx.var();
    let y = ctx.var();
    let xx = mul(&mut ctx, x, x);
    let f0 = mul(&mut ctx, xx, y);
    let xy = mul(&mut ctx, x, y);
    let f1 = ctx.sin(xy);

    let fwd = ctx.lower(&[f0, f1]);
    let n = ctx.n_vars();
    let j = jacobian(&fwd, n);

    let p = [1.3, 0.7];
    let out = eval1(&j, &p);
    assert_eq!(out.len(), 6);
    let (x, y) = (p[0], p[1]);
    let expected = [2.0 * x * y, x * x, y * (x * y).cos(), x * (x * y).cos()];
    for (k, &e) in expected.iter().enumerate() {
        assert!((out[2 + k] - e).abs() < 1e-12, "entry {k}: {} vs {e}", out[2 + k]);
    }

    let h = 1e-6;
    for out_i in 0..2 {
        for var_j in 0..2 {
            let (mut lo, mut hi) = (p, p);
            lo[var_j] -= h;
            hi[var_j] += h;
            let fd = (eval1(&fwd, &hi)[out_i] - eval1(&fwd, &lo)[out_i]) / (2.0 * h);
            let got = out[2 + out_i * 2 + var_j];
            assert!((got - fd).abs() < 1e-6, "J[{out_i}][{var_j}]: {got} vs {fd}");
        }
    }
}

#[test]
fn hessian_matches_closed_form_and_fd() {
    // f = x^2 * y + sin(x*y)
    let mut ctx = Context::new();
    let x = ctx.var();
    let y = ctx.var();
    let xx = mul(&mut ctx, x, x);
    let xxy = mul(&mut ctx, xx, y);
    let xy = mul(&mut ctx, x, y);
    let s = ctx.sin(xy);
    let f = add(&mut ctx, xxy, s);

    let fwd = ctx.lower(&[f]);
    let n = ctx.n_vars();
    let h_tape = hessian(&fwd, 0, n);

    let p = [1.3, 0.7];
    let out = eval1(&h_tape, &p);
    assert_eq!(out.len(), 7);
    let (x, y) = (p[0], p[1]);
    let c = (x * y).cos();
    let s = (x * y).sin();

    let hxx = 2.0 * y - y * y * s;
    let hxy = 2.0 * x + c - x * y * s;
    let hyy = -x * x * s;
    let expected = [hxx, hxy, hxy, hyy];
    for (k, &e) in expected.iter().enumerate() {
        assert!((out[3 + k] - e).abs() < 1e-10, "H entry {k}: {} vs {e}", out[3 + k]);
    }

    assert!((out[4] - out[5]).abs() < 1e-12);

    let h = 1e-5;
    for a in 0..2 {
        for b in 0..2 {
            let (mut lo, mut hi) = (p, p);
            lo[b] -= h;
            hi[b] += h;
            let fd = (eval1(&h_tape, &hi)[1 + a] - eval1(&h_tape, &lo)[1 + a]) / (2.0 * h);
            let got = out[3 + a * 2 + b];
            assert!((got - fd).abs() < 1e-5, "H[{a}][{b}]: {got} vs {fd}");
        }
    }
}

#[test]
fn gradient_keeps_the_forward_tape_as_prefix() {
    let mut ctx = Context::new();
    let x = ctx.var();
    let e = ctx.exp(x);
    let tape = ctx.lower(&[e]);
    let g = gradient(&tape, 0, 1);
    assert_eq!(&g.insts[..tape.insts.len()], &tape.insts[..]);
    assert_eq!(g.outputs[0], tape.outputs[0]);
    // seed one, then adj * exp(x)
    assert_eq!(
        &g.insts[tape.insts.len()..],
        &[
            Instr::Const(Bits64(1.0f64.to_bits())),
            Instr::Binary(BinaryOp::Mul, 2, 1),
        ]
    );
    assert_eq!(g.outputs, vec![1, 3]);
}

#[test]
fn gradient_of_an_unused_variable_is_zero() {
    let mut ctx = Context::new();
    let x = ctx.var();
    let _y = ctx.var();
    let l = ctx.ln(x);
    let tape = ctx.lower(&[l]);
    let g = gradient(&tape, 0, 3);
    assert_eq!(g.outputs.len(), 4);
    let out = eval1(&g, &[2.0, 7.0, 1.0]);
    assert_eq!(out[1], 0.5);
    assert_eq!(out[2], 0.0);
    assert_eq!(out[3], 0.0);
    // the zero is pushed once and shared
    assert_eq!(g.outputs[2], g.outputs[3]);
    assert_eq!(g.insts[g.outputs[2]], Instr::Const(Bits64(0)));
}

#[test]
fn gradient_through_sub_div_cos_neg_and_sqrt() {
    // f = cos(x) - (-y) / sqrt(x)
    let mut ctx = Context::new();
    let x = ctx.var();
    let y = ctx.var();
    let cx = ctx.cos(x);
    let ny = ctx.unary(UnaryOp::Neg, y);
    let sx = ctx.sqrt(x);
    let q = ctx.binary(BinaryOp::Div, ny, sx);
    let f = ctx.binary(BinaryOp::Sub, cx, q);
    let tape = ctx.lower(&[f]);
    let g = gradient(&tape, 0, 2);
    let (xv, yv) = (2.25f64, 0.5f64);
    let out = eval1(&g, &[xv, yv]);
    // df/dx = -sin x - y / (2 x^1.5), df/dy = 1 / sqrt x
    let dx = -xv.sin() - yv / (2.0 * xv.powf(1.5));
    let dy = 1.0 / xv.sqrt();
    assert!((out[1] - dx).abs() < 1e-12, "{} vs {dx}", out[1]);
    assert!((out[2] - dy).abs() < 1e-12, "{} vs {dy}", out[2]);
}

#[test]
fn jacobian_of_one_output_is_the_gradient() {
    let mut ctx = Context::new();
    let x = ctx.var();
    let y = ctx.var();
    let xy = mul(&mut ctx, x, y);
    let f = ctx.sin(xy);
    let tape = ctx.lower(&[f]);
    let g = gradient(&tape, 0, 2);
    let j = jacobian(&tape, 2);
    assert_eq!(eval1(&g, &[0.3, 1.1]), eval1(&j, &[0.3, 1.1]));
}

#[test]
fn only_tapes_with_rules_can_be_differentiated() {
    let mut ctx = Context::new();
    let x = ctx.var();
    let s = ctx.sin(x);
    let a = ctx.abs(x);
    let smooth = ctx.lower(&[s]);
    let kinked = ctx.lower(&[a]);
    assert!(can_differentiate(&smooth));
    assert!(!can_differentiate(&kinked));
    let dangling = Tape { insts: vec![Instr::Input(0)], outputs: vec![1] };
    assert!(!can_differentiate(&dangling));
    let forward = Tape { insts: vec![Instr::Unary(UnaryOp::Neg, 0)], outputs: vec![0] };
    assert!(!can_differentiate(&forward));
}
