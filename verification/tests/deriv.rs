use autodiff::bits::Bits64;
use autodiff::deriv::{forward, gradient, prune, reverse, ConstantFolder};
use autodiff::graph::{Function, Node};
use autodiff::op::{BinaryOp, UnaryOp};

/// Folds constants with IEEE-754 double arithmetic.
struct F64;

impl ConstantFolder for F64 {
    // What folding gives, as a function of the operation and its operands:
    // the methods below compute exactly this.
    fn spec_fold_unary(&self, op: UnaryOp, x: Bits64) -> Bits64 {
        self.fold_unary(op, x)
    }

    fn spec_fold_binary(&self, op: BinaryOp, x: Bits64, y: Bits64) -> Bits64 {
        self.fold_binary(op, x, y)
    }

    fn fold_unary(&self, op: UnaryOp, x: Bits64) -> Bits64 {
        let x = f64::from_bits(x.0);
        let v = match op {
            UnaryOp::Neg => -x,
            UnaryOp::Sin => x.sin(),
            UnaryOp::Cos => x.cos(),
        };
        Bits64(v.to_bits())
    }

    fn fold_binary(&self, op: BinaryOp, x: Bits64, y: Bits64) -> Bits64 {
        let (x, y) = (f64::from_bits(x.0), f64::from_bits(y.0));
        let v = match op {
            BinaryOp::Add => x + y,
            BinaryOp::Sub => x - y,
            BinaryOp::Mul => x * y,
            BinaryOp::Div => x / y,
        };
        Bits64(v.to_bits())
    }
}

fn c(x: f64) -> Bits64 {
    Bits64(x.to_bits())
}

/// f(x, y) = x * y
fn product() -> Function {
    let nodes = vec![
        Node::Param(0),
        Node::Param(1),
        Node::Binary(BinaryOp::Mul, 0, 1),
    ];
    Function::from_parts(nodes, vec![0, 1], vec![2])
}

#[test]
fn forward_unit_seed_folds_to_operand() {
    // d(x*y)/dx = y; the 1*y from the unit seed must fold to y itself.
    let f = product();
    let df = forward(&f, &[vec![c(1.0), c(0.0)]], &F64);
    assert_eq!(df.outputs().len(), 1);
    assert_eq!(df.outputs()[0], df.inputs()[1]);
}

#[test]
fn forward_zero_seed_is_constant_zero() {
    let f = product();
    let df = forward(&f, &[vec![c(0.0), c(0.0)]], &F64);
    assert!(matches!(df.nodes()[df.outputs()[0]], Node::Constant(_)));
}

#[test]
fn forward_multiple_seeds_layout() {
    let f = product();
    let df = forward(&f, &[vec![c(1.0), c(0.0)], vec![c(0.0), c(1.0)]], &F64);
    // direction-major: [d0 out0, d1 out0]
    assert_eq!(df.outputs().len(), 2);
    assert_eq!(df.outputs()[0], df.inputs()[1]); // df/dx = y
    assert_eq!(df.outputs()[1], df.inputs()[0]); // df/dy = x
}

#[test]
fn gradient_of_product() {
    let f = product();
    let g = gradient(&f, &F64);
    assert_eq!(g.outputs().len(), 2);
    assert_eq!(g.outputs()[0], g.inputs()[1]); // df/dx = y
    assert_eq!(g.outputs()[1], g.inputs()[0]); // df/dy = x
}

#[test]
fn prune_drops_dead_primal() {
    // The gradient of x*y needs no Mul node at all after folding and
    // pruning: only the two params survive.
    let f = product();
    let g = gradient(&f, &F64);
    assert_eq!(g.nodes().len(), 2);
}

#[test]
fn negative_zero_seed_counts_as_zero() {
    let f = product();
    let df = forward(&f, &[vec![c(-0.0), c(0.0)]], &F64);
    assert_eq!(df.nodes()[df.outputs()[0]], Node::Constant(Bits64(0)));
}

#[test]
fn forward_of_sine_uses_cosine() {
    // f(x) = sin(x): df = cos(x) * 1 folds to cos(x).
    let nodes = vec![Node::Param(0), Node::Unary(UnaryOp::Sin, 0)];
    let f = Function::from_parts(nodes, vec![0], vec![1]);
    let df = forward(&f, &[vec![c(1.0)]], &F64);
    let out = df.outputs()[0];
    assert_eq!(df.nodes()[out], Node::Unary(UnaryOp::Cos, df.inputs()[0]));
    // The primal sine is dead and pruned: param and cosine remain.
    assert_eq!(df.nodes().len(), 2);
}

#[test]
fn forward_folds_constant_expressions() {
    // f(x) = x * (2 + 3): seeds scale, constants fold.
    let nodes = vec![
        Node::Param(0),
        Node::Constant(c(2.0)),
        Node::Constant(c(3.0)),
        Node::Binary(BinaryOp::Add, 1, 2),
        Node::Binary(BinaryOp::Mul, 0, 3),
    ];
    let f = Function::from_parts(nodes, vec![0], vec![4]);
    let df = forward(&f, &[vec![c(1.0)]], &F64);
    // d/dx = 1 * (2 + 3): the tangent is the primal node 2 + 3 itself.
    let out = df.outputs()[0];
    match df.nodes()[out] {
        Node::Binary(BinaryOp::Add, a, b) => {
            assert_eq!(df.nodes()[a], Node::Constant(c(2.0)));
            assert_eq!(df.nodes()[b], Node::Constant(c(3.0)));
        }
        other => panic!("unexpected node {:?}", other),
    }
}

#[test]
fn reverse_of_unused_input_is_zero() {
    // f(x, y) = -x; the adjoint of y is zero.
    let nodes = vec![Node::Param(0), Node::Param(1), Node::Unary(UnaryOp::Neg, 0)];
    let f = Function::from_parts(nodes, vec![0, 1], vec![2]);
    let g = reverse(&f, &[vec![c(1.0)]], &F64);
    assert_eq!(g.outputs().len(), 2);
    // adj x = -1 folded to a constant; adj y = 0.
    assert_eq!(g.nodes()[g.outputs()[0]], Node::Constant(c(-1.0)));
    assert_eq!(g.nodes()[g.outputs()[1]], Node::Constant(Bits64(0)));
}

#[test]
fn reverse_weight_layout_is_weight_major() {
    let f = product();
    let g = reverse(&f, &[vec![c(1.0)], vec![c(0.0)]], &F64);
    assert_eq!(g.outputs().len(), 4);
    assert_eq!(g.outputs()[0], g.inputs()[1]);
    assert_eq!(g.outputs()[1], g.inputs()[0]);
    assert_eq!(g.nodes()[g.outputs()[2]], Node::Constant(Bits64(0)));
    assert_eq!(g.nodes()[g.outputs()[3]], Node::Constant(Bits64(0)));
}

#[test]
fn reverse_of_quotient_shares_reciprocal() {
    // f(x, y) = x / y; adj x = 1/y, adj y = -(1/y * (x/y)).
    let nodes = vec![Node::Param(0), Node::Param(1), Node::Binary(BinaryOp::Div, 0, 1)];
    let f = Function::from_parts(nodes, vec![0, 1], vec![2]);
    let g = gradient(&f, &F64);
    let nodes = g.nodes();
    let dx = g.outputs()[0];
    let dy = g.outputs()[1];
    match nodes[dx] {
        Node::Binary(BinaryOp::Div, one, y) => {
            assert_eq!(nodes[one], Node::Constant(c(1.0)));
            assert_eq!(y, g.inputs()[1]);
        }
        other => panic!("unexpected node {:?}", other),
    }
    match nodes[dy] {
        Node::Unary(UnaryOp::Neg, m) => match nodes[m] {
            Node::Binary(BinaryOp::Mul, r, q) => {
                assert_eq!(r, dx);
                assert_eq!(nodes[q], Node::Binary(BinaryOp::Div, g.inputs()[0], g.inputs()[1]));
            }
            other => panic!("unexpected node {:?}", other),
        },
        other => panic!("unexpected node {:?}", other),
    }
}

#[test]
fn prune_keeps_inputs_and_order() {
    let nodes = vec![
        Node::Param(0),
        Node::Constant(c(5.0)),
        Node::Param(1),
        Node::Unary(UnaryOp::Sin, 2),
        Node::Unary(UnaryOp::Cos, 0),
    ];
    let f = Function::from_parts(nodes, vec![0, 2], vec![3]);
    let g = prune(&f);
    assert_eq!(
        g.nodes(),
        &[Node::Param(0), Node::Param(1), Node::Unary(UnaryOp::Sin, 1)]
    );
    assert_eq!(g.inputs(), &[0, 1]);
    assert_eq!(g.outputs(), &[2]);
}

#[test]
fn prune_twice_changes_nothing() {
    let nodes = vec![
        Node::Param(0),
        Node::Constant(c(5.0)),
        Node::Param(1),
        Node::Unary(UnaryOp::Sin, 2),
        Node::Unary(UnaryOp::Cos, 0),
    ];
    let f = Function::from_parts(nodes, vec![0, 2], vec![3]);
    let g = prune(&f);
    let h = prune(&g);
    assert_eq!(h.nodes(), g.nodes());
    assert_eq!(h.inputs(), g.inputs());
    assert_eq!(h.outputs(), g.outputs());
}

#[test]
fn reverse_of_product_gives_the_other_factor() {
    // d(x * y)/dx = y and d(x * y)/dy = x, each weighted by 2.
    let f = product();
    let g = reverse(&f, &[vec![c(2.0)]], &F64);
    assert_eq!(g.outputs().len(), 2);
    let nodes = g.nodes();
    let (x, y) = (g.inputs()[0], g.inputs()[1]);
    match nodes[g.outputs()[0]] {
        Node::Binary(BinaryOp::Mul, a, b) => {
            assert_eq!(nodes[a], Node::Constant(c(2.0)));
            assert_eq!(b, y);
        }
        other => panic!("unexpected {:?}", other),
    }
    match nodes[g.outputs()[1]] {
        Node::Binary(BinaryOp::Mul, a, b) => {
            assert_eq!(nodes[a], Node::Constant(c(2.0)));
            assert_eq!(b, x);
        }
        other => panic!("unexpected {:?}", other),
    }
}

#[test]
fn forward_folds_a_constant_factor_through_the_folder() {
    // d(3 * x)/dx along the unit seed is the folded constant 3.
    let nodes = vec![
        Node::Param(0),
        Node::Constant(c(3.0)),
        Node::Binary(BinaryOp::Mul, 1, 0),
    ];
    let f = Function::from_parts(nodes, vec![0], vec![2]);
    let g = forward(&f, &[vec![c(1.0)]], &F64);
    assert_eq!(g.outputs().len(), 1);
    assert_eq!(g.nodes()[g.outputs()[0]], Node::Constant(c(3.0)));
}
