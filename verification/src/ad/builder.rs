//! Building functions value by value, and the forward-mode sweep that emits
//! the tangent program of a function into a builder.
use vstd::prelude::*;

use super::{in_order, lemma_nnz_before_mono, nnz_before, out_of_order, BinaryOp, Function, Output, UnaryOp, Value, ValueData};
use crate::bits::Bits64;
use crate::sparsity::Sparsity;

verus! {

/// Bit pattern of the constant `2.0`.
pub const TWO_BITS: u64 = 0x4000_0000_0000_0000;

/// What a value computes, as a tree over the input nonzeros.
pub enum Sym {
    Input(u32, u32),
    Const(Bits64),
    Unary(UnaryOp, Box<Sym>),
    Binary(BinaryOp, Box<Sym>, Box<Sym>),
}

pub open spec fn zero_sym() -> Sym {
    Sym::Const(Bits64(0))
}

pub open spec fn un(op: UnaryOp, a: Sym) -> Sym {
    Sym::Unary(op, Box::new(a))
}

pub open spec fn bin(op: BinaryOp, a: Sym, b: Sym) -> Sym {
    Sym::Binary(op, Box::new(a), Box::new(b))
}

/// What value `i` of `tape` computes; a value that reads a later one
/// computes zero.
pub open spec fn value_sym(tape: Seq<ValueData>, i: int) -> Sym
    decreases i,
{
    if i < 0 || i >= tape.len() {
        zero_sym()
    } else {
        match tape[i] {
            ValueData::Input { input, nonzero } => Sym::Input(input, nonzero),
            ValueData::Constant(c) => Sym::Const(c),
            ValueData::Unary(op, a) => if a < i {
                un(op, value_sym(tape, a as int))
            } else {
                zero_sym()
            },
            ValueData::Binary(op, l, r) => if l < i && r < i {
                bin(op, value_sym(tape, l as int), value_sym(tape, r as int))
            } else {
                zero_sym()
            },
        }
    }
}

/// What an optional value computes.
pub open spec fn opt_sym(tape: Seq<ValueData>, o: Option<Value>) -> Option<Sym> {
    match o {
        Some(v) => Some(value_sym(tape, v as int)),
        None => None,
    }
}

/// An optional value is on a tape of length `len`.
pub open spec fn opt_in(o: Option<Value>, len: nat) -> bool {
    match o {
        Some(v) => v < len,
        None => true,
    }
}

/// `b` is `a` with values appended.
pub open spec fn extends(a: Seq<ValueData>, b: Seq<ValueData>) -> bool {
    &&& a.len() <= b.len()
    &&& forall|j: int| 0 <= j < a.len() ==> #[trigger] b[j] == a[j]
}

proof fn lemma_value_sym_prefix(a: Seq<ValueData>, b: Seq<ValueData>, i: int)
    requires
        extends(a, b),
        0 <= i < a.len(),
    ensures
        value_sym(b, i) == value_sym(a, i),
    decreases i,
{
    assert(b[i] == a[i]);
    match a[i] {
        ValueData::Unary(_, x) => {
            if x < i {
                lemma_value_sym_prefix(a, b, x as int);
            }
        },
        ValueData::Binary(_, l, r) => {
            if l < i && r < i {
                lemma_value_sym_prefix(a, b, l as int);
                lemma_value_sym_prefix(a, b, r as int);
            }
        },
        _ => {},
    }
}

/// Appending values leaves what earlier values compute unchanged.
proof fn lemma_extends(a: Seq<ValueData>, b: Seq<ValueData>)
    requires
        extends(a, b),
    ensures
        forall|j: int| 0 <= j < a.len() ==> #[trigger] value_sym(b, j) == value_sym(a, j),
{
    assert forall|j: int| 0 <= j < a.len() implies #[trigger] value_sym(b, j) == value_sym(a, j) by {
        lemma_value_sym_prefix(a, b, j);
    }
}

proof fn lemma_extends_trans(a: Seq<ValueData>, b: Seq<ValueData>, c: Seq<ValueData>)
    requires
        extends(a, b),
        extends(b, c),
    ensures
        extends(a, c),
{
    assert forall|j: int| 0 <= j < a.len() implies #[trigger] c[j] == a[j] by {
        assert(b[j] == a[j]);
    }
}

/// The effect of appending `d` to a tape: `new` is `old` with `d` at the
/// end, and `r` names it.
pub open spec fn pushed(old: Seq<ValueData>, new: Seq<ValueData>, d: ValueData, r: Value) -> bool {
    &&& new == old.push(d)
    &&& r == old.len()
    &&& extends(old, new)
    &&& value_sym(new, r as int) == match d {
        ValueData::Input { input, nonzero } => Sym::Input(input, nonzero),
        ValueData::Constant(c) => Sym::Const(c),
        ValueData::Unary(op, a) => if a < r {
            un(op, value_sym(old, a as int))
        } else {
            zero_sym()
        },
        ValueData::Binary(op, l, x) => if l < r && x < r {
            bin(op, value_sym(old, l as int), value_sym(old, x as int))
        } else {
            zero_sym()
        },
    }
    &&& (in_order(old) && !out_of_order(d, r as int) ==> in_order(new))
}

proof fn lemma_push(old: Seq<ValueData>, d: ValueData)
    requires
        old.len() <= usize::MAX,
    ensures
        pushed(old, old.push(d), d, old.len() as Value),
{
    let new = old.push(d);
    let r = old.len() as int;
    assert(extends(old, new));
    lemma_extends(old, new);
    match d {
        ValueData::Unary(_, a) => {
            if a < r {
                assert(value_sym(new, a as int) == value_sym(old, a as int));
            }
        },
        ValueData::Binary(_, l, x) => {
            if l < r && x < r {
                assert(value_sym(new, l as int) == value_sym(old, l as int));
                assert(value_sym(new, x as int) == value_sym(old, x as int));
            }
        },
        _ => {},
    }
    if in_order(old) && !out_of_order(d, r) {
        assert forall|i: int| 0 <= i < new.len() implies !out_of_order(#[trigger] new[i], i) by {
            if i < r {
                assert(new[i] == old[i]);
            }
        }
    }
}

/// Builds a function value by value.
struct FunctionBuilder {
    sparsity_in: Vec<Sparsity>,
    tape: Vec<ValueData>,
}

impl FunctionBuilder {
    fn new(sparsity_in: Vec<Sparsity>) -> (b: Self)
        ensures
            b.sparsity_in@ == sparsity_in@,
            b.tape@ == Seq::<ValueData>::empty(),
    {
        FunctionBuilder { sparsity_in, tape: Vec::new() }
    }

    fn input(&mut self, input: u32, nonzero: u32) -> (r: Value)
        ensures
            final(self).sparsity_in@ == old(self).sparsity_in@,
            pushed(old(self).tape@, final(self).tape@, ValueData::Input { input, nonzero }, r),
    {
        let r = self.tape.len();
        proof {
            lemma_push(self.tape@, ValueData::Input { input, nonzero });
        }
        self.tape.push(ValueData::Input { input, nonzero });
        r
    }

    fn constant(&mut self, x: Bits64) -> (r: Value)
        ensures
            final(self).sparsity_in@ == old(self).sparsity_in@,
            pushed(old(self).tape@, final(self).tape@, ValueData::Constant(x), r),
    {
        let r = self.tape.len();
        proof {
            lemma_push(self.tape@, ValueData::Constant(x));
        }
        self.tape.push(ValueData::Constant(x));
        r
    }

    fn unary(&mut self, op: UnaryOp, operand: Value) -> (r: Value)
        ensures
            final(self).sparsity_in@ == old(self).sparsity_in@,
            pushed(old(self).tape@, final(self).tape@, ValueData::Unary(op, operand), r),
    {
        let r = self.tape.len();
        proof {
            lemma_push(self.tape@, ValueData::Unary(op, operand));
        }
        self.tape.push(ValueData::Unary(op, operand));
        r
    }

    fn binary(&mut self, op: BinaryOp, lhs: Value, rhs: Value) -> (r: Value)
        ensures
            final(self).sparsity_in@ == old(self).sparsity_in@,
            pushed(old(self).tape@, final(self).tape@, ValueData::Binary(op, lhs, rhs), r),
    {
        let r = self.tape.len();
        proof {
            lemma_push(self.tape@, ValueData::Binary(op, lhs, rhs));
        }
        self.tape.push(ValueData::Binary(op, lhs, rhs));
        r
    }

    fn add(&mut self, lhs: Value, rhs: Value) -> (r: Value)
        ensures
            final(self).sparsity_in@ == old(self).sparsity_in@,
            pushed(old(self).tape@, final(self).tape@, ValueData::Binary(BinaryOp::Add, lhs, rhs), r),
    {
        self.binary(BinaryOp::Add, lhs, rhs)
    }

    fn sub(&mut self, lhs: Value, rhs: Value) -> (r: Value)
        ensures
            final(self).sparsity_in@ == old(self).sparsity_in@,
            pushed(old(self).tape@, final(self).tape@, ValueData::Binary(BinaryOp::Sub, lhs, rhs), r),
    {
        self.binary(BinaryOp::Sub, lhs, rhs)
    }

    fn mul(&mut self, lhs: Value, rhs: Value) -> (r: Value)
        ensures
            final(self).sparsity_in@ == old(self).sparsity_in@,
            pushed(old(self).tape@, final(self).tape@, ValueData::Binary(BinaryOp::Mul, lhs, rhs), r),
    {
        self.binary(BinaryOp::Mul, lhs, rhs)
    }

    fn div(&mut self, lhs: Value, rhs: Value) -> (r: Value)
        ensures
            final(self).sparsity_in@ == old(self).sparsity_in@,
            pushed(old(self).tape@, final(self).tape@, ValueData::Binary(BinaryOp::Div, lhs, rhs), r),
    {
        self.binary(BinaryOp::Div, lhs, rhs)
    }

    fn neg(&mut self, v: Value) -> (r: Value)
        ensures
            final(self).sparsity_in@ == old(self).sparsity_in@,
            pushed(old(self).tape@, final(self).tape@, ValueData::Unary(UnaryOp::Neg, v), r),
    {
        self.unary(UnaryOp::Neg, v)
    }

    fn sin(&mut self, v: Value) -> (r: Value)
        ensures
            final(self).sparsity_in@ == old(self).sparsity_in@,
            pushed(old(self).tape@, final(self).tape@, ValueData::Unary(UnaryOp::Sin, v), r),
    {
        self.unary(UnaryOp::Sin, v)
    }

    fn cos(&mut self, v: Value) -> (r: Value)
        ensures
            final(self).sparsity_in@ == old(self).sparsity_in@,
            pushed(old(self).tape@, final(self).tape@, ValueData::Unary(UnaryOp::Cos, v), r),
    {
        self.unary(UnaryOp::Cos, v)
    }
}

/// `s` times the derivative of a unary operation with operand `x` and
/// result `y`.
pub open spec fn unary_chain(op: UnaryOp, x: Sym, y: Sym, s: Sym) -> Sym {
    match op {
        UnaryOp::Neg => un(UnaryOp::Neg, s),
        UnaryOp::Sin => bin(BinaryOp::Mul, s, un(UnaryOp::Cos, x)),
        UnaryOp::Cos => bin(BinaryOp::Mul, s, un(UnaryOp::Neg, un(UnaryOp::Sin, x))),
        // d sqrt(x) = dx / (2 y)
        UnaryOp::Sqrt => bin(BinaryOp::Div, s, bin(BinaryOp::Mul, Sym::Const(Bits64(TWO_BITS)), y)),
        // d exp(x) = dx y
        UnaryOp::Exp => bin(BinaryOp::Mul, s, y),
        UnaryOp::Log => bin(BinaryOp::Div, s, x),
    }
}

/// `s` times the derivative of `v = l op r` with respect to `l`.
pub open spec fn lhs_chain(op: BinaryOp, l: Sym, r: Sym, v: Sym, s: Sym) -> Sym {
    match op {
        BinaryOp::Add => s,
        BinaryOp::Sub => s,
        BinaryOp::Mul => bin(BinaryOp::Mul, s, r),
        BinaryOp::Div => bin(BinaryOp::Div, s, r),
    }
}

/// `s` times the derivative of `v = l op r` with respect to `r`.
pub open spec fn rhs_chain(op: BinaryOp, l: Sym, r: Sym, v: Sym, s: Sym) -> Sym {
    match op {
        BinaryOp::Add => s,
        BinaryOp::Sub => un(UnaryOp::Neg, s),
        BinaryOp::Mul => bin(BinaryOp::Mul, s, l),
        // d(l / r)/dr = -(v / r)
        BinaryOp::Div => un(UnaryOp::Neg, bin(BinaryOp::Div, bin(BinaryOp::Mul, s, v), r)),
    }
}

/// Sum of two optional terms, `None` standing for a structural zero.
pub open spec fn add_opt_sym(a: Option<Sym>, b: Option<Sym>) -> Option<Sym> {
    match (a, b) {
        (Some(x), Some(y)) => Some(bin(BinaryOp::Add, x, y)),
        (None, Some(y)) => Some(y),
        (Some(x), None) => Some(x),
        (None, None) => None,
    }
}

/// The tangent of value `i` of `tape` by the chain rule, where value `j`
/// stands for `prim[j]` and nonzero `k` of input `q` has tangent
/// `seeds[q][k]`; `None` is a structural zero.
pub open spec fn tangent(tape: Seq<ValueData>, i: int, prim: Seq<Sym>, seeds: Seq<Seq<Option<Sym>>>) -> Option<Sym>
    decreases i,
{
    if i < 0 || i >= tape.len() {
        None
    } else {
        match tape[i] {
            ValueData::Input { input, nonzero } => seeds[input as int][nonzero as int],
            ValueData::Constant(_) => None,
            ValueData::Unary(op, x) => if x < i {
                match tangent(tape, x as int, prim, seeds) {
                    Some(dx) => Some(unary_chain(op, prim[x as int], prim[i], dx)),
                    None => None,
                }
            } else {
                None
            },
            ValueData::Binary(op, l, r) => if l < i && r < i {
                add_opt_sym(
                    match tangent(tape, l as int, prim, seeds) {
                        Some(s) => Some(lhs_chain(op, prim[l as int], prim[r as int], prim[i], s)),
                        None => None,
                    },
                    match tangent(tape, r as int, prim, seeds) {
                        Some(s) => Some(rhs_chain(op, prim[l as int], prim[r as int], prim[i], s)),
                        None => None,
                    },
                )
            } else {
                None
            },
        }
    }
}

/// The builder grew: same inputs, old values kept, and what they compute
/// unchanged; a tape in order stays in order.
spec fn grew(old: FunctionBuilder, new: FunctionBuilder) -> bool {
    &&& new.sparsity_in@ == old.sparsity_in@
    &&& extends(old.tape@, new.tape@)
    &&& forall|j: int| 0 <= j < old.tape@.len() ==> #[trigger] value_sym(new.tape@, j) == value_sym(old.tape@, j)
    &&& (in_order(old.tape@) ==> in_order(new.tape@))
}

proof fn lemma_grew_trans(a: FunctionBuilder, b: FunctionBuilder, c: FunctionBuilder)
    requires
        grew(a, b),
        grew(b, c),
    ensures
        grew(a, c),
{
    lemma_extends_trans(a.tape@, b.tape@, c.tape@);
    assert forall|j: int| 0 <= j < a.tape@.len() implies #[trigger] value_sym(c.tape@, j) == value_sym(a.tape@, j) by {
        assert(value_sym(c.tape@, j) == value_sym(b.tape@, j));
    }
}

proof fn lemma_pushed_grew(a: FunctionBuilder, b: FunctionBuilder, d: ValueData, r: Value)
    requires
        pushed(a.tape@, b.tape@, d, r),
        b.sparsity_in@ == a.sparsity_in@,
        !out_of_order(d, r as int),
    ensures
        grew(a, b),
{
    lemma_extends(a.tape@, b.tape@);
}

/// Emits `s * d op(x)/dx` for a unary operation with operand `x` and
/// result `y`.
fn chain_unary(b: &mut FunctionBuilder, op: UnaryOp, x: Value, y: Value, s: Value) -> (r: Value)
    requires
        x < old(b).tape@.len(),
        y < old(b).tape@.len(),
        s < old(b).tape@.len(),
    ensures
        grew(*old(b), *final(b)),
        r < final(b).tape@.len(),
        value_sym(final(b).tape@, r as int) == unary_chain(
            op,
            value_sym(old(b).tape@, x as int),
            value_sym(old(b).tape@, y as int),
            value_sym(old(b).tape@, s as int),
        ),
{
    let ghost b0 = *b;
    match op {
        UnaryOp::Neg => {
            let r = b.neg(s);
            proof {
                lemma_pushed_grew(b0, *b, ValueData::Unary(UnaryOp::Neg, s), r);
            }
            r
        },
        UnaryOp::Sin => {
            let cx = b.cos(x);
            let ghost b1 = *b;
            proof {
                lemma_pushed_grew(b0, b1, ValueData::Unary(UnaryOp::Cos, x), cx);
            }
            let r = b.mul(s, cx);
            proof {
                lemma_pushed_grew(b1, *b, ValueData::Binary(BinaryOp::Mul, s, cx), r);
                lemma_grew_trans(b0, b1, *b);
            }
            r
        },
        UnaryOp::Cos => {
            let sx = b.sin(x);
            let ghost b1 = *b;
            proof {
                lemma_pushed_grew(b0, b1, ValueData::Unary(UnaryOp::Sin, x), sx);
            }
            let ns = b.neg(sx);
            let ghost b2 = *b;
            proof {
                lemma_pushed_grew(b1, b2, ValueData::Unary(UnaryOp::Neg, sx), ns);
                lemma_grew_trans(b0, b1, b2);
            }
            let r = b.mul(s, ns);
            proof {
                lemma_pushed_grew(b2, *b, ValueData::Binary(BinaryOp::Mul, s, ns), r);
                lemma_grew_trans(b0, b2, *b);
            }
            r
        },
        UnaryOp::Sqrt => {
            let two = b.constant(Bits64(TWO_BITS));
            let ghost b1 = *b;
            proof {
                lemma_pushed_grew(b0, b1, ValueData::Constant(Bits64(TWO_BITS)), two);
            }
            let ty = b.mul(two, y);
            let ghost b2 = *b;
            proof {
                lemma_pushed_grew(b1, b2, ValueData::Binary(BinaryOp::Mul, two, y), ty);
                lemma_grew_trans(b0, b1, b2);
            }
            let r = b.div(s, ty);
            proof {
                lemma_pushed_grew(b2, *b, ValueData::Binary(BinaryOp::Div, s, ty), r);
                lemma_grew_trans(b0, b2, *b);
            }
            r
        },
        UnaryOp::Exp => {
            let r = b.mul(s, y);
            proof {
                lemma_pushed_grew(b0, *b, ValueData::Binary(BinaryOp::Mul, s, y), r);
            }
            r
        },
        UnaryOp::Log => {
            let r = b.div(s, x);
            proof {
                lemma_pushed_grew(b0, *b, ValueData::Binary(BinaryOp::Div, s, x), r);
            }
            r
        },
    }
}

/// Emits `s * d(l op r)/dl`, where `v = l op r`.
fn chain_binary_lhs(b: &mut FunctionBuilder, op: BinaryOp, l: Value, r: Value, v: Value, s: Value) -> (t: Value)
    requires
        l < old(b).tape@.len(),
        r < old(b).tape@.len(),
        v < old(b).tape@.len(),
        s < old(b).tape@.len(),
    ensures
        grew(*old(b), *final(b)),
        t < final(b).tape@.len(),
        value_sym(final(b).tape@, t as int) == lhs_chain(
            op,
            value_sym(old(b).tape@, l as int),
            value_sym(old(b).tape@, r as int),
            value_sym(old(b).tape@, v as int),
            value_sym(old(b).tape@, s as int),
        ),
{
    let ghost b0 = *b;
    match op {
        BinaryOp::Add => {
            proof {
                lemma_extends(b0.tape@, b0.tape@);
            }
            s
        },
        BinaryOp::Sub => {
            proof {
                lemma_extends(b0.tape@, b0.tape@);
            }
            s
        },
        BinaryOp::Mul => {
            let t = b.mul(s, r);
            proof {
                lemma_pushed_grew(b0, *b, ValueData::Binary(BinaryOp::Mul, s, r), t);
            }
            t
        },
        BinaryOp::Div => {
            let t = b.div(s, r);
            proof {
                lemma_pushed_grew(b0, *b, ValueData::Binary(BinaryOp::Div, s, r), t);
            }
            t
        },
    }
}

/// Emits `s * d(l op r)/dr`, where `v = l op r`.
fn chain_binary_rhs(b: &mut FunctionBuilder, op: BinaryOp, l: Value, r: Value, v: Value, s: Value) -> (t: Value)
    requires
        l < old(b).tape@.len(),
        r < old(b).tape@.len(),
        v < old(b).tape@.len(),
        s < old(b).tape@.len(),
    ensures
        grew(*old(b), *final(b)),
        t < final(b).tape@.len(),
        value_sym(final(b).tape@, t as int) == rhs_chain(
            op,
            value_sym(old(b).tape@, l as int),
            value_sym(old(b).tape@, r as int),
            value_sym(old(b).tape@, v as int),
            value_sym(old(b).tape@, s as int),
        ),
{
    let ghost b0 = *b;
    match op {
        BinaryOp::Add => {
            proof {
                lemma_extends(b0.tape@, b0.tape@);
            }
            s
        },
        BinaryOp::Sub => {
            let t = b.neg(s);
            proof {
                lemma_pushed_grew(b0, *b, ValueData::Unary(UnaryOp::Neg, s), t);
            }
            t
        },
        BinaryOp::Mul => {
            let t = b.mul(s, l);
            proof {
                lemma_pushed_grew(b0, *b, ValueData::Binary(BinaryOp::Mul, s, l), t);
            }
            t
        },
        BinaryOp::Div => {
            let m = b.mul(s, v);
            let ghost b1 = *b;
            proof {
                lemma_pushed_grew(b0, b1, ValueData::Binary(BinaryOp::Mul, s, v), m);
            }
            let d = b.div(m, r);
            let ghost b2 = *b;
            proof {
                lemma_pushed_grew(b1, b2, ValueData::Binary(BinaryOp::Div, m, r), d);
                lemma_grew_trans(b0, b1, b2);
            }
            let t = b.neg(d);
            proof {
                lemma_pushed_grew(b2, *b, ValueData::Unary(UnaryOp::Neg, d), t);
                lemma_grew_trans(b0, b2, *b);
            }
            t
        },
    }
}

impl FunctionBuilder {
    /// The sum of two optional values, `None` standing for zero.
    fn add_opt(&mut self, lhs: Option<Value>, rhs: Option<Value>) -> (r: Option<Value>)
        requires
            opt_in(lhs, old(self).tape@.len()),
            opt_in(rhs, old(self).tape@.len()),
        ensures
            grew(*old(self), *final(self)),
            opt_in(r, final(self).tape@.len()),
            opt_sym(final(self).tape@, r) == add_opt_sym(opt_sym(old(self).tape@, lhs), opt_sym(old(self).tape@, rhs)),
    {
        let ghost b0 = *self;
        proof {
            lemma_extends(b0.tape@, b0.tape@);
        }
        match (lhs, rhs) {
            (Some(l), Some(r)) => {
                let v = self.add(l, r);
                proof {
                    lemma_pushed_grew(b0, *self, ValueData::Binary(BinaryOp::Add, l, r), v);
                }
                Some(v)
            },
            (None, Some(r)) => Some(r),
            (Some(l), None) => Some(l),
            (None, None) => None,
        }
    }
}

/// The tangents of the seeds, as terms over the builder's values.
pub open spec fn seed_syms(tape: Seq<ValueData>, seeds: Seq<Vec<Option<Value>>>) -> Seq<Seq<Option<Sym>>> {
    Seq::new(seeds.len(), |q: int| Seq::new(seeds[q]@.len(), |k: int| opt_sym(tape, seeds[q]@[k])))
}

/// What the value each entry of `map` names computes.
pub open spec fn mapped_syms(tape: Seq<ValueData>, map: Seq<Value>, n: nat) -> Seq<Sym> {
    Seq::new(n, |j: int| value_sym(tape, map[j] as int))
}

impl Function {
    /// Emits into `b` the tangent program of this function: `map` gives the
    /// builder value standing for each value of the tape, `seeds` the
    /// tangent of each input nonzero (`None` for zero). Returns the tangent
    /// of each output nonzero, `None` where it is structurally zero: the
    /// chain rule applied along the tape.
    fn forward(&self, b: &mut FunctionBuilder, map: &Vec<Value>, seeds: &[Vec<Option<Value>>]) -> (t: Vec<Vec<Option<Value>>>)
        requires
            seeds@.len() == self.spec_sparsity_in().len(),
            forall|q: int| 0 <= q < seeds@.len() ==> (#[trigger] seeds@[q])@.len() == self.spec_sparsity_in()[q].spec_nnz(),
            forall|v: int|
                0 <= v < self.spec_tape().len() ==> (#[trigger] self.spec_tape()[v] matches ValueData::Input { input, nonzero }
                    ==> input < seeds@.len() && nonzero < seeds@[input as int]@.len()),
            self.spec_tape().len() <= map@.len(),
            forall|j: int| 0 <= j < map@.len() ==> #[trigger] map@[j] < old(b).tape@.len(),
            forall|q: int, k: int|
                0 <= q < seeds@.len() && 0 <= k < seeds@[q]@.len() ==> opt_in(#[trigger] seeds@[q]@[k], old(b).tape@.len()),
            forall|o: int, k: int|
                0 <= o < self.spec_outputs().len() && 0 <= k < self.spec_outputs()[o].values@.len()
                    ==> #[trigger] self.spec_outputs()[o].values@[k] < self.spec_tape().len(),
        ensures
            grew(*old(b), *final(b)),
            t@.len() == self.spec_outputs().len(),
            forall|o: int| 0 <= o < t@.len() ==> (#[trigger] t@[o])@.len() == self.spec_outputs()[o].values@.len(),
            forall|o: int, k: int|
                0 <= o < t@.len() && 0 <= k < t@[o]@.len() ==> opt_in(#[trigger] t@[o]@[k], final(b).tape@.len())
                    && opt_sym(final(b).tape@, t@[o]@[k]) == tangent(
                    self.spec_tape(),
                    self.spec_outputs()[o].values@[k] as int,
                    mapped_syms(old(b).tape@, map@, self.spec_tape().len()),
                    seed_syms(old(b).tape@, seeds@),
                ),
    {
        proof {
            use_type_invariant(self);
        }
        let ghost b0 = *b;
        let ghost f = self.tape@;
        let ghost prim = mapped_syms(b0.tape@, map@, f.len());
        let ghost sd = seed_syms(b0.tape@, seeds@);
        proof {
            lemma_extends(b0.tape@, b0.tape@);
        }
        let mut tangent: Vec<Option<Value>> = Vec::new();
        let mut old: usize = 0;
        while old < self.tape.len()
            invariant
                in_order(f),
                f == self.tape@,
                prim == mapped_syms(b0.tape@, map@, f.len()),
                sd == seed_syms(b0.tape@, seeds@),
                forall|v: int|
                    0 <= v < f.len() ==> (#[trigger] f[v] matches ValueData::Input { input, nonzero } ==> input
                        < seeds@.len() && nonzero < seeds@[input as int]@.len()),
                f.len() <= map@.len(),
                forall|j: int| 0 <= j < map@.len() ==> #[trigger] map@[j] < b0.tape@.len(),
                forall|q: int, k: int|
                    0 <= q < seeds@.len() && 0 <= k < seeds@[q]@.len() ==> opt_in(#[trigger] seeds@[q]@[k], b0.tape@.len()),
                grew(b0, *b),
                old <= f.len(),
                tangent@.len() == old,
                forall|j: int|
                    0 <= j < old ==> opt_in(#[trigger] tangent@[j], b.tape@.len()) && opt_sym(b.tape@, tangent@[j])
                        == super::builder::tangent(f, j, prim, sd),
            decreases f.len() - old,
        {
            let ghost b1 = *b;
            assert(!out_of_order(f[old as int], old as int));
            let t = match self.tape[old] {
                ValueData::Input { input, nonzero } => {
                    assert(f[old as int] matches ValueData::Input { input, nonzero });
                    let t = seeds[input as usize][nonzero as usize];
                    proof {
                        assert(sd[input as int][nonzero as int] == opt_sym(b0.tape@, t));
                        if let Some(v) = t {
                            assert(value_sym(b.tape@, v as int) == value_sym(b0.tape@, v as int));
                        }
                        lemma_extends(b.tape@, b.tape@);
                    }
                    t
                },
                ValueData::Constant(_) => {
                    proof {
                        lemma_extends(b.tape@, b.tape@);
                    }
                    None
                },
                ValueData::Unary(op, x) => {
                    match tangent[x] {
                        Some(dx) => {
                            let (mx, mo) = (map[x], map[old]);
                            let r = chain_unary(b, op, mx, mo, dx);
                            proof {
                                assert(value_sym(b1.tape@, mx as int) == prim[x as int]);
                                assert(value_sym(b1.tape@, mo as int) == prim[old as int]);
                            }
                            Some(r)
                        },
                        None => {
                            proof {
                                lemma_extends(b.tape@, b.tape@);
                            }
                            None
                        },
                    }
                },
                ValueData::Binary(op, lhs, rhs) => {
                    let (l, r, v) = (map[lhs], map[rhs], map[old]);
                    proof {
                        assert(value_sym(b1.tape@, l as int) == prim[lhs as int]);
                        assert(value_sym(b1.tape@, r as int) == prim[rhs as int]);
                        assert(value_sym(b1.tape@, v as int) == prim[old as int]);
                    }
                    let l_dot = match tangent[lhs] {
                        Some(s) => Some(chain_binary_lhs(b, op, l, r, v, s)),
                        None => {
                            proof {
                                lemma_extends(b.tape@, b.tape@);
                            }
                            None
                        },
                    };
                    let ghost b2 = *b;
                    proof {
                        if let Some(s) = tangent@[rhs as int] {
                            assert(value_sym(b2.tape@, s as int) == value_sym(b1.tape@, s as int));
                        }
                        assert(value_sym(b2.tape@, l as int) == value_sym(b1.tape@, l as int));
                        assert(value_sym(b2.tape@, r as int) == value_sym(b1.tape@, r as int));
                        assert(value_sym(b2.tape@, v as int) == value_sym(b1.tape@, v as int));
                    }
                    let r_dot = match tangent[rhs] {
                        Some(s) => Some(chain_binary_rhs(b, op, l, r, v, s)),
                        None => {
                            proof {
                                lemma_extends(b.tape@, b.tape@);
                            }
                            None
                        },
                    };
                    let ghost b3 = *b;
                    proof {
                        lemma_grew_trans(b1, b2, b3);
                        if let Some(x) = l_dot {
                            assert(value_sym(b3.tape@, x as int) == value_sym(b2.tape@, x as int));
                        }
                    }
                    let res = b.add_opt(l_dot, r_dot);
                    proof {
                        lemma_grew_trans(b1, b3, *b);
                    }
                    res
                },
            };
            proof {
                lemma_grew_trans(b0, b1, *b);
                assert forall|j: int| 0 <= j < old implies opt_in(#[trigger] tangent@[j], b.tape@.len()) && opt_sym(
                    b.tape@,
                    tangent@[j],
                ) == super::builder::tangent(f, j, prim, sd) by {
                    if let Some(x) = tangent@[j] {
                        assert(value_sym(b.tape@, x as int) == value_sym(b1.tape@, x as int));
                    }
                }
            }
            tangent.push(t);
            old += 1;
        }
        let mut res: Vec<Vec<Option<Value>>> = Vec::new();
        let mut o: usize = 0;
        while o < self.outputs.len()
            invariant
                f == self.tape@,
                tangent@.len() == f.len(),
                o <= self.outputs@.len(),
                res@.len() == o,
                forall|o2: int, k: int|
                    0 <= o2 < self.outputs@.len() && 0 <= k < self.outputs@[o2].values@.len()
                        ==> #[trigger] self.outputs@[o2].values@[k] < f.len(),
                forall|o2: int| 0 <= o2 < o ==> (#[trigger] res@[o2])@.len() == self.outputs@[o2].values@.len(),
                forall|o2: int, k: int|
                    0 <= o2 < o && 0 <= k < res@[o2]@.len() ==> #[trigger] res@[o2]@[k]
                        == tangent@[self.outputs@[o2].values@[k] as int],
            decreases self.outputs@.len() - o,
        {
            let values = &self.outputs[o].values;
            let mut row: Vec<Option<Value>> = Vec::new();
            let mut k: usize = 0;
            while k < values.len()
                invariant
                    tangent@.len() == f.len(),
                    k <= values@.len(),
                    row@.len() == k,
                    forall|k2: int| 0 <= k2 < values@.len() ==> #[trigger] values@[k2] < f.len(),
                    forall|k2: int| 0 <= k2 < k ==> #[trigger] row@[k2] == tangent@[values@[k2] as int],
                decreases values@.len() - k,
            {
                row.push(tangent[values[k]]);
                k += 1;
            }
            res.push(row);
            o += 1;
        }
        res
    }
}

impl FunctionBuilder {
    /// Copies the tape of `f` onto the builder; returns, for each value of
    /// `f`, the builder value that computes the same.
    fn replay(&mut self, f: &Function) -> (map: Vec<Value>)
        ensures
            grew(*old(self), *final(self)),
            final(self).tape@.len() == old(self).tape@.len() + f.spec_tape().len(),
            map@.len() == f.spec_tape().len(),
            forall|j: int|
                0 <= j < map@.len() ==> #[trigger] map@[j] == old(self).tape@.len() + j && value_sym(
                    final(self).tape@,
                    map@[j] as int,
                ) == value_sym(f.spec_tape(), j),
    {
        proof {
            use_type_invariant(f);
        }
        let ghost b0 = *self;
        let ghost ft = f.tape@;
        proof {
            lemma_extends(b0.tape@, b0.tape@);
        }
        let mut map: Vec<Value> = Vec::new();
        let mut i: usize = 0;
        while i < f.tape.len()
            invariant
                in_order(ft),
                ft == f.tape@,
                grew(b0, *self),
                i <= ft.len(),
                map@.len() == i,
                self.tape@.len() == b0.tape@.len() + i,
                forall|j: int|
                    0 <= j < i ==> #[trigger] map@[j] == b0.tape@.len() + j && value_sym(self.tape@, map@[j] as int)
                        == value_sym(ft, j),
            decreases ft.len() - i,
        {
            let ghost b1 = *self;
            assert(!out_of_order(ft[i as int], i as int));
            let d = match f.tape[i] {
                ValueData::Input { input, nonzero } => ValueData::Input { input, nonzero },
                ValueData::Constant(x) => ValueData::Constant(x),
                ValueData::Unary(op, operand) => ValueData::Unary(op, map[operand]),
                ValueData::Binary(op, lhs, rhs) => ValueData::Binary(op, map[lhs], map[rhs]),
            };
            let v = match d {
                ValueData::Input { input, nonzero } => self.input(input, nonzero),
                ValueData::Constant(x) => self.constant(x),
                ValueData::Unary(op, a) => self.unary(op, a),
                ValueData::Binary(op, l, r) => self.binary(op, l, r),
            };
            proof {
                lemma_pushed_grew(b1, *self, d, v);
                lemma_grew_trans(b0, b1, *self);
            }
            map.push(v);
            i += 1;
        }
        map
    }

    /// An output of the given pattern whose nonzeros are `values`, a new
    /// zero constant standing for each `None`.
    fn gather(&mut self, sparsity: Sparsity, values: Vec<Option<Value>>) -> (out: Output)
        requires
            values@.len() == sparsity.spec_nnz(),
        ensures
            grew(*old(self), *final(self)),
            out.sparsity == sparsity,
            out.values@.len() == values@.len(),
            forall|p: int|
                old(self).tape@.len() <= p < final(self).tape@.len() ==> #[trigger] final(self).tape@[p]
                    == ValueData::Constant(Bits64(0)),
            forall|k: int|
                0 <= k < values@.len() ==> match #[trigger] values@[k] {
                    Some(v) => out.values@[k] == v,
                    None => old(self).tape@.len() <= out.values@[k] < final(self).tape@.len(),
                },
    {
        let ghost b0 = *self;
        proof {
            lemma_extends(b0.tape@, b0.tape@);
        }
        let mut out: Vec<Value> = Vec::new();
        let mut k: usize = 0;
        while k < values.len()
            invariant
                grew(b0, *self),
                k <= values@.len(),
                out@.len() == k,
                forall|p: int|
                    b0.tape@.len() <= p < self.tape@.len() ==> #[trigger] self.tape@[p] == ValueData::Constant(Bits64(0)),
                forall|k2: int|
                    0 <= k2 < k ==> match #[trigger] values@[k2] {
                        Some(v) => out@[k2] == v,
                        None => b0.tape@.len() <= out@[k2] < self.tape@.len(),
                    },
            decreases values@.len() - k,
        {
            let v = match values[k] {
                Some(v) => v,
                None => {
                    let ghost b1 = *self;
                    let c = self.constant(Bits64(0));
                    proof {
                        lemma_pushed_grew(b1, *self, ValueData::Constant(Bits64(0)), c);
                        lemma_grew_trans(b0, b1, *self);
                    }
                    c
                },
            };
            out.push(v);
            k += 1;
        }
        Output { sparsity, values: out }
    }

    /// The function built, with the given outputs.
    fn finish(self, outputs: Vec<Output>) -> (f: Function)
        requires
            in_order(self.tape@),
        ensures
            f.spec_sparsity_in() == self.sparsity_in@,
            f.spec_tape() == self.tape@,
            f.spec_outputs() == outputs@,
    {
        Function { sparsity_in: self.sparsity_in, tape: self.tape, outputs }
    }
}


/// Bit pattern of the constant `1.0`.
pub const ONE_BITS: u64 = 0x3ff0_0000_0000_0000;

/// The seeds of input nonzero `j`, the input nonzeros being numbered
/// input after input: one at that nonzero, zero elsewhere.
pub open spec fn unit_seeds(sp: Seq<Sparsity>, j: int) -> Seq<Seq<Option<Sym>>> {
    Seq::new(
        sp.len(),
        |i: int|
            Seq::new(
                sp[i].spec_nnz(),
                |k: int|
                    if nnz_before(sp, i) + k == j {
                        Some(Sym::Const(Bits64(ONE_BITS)))
                    } else {
                        None
                    },
            ),
    )
}

/// What each value of `tape` computes.
pub open spec fn primal_syms(tape: Seq<ValueData>) -> Seq<Sym> {
    Seq::new(tape.len(), |v: int| value_sym(tape, v))
}

/// A structural zero stands for the constant zero.
pub open spec fn sym_or_zero(s: Option<Sym>) -> Sym {
    match s {
        Some(x) => x,
        None => zero_sym(),
    }
}

/// Output `j * n + o` of `outputs` (`n` outputs of `f` per input nonzero)
/// has the pattern of output `o` of `f`, and its values, on `tape`, are the
/// tangents of the nonzeros of that output along the seed of input nonzero
/// `j`, the constant zero where there is none.
pub open spec fn jacobian_column(f: &Function, tape: Seq<ValueData>, outputs: Seq<Output>, j: int, o: int) -> bool {
    let src = f.spec_outputs()[o];
    let out = outputs[j * f.spec_outputs().len() + o];
    &&& out.sparsity.spec_num_rows() == src.sparsity.spec_num_rows()
    &&& out.sparsity.spec_num_cols() == src.sparsity.spec_num_cols()
    &&& out.sparsity.spec_col_idx() == src.sparsity.spec_col_idx()
    &&& out.sparsity.spec_rows() == src.sparsity.spec_rows()
    &&& out.values@.len() == src.values@.len()
    &&& forall|k: int|
        0 <= k < out.values@.len() ==> #[trigger] out.values@[k] < tape.len() && value_sym(
            tape,
            out.values@[k] as int,
        ) == sym_or_zero(
            tangent(f.spec_tape(), src.values@[k] as int, primal_syms(f.spec_tape()), unit_seeds(f.spec_sparsity_in(), j)),
        )
}

proof fn lemma_column_grew(f: &Function, b1: FunctionBuilder, b2: FunctionBuilder, o1: Seq<Output>, o2: Seq<Output>, j: int, o: int)
    requires
        grew(b1, b2),
        jacobian_column(f, b1.tape@, o1, j, o),
        0 <= j * f.spec_outputs().len() + o < o1.len(),
        o1.len() <= o2.len(),
        o2[j * f.spec_outputs().len() + o] == o1[j * f.spec_outputs().len() + o],
    ensures
        jacobian_column(f, b2.tape@, o2, j, o),
{
    let out = o1[j * f.spec_outputs().len() + o];
    assert forall|k: int| 0 <= k < out.values@.len() implies #[trigger] out.values@[k] < b2.tape@.len() && value_sym(
        b2.tape@,
        out.values@[k] as int,
    ) == value_sym(b1.tape@, out.values@[k] as int) by {
        assert(out.values@[k] < b1.tape@.len());
    }
}

/// One at nonzero `k` of input `i`, no seed elsewhere.
fn unit_seed_values(sp: &Vec<Sparsity>, i: usize, k: usize, one: Value) -> (seeds: Vec<Vec<Option<Value>>>)
    requires
        i < sp@.len(),
    ensures
        seeds@.len() == sp@.len(),
        forall|q: int| 0 <= q < sp@.len() ==> (#[trigger] seeds@[q])@.len() == sp@[q].spec_nnz(),
        forall|q: int, m: int|
            0 <= q < sp@.len() && 0 <= m < sp@[q].spec_nnz() ==> #[trigger] seeds@[q]@[m] == if q == i && m == k {
                Some(one)
            } else {
                None
            },
{
    let mut seeds: Vec<Vec<Option<Value>>> = Vec::new();
    let mut q: usize = 0;
    while q < sp.len()
        invariant
            q <= sp@.len(),
            seeds@.len() == q,
            forall|q2: int| 0 <= q2 < q ==> (#[trigger] seeds@[q2])@.len() == sp@[q2].spec_nnz(),
            forall|q2: int, m: int|
                0 <= q2 < q && 0 <= m < sp@[q2].spec_nnz() ==> #[trigger] seeds@[q2]@[m] == if q2 == i && m == k {
                    Some(one)
                } else {
                    None
                },
        decreases sp@.len() - q,
    {
        let nz = sp[q].nnz();
        let mut col: Vec<Option<Value>> = Vec::new();
        let mut m: usize = 0;
        while m < nz
            invariant
                m <= nz,
                nz == sp@[q as int].spec_nnz(),
                col@.len() == m,
                forall|m2: int| 0 <= m2 < m ==> #[trigger] col@[m2] == if q == i && m2 == k {
                    Some(one)
                } else {
                    None
                },
            decreases nz - m,
        {
            if q == i && m == k {
                col.push(Some(one));
            } else {
                col.push(None);
            }
            m += 1;
        }
        let ghost s0 = seeds@;
        seeds.push(col);
        proof {
            assert forall|q2: int, m2: int|
                0 <= q2 < q + 1 && 0 <= m2 < sp@[q2].spec_nnz() implies #[trigger] seeds@[q2]@[m2] == if q2 == i && m2
                == k {
                Some(one)
            } else {
                None
            } by {
                if q2 < q {
                    assert(seeds@[q2] == s0[q2]);
                }
            }
        }
        q += 1;
    }
    seeds
}

/// A copy of the optional values of `v`.
fn copy_opts(v: &Vec<Option<Value>>) -> (r: Vec<Option<Value>>)
    ensures
        r@ == v@,
{
    let mut r: Vec<Option<Value>> = Vec::new();
    let mut i: usize = 0;
    while i < v.len()
        invariant
            i <= v@.len(),
            r@ == v@.subrange(0, i as int),
        decreases v@.len() - i,
    {
        r.push(v[i]);
        i += 1;
    }
    proof {
        assert(v@.subrange(0, v@.len() as int) == v@);
    }
    r
}

impl Function {
    /// Computes the Jacobian using forward mode automatic differentiation,
    /// one sweep per input nonzero (numbered input after input). For input
    /// nonzero `j` and output `o`, output `j * n + o` (`n` being the number
    /// of outputs) has the pattern of output `o` and holds the tangents of
    /// its nonzeros along the unit seed of `j`: the column of the Jacobian
    /// for that input nonzero, the constant zero where an output nonzero
    /// does not depend on it. The function keeps the inputs of `self`.
    pub fn jacobian_forward(&self) -> (g: Function)
        requires
            forall|v: int|
                0 <= v < self.spec_tape().len() ==> (#[trigger] self.spec_tape()[v] matches ValueData::Input {
                    input,
                    nonzero,
                } ==> input < self.spec_sparsity_in().len() && nonzero < self.spec_sparsity_in()[input as int].spec_nnz()),
            forall|o: int|
                0 <= o < self.spec_outputs().len() ==> (#[trigger] self.spec_outputs()[o]).values@.len()
                    == self.spec_outputs()[o].sparsity.spec_nnz(),
            forall|o: int, k: int|
                0 <= o < self.spec_outputs().len() && 0 <= k < self.spec_outputs()[o].values@.len()
                    ==> #[trigger] self.spec_outputs()[o].values@[k] < self.spec_tape().len(),
        ensures
            g.spec_sparsity_in().len() == self.spec_sparsity_in().len(),
            forall|i: int|
                0 <= i < self.spec_sparsity_in().len() ==> (#[trigger] g.spec_sparsity_in()[i]).spec_num_rows()
                    == self.spec_sparsity_in()[i].spec_num_rows() && g.spec_sparsity_in()[i].spec_num_cols()
                    == self.spec_sparsity_in()[i].spec_num_cols() && g.spec_sparsity_in()[i].spec_col_idx()
                    == self.spec_sparsity_in()[i].spec_col_idx() && g.spec_sparsity_in()[i].spec_rows()
                    == self.spec_sparsity_in()[i].spec_rows(),
            g.spec_outputs().len() == nnz_before(self.spec_sparsity_in(), self.spec_sparsity_in().len() as int)
                * self.spec_outputs().len(),
            forall|j: int, o: int|
                0 <= j < nnz_before(self.spec_sparsity_in(), self.spec_sparsity_in().len() as int) && 0 <= o
                    < self.spec_outputs().len() ==> #[trigger] jacobian_column(self, g.spec_tape(), g.spec_outputs(), j, o),
    {
        proof {
            use_type_invariant(self);
        }
        let ghost sp = self.spec_sparsity_in();
        let ghost f = self.spec_tape();
        let nin = self.sparsity_in.len();
        let nout = self.outputs.len();
        let mut sp_copy: Vec<Sparsity> = Vec::new();
        let mut i: usize = 0;
        while i < nin
            invariant
                nin == sp.len(),
                sp == self.spec_sparsity_in(),
                i <= nin,
                sp_copy@.len() == i,
                forall|i2: int|
                    0 <= i2 < i ==> (#[trigger] sp_copy@[i2]).spec_num_rows() == sp[i2].spec_num_rows()
                        && sp_copy@[i2].spec_num_cols() == sp[i2].spec_num_cols() && sp_copy@[i2].spec_col_idx()
                        == sp[i2].spec_col_idx() && sp_copy@[i2].spec_rows() == sp[i2].spec_rows(),
            decreases nin - i,
        {
            sp_copy.push(self.sparsity_in[i].clone());
            i += 1;
        }
        let mut b = FunctionBuilder::new(sp_copy);
        let ghost b0 = b;
        let map = b.replay(self);
        let ghost b_r = b;
        let one = b.constant(Bits64(ONE_BITS));
        let ghost b_one = b;
        proof {
            assert(in_order(b0.tape@));
            lemma_extends(b_r.tape@, b_one.tape@);
            assert forall|j: int| 0 <= j < map@.len() implies #[trigger] map@[j] < b_r.tape@.len() && value_sym(
                b.tape@,
                map@[j] as int,
            ) == value_sym(f, j) by {
                assert(value_sym(b_one.tape@, map@[j] as int) == value_sym(b_r.tape@, map@[j] as int));
            }
        }
        let mut outputs: Vec<Output> = Vec::new();
        let mut i: usize = 0;
        while i < nin
            invariant
                nin == sp.len(),
                sp == self.spec_sparsity_in(),
                f == self.spec_tape(),
                nout == self.spec_outputs().len(),
                in_order(f),
                forall|v: int|
                    0 <= v < f.len() ==> (#[trigger] f[v] matches ValueData::Input { input, nonzero } ==> input
                        < sp.len() && nonzero < sp[input as int].spec_nnz()),
                forall|o: int|
                    0 <= o < nout ==> (#[trigger] self.spec_outputs()[o]).values@.len()
                        == self.spec_outputs()[o].sparsity.spec_nnz(),
                forall|o: int, k: int|
                    0 <= o < nout && 0 <= k < self.spec_outputs()[o].values@.len()
                        ==> #[trigger] self.spec_outputs()[o].values@[k] < f.len(),
                grew(b_one, b),
                in_order(b.tape@),
                map@.len() == f.len(),
                forall|j: int|
                    0 <= j < map@.len() ==> #[trigger] map@[j] < b_r.tape@.len() && value_sym(b.tape@, map@[j] as int)
                        == value_sym(f, j),
                one < b_one.tape@.len(),
                b_r.tape@.len() < b_one.tape@.len(),
                value_sym(b.tape@, one as int) == Sym::Const(Bits64(ONE_BITS)),
                i <= nin,
                outputs@.len() == nnz_before(sp, i as int) * nout,
                forall|j: int, o: int|
                    0 <= j < nnz_before(sp, i as int) && 0 <= o < nout ==> #[trigger] jacobian_column(
                        self,
                        b.tape@,
                        outputs@,
                        j,
                        o,
                    ),
            decreases nin - i,
        {
            let nz = self.sparsity_in[i].nnz();
            let mut k: usize = 0;
            while k < nz
                invariant
                    nin == sp.len(),
                    sp == self.spec_sparsity_in(),
                    f == self.spec_tape(),
                    nout == self.spec_outputs().len(),
                    in_order(f),
                    i < nin,
                    nz == sp[i as int].spec_nnz(),
                    forall|v: int|
                        0 <= v < f.len() ==> (#[trigger] f[v] matches ValueData::Input { input, nonzero } ==> input
                            < sp.len() && nonzero < sp[input as int].spec_nnz()),
                    forall|o: int|
                        0 <= o < nout ==> (#[trigger] self.spec_outputs()[o]).values@.len()
                            == self.spec_outputs()[o].sparsity.spec_nnz(),
                    forall|o: int, k2: int|
                        0 <= o < nout && 0 <= k2 < self.spec_outputs()[o].values@.len()
                            ==> #[trigger] self.spec_outputs()[o].values@[k2] < f.len(),
                    grew(b_one, b),
                    in_order(b.tape@),
                    map@.len() == f.len(),
                    forall|j: int|
                        0 <= j < map@.len() ==> #[trigger] map@[j] < b_r.tape@.len() && value_sym(b.tape@, map@[j] as int)
                            == value_sym(f, j),
                    one < b_one.tape@.len(),
                    b_r.tape@.len() < b_one.tape@.len(),
                    value_sym(b.tape@, one as int) == Sym::Const(Bits64(ONE_BITS)),
                    k <= nz,
                    outputs@.len() == (nnz_before(sp, i as int) + k) * nout,
                    forall|j: int, o: int|
                        0 <= j < nnz_before(sp, i as int) + k && 0 <= o < nout ==> #[trigger] jacobian_column(
                            self,
                            b.tape@,
                            outputs@,
                            j,
                            o,
                        ),
                decreases nz - k,
            {
                let ghost col = nnz_before(sp, i as int) + k;
                let seeds = unit_seed_values(&self.sparsity_in, i, k, one);
                let ghost b1 = b;
                proof {
                    assert(seed_syms(b1.tape@, seeds@) =~= unit_seeds(sp, col)) by {
                        assert forall|q: int| 0 <= q < sp.len() implies #[trigger] seed_syms(b1.tape@, seeds@)[q]
                            =~= unit_seeds(sp, col)[q] by {
                            assert forall|m: int| 0 <= m < sp[q].spec_nnz() implies seed_syms(b1.tape@, seeds@)[q][m]
                                == #[trigger] unit_seeds(sp, col)[q][m] by {
                                lemma_column_number(sp, q, m, i as int, k as int);
                            }
                        }
                    }
                    assert(mapped_syms(b1.tape@, map@, f.len()) =~= primal_syms(f));
                    assert forall|q: int, m: int|
                        0 <= q < seeds@.len() && 0 <= m < seeds@[q]@.len() implies opt_in(
                        #[trigger] seeds@[q]@[m],
                        b1.tape@.len(),
                    ) by {}
                    assert forall|j: int| 0 <= j < map@.len() implies #[trigger] map@[j] < b1.tape@.len() by {
                        assert(map@[j] < b_r.tape@.len());
                        assert(b_r.tape@.len() < b_one.tape@.len());
                    }
                }
                let t = self.forward(&mut b, &map, seeds.as_slice());
                let ghost b2 = b;
                let ghost out_k = outputs@;
                let mut o: usize = 0;
                while o < nout
                    invariant
                        sp == self.spec_sparsity_in(),
                        f == self.spec_tape(),
                        nout == self.spec_outputs().len(),
                        t@.len() == nout,
                        forall|o2: int| 0 <= o2 < nout ==> (#[trigger] t@[o2])@.len() == self.spec_outputs()[o2].values@.len(),
                        forall|o2: int, k2: int|
                            0 <= o2 < nout && 0 <= k2 < t@[o2]@.len() ==> opt_in(#[trigger] t@[o2]@[k2], b2.tape@.len())
                                && opt_sym(b2.tape@, t@[o2]@[k2]) == tangent(
                                f,
                                self.spec_outputs()[o2].values@[k2] as int,
                                primal_syms(f),
                                unit_seeds(sp, col),
                            ),
                        forall|o2: int|
                            0 <= o2 < nout ==> (#[trigger] self.spec_outputs()[o2]).values@.len()
                                == self.spec_outputs()[o2].sparsity.spec_nnz(),
                        grew(b2, b),
                        o <= nout,
                        outputs@.len() == out_k.len() + o,
                        outputs@.subrange(0, out_k.len() as int) == out_k,
                        out_k.len() == col * nout,
                        forall|o2: int| 0 <= o2 < o ==> #[trigger] jacobian_column(self, b.tape@, outputs@, col, o2),
                    decreases nout - o,
                {
                    let ghost b3 = b;
                    let ghost o0 = outputs@;
                    let out = b.gather(self.outputs[o].sparsity.clone(), copy_opts(&t[o]));
                    outputs.push(out);
                    proof {
                        lemma_grew_trans(b2, b3, b);
                        assert(outputs@.subrange(0, out_k.len() as int) =~= o0.subrange(0, out_k.len() as int));
                        assert(col * nout + o == out_k.len() + o);
                        assert forall|k2: int| 0 <= k2 < out.values@.len() implies #[trigger] out.values@[k2] < b.tape@.len()
                            && value_sym(b.tape@, out.values@[k2] as int) == sym_or_zero(
                            tangent(f, self.spec_outputs()[o as int].values@[k2] as int, primal_syms(f), unit_seeds(sp, col)),
                        ) by {
                            match t@[o as int]@[k2] {
                                Some(v) => {
                                    assert(value_sym(b.tape@, v as int) == value_sym(b2.tape@, v as int));
                                },
                                None => {
                                    assert(b.tape@[out.values@[k2] as int] == ValueData::Constant(Bits64(0)));
                                },
                            }
                        }
                        assert(jacobian_column(self, b.tape@, outputs@, col, o as int));
                        assert forall|o2: int| 0 <= o2 < o + 1 implies #[trigger] jacobian_column(self, b.tape@, outputs@, col, o2) by {
                            if o2 < o {
                                lemma_column_grew(self, b3, b, o0, outputs@, col, o2);
                            }
                        }
                    }
                    o += 1;
                }
                proof {
                    lemma_grew_trans(b_one, b1, b2);
                    lemma_grew_trans(b_one, b2, b);
                    lemma_grew_trans(b1, b2, b);
                    assert((col + 1) * nout == col * nout + nout) by (nonlinear_arith);
                    assert forall|j: int, o2: int|
                        0 <= j < col + 1 && 0 <= o2 < nout implies #[trigger] jacobian_column(self, b.tape@, outputs@, j, o2) by {
                        if j < col {
                            assert(0 <= j * nout + o2 < col * nout) by (nonlinear_arith)
                                requires
                                    0 <= j < col,
                                    0 <= o2 < nout,
                            ;
                            assert(outputs@[j * nout + o2] == outputs@.subrange(0, out_k.len() as int)[j * nout + o2]);
                            lemma_column_grew(self, b1, b, out_k, outputs@, j, o2);
                        }
                    }
                }
                k += 1;
            }
            proof {
                assert(nnz_before(sp, i + 1) == nnz_before(sp, i as int) + sp[i as int].spec_nnz());
            }
            i += 1;
        }
        proof {
            lemma_grew_trans(b0, b_one, b);
        }
        b.finish(outputs)
    }
}

/// Nonzero `m` of input `q` and nonzero `k` of input `i` have the same
/// number exactly when they are the same nonzero.
proof fn lemma_column_number(sp: Seq<Sparsity>, q: int, m: int, i: int, k: int)
    requires
        0 <= q < sp.len(),
        0 <= i < sp.len(),
        0 <= m < sp[q].spec_nnz(),
        0 <= k < sp[i].spec_nnz(),
    ensures
        (nnz_before(sp, q) + m == nnz_before(sp, i) + k) <==> (q == i && m == k),
{
    if q < i {
        lemma_nnz_before_mono(sp, q + 1, i);
    } else if i < q {
        lemma_nnz_before_mono(sp, i + 1, q);
    }
}

} // verus!
