//! Straight-line functions compiled from a tape, their meaning as symbolic
//! expressions, and the forward-mode (tangent) transform.
use vstd::prelude::*;

use crate::bits::Bits64;
use crate::op::{BinaryOp, UnaryOp};

verus! {

/// Index of an instruction in a function.
pub type Inst = usize;

#[derive(Clone, Copy, PartialEq, Eq, Debug, Structural)]
pub enum InstructionData {
    /// Function parameter.
    Param(u32),
    /// Constant value.
    Constant(Bits64),
    /// Unary operation on the result of a previous instruction.
    Unary(UnaryOp, Inst),
    /// Binary operation on the results of two previous instructions.
    Binary(BinaryOp, Inst, Inst),
}

pub struct Function {
    /// Program instructions.
    pub insts: Vec<InstructionData>,
    /// Number of parameters.
    pub num_params: u32,
    /// Return values for the function.
    pub returns: Vec<Inst>,
}

/// A symbolic expression: what a value computes, written as a tree over
/// the parameters.
pub enum Sym {
    Param(u32),
    Const(Bits64),
    Unary(UnaryOp, Box<Sym>),
    Binary(BinaryOp, Box<Sym>, Box<Sym>),
}

pub open spec fn zero_sym() -> Sym {
    Sym::Const(Bits64(0))
}

pub open spec fn un(op: UnaryOp, a: Sym) -> Sym {
    Sym::Unary(op, Box::new(a))
}

pub open spec fn bin(op: BinaryOp, a: Sym, b: Sym) -> Sym {
    Sym::Binary(op, Box::new(a), Box::new(b))
}

/// The parameters `0..n`, each standing for itself.
pub open spec fn param_syms(n: nat) -> Seq<Sym> {
    Seq::new(n, |j: int| Sym::Param(j as u32))
}

/// Instruction `d` at position `i` only reads earlier instructions and
/// parameters below `num_params`.
pub open spec fn inst_ok(d: InstructionData, i: int, num_params: nat) -> bool {
    match d {
        InstructionData::Param(p) => p < num_params,
        InstructionData::Constant(_) => true,
        InstructionData::Unary(_, a) => a < i,
        InstructionData::Binary(_, a, b) => a < i && b < i,
    }
}

pub open spec fn insts_wf(insts: Seq<InstructionData>, num_params: nat) -> bool {
    forall|i: int| 0 <= i < insts.len() ==> inst_ok(#[trigger] insts[i], i, num_params)
}

/// What instruction `i` computes when parameter `p` is `env[p]`.
pub open spec fn inst_sym(insts: Seq<InstructionData>, i: int, env: Seq<Sym>) -> Sym
    decreases i,
{
    if i < 0 || i >= insts.len() {
        zero_sym()
    } else {
        match insts[i] {
            InstructionData::Param(p) => env[p as int],
            InstructionData::Constant(c) => Sym::Const(c),
            InstructionData::Unary(op, a) => if a < i {
                un(op, inst_sym(insts, a as int, env))
            } else {
                zero_sym()
            },
            InstructionData::Binary(op, a, b) => if a < i && b < i {
                bin(op, inst_sym(insts, a as int, env), inst_sym(insts, b as int, env))
            } else {
                zero_sym()
            },
        }
    }
}

/// Sum of two tangents, `None` standing for a structural zero.
pub open spec fn add_tan(a: Option<Sym>, b: Option<Sym>) -> Option<Sym> {
    match (a, b) {
        (None, None) => None,
        (Some(x), None) => Some(x),
        (None, Some(y)) => Some(y),
        (Some(x), Some(y)) => Some(bin(BinaryOp::Add, x, y)),
    }
}

/// Difference of two tangents, `None` standing for a structural zero.
pub open spec fn sub_tan(a: Option<Sym>, b: Option<Sym>) -> Option<Sym> {
    match (a, b) {
        (None, None) => None,
        (Some(x), None) => Some(x),
        (None, Some(y)) => Some(un(UnaryOp::Neg, y)),
        (Some(x), Some(y)) => Some(bin(BinaryOp::Sub, x, y)),
    }
}

/// Tangent of a unary operation on `x` whose operand has tangent `da`.
pub open spec fn unary_tan(op: UnaryOp, x: Sym, da: Sym) -> Sym {
    match op {
        // d(-a) = -da
        UnaryOp::Neg => un(UnaryOp::Neg, da),
        // d(sin a) = cos(a) * da
        UnaryOp::Sin => bin(BinaryOp::Mul, un(UnaryOp::Cos, x), da),
        // d(cos a) = -(sin(a) * da)
        UnaryOp::Cos => un(UnaryOp::Neg, bin(BinaryOp::Mul, un(UnaryOp::Sin, x), da)),
    }
}

/// Tangent of a binary operation on `x` and `y` whose operands have
/// tangents `da` and `db`; `None` is a structural zero.
pub open spec fn binary_tan(op: BinaryOp, x: Sym, y: Sym, da: Option<Sym>, db: Option<Sym>) -> Option<Sym> {
    match op {
        BinaryOp::Add => add_tan(da, db),
        BinaryOp::Sub => sub_tan(da, db),
        // d(a*b) = da*b + a*db
        BinaryOp::Mul => add_tan(
            match da {
                Some(d) => Some(bin(BinaryOp::Mul, d, y)),
                None => None,
            },
            match db {
                Some(d) => Some(bin(BinaryOp::Mul, x, d)),
                None => None,
            },
        ),
        // q = a/b  =>  dq = (da - q*db) / b
        BinaryOp::Div => match sub_tan(
            da,
            match db {
                Some(d) => Some(bin(BinaryOp::Mul, bin(BinaryOp::Div, x, y), d)),
                None => None,
            },
        ) {
            Some(num) => Some(bin(BinaryOp::Div, num, y)),
            None => None,
        },
    }
}

/// The tangent of instruction `i` by the chain rule, when parameter `p` has
/// tangent `Param(n + p)`; `None` is a structural zero.
pub open spec fn tan_sym(insts: Seq<InstructionData>, i: int, n: nat) -> Option<Sym>
    decreases i,
{
    if i < 0 || i >= insts.len() {
        None
    } else {
        match insts[i] {
            InstructionData::Param(p) => Some(Sym::Param((n + p) as u32)),
            InstructionData::Constant(_) => None,
            InstructionData::Unary(op, a) => if a < i {
                match tan_sym(insts, a as int, n) {
                    None => None,
                    Some(da) => Some(unary_tan(op, inst_sym(insts, a as int, param_syms(n)), da)),
                }
            } else {
                None
            },
            InstructionData::Binary(op, a, b) => if a < i && b < i {
                binary_tan(
                    op,
                    inst_sym(insts, a as int, param_syms(n)),
                    inst_sym(insts, b as int, param_syms(n)),
                    tan_sym(insts, a as int, n),
                    tan_sym(insts, b as int, n),
                )
            } else {
                None
            },
        }
    }
}

/// The tangent of instruction `i`, zero where it is structurally zero.
pub open spec fn tan_or_zero(insts: Seq<InstructionData>, i: int, n: nat) -> Sym {
    match tan_sym(insts, i, n) {
        Some(t) => t,
        None => zero_sym(),
    }
}

/// Instructions agreeing up to `i` compute the same at `i`.
pub proof fn lemma_inst_sym_prefix(s: Seq<InstructionData>, t: Seq<InstructionData>, i: int, env: Seq<Sym>)
    requires
        0 <= i < s.len(),
        i < t.len(),
        forall|j: int| 0 <= j <= i ==> s[j] == t[j],
    ensures
        inst_sym(t, i, env) == inst_sym(s, i, env),
    decreases i,
{
    match s[i] {
        InstructionData::Unary(_, a) => {
            if a < i {
                lemma_inst_sym_prefix(s, t, a as int, env);
            }
        },
        InstructionData::Binary(_, a, b) => {
            if a < i && b < i {
                lemma_inst_sym_prefix(s, t, a as int, env);
                lemma_inst_sym_prefix(s, t, b as int, env);
            }
        },
        _ => {},
    }
}

/// Appending an instruction leaves what earlier ones compute unchanged.
pub proof fn lemma_inst_sym_push(s: Seq<InstructionData>, d: InstructionData, env: Seq<Sym>)
    ensures
        forall|j: int| 0 <= j < s.len() ==> #[trigger] inst_sym(s.push(d), j, env) == inst_sym(s, j, env),
{
    assert forall|j: int| 0 <= j < s.len() implies #[trigger] inst_sym(s.push(d), j, env) == inst_sym(
        s,
        j,
        env,
    ) by {
        lemma_inst_sym_prefix(s, s.push(d), j, env);
    }
}

impl Function {
    /// Every instruction reads only earlier instructions and declared
    /// parameters, and every return names an instruction.
    pub open spec fn wf(&self) -> bool {
        &&& insts_wf(self.insts@, self.num_params as nat)
        &&& forall|k: int| 0 <= k < self.returns@.len() ==> #[trigger] self.returns@[k] < self.insts@.len()
    }

    /// What return `k` computes, over the parameters.
    pub open spec fn return_sym(&self, k: int) -> Sym {
        inst_sym(self.insts@, self.returns@[k] as int, param_syms(self.num_params as nat))
    }

    /// Checks that the function is well formed.
    pub fn verify(&self) -> (r: bool)
        ensures
            r == self.wf(),
    {
        let mut i: usize = 0;
        while i < self.insts.len()
            invariant
                i <= self.insts@.len(),
                forall|j: int| 0 <= j < i ==> inst_ok(#[trigger] self.insts@[j], j, self.num_params as nat),
            decreases self.insts@.len() - i,
        {
            let ok = match self.insts[i] {
                InstructionData::Param(p) => p < self.num_params,
                InstructionData::Constant(_) => true,
                InstructionData::Unary(_, a) => a < i,
                InstructionData::Binary(_, a, b) => a < i && b < i,
            };
            if !ok {
                return false;
            }
            i += 1;
        }
        let mut k: usize = 0;
        while k < self.returns.len()
            invariant
                insts_wf(self.insts@, self.num_params as nat),
                k <= self.returns@.len(),
                forall|j: int| 0 <= j < k ==> #[trigger] self.returns@[j] < self.insts@.len(),
            decreases self.returns@.len() - k,
        {
            if self.returns[k] >= self.insts.len() {
                return false;
            }
            k += 1;
        }
        true
    }
}

/// Appends `d` and returns its position.
pub(crate) fn push_inst(insts: &mut Vec<InstructionData>, d: InstructionData, Ghost(env): Ghost<Seq<Sym>>, Ghost(n): Ghost<nat>) -> (r: Inst)
    requires
        insts_wf(old(insts)@, n),
        inst_ok(d, old(insts)@.len() as int, n),
    ensures
        final(insts)@ == old(insts)@.push(d),
        is_prefix(old(insts)@, final(insts)@),
        r == old(insts)@.len(),
        insts_wf(final(insts)@, n),
        forall|j: int|
            0 <= j < old(insts)@.len() ==> #[trigger] inst_sym(final(insts)@, j, env) == inst_sym(
                old(insts)@,
                j,
                env,
            ),
        inst_sym(final(insts)@, r as int, env) == match d {
            InstructionData::Param(p) => env[p as int],
            InstructionData::Constant(c) => Sym::Const(c),
            InstructionData::Unary(op, a) => un(op, inst_sym(old(insts)@, a as int, env)),
            InstructionData::Binary(op, a, b) => bin(
                op,
                inst_sym(old(insts)@, a as int, env),
                inst_sym(old(insts)@, b as int, env),
            ),
        },
{
    let ghost old_insts = insts@;
    let r = insts.len();
    insts.push(d);
    proof {
        lemma_inst_sym_push(old_insts, d, env);
        assert(insts@[r as int] == d);
        match d {
            InstructionData::Unary(op, a) => {
                assert(inst_sym(insts@, a as int, env) == inst_sym(old_insts, a as int, env));
            },
            InstructionData::Binary(op, a, b) => {
                assert(inst_sym(insts@, a as int, env) == inst_sym(old_insts, a as int, env));
                assert(inst_sym(insts@, b as int, env) == inst_sym(old_insts, b as int, env));
            },
            _ => {},
        }
        assert forall|i: int| 0 <= i < insts@.len() implies inst_ok(#[trigger] insts@[i], i, n) by {
            if i < old_insts.len() {
                assert(insts@[i] == old_insts[i]);
            }
        }
    }
    r
}

/// `a` is a prefix of `b`.
pub open spec fn is_prefix(a: Seq<InstructionData>, b: Seq<InstructionData>) -> bool {
    a.len() <= b.len() && forall|j: int| 0 <= j < a.len() ==> #[trigger] a[j] == b[j]
}

/// What an optional instruction computes.
pub open spec fn opt_sym(insts: Seq<InstructionData>, o: Option<Inst>, env: Seq<Sym>) -> Option<Sym> {
    match o {
        Some(t) => Some(inst_sym(insts, t as int, env)),
        None => None,
    }
}

/// An optional instruction is present in `insts`.
pub open spec fn opt_in(o: Option<Inst>, len: nat) -> bool {
    match o {
        Some(t) => t < len,
        None => true,
    }
}

proof fn lemma_prefix_trans(a: Seq<InstructionData>, b: Seq<InstructionData>, c: Seq<InstructionData>)
    requires
        is_prefix(a, b),
        is_prefix(b, c),
    ensures
        is_prefix(a, c),
{
    assert forall|j: int| 0 <= j < a.len() implies #[trigger] a[j] == c[j] by {
        assert(a[j] == b[j]);
    }
}

proof fn lemma_prefix_sym(a: Seq<InstructionData>, b: Seq<InstructionData>, env: Seq<Sym>)
    requires
        is_prefix(a, b),
    ensures
        forall|j: int| 0 <= j < a.len() ==> #[trigger] inst_sym(b, j, env) == inst_sym(a, j, env),
{
    assert forall|j: int| 0 <= j < a.len() implies #[trigger] inst_sym(b, j, env) == inst_sym(a, j, env) by {
        lemma_inst_sym_prefix(a, b, j, env);
    }
}

/// The instructions emitted for `a + b` of optional tangents at position
/// `base`, and the tangent.
pub open spec fn add_code(a: Option<Inst>, b: Option<Inst>, base: nat) -> (Seq<InstructionData>, Option<Inst>) {
    match (a, b) {
        (Some(x), Some(y)) => (seq![InstructionData::Binary(BinaryOp::Add, x, y)], Some(base as Inst)),
        (Some(x), None) => (Seq::empty(), Some(x)),
        (None, Some(y)) => (Seq::empty(), Some(y)),
        (None, None) => (Seq::empty(), None),
    }
}

/// The instructions emitted for `a - b` of optional tangents at position
/// `base`, and the tangent.
pub open spec fn sub_code(a: Option<Inst>, b: Option<Inst>, base: nat) -> (Seq<InstructionData>, Option<Inst>) {
    match (a, b) {
        (Some(x), Some(y)) => (seq![InstructionData::Binary(BinaryOp::Sub, x, y)], Some(base as Inst)),
        (Some(x), None) => (Seq::empty(), Some(x)),
        (None, Some(y)) => (seq![InstructionData::Unary(UnaryOp::Neg, y)], Some(base as Inst)),
        (None, None) => (Seq::empty(), None),
    }
}

/// The instructions emitted for `t * x` (`x * t` unless `left`) at
/// position `base`, and the product.
pub open spec fn scale_code(t: Option<Inst>, x: Inst, left: bool, base: nat) -> (Seq<InstructionData>, Option<Inst>) {
    match t {
        Some(d) => (
            seq![
                if left {
                    InstructionData::Binary(BinaryOp::Mul, d, x)
                } else {
                    InstructionData::Binary(BinaryOp::Mul, x, d)
                },
            ],
            Some(base as Inst),
        ),
        None => (Seq::empty(), None),
    }
}

/// The instructions emitted at position `base` for the tangent of
/// `op(pa)` with operand tangent `ta`, and the tangent.
pub open spec fn unary_code(op: UnaryOp, pa: Inst, ta: Inst, base: nat) -> (Seq<InstructionData>, Inst) {
    match op {
        UnaryOp::Neg => (seq![InstructionData::Unary(UnaryOp::Neg, ta)], base as Inst),
        UnaryOp::Sin => (
            seq![
                InstructionData::Unary(UnaryOp::Cos, pa),
                InstructionData::Binary(BinaryOp::Mul, base as Inst, ta),
            ],
            (base + 1) as Inst,
        ),
        UnaryOp::Cos => (
            seq![
                InstructionData::Unary(UnaryOp::Sin, pa),
                InstructionData::Binary(BinaryOp::Mul, base as Inst, ta),
                InstructionData::Unary(UnaryOp::Neg, (base + 1) as Inst),
            ],
            (base + 2) as Inst,
        ),
    }
}

/// The instructions emitted at position `base` for the tangent of the
/// instruction `primal = op(pa, pb)` with operand tangents `ta` and `tb`,
/// and the tangent.
pub open spec fn binary_code(
    op: BinaryOp,
    pa: Inst,
    pb: Inst,
    primal: Inst,
    ta: Option<Inst>,
    tb: Option<Inst>,
    base: nat,
) -> (Seq<InstructionData>, Option<Inst>) {
    match op {
        BinaryOp::Add => add_code(ta, tb, base),
        BinaryOp::Sub => sub_code(ta, tb, base),
        BinaryOp::Mul => {
            let c1 = scale_code(ta, pb, true, base);
            let c2 = scale_code(tb, pa, false, base + c1.0.len());
            let c3 = add_code(c1.1, c2.1, base + c1.0.len() + c2.0.len());
            (c1.0 + c2.0 + c3.0, c3.1)
        },
        BinaryOp::Div => {
            let c1 = scale_code(tb, primal, false, base);
            let c2 = sub_code(ta, c1.1, base + c1.0.len());
            match c2.1 {
                Some(nu) => (
                    c1.0 + c2.0 + seq![InstructionData::Binary(BinaryOp::Div, nu, pb)],
                    Some((base + c1.0.len() + c2.0.len()) as Inst),
                ),
                None => (c1.0 + c2.0, None),
            }
        },
    }
}

/// The instructions emitted at position `base` for instruction `d` of a
/// function of `n` parameters, given the (primal, tangent) pairs `map` of
/// the instructions before it, and the pair of `d`: the primal first, then
/// what its tangent needs.
pub open spec fn inst_code(d: InstructionData, n: u32, map: Seq<(Inst, Option<Inst>)>, base: nat) -> (
    Seq<InstructionData>,
    (Inst, Option<Inst>),
) {
    match d {
        InstructionData::Param(p) => (
            seq![InstructionData::Param(p), InstructionData::Param((n + p) as u32)],
            (base as Inst, Some((base + 1) as Inst)),
        ),
        InstructionData::Constant(c) => (seq![InstructionData::Constant(c)], (base as Inst, None)),
        InstructionData::Unary(op, a) => {
            let (pa, ta) = map[a as int];
            match ta {
                Some(t) => {
                    let c = unary_code(op, pa, t, base + 1);
                    (seq![InstructionData::Unary(op, pa)] + c.0, (base as Inst, Some(c.1)))
                },
                None => (seq![InstructionData::Unary(op, pa)], (base as Inst, None)),
            }
        },
        InstructionData::Binary(op, a, b) => {
            let (pa, ta) = map[a as int];
            let (pb, tb) = map[b as int];
            let c = binary_code(op, pa, pb, base as Inst, ta, tb, base + 1);
            (seq![InstructionData::Binary(op, pa, pb)] + c.0, (base as Inst, c.1))
        },
    }
}

/// Some return has no tangent in `map`.
pub open spec fn zero_needed(map: Seq<(Inst, Option<Inst>)>, rets: Seq<Inst>) -> bool {
    exists|k: int| 0 <= k < rets.len() && (#[trigger] map[rets[k] as int]).1 is None
}

/// The instructions the forward transform emits for the first `i`
/// instructions of `f`, and their (primal, tangent) pairs.
pub open spec fn forward_code(f: Seq<InstructionData>, n: u32, i: int) -> (
    Seq<InstructionData>,
    Seq<(Inst, Option<Inst>)>,
)
    decreases i,
{
    if i <= 0 {
        (Seq::empty(), Seq::empty())
    } else {
        let prev = forward_code(f, n, i - 1);
        let c = inst_code(f[i - 1], n, prev.1, prev.0.len());
        (prev.0 + c.0, prev.1.push(c.1))
    }
}

/// Emits the tangent of a unary operation whose operand is `pa` with tangent `ta`.
fn emit_unary_tan(
    insts: &mut Vec<InstructionData>,
    op: UnaryOp,
    pa: Inst,
    ta: Inst,
    Ghost(env): Ghost<Seq<Sym>>,
    Ghost(n): Ghost<nat>,
) -> (r: Inst)
    requires
        insts_wf(old(insts)@, n),
        pa < old(insts)@.len(),
        ta < old(insts)@.len(),
    ensures
        final(insts)@ == old(insts)@ + unary_code(op, pa, ta, old(insts)@.len()).0,
        r == unary_code(op, pa, ta, old(insts)@.len()).1,
        is_prefix(old(insts)@, final(insts)@),
        insts_wf(final(insts)@, n),
        r < final(insts)@.len(),
        inst_sym(final(insts)@, r as int, env) == unary_tan(
            op,
            inst_sym(old(insts)@, pa as int, env),
            inst_sym(old(insts)@, ta as int, env),
        ),
{
    let ghost s0 = insts@;
    match op {
        UnaryOp::Neg => push_inst(insts, InstructionData::Unary(UnaryOp::Neg, ta), Ghost(env), Ghost(n)),
        UnaryOp::Sin => {
            let c = push_inst(insts, InstructionData::Unary(UnaryOp::Cos, pa), Ghost(env), Ghost(n));
            push_inst(insts, InstructionData::Binary(BinaryOp::Mul, c, ta), Ghost(env), Ghost(n))
        },
        UnaryOp::Cos => {
            let sn = push_inst(insts, InstructionData::Unary(UnaryOp::Sin, pa), Ghost(env), Ghost(n));
            let m = push_inst(insts, InstructionData::Binary(BinaryOp::Mul, sn, ta), Ghost(env), Ghost(n));
            push_inst(insts, InstructionData::Unary(UnaryOp::Neg, m), Ghost(env), Ghost(n))
        },
    }
}

/// Emits the sum of two optional tangents.
fn emit_add_tan(
    insts: &mut Vec<InstructionData>,
    a: Option<Inst>,
    b: Option<Inst>,
    Ghost(env): Ghost<Seq<Sym>>,
    Ghost(n): Ghost<nat>,
) -> (r: Option<Inst>)
    requires
        insts_wf(old(insts)@, n),
        opt_in(a, old(insts)@.len()),
        opt_in(b, old(insts)@.len()),
    ensures
        final(insts)@ == old(insts)@ + add_code(a, b, old(insts)@.len()).0,
        r == add_code(a, b, old(insts)@.len()).1,
        is_prefix(old(insts)@, final(insts)@),
        insts_wf(final(insts)@, n),
        opt_in(r, final(insts)@.len()),
        opt_sym(final(insts)@, r, env) == add_tan(opt_sym(old(insts)@, a, env), opt_sym(old(insts)@, b, env)),
{
    match (a, b) {
        (Some(x), Some(y)) => Some(push_inst(insts, InstructionData::Binary(BinaryOp::Add, x, y), Ghost(env), Ghost(n))),
        (Some(x), None) => Some(x),
        (None, Some(y)) => Some(y),
        (None, None) => None,
    }
}

/// Emits the difference of two optional tangents.
fn emit_sub_tan(
    insts: &mut Vec<InstructionData>,
    a: Option<Inst>,
    b: Option<Inst>,
    Ghost(env): Ghost<Seq<Sym>>,
    Ghost(n): Ghost<nat>,
) -> (r: Option<Inst>)
    requires
        insts_wf(old(insts)@, n),
        opt_in(a, old(insts)@.len()),
        opt_in(b, old(insts)@.len()),
    ensures
        final(insts)@ == old(insts)@ + sub_code(a, b, old(insts)@.len()).0,
        r == sub_code(a, b, old(insts)@.len()).1,
        is_prefix(old(insts)@, final(insts)@),
        insts_wf(final(insts)@, n),
        opt_in(r, final(insts)@.len()),
        opt_sym(final(insts)@, r, env) == sub_tan(opt_sym(old(insts)@, a, env), opt_sym(old(insts)@, b, env)),
{
    match (a, b) {
        (Some(x), Some(y)) => Some(push_inst(insts, InstructionData::Binary(BinaryOp::Sub, x, y), Ghost(env), Ghost(n))),
        (Some(x), None) => Some(x),
        (None, Some(y)) => Some(push_inst(insts, InstructionData::Unary(UnaryOp::Neg, y), Ghost(env), Ghost(n))),
        (None, None) => None,
    }
}

/// Emits `x * t` (or `t * x` when `left`) for a present tangent `t`.
fn emit_scale(
    insts: &mut Vec<InstructionData>,
    t: Option<Inst>,
    x: Inst,
    left: bool,
    Ghost(env): Ghost<Seq<Sym>>,
    Ghost(n): Ghost<nat>,
) -> (r: Option<Inst>)
    requires
        insts_wf(old(insts)@, n),
        opt_in(t, old(insts)@.len()),
        x < old(insts)@.len(),
    ensures
        final(insts)@ == old(insts)@ + scale_code(t, x, left, old(insts)@.len()).0,
        r == scale_code(t, x, left, old(insts)@.len()).1,
        is_prefix(old(insts)@, final(insts)@),
        insts_wf(final(insts)@, n),
        opt_in(r, final(insts)@.len()),
        opt_sym(final(insts)@, r, env) == match opt_sym(old(insts)@, t, env) {
            Some(d) => Some(
                if left {
                    bin(BinaryOp::Mul, d, inst_sym(old(insts)@, x as int, env))
                } else {
                    bin(BinaryOp::Mul, inst_sym(old(insts)@, x as int, env), d)
                },
            ),
            None => None,
        },
{
    match t {
        Some(d) => {
            if left {
                Some(push_inst(insts, InstructionData::Binary(BinaryOp::Mul, d, x), Ghost(env), Ghost(n)))
            } else {
                Some(push_inst(insts, InstructionData::Binary(BinaryOp::Mul, x, d), Ghost(env), Ghost(n)))
            }
        },
        None => None,
    }
}

/// Emits the tangent of a binary operation on `pa` and `pb` whose result is
/// `primal`, with operand tangents `ta` and `tb`.
fn emit_binary_tan(
    insts: &mut Vec<InstructionData>,
    op: BinaryOp,
    pa: Inst,
    pb: Inst,
    primal: Inst,
    ta: Option<Inst>,
    tb: Option<Inst>,
    Ghost(env): Ghost<Seq<Sym>>,
    Ghost(n): Ghost<nat>,
) -> (r: Option<Inst>)
    requires
        insts_wf(old(insts)@, n),
        pa < old(insts)@.len(),
        pb < old(insts)@.len(),
        primal < old(insts)@.len(),
        opt_in(ta, old(insts)@.len()),
        opt_in(tb, old(insts)@.len()),
        inst_sym(old(insts)@, primal as int, env) == bin(
            op,
            inst_sym(old(insts)@, pa as int, env),
            inst_sym(old(insts)@, pb as int, env),
        ),
    ensures
        final(insts)@ == old(insts)@ + binary_code(op, pa, pb, primal, ta, tb, old(insts)@.len()).0,
        r == binary_code(op, pa, pb, primal, ta, tb, old(insts)@.len()).1,
        is_prefix(old(insts)@, final(insts)@),
        insts_wf(final(insts)@, n),
        opt_in(r, final(insts)@.len()),
        opt_sym(final(insts)@, r, env) == binary_tan(
            op,
            inst_sym(old(insts)@, pa as int, env),
            inst_sym(old(insts)@, pb as int, env),
            opt_sym(old(insts)@, ta, env),
            opt_sym(old(insts)@, tb, env),
        ),
{
    let ghost s0 = insts@;
    match op {
        BinaryOp::Add => emit_add_tan(insts, ta, tb, Ghost(env), Ghost(n)),
        BinaryOp::Sub => emit_sub_tan(insts, ta, tb, Ghost(env), Ghost(n)),
        BinaryOp::Mul => {
            let l = emit_scale(insts, ta, pb, true, Ghost(env), Ghost(n));
            let ghost s1 = insts@;
            let r = emit_scale(insts, tb, pa, false, Ghost(env), Ghost(n));
            let ghost s2 = insts@;
            proof {
                lemma_prefix_sym(s0, s1, env);
                lemma_prefix_sym(s1, s2, env);
                if let Some(t) = ta {
                    assert(inst_sym(s1, t as int, env) == inst_sym(s0, t as int, env));
                }
                if let Some(t) = tb {
                    assert(inst_sym(s1, t as int, env) == inst_sym(s0, t as int, env));
                }
                if let Some(t) = l {
                    assert(inst_sym(s2, t as int, env) == inst_sym(s1, t as int, env));
                }
            }
            let res = emit_add_tan(insts, l, r, Ghost(env), Ghost(n));
            proof {
                lemma_prefix_sym(s2, insts@, env);
                lemma_prefix_sym(s1, insts@, env);
            }
            res
        },
        BinaryOp::Div => {
            // q = a/b  =>  dq = (da - q*db) / b, reusing the primal quotient.
            let qd = emit_scale(insts, tb, primal, false, Ghost(env), Ghost(n));
            let ghost s1 = insts@;
            proof {
                lemma_prefix_sym(s0, s1, env);
                if let Some(t) = ta {
                    assert(inst_sym(s1, t as int, env) == inst_sym(s0, t as int, env));
                }
                if let Some(t) = tb {
                    assert(inst_sym(s1, t as int, env) == inst_sym(s0, t as int, env));
                }
            }
            let num = emit_sub_tan(insts, ta, qd, Ghost(env), Ghost(n));
            let ghost s2 = insts@;
            proof {
                lemma_prefix_sym(s1, s2, env);
                lemma_prefix_sym(s0, s2, env);
            }
            match num {
                Some(nu) => {
                    let d = push_inst(insts, InstructionData::Binary(BinaryOp::Div, nu, pb), Ghost(env), Ghost(n));
                    proof {
                        lemma_prefix_sym(s2, insts@, env);
                        lemma_prefix_sym(s0, insts@, env);
                    }
                    Some(d)
                },
                None => None,
            }
        },
    }
}

impl Function {
    /// The forward-mode transform: a function of the primals followed by
    /// their tangents, returning the primal returns followed by the
    /// tangents of the returns (a shared zero where a return has none).
    #[verifier::rlimit(100)]
    pub fn forward(&self) -> (g: Function)
        requires
            self.wf(),
            2 * self.num_params <= u32::MAX,
        ensures
            g.wf(),
            g.num_params == 2 * self.num_params,
            g.returns@.len() == 2 * self.returns@.len(),
            forall|k: int|
                0 <= k < self.returns@.len() ==> #[trigger] g.return_sym(k) == inst_sym(
                    self.insts@,
                    self.returns@[k] as int,
                    param_syms(self.num_params as nat),
                ),
            forall|k: int|
                0 <= k < self.returns@.len() ==> #[trigger] g.return_sym(self.returns@.len() + k) == tan_or_zero(
                    self.insts@,
                    self.returns@[k] as int,
                    self.num_params as nat,
                ),
            // The instructions: those emitted for each instruction in turn
            // (its primal, then what its tangent needs), then one zero shared
            // by every return without a tangent, if there is such a return.
            g.insts@ == forward_code(self.insts@, self.num_params, self.insts@.len() as int).0 + if zero_needed(
                forward_code(self.insts@, self.num_params, self.insts@.len() as int).1,
                self.returns@,
            ) {
                seq![InstructionData::Constant(Bits64(0))]
            } else {
                Seq::empty()
            },
            forall|k: int|
                0 <= k < self.returns@.len() ==> #[trigger] g.returns@[k] == forward_code(
                    self.insts@,
                    self.num_params,
                    self.insts@.len() as int,
                ).1[self.returns@[k] as int].0,
            forall|k: int|
                0 <= k < self.returns@.len() ==> #[trigger] g.returns@[self.returns@.len() + k] == match forward_code(
                    self.insts@,
                    self.num_params,
                    self.insts@.len() as int,
                ).1[self.returns@[k] as int].1 {
                    Some(t) => t,
                    None => forward_code(self.insts@, self.num_params, self.insts@.len() as int).0.len() as Inst,
                },
    {
        let n = self.num_params;
        let ghost nn = n as nat;
        let ghost env2 = param_syms(2 * nn);
        let ghost envn = param_syms(nn);
        let ghost f = self.insts@;
        let mut insts: Vec<InstructionData> = Vec::new();
        // For each instruction of `self`: (primal, tangent); a `None`
        // tangent is a structural zero and is never materialized.
        let mut map: Vec<(Inst, Option<Inst>)> = Vec::new();
        let mut i: usize = 0;
        while i < self.insts.len()
            invariant
                self.wf(),
                f == self.insts@,
                n == self.num_params,
                nn == n,
                2 * n <= u32::MAX,
                env2 == param_syms(2 * nn),
                envn == param_syms(nn),
                i <= f.len(),
                insts_wf(insts@, 2 * nn),
                map@.len() == i,
                forall|j: int|
                    0 <= j < i ==> (#[trigger] map@[j]).0 < insts@.len() && inst_sym(
                        insts@,
                        map@[j].0 as int,
                        env2,
                    ) == inst_sym(f, j, envn) && opt_in(map@[j].1, insts@.len() as nat) && opt_sym(
                        insts@,
                        map@[j].1,
                        env2,
                    ) == tan_sym(f, j, nn),
                insts@ == forward_code(f, n, i as int).0,
                map@ == forward_code(f, n, i as int).1,
            decreases f.len() - i,
        {
            let ghost s0 = insts@;
            assert(insts_wf(self.insts@, self.num_params as nat));
            assert(inst_ok(self.insts@[i as int], i as int, self.num_params as nat));
            let data = self.insts[i];
            assert(inst_ok(data, i as int, nn));
            let entry: (Inst, Option<Inst>) = match data {
                InstructionData::Param(p) => {
                    let primal = push_inst(&mut insts, InstructionData::Param(p), Ghost(env2), Ghost(2 * nn));
                    let ghost s1 = insts@;
                    let tangent = push_inst(&mut insts, InstructionData::Param(n + p), Ghost(env2), Ghost(2 * nn));
                    proof {
                        lemma_prefix_trans(s0, s1, insts@);
                    }
                    (primal, Some(tangent))
                },
                InstructionData::Constant(c) => {
                    let primal = push_inst(&mut insts, InstructionData::Constant(c), Ghost(env2), Ghost(2 * nn));
                    (primal, None)
                },
                InstructionData::Unary(op, a) => {
                    let (pa, ta) = map[a];
                    let primal = push_inst(&mut insts, InstructionData::Unary(op, pa), Ghost(env2), Ghost(2 * nn));
                    let ghost s1 = insts@;
                    let tangent = match ta {
                        Some(t) => Some(emit_unary_tan(&mut insts, op, pa, t, Ghost(env2), Ghost(2 * nn))),
                        None => None,
                    };
                    proof {
                        if ta is None {
                            assert(is_prefix(s1, insts@));
                        }
                    }
                    proof {
                        lemma_prefix_sym(s1, insts@, env2);
                        lemma_prefix_trans(s0, s1, insts@);
                    }
                    (primal, tangent)
                },
                InstructionData::Binary(op, a, b) => {
                    let (pa, ta) = map[a];
                    let (pb, tb) = map[b];
                    let primal = push_inst(&mut insts, InstructionData::Binary(op, pa, pb), Ghost(env2), Ghost(2 * nn));
                    let ghost s1 = insts@;
                    let tangent = emit_binary_tan(&mut insts, op, pa, pb, primal, ta, tb, Ghost(env2), Ghost(2 * nn));
                    proof {
                        lemma_prefix_sym(s1, insts@, env2);
                        lemma_prefix_trans(s0, s1, insts@);
                    }
                    (primal, tangent)
                },
            };
            proof {
                assert(is_prefix(s0, insts@));
                lemma_prefix_sym(s0, insts@, env2);
                let c = inst_code(data, n, map@, s0.len());
                assert(insts@ =~= s0 + c.0);
                assert(entry == c.1);
            }
            map.push(entry);
            i += 1;
        }
        // Returns: primals, then tangents (a lazily created zero for
        // returns that do not depend on any parameter).
        let ghost body = insts@;
        let ghost fc = forward_code(f, n, f.len() as int);
        let mut zero: Option<Inst> = None;
        let mut rets: Vec<Inst> = Vec::new();
        let mut k: usize = 0;
        while k < self.returns.len()
            invariant
                self.wf(),
                k <= self.returns@.len(),
                map@.len() == f.len(),
                f == self.insts@,
                rets@.len() == k,
                forall|j: int|
                    0 <= j < map@.len() ==> (#[trigger] map@[j]).0 < insts@.len(),
                forall|j: int|
                    0 <= j < k ==> #[trigger] rets@[j] == map@[self.returns@[j] as int].0,
                insts@ == body,
            decreases self.returns@.len() - k,
        {
            rets.push(map[self.returns[k]].0);
            k += 1;
        }
        let mut k: usize = 0;
        while k < self.returns.len()
            invariant
                self.wf(),
                f == self.insts@,
                n == self.num_params,
                nn == n,
                env2 == param_syms(2 * nn),
                envn == param_syms(nn),
                k <= self.returns@.len(),
                map@.len() == f.len(),
                insts_wf(insts@, 2 * nn),
                rets@.len() == self.returns@.len() + k,
                forall|j: int|
                    0 <= j < map@.len() ==> (#[trigger] map@[j]).0 < insts@.len() && inst_sym(
                        insts@,
                        map@[j].0 as int,
                        env2,
                    ) == inst_sym(f, j, envn) && opt_in(map@[j].1, insts@.len() as nat) && opt_sym(
                        insts@,
                        map@[j].1,
                        env2,
                    ) == tan_sym(f, j, nn),
                forall|j: int|
                    0 <= j < self.returns@.len() ==> #[trigger] rets@[j] == map@[self.returns@[j] as int].0,
                forall|j: int|
                    0 <= j < k ==> rets@[self.returns@.len() + j] < insts@.len() && inst_sym(
                        insts@,
                        #[trigger] rets@[self.returns@.len() + j] as int,
                        env2,
                    ) == tan_or_zero(f, self.returns@[j] as int, nn),
                opt_in(zero, insts@.len() as nat),
                zero matches Some(z) ==> inst_sym(insts@, z as int, env2) == zero_sym(),
                body == fc.0,
                map@ == fc.1,
                zero is None ==> insts@ == body && forall|j: int| 0 <= j < k ==> (#[trigger] map@[self.returns@[j] as int]).1 is Some,
                zero is Some ==> zero->0 == body.len() && insts@ == body.push(InstructionData::Constant(Bits64(0)))
                    && exists|j: int| 0 <= j < k && (#[trigger] map@[self.returns@[j] as int]).1 is None,
                forall|j: int|
                    0 <= j < k ==> #[trigger] rets@[self.returns@.len() + j] == match map@[self.returns@[j] as int].1 {
                        Some(t) => t,
                        None => body.len() as Inst,
                    },
            decreases self.returns@.len() - k,
        {
            let r = self.returns[k];
            let ghost s0 = insts@;
            let t = match map[r].1 {
                Some(t) => t,
                None => match zero {
                    Some(z) => z,
                    None => {
                        let z = push_inst(&mut insts, InstructionData::Constant(Bits64(0)), Ghost(env2), Ghost(2 * nn));
                        zero = Some(z);
                        z
                    },
                },
            };
            proof {
                lemma_prefix_sym(s0, insts@, env2);
                assert forall|j: int| 0 <= j < map@.len() implies (#[trigger] map@[j]).0 < insts@.len() && inst_sym(
                    insts@,
                    map@[j].0 as int,
                    env2,
                ) == inst_sym(f, j, envn) && opt_in(map@[j].1, insts@.len() as nat) && opt_sym(
                    insts@,
                    map@[j].1,
                    env2,
                ) == tan_sym(f, j, nn) by {
                    if let Some(t2) = map@[j].1 {
                        assert(inst_sym(insts@, t2 as int, env2) == inst_sym(s0, t2 as int, env2));
                    }
                }
                assert forall|j: int|
                    0 <= j < k implies rets@[self.returns@.len() + j] < insts@.len() && inst_sym(
                        insts@,
                        #[trigger] rets@[self.returns@.len() + j] as int,
                        env2,
                    ) == tan_or_zero(f, self.returns@[j] as int, nn) by {
                    assert(inst_sym(insts@, rets@[self.returns@.len() + j] as int, env2) == inst_sym(
                        s0,
                        rets@[self.returns@.len() + j] as int,
                        env2,
                    ));
                }
            }
            let ghost r0 = rets@;
            rets.push(t);
            proof {
                assert forall|j: int| 0 <= j < k + 1 implies #[trigger] rets@[self.returns@.len() + j] == match map@[self.returns@[j] as int].1 {
                    Some(t) => t,
                    None => body.len() as Inst,
                } by {
                    if j < k {
                        assert(rets@[self.returns@.len() + j] == r0[self.returns@.len() + j]);
                    }
                }
                if map@[r as int].1 is None {
                    assert(map@[self.returns@[k as int] as int].1 is None);
                }
            }
            k += 1;
        }
        let g = Function { insts, num_params: 2 * n, returns: rets };
        proof {
            if zero is Some {
                let j = choose|j: int| 0 <= j < self.returns@.len() && (#[trigger] map@[self.returns@[j] as int]).1 is None;
                assert(zero_needed(fc.1, self.returns@));
            } else {
                assert(!zero_needed(fc.1, self.returns@));
                assert(g.insts@ =~= body + Seq::empty());
            }
            assert forall|k: int| 0 <= k < self.returns@.len() implies #[trigger] g.returns@[k] == fc.1[self.returns@[k] as int].0 by {
                assert(g.returns@[k] == map@[self.returns@[k] as int].0);
            }
            assert forall|k: int| 0 <= k < self.returns@.len() implies #[trigger] g.return_sym(k) == inst_sym(
                self.insts@,
                self.returns@[k] as int,
                param_syms(self.num_params as nat),
            ) by {
                assert(g.returns@[k] == map@[self.returns@[k] as int].0);
            }
            assert forall|k: int| 0 <= k < g.returns@.len() implies #[trigger] g.returns@[k] < g.insts@.len() by {
                if k < self.returns@.len() {
                    assert(g.returns@[k] == map@[self.returns@[k] as int].0);
                } else {
                    assert(g.returns@[self.returns@.len() + (k - self.returns@.len())] < g.insts@.len());
                }
            }
        }
        g
    }
}

} // verus!
