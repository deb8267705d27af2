//! Reverse-mode gradients of expression tapes, by source transformation:
//! the forward instructions are kept as the prefix of the result, and the
//! adjoint of every needed instruction is appended after them.
use vstd::prelude::*;

use crate::bits::Bits64;
use crate::deriv::ONE_BITS;
use crate::expr::{instr_ok, instr_term, lemma_instr_term_extends, zero_term, BinaryOp, Instr, Slot, Tape, Term, UnaryOp};

verus! {

/// Bits of the constant two.
pub const TWO_BITS: u64 = 0x4000_0000_0000_0000;

/// Every instruction of `insts` reads only earlier ones.
pub open spec fn tape_ok(insts: Seq<Instr>) -> bool {
    forall|i: int| 0 <= i < insts.len() ==> instr_ok(#[trigger] insts[i], i)
}

/// The reverse sweep has a rule for `d`.
pub open spec fn has_rule(d: Instr) -> bool {
    match d {
        Instr::Unary(op, _) => op != UnaryOp::Abs,
        Instr::Binary(op, _, _) => op == BinaryOp::Add || op == BinaryOp::Sub || op == BinaryOp::Mul || op
            == BinaryOp::Div,
        _ => true,
    }
}

/// Every instruction of `insts` has a rule.
pub open spec fn has_rules(insts: Seq<Instr>) -> bool {
    forall|i: int| 0 <= i < insts.len() ==> has_rule(#[trigger] insts[i])
}

pub open spec fn un(op: UnaryOp, a: Term) -> Term {
    Term::Unary(op, Box::new(a))
}

pub open spec fn bin(op: BinaryOp, a: Term, b: Term) -> Term {
    Term::Binary(op, Box::new(a), Box::new(b))
}

/// What an instruction `y = op(x)` passes back to `x`, given the adjoint
/// `adj` of `y`.
pub open spec fn unary_rule(op: UnaryOp, adj: Term, x: Term, y: Term) -> Term {
    match op {
        UnaryOp::Neg => un(UnaryOp::Neg, adj),
        UnaryOp::Sin => bin(BinaryOp::Mul, adj, un(UnaryOp::Cos, x)),
        UnaryOp::Cos => un(UnaryOp::Neg, bin(BinaryOp::Mul, adj, un(UnaryOp::Sin, x))),
        UnaryOp::Exp => bin(BinaryOp::Mul, adj, y),
        UnaryOp::Ln => bin(BinaryOp::Div, adj, x),
        _ => bin(BinaryOp::Div, adj, bin(BinaryOp::Mul, Term::Const(Bits64(TWO_BITS)), y)),
    }
}

/// What an instruction `y = op(a, b)` passes back to `a` and to `b`, given
/// the adjoint `adj` of `y`.
pub open spec fn binary_rule(op: BinaryOp, adj: Term, a: Term, b: Term, y: Term) -> (Term, Term) {
    match op {
        BinaryOp::Add => (adj, adj),
        BinaryOp::Sub => (adj, un(UnaryOp::Neg, adj)),
        BinaryOp::Mul => (bin(BinaryOp::Mul, adj, b), bin(BinaryOp::Mul, adj, a)),
        _ => (bin(BinaryOp::Div, adj, b), un(UnaryOp::Neg, bin(BinaryOp::Div, bin(BinaryOp::Mul, adj, y), b))),
    }
}

/// Adds contribution `c` to an adjoint: the first one stands alone, each
/// later one is added to the sum so far.
pub open spec fn add_to(prev: Option<Term>, c: Term) -> Option<Term> {
    match prev {
        None => Some(c),
        Some(p) => Some(bin(BinaryOp::Add, p, c)),
    }
}

/// The adjoint of instruction `t` once the sweep from `out` has passed
/// instructions `i..` in decreasing order: one at `out` itself, then the
/// contributions of each instruction that reads `t` and has an adjoint;
/// `None` where nothing has reached `t`.
pub open spec fn adjoint_from(insts: Seq<Instr>, out: int, t: int, i: int) -> Option<Term>
    decreases insts.len() - i,
{
    if i >= insts.len() {
        if t == out {
            Some(Term::Const(Bits64(ONE_BITS)))
        } else {
            None
        }
    } else {
        let prev = adjoint_from(insts, out, t, i + 1);
        match adjoint_from(insts, out, i, i + 1) {
            None => prev,
            Some(adj) => match insts[i] {
                Instr::Unary(op, x) => if x == t {
                    add_to(prev, unary_rule(op, adj, instr_term(insts, x as int), instr_term(insts, i)))
                } else {
                    prev
                },
                Instr::Binary(op, x, y) => {
                    let cs = binary_rule(
                        op,
                        adj,
                        instr_term(insts, x as int),
                        instr_term(insts, y as int),
                        instr_term(insts, i),
                    );
                    let p = if x == t {
                        add_to(prev, cs.0)
                    } else {
                        prev
                    };
                    if y == t {
                        add_to(p, cs.1)
                    } else {
                        p
                    }
                },
                _ => prev,
            },
        }
    }
}

/// The adjoint of instruction `t` after the whole sweep from `out`.
pub open spec fn adjoint(insts: Seq<Instr>, out: int, t: int) -> Option<Term> {
    adjoint_from(insts, out, t, 0)
}

/// The sum of the adjoints of the instructions before `k` that read
/// variable `v`, in instruction order.
pub open spec fn var_adjoint_upto(insts: Seq<Instr>, out: int, v: u32, k: int) -> Option<Term>
    decreases k,
{
    if k <= 0 {
        None
    } else {
        let p = var_adjoint_upto(insts, out, v, k - 1);
        if insts[k - 1] == Instr::Input(v) {
            match adjoint(insts, out, k - 1) {
                Some(a) => add_to(p, a),
                None => p,
            }
        } else {
            p
        }
    }
}

/// The derivative of instruction `out` with respect to variable `v`, as
/// the reverse sweep builds it; the constant zero where `out` does not
/// depend on `v`.
pub open spec fn gradient_term(insts: Seq<Instr>, out: int, v: u32) -> Term {
    match var_adjoint_upto(insts, out, v, insts.len() as int) {
        Some(t) => t,
        None => zero_term(),
    }
}

/// What an optional slot of `b` computes.
pub open spec fn opt_term(b: Seq<Instr>, s: Option<Slot>) -> Option<Term> {
    match s {
        None => None,
        Some(s) => Some(instr_term(b, s as int)),
    }
}

pub open spec fn slot_in(b: Seq<Instr>, s: Option<Slot>) -> bool {
    match s {
        None => true,
        Some(s) => s < b.len(),
    }
}

proof fn lemma_opt_term_extends(old: Seq<Instr>, new: Seq<Instr>, s: Option<Slot>)
    requires
        old.is_prefix_of(new),
        slot_in(old, s),
    ensures
        opt_term(new, s) == opt_term(old, s),
        slot_in(new, s),
{
    if let Some(x) = s {
        lemma_instr_term_extends(old, new, x as int);
    }
}

pub(crate) proof fn lemma_prefix_trans(a: Seq<Instr>, b: Seq<Instr>, c: Seq<Instr>)
    requires
        a.is_prefix_of(b),
        b.is_prefix_of(c),
    ensures
        a.is_prefix_of(c),
{
    assert forall|j: int| 0 <= j < a.len() implies a[j] == c[j] by {
        assert(a[j] == b[j]);
    }
    assert(a =~= c.subrange(0, a.len() as int));
}

/// Appends `d` to `b`; its slot is returned.
fn push_instr(b: &mut Vec<Instr>, d: Instr) -> (s: Slot)
    requires
        tape_ok(old(b)@),
        instr_ok(d, old(b)@.len() as int),
    ensures
        final(b)@ == old(b)@.push(d),
        s == old(b)@.len(),
        tape_ok(final(b)@),
        has_rules(old(b)@) && has_rule(d) ==> has_rules(final(b)@),
        forall|j: int| 0 <= j < old(b)@.len() ==> #[trigger] instr_term(final(b)@, j) == instr_term(old(b)@, j),
{
    let s = b.len();
    b.push(d);
    proof {
        assert forall|i: int| 0 <= i < b@.len() implies instr_ok(#[trigger] b@[i], i) by {
            if i < s {
                assert(b@[i] == old(b)@[i]);
            }
        }
        if has_rules(old(b)@) && has_rule(d) {
            assert forall|i: int| 0 <= i < b@.len() implies has_rule(#[trigger] b@[i]) by {
                if i < s {
                    assert(b@[i] == old(b)@[i]);
                }
            }
        }
        assert forall|j: int| 0 <= j < old(b)@.len() implies #[trigger] instr_term(b@, j) == instr_term(
            old(b)@,
            j,
        ) by {
            lemma_instr_term_extends(old(b)@, b@, j);
        }
    }
    s
}

/// Appends `op(a)`.
fn unary_at(b: &mut Vec<Instr>, op: UnaryOp, a: Slot) -> (s: Slot)
    requires
        tape_ok(old(b)@),
        a < old(b)@.len(),
        op != UnaryOp::Abs,
    ensures
        old(b)@.is_prefix_of(final(b)@),
        has_rules(old(b)@) ==> has_rules(final(b)@),
        final(b)@.len() == old(b)@.len() + 1,
        tape_ok(final(b)@),
        s == old(b)@.len(),
        instr_term(final(b)@, s as int) == un(op, instr_term(old(b)@, a as int)),
        forall|j: int| 0 <= j < old(b)@.len() ==> #[trigger] instr_term(final(b)@, j) == instr_term(old(b)@, j),
{
    let s = push_instr(b, Instr::Unary(op, a));
    assert(instr_term(b@, a as int) == instr_term(old(b)@, a as int));
    s
}

/// Appends `op(x, y)`.
fn binary_at(b: &mut Vec<Instr>, op: BinaryOp, x: Slot, y: Slot) -> (s: Slot)
    requires
        tape_ok(old(b)@),
        x < old(b)@.len(),
        y < old(b)@.len(),
        op == BinaryOp::Add || op == BinaryOp::Mul || op == BinaryOp::Div,
    ensures
        old(b)@.is_prefix_of(final(b)@),
        has_rules(old(b)@) ==> has_rules(final(b)@),
        final(b)@.len() == old(b)@.len() + 1,
        tape_ok(final(b)@),
        s == old(b)@.len(),
        instr_term(final(b)@, s as int) == bin(op, instr_term(old(b)@, x as int), instr_term(old(b)@, y as int)),
        forall|j: int| 0 <= j < old(b)@.len() ==> #[trigger] instr_term(final(b)@, j) == instr_term(old(b)@, j),
{
    let s = push_instr(b, Instr::Binary(op, x, y));
    assert(instr_term(b@, x as int) == instr_term(old(b)@, x as int));
    assert(instr_term(b@, y as int) == instr_term(old(b)@, y as int));
    s
}

/// Appends the constant `c`.
fn const_at(b: &mut Vec<Instr>, c: Bits64) -> (s: Slot)
    requires
        tape_ok(old(b)@),
    ensures
        old(b)@.is_prefix_of(final(b)@),
        has_rules(old(b)@) ==> has_rules(final(b)@),
        final(b)@.len() == old(b)@.len() + 1,
        tape_ok(final(b)@),
        s == old(b)@.len(),
        instr_term(final(b)@, s as int) == Term::Const(c),
        forall|j: int| 0 <= j < old(b)@.len() ==> #[trigger] instr_term(final(b)@, j) == instr_term(old(b)@, j),
{
    push_instr(b, Instr::Const(c))
}

/// Adds the contribution computed at slot `c` to the adjoint of `target`.
fn contribute(b: &mut Vec<Instr>, adj: &mut Vec<Option<Slot>>, target: Slot, c: Slot)
    requires
        tape_ok(old(b)@),
        target < old(adj)@.len(),
        c < old(b)@.len(),
        slot_in(old(b)@, old(adj)@[target as int]),
    ensures
        old(b)@.is_prefix_of(final(b)@),
        has_rules(old(b)@) ==> has_rules(final(b)@),
        tape_ok(final(b)@),
        final(adj)@.len() == old(adj)@.len(),
        forall|j: int| 0 <= j < old(adj)@.len() && j != target ==> #[trigger] final(adj)@[j] == old(adj)@[j],
        slot_in(final(b)@, final(adj)@[target as int]),
        opt_term(final(b)@, final(adj)@[target as int]) == add_to(
            opt_term(old(b)@, old(adj)@[target as int]),
            instr_term(old(b)@, c as int),
        ),
{
    match adj[target] {
        None => {
            adj.set(target, Some(c));
        },
        Some(prev) => {
            let s = binary_at(b, BinaryOp::Add, prev, c);
            adj.set(target, Some(s));
        },
    }
}

/// Appends what `y = op(x)`, at slot `y`, passes back to `x` given the
/// adjoint at slot `a`.
fn unary_contribution(b: &mut Vec<Instr>, op: UnaryOp, a: Slot, x: Slot, y: Slot) -> (c: Slot)
    requires
        tape_ok(old(b)@),
        a < old(b)@.len(),
        x < old(b)@.len(),
        y < old(b)@.len(),
        op != UnaryOp::Abs,
    ensures
        old(b)@.is_prefix_of(final(b)@),
        has_rules(old(b)@) ==> has_rules(final(b)@),
        tape_ok(final(b)@),
        c < final(b)@.len(),
        instr_term(final(b)@, c as int) == unary_rule(
            op,
            instr_term(old(b)@, a as int),
            instr_term(old(b)@, x as int),
            instr_term(old(b)@, y as int),
        ),
        forall|j: int| 0 <= j < old(b)@.len() ==> #[trigger] instr_term(final(b)@, j) == instr_term(old(b)@, j),
{
    match op {
        UnaryOp::Neg => unary_at(b, UnaryOp::Neg, a),
        UnaryOp::Sin => {
            let k = unary_at(b, UnaryOp::Cos, x);
            binary_at(b, BinaryOp::Mul, a, k)
        },
        UnaryOp::Cos => {
            let k = unary_at(b, UnaryOp::Sin, x);
            let m = binary_at(b, BinaryOp::Mul, a, k);
            unary_at(b, UnaryOp::Neg, m)
        },
        UnaryOp::Exp => binary_at(b, BinaryOp::Mul, a, y),
        UnaryOp::Ln => binary_at(b, BinaryOp::Div, a, x),
        _ => {
            // Sqrt, the one left
            let two = const_at(b, Bits64(TWO_BITS));
            let d = binary_at(b, BinaryOp::Mul, two, y);
            binary_at(b, BinaryOp::Div, a, d)
        },
    }
}

/// Appends what `z = op(x, y)`, at slot `z`, passes back to `x` and to `y`
/// given the adjoint at slot `a`.
fn binary_contributions(b: &mut Vec<Instr>, op: BinaryOp, a: Slot, x: Slot, y: Slot, z: Slot) -> (cs: (
    Slot,
    Slot,
))
    requires
        tape_ok(old(b)@),
        a < old(b)@.len(),
        x < old(b)@.len(),
        y < old(b)@.len(),
        z < old(b)@.len(),
        op == BinaryOp::Add || op == BinaryOp::Sub || op == BinaryOp::Mul || op == BinaryOp::Div,
    ensures
        old(b)@.is_prefix_of(final(b)@),
        has_rules(old(b)@) ==> has_rules(final(b)@),
        tape_ok(final(b)@),
        cs.0 < final(b)@.len(),
        cs.1 < final(b)@.len(),
        instr_term(final(b)@, cs.0 as int) == binary_rule(
            op,
            instr_term(old(b)@, a as int),
            instr_term(old(b)@, x as int),
            instr_term(old(b)@, y as int),
            instr_term(old(b)@, z as int),
        ).0,
        instr_term(final(b)@, cs.1 as int) == binary_rule(
            op,
            instr_term(old(b)@, a as int),
            instr_term(old(b)@, x as int),
            instr_term(old(b)@, y as int),
            instr_term(old(b)@, z as int),
        ).1,
        forall|j: int| 0 <= j < old(b)@.len() ==> #[trigger] instr_term(final(b)@, j) == instr_term(old(b)@, j),
{
    match op {
        BinaryOp::Add => (a, a),
        BinaryOp::Sub => {
            let n = unary_at(b, UnaryOp::Neg, a);
            (a, n)
        },
        BinaryOp::Mul => {
            let da = binary_at(b, BinaryOp::Mul, a, y);
            let db = binary_at(b, BinaryOp::Mul, a, x);
            (da, db)
        },
        _ => {
            // Div, the one left: d/dx = adj / y, d/dy = -(adj * z) / y
            let da = binary_at(b, BinaryOp::Div, a, y);
            let t = binary_at(b, BinaryOp::Mul, a, z);
            let t = binary_at(b, BinaryOp::Div, t, y);
            let db = unary_at(b, UnaryOp::Neg, t);
            (da, db)
        },
    }
}

/// `adj` holds, over `b`, the adjoints of the sweep from `out` over `fwd`
/// once it has passed instructions `i..`.
pub open spec fn sweep_at(fwd: Seq<Instr>, b: Seq<Instr>, adj: Seq<Option<Slot>>, out: int, i: int) -> bool {
    &&& fwd.is_prefix_of(b)
    &&& tape_ok(b)
    &&& adj.len() == fwd.len()
    &&& forall|t: int|
        0 <= t < fwd.len() ==> slot_in(b, #[trigger] adj[t]) && opt_term(b, adj[t]) == adjoint_from(fwd, out, t, i)
}

proof fn lemma_sweep_extends(
    fwd: Seq<Instr>,
    b0: Seq<Instr>,
    b1: Seq<Instr>,
    adj: Seq<Option<Slot>>,
    out: int,
    i: int,
)
    requires
        sweep_at(fwd, b0, adj, out, i),
        b0.is_prefix_of(b1),
        tape_ok(b1),
    ensures
        sweep_at(fwd, b1, adj, out, i),
{
    assert forall|t: int| 0 <= t < fwd.len() implies slot_in(b1, #[trigger] adj[t]) && opt_term(b1, adj[t])
        == adjoint_from(fwd, out, t, i) by {
        lemma_opt_term_extends(b0, b1, adj[t]);
    }
}

/// Passes instruction `i` of the sweep.
fn sweep_step(b: &mut Vec<Instr>, adj: &mut Vec<Option<Slot>>, fwd: &Vec<Instr>, out: Ghost<int>, i: usize)
    requires
        tape_ok(fwd@),
        has_rules(fwd@),
        i < fwd@.len(),
        sweep_at(fwd@, old(b)@, old(adj)@, out@, i + 1),
    ensures
        old(b)@.is_prefix_of(final(b)@),
        has_rules(old(b)@) ==> has_rules(final(b)@),
        sweep_at(fwd@, final(b)@, final(adj)@, out@, i as int),
{
    let ghost b0 = b@;
    let ghost adj0 = adj@;
    proof {
        assert(instr_ok(fwd@[i as int], i as int));
        assert(has_rule(fwd@[i as int]));
        lemma_instr_term_extends(fwd@, b0, i as int);
    }
    match adj[i] {
        None => {},
        Some(a) => match fwd[i] {
            Instr::Unary(op, x) => {
                proof {
                    lemma_instr_term_extends(fwd@, b0, x as int);
                }
                let c = unary_contribution(b, op, a, x, i);
                let ghost b1 = b@;
                proof {
                    lemma_sweep_extends(fwd@, b0, b1, adj0, out@, i + 1);
                }
                contribute(b, adj, x, c);
                proof {
                    let b2 = b@;
                    assert forall|t: int| 0 <= t < fwd@.len() implies slot_in(b2, #[trigger] adj@[t]) && opt_term(
                        b2,
                        adj@[t],
                    ) == adjoint_from(fwd@, out@, t, i as int) by {
                        if t != x {
                            lemma_opt_term_extends(b1, b2, adj0[t]);
                        }
                    }
                }
            },
            Instr::Binary(op, x, y) => {
                proof {
                    lemma_instr_term_extends(fwd@, b0, x as int);
                }
                proof {
                    lemma_instr_term_extends(fwd@, b0, y as int);
                }
                let cs = binary_contributions(b, op, a, x, y, i);
                let ghost b1 = b@;
                proof {
                    lemma_sweep_extends(fwd@, b0, b1, adj0, out@, i + 1);
                }
                let ghost adj1 = adj@;
                contribute(b, adj, x, cs.0);
                let ghost b2 = b@;
                let ghost adj2 = adj@;
                proof {
                    lemma_instr_term_extends(b1, b2, cs.1 as int);
                }
                proof {
                    lemma_opt_term_extends(b1, b2, adj1[y as int]);
                }
                contribute(b, adj, y, cs.1);
                proof {
                    let b3 = b@;
                    assert forall|t: int| 0 <= t < fwd@.len() implies slot_in(b3, #[trigger] adj@[t]) && opt_term(
                        b3,
                        adj@[t],
                    ) == adjoint_from(fwd@, out@, t, i as int) by {
                        if t != x && t != y {
                            lemma_opt_term_extends(b1, b2, adj0[t]);
                            lemma_opt_term_extends(b2, b3, adj0[t]);
                        } else if t == x && t != y {
                            lemma_opt_term_extends(b2, b3, adj2[t]);
                        }
                    }
                }
            },
            _ => {},
        },
    }
}

/// The reverse sweep from instruction `out` of `fwd`, whose instructions
/// `b` starts with: appends to `b` what the adjoints need and returns the
/// slot of each instruction's adjoint, `None` where `out` does not depend
/// on it.
pub(crate) fn reverse_sweep(b: &mut Vec<Instr>, fwd: &Vec<Instr>, out: Slot) -> (adj: Vec<Option<Slot>>)
    requires
        tape_ok(fwd@),
        has_rules(fwd@),
        fwd@.is_prefix_of(old(b)@),
        tape_ok(old(b)@),
        out < fwd@.len(),
    ensures
        old(b)@.is_prefix_of(final(b)@),
        has_rules(old(b)@) ==> has_rules(final(b)@),
        sweep_at(fwd@, final(b)@, adj@, out as int, 0),
{
    let n = fwd.len();
    let one = const_at(b, Bits64(ONE_BITS));
    let mut adj: Vec<Option<Slot>> = Vec::new();
    let mut k: usize = 0;
    while k < n
        invariant
            k <= n == fwd@.len(),
            one < b@.len(),
            has_rules(old(b)@) ==> has_rules(b@),
            adj@.len() == k,
            forall|t: int| 0 <= t < k ==> #[trigger] adj@[t] == (if t == out { Some(one) } else { None }),
        decreases n - k,
    {
        if k == out {
            adj.push(Some(one));
        } else {
            adj.push(None);
        }
        k += 1;
    }
    let ghost b0 = b@;
    assert(sweep_at(fwd@, b@, adj@, out as int, n as int));
    let mut i = n;
    while i > 0
        invariant
            i <= n == fwd@.len(),
            tape_ok(fwd@),
            has_rules(fwd@),
            old(b)@.is_prefix_of(b@),
            has_rules(old(b)@) ==> has_rules(b@),
            sweep_at(fwd@, b@, adj@, out as int, i as int),
        decreases i,
    {
        i -= 1;
        sweep_step(b, &mut adj, fwd, Ghost(out as int), i);
    }
    adj
}

/// `zero` is unset or the slot of the constant zero in `b`.
pub open spec fn zero_at(b: Seq<Instr>, zero: Option<Slot>) -> bool {
    match zero {
        None => true,
        Some(z) => z < b.len() && instr_term(b, z as int) == zero_term(),
    }
}

/// Every output names a slot of `b`.
pub open spec fn outputs_in(b: Seq<Instr>, outputs: Seq<Slot>) -> bool {
    forall|k: int| 0 <= k < outputs.len() ==> #[trigger] outputs[k] < b.len()
}

/// After a sweep from `out`, appends one output per variable below
/// `n_vars`: the derivative of `out` with respect to it. The constant zero
/// they share is pushed once, at the first variable that needs it.
pub(crate) fn push_input_adjoints(
    b: &mut Vec<Instr>,
    outputs: &mut Vec<Slot>,
    fwd: &Vec<Instr>,
    adj: &Vec<Option<Slot>>,
    out: Ghost<int>,
    n_vars: u32,
    zero: &mut Option<Slot>,
)
    requires
        sweep_at(fwd@, old(b)@, adj@, out@, 0),
        zero_at(old(b)@, *old(zero)),
        outputs_in(old(b)@, old(outputs)@),
    ensures
        old(b)@.is_prefix_of(final(b)@),
        has_rules(old(b)@) ==> has_rules(final(b)@),
        tape_ok(final(b)@),
        zero_at(final(b)@, *final(zero)),
        outputs_in(final(b)@, final(outputs)@),
        final(outputs)@.len() == old(outputs)@.len() + n_vars,
        final(outputs)@.take(old(outputs)@.len() as int) == old(outputs)@,
        forall|v: int|
            0 <= v < n_vars ==> instr_term(final(b)@, #[trigger] final(outputs)@[old(outputs)@.len() + v] as int)
                == gradient_term(fwd@, out@, v as u32),
{
    let ghost b0 = b@;
    let n = fwd.len();
    let mut acc: Vec<Option<Slot>> = Vec::new();
    let mut v: u32 = 0;
    while v < n_vars
        invariant
            v <= n_vars,
            acc@.len() == v,
            forall|w: int| 0 <= w < v ==> #[trigger] acc@[w] == None::<Slot>,
        decreases n_vars - v,
    {
        acc.push(None);
        v += 1;
    }
    let mut s: usize = 0;
    while s < n
        invariant
            s <= n == fwd@.len() == adj@.len(),
            b0.is_prefix_of(b@),
            has_rules(b0) ==> has_rules(b@),
            tape_ok(b@),
            sweep_at(fwd@, b@, adj@, out@, 0),
            acc@.len() == n_vars,
            forall|w: int|
                0 <= w < n_vars ==> slot_in(b@, #[trigger] acc@[w]) && opt_term(b@, acc@[w]) == var_adjoint_upto(
                    fwd@,
                    out@,
                    w as u32,
                    s as int,
                ),
        decreases n - s,
    {
        let ghost b1 = b@;
        let ghost acc1 = acc@;
        if let Instr::Input(x) = fwd[s] {
            if x < n_vars {
                if let Some(a) = adj[s] {
                    contribute(b, &mut acc, x as usize, a);
                    proof {
                        lemma_sweep_extends(fwd@, b1, b@, adj@, out@, 0);
                    }
                }
            }
        }
        proof {
            let b2 = b@;
            assert forall|w: int| 0 <= w < n_vars implies slot_in(b2, #[trigger] acc@[w]) && opt_term(b2, acc@[w])
                == var_adjoint_upto(fwd@, out@, w as u32, s + 1) by {
                assert(var_adjoint_upto(fwd@, out@, w as u32, s + 1) == if fwd@[s as int] == Instr::Input(w as u32) {
                    match adjoint(fwd@, out@, s as int) {
                        Some(a) => add_to(var_adjoint_upto(fwd@, out@, w as u32, s as int), a),
                        None => var_adjoint_upto(fwd@, out@, w as u32, s as int),
                    }
                } else {
                    var_adjoint_upto(fwd@, out@, w as u32, s as int)
                });
                if acc@[w] == acc1[w] {
                    lemma_opt_term_extends(b1, b2, acc1[w]);
                }
            }
        }
        s += 1;
    }
    let ghost b3 = b@;
    let ghost m = outputs@.len();
    let mut v: u32 = 0;
    while v < n_vars
        invariant
            v <= n_vars,
            n == fwd@.len(),
            b0.is_prefix_of(b3),
            b3.is_prefix_of(b@),
            has_rules(b0) ==> has_rules(b@),
            tape_ok(b@),
            zero_at(b@, *zero),
            acc@.len() == n_vars,
            forall|w: int|
                0 <= w < n_vars ==> slot_in(b3, #[trigger] acc@[w]) && opt_term(b3, acc@[w]) == var_adjoint_upto(
                    fwd@,
                    out@,
                    w as u32,
                    n as int,
                ),
            outputs@.len() == m + v,
            outputs@.take(m as int) == old(outputs)@,
            outputs_in(b@, outputs@),
            forall|w: int|
                0 <= w < v ==> instr_term(b@, #[trigger] outputs@[m + w] as int) == gradient_term(
                    fwd@,
                    out@,
                    w as u32,
                ),
        decreases n_vars - v,
    {
        let ghost b4 = b@;
        let slot = match acc[v as usize] {
            Some(x) => x,
            None => match *zero {
                Some(z) => z,
                None => {
                    let z = const_at(b, Bits64(0));
                    *zero = Some(z);
                    z
                },
            },
        };
        proof {
            assert(b3.is_prefix_of(b@)) by {
                assert forall|j: int| 0 <= j < b3.len() implies b3[j] == b@[j] by {
                    assert(b3[j] == b4[j]);
                }
                assert(b3 =~= b@.subrange(0, b3.len() as int));
            }
            lemma_opt_term_extends(b3, b@, acc@[v as int]);
            assert forall|w: int| 0 <= w < v implies instr_term(b@, #[trigger] outputs@[m + w] as int)
                == gradient_term(fwd@, out@, w as u32) by {
                lemma_instr_term_extends(b4, b@, outputs@[m + w] as int);
            }
        }
        proof {
            assert(slot_in(b3, acc@[v as int]) && opt_term(b3, acc@[v as int]) == var_adjoint_upto(
                fwd@,
                out@,
                (v as int) as u32,
                n as int,
            ));
            assert(instr_term(b@, slot as int) == gradient_term(fwd@, out@, v));
        }
        let ghost o4 = outputs@;
        outputs.push(slot);
        proof {
            assert(outputs@.take(m as int) =~= old(outputs)@);
            assert forall|w: int| 0 <= w < v + 1 implies instr_term(b@, #[trigger] outputs@[m + w] as int)
                == gradient_term(fwd@, out@, w as u32) by {
                if w < v {
                    assert(outputs@[m + w] == o4[m + w]);
                }
            }
        }
        v += 1;
    }
    proof {
        assert(outputs@.take(m as int) =~= old(outputs)@);
    }
}

/// Whether `tape` is well formed and the reverse sweep has a rule for each
/// of its instructions: what `gradient`, `jacobian` and `hessian` need.
pub fn can_differentiate(tape: &Tape) -> (r: bool)
    ensures
        r == (tape.wf() && has_rules(tape.insts@)),
{
    let n = tape.insts.len();
    let mut i: usize = 0;
    while i < n
        invariant
            i <= n == tape.insts@.len(),
            forall|j: int| 0 <= j < i ==> instr_ok(#[trigger] tape.insts@[j], j) && has_rule(tape.insts@[j]),
        decreases n - i,
    {
        let ok = match tape.insts[i] {
            Instr::Unary(op, a) => a < i && op != UnaryOp::Abs,
            Instr::Binary(op, a, b) => a < i && b < i && (op == BinaryOp::Add || op == BinaryOp::Sub || op
                == BinaryOp::Mul || op == BinaryOp::Div),
            _ => true,
        };
        if !ok {
            return false;
        }
        i += 1;
    }
    let m = tape.outputs.len();
    let mut k: usize = 0;
    while k < m
        invariant
            k <= m == tape.outputs@.len(),
            n == tape.insts@.len(),
            forall|j: int| 0 <= j < k ==> #[trigger] tape.outputs@[j] < n,
        decreases m - k,
    {
        if tape.outputs[k] >= n {
            return false;
        }
        k += 1;
    }
    true
}

/// The instructions of `g` start with those of `tape`, whose outputs come
/// first; after them come, for each variable below `n_vars`, the
/// derivative of output `output_idx` with respect to it.
pub open spec fn is_gradient(tape: Tape, output_idx: int, n_vars: u32, g: Tape) -> bool {
    let m = tape.outputs@.len();
    &&& g.wf()
    &&& has_rules(g.insts@)
    &&& tape.insts@.is_prefix_of(g.insts@)
    &&& g.outputs@.len() == m + n_vars
    &&& g.outputs@.take(m as int) == tape.outputs@
    &&& forall|v: int|
        0 <= v < n_vars ==> instr_term(g.insts@, #[trigger] g.outputs@[m + v] as int) == gradient_term(
            tape.insts@,
            tape.outputs@[output_idx] as int,
            v as u32,
        )
}

/// The gradient tape of output `output_idx` with respect to the variables
/// below `n_vars`: the instructions of `tape` with the reverse sweep from
/// that output after them, and the outputs of `tape` followed by one
/// derivative per variable.
pub fn gradient(tape: &Tape, output_idx: usize, n_vars: u32) -> (g: Tape)
    requires
        tape.wf(),
        has_rules(tape.insts@),
        output_idx < tape.outputs@.len(),
    ensures
        is_gradient(*tape, output_idx as int, n_vars, g),
{
    let mut b = tape.insts.clone();
    assert(b@ =~= tape.insts@);
    let out = tape.outputs[output_idx];
    let adj = reverse_sweep(&mut b, &tape.insts, out);
    let mut outputs = tape.outputs.clone();
    assert(outputs@ =~= tape.outputs@);
    let mut zero: Option<Slot> = None;
    proof {
        assert(tape.insts@.is_prefix_of(b@));
    }
    push_input_adjoints(&mut b, &mut outputs, &tape.insts, &adj, Ghost(out as int), n_vars, &mut zero);
    Tape { insts: b, outputs }
}

} // verus!
