//! Source-transformation automatic differentiation on graphs.
//!
//! Both transforms take a graph and return a new graph whose outputs are
//! directional derivatives: [`forward`] computes Jacobian-vector products
//! (one block of outputs per seed direction), [`reverse`] computes
//! vector-Jacobian products (one block of outputs per weight vector).
//! Derivative slots that are structurally zero are never emitted; the
//! builder folds constants and simple algebraic identities as it goes, and
//! [`prune`] removes what no input or output needs.
use std::collections::HashMap;

use vstd::prelude::*;

use crate::bits::Bits64;
use crate::function::{bin, un, Sym};
use crate::graph::{ids_below, reached_from_ids, ssa, Function, Node, NodeId};
use crate::op::{BinaryOp, UnaryOp};
use crate::order::{lemma_position, position};
use crate::tape::{lemma_reached_marked, lemma_reaches_operand, node_ok, node_sym, operand_of, reaches};

verus! {

broadcast use vstd::std_specs::hash::group_hash_axioms;

/// Sign bit of an IEEE-754 double.
pub const SIGN_BIT: u64 = 0x8000_0000_0000_0000;

/// Bit pattern of `1.0`.
pub const ONE_BITS: u64 = 0x3ff0_0000_0000_0000;

/// Bit pattern of `-1.0`.
pub const NEG_ONE_BITS: u64 = 0xbff0_0000_0000_0000;

/// Evaluates an operation on constants, so that the builder can replace
/// an operation whose operands are all constant by its value. The values
/// are those of the number format the constants encode, which an
/// implementation supplies: each method computes what its spec function
/// gives.
pub trait ConstantFolder {
    /// The value of `op(x)`, for `Sin` and `Cos`.
    spec fn spec_fold_unary(&self, op: UnaryOp, x: Bits64) -> Bits64;

    /// The value of `op(x, y)`.
    spec fn spec_fold_binary(&self, op: BinaryOp, x: Bits64, y: Bits64) -> Bits64;

    /// The value of `op(x)`, for `Sin` and `Cos`.
    fn fold_unary(&self, op: UnaryOp, x: Bits64) -> (r: Bits64)
        ensures
            r == self.spec_fold_unary(op, x),
    ;

    /// The value of `op(x, y)`.
    fn fold_binary(&self, op: BinaryOp, x: Bits64, y: Bits64) -> (r: Bits64)
        ensures
            r == self.spec_fold_binary(op, x, y),
    ;
}

/// The constant the builder makes of `op(x)`: the sign flipped for a
/// negation, the folder's value otherwise.
pub open spec fn folded_unary<C: ConstantFolder>(folder: &C, op: UnaryOp, x: Bits64) -> Bits64 {
    if op == UnaryOp::Neg {
        Bits64(x.0 ^ SIGN_BIT)
    } else {
        folder.spec_fold_unary(op, x)
    }
}

/// `b` is `+0.0` or `-0.0`, the two patterns that compare equal to zero.
pub open spec fn is_zero_bits(b: Bits64) -> bool {
    b.0 == 0 || b.0 == SIGN_BIT
}

/// The constant zero.
pub open spec fn zero_const() -> Sym {
    Sym::Const(Bits64(0))
}

fn is_zero(c: Option<Bits64>) -> (r: bool)
    ensures
        r == (c is Some && is_zero_bits(c->0)),
{
    match c {
        Some(b) => b.0 == 0 || b.0 == SIGN_BIT,
        None => false,
    }
}

fn is_one(c: Option<Bits64>) -> (r: bool)
    ensures
        r == (c is Some && c.unwrap().spec_bits() == ONE_BITS),
{
    match c {
        Some(b) => b.0 == ONE_BITS,
        None => false,
    }
}

fn is_neg_one(c: Option<Bits64>) -> (r: bool)
    ensures
        r == (c is Some && c.unwrap().spec_bits() == NEG_ONE_BITS),
{
    match c {
        Some(b) => b.0 == NEG_ONE_BITS,
        None => false,
    }
}

/// `new` keeps every node of `old` in place.
pub open spec fn extends(old: Seq<Node>, new: Seq<Node>) -> bool {
    &&& old.len() <= new.len()
    &&& forall|i: int| 0 <= i < old.len() ==> #[trigger] new[i] == old[i]
}

/// What a node computes depends only on it and the nodes before it.
pub proof fn lemma_node_sym_extends(old: Seq<Node>, new: Seq<Node>, v: int)
    requires
        extends(old, new),
        0 <= v < old.len(),
    ensures
        node_sym(new, v) == node_sym(old, v),
    decreases v,
{
    assert(new[v] == old[v]);
    match old[v] {
        Node::Unary(_, a) => {
            if a < v {
                lemma_node_sym_extends(old, new, a as int);
            }
        },
        Node::Binary(_, a, b) => {
            if a < v && b < v {
                lemma_node_sym_extends(old, new, a as int);
                lemma_node_sym_extends(old, new, b as int);
            }
        },
        _ => {},
    }
}

/// The constant a node holds, if it is one.
spec fn const_of(d: Node) -> Option<Bits64> {
    match d {
        Node::Constant(c) => Some(c),
        _ => None,
    }
}

pub open spec fn zero_c(c: Option<Bits64>) -> bool {
    c is Some && is_zero_bits(c->0)
}

pub open spec fn one_c(c: Option<Bits64>) -> bool {
    c is Some && c->0.spec_bits() == ONE_BITS
}

pub open spec fn neg_one_c(c: Option<Bits64>) -> bool {
    c is Some && c->0.spec_bits() == NEG_ONE_BITS
}

/// The operand of a negation node.
spec fn neg_operand(d: Node) -> Option<NodeId> {
    match d {
        Node::Unary(UnaryOp::Neg, inner) => Some(inner),
        _ => None,
    }
}

/// `new` is `old` with `d` appended, and `id` names it.
spec fn appended(old: Seq<Node>, new: Seq<Node>, d: Node, id: NodeId) -> bool {
    new == old.push(d) && id == old.len()
}

/// `id` names a node of `new` holding `x`: an existing one, or one appended
/// to `old`.
spec fn const_result(old: Seq<Node>, new: Seq<Node>, x: Bits64, id: NodeId) -> bool {
    &&& id < new.len()
    &&& new[id as int] == Node::Constant(x)
    &&& (new == old || appended(old, new, Node::Constant(x), id))
}

/// What the builder makes of `op(a)` on `old`: a constant operand folds to
/// the constant `folded_unary` gives, a negation of a negation
/// gives the inner node, and anything else appends the operation.
spec fn unary_result<C: ConstantFolder>(folder: &C, old: Seq<Node>, new: Seq<Node>, op: UnaryOp, a: NodeId, id: NodeId) -> bool {
    match const_of(old[a as int]) {
        Some(x) => const_result(old, new, folded_unary(folder, op, x), id),
        None => if op == UnaryOp::Neg && neg_operand(old[a as int]) is Some {
            id == neg_operand(old[a as int])->0 && new == old
        } else {
            appended(old, new, Node::Unary(op, a), id)
        },
    }
}

/// What the builder makes of `op(a, b)` on `old`: two constant operands
/// fold to a constant; `x + 0`, `0 + x`, `x - 0`, `x * 1`, `1 * x` and
/// `x / 1` give `x`; `0 - x`, `-1 * x`, `x * -1` and `x / -1` give the
/// negation of `x`; `0 * x`, `x * 0` and `0 / x` give the constant zero;
/// anything else appends the operation.
spec fn binary_result<C: ConstantFolder>(folder: &C, old: Seq<Node>, new: Seq<Node>, op: BinaryOp, a: NodeId, b: NodeId, id: NodeId) -> bool {
    let ca = const_of(old[a as int]);
    let cb = const_of(old[b as int]);
    if ca is Some && cb is Some {
        const_result(old, new, folder.spec_fold_binary(op, ca->0, cb->0), id)
    } else {
        match op {
            BinaryOp::Add => if zero_c(ca) {
                id == b && new == old
            } else if zero_c(cb) {
                id == a && new == old
            } else {
                appended(old, new, Node::Binary(op, a, b), id)
            },
            BinaryOp::Sub => if zero_c(cb) {
                id == a && new == old
            } else if zero_c(ca) {
                unary_result(folder, old, new, UnaryOp::Neg, b, id)
            } else {
                appended(old, new, Node::Binary(op, a, b), id)
            },
            BinaryOp::Mul => if zero_c(ca) || zero_c(cb) {
                const_result(old, new, Bits64(0), id)
            } else if one_c(ca) {
                id == b && new == old
            } else if one_c(cb) {
                id == a && new == old
            } else if neg_one_c(ca) {
                unary_result(folder, old, new, UnaryOp::Neg, b, id)
            } else if neg_one_c(cb) {
                unary_result(folder, old, new, UnaryOp::Neg, a, id)
            } else {
                appended(old, new, Node::Binary(op, a, b), id)
            },
            BinaryOp::Div => if one_c(cb) {
                id == a && new == old
            } else if neg_one_c(cb) {
                unary_result(folder, old, new, UnaryOp::Neg, a, id)
            } else if zero_c(ca) {
                const_result(old, new, Bits64(0), id)
            } else {
                appended(old, new, Node::Binary(op, a, b), id)
            },
        }
    }
}

/// The constant that `s` is, if it is one.
pub open spec fn sym_const(s: Sym) -> Option<Bits64> {
    match s {
        Sym::Const(c) => Some(c),
        _ => None,
    }
}

/// The operand of `s`, if `s` is a negation.
pub open spec fn sym_negated(s: Sym) -> Option<Sym> {
    match s {
        Sym::Unary(UnaryOp::Neg, a) => Some(*a),
        _ => None,
    }
}

/// What the builder makes of `op(a)`, over what the nodes compute: a
/// constant operand folds to the constant `folded_unary` gives, `-(-x)`
/// gives `x`, and anything else is `op(a)` itself.
pub open spec fn sym_unary<C: ConstantFolder>(folder: &C, op: UnaryOp, a: Sym, r: Sym) -> bool {
    match sym_const(a) {
        Some(x) => r == Sym::Const(folded_unary(folder, op, x)),
        None => if op == UnaryOp::Neg && sym_negated(a) is Some {
            r == sym_negated(a)->0
        } else {
            r == un(op, a)
        },
    }
}

/// What the builder makes of `op(a, b)`, over what the nodes compute:
/// two constants fold to the folder's value, and the identities of
/// `binary_result` apply.
pub open spec fn sym_binary<C: ConstantFolder>(folder: &C, op: BinaryOp, a: Sym, b: Sym, r: Sym) -> bool {
    let ca = sym_const(a);
    let cb = sym_const(b);
    if ca is Some && cb is Some {
        r == Sym::Const(folder.spec_fold_binary(op, ca->0, cb->0))
    } else {
        match op {
            BinaryOp::Add => if zero_c(ca) {
                r == b
            } else if zero_c(cb) {
                r == a
            } else {
                r == bin(op, a, b)
            },
            BinaryOp::Sub => if zero_c(cb) {
                r == a
            } else if zero_c(ca) {
                sym_unary(folder, UnaryOp::Neg, b, r)
            } else {
                r == bin(op, a, b)
            },
            BinaryOp::Mul => if zero_c(ca) || zero_c(cb) {
                r == Sym::Const(Bits64(0))
            } else if one_c(ca) {
                r == b
            } else if one_c(cb) {
                r == a
            } else if neg_one_c(ca) {
                sym_unary(folder, UnaryOp::Neg, b, r)
            } else if neg_one_c(cb) {
                sym_unary(folder, UnaryOp::Neg, a, r)
            } else {
                r == bin(op, a, b)
            },
            BinaryOp::Div => if one_c(cb) {
                r == a
            } else if neg_one_c(cb) {
                sym_unary(folder, UnaryOp::Neg, a, r)
            } else if zero_c(ca) {
                r == Sym::Const(Bits64(0))
            } else {
                r == bin(op, a, b)
            },
        }
    }
}

/// What the nodes named by `slots` compute; an empty slot stays empty.
pub open spec fn slot_syms(slots: Seq<Option<NodeId>>, nodes: Seq<Node>) -> Seq<Option<Sym>> {
    Seq::new(slots.len(), |v: int| opt_sym(slots[v], nodes))
}

/// A structural zero stands for the constant zero.
pub open spec fn or_zero(s: Option<Sym>) -> Sym {
    match s {
        Some(x) => x,
        None => zero_const(),
    }
}

/// A constant node computes its constant, and a negation node computes
/// the negation of what its operand computes.
proof fn lemma_sym_kind(nodes: Seq<Node>, a: int)
    requires
        ssa(nodes),
        0 <= a < nodes.len(),
    ensures
        sym_const(node_sym(nodes, a)) == const_of(nodes[a]),
        sym_negated(node_sym(nodes, a)) == (match neg_operand(nodes[a]) {
            Some(i) => Some(node_sym(nodes, i as int)),
            None => None,
        }),
        neg_operand(nodes[a]) is Some ==> neg_operand(nodes[a])->0 < a,
{
    assert(node_ok(nodes[a], a, 0x1_0000_0000nat));
}

/// Nodes kept in place compute what they computed.
proof fn lemma_syms_extend(old: Seq<Node>, new: Seq<Node>)
    requires
        extends(old, new),
    ensures
        forall|v: int| 0 <= v < old.len() ==> #[trigger] node_sym(new, v) == node_sym(old, v),
{
    assert forall|v: int| 0 <= v < old.len() implies #[trigger] node_sym(new, v) == node_sym(old, v) by {
        lemma_node_sym_extends(old, new, v);
    }
}

/// Appending a node whose operands precede it keeps the graph in order.
proof fn lemma_append_ok(old: Seq<Node>, new: Seq<Node>, d: Node, id: NodeId)
    requires
        ssa(old),
        appended(old, new, d, id),
        node_ok(d, id as int, 0x1_0000_0000nat),
    ensures
        ssa(new),
        extends(old, new),
{
    assert forall|i: int| 0 <= i < new.len() implies node_ok(#[trigger] new[i], i, 0x1_0000_0000nat) by {
        if i < old.len() {
            assert(new[i] == old[i]);
        }
    }
}

proof fn lemma_const_lift(old: Seq<Node>, new: Seq<Node>, x: Bits64, id: NodeId)
    requires
        ssa(old),
        const_result(old, new, x, id),
    ensures
        ssa(new),
        extends(old, new),
        id < new.len(),
        node_sym(new, id as int) == Sym::Const(x),
{
    if new != old {
        lemma_append_ok(old, new, Node::Constant(x), id);
    }
}

/// The node the builder makes of `op(a)` computes what `sym_unary` allows.
proof fn lemma_unary_lift<C: ConstantFolder>(folder: &C, old: Seq<Node>, new: Seq<Node>, op: UnaryOp, a: NodeId, id: NodeId)
    requires
        ssa(old),
        a < old.len(),
        unary_result(folder, old, new, op, a, id),
    ensures
        ssa(new),
        extends(old, new),
        id < new.len(),
        sym_unary(folder, op, node_sym(old, a as int), node_sym(new, id as int)),
{
    lemma_sym_kind(old, a as int);
    match const_of(old[a as int]) {
        Some(x) => {
            lemma_const_lift(old, new, folded_unary(folder, op, x), id);
        },
        None => {
            if op == UnaryOp::Neg && neg_operand(old[a as int]) is Some {
            } else {
                lemma_append_ok(old, new, Node::Unary(op, a), id);
                lemma_syms_extend(old, new);
                assert(node_sym(new, id as int) == un(op, node_sym(new, a as int)));
            }
        },
    }
}

/// The node the builder makes of `op(a, b)` computes what `sym_binary`
/// allows.
#[verifier::rlimit(40)]
proof fn lemma_binary_lift<C: ConstantFolder>(folder: &C, old: Seq<Node>, new: Seq<Node>, op: BinaryOp, a: NodeId, b: NodeId, id: NodeId)
    requires
        ssa(old),
        a < old.len(),
        b < old.len(),
        binary_result(folder, old, new, op, a, b, id),
    ensures
        ssa(new),
        extends(old, new),
        id < new.len(),
        sym_binary(folder, op, node_sym(old, a as int), node_sym(old, b as int), node_sym(new, id as int)),
{
    lemma_sym_kind(old, a as int);
    lemma_sym_kind(old, b as int);
    let ca = const_of(old[a as int]);
    let cb = const_of(old[b as int]);
    if ca is Some && cb is Some {
        lemma_const_lift(old, new, folder.spec_fold_binary(op, ca->0, cb->0), id);
    } else {
        let app = appended(old, new, Node::Binary(op, a, b), id);
        if app {
            lemma_append_ok(old, new, Node::Binary(op, a, b), id);
            lemma_syms_extend(old, new);
            assert(node_sym(new, id as int) == bin(op, node_sym(new, a as int), node_sym(new, b as int)));
        }
        match op {
            BinaryOp::Add => {},
            BinaryOp::Sub => {
                if !zero_c(cb) && zero_c(ca) {
                    lemma_unary_lift(folder, old, new, UnaryOp::Neg, b, id);
                }
            },
            BinaryOp::Mul => {
                if zero_c(ca) || zero_c(cb) {
                    lemma_const_lift(old, new, Bits64(0), id);
                } else if one_c(ca) || one_c(cb) {
                } else if neg_one_c(ca) {
                    lemma_unary_lift(folder, old, new, UnaryOp::Neg, b, id);
                } else if neg_one_c(cb) {
                    lemma_unary_lift(folder, old, new, UnaryOp::Neg, a, id);
                }
            },
            BinaryOp::Div => {
                if one_c(cb) {
                } else if neg_one_c(cb) {
                    lemma_unary_lift(folder, old, new, UnaryOp::Neg, a, id);
                } else if zero_c(ca) {
                    lemma_const_lift(old, new, Bits64(0), id);
                }
            },
        }
    }
}

/// Slots whose nodes are kept in place compute what they computed.
proof fn lemma_slot_syms_extend(slots: Seq<Option<NodeId>>, old: Seq<Node>, new: Seq<Node>)
    requires
        extends(old, new),
        slots_below(slots, old.len()),
    ensures
        slot_syms(slots, new) == slot_syms(slots, old),
{
    lemma_syms_extend(old, new);
    assert forall|v: int| 0 <= v < slots.len() implies #[trigger] slot_syms(slots, new)[v] == slot_syms(
        slots,
        old,
    )[v] by {
        assert(match slots[v] {
            Some(t) => t < old.len(),
            None => true,
        });
    }
    assert(slot_syms(slots, new) =~= slot_syms(slots, old));
}

/// What the builder makes of `slot + v`, an empty slot being zero.
spec fn acc_result<C: ConstantFolder>(folder: &C, old: Seq<Node>, new: Seq<Node>, slot: Option<NodeId>, v: NodeId, r: Option<NodeId>) -> bool {
    match slot {
        None => r == Some(v) && new == old,
        Some(s) => r is Some && binary_result(folder, old, new, BinaryOp::Add, s, v, r->0),
    }
}

/// What the builder makes of `slot - v`, an empty slot being zero.
spec fn acc_neg_result<C: ConstantFolder>(folder: &C, old: Seq<Node>, new: Seq<Node>, slot: Option<NodeId>, v: NodeId, r: Option<NodeId>) -> bool {
    match slot {
        None => r is Some && unary_result(folder, old, new, UnaryOp::Neg, v, r->0),
        Some(s) => r is Some && binary_result(folder, old, new, BinaryOp::Sub, s, v, r->0),
    }
}

/// The tangent of a sum whose operands have tangents `dl` and `dr`, as the
/// builder makes it; `None` is a structural zero.
spec fn sum_tan<C: ConstantFolder>(folder: &C, old: Seq<Node>, new: Seq<Node>, dl: Option<NodeId>, dr: Option<NodeId>, t: Option<NodeId>) -> bool {
    match (dl, dr) {
        (None, None) => t is None && new == old,
        (Some(x), None) => t == Some(x) && new == old,
        (None, Some(y)) => t == Some(y) && new == old,
        (Some(x), Some(y)) => t is Some && binary_result(folder, old, new, BinaryOp::Add, x, y, t->0),
    }
}

/// The tangent of a difference whose operands have tangents `dl` and
/// `dr`, as the builder makes it; `None` is a structural zero.
spec fn diff_tan<C: ConstantFolder>(folder: &C, old: Seq<Node>, new: Seq<Node>, dl: Option<NodeId>, dr: Option<NodeId>, t: Option<NodeId>) -> bool {
    match (dl, dr) {
        (None, None) => t is None && new == old,
        (Some(x), None) => t == Some(x) && new == old,
        (None, Some(y)) => t is Some && unary_result(folder, old, new, UnaryOp::Neg, y, t->0),
        (Some(x), Some(y)) => t is Some && binary_result(folder, old, new, BinaryOp::Sub, x, y, t->0),
    }
}

/// The helper `op(a)`: the cached node where there is one, else the node
/// the builder makes of `op(a)`.
spec fn helper_step<C: ConstantFolder>(folder: &C, old: Seq<Node>, new: Seq<Node>, cache: Option<NodeId>, op: UnaryOp, a: NodeId, h: NodeId) -> bool {
    match cache {
        Some(c) => h == c && new == old,
        None => unary_result(folder, old, new, op, a, h),
    }
}

/// The helper `1 / r`: the cached node where there is one, else the
/// constant one (node `one`, built into `mid`) divided by `r`.
spec fn recip_step<C: ConstantFolder>(folder: &C, 
    old: Seq<Node>,
    mid: Seq<Node>,
    new: Seq<Node>,
    cache: Option<NodeId>,
    r: NodeId,
    one: NodeId,
    h: NodeId,
) -> bool {
    match cache {
        Some(c) => h == c && new == old,
        None => const_result(old, mid, Bits64(ONE_BITS), one) && binary_result(folder, mid, new, BinaryOp::Div, one, r, h),
    }
}

/// `cos(x) * dx` for `x = a` with tangent `d`, through the helper `c`.
spec fn sin_tan<C: ConstantFolder>(folder: &C, old: Seq<Node>, m1: Seq<Node>, new: Seq<Node>, cache: Option<NodeId>, a: NodeId, d: NodeId, c: NodeId, t: NodeId) -> bool {
    helper_step(folder, old, m1, cache, UnaryOp::Cos, a, c) && binary_result(folder, m1, new, BinaryOp::Mul, c, d, t)
}

/// `-(sin(x) * dx)` for `x = a` with tangent `d`, through the helper `c`.
spec fn cos_tan<C: ConstantFolder>(folder: &C, 
    old: Seq<Node>,
    m1: Seq<Node>,
    m2: Seq<Node>,
    new: Seq<Node>,
    cache: Option<NodeId>,
    a: NodeId,
    d: NodeId,
    c: NodeId,
    m: NodeId,
    t: NodeId,
) -> bool {
    &&& helper_step(folder, old, m1, cache, UnaryOp::Sin, a, c)
    &&& binary_result(folder, m1, m2, BinaryOp::Mul, c, d, m)
    &&& unary_result(folder, m2, new, UnaryOp::Neg, m, t)
}

/// `dl * r + l * dr` for `l * r` with operand tangents `dl` and `dr`.
spec fn prod_tan<C: ConstantFolder>(folder: &C, 
    old: Seq<Node>,
    m1: Seq<Node>,
    m2: Seq<Node>,
    new: Seq<Node>,
    l: NodeId,
    r: NodeId,
    dl: Option<NodeId>,
    dr: Option<NodeId>,
    t1: Option<NodeId>,
    t2: Option<NodeId>,
    t: Option<NodeId>,
) -> bool {
    &&& match dl {
        None => t1 is None && m1 == old,
        Some(x) => t1 is Some && binary_result(folder, old, m1, BinaryOp::Mul, x, r, t1->0),
    }
    &&& match dr {
        None => t2 is None && m2 == m1,
        Some(y) => t2 is Some && binary_result(folder, m1, m2, BinaryOp::Mul, l, y, t2->0),
    }
    &&& sum_tan(folder, m2, new, t1, t2, t)
}

/// `(dl - y * dr) * (1 / r)` for `y = l / r` (node `y`) with operand
/// tangents `dl` and `dr`; the numerator is `num`, the helper `1 / r` is
/// `recip`.
spec fn quot_tan<C: ConstantFolder>(folder: &C, 
    old: Seq<Node>,
    m1: Seq<Node>,
    m2: Seq<Node>,
    m3: Seq<Node>,
    m4: Seq<Node>,
    new: Seq<Node>,
    cache: Option<NodeId>,
    y: NodeId,
    r: NodeId,
    dl: Option<NodeId>,
    dr: Option<NodeId>,
    m: NodeId,
    num: Option<NodeId>,
    one: NodeId,
    recip: NodeId,
    t: Option<NodeId>,
) -> bool {
    &&& match (dl, dr) {
        (None, None) => num is None && m2 == old,
        (Some(x), None) => num == Some(x) && m2 == old,
        (None, Some(z)) => binary_result(folder, old, m1, BinaryOp::Mul, y, z, m) && num is Some && unary_result(folder, 
            m1,
            m2,
            UnaryOp::Neg,
            m,
            num->0,
        ),
        (Some(x), Some(z)) => binary_result(folder, old, m1, BinaryOp::Mul, y, z, m) && num is Some && binary_result(folder, 
            m1,
            m2,
            BinaryOp::Sub,
            x,
            m,
            num->0,
        ),
    }
    &&& match num {
        None => t is None && new == m2,
        Some(nv) => recip_step(folder, m2, m3, m4, cache, r, one, recip) && t is Some && binary_result(folder, 
            m4,
            new,
            BinaryOp::Mul,
            nv,
            recip,
            t->0,
        ),
    }
}

/// Emits nodes into a graph, reusing constants and folding constant
/// operands and algebraic identities (`1 * x`, `x + 0`, `-(-x)`, ...).
struct Builder {
    nodes: Vec<Node>,
    /// Bit pattern of a constant to the first node holding it.
    consts: HashMap<u64, NodeId>,
}

impl Builder {
    spec fn ok(&self) -> bool {
        &&& ssa(self.nodes@)
        &&& forall|k: u64| #[trigger]
            self.consts@.contains_key(k) ==> self.consts@[k] < self.nodes@.len()
                && self.nodes@[self.consts@[k] as int] == Node::Constant(Bits64(k))
    }

    /// A copy of the nodes of `func`, so that its ids stay valid.
    fn from_primal(func: &Function) -> (b: Builder)
        requires
            func.wf(),
        ensures
            b.ok(),
            b.nodes@ == func.spec_nodes(),
    {
        let src = func.nodes();
        let mut nodes: Vec<Node> = Vec::new();
        let mut consts: HashMap<u64, NodeId> = HashMap::new();
        let mut id: usize = 0;
        while id < src.len()
            invariant
                src@ == func.spec_nodes(),
                ssa(src@),
                id <= src@.len(),
                nodes@ == src@.subrange(0, id as int),
                forall|k: u64| #[trigger]
                    consts@.contains_key(k) ==> consts@[k] < id && nodes@[consts@[k] as int]
                        == Node::Constant(Bits64(k)),
            decreases src@.len() - id,
        {
            let node = src[id];
            nodes.push(node);
            if let Node::Constant(c) = node {
                if !consts.contains_key(&c.0) {
                    consts.insert(c.0, id);
                }
            }
            id += 1;
        }
        proof {
            assert(nodes@ == src@);
        }
        Builder { nodes, consts }
    }

    fn push(&mut self, node: Node) -> (id: NodeId)
        requires
            old(self).ok(),
            node_ok(node, old(self).nodes@.len() as int, 0x1_0000_0000nat),
        ensures
            final(self).ok(),
            final(self).nodes@ == old(self).nodes@.push(node),
            id == old(self).nodes@.len(),
    {
        let id = self.nodes.len();
        self.nodes.push(node);
        proof {
            assert forall|i: int| 0 <= i < self.nodes@.len() implies node_ok(
                #[trigger] self.nodes@[i],
                i,
                0x1_0000_0000nat,
            ) by {
                if i < id {
                    assert(self.nodes@[i] == old(self).nodes@[i]);
                }
            }
        }
        id
    }

    /// A node holding the constant `x`, reusing an existing one.
    fn constant(&mut self, x: Bits64) -> (id: NodeId)
        requires
            old(self).ok(),
        ensures
            final(self).ok(),
            extends(old(self).nodes@, final(self).nodes@),
            const_result(old(self).nodes@, final(self).nodes@, x, id),
    {
        let found = match self.consts.get(&x.0) {
            Some(id) => Some(*id),
            None => None,
        };
        match found {
            Some(id) => id,
            None => {
                let id = self.push(Node::Constant(x));
                self.consts.insert(x.0, id);
                id
            },
        }
    }

    fn const_val(&self, id: NodeId) -> (r: Option<Bits64>)
        requires
            id < self.nodes@.len(),
        ensures
            r == (match self.nodes@[id as int] {
                Node::Constant(c) => Some(c),
                _ => None,
            }),
    {
        match self.nodes[id] {
            Node::Constant(c) => Some(c),
            _ => None,
        }
    }

    /// A node computing `op(a)`.
    fn unary<C: ConstantFolder>(&mut self, op: UnaryOp, a: NodeId, folder: &C) -> (id: NodeId)
        requires
            old(self).ok(),
            a < old(self).nodes@.len(),
        ensures
            final(self).ok(),
            extends(old(self).nodes@, final(self).nodes@),
            id < final(self).nodes@.len(),
            unary_result(folder, old(self).nodes@, final(self).nodes@, op, a, id),
    {
        if let Some(x) = self.const_val(a) {
            let v = match op {
                UnaryOp::Neg => Bits64(x.0 ^ SIGN_BIT),
                _ => folder.fold_unary(op, x),
            };
            return self.constant(v);
        }
        // -(-x) = x
        if let UnaryOp::Neg = op {
            if let Node::Unary(UnaryOp::Neg, inner) = self.nodes[a] {
                proof {
                    assert(node_ok(self.nodes@[a as int], a as int, 0x1_0000_0000nat));
                }
                return inner;
            }
        }
        self.push(Node::Unary(op, a))
    }

    /// A node computing `op(a, b)`.
    fn binary<C: ConstantFolder>(&mut self, op: BinaryOp, a: NodeId, b: NodeId, folder: &C) -> (id:
        NodeId)
        requires
            old(self).ok(),
            a < old(self).nodes@.len(),
            b < old(self).nodes@.len(),
        ensures
            final(self).ok(),
            extends(old(self).nodes@, final(self).nodes@),
            id < final(self).nodes@.len(),
            binary_result(folder, old(self).nodes@, final(self).nodes@, op, a, b, id),
    {
        let ca = self.const_val(a);
        let cb = self.const_val(b);
        if let (Some(x), Some(y)) = (ca, cb) {
            let v = folder.fold_binary(op, x, y);
            return self.constant(v);
        }
        match op {
            BinaryOp::Add => {
                if is_zero(ca) {
                    return b;
                }
                if is_zero(cb) {
                    return a;
                }
            },
            BinaryOp::Sub => {
                if is_zero(cb) {
                    return a;
                }
                if is_zero(ca) {
                    return self.unary(UnaryOp::Neg, b, folder);
                }
            },
            BinaryOp::Mul => {
                if is_zero(ca) || is_zero(cb) {
                    return self.constant(Bits64(0));
                }
                if is_one(ca) {
                    return b;
                }
                if is_one(cb) {
                    return a;
                }
                if is_neg_one(ca) {
                    return self.unary(UnaryOp::Neg, b, folder);
                }
                if is_neg_one(cb) {
                    return self.unary(UnaryOp::Neg, a, folder);
                }
            },
            BinaryOp::Div => {
                if is_one(cb) {
                    return a;
                }
                if is_neg_one(cb) {
                    return self.unary(UnaryOp::Neg, a, folder);
                }
                if is_zero(ca) {
                    return self.constant(Bits64(0));
                }
            },
        }
        self.push(Node::Binary(op, a, b))
    }

    /// `slot + v`, where an empty slot is a structural zero.
    fn acc<C: ConstantFolder>(&mut self, slot: Option<NodeId>, v: NodeId, folder: &C) -> (r: Option<
        NodeId>)
        requires
            old(self).ok(),
            v < old(self).nodes@.len(),
            slot is Some ==> slot->0 < old(self).nodes@.len(),
        ensures
            final(self).ok(),
            extends(old(self).nodes@, final(self).nodes@),
            r is Some,
            r->0 < final(self).nodes@.len(),
            acc_result(folder, old(self).nodes@, final(self).nodes@, slot, v, r),
    {
        match slot {
            None => Some(v),
            Some(s) => Some(self.binary(BinaryOp::Add, s, v, folder)),
        }
    }

    /// `slot - v`, where an empty slot is a structural zero.
    fn acc_neg<C: ConstantFolder>(&mut self, slot: Option<NodeId>, v: NodeId, folder: &C) -> (r:
        Option<NodeId>)
        requires
            old(self).ok(),
            v < old(self).nodes@.len(),
            slot is Some ==> slot->0 < old(self).nodes@.len(),
        ensures
            final(self).ok(),
            extends(old(self).nodes@, final(self).nodes@),
            r is Some,
            r->0 < final(self).nodes@.len(),
            acc_neg_result(folder, old(self).nodes@, final(self).nodes@, slot, v, r),
    {
        match slot {
            None => Some(self.unary(UnaryOp::Neg, v, folder)),
            Some(s) => Some(self.binary(BinaryOp::Sub, s, v, folder)),
        }
    }
}


/// The ids of `func` that must survive pruning: outputs, then inputs.
pub open spec fn roots(func: &Function) -> Seq<NodeId> {
    func.spec_outputs() + func.spec_inputs()
}

/// `node` with every operand `a` replaced by the node that `remap[a]` names.
pub open spec fn renamed(node: Node, remap: Seq<Option<NodeId>>) -> Node {
    match node {
        Node::Unary(op, a) => Node::Unary(op, remap[a as int]->0),
        Node::Binary(op, a, b) => Node::Binary(op, remap[a as int]->0, remap[b as int]->0),
        _ => node,
    }
}

/// Marks every node that some id of `roots` depends on.
fn mark_reachable(nodes: &[Node], roots: &Vec<NodeId>) -> (live: Vec<bool>)
    requires
        ssa(nodes@),
        ids_below(roots@, nodes@.len()),
    ensures
        live@.len() == nodes@.len(),
        forall|w: int| 0 <= w < nodes@.len() && #[trigger] live@[w] ==> reached_from_ids(nodes@, roots@, w),
        forall|k: int| 0 <= k < roots@.len() ==> live@[#[trigger] roots@[k] as int],
        forall|v: int, w: int|
            0 <= v < nodes@.len() && #[trigger] live@[v] && #[trigger] operand_of(nodes@, v, w) ==> 0 <= w
                < nodes@.len() && live@[w],
{
    let n = nodes.len();
    let mut live: Vec<bool> = Vec::new();
    let mut i: usize = 0;
    while i < n
        invariant
            n == nodes@.len(),
            i <= n,
            live@.len() == i,
            forall|j: int| 0 <= j < i ==> !#[trigger] live@[j],
        decreases n - i,
    {
        live.push(false);
        i += 1;
    }
    let mut k: usize = 0;
    while k < roots.len()
        invariant
            n == nodes@.len(),
            live@.len() == n,
            k <= roots@.len(),
            ids_below(roots@, nodes@.len()),
            forall|w: int| 0 <= w < n && #[trigger] live@[w] ==> reached_from_ids(nodes@, roots@, w),
            forall|k2: int| 0 <= k2 < k ==> live@[#[trigger] roots@[k2] as int],
        decreases roots@.len() - k,
    {
        let o = roots[k];
        proof {
            assert(reaches(nodes@, o as int, o as int));
            assert(reaches(nodes@, roots@[k as int] as int, o as int));
        }
        let ghost before = live@;
        live.set(o, true);
        proof {
            assert forall|k2: int| 0 <= k2 < k + 1 implies live@[#[trigger] roots@[k2] as int] by {
                if k2 < k {
                    assert(before[roots@[k2] as int]);
                }
            }
        }
        k += 1;
    }
    // Operands precede the nodes that read them, so one reverse sweep
    // propagates liveness to all of them.
    let mut idx = n;
    while idx > 0
        invariant
            ssa(nodes@),
            n == nodes@.len(),
            live@.len() == n,
            idx <= n,
            ids_below(roots@, nodes@.len()),
            forall|w: int| 0 <= w < n && #[trigger] live@[w] ==> reached_from_ids(nodes@, roots@, w),
            forall|k2: int| 0 <= k2 < roots@.len() ==> live@[#[trigger] roots@[k2] as int],
            forall|v: int, w: int|
                idx <= v < n && #[trigger] live@[v] && #[trigger] operand_of(nodes@, v, w) ==> 0 <= w < n
                    && live@[w],
        decreases idx,
    {
        idx -= 1;
        if live[idx] {
            proof {
                assert(node_ok(nodes@[idx as int], idx as int, 0x1_0000_0000nat));
            }
            let ghost before = live@;
            let ghost k0 = choose|k0: int|
                0 <= k0 < roots@.len() && #[trigger] reaches(nodes@, roots@[k0] as int, idx as int);
            match nodes[idx] {
                Node::Unary(_, a) => {
                    proof {
                        lemma_reaches_operand(nodes@, 0x1_0000_0000nat, roots@[k0] as int, idx as int, a as int);
                    }
                    live.set(a, true);
                },
                Node::Binary(_, a, b) => {
                    proof {
                        lemma_reaches_operand(nodes@, 0x1_0000_0000nat, roots@[k0] as int, idx as int, a as int);
                        lemma_reaches_operand(nodes@, 0x1_0000_0000nat, roots@[k0] as int, idx as int, b as int);
                    }
                    live.set(a, true);
                    live.set(b, true);
                },
                _ => {},
            }
            proof {
                assert forall|v: int, w: int|
                    idx <= v < n && #[trigger] live@[v] && #[trigger] operand_of(nodes@, v, w) implies 0 <= w < n
                    && live@[w] by {
                    if v > idx {
                        assert(before[v]);
                        assert(before[w]);
                    }
                }
                assert forall|w: int| 0 <= w < n && #[trigger] live@[w] implies reached_from_ids(
                    nodes@,
                    roots@,
                    w,
                ) by {
                    if before[w] {
                    }
                }
                assert forall|k2: int| 0 <= k2 < roots@.len() implies live@[#[trigger] roots@[k2] as int] by {
                    assert(before[roots@[k2] as int]);
                }
            }
        }
    }
    live
}

/// Dependencies carry over to a graph that holds, at `remap[v]`, each live
/// node `v` with its operands renamed.
proof fn lemma_reaches_renamed(
    old: Seq<Node>,
    new: Seq<Node>,
    live: Seq<bool>,
    remap: Seq<Option<NodeId>>,
    v: int,
    w: int,
)
    requires
        ssa(old),
        ssa(new),
        live.len() == old.len(),
        remap.len() == old.len(),
        forall|u: int, x: int|
            0 <= u < old.len() && #[trigger] live[u] && #[trigger] operand_of(old, u, x) ==> 0 <= x
                < old.len() && live[x],
        forall|u: int|
            0 <= u < old.len() && #[trigger] live[u] ==> remap[u] is Some && remap[u]->0 < new.len()
                && new[remap[u]->0 as int] == renamed(old[u], remap),
        0 <= v < old.len(),
        live[v],
        reaches(old, v, w),
    ensures
        0 <= w < old.len(),
        live[w],
        reaches(new, remap[v]->0 as int, remap[w]->0 as int),
    decreases v,
{
    let m = remap[v]->0 as int;
    assert(node_ok(old[v], v, 0x1_0000_0000nat));
    assert(node_ok(new[m], m, 0x1_0000_0000nat));
    if v != w {
        match old[v] {
            Node::Unary(_, a) => {
                assert(operand_of(old, v, a as int));
                lemma_reaches_renamed(old, new, live, remap, a as int, w);
            },
            Node::Binary(_, a, b) => {
                assert(operand_of(old, v, a as int));
                assert(operand_of(old, v, b as int));
                if reaches(old, a as int, w) {
                    lemma_reaches_renamed(old, new, live, remap, a as int, w);
                } else {
                    lemma_reaches_renamed(old, new, live, remap, b as int, w);
                }
            },
            _ => {},
        }
    }
}

/// The nodes below `i` that some of `roots` depends on, in order.
pub open spec fn kept_upto(nodes: Seq<Node>, roots: Seq<NodeId>, i: int) -> Seq<int>
    decreases i,
{
    if i <= 0 {
        Seq::empty()
    } else {
        kept_upto(nodes, roots, i - 1) + if reached_from_ids(nodes, roots, i - 1) {
            seq![i - 1]
        } else {
            Seq::empty()
        }
    }
}

/// The nodes of `func` that its outputs or inputs depend on, in order.
pub open spec fn pruned_nodes(func: &Function) -> Seq<int> {
    kept_upto(func.spec_nodes(), roots(func), func.spec_nodes().len() as int)
}

/// Node `d` with each operand renumbered by its position in `order`.
pub open spec fn renumbered(d: Node, order: Seq<int>) -> Node {
    match d {
        Node::Unary(op, a) => Node::Unary(op, position(order, a as int) as NodeId),
        Node::Binary(op, a, b) => Node::Binary(op, position(order, a as int) as NodeId, position(order, b as int) as NodeId),
        _ => d,
    }
}

/// The nodes marked from `roots` are exactly those the roots depend on.
proof fn lemma_live_reached(nodes: Seq<Node>, roots: Seq<NodeId>, live: Seq<bool>)
    requires
        ssa(nodes),
        live.len() == nodes.len(),
        forall|w: int| 0 <= w < nodes.len() && #[trigger] live[w] ==> reached_from_ids(nodes, roots, w),
        forall|k: int| 0 <= k < roots.len() ==> live[#[trigger] roots[k] as int],
        ids_below(roots, nodes.len()),
        forall|v: int, w: int|
            0 <= v < nodes.len() && #[trigger] live[v] && #[trigger] operand_of(nodes, v, w) ==> 0 <= w
                < nodes.len() && live[w],
    ensures
        forall|w: int| 0 <= w < nodes.len() ==> #[trigger] live[w] == reached_from_ids(nodes, roots, w),
{
    assert forall|w: int| 0 <= w < nodes.len() implies #[trigger] live[w] == reached_from_ids(nodes, roots, w) by {
        if reached_from_ids(nodes, roots, w) {
            let k0 = choose|k0: int| 0 <= k0 < roots.len() && #[trigger] reaches(nodes, roots[k0] as int, w);
            lemma_reached_marked(nodes, 0x1_0000_0000nat, live, roots[k0] as int, w);
        }
    }
}

/// The nodes kept, renamed, are the nodes of `order` renumbered, and the
/// roots are renumbered the same way.
proof fn lemma_pruned_exact(
    nodes: Seq<Node>,
    live: Seq<bool>,
    remap: Seq<Option<NodeId>>,
    origin: Seq<int>,
    kept: Seq<Node>,
    ids: Seq<NodeId>,
    new_ids: Seq<NodeId>,
)
    requires
        ssa(nodes),
        live.len() == nodes.len(),
        remap.len() == nodes.len(),
        origin.len() == kept.len(),
        forall|v: int, w: int|
            0 <= v < nodes.len() && #[trigger] live[v] && #[trigger] operand_of(nodes, v, w) ==> 0 <= w
                < nodes.len() && live[w],
        forall|w: int|
            0 <= w < nodes.len() && #[trigger] live[w] ==> remap[w] is Some && remap[w]->0 < kept.len()
                && kept[remap[w]->0 as int] == renamed(nodes[w], remap),
        forall|m: int|
            0 <= m < kept.len() ==> 0 <= #[trigger] origin[m] < nodes.len() && live[origin[m]]
                && remap[origin[m]] is Some && remap[origin[m]]->0 == m,
        forall|m1: int, m2: int| 0 <= m1 < m2 < origin.len() ==> origin[m1] < origin[m2],
        forall|w: int| 0 <= w < nodes.len() && #[trigger] live[w] ==> origin[remap[w]->0 as int] == w,
        ids_below(ids, nodes.len()),
        forall|j: int| 0 <= j < ids.len() ==> live[#[trigger] ids[j] as int],
        new_ids.len() == ids.len(),
        forall|j: int| 0 <= j < ids.len() ==> Some(#[trigger] new_ids[j]) == remap[ids[j] as int],
    ensures
        forall|m: int| 0 <= m < kept.len() ==> #[trigger] kept[m] == renumbered(nodes[origin[m]], origin),
        forall|j: int| 0 <= j < ids.len() ==> #[trigger] new_ids[j] == position(origin, ids[j] as int),
{
    assert forall|w: int| 0 <= w < nodes.len() && #[trigger] live[w] implies remap[w]->0 == position(origin, w) by {
        lemma_position(origin, remap[w]->0 as int);
    }
    assert forall|j: int| 0 <= j < ids.len() implies #[trigger] new_ids[j] == position(origin, ids[j] as int) by {
        assert(live[ids[j] as int]);
    }
    assert forall|m: int| 0 <= m < kept.len() implies #[trigger] kept[m] == renumbered(nodes[origin[m]], origin) by {
        let w = origin[m];
        assert(live[w]);
        assert(kept[m] == renamed(nodes[w], remap));
        match nodes[w] {
            Node::Unary(_, a) => {
                assert(operand_of(nodes, w, a as int));
                assert(live[a as int]);
            },
            Node::Binary(_, a, b) => {
                assert(operand_of(nodes, w, a as int));
                assert(operand_of(nodes, w, b as int));
                assert(live[a as int]);
                assert(live[b as int]);
            },
            _ => {},
        }
    }
}

/// `g` is what pruning makes of `func`: the nodes some input or output
/// depends on, in order and renumbered, with the inputs and outputs moved
/// along.
pub open spec fn prune_of(func: &Function, g: &Function) -> bool {
    &&& g.wf()
    &&& g.spec_inputs().len() == func.spec_inputs().len()
    &&& g.spec_outputs().len() == func.spec_outputs().len()
    &&& g.spec_nodes().len() == pruned_nodes(func).len()
    &&& forall|m: int|
        0 <= m < g.spec_nodes().len() ==> #[trigger] g.spec_nodes()[m] == renumbered(
            func.spec_nodes()[pruned_nodes(func)[m]],
            pruned_nodes(func),
        )
    &&& forall|j: int|
        0 <= j < func.spec_inputs().len() ==> #[trigger] g.spec_inputs()[j] == position(
            pruned_nodes(func),
            func.spec_inputs()[j] as int,
        )
    &&& forall|k: int|
        0 <= k < func.spec_outputs().len() ==> #[trigger] g.spec_outputs()[k] == position(
            pruned_nodes(func),
            func.spec_outputs()[k] as int,
        )
}

proof fn lemma_kept_all(nodes: Seq<Node>, roots: Seq<NodeId>, i: int)
    requires
        0 <= i <= nodes.len(),
        forall|w: int| 0 <= w < nodes.len() ==> reached_from_ids(nodes, roots, w),
    ensures
        kept_upto(nodes, roots, i) == Seq::new(i as nat, |m: int| m),
    decreases i,
{
    if i > 0 {
        lemma_kept_all(nodes, roots, i - 1);
        assert(reached_from_ids(nodes, roots, i - 1));
        assert(kept_upto(nodes, roots, i) =~= Seq::new(i as nat, |m: int| m));
    }
}

/// Pruning a graph that pruning made changes nothing: its nodes, inputs
/// and outputs stay as they are.
pub proof fn lemma_prune_idempotent(f: &Function, g: &Function, h: &Function)
    requires
        f.wf(),
        prune_of(f, g),
        forall|w: int| 0 <= w < g.spec_nodes().len() ==> reached_from_ids(g.spec_nodes(), roots(g), w),
        prune_of(g, h),
    ensures
        h.spec_nodes() == g.spec_nodes(),
        h.spec_inputs() == g.spec_inputs(),
        h.spec_outputs() == g.spec_outputs(),
{
    let n = g.spec_nodes().len();
    lemma_kept_all(g.spec_nodes(), roots(g), n as int);
    let order = pruned_nodes(g);
    assert(order == Seq::new(n, |m: int| m));
    assert forall|x: int| 0 <= x < n implies #[trigger] position(order, x) == x by {
        lemma_position(order, x);
    }
    assert forall|m: int| 0 <= m < n implies #[trigger] h.spec_nodes()[m] == g.spec_nodes()[m] by {
        assert(node_ok(g.spec_nodes()[m], m, 0x1_0000_0000nat));
        assert(order[m] == m);
    }
    assert(h.spec_nodes() =~= g.spec_nodes());
    assert forall|j: int| 0 <= j < g.spec_inputs().len() implies #[trigger] h.spec_inputs()[j] == g.spec_inputs()[j] by {
        assert(g.spec_inputs()[j] < n);
    }
    assert(h.spec_inputs() =~= g.spec_inputs());
    assert forall|k: int| 0 <= k < g.spec_outputs().len() implies #[trigger] h.spec_outputs()[k] == g.spec_outputs()[k] by {
        assert(g.spec_outputs()[k] < n);
    }
    assert(h.spec_outputs() =~= g.spec_outputs());
}


/// Drops every node that neither an output nor an input depends on,
/// keeping the others in order. Inputs survive even where no output
/// needs them, so the function keeps its arity and its input list.
#[verifier::loop_isolation(false)]
pub fn prune(func: &Function) -> (g: Function)
    requires
        func.wf(),
    ensures
        prune_of(func, &g),
        g.wf(),
        g.spec_inputs().len() == func.spec_inputs().len(),
        g.spec_outputs().len() == func.spec_outputs().len(),
        forall|j: int| 0 <= j < func.spec_inputs().len() ==> #[trigger] g.input_sym(j) == func.input_sym(j),
        forall|k: int|
            0 <= k < func.spec_outputs().len() ==> #[trigger] g.output_sym(k) == func.output_sym(k),
        forall|w: int| 0 <= w < g.spec_nodes().len() ==> reached_from_ids(g.spec_nodes(), roots(&g), w),
        g.spec_nodes().len() == pruned_nodes(func).len(),
        forall|m: int|
            0 <= m < g.spec_nodes().len() ==> #[trigger] g.spec_nodes()[m] == renumbered(
                func.spec_nodes()[pruned_nodes(func)[m]],
                pruned_nodes(func),
            ),
        forall|j: int|
            0 <= j < func.spec_inputs().len() ==> #[trigger] g.spec_inputs()[j] == position(
                pruned_nodes(func),
                func.spec_inputs()[j] as int,
            ),
        forall|k: int|
            0 <= k < func.spec_outputs().len() ==> #[trigger] g.spec_outputs()[k] == position(
                pruned_nodes(func),
                func.spec_outputs()[k] as int,
            ),
{
    let nodes = func.nodes();
    let n = nodes.len();
    let mut root_ids: Vec<NodeId> = Vec::new();
    let outs = func.outputs();
    let ins = func.inputs();
    let mut k: usize = 0;
    while k < outs.len()
        invariant
            outs@ == func.spec_outputs(),
            k <= outs@.len(),
            root_ids@ == outs@.subrange(0, k as int),
        decreases outs@.len() - k,
    {
        root_ids.push(outs[k]);
        k += 1;
    }
    let mut j: usize = 0;
    while j < ins.len()
        invariant
            outs@ == func.spec_outputs(),
            ins@ == func.spec_inputs(),
            j <= ins@.len(),
            root_ids@ == outs@ + ins@.subrange(0, j as int),
        decreases ins@.len() - j,
    {
        root_ids.push(ins[j]);
        j += 1;
    }
    proof {
        assert(ins@.subrange(0, ins@.len() as int) == ins@);
        assert(root_ids@ == roots(func));
        assert(ids_below(root_ids@, nodes@.len())) by {
            assert forall|k2: int| 0 <= k2 < root_ids@.len() implies #[trigger] root_ids@[k2] < nodes@.len() by {
                if k2 < outs@.len() {
                    assert(root_ids@[k2] == outs@[k2]);
                } else {
                    assert(root_ids@[k2] == ins@[k2 - outs@.len()]);
                }
            }
        }
    }
    let live = mark_reachable(nodes, &root_ids);
    proof {
        lemma_live_reached(nodes@, root_ids@, live@);
    }
    let mut remap: Vec<Option<NodeId>> = Vec::new();
    let mut i: usize = 0;
    while i < n
        invariant
            n == nodes@.len(),
            i <= n,
            remap@.len() == i,
            forall|w: int| 0 <= w < i ==> #[trigger] remap@[w] is None,
        decreases n - i,
    {
        remap.push(None);
        i += 1;
    }
    let mut kept: Vec<Node> = Vec::new();
    let ghost mut origin: Seq<int> = Seq::empty();
    let mut id: usize = 0;
    #[verifier::loop_isolation(true)]
    while id < n
        invariant
            nodes@ == func.spec_nodes(),
            ssa(nodes@),
            n == nodes@.len(),
            id <= n,
            live@.len() == n,
            remap@.len() == n,
            forall|v: int, w: int|
                0 <= v < n && #[trigger] live@[v] && #[trigger] operand_of(nodes@, v, w) ==> 0 <= w < n
                    && live@[w],
            ssa(kept@),
            forall|w: int| 0 <= w < n ==> (#[trigger] remap@[w] is Some <==> (w < id && live@[w])),
            forall|w: int|
                0 <= w < id && #[trigger] live@[w] ==> remap@[w]->0 < kept@.len() && kept@[remap@[w]->0 as int]
                    == renamed(nodes@[w], remap@) && node_sym(kept@, remap@[w]->0 as int) == node_sym(
                    nodes@,
                    w,
                ),
            origin.len() == kept@.len(),
            forall|m: int|
                0 <= m < kept@.len() ==> 0 <= #[trigger] origin[m] < id && live@[origin[m]] && remap@[origin[m]] is Some
                    && remap@[origin[m]]->0 == m,
            forall|w: int| 0 <= w < n ==> #[trigger] live@[w] == reached_from_ids(nodes@, root_ids@, w),
            origin == kept_upto(nodes@, root_ids@, id as int),
            forall|m1: int, m2: int| 0 <= m1 < m2 < origin.len() ==> origin[m1] < origin[m2],
            forall|w: int| 0 <= w < id && #[trigger] live@[w] ==> origin[remap@[w]->0 as int] == w,
        decreases n - id,
    {
        let ghost o0 = origin;
        if !live[id] {
            proof {
                assert(kept_upto(nodes@, root_ids@, id + 1) =~= kept_upto(nodes@, root_ids@, id as int));
            }
        }
        if live[id] {
            proof {
                assert(node_ok(nodes@[id as int], id as int, 0x1_0000_0000nat));
            }
            let new_node = match nodes[id] {
                Node::Unary(op, a) => {
                    proof {
                        assert(operand_of(nodes@, id as int, a as int));
                    }
                    Node::Unary(op, remap[a].unwrap())
                },
                Node::Binary(op, a, b) => {
                    proof {
                        assert(operand_of(nodes@, id as int, a as int));
                        assert(operand_of(nodes@, id as int, b as int));
                    }
                    Node::Binary(op, remap[a].unwrap(), remap[b].unwrap())
                },
                other => other,
            };
            let m = kept.len();
            let ghost k0 = kept@;
            let ghost r0 = remap@;
            kept.push(new_node);
            remap.set(id, Some(m));
            proof {
                origin = origin.push(id as int);
                assert(origin =~= kept_upto(nodes@, root_ids@, id + 1));
                assert forall|w: int| 0 <= w < id + 1 && #[trigger] live@[w] implies origin[remap@[w]->0 as int] == w by {
                    if w < id {
                        assert(remap@[w] == r0[w]);
                        assert(origin[r0[w]->0 as int] == o0[r0[w]->0 as int]);
                    }
                }
                assert(extends(k0, kept@));
                assert forall|i2: int| 0 <= i2 < kept@.len() implies node_ok(
                    #[trigger] kept@[i2],
                    i2,
                    0x1_0000_0000nat,
                ) by {
                    if i2 < m {
                        assert(kept@[i2] == k0[i2]);
                        assert(node_ok(k0[i2], i2, 0x1_0000_0000nat));
                    }
                }
                assert(renamed(nodes@[id as int], remap@) == new_node) by {
                    match nodes@[id as int] {
                        Node::Unary(_, a) => {
                            assert(remap@[a as int] == r0[a as int]);
                        },
                        Node::Binary(_, a, b) => {
                            assert(remap@[a as int] == r0[a as int]);
                            assert(remap@[b as int] == r0[b as int]);
                        },
                        _ => {},
                    }
                }
                assert forall|w: int|
                    0 <= w < id + 1 && #[trigger] live@[w] implies remap@[w]->0 < kept@.len() && kept@[remap@[w]->0 as int]
                    == renamed(nodes@[w], remap@) && node_sym(kept@, remap@[w]->0 as int) == node_sym(
                    nodes@,
                    w,
                ) by {
                    if w < id {
                        let mw = r0[w]->0 as int;
                        assert(remap@[w] == r0[w]);
                        lemma_node_sym_extends(k0, kept@, mw);
                        assert(node_ok(nodes@[w], w, 0x1_0000_0000nat));
                        match nodes@[w] {
                            Node::Unary(_, a) => {
                                assert(operand_of(nodes@, w, a as int));
                                assert(remap@[a as int] == r0[a as int]);
                            },
                            Node::Binary(_, a, b) => {
                                assert(operand_of(nodes@, w, a as int));
                                assert(operand_of(nodes@, w, b as int));
                                assert(remap@[a as int] == r0[a as int]);
                                assert(remap@[b as int] == r0[b as int]);
                            },
                            _ => {},
                        }
                    } else {
                        match nodes@[id as int] {
                            Node::Unary(_, a) => {
                                lemma_node_sym_extends(k0, kept@, r0[a as int]->0 as int);
                            },
                            Node::Binary(_, a, b) => {
                                lemma_node_sym_extends(k0, kept@, r0[a as int]->0 as int);
                                lemma_node_sym_extends(k0, kept@, r0[b as int]->0 as int);
                            },
                            _ => {},
                        }
                    }
                }
                assert forall|m2: int| 0 <= m2 < kept@.len() implies 0 <= #[trigger] origin[m2] < id + 1
                    && live@[origin[m2]] && remap@[origin[m2]] is Some && remap@[origin[m2]]->0 == m2 by {
                    if m2 < m {
                        assert(r0[origin[m2]] is Some && r0[origin[m2]]->0 == m2);
                    }
                }
            }
        }
        id += 1;
    }
    proof {
        assert forall|j2: int| 0 <= j2 < ins@.len() implies live@[#[trigger] ins@[j2] as int] by {
            assert(root_ids@[outs@.len() + j2] == ins@[j2]);
        }
        assert forall|k2: int| 0 <= k2 < outs@.len() implies live@[#[trigger] outs@[k2] as int] by {
            assert(root_ids@[k2] == outs@[k2]);
        }
    }
    let mut new_inputs: Vec<NodeId> = Vec::new();
    let mut j: usize = 0;
    while j < ins.len()
        invariant
            ins@ == func.spec_inputs(),
            nodes@ == func.spec_nodes(),
            n == nodes@.len(),
            live@.len() == n,
            remap@.len() == n,
            ids_below(ins@, n as nat),
            forall|j2: int| 0 <= j2 < ins@.len() ==> live@[#[trigger] ins@[j2] as int],
            forall|w: int| 0 <= w < n ==> (#[trigger] remap@[w] is Some <==> live@[w]),
            j <= ins@.len(),
            new_inputs@.len() == j,
            forall|j2: int| 0 <= j2 < j ==> Some(#[trigger] new_inputs@[j2]) == remap@[ins@[j2] as int],
        decreases ins@.len() - j,
    {
        proof {
            assert(ins@[j as int] < n);
        }
        new_inputs.push(remap[ins[j]].unwrap());
        j += 1;
    }
    let mut new_outputs: Vec<NodeId> = Vec::new();
    let mut k: usize = 0;
    while k < outs.len()
        invariant
            outs@ == func.spec_outputs(),
            n == nodes@.len(),
            live@.len() == n,
            remap@.len() == n,
            ids_below(outs@, n as nat),
            forall|k2: int| 0 <= k2 < outs@.len() ==> live@[#[trigger] outs@[k2] as int],
            forall|w: int| 0 <= w < n ==> (#[trigger] remap@[w] is Some <==> live@[w]),
            k <= outs@.len(),
            new_outputs@.len() == k,
            forall|k2: int| 0 <= k2 < k ==> Some(#[trigger] new_outputs@[k2]) == remap@[outs@[k2] as int],
        decreases outs@.len() - k,
    {
        proof {
            assert(outs@[k as int] < n);
        }
        new_outputs.push(remap[outs[k]].unwrap());
        k += 1;
    }
    let g = Function::from_parts(kept, new_inputs, new_outputs);
    proof {
        assert(root_ids@ == roots(func));
        assert(origin == pruned_nodes(func));
        lemma_pruned_exact(nodes@, live@, remap@, origin, kept@, ins@, new_inputs@);
        lemma_pruned_exact(nodes@, live@, remap@, origin, kept@, outs@, new_outputs@);
        assert(roots(&g) =~= new_outputs@ + new_inputs@);
        assert forall|k2: int| 0 <= k2 < root_ids@.len() implies #[trigger] remap@[root_ids@[k2] as int]
            == Some(roots(&g)[k2]) by {
            if k2 < outs@.len() {
                assert(root_ids@[k2] == outs@[k2]);
            } else {
                assert(root_ids@[k2] == ins@[k2 - outs@.len()]);
            }
        }
        assert forall|w: int| 0 <= w < g.spec_nodes().len() implies reached_from_ids(
            g.spec_nodes(),
            roots(&g),
            w,
        ) by {
            let v = origin[w];
            let k0 = choose|k0: int| 0 <= k0 < root_ids@.len() && #[trigger] reaches(nodes@, root_ids@[k0] as int, v);
            lemma_reaches_renamed(nodes@, kept@, live@, remap@, root_ids@[k0] as int, v);
            assert(remap@[v]->0 == w);
            assert(remap@[root_ids@[k0] as int] == Some(roots(&g)[k0]));
            assert(reaches(g.spec_nodes(), roots(&g)[k0] as int, w));
        }
    }
    g
}


/// Node `w` depends on an input whose seed is nonzero.
pub open spec fn seeded(func: &Function, seed: Seq<Bits64>, w: int) -> bool {
    exists|j: int|
        0 <= j < func.spec_inputs().len() && !is_zero_bits(seed[j]) && #[trigger] reaches(
            func.spec_nodes(),
            w,
            func.spec_inputs()[j] as int,
        )
}

/// An output whose weight is nonzero depends on node `w`.
pub open spec fn weighted(func: &Function, weight: Seq<Bits64>, w: int) -> bool {
    exists|k: int|
        0 <= k < func.spec_outputs().len() && !is_zero_bits(weight[k]) && #[trigger] reaches(
            func.spec_nodes(),
            func.spec_outputs()[k] as int,
            w,
        )
}

/// Every filled slot names a node below `bound`.
spec fn slots_below(slots: Seq<Option<NodeId>>, bound: nat) -> bool {
    forall|w: int|
        0 <= w < slots.len() ==> match #[trigger] slots[w] {
            Some(t) => t < bound,
            None => true,
        }
}

/// Tangent slots: only nodes that depend on a seeded input have one.
spec fn tan_ok(func: &Function, seed: Seq<Bits64>, tan: Seq<Option<NodeId>>, bound: nat) -> bool {
    &&& tan.len() == func.spec_nodes().len()
    &&& slots_below(tan, bound)
    &&& forall|w: int| 0 <= w < tan.len() && (#[trigger] tan[w]) is Some ==> seeded(func, seed, w)
}

/// Adjoint slots: only nodes that a weighted output depends on have one.
spec fn adj_ok(func: &Function, weight: Seq<Bits64>, adj: Seq<Option<NodeId>>, bound: nat) -> bool {
    &&& adj.len() == func.spec_nodes().len()
    &&& slots_below(adj, bound)
    &&& forall|w: int| 0 <= w < adj.len() && (#[trigger] adj[w]) is Some ==> weighted(func, weight, w)
}

proof fn lemma_slots_grow(slots: Seq<Option<NodeId>>, a: nat, b: nat)
    requires
        slots_below(slots, a),
        a <= b,
    ensures
        slots_below(slots, b),
{
    assert forall|w: int| 0 <= w < slots.len() implies match #[trigger] slots[w] {
        Some(t) => t < b,
        None => true,
    } by {
        assert(match slots[w] {
            Some(t) => t < a,
            None => true,
        });
    }
}

/// A node depends on whatever its operands depend on.
proof fn lemma_reaches_through(nodes: Seq<Node>, v: int, a: int, x: int)
    requires
        ssa(nodes),
        0 <= v < nodes.len(),
        operand_of(nodes, v, a),
        reaches(nodes, a, x),
    ensures
        reaches(nodes, v, x),
{
    assert(node_ok(nodes[v], v, 0x1_0000_0000nat));
}

/// Block `d` of a flat array of blocks of `n` entries starts at `d * n`.
proof fn lemma_block(d: int, d2: int, k: int, n: int)
    requires
        0 <= d2 <= d,
        0 <= k < n,
    ensures
        d2 * n + k < (d2 + 1) * n,
        d2 < d ==> (d2 + 1) * n <= d * n,
        (d + 1) * n == d * n + n,
        0 <= d2 * n,
{
    assert(d2 * n + k < (d2 + 1) * n) by (nonlinear_arith)
        requires
            0 <= k < n,
    ;
    assert(d2 < d ==> (d2 + 1) * n <= d * n) by (nonlinear_arith)
        requires
            0 <= d2 <= d,
            0 < n,
    ;
    assert((d + 1) * n == d * n + n) by (nonlinear_arith);
    assert(0 <= d2 * n) by (nonlinear_arith)
        requires
            0 <= d2,
            0 < n,
    ;
}

/// The helper `op(a)` of node `id`, emitted once and shared by every
/// direction.
fn helper_unary<C: ConstantFolder>(
    helpers: &mut Vec<Option<NodeId>>,
    b: &mut Builder,
    id: usize,
    op: UnaryOp,
    a: NodeId,
    folder: &C,
) -> (h: NodeId)
    requires
        old(b).ok(),
        a < old(b).nodes@.len(),
        id < old(helpers)@.len(),
        slots_below(old(helpers)@, old(b).nodes@.len()),
    ensures
        final(b).ok(),
        extends(old(b).nodes@, final(b).nodes@),
        h < final(b).nodes@.len(),
        final(helpers)@.len() == old(helpers)@.len(),
        slots_below(final(helpers)@, final(b).nodes@.len()),
        match old(helpers)@[id as int] {
            // Already emitted: reused, nothing built.
            Some(h0) => h == h0 && final(b).nodes@ == old(b).nodes@ && final(helpers)@ == old(helpers)@,
            // Built now and remembered for node `id`.
            None => unary_result(folder, old(b).nodes@, final(b).nodes@, op, a, h) && final(helpers)@ == old(
                helpers,
            )@.update(id as int, Some(h)),
        },
{
    assert(match helpers@[id as int] {
        Some(t) => t < b.nodes@.len(),
        None => true,
    });
    match helpers[id] {
        Some(h) => h,
        None => {
            let h = b.unary(op, a, folder);
            proof {
                lemma_slots_grow(helpers@, old(b).nodes@.len(), b.nodes@.len());
            }
            helpers.set(id, Some(h));
            proof {
                assert forall|w: int| 0 <= w < helpers@.len() implies match #[trigger] helpers@[w] {
                    Some(t) => t < b.nodes@.len(),
                    None => true,
                } by {
                    if w != id {
                        assert(helpers@[w] == old(helpers)@[w]);
                        assert(match old(helpers)@[w] {
                            Some(t) => t < b.nodes@.len(),
                            None => true,
                        });
                    }
                }
            }
            h
        },
    }
}

/// The helper `1 / r` of the quotient node `id`.
fn helper_recip<C: ConstantFolder>(
    helpers: &mut Vec<Option<NodeId>>,
    b: &mut Builder,
    id: usize,
    r: NodeId,
    folder: &C,
) -> (h: NodeId)
    requires
        old(b).ok(),
        r < old(b).nodes@.len(),
        id < old(helpers)@.len(),
        slots_below(old(helpers)@, old(b).nodes@.len()),
    ensures
        final(b).ok(),
        extends(old(b).nodes@, final(b).nodes@),
        h < final(b).nodes@.len(),
        final(helpers)@.len() == old(helpers)@.len(),
        slots_below(final(helpers)@, final(b).nodes@.len()),
        match old(helpers)@[id as int] {
            // Already emitted: reused, nothing built.
            Some(h0) => h == h0 && final(b).nodes@ == old(b).nodes@ && final(helpers)@ == old(helpers)@,
            // Built now as `1 / r` and remembered for node `id`.
            None => final(helpers)@ == old(helpers)@.update(id as int, Some(h)) && exists|one: NodeId, mid: Seq<Node>|
                const_result(old(b).nodes@, mid, Bits64(ONE_BITS), one) && #[trigger] binary_result(folder, 
                    mid,
                    final(b).nodes@,
                    BinaryOp::Div,
                    one,
                    r,
                    h,
                ),
        },
{
    assert(match helpers@[id as int] {
        Some(t) => t < b.nodes@.len(),
        None => true,
    });
    match helpers[id] {
        Some(h) => h,
        None => {
            let one = b.constant(Bits64(ONE_BITS));
            let ghost mid = b.nodes@;
            let h = b.binary(BinaryOp::Div, one, r, folder);
            proof {
                assert(const_result(old(b).nodes@, mid, Bits64(ONE_BITS), one) && binary_result(folder, 
                    mid,
                    b.nodes@,
                    BinaryOp::Div,
                    one,
                    r,
                    h,
                ));
            }
            proof {
                lemma_slots_grow(helpers@, old(b).nodes@.len(), b.nodes@.len());
            }
            helpers.set(id, Some(h));
            proof {
                assert forall|w: int| 0 <= w < helpers@.len() implies match #[trigger] helpers@[w] {
                    Some(t) => t < b.nodes@.len(),
                    None => true,
                } by {
                    if w != id {
                        assert(helpers@[w] == old(helpers)@[w]);
                        assert(match old(helpers)@[w] {
                            Some(t) => t < b.nodes@.len(),
                            None => true,
                        });
                    }
                }
            }
            h
        },
    }
}


proof fn lemma_seeded_through(func: &Function, seed: Seq<Bits64>, v: int, a: int)
    requires
        func.wf(),
        0 <= v < func.spec_nodes().len(),
        operand_of(func.spec_nodes(), v, a),
        seeded(func, seed, a),
    ensures
        seeded(func, seed, v),
{
    let j = choose|j: int|
        0 <= j < func.spec_inputs().len() && !is_zero_bits(seed[j]) && #[trigger] reaches(
            func.spec_nodes(),
            a,
            func.spec_inputs()[j] as int,
        );
    lemma_reaches_through(func.spec_nodes(), v, a, func.spec_inputs()[j] as int);
}

proof fn lemma_weighted_operand(func: &Function, weight: Seq<Bits64>, v: int, a: int)
    requires
        func.wf(),
        0 <= v < func.spec_nodes().len(),
        operand_of(func.spec_nodes(), v, a),
        weighted(func, weight, v),
    ensures
        weighted(func, weight, a),
{
    let k = choose|k: int|
        0 <= k < func.spec_outputs().len() && !is_zero_bits(weight[k]) && #[trigger] reaches(
            func.spec_nodes(),
            func.spec_outputs()[k] as int,
            v,
        );
    lemma_reaches_operand(func.spec_nodes(), 0x1_0000_0000nat, func.spec_outputs()[k] as int, v, a);
}

proof fn lemma_set_slot(slots: Seq<Option<NodeId>>, id: int, t: Option<NodeId>, bound: nat)
    requires
        slots_below(slots, bound),
        0 <= id < slots.len(),
        t is Some ==> t->0 < bound,
    ensures
        slots_below(slots.update(id, t), bound),
{
    assert forall|w: int| 0 <= w < slots.len() implies match #[trigger] slots.update(id, t)[w] {
        Some(x) => x < bound,
        None => true,
    } by {
        if w != id {
            assert(match slots[w] {
                Some(x) => x < bound,
                None => true,
            });
        }
    }
}

/// What the node named by `o` computes, if there is one.
pub open spec fn opt_sym(o: Option<NodeId>, nodes: Seq<Node>) -> Option<Sym> {
    match o {
        Some(t) => Some(node_sym(nodes, t as int)),
        None => None,
    }
}

/// `dl + dr` over tangents, `None` being a structural zero.
pub open spec fn sum_rule<C: ConstantFolder>(folder: &C, dl: Option<Sym>, dr: Option<Sym>, t: Option<Sym>) -> bool {
    match (dl, dr) {
        (None, None) => t is None,
        (Some(x), None) => t == Some(x),
        (None, Some(y)) => t == Some(y),
        (Some(x), Some(y)) => t is Some && sym_binary(folder, BinaryOp::Add, x, y, t->0),
    }
}

/// `dl - dr` over tangents, `None` being a structural zero.
pub open spec fn diff_rule<C: ConstantFolder>(folder: &C, dl: Option<Sym>, dr: Option<Sym>, t: Option<Sym>) -> bool {
    match (dl, dr) {
        (None, None) => t is None,
        (Some(x), None) => t == Some(x),
        (None, Some(y)) => t is Some && sym_unary(folder, UnaryOp::Neg, y, t->0),
        (Some(x), Some(y)) => t is Some && sym_binary(folder, BinaryOp::Sub, x, y, t->0),
    }
}

/// `cos(x) * dx` through the helper `c = cos(x)`.
pub open spec fn sin_rule<C: ConstantFolder>(folder: &C, x: Sym, dx: Sym, c: Sym, t: Sym) -> bool {
    sym_unary(folder, UnaryOp::Cos, x, c) && sym_binary(folder, BinaryOp::Mul, c, dx, t)
}

/// `-(sin(x) * dx)` through the helper `c = sin(x)` and the product `m`.
pub open spec fn cos_rule<C: ConstantFolder>(folder: &C, x: Sym, dx: Sym, c: Sym, m: Sym, t: Sym) -> bool {
    &&& sym_unary(folder, UnaryOp::Sin, x, c)
    &&& sym_binary(folder, BinaryOp::Mul, c, dx, m)
    &&& sym_unary(folder, UnaryOp::Neg, m, t)
}

/// `dl * r + l * dr` through the products `t1` and `t2`.
pub open spec fn prod_rule<C: ConstantFolder>(folder: &C, 
    l: Sym,
    r: Sym,
    dl: Option<Sym>,
    dr: Option<Sym>,
    t1: Option<Sym>,
    t2: Option<Sym>,
    t: Option<Sym>,
) -> bool {
    &&& match dl {
        None => t1 is None,
        Some(x) => t1 is Some && sym_binary(folder, BinaryOp::Mul, x, r, t1->0),
    }
    &&& match dr {
        None => t2 is None,
        Some(y) => t2 is Some && sym_binary(folder, BinaryOp::Mul, l, y, t2->0),
    }
    &&& sum_rule(folder, t1, t2, t)
}

/// `(dl - y * dr) * (1 / r)` for the quotient `y = l / r`, through the
/// product `m`, the numerator `num` and the helper `rc = 1 / r`.
pub open spec fn quot_rule<C: ConstantFolder>(folder: &C, 
    y: Sym,
    r: Sym,
    dl: Option<Sym>,
    dr: Option<Sym>,
    m: Sym,
    num: Option<Sym>,
    rc: Sym,
    t: Option<Sym>,
) -> bool {
    &&& match (dl, dr) {
        (None, None) => num is None,
        (Some(x), None) => num == Some(x),
        (None, Some(z)) => sym_binary(folder, BinaryOp::Mul, y, z, m) && num is Some && sym_unary(folder, 
            UnaryOp::Neg,
            m,
            num->0,
        ),
        (Some(x), Some(z)) => sym_binary(folder, BinaryOp::Mul, y, z, m) && num is Some && sym_binary(folder, 
            BinaryOp::Sub,
            x,
            m,
            num->0,
        ),
    }
    &&& match num {
        None => t is None,
        Some(nv) => sym_binary(folder, BinaryOp::Div, Sym::Const(Bits64(ONE_BITS)), r, rc) && t is Some
            && sym_binary(folder, BinaryOp::Mul, nv, rc, t->0),
    }
}

/// The tangent a nonzero seed gives node `v`: the last nonzero entry of
/// `seed` among the first `j` inputs that name `v`.
pub open spec fn seed_upto(ins: Seq<NodeId>, seed: Seq<Bits64>, v: int, j: int) -> Option<Sym>
    decreases j,
{
    if j <= 0 {
        None
    } else if ins[j - 1] == v && !is_zero_bits(seed[j - 1]) {
        Some(Sym::Const(seed[j - 1]))
    } else {
        seed_upto(ins, seed, v, j - 1)
    }
}

/// The tangent of node `v` of `func` along `seed`, in `t`, is what the
/// forward sweep makes of the tangents of its operands (`None` being a
/// structural zero); a parameter or constant has its seed.
pub open spec fn tan_rule<C: ConstantFolder>(folder: &C, func: &Function, seed: Seq<Bits64>, t: Seq<Option<Sym>>, v: int) -> bool {
    let nodes = func.spec_nodes();
    match nodes[v] {
        Node::Unary(op, a) => match t[a as int] {
            None => t[v] is None,
            Some(da) => t[v] is Some && match op {
                UnaryOp::Neg => sym_unary(folder, UnaryOp::Neg, da, t[v]->0),
                UnaryOp::Sin => exists|c: Sym| #[trigger] sin_rule(folder, node_sym(nodes, a as int), da, c, t[v]->0),
                UnaryOp::Cos => exists|c: Sym, m: Sym|
                    #[trigger] cos_rule(folder, node_sym(nodes, a as int), da, c, m, t[v]->0),
            },
        },
        Node::Binary(op, l, r) => match op {
            BinaryOp::Add => sum_rule(folder, t[l as int], t[r as int], t[v]),
            BinaryOp::Sub => diff_rule(folder, t[l as int], t[r as int], t[v]),
            BinaryOp::Mul => exists|t1: Option<Sym>, t2: Option<Sym>|
                #[trigger] prod_rule(folder, 
                    node_sym(nodes, l as int),
                    node_sym(nodes, r as int),
                    t[l as int],
                    t[r as int],
                    t1,
                    t2,
                    t[v],
                ),
            BinaryOp::Div => exists|m: Sym, num: Option<Sym>, rc: Sym|
                #[trigger] quot_rule(folder, 
                    node_sym(nodes, v),
                    node_sym(nodes, r as int),
                    t[l as int],
                    t[r as int],
                    m,
                    num,
                    rc,
                    t[v],
                ),
        },
        _ => t[v] == seed_upto(func.spec_inputs(), seed, v, func.spec_inputs().len() as int),
    }
}

/// `t` holds, for every node of `func`, its tangent along `seed` as the
/// forward sweep builds it.
pub open spec fn tangent_trace<C: ConstantFolder>(folder: &C, func: &Function, seed: Seq<Bits64>, t: Seq<Option<Sym>>) -> bool {
    &&& t.len() == func.spec_nodes().len()
    &&& forall|v: int| 0 <= v < t.len() ==> #[trigger] tan_rule(folder, func, seed, t, v)
}

/// The helper that node `v` of `nodes` needs: `cos(x)` for `sin(x)`,
/// `sin(x)` for `cos(x)`, `1 / r` for `l / r`.
pub open spec fn helper_rule<C: ConstantFolder>(folder: &C, nodes: Seq<Node>, v: int, h: Sym) -> bool {
    match nodes[v] {
        Node::Unary(UnaryOp::Sin, a) => sym_unary(folder, UnaryOp::Cos, node_sym(nodes, a as int), h),
        Node::Unary(UnaryOp::Cos, a) => sym_unary(folder, UnaryOp::Sin, node_sym(nodes, a as int), h),
        Node::Binary(BinaryOp::Div, _, r) => sym_binary(folder, 
            BinaryOp::Div,
            Sym::Const(Bits64(ONE_BITS)),
            node_sym(nodes, r as int),
            h,
        ),
        _ => true,
    }
}

/// Every helper made so far computes what its node needs.
spec fn helpers_sym_ok<C: ConstantFolder>(folder: &C, func: &Function, nodes: Seq<Node>, helpers: Seq<Option<NodeId>>) -> bool {
    forall|v: int|
        0 <= v < helpers.len() && (#[trigger] helpers[v]) is Some ==> helper_rule(folder, 
            func.spec_nodes(),
            v,
            node_sym(nodes, helpers[v]->0 as int),
        )
}

proof fn lemma_helpers_keep<C: ConstantFolder>(folder: &C, 
    func: &Function,
    s_in: Seq<Node>,
    s_out: Seq<Node>,
    h_in: Seq<Option<NodeId>>,
    h_out: Seq<Option<NodeId>>,
    id: int,
)
    requires
        helpers_sym_ok(folder, func, s_in, h_in),
        slots_below(h_in, s_in.len()),
        extends(s_in, s_out),
        0 <= id < h_in.len(),
        h_out == h_in.update(id, h_out[id]),
        h_in[id] is Some ==> h_out[id] == h_in[id],
        h_in[id] is None && h_out[id] is Some ==> helper_rule(folder, 
            func.spec_nodes(),
            id,
            node_sym(s_out, h_out[id]->0 as int),
        ),
    ensures
        helpers_sym_ok(folder, func, s_out, h_out),
{
    lemma_syms_extend(s_in, s_out);
    assert forall|v: int| 0 <= v < h_out.len() && (#[trigger] h_out[v]) is Some implies helper_rule(folder, 
        func.spec_nodes(),
        v,
        node_sym(s_out, h_out[v]->0 as int),
    ) by {
        if v != id || h_in[id] is Some {
            assert(h_out[v] == h_in[v]);
            assert(h_in[v] is Some);
            assert(match h_in[v] {
                Some(t) => t < s_in.len(),
                None => true,
            });
        }
    }
}

proof fn lemma_sum_lift<C: ConstantFolder>(folder: &C, old: Seq<Node>, new: Seq<Node>, dl: Option<NodeId>, dr: Option<NodeId>, t: Option<NodeId>)
    requires
        ssa(old),
        dl is Some ==> dl->0 < old.len(),
        dr is Some ==> dr->0 < old.len(),
        sum_tan(folder, old, new, dl, dr, t),
    ensures
        ssa(new),
        extends(old, new),
        t is Some ==> t->0 < new.len(),
        sum_rule(folder, opt_sym(dl, new), opt_sym(dr, new), opt_sym(t, new)),
{
    if dl is Some && dr is Some {
        lemma_binary_lift(folder, old, new, BinaryOp::Add, dl->0, dr->0, t->0);
    }
    lemma_syms_extend(old, new);
}

proof fn lemma_diff_lift<C: ConstantFolder>(folder: &C, old: Seq<Node>, new: Seq<Node>, dl: Option<NodeId>, dr: Option<NodeId>, t: Option<NodeId>)
    requires
        ssa(old),
        dl is Some ==> dl->0 < old.len(),
        dr is Some ==> dr->0 < old.len(),
        diff_tan(folder, old, new, dl, dr, t),
    ensures
        ssa(new),
        extends(old, new),
        t is Some ==> t->0 < new.len(),
        diff_rule(folder, opt_sym(dl, new), opt_sym(dr, new), opt_sym(t, new)),
{
    if dl is Some && dr is Some {
        lemma_binary_lift(folder, old, new, BinaryOp::Sub, dl->0, dr->0, t->0);
    } else if dr is Some {
        lemma_unary_lift(folder, old, new, UnaryOp::Neg, dr->0, t->0);
    }
    lemma_syms_extend(old, new);
}

proof fn lemma_helper_lift<C: ConstantFolder>(folder: &C, 
    fnodes: Seq<Node>,
    old: Seq<Node>,
    new: Seq<Node>,
    cache: Option<NodeId>,
    op: UnaryOp,
    a: NodeId,
    h: NodeId,
)
    requires
        ssa(old),
        extends(fnodes, old),
        a < fnodes.len(),
        helper_step(folder, old, new, cache, op, a, h),
        cache is Some ==> cache->0 < old.len() && sym_unary(folder, op, node_sym(fnodes, a as int), node_sym(old, cache->0 as int)),
    ensures
        ssa(new),
        extends(old, new),
        h < new.len(),
        sym_unary(folder, op, node_sym(fnodes, a as int), node_sym(new, h as int)),
{
    lemma_syms_extend(fnodes, old);
    if cache is None {
        lemma_unary_lift(folder, old, new, op, a, h);
    }
}

proof fn lemma_sin_lift<C: ConstantFolder>(folder: &C, 
    fnodes: Seq<Node>,
    old: Seq<Node>,
    m1: Seq<Node>,
    new: Seq<Node>,
    cache: Option<NodeId>,
    a: NodeId,
    d: NodeId,
    c: NodeId,
    t: NodeId,
)
    requires
        ssa(old),
        extends(fnodes, old),
        a < fnodes.len(),
        d < old.len(),
        sin_tan(folder, old, m1, new, cache, a, d, c, t),
        cache is Some ==> cache->0 < old.len() && sym_unary(folder, 
            UnaryOp::Cos,
            node_sym(fnodes, a as int),
            node_sym(old, cache->0 as int),
        ),
    ensures
        ssa(new),
        extends(old, new),
        t < new.len(),
        c < new.len(),
        sin_rule(folder, node_sym(fnodes, a as int), node_sym(new, d as int), node_sym(new, c as int), node_sym(new, t as int)),
{
    lemma_helper_lift(folder, fnodes, old, m1, cache, UnaryOp::Cos, a, c);
    lemma_binary_lift(folder, m1, new, BinaryOp::Mul, c, d, t);
    lemma_syms_extend(old, m1);
    lemma_syms_extend(m1, new);
}

proof fn lemma_cos_lift<C: ConstantFolder>(folder: &C, 
    fnodes: Seq<Node>,
    old: Seq<Node>,
    m1: Seq<Node>,
    m2: Seq<Node>,
    new: Seq<Node>,
    cache: Option<NodeId>,
    a: NodeId,
    d: NodeId,
    c: NodeId,
    m: NodeId,
    t: NodeId,
)
    requires
        ssa(old),
        extends(fnodes, old),
        a < fnodes.len(),
        d < old.len(),
        cos_tan(folder, old, m1, m2, new, cache, a, d, c, m, t),
        cache is Some ==> cache->0 < old.len() && sym_unary(folder, 
            UnaryOp::Sin,
            node_sym(fnodes, a as int),
            node_sym(old, cache->0 as int),
        ),
    ensures
        ssa(new),
        extends(old, new),
        t < new.len(),
        c < new.len(),
        cos_rule(folder, 
            node_sym(fnodes, a as int),
            node_sym(new, d as int),
            node_sym(new, c as int),
            node_sym(new, m as int),
            node_sym(new, t as int),
        ),
{
    lemma_helper_lift(folder, fnodes, old, m1, cache, UnaryOp::Sin, a, c);
    lemma_binary_lift(folder, m1, m2, BinaryOp::Mul, c, d, m);
    lemma_unary_lift(folder, m2, new, UnaryOp::Neg, m, t);
    lemma_syms_extend(old, m1);
    lemma_syms_extend(m1, m2);
    lemma_syms_extend(m2, new);
}

proof fn lemma_prod_lift<C: ConstantFolder>(folder: &C, 
    fnodes: Seq<Node>,
    old: Seq<Node>,
    m1: Seq<Node>,
    m2: Seq<Node>,
    new: Seq<Node>,
    l: NodeId,
    r: NodeId,
    dl: Option<NodeId>,
    dr: Option<NodeId>,
    t1: Option<NodeId>,
    t2: Option<NodeId>,
    t: Option<NodeId>,
)
    requires
        ssa(old),
        extends(fnodes, old),
        l < fnodes.len(),
        r < fnodes.len(),
        dl is Some ==> dl->0 < old.len(),
        dr is Some ==> dr->0 < old.len(),
        prod_tan(folder, old, m1, m2, new, l, r, dl, dr, t1, t2, t),
    ensures
        ssa(new),
        extends(old, new),
        t is Some ==> t->0 < new.len(),
        prod_rule(folder, 
            node_sym(fnodes, l as int),
            node_sym(fnodes, r as int),
            opt_sym(dl, new),
            opt_sym(dr, new),
            opt_sym(t1, new),
            opt_sym(t2, new),
            opt_sym(t, new),
        ),
{
    lemma_syms_extend(fnodes, old);
    if dl is Some {
        lemma_binary_lift(folder, old, m1, BinaryOp::Mul, dl->0, r, t1->0);
    }
    lemma_syms_extend(old, m1);
    if dr is Some {
        lemma_binary_lift(folder, m1, m2, BinaryOp::Mul, l, dr->0, t2->0);
    }
    lemma_syms_extend(m1, m2);
    lemma_sum_lift(folder, m2, new, t1, t2, t);
    lemma_syms_extend(m2, new);
}

#[verifier::rlimit(40)]
proof fn lemma_quot_lift<C: ConstantFolder>(folder: &C, 
    fnodes: Seq<Node>,
    old: Seq<Node>,
    m1: Seq<Node>,
    m2: Seq<Node>,
    m3: Seq<Node>,
    m4: Seq<Node>,
    new: Seq<Node>,
    cache: Option<NodeId>,
    y: NodeId,
    r: NodeId,
    dl: Option<NodeId>,
    dr: Option<NodeId>,
    m: NodeId,
    num: Option<NodeId>,
    one: NodeId,
    recip: NodeId,
    t: Option<NodeId>,
)
    requires
        ssa(old),
        extends(fnodes, old),
        y < fnodes.len(),
        r < fnodes.len(),
        dl is Some ==> dl->0 < old.len(),
        dr is Some ==> dr->0 < old.len(),
        quot_tan(folder, old, m1, m2, m3, m4, new, cache, y, r, dl, dr, m, num, one, recip, t),
        cache is Some ==> cache->0 < old.len() && sym_binary(folder, 
            BinaryOp::Div,
            Sym::Const(Bits64(ONE_BITS)),
            node_sym(fnodes, r as int),
            node_sym(old, cache->0 as int),
        ),
    ensures
        ssa(new),
        extends(old, new),
        t is Some ==> t->0 < new.len(),
        num is Some ==> recip < new.len() && sym_binary(folder, 
            BinaryOp::Div,
            Sym::Const(Bits64(ONE_BITS)),
            node_sym(fnodes, r as int),
            node_sym(new, recip as int),
        ),
        quot_rule(folder, 
            node_sym(fnodes, y as int),
            node_sym(fnodes, r as int),
            opt_sym(dl, new),
            opt_sym(dr, new),
            node_sym(new, m as int),
            opt_sym(num, new),
            node_sym(new, recip as int),
            opt_sym(t, new),
        ),
{
    lemma_syms_extend(fnodes, old);
    if dr is Some {
        lemma_binary_lift(folder, old, m1, BinaryOp::Mul, y, dr->0, m);
        lemma_syms_extend(old, m1);
        if dl is Some {
            lemma_binary_lift(folder, m1, m2, BinaryOp::Sub, dl->0, m, num->0);
        } else {
            lemma_unary_lift(folder, m1, m2, UnaryOp::Neg, m, num->0);
        }
        lemma_syms_extend(m1, m2);
    }
    lemma_syms_extend(old, m2);
    if num is Some {
        lemma_syms_extend(fnodes, m2);
        if cache is None {
            lemma_const_lift(m2, m3, Bits64(ONE_BITS), one);
            lemma_binary_lift(folder, m3, m4, BinaryOp::Div, one, r, recip);
            lemma_syms_extend(m2, m3);
        }
        lemma_syms_extend(m2, m4);
        lemma_binary_lift(folder, m4, new, BinaryOp::Mul, num->0, recip, t->0);
        lemma_syms_extend(m4, new);
    }
    lemma_syms_extend(m2, new);
}

/// Sets the tangent of node `id` from the tangents of its operands.
#[verifier::spinoff_prover]
#[verifier::rlimit(100)]
fn tangent_step<C: ConstantFolder>(
    b: &mut Builder,
    helpers: &mut Vec<Option<NodeId>>,
    tan: &mut Vec<Option<NodeId>>,
    func: &Function,
    id: usize,
    Ghost(seed): Ghost<Seq<Bits64>>,
    folder: &C,
)
    requires
        func.wf(),
        old(b).ok(),
        extends(func.spec_nodes(), old(b).nodes@),
        id < func.spec_nodes().len(),
        old(helpers)@.len() == func.spec_nodes().len(),
        slots_below(old(helpers)@, old(b).nodes@.len()),
        tan_ok(func, seed, old(tan)@, old(b).nodes@.len()),
        helpers_sym_ok(folder, func, old(b).nodes@, old(helpers)@),
    ensures
        helpers_sym_ok(folder, func, final(b).nodes@, final(helpers)@),
        // What the new tangent computes follows the chain rule.
        func.spec_nodes()[id as int] is Unary || func.spec_nodes()[id as int] is Binary ==> tan_rule(folder, 
            func,
            seed,
            slot_syms(final(tan)@, final(b).nodes@),
            id as int,
        ),
        final(b).ok(),
        extends(old(b).nodes@, final(b).nodes@),
        final(helpers)@.len() == old(helpers)@.len(),
        slots_below(final(helpers)@, final(b).nodes@.len()),
        tan_ok(func, seed, final(tan)@, final(b).nodes@.len()),
        // Only the tangent of node `id` is set, and only the helper of
        // node `id` may be filled in.
        final(tan)@ == old(tan)@.update(id as int, final(tan)@[id as int]),
        final(helpers)@ == old(helpers)@.update(id as int, final(helpers)@[id as int]),
        old(helpers)@[id as int] is Some ==> final(helpers)@[id as int] == old(helpers)@[id as int],
        // Only sines, cosines and quotients use a helper.
        match func.spec_nodes()[id as int] {
            Node::Unary(op, _) => op == UnaryOp::Neg ==> final(helpers)@ == old(helpers)@,
            Node::Binary(op, _, _) => op != BinaryOp::Div ==> final(helpers)@ == old(helpers)@,
            _ => true,
        },
        match func.spec_nodes()[id as int] {
            // A unary node has a tangent exactly when its operand has one;
            // that of a negation is the negated operand tangent.
            Node::Unary(op, a) => (final(tan)@[id as int] is Some <==> old(tan)@[a as int] is Some) && (
            old(tan)@[a as int] is None ==> final(b).nodes@ == old(b).nodes@ && final(helpers)@ == old(
                helpers,
            )@) && (op == UnaryOp::Neg && old(tan)@[a as int] is Some ==> unary_result(folder, 
                old(b).nodes@,
                final(b).nodes@,
                UnaryOp::Neg,
                old(tan)@[a as int]->0,
                final(tan)@[id as int]->0,
            )) && (op == UnaryOp::Sin && old(tan)@[a as int] is Some ==> exists|m1: Seq<Node>, c: NodeId|
                #[trigger] sin_tan(folder, 
                    old(b).nodes@,
                    m1,
                    final(b).nodes@,
                    old(helpers)@[id as int],
                    a,
                    old(tan)@[a as int]->0,
                    c,
                    final(tan)@[id as int]->0,
                ) && final(helpers)@[id as int] == Some(c)) && (op == UnaryOp::Cos && old(tan)@[a as int] is Some ==> exists|
                m1: Seq<Node>,
                m2: Seq<Node>,
                c: NodeId,
                m: NodeId,
            |
                #[trigger] cos_tan(folder, 
                    old(b).nodes@,
                    m1,
                    m2,
                    final(b).nodes@,
                    old(helpers)@[id as int],
                    a,
                    old(tan)@[a as int]->0,
                    c,
                    m,
                    final(tan)@[id as int]->0,
                ) && final(helpers)@[id as int] == Some(c)),
            // A binary node has a tangent exactly when an operand has one;
            // that of a sum or difference is the sum or difference of the
            // operand tangents.
            Node::Binary(op, l, r) => (final(tan)@[id as int] is Some <==> (old(tan)@[l as int] is Some
                || old(tan)@[r as int] is Some)) && (old(tan)@[l as int] is None && old(tan)@[r as int] is None
                ==> final(b).nodes@ == old(b).nodes@ && final(helpers)@ == old(helpers)@) && (op
                == BinaryOp::Add ==> sum_tan(folder, 
                old(b).nodes@,
                final(b).nodes@,
                old(tan)@[l as int],
                old(tan)@[r as int],
                final(tan)@[id as int],
            )) && (op == BinaryOp::Sub ==> diff_tan(folder, 
                old(b).nodes@,
                final(b).nodes@,
                old(tan)@[l as int],
                old(tan)@[r as int],
                final(tan)@[id as int],
            )) && (op == BinaryOp::Mul ==> exists|
                m1: Seq<Node>,
                m2: Seq<Node>,
                t1: Option<NodeId>,
                t2: Option<NodeId>,
            |
                #[trigger] prod_tan(folder, 
                    old(b).nodes@,
                    m1,
                    m2,
                    final(b).nodes@,
                    l,
                    r,
                    old(tan)@[l as int],
                    old(tan)@[r as int],
                    t1,
                    t2,
                    final(tan)@[id as int],
                )) && (op == BinaryOp::Div ==> exists|
                m1: Seq<Node>,
                m2: Seq<Node>,
                m3: Seq<Node>,
                m4: Seq<Node>,
                m: NodeId,
                num: Option<NodeId>,
                one: NodeId,
                recip: NodeId,
            |
                #[trigger] quot_tan(folder, 
                    old(b).nodes@,
                    m1,
                    m2,
                    m3,
                    m4,
                    final(b).nodes@,
                    old(helpers)@[id as int],
                    id,
                    r,
                    old(tan)@[l as int],
                    old(tan)@[r as int],
                    m,
                    num,
                    one,
                    recip,
                    final(tan)@[id as int],
                ) && (num is Some ==> final(helpers)@[id as int] == Some(recip))),
            // Parameters and constants are seeded or zero: nothing changes.
            _ => final(tan)@ == old(tan)@ && final(b).nodes@ == old(b).nodes@ && final(helpers)@ == old(
                helpers,
            )@,
        },
{
    let nodes = func.nodes();
    let ghost n0 = b.nodes@.len();
    let ghost s_in = b.nodes@;
    let ghost h_in = helpers@;
    let ghost t_in = tan@;
    proof {
        assert(node_ok(nodes@[id as int], id as int, 0x1_0000_0000nat));
        if h_in[id as int] is Some {
            assert(helper_rule(folder, func.spec_nodes(), id as int, node_sym(s_in, h_in[id as int]->0 as int)));
            assert(match h_in[id as int] {
                Some(x) => x < n0,
                None => true,
            });
        }
    }
    match nodes[id] {
        Node::Unary(op, a) => {
            let da = tan[a];
            proof {
                assert(operand_of(nodes@, id as int, a as int));
                assert(match tan@[a as int] {
                    Some(x) => x < n0,
                    None => true,
                });
                if da is Some {
                    lemma_seeded_through(func, seed, id as int, a as int);
                }
            }
            let ghost mut wc: Sym = zero_const();
            let ghost mut wm: Sym = zero_const();
            let t = match da {
                None => None,
                Some(d) => Some(
                    match op {
                        // d(-x) = -dx
                        UnaryOp::Neg => {
                            let t = b.unary(UnaryOp::Neg, d, folder);
                            proof {
                                lemma_unary_lift(folder, s_in, b.nodes@, UnaryOp::Neg, d, t);
                                lemma_syms_extend(s_in, b.nodes@);
                            }
                            t
                        },
                        // d(sin x) = cos(x) * dx
                        UnaryOp::Sin => {
                            let ghost s0 = b.nodes@;
                            let ghost h0 = helpers@;
                            let c = helper_unary(helpers, b, id, UnaryOp::Cos, a, folder);
                            let ghost s1 = b.nodes@;
                            let t = b.binary(BinaryOp::Mul, c, d, folder);
                            proof {
                                assert(sin_tan(folder, s0, s1, b.nodes@, h0[id as int], a, d, c, t));
                                lemma_sin_lift(folder, func.spec_nodes(), s0, s1, b.nodes@, h0[id as int], a, d, c, t);
                                wc = node_sym(b.nodes@, c as int);
                                lemma_syms_extend(s_in, b.nodes@);
                            }
                            t
                        },
                        // d(cos x) = -sin(x) * dx
                        UnaryOp::Cos => {
                            let ghost s0 = b.nodes@;
                            let ghost h0 = helpers@;
                            let sv = helper_unary(helpers, b, id, UnaryOp::Sin, a, folder);
                            let ghost s1 = b.nodes@;
                            let m = b.binary(BinaryOp::Mul, sv, d, folder);
                            let ghost s2 = b.nodes@;
                            let t = b.unary(UnaryOp::Neg, m, folder);
                            proof {
                                assert(cos_tan(folder, s0, s1, s2, b.nodes@, h0[id as int], a, d, sv, m, t));
                                lemma_cos_lift(folder, func.spec_nodes(), s0, s1, s2, b.nodes@, h0[id as int], a, d, sv, m, t);
                                wc = node_sym(b.nodes@, sv as int);
                                wm = node_sym(b.nodes@, m as int);
                                lemma_syms_extend(s_in, b.nodes@);
                            }
                            t
                        },
                    },
                ),
            };
            proof {
                lemma_slots_grow(tan@, n0, b.nodes@.len());
                lemma_set_slot(tan@, id as int, t, b.nodes@.len() as nat);
            }
            tan.set(id, t);
            proof {
                let tt = slot_syms(tan@, b.nodes@);
                assert(tt =~= slot_syms(t_in, b.nodes@).update(id as int, opt_sym(t, b.nodes@)));
                assert(tt[a as int] == opt_sym(t_in[a as int], b.nodes@));
                if da is Some {
                    let x = node_sym(func.spec_nodes(), a as int);
                    if op == UnaryOp::Sin {
                        assert(sin_rule(folder, x, tt[a as int]->0, wc, tt[id as int]->0));
                    } else if op == UnaryOp::Cos {
                        assert(cos_rule(folder, x, tt[a as int]->0, wc, wm, tt[id as int]->0));
                    }
                }
                assert(tan_rule(folder, func, seed, tt, id as int));
            }
        },
        Node::Binary(op, l, r) => {
            let dl = tan[l];
            let dr = tan[r];
            proof {
                assert(operand_of(nodes@, id as int, l as int));
                assert(operand_of(nodes@, id as int, r as int));
                assert(match tan@[l as int] {
                    Some(x) => x < n0,
                    None => true,
                });
                assert(match tan@[r as int] {
                    Some(x) => x < n0,
                    None => true,
                });
                if dl is Some {
                    lemma_seeded_through(func, seed, id as int, l as int);
                }
                if dr is Some {
                    lemma_seeded_through(func, seed, id as int, r as int);
                }
            }
            let ghost mut w1: Option<Sym> = None;
            let ghost mut w2: Option<Sym> = None;
            let ghost mut wms: Sym = zero_const();
            let ghost mut wrc: Sym = zero_const();
            let t = match op {
                BinaryOp::Add => match (dl, dr) {
                    (None, None) => None,
                    (Some(x), None) => Some(x),
                    (None, Some(x)) => Some(x),
                    (Some(x), Some(y)) => Some(b.binary(BinaryOp::Add, x, y, folder)),
                },
                BinaryOp::Sub => match (dl, dr) {
                    (None, None) => None,
                    (Some(x), None) => Some(x),
                    (None, Some(y)) => Some(b.unary(UnaryOp::Neg, y, folder)),
                    (Some(x), Some(y)) => Some(b.binary(BinaryOp::Sub, x, y, folder)),
                },
                // d(l * r) = dl * r + l * dr
                BinaryOp::Mul => {
                    let ghost s0 = b.nodes@;
                    let t1 = match dl {
                        Some(x) => Some(b.binary(BinaryOp::Mul, x, r, folder)),
                        None => None,
                    };
                    let ghost s1 = b.nodes@;
                    let t2 = match dr {
                        Some(y) => Some(b.binary(BinaryOp::Mul, l, y, folder)),
                        None => None,
                    };
                    let ghost s2 = b.nodes@;
                    let t = match (t1, t2) {
                        (None, None) => None,
                        (Some(x), None) => Some(x),
                        (None, Some(x)) => Some(x),
                        (Some(x), Some(y)) => Some(b.binary(BinaryOp::Add, x, y, folder)),
                    };
                    proof {
                        assert(prod_tan(folder, s0, s1, s2, b.nodes@, l, r, dl, dr, t1, t2, t));
                        lemma_prod_lift(folder, func.spec_nodes(), s0, s1, s2, b.nodes@, l, r, dl, dr, t1, t2, t);
                        w1 = opt_sym(t1, b.nodes@);
                        w2 = opt_sym(t2, b.nodes@);
                    }
                    t
                },
                // y = l / r: dy = (dl - y * dr) * (1 / r), where node `id` is y.
                BinaryOp::Div => {
                    let ghost s0 = b.nodes@;
                    let ghost h0 = helpers@;
                    let ghost mut s1 = s0;
                    let ghost mut mm: NodeId = 0;
                    let num = match (dl, dr) {
                        (None, None) => None,
                        (Some(x), None) => Some(x),
                        (None, Some(y)) => {
                            let m = b.binary(BinaryOp::Mul, id, y, folder);
                            proof {
                                s1 = b.nodes@;
                                mm = m;
                            }
                            Some(b.unary(UnaryOp::Neg, m, folder))
                        },
                        (Some(x), Some(y)) => {
                            let m = b.binary(BinaryOp::Mul, id, y, folder);
                            proof {
                                s1 = b.nodes@;
                                mm = m;
                            }
                            Some(b.binary(BinaryOp::Sub, x, m, folder))
                        },
                    };
                    let ghost s2 = b.nodes@;
                    let ghost mut s3 = s2;
                    let ghost mut s4 = s2;
                    let ghost mut one: NodeId = 0;
                    let ghost mut rc: NodeId = 0;
                    let t = match num {
                        None => None,
                        Some(nv) => {
                            let recip = helper_recip(helpers, b, id, r, folder);
                            proof {
                                s4 = b.nodes@;
                                rc = recip;
                                if h0[id as int] is None {
                                    let (o, md) = choose|o: NodeId, md: Seq<Node>|
                                        const_result(s2, md, Bits64(ONE_BITS), o) && #[trigger] binary_result(folder, 
                                            md,
                                            s4,
                                            BinaryOp::Div,
                                            o,
                                            r,
                                            recip,
                                        );
                                    one = o;
                                    s3 = md;
                                }
                            }
                            Some(b.binary(BinaryOp::Mul, nv, recip, folder))
                        },
                    };
                    proof {
                        assert(quot_tan(folder, s0, s1, s2, s3, s4, b.nodes@, h0[id as int], id, r, dl, dr, mm, num, one, rc, t));
                        lemma_quot_lift(folder, 
                            func.spec_nodes(),
                            s0,
                            s1,
                            s2,
                            s3,
                            s4,
                            b.nodes@,
                            h0[id as int],
                            id,
                            r,
                            dl,
                            dr,
                            mm,
                            num,
                            one,
                            rc,
                            t,
                        );
                        w1 = opt_sym(num, b.nodes@);
                        wms = node_sym(b.nodes@, mm as int);
                        wrc = node_sym(b.nodes@, rc as int);
                    }
                    t
                },
            };
            proof {
                if op == BinaryOp::Add {
                    lemma_sum_lift(folder, s_in, b.nodes@, dl, dr, t);
                } else if op == BinaryOp::Sub {
                    lemma_diff_lift(folder, s_in, b.nodes@, dl, dr, t);
                }
                lemma_slots_grow(tan@, n0, b.nodes@.len());
                lemma_set_slot(tan@, id as int, t, b.nodes@.len() as nat);
            }
            tan.set(id, t);
            proof {
                let tt = slot_syms(tan@, b.nodes@);
                assert(tt =~= slot_syms(t_in, b.nodes@).update(id as int, opt_sym(t, b.nodes@)));
                assert(tt[l as int] == opt_sym(t_in[l as int], b.nodes@));
                assert(tt[r as int] == opt_sym(t_in[r as int], b.nodes@));
                let fl = node_sym(func.spec_nodes(), l as int);
                let fr = node_sym(func.spec_nodes(), r as int);
                if op == BinaryOp::Mul {
                    assert(prod_rule(folder, fl, fr, tt[l as int], tt[r as int], w1, w2, tt[id as int]));
                } else if op == BinaryOp::Div {
                    assert(quot_rule(folder, node_sym(func.spec_nodes(), id as int), fr, tt[l as int], tt[r as int], wms, w1, wrc, tt[id as int]));
                }
                assert(tan_rule(folder, func, seed, tt, id as int));
            }
        },
        _ => {
            proof {
                lemma_slots_grow(tan@, n0, b.nodes@.len());
            }
        },
    }
    proof {
        assert(helpers@ =~= h_in.update(id as int, helpers@[id as int]));
        lemma_helpers_keep(folder, func, s_in, b.nodes@, h_in, helpers@, id as int);
    }
}

/// `adj1` is `adj0` with `adj0[x] + v` (or `adj0[x] - v` when `negate`)
/// stored at `x`, as the builder makes it from `old` into `new`.
spec fn adj_acc<C: ConstantFolder>(folder: &C, 
    adj0: Seq<Option<NodeId>>,
    adj1: Seq<Option<NodeId>>,
    old: Seq<Node>,
    new: Seq<Node>,
    x: NodeId,
    v: NodeId,
    negate: bool,
) -> bool {
    &&& adj1 == adj0.update(x as int, adj1[x as int])
    &&& if negate {
        acc_neg_result(folder, old, new, adj0[x as int], v, adj1[x as int])
    } else {
        acc_result(folder, old, new, adj0[x as int], v, adj1[x as int])
    }
}

/// `adj[a] += w * h`, or `adj[a] -= w * h` when `negate`, where `h` is the
/// helper `op(a)` (node `c`) and `t` the product.
spec fn adj_trig<C: ConstantFolder>(folder: &C, 
    old: Seq<Node>,
    m1: Seq<Node>,
    m2: Seq<Node>,
    new: Seq<Node>,
    adj0: Seq<Option<NodeId>>,
    adj1: Seq<Option<NodeId>>,
    cache: Option<NodeId>,
    op: UnaryOp,
    a: NodeId,
    w: NodeId,
    negate: bool,
    c: NodeId,
    t: NodeId,
) -> bool {
    &&& helper_step(folder, old, m1, cache, op, a, c)
    &&& binary_result(folder, m1, m2, BinaryOp::Mul, w, c, t)
    &&& adj_acc(folder, adj0, adj1, m2, new, a, t, negate)
}

/// `adj[l] += w`, then `adj[r] += w` (or `adj[r] -= w` when `negate`).
spec fn adj_sum<C: ConstantFolder>(folder: &C, 
    old: Seq<Node>,
    m1: Seq<Node>,
    new: Seq<Node>,
    adj0: Seq<Option<NodeId>>,
    adj1: Seq<Option<NodeId>>,
    adj2: Seq<Option<NodeId>>,
    l: NodeId,
    r: NodeId,
    w: NodeId,
    negate: bool,
) -> bool {
    &&& adj_acc(folder, adj0, adj1, old, m1, l, w, false)
    &&& adj_acc(folder, adj1, adj2, m1, new, r, w, negate)
}

/// `adj[l] += w * r`, then `adj[r] += w * l`.
spec fn adj_prod<C: ConstantFolder>(folder: &C, 
    old: Seq<Node>,
    m1: Seq<Node>,
    m2: Seq<Node>,
    m3: Seq<Node>,
    new: Seq<Node>,
    adj0: Seq<Option<NodeId>>,
    adj1: Seq<Option<NodeId>>,
    adj2: Seq<Option<NodeId>>,
    l: NodeId,
    r: NodeId,
    w: NodeId,
    t1: NodeId,
    t2: NodeId,
) -> bool {
    &&& binary_result(folder, old, m1, BinaryOp::Mul, w, r, t1)
    &&& adj_acc(folder, adj0, adj1, m1, m2, l, t1, false)
    &&& binary_result(folder, m2, m3, BinaryOp::Mul, w, l, t2)
    &&& adj_acc(folder, adj1, adj2, m3, new, r, t2, false)
}

/// For `y = l / r` (node `y`): `adj[l] += w * (1 / r)`, then
/// `adj[r] -= (w * (1 / r)) * y`; the helper `1 / r` is `recip`.
spec fn adj_quot<C: ConstantFolder>(folder: &C, 
    old: Seq<Node>,
    m1: Seq<Node>,
    m2: Seq<Node>,
    m3: Seq<Node>,
    m4: Seq<Node>,
    m5: Seq<Node>,
    new: Seq<Node>,
    adj0: Seq<Option<NodeId>>,
    adj1: Seq<Option<NodeId>>,
    adj2: Seq<Option<NodeId>>,
    cache: Option<NodeId>,
    y: NodeId,
    l: NodeId,
    r: NodeId,
    w: NodeId,
    one: NodeId,
    recip: NodeId,
    wr: NodeId,
    t: NodeId,
) -> bool {
    &&& recip_step(folder, old, m1, m2, cache, r, one, recip)
    &&& binary_result(folder, m2, m3, BinaryOp::Mul, w, recip, wr)
    &&& adj_acc(folder, adj0, adj1, m3, m4, l, wr, false)
    &&& binary_result(folder, m4, m5, BinaryOp::Mul, wr, y, t)
    &&& adj_acc(folder, adj1, adj2, m5, new, r, t, true)
}

/// `slot + v`, or `slot - v` when `negate`, over what the nodes compute,
/// an empty slot being zero.
pub open spec fn acc_rule<C: ConstantFolder>(folder: &C, slot: Option<Sym>, v: Sym, negate: bool, r: Option<Sym>) -> bool {
    match slot {
        None => if negate {
            r is Some && sym_unary(folder, UnaryOp::Neg, v, r->0)
        } else {
            r == Some(v)
        },
        Some(s) => r is Some && if negate {
            sym_binary(folder, BinaryOp::Sub, s, v, r->0)
        } else {
            sym_binary(folder, BinaryOp::Add, s, v, r->0)
        },
    }
}

/// `a1` is `a0` with `v` added into slot `x` (taken from it when
/// `negate`).
pub open spec fn acc_at<C: ConstantFolder>(folder: &C, a0: Seq<Option<Sym>>, a1: Seq<Option<Sym>>, x: int, v: Sym, negate: bool) -> bool {
    &&& a1 == a0.update(x, a1[x])
    &&& acc_rule(folder, a0[x], v, negate, a1[x])
}

/// `w * c` for the helper `c = op(x)`.
pub open spec fn adj_trig_rule<C: ConstantFolder>(folder: &C, op: UnaryOp, x: Sym, w: Sym, c: Sym, t: Sym) -> bool {
    sym_unary(folder, op, x, c) && sym_binary(folder, BinaryOp::Mul, w, c, t)
}

/// `adj[l] += w * r` into `mid`, then `adj[r] += w * l` into `a1`.
pub open spec fn adj_prod_rule<C: ConstantFolder>(folder: &C, 
    a0: Seq<Option<Sym>>,
    mid: Seq<Option<Sym>>,
    a1: Seq<Option<Sym>>,
    l: int,
    r: int,
    xl: Sym,
    xr: Sym,
    w: Sym,
    t1: Sym,
    t2: Sym,
) -> bool {
    &&& sym_binary(folder, BinaryOp::Mul, w, xr, t1)
    &&& acc_at(folder, a0, mid, l, t1, false)
    &&& sym_binary(folder, BinaryOp::Mul, w, xl, t2)
    &&& acc_at(folder, mid, a1, r, t2, false)
}

/// For `y = l / r`: `adj[l] += w * (1 / r)` into `mid`, then
/// `adj[r] -= (w * (1 / r)) * y` into `a1`.
pub open spec fn adj_quot_rule<C: ConstantFolder>(folder: &C, 
    a0: Seq<Option<Sym>>,
    mid: Seq<Option<Sym>>,
    a1: Seq<Option<Sym>>,
    l: int,
    r: int,
    y: Sym,
    xr: Sym,
    w: Sym,
    rc: Sym,
    wr: Sym,
    t: Sym,
) -> bool {
    &&& sym_binary(folder, BinaryOp::Div, Sym::Const(Bits64(ONE_BITS)), xr, rc)
    &&& sym_binary(folder, BinaryOp::Mul, w, rc, wr)
    &&& acc_at(folder, a0, mid, l, wr, false)
    &&& sym_binary(folder, BinaryOp::Mul, wr, y, t)
    &&& acc_at(folder, mid, a1, r, t, true)
}

/// The reverse sweep at node `v` of `func` turns the adjoints `a0` into
/// `a1`: a node with an adjoint passes it on to its operands by the chain
/// rule; a node without one, a parameter or a constant changes nothing.
pub open spec fn adj_rule<C: ConstantFolder>(folder: &C, func: &Function, a0: Seq<Option<Sym>>, a1: Seq<Option<Sym>>, v: int) -> bool {
    let nodes = func.spec_nodes();
    match a0[v] {
        None => a1 == a0,
        Some(w) => match nodes[v] {
            Node::Unary(UnaryOp::Neg, a) => acc_at(folder, a0, a1, a as int, w, true),
            Node::Unary(UnaryOp::Sin, a) => exists|c: Sym, t: Sym|
                #[trigger] adj_trig_rule(folder, UnaryOp::Cos, node_sym(nodes, a as int), w, c, t) && acc_at(folder, 
                    a0,
                    a1,
                    a as int,
                    t,
                    false,
                ),
            Node::Unary(UnaryOp::Cos, a) => exists|c: Sym, t: Sym|
                #[trigger] adj_trig_rule(folder, UnaryOp::Sin, node_sym(nodes, a as int), w, c, t) && acc_at(folder, 
                    a0,
                    a1,
                    a as int,
                    t,
                    true,
                ),
            Node::Binary(BinaryOp::Add, l, r) => exists|mid: Seq<Option<Sym>>|
                #[trigger] acc_at(folder, a0, mid, l as int, w, false) && acc_at(folder, mid, a1, r as int, w, false),
            Node::Binary(BinaryOp::Sub, l, r) => exists|mid: Seq<Option<Sym>>|
                #[trigger] acc_at(folder, a0, mid, l as int, w, false) && acc_at(folder, mid, a1, r as int, w, true),
            Node::Binary(BinaryOp::Mul, l, r) => exists|mid: Seq<Option<Sym>>, t1: Sym, t2: Sym|
                #[trigger] adj_prod_rule(folder, 
                    a0,
                    mid,
                    a1,
                    l as int,
                    r as int,
                    node_sym(nodes, l as int),
                    node_sym(nodes, r as int),
                    w,
                    t1,
                    t2,
                ),
            Node::Binary(BinaryOp::Div, l, r) => exists|mid: Seq<Option<Sym>>, rc: Sym, wr: Sym, t: Sym|
                #[trigger] adj_quot_rule(folder, 
                    a0,
                    mid,
                    a1,
                    l as int,
                    r as int,
                    node_sym(nodes, v),
                    node_sym(nodes, r as int),
                    w,
                    rc,
                    wr,
                    t,
                ),
            _ => a1 == a0,
        },
    }
}

/// Seeding output `o` with weight `wk` turns the adjoints `a0` into `a1`.
pub open spec fn seed_rule<C: ConstantFolder>(folder: &C, a0: Seq<Option<Sym>>, a1: Seq<Option<Sym>>, o: int, wk: Bits64) -> bool {
    if is_zero_bits(wk) {
        a1 == a0
    } else {
        acc_at(folder, a0, a1, o, Sym::Const(wk), false)
    }
}

/// `s` and `a` are the adjoints of the reverse sweep of `func` with
/// `weight`: `s[k]` after seeding the first `k` outputs, `a[i]` after the
/// sweep has passed nodes `i ..` on, from the last node down.
pub open spec fn adjoint_trace<C: ConstantFolder>(folder: &C, 
    func: &Function,
    weight: Seq<Bits64>,
    s: Seq<Seq<Option<Sym>>>,
    a: Seq<Seq<Option<Sym>>>,
) -> bool {
    let n = func.spec_nodes().len();
    let m = func.spec_outputs().len();
    &&& s.len() == m + 1
    &&& a.len() == n + 1
    &&& s[0] == Seq::new(n, |v: int| None::<Sym>)
    &&& forall|k: int|
        0 <= k < m ==> #[trigger] seed_rule(folder, s[k], s[k + 1], func.spec_outputs()[k] as int, weight[k])
    &&& a[n as int] == s[m as int]
    &&& forall|i: int| 0 <= i < n ==> #[trigger] adj_rule(folder, func, a[i + 1], a[i], i)
}

/// Outputs `base ..` of `g`, one per input of `func`, compute what `a`
/// gives the inputs of `func`, a structural zero being the constant zero.
pub open spec fn input_block(g: &Function, func: &Function, base: int, a: Seq<Option<Sym>>) -> bool {
    forall|j: int|
        0 <= j < func.spec_inputs().len() ==> g.output_sym(base + j) == or_zero(
            a[#[trigger] func.spec_inputs()[j] as int],
        )
}

/// Outputs `d * n ..` of `g`, `n` being the number of inputs of `func`,
/// compute the adjoints of the inputs of `func` for `weight`.
pub open spec fn adjoints_at<C: ConstantFolder>(folder: &C, g: &Function, func: &Function, weight: Seq<Bits64>, d: int) -> bool {
    exists|s: Seq<Seq<Option<Sym>>>, a: Seq<Seq<Option<Sym>>>|
        #[trigger] adjoint_trace(folder, func, weight, s, a) && input_block(g, func, d * func.spec_inputs().len(), a[0])
}

/// `adj[x] += v`, or `adj[x] -= v` when `negate`.
fn acc_into<C: ConstantFolder>(
    adj: &mut Vec<Option<NodeId>>,
    b: &mut Builder,
    x: NodeId,
    v: NodeId,
    negate: bool,
    func: &Function,
    Ghost(weight): Ghost<Seq<Bits64>>,
    Ghost(bound): Ghost<nat>,
    folder: &C,
)
    requires
        old(b).ok(),
        v < old(b).nodes@.len(),
        bound <= old(b).nodes@.len(),
        x < old(adj)@.len(),
        adj_ok(func, weight, old(adj)@, bound),
        weighted(func, weight, x as int),
    ensures
        final(b).ok(),
        extends(old(b).nodes@, final(b).nodes@),
        adj_ok(func, weight, final(adj)@, final(b).nodes@.len()),
        final(adj)@ == old(adj)@.update(x as int, final(adj)@[x as int]),
        if negate {
            acc_neg_result(folder, old(b).nodes@, final(b).nodes@, old(adj)@[x as int], v, final(adj)@[x as int])
        } else {
            acc_result(folder, old(b).nodes@, final(b).nodes@, old(adj)@[x as int], v, final(adj)@[x as int])
        },
        slots_below(old(adj)@, old(b).nodes@.len()) ==> acc_at(folder, 
            slot_syms(old(adj)@, old(b).nodes@),
            slot_syms(final(adj)@, final(b).nodes@),
            x as int,
            node_sym(old(b).nodes@, v as int),
            negate,
        ),
{
    proof {
        lemma_slots_grow(adj@, bound, b.nodes@.len());
        assert(match adj@[x as int] {
            Some(t) => t < b.nodes@.len(),
            None => true,
        });
    }
    let cur = adj[x];
    let nv = if negate {
        b.acc_neg(cur, v, folder)
    } else {
        b.acc(cur, v, folder)
    };
    proof {
        lemma_slots_grow(adj@, old(b).nodes@.len(), b.nodes@.len());
        lemma_set_slot(adj@, x as int, nv, b.nodes@.len() as nat);
        let s0 = old(b).nodes@;
        match cur {
            Some(c) => if negate {
                lemma_binary_lift(folder, s0, b.nodes@, BinaryOp::Sub, c, v, nv->0);
            } else {
                lemma_binary_lift(folder, s0, b.nodes@, BinaryOp::Add, c, v, nv->0);
            },
            None => if negate {
                lemma_unary_lift(folder, s0, b.nodes@, UnaryOp::Neg, v, nv->0);
            },
        }
        lemma_syms_extend(s0, b.nodes@);
    }
    adj.set(x, nv);
    proof {
        if slots_below(old(adj)@, old(b).nodes@.len()) {
            lemma_slot_syms_extend(old(adj)@, old(b).nodes@, b.nodes@);
            assert(slot_syms(adj@, b.nodes@) =~= slot_syms(old(adj)@, b.nodes@).update(
                x as int,
                opt_sym(nv, b.nodes@),
            ));
        }
    }
}

/// Passes the adjoint of node `id` on to its operands.
#[verifier::spinoff_prover]
#[verifier::rlimit(100)]
fn adjoint_step<C: ConstantFolder>(
    b: &mut Builder,
    helpers: &mut Vec<Option<NodeId>>,
    adj: &mut Vec<Option<NodeId>>,
    func: &Function,
    id: usize,
    Ghost(weight): Ghost<Seq<Bits64>>,
    folder: &C,
)
    requires
        func.wf(),
        old(b).ok(),
        extends(func.spec_nodes(), old(b).nodes@),
        id < func.spec_nodes().len(),
        old(helpers)@.len() == func.spec_nodes().len(),
        slots_below(old(helpers)@, old(b).nodes@.len()),
        adj_ok(func, weight, old(adj)@, old(b).nodes@.len()),
        helpers_sym_ok(folder, func, old(b).nodes@, old(helpers)@),
    ensures
        helpers_sym_ok(folder, func, final(b).nodes@, final(helpers)@),
        // What the new adjoints compute follows the chain rule.
        adj_rule(folder, func, slot_syms(old(adj)@, old(b).nodes@), slot_syms(final(adj)@, final(b).nodes@), id as int),
        final(b).ok(),
        extends(old(b).nodes@, final(b).nodes@),
        final(helpers)@.len() == old(helpers)@.len(),
        slots_below(final(helpers)@, final(b).nodes@.len()),
        adj_ok(func, weight, final(adj)@, final(b).nodes@.len()),
        // Only the helper of node `id` may be filled in.
        final(helpers)@ == old(helpers)@.update(id as int, final(helpers)@[id as int]),
        old(helpers)@[id as int] is Some ==> final(helpers)@[id as int] == old(helpers)@[id as int],
        // A node without an adjoint passes nothing on.
        old(adj)@[id as int] is None ==> final(adj)@ == old(adj)@ && final(b).nodes@ == old(b).nodes@
            && final(helpers)@ == old(helpers)@,
        old(adj)@[id as int] is Some ==> match func.spec_nodes()[id as int] {
            // adj[x] -= w
            Node::Unary(UnaryOp::Neg, a) => adj_acc(folder, 
                old(adj)@,
                final(adj)@,
                old(b).nodes@,
                final(b).nodes@,
                a,
                old(adj)@[id as int]->0,
                true,
            ) && final(helpers)@ == old(helpers)@,
            // adj[x] += w * cos(x)
            Node::Unary(UnaryOp::Sin, a) => exists|m1: Seq<Node>, m2: Seq<Node>, c: NodeId, t: NodeId|
                #[trigger] adj_trig(folder, 
                    old(b).nodes@,
                    m1,
                    m2,
                    final(b).nodes@,
                    old(adj)@,
                    final(adj)@,
                    old(helpers)@[id as int],
                    UnaryOp::Cos,
                    a,
                    old(adj)@[id as int]->0,
                    false,
                    c,
                    t,
                ) && final(helpers)@[id as int] == Some(c),
            // adj[x] -= w * sin(x)
            Node::Unary(UnaryOp::Cos, a) => exists|m1: Seq<Node>, m2: Seq<Node>, c: NodeId, t: NodeId|
                #[trigger] adj_trig(folder, 
                    old(b).nodes@,
                    m1,
                    m2,
                    final(b).nodes@,
                    old(adj)@,
                    final(adj)@,
                    old(helpers)@[id as int],
                    UnaryOp::Sin,
                    a,
                    old(adj)@[id as int]->0,
                    true,
                    c,
                    t,
                ) && final(helpers)@[id as int] == Some(c),
            // adj[l] += w; adj[r] += w, or adj[r] -= w for a difference
            Node::Binary(BinaryOp::Add, l, r) => exists|m1: Seq<Node>, a1: Seq<Option<NodeId>>|
                #[trigger] adj_sum(folder, 
                    old(b).nodes@,
                    m1,
                    final(b).nodes@,
                    old(adj)@,
                    a1,
                    final(adj)@,
                    l,
                    r,
                    old(adj)@[id as int]->0,
                    false,
                ) && final(helpers)@ == old(helpers)@,
            Node::Binary(BinaryOp::Sub, l, r) => exists|m1: Seq<Node>, a1: Seq<Option<NodeId>>|
                #[trigger] adj_sum(folder, 
                    old(b).nodes@,
                    m1,
                    final(b).nodes@,
                    old(adj)@,
                    a1,
                    final(adj)@,
                    l,
                    r,
                    old(adj)@[id as int]->0,
                    true,
                ) && final(helpers)@ == old(helpers)@,
            // adj[l] += w * r; adj[r] += w * l
            Node::Binary(BinaryOp::Mul, l, r) => exists|
                m1: Seq<Node>,
                m2: Seq<Node>,
                m3: Seq<Node>,
                a1: Seq<Option<NodeId>>,
                t1: NodeId,
                t2: NodeId,
            |
                #[trigger] adj_prod(folder, 
                    old(b).nodes@,
                    m1,
                    m2,
                    m3,
                    final(b).nodes@,
                    old(adj)@,
                    a1,
                    final(adj)@,
                    l,
                    r,
                    old(adj)@[id as int]->0,
                    t1,
                    t2,
                ) && final(helpers)@ == old(helpers)@,
            // y = l / r: adj[l] += w / r; adj[r] -= (w / r) * y, where node `id` is y.
            Node::Binary(BinaryOp::Div, l, r) => exists|
                m1: Seq<Node>,
                m2: Seq<Node>,
                m3: Seq<Node>,
                m4: Seq<Node>,
                m5: Seq<Node>,
                a1: Seq<Option<NodeId>>,
                one: NodeId,
                recip: NodeId,
                wr: NodeId,
                t: NodeId,
            |
                #[trigger] adj_quot(folder, 
                    old(b).nodes@,
                    m1,
                    m2,
                    m3,
                    m4,
                    m5,
                    final(b).nodes@,
                    old(adj)@,
                    a1,
                    final(adj)@,
                    old(helpers)@[id as int],
                    id,
                    l,
                    r,
                    old(adj)@[id as int]->0,
                    one,
                    recip,
                    wr,
                    t,
                ) && final(helpers)@[id as int] == Some(recip),
            // Parameters and constants have no operands: nothing changes.
            _ => final(adj)@ == old(adj)@ && final(b).nodes@ == old(b).nodes@ && final(helpers)@ == old(
                helpers,
            )@,
        },
{
    let nodes = func.nodes();
    let ghost n0 = b.nodes@.len();
    let ghost s0 = b.nodes@;
    let ghost h0 = helpers@;
    let ghost j0 = adj@;
    let ghost fnodes = func.spec_nodes();
    let ghost a0 = slot_syms(j0, s0);
    proof {
        assert(match adj@[id as int] {
            Some(t) => t < n0,
            None => true,
        });
        if h0[id as int] is Some {
            assert(helper_rule(folder, fnodes, id as int, node_sym(s0, h0[id as int]->0 as int)));
            assert(match h0[id as int] {
                Some(x) => x < n0,
                None => true,
            });
        }
    }
    let wbar = match adj[id] {
        Some(w) => w,
        None => {
            return ;
        },
    };
    let ghost w = node_sym(s0, wbar as int);
    proof {
        assert(node_ok(nodes@[id as int], id as int, 0x1_0000_0000nat));
        assert(weighted(func, weight, id as int));
        assert(a0[id as int] == Some(w));
        lemma_syms_extend(fnodes, s0);
    }
    match nodes[id] {
        Node::Unary(op, a) => {
            proof {
                assert(operand_of(nodes@, id as int, a as int));
                lemma_weighted_operand(func, weight, id as int, a as int);
            }
            match op {
                // adj[x] -= w
                UnaryOp::Neg => {
                    acc_into(adj, b, a, wbar, true, func, Ghost(weight), Ghost(n0), folder);
                    proof {
                        assert(acc_at(folder, a0, slot_syms(adj@, b.nodes@), a as int, w, true));
                    }
                },
                // adj[x] += w * cos(x)
                UnaryOp::Sin => {
                    let c = helper_unary(helpers, b, id, UnaryOp::Cos, a, folder);
                    let ghost s1 = b.nodes@;
                    let t = b.binary(BinaryOp::Mul, wbar, c, folder);
                    let ghost s2 = b.nodes@;
                    acc_into(adj, b, a, t, false, func, Ghost(weight), Ghost(n0), folder);
                    proof {
                        assert(adj_trig(folder, s0, s1, s2, b.nodes@, j0, adj@, h0[id as int], UnaryOp::Cos, a, wbar, false, c, t));
                        lemma_helper_lift(folder, fnodes, s0, s1, h0[id as int], UnaryOp::Cos, a, c);
                        lemma_binary_lift(folder, s1, s2, BinaryOp::Mul, wbar, c, t);
                        lemma_syms_extend(s0, s1);
                        lemma_syms_extend(s1, s2);
                        lemma_syms_extend(s2, b.nodes@);
                        lemma_slots_grow(j0, n0, s2.len());
                        lemma_slot_syms_extend(j0, s0, s2);
                        assert(adj_trig_rule(folder, UnaryOp::Cos, node_sym(fnodes, a as int), w, node_sym(s1, c as int), node_sym(s2, t as int)));
                        assert(acc_at(folder, a0, slot_syms(adj@, b.nodes@), a as int, node_sym(s2, t as int), false));
                        assert(helper_rule(folder, fnodes, id as int, node_sym(b.nodes@, c as int)));
                    }
                },
                // adj[x] -= w * sin(x)
                UnaryOp::Cos => {
                    let sv = helper_unary(helpers, b, id, UnaryOp::Sin, a, folder);
                    let ghost s1 = b.nodes@;
                    let t = b.binary(BinaryOp::Mul, wbar, sv, folder);
                    let ghost s2 = b.nodes@;
                    acc_into(adj, b, a, t, true, func, Ghost(weight), Ghost(n0), folder);
                    proof {
                        assert(adj_trig(folder, s0, s1, s2, b.nodes@, j0, adj@, h0[id as int], UnaryOp::Sin, a, wbar, true, sv, t));
                        lemma_helper_lift(folder, fnodes, s0, s1, h0[id as int], UnaryOp::Sin, a, sv);
                        lemma_binary_lift(folder, s1, s2, BinaryOp::Mul, wbar, sv, t);
                        lemma_syms_extend(s0, s1);
                        lemma_syms_extend(s1, s2);
                        lemma_syms_extend(s2, b.nodes@);
                        lemma_slots_grow(j0, n0, s2.len());
                        lemma_slot_syms_extend(j0, s0, s2);
                        assert(adj_trig_rule(folder, UnaryOp::Sin, node_sym(fnodes, a as int), w, node_sym(s1, sv as int), node_sym(s2, t as int)));
                        assert(acc_at(folder, a0, slot_syms(adj@, b.nodes@), a as int, node_sym(s2, t as int), true));
                        assert(helper_rule(folder, fnodes, id as int, node_sym(b.nodes@, sv as int)));
                    }
                },
            }
        },
        Node::Binary(op, l, r) => {
            proof {
                assert(operand_of(nodes@, id as int, l as int));
                assert(operand_of(nodes@, id as int, r as int));
                lemma_weighted_operand(func, weight, id as int, l as int);
                lemma_weighted_operand(func, weight, id as int, r as int);
            }
            match op {
                BinaryOp::Add => {
                    acc_into(adj, b, l, wbar, false, func, Ghost(weight), Ghost(n0), folder);
                    let ghost s1 = b.nodes@;
                    let ghost j1 = adj@;
                    acc_into(adj, b, r, wbar, false, func, Ghost(weight), Ghost(b.nodes@.len()), folder);
                    proof {
                        assert(adj_sum(folder, s0, s1, b.nodes@, j0, j1, adj@, l, r, wbar, false));
                        lemma_syms_extend(s0, s1);
                        let mid = slot_syms(j1, s1);
                        assert(acc_at(folder, a0, mid, l as int, w, false));
                        assert(acc_at(folder, mid, slot_syms(adj@, b.nodes@), r as int, w, false));
                    }
                },
                BinaryOp::Sub => {
                    acc_into(adj, b, l, wbar, false, func, Ghost(weight), Ghost(n0), folder);
                    let ghost s1 = b.nodes@;
                    let ghost j1 = adj@;
                    acc_into(adj, b, r, wbar, true, func, Ghost(weight), Ghost(b.nodes@.len()), folder);
                    proof {
                        assert(adj_sum(folder, s0, s1, b.nodes@, j0, j1, adj@, l, r, wbar, true));
                        lemma_syms_extend(s0, s1);
                        let mid = slot_syms(j1, s1);
                        assert(acc_at(folder, a0, mid, l as int, w, false));
                        assert(acc_at(folder, mid, slot_syms(adj@, b.nodes@), r as int, w, true));
                    }
                },
                // adj[l] += w * r; adj[r] += w * l
                BinaryOp::Mul => {
                    let t1 = b.binary(BinaryOp::Mul, wbar, r, folder);
                    let ghost s1 = b.nodes@;
                    acc_into(adj, b, l, t1, false, func, Ghost(weight), Ghost(n0), folder);
                    let ghost s2 = b.nodes@;
                    let ghost j1 = adj@;
                    let t2 = b.binary(BinaryOp::Mul, wbar, l, folder);
                    let ghost s3 = b.nodes@;
                    acc_into(adj, b, r, t2, false, func, Ghost(weight), Ghost(b.nodes@.len()), folder);
                    proof {
                        assert(adj_prod(folder, s0, s1, s2, s3, b.nodes@, j0, j1, adj@, l, r, wbar, t1, t2));
                        lemma_binary_lift(folder, s0, s1, BinaryOp::Mul, wbar, r, t1);
                        lemma_syms_extend(s0, s1);
                        lemma_slot_syms_extend(j0, s0, s1);
                        lemma_binary_lift(folder, s2, s3, BinaryOp::Mul, wbar, l, t2);
                        lemma_syms_extend(s1, s2);
                        lemma_syms_extend(s2, s3);
                        lemma_slot_syms_extend(j1, s2, s3);
                        let mid = slot_syms(j1, s2);
                        assert(adj_prod_rule(folder, 
                            a0,
                            mid,
                            slot_syms(adj@, b.nodes@),
                            l as int,
                            r as int,
                            node_sym(fnodes, l as int),
                            node_sym(fnodes, r as int),
                            w,
                            node_sym(s1, t1 as int),
                            node_sym(s3, t2 as int),
                        ));
                    }
                },
                // y = l / r: adj[l] += w / r; adj[r] -= (w / r) * y, where node `id` is y.
                BinaryOp::Div => {
                    let recip = helper_recip(helpers, b, id, r, folder);
                    let ghost s2 = b.nodes@;
                    let ghost mut s1 = s0;
                    let ghost mut one: NodeId = 0;
                    proof {
                        if h0[id as int] is None {
                            let (o, md) = choose|o: NodeId, md: Seq<Node>|
                                const_result(s0, md, Bits64(ONE_BITS), o) && #[trigger] binary_result(folder, 
                                    md,
                                    s2,
                                    BinaryOp::Div,
                                    o,
                                    r,
                                    recip,
                                );
                            one = o;
                            s1 = md;
                        }
                    }
                    proof {
                        if h0[id as int] is None {
                            lemma_const_lift(s0, s1, Bits64(ONE_BITS), one);
                            lemma_binary_lift(folder, s1, s2, BinaryOp::Div, one, r, recip);
                            lemma_syms_extend(s0, s1);
                            lemma_syms_extend(s1, s2);
                        }
                        lemma_syms_extend(s0, s2);
                        assert(sym_binary(folder, 
                            BinaryOp::Div,
                            Sym::Const(Bits64(ONE_BITS)),
                            node_sym(fnodes, r as int),
                            node_sym(s2, recip as int),
                        ));
                    }
                    let w_over_r = b.binary(BinaryOp::Mul, wbar, recip, folder);
                    let ghost s3 = b.nodes@;
                    acc_into(adj, b, l, w_over_r, false, func, Ghost(weight), Ghost(n0), folder);
                    let ghost s4 = b.nodes@;
                    let ghost j1 = adj@;
                    let t = b.binary(BinaryOp::Mul, w_over_r, id, folder);
                    let ghost s5 = b.nodes@;
                    acc_into(adj, b, r, t, true, func, Ghost(weight), Ghost(b.nodes@.len()), folder);
                    proof {
                        assert(adj_quot(folder, 
                            s0,
                            s1,
                            s2,
                            s3,
                            s4,
                            s5,
                            b.nodes@,
                            j0,
                            j1,
                            adj@,
                            h0[id as int],
                            id,
                            l,
                            r,
                            wbar,
                            one,
                            recip,
                            w_over_r,
                            t,
                        ));
                        lemma_binary_lift(folder, s2, s3, BinaryOp::Mul, wbar, recip, w_over_r);
                        lemma_syms_extend(s2, s3);
                        lemma_slots_grow(j0, n0, s3.len());
                        lemma_slot_syms_extend(j0, s0, s3);
                        lemma_binary_lift(folder, s4, s5, BinaryOp::Mul, w_over_r, id, t);
                        lemma_syms_extend(s3, s4);
                        lemma_syms_extend(s4, s5);
                        lemma_syms_extend(s5, b.nodes@);
                        lemma_slot_syms_extend(j1, s4, s5);
                        lemma_syms_extend(s0, s4);
                        let mid = slot_syms(j1, s4);
                        assert(adj_quot_rule(folder, 
                            a0,
                            mid,
                            slot_syms(adj@, b.nodes@),
                            l as int,
                            r as int,
                            node_sym(fnodes, id as int),
                            node_sym(fnodes, r as int),
                            w,
                            node_sym(s2, recip as int),
                            node_sym(s3, w_over_r as int),
                            node_sym(s5, t as int),
                        ));
                        lemma_syms_extend(s2, b.nodes@);
                        assert(helper_rule(folder, fnodes, id as int, node_sym(b.nodes@, recip as int)));
                    }
                },
            }
        },
        _ => {},
    }
    proof {
        assert(helpers@ =~= h0.update(id as int, helpers@[id as int]));
        lemma_helpers_keep(folder, func, s0, b.nodes@, h0, helpers@, id as int);
    }
}


fn copy_ids(ids: &[NodeId]) -> (r: Vec<NodeId>)
    ensures
        r@ == ids@,
{
    let mut r: Vec<NodeId> = Vec::new();
    let mut i: usize = 0;
    while i < ids.len()
        invariant
            i <= ids@.len(),
            r@ == ids@.subrange(0, i as int),
        decreases ids@.len() - i,
    {
        r.push(ids[i]);
        i += 1;
    }
    proof {
        assert(ids@.subrange(0, ids@.len() as int) == ids@);
    }
    r
}

fn empty_slots(n: usize) -> (r: Vec<Option<NodeId>>)
    ensures
        r@.len() == n,
        forall|i: int| 0 <= i < n ==> #[trigger] r@[i] is None,
{
    let mut r: Vec<Option<NodeId>> = Vec::new();
    let mut i: usize = 0;
    while i < n
        invariant
            i <= n,
            r@.len() == i,
            forall|j: int| 0 <= j < i ==> #[trigger] r@[j] is None,
        decreases n - i,
    {
        r.push(None);
        i += 1;
    }
    r
}

/// An output that was the constant zero before pruning computes zero
/// after it.
proof fn lemma_pruned_output_zero(raw: &Function, g: &Function, m: int)
    requires
        raw.wf(),
        0 <= m < raw.spec_outputs().len(),
        raw.spec_nodes()[raw.spec_outputs()[m] as int] == Node::Constant(Bits64(0)),
        g.output_sym(m) == raw.output_sym(m),
    ensures
        g.output_sym(m) == zero_const(),
{
}

/// Entries `base .. base + picks.len()` of `outputs` name nodes that
/// compute what `t` gives the nodes listed in `picks`, a structural zero
/// being the constant zero.
spec fn block_syms(nodes: Seq<Node>, outputs: Seq<NodeId>, base: int, picks: Seq<NodeId>, t: Seq<Option<Sym>>) -> bool {
    forall|k: int|
        0 <= k < picks.len() ==> node_sym(nodes, outputs[base + k] as int) == or_zero(t[#[trigger] picks[k] as int])
}

/// Outputs `base ..` of `g`, one per output of `func`, compute what `t`
/// gives the outputs of `func`, a structural zero being the constant zero.
pub open spec fn output_block(g: &Function, func: &Function, base: int, t: Seq<Option<Sym>>) -> bool {
    forall|k: int|
        0 <= k < func.spec_outputs().len() ==> g.output_sym(base + k) == or_zero(
            t[#[trigger] func.spec_outputs()[k] as int],
        )
}

proof fn lemma_block_keep(
    n1: Seq<Node>,
    n2: Seq<Node>,
    o1: Seq<NodeId>,
    o2: Seq<NodeId>,
    base: int,
    picks: Seq<NodeId>,
    t: Seq<Option<Sym>>,
)
    requires
        block_syms(n1, o1, base, picks, t),
        extends(n1, n2),
        0 <= base,
        base + picks.len() <= o1.len(),
        o1.len() <= o2.len(),
        o2.subrange(0, o1.len() as int) == o1,
        ids_below(o1, n1.len()),
    ensures
        block_syms(n2, o2, base, picks, t),
{
    lemma_syms_extend(n1, n2);
    assert forall|k: int| 0 <= k < picks.len() implies node_sym(n2, o2[base + k] as int) == or_zero(
        t[#[trigger] picks[k] as int],
    ) by {
        assert(o2.subrange(0, o1.len() as int)[base + k] == o1[base + k]);
        assert(o1[base + k] < n1.len());
    }
}

proof fn lemma_helpers_extend<C: ConstantFolder>(folder: &C, func: &Function, s1: Seq<Node>, s2: Seq<Node>, h: Seq<Option<NodeId>>)
    requires
        helpers_sym_ok(folder, func, s1, h),
        slots_below(h, s1.len()),
        extends(s1, s2),
    ensures
        helpers_sym_ok(folder, func, s2, h),
{
    lemma_syms_extend(s1, s2);
    assert forall|v: int| 0 <= v < h.len() && (#[trigger] h[v]) is Some implies helper_rule(folder, 
        func.spec_nodes(),
        v,
        node_sym(s2, h[v]->0 as int),
    ) by {
        assert(match h[v] {
            Some(t) => t < s1.len(),
            None => true,
        });
    }
}

/// A node's tangent rule reads only its own slot and those of its
/// operands.
proof fn lemma_tan_rule_frame<C: ConstantFolder>(folder: &C, 
    func: &Function,
    seed: Seq<Bits64>,
    t1: Seq<Option<Sym>>,
    t2: Seq<Option<Sym>>,
    v: int,
)
    requires
        func.wf(),
        0 <= v < func.spec_nodes().len(),
        t1.len() == func.spec_nodes().len(),
        t2.len() == t1.len(),
        forall|w: int| 0 <= w <= v ==> #[trigger] t2[w] == t1[w],
        tan_rule(folder, func, seed, t1, v),
    ensures
        tan_rule(folder, func, seed, t2, v),
{
    assert(node_ok(func.spec_nodes()[v], v, 0x1_0000_0000nat));
    match func.spec_nodes()[v] {
        Node::Unary(op, a) => {
            assert(t2[a as int] == t1[a as int]);
            assert(t2[v] == t1[v]);
        },
        Node::Binary(op, l, r) => {
            assert(t2[l as int] == t1[l as int]);
            assert(t2[r as int] == t1[r as int]);
            assert(t2[v] == t1[v]);
        },
        _ => {
            assert(t2[v] == t1[v]);
        },
    }
}

/// Outputs `d * n ..` of `g`, `n` being the number of outputs of `func`,
/// compute the tangents of the outputs of `func` along `seed`.
pub open spec fn tangents_at<C: ConstantFolder>(folder: &C, g: &Function, func: &Function, seed: Seq<Bits64>, d: int) -> bool {
    exists|t: Seq<Option<Sym>>|
        #[trigger] tangent_trace(folder, func, seed, t) && output_block(g, func, d * func.spec_outputs().len(), t)
}

/// Forward-mode transform: for each seed direction (one entry per input),
/// the returned function computes the tangents of every output along it.
/// Outputs are laid out direction-major: output `d * n + k` is the tangent
/// of output `k` along `seeds[d]`, where `n` is the number of outputs.
/// The primal computation is shared by all directions; a tangent that no
/// seeded input can reach is the constant zero.
#[verifier::loop_isolation(false)]
#[verifier::rlimit(60)]
pub fn forward<C: ConstantFolder>(func: &Function, seeds: &[Vec<Bits64>], folder: &C) -> (g: Function)
    requires
        func.wf(),
        forall|d: int| 0 <= d < seeds@.len() ==> (#[trigger] seeds@[d])@.len() == func.spec_inputs().len(),
    ensures
        g.wf(),
        g.spec_inputs().len() == func.spec_inputs().len(),
        forall|j: int| 0 <= j < func.spec_inputs().len() ==> #[trigger] g.input_sym(j) == func.input_sym(j),
        g.spec_outputs().len() == seeds@.len() * func.spec_outputs().len(),
        // Output `d * n + k` computes the tangent of output `k` along
        // `seeds[d]`, as the chain rule gives it node by node.
        forall|d: int| 0 <= d < seeds@.len() ==> #[trigger] tangents_at(folder, &g, func, seeds@[d]@, d),
        forall|d: int, k: int|
            0 <= d < seeds@.len() && 0 <= k < func.spec_outputs().len() && !#[trigger] seeded(
                func,
                seeds@[d]@,
                func.spec_outputs()[k] as int,
            ) ==> g.output_sym(d * func.spec_outputs().len() + k) == zero_const(),
        forall|w: int| 0 <= w < g.spec_nodes().len() ==> reached_from_ids(g.spec_nodes(), roots(&g), w),
{
    let nodes = func.nodes();
    let ins = func.inputs();
    let outs = func.outputs();
    let n_in = ins.len();
    let n_primal = nodes.len();
    let n_out = outs.len();
    let mut b = Builder::from_primal(func);
    let mut helpers = empty_slots(n_primal);
    let mut outputs: Vec<NodeId> = Vec::new();
    let ghost mut traces: Seq<Seq<Option<Sym>>> = Seq::empty();
    proof {
        assert(slots_below(helpers@, b.nodes@.len()));
        assert(helpers_sym_ok(folder, func, b.nodes@, helpers@));
    }
    let mut d: usize = 0;
    while d < seeds.len()
        invariant
            d <= seeds@.len(),
            b.ok(),
            extends(func.spec_nodes(), b.nodes@),
            helpers@.len() == n_primal,
            slots_below(helpers@, b.nodes@.len()),
            helpers_sym_ok(folder, func, b.nodes@, helpers@),
            outputs@.len() == d * n_out,
            ids_below(outputs@, b.nodes@.len()),
            forall|d2: int, k2: int|
                0 <= d2 < d && 0 <= k2 < n_out && !#[trigger] seeded(func, seeds@[d2]@, outs@[k2] as int)
                    ==> b.nodes@[outputs@[d2 * n_out + k2] as int] == Node::Constant(Bits64(0)),
            traces.len() == d,
            forall|d2: int|
                0 <= d2 < d ==> tangent_trace(folder, func, seeds@[d2]@, #[trigger] traces[d2]) && block_syms(
                    b.nodes@,
                    outputs@,
                    d2 * n_out,
                    outs@,
                    traces[d2],
                ),
        decreases seeds@.len() - d,
    {
        let seed = &seeds[d];
        let ghost b_start = b.nodes@;
        let ghost out_start = outputs@;
        let mut tan = empty_slots(n_primal);
        proof {
            assert(tan_ok(func, seed@, tan@, b.nodes@.len()));
            assert forall|v: int| 0 <= v < n_primal implies #[trigger] slot_syms(tan@, b.nodes@)[v] == seed_upto(
                ins@,
                seed@,
                v,
                0,
            ) by {}
        }
        let mut j: usize = 0;
        while j < n_in
            invariant
                j <= n_in,
                b.ok(),
                extends(b_start, b.nodes@),
                helpers@.len() == n_primal,
                slots_below(helpers@, b.nodes@.len()),
                helpers_sym_ok(folder, func, b.nodes@, helpers@),
                outputs@ == out_start,
                tan_ok(func, seed@, tan@, b.nodes@.len()),
                forall|v: int|
                    0 <= v < n_primal ==> #[trigger] slot_syms(tan@, b.nodes@)[v] == seed_upto(ins@, seed@, v, j as int),
            decreases n_in - j,
        {
            let ghost s0 = b.nodes@;
            let ghost tan0 = tan@;
            if !is_zero(Some(seed[j])) {
                let ghost n0 = b.nodes@.len();
                let c = b.constant(seed[j]);
                let p = ins[j];
                proof {
                    assert(ins@[j as int] < n_primal);
                    assert(reaches(nodes@, p as int, p as int));
                    assert(seeded(func, seed@, p as int));
                    lemma_slots_grow(tan@, n0, b.nodes@.len());
                    lemma_slots_grow(helpers@, n0, b.nodes@.len());
                    lemma_set_slot(tan@, p as int, Some(c), b.nodes@.len() as nat);
                    lemma_const_lift(s0, b.nodes@, seed[j as int], c);
                    lemma_helpers_extend(folder, func, s0, b.nodes@, helpers@);
                }
                tan.set(p, Some(c));
            }
            proof {
                lemma_slot_syms_extend(tan0, s0, b.nodes@);
                assert forall|v: int| 0 <= v < n_primal implies #[trigger] slot_syms(tan@, b.nodes@)[v]
                    == seed_upto(ins@, seed@, v, j + 1) by {
                    assert(slot_syms(tan0, b.nodes@)[v] == slot_syms(tan0, s0)[v]);
                }
            }
            j += 1;
        }
        let ghost t_seed = tan@;
        let mut id: usize = 0;
        while id < n_primal
            invariant
                id <= n_primal,
                b.ok(),
                extends(b_start, b.nodes@),
                helpers@.len() == n_primal,
                slots_below(helpers@, b.nodes@.len()),
                helpers_sym_ok(folder, func, b.nodes@, helpers@),
                outputs@ == out_start,
                tan_ok(func, seed@, tan@, b.nodes@.len()),
                forall|v: int| 0 <= v < id ==> #[trigger] tan_rule(folder, func, seed@, slot_syms(tan@, b.nodes@), v),
                forall|v: int|
                    id <= v < n_primal ==> #[trigger] slot_syms(tan@, b.nodes@)[v] == seed_upto(
                        ins@,
                        seed@,
                        v,
                        n_in as int,
                    ),
            decreases n_primal - id,
        {
            let ghost s0 = b.nodes@;
            let ghost tan0 = tan@;
            tangent_step(&mut b, &mut helpers, &mut tan, func, id, Ghost(seed@), folder);
            proof {
                lemma_slot_syms_extend(tan0, s0, b.nodes@);
                let t1 = slot_syms(tan0, s0);
                let t2 = slot_syms(tan@, b.nodes@);
                assert forall|w: int| 0 <= w < n_primal && w != id implies #[trigger] t2[w] == t1[w] by {
                    assert(tan@[w] == tan0[w]);
                    assert(slot_syms(tan0, b.nodes@)[w] == t1[w]);
                }
                assert forall|v: int| 0 <= v < id + 1 implies #[trigger] tan_rule(folder, func, seed@, t2, v) by {
                    if v < id {
                        assert forall|w: int| 0 <= w <= v implies #[trigger] t2[w] == t1[w] by {}
                        lemma_tan_rule_frame(folder, func, seed@, t1, t2, v);
                    } else {
                        if !(func.spec_nodes()[v] is Unary || func.spec_nodes()[v] is Binary) {
                            assert(tan@ == tan0);
                            assert(t2[v] == t1[v]);
                        }
                    }
                }
            }
            id += 1;
        }
        let ghost tr = slot_syms(tan@, b.nodes@);
        let ghost s_tr = b.nodes@;
        proof {
            assert(tangent_trace(folder, func, seed@, tr));
        }
        let mut k: usize = 0;
        while k < n_out
            invariant
                k <= n_out,
                b.ok(),
                extends(b_start, b.nodes@),
                extends(s_tr, b.nodes@),
                helpers@.len() == n_primal,
                slots_below(helpers@, b.nodes@.len()),
                helpers_sym_ok(folder, func, b.nodes@, helpers@),
                tan_ok(func, seed@, tan@, b.nodes@.len()),
                tr == slot_syms(tan@, s_tr),
                slots_below(tan@, s_tr.len()),
                outputs@.len() == d * n_out + k,
                outputs@.subrange(0, out_start.len() as int) == out_start,
                ids_below(outputs@, b.nodes@.len()),
                forall|k2: int|
                    0 <= k2 < k && !#[trigger] seeded(func, seed@, outs@[k2] as int) ==> b.nodes@[outputs@[d
                        * n_out + k2] as int] == Node::Constant(Bits64(0)),
                block_syms(b.nodes@, outputs@, d * n_out, outs@.subrange(0, k as int), tr),
            decreases n_out - k,
        {
            let o = outs[k];
            let ghost n0 = b.nodes@.len();
            let ghost s0 = b.nodes@;
            let ghost o0 = outputs@;
            proof {
                assert(outs@[k as int] < n_primal);
                assert(match tan@[o as int] {
                    Some(t) => t < n0,
                    None => true,
                });
            }
            let out = match tan[o] {
                Some(t) => t,
                None => b.constant(Bits64(0)),
            };
            outputs.push(out);
            proof {
                lemma_slots_grow(tan@, n0, b.nodes@.len());
                lemma_slots_grow(helpers@, n0, b.nodes@.len());
                lemma_helpers_extend(folder, func, s0, b.nodes@, helpers@);
                assert(outputs@.subrange(0, out_start.len() as int) == o0.subrange(0, out_start.len() as int));
                assert forall|i: int| 0 <= i < outputs@.len() implies #[trigger] outputs@[i] < b.nodes@.len() by {
                    if i < o0.len() {
                        assert(outputs@[i] == o0[i]);
                    }
                }
                assert forall|k2: int|
                    0 <= k2 < k + 1 && !#[trigger] seeded(func, seed@, outs@[k2] as int) implies b.nodes@[outputs@[d
                    * n_out + k2] as int] == Node::Constant(Bits64(0)) by {
                    if k2 < k {
                        assert(outputs@[d * n_out + k2] == o0[d * n_out + k2]);
                        assert(o0[d * n_out + k2] < n0);
                    } else {
                        assert(tan@[o as int] is None);
                    }
                }
                // What the new output computes.
                lemma_syms_extend(s_tr, b.nodes@);
                lemma_syms_extend(s0, b.nodes@);
                if tan@[o as int] is None {
                    lemma_const_lift(s0, b.nodes@, Bits64(0), out);
                } else {
                    assert(tr[o as int] == opt_sym(tan@[o as int], s_tr));
                }
                assert(node_sym(b.nodes@, outputs@[d * n_out + k] as int) == or_zero(tr[o as int]));
                assert(outputs@.subrange(0, o0.len() as int) =~= o0);
                lemma_block_keep(s0, b.nodes@, o0, outputs@, d * n_out, outs@.subrange(0, k as int), tr);
                assert forall|k2: int| 0 <= k2 < k + 1 implies node_sym(b.nodes@, outputs@[d * n_out + k2] as int)
                    == or_zero(tr[#[trigger] outs@.subrange(0, k + 1)[k2] as int]) by {
                    if k2 < k {
                        assert(outs@.subrange(0, k + 1)[k2] == outs@.subrange(0, k as int)[k2]);
                    }
                }
            }
            k += 1;
        }
        proof {
            assert(outs@.subrange(0, n_out as int) == outs@);
            assert forall|d2: int, k2: int|
                0 <= d2 < d + 1 && 0 <= k2 < n_out && !#[trigger] seeded(func, seeds@[d2]@, outs@[k2] as int)
                    implies b.nodes@[outputs@[d2 * n_out + k2] as int] == Node::Constant(Bits64(0)) by {
                lemma_block(d as int, d2, k2, n_out as int);
                if d2 < d {
                    let i = d2 * n_out + k2;
                    assert(outputs@.subrange(0, out_start.len() as int)[i] == out_start[i]);
                    assert(outputs@[i] == out_start[i]);
                }
            }
            assert((d as int + 1) * n_out == d as int * n_out + n_out) by (nonlinear_arith);
            let traces2 = traces.push(tr);
            assert forall|d2: int| 0 <= d2 < d + 1 implies tangent_trace(folder, func, seeds@[d2]@, #[trigger] traces2[d2])
                && block_syms(b.nodes@, outputs@, d2 * n_out, outs@, traces2[d2]) by {
                if d2 < d {
                    assert(traces2[d2] == traces[d2]);
                    if n_out > 0 {
                        lemma_block(d as int, d2, 0, n_out as int);
                    }
                    assert(0 <= d2 * n_out) by (nonlinear_arith)
                        requires
                            0 <= d2,
                    ;
                    assert(d2 * n_out + n_out <= d * n_out) by (nonlinear_arith)
                        requires
                            0 <= d2 < d,
                    ;
                    lemma_block_keep(b_start, b.nodes@, out_start, outputs@, d2 * n_out, outs@, traces[d2]);
                }
            }
            traces = traces2;
        }
        d += 1;
    }
    let raw = Function::from_parts(b.nodes, copy_ids(ins), outputs);
    let g = prune(&raw);
    proof {
        assert forall|j: int| 0 <= j < func.spec_inputs().len() implies #[trigger] g.input_sym(j)
            == func.input_sym(j) by {
            lemma_node_sym_extends(func.spec_nodes(), raw.spec_nodes(), ins@[j] as int);
        }
        assert forall|d2: int, k2: int|
            0 <= d2 < seeds@.len() && 0 <= k2 < n_out && !#[trigger] seeded(
                func,
                seeds@[d2]@,
                func.spec_outputs()[k2] as int,
            ) implies g.output_sym(d2 * n_out + k2) == zero_const() by {
            lemma_block(seeds@.len() as int, d2, k2, n_out as int);
            lemma_pruned_output_zero(&raw, &g, d2 * n_out + k2);
        }
        assert forall|d2: int| 0 <= d2 < seeds@.len() implies #[trigger] tangents_at(folder, &g, func, seeds@[d2]@, d2) by {
            let t = traces[d2];
            assert(tangent_trace(folder, func, seeds@[d2]@, t));
            assert forall|k2: int| 0 <= k2 < n_out implies g.output_sym(d2 * n_out + k2) == or_zero(
                t[#[trigger] func.spec_outputs()[k2] as int],
            ) by {
                lemma_block(seeds@.len() as int, d2, k2, n_out as int);
                assert(outs@[k2] == func.spec_outputs()[k2]);
            }
        }
    }
    g
}

/// Reverse-mode transform: for each weight vector (one entry per output),
/// the returned function computes the adjoint of every input. Outputs are
/// laid out weight-major: output `d * n + j` is the derivative of the
/// weighted sum of the outputs by `weights[d]` with respect to input `j`,
/// where `n` is the number of inputs. An input that no weighted output
/// depends on gets the constant zero.
#[verifier::loop_isolation(false)]
#[verifier::rlimit(60)]
pub fn reverse<C: ConstantFolder>(func: &Function, weights: &[Vec<Bits64>], folder: &C) -> (g: Function)
    requires
        func.wf(),
        forall|d: int| 0 <= d < weights@.len() ==> (#[trigger] weights@[d])@.len() == func.spec_outputs().len(),
    ensures
        g.wf(),
        g.spec_inputs().len() == func.spec_inputs().len(),
        forall|j: int| 0 <= j < func.spec_inputs().len() ==> #[trigger] g.input_sym(j) == func.input_sym(j),
        g.spec_outputs().len() == weights@.len() * func.spec_inputs().len(),
        // Output `d * n + j` computes the adjoint of input `j` for
        // `weights[d]`, as the chain rule gives it node by node.
        forall|d: int| 0 <= d < weights@.len() ==> #[trigger] adjoints_at(folder, &g, func, weights@[d]@, d),
        forall|d: int, j: int|
            0 <= d < weights@.len() && 0 <= j < func.spec_inputs().len() && !#[trigger] weighted(
                func,
                weights@[d]@,
                func.spec_inputs()[j] as int,
            ) ==> g.output_sym(d * func.spec_inputs().len() + j) == zero_const(),
        forall|w: int| 0 <= w < g.spec_nodes().len() ==> reached_from_ids(g.spec_nodes(), roots(&g), w),
{
    let nodes = func.nodes();
    let ins = func.inputs();
    let outs = func.outputs();
    let n_in = ins.len();
    let n_primal = nodes.len();
    let n_out = outs.len();
    let mut b = Builder::from_primal(func);
    let mut helpers = empty_slots(n_primal);
    let mut outputs: Vec<NodeId> = Vec::new();
    let ghost mut seeds_tr: Seq<Seq<Seq<Option<Sym>>>> = Seq::empty();
    let ghost mut sweeps_tr: Seq<Seq<Seq<Option<Sym>>>> = Seq::empty();
    proof {
        assert(slots_below(helpers@, b.nodes@.len()));
        assert(helpers_sym_ok(folder, func, b.nodes@, helpers@));
    }
    let mut d: usize = 0;
    while d < weights.len()
        invariant
            d <= weights@.len(),
            b.ok(),
            extends(func.spec_nodes(), b.nodes@),
            helpers@.len() == n_primal,
            slots_below(helpers@, b.nodes@.len()),
            helpers_sym_ok(folder, func, b.nodes@, helpers@),
            outputs@.len() == d * n_in,
            ids_below(outputs@, b.nodes@.len()),
            forall|d2: int, j2: int|
                0 <= d2 < d && 0 <= j2 < n_in && !#[trigger] weighted(func, weights@[d2]@, ins@[j2] as int)
                    ==> b.nodes@[outputs@[d2 * n_in + j2] as int] == Node::Constant(Bits64(0)),
            seeds_tr.len() == d,
            sweeps_tr.len() == d,
            forall|d2: int|
                0 <= d2 < d ==> adjoint_trace(folder, func, weights@[d2]@, #[trigger] seeds_tr[d2], sweeps_tr[d2])
                    && block_syms(b.nodes@, outputs@, d2 * n_in, ins@, sweeps_tr[d2][0]),
        decreases weights@.len() - d,
    {
        let weight = &weights[d];
        let ghost b_start = b.nodes@;
        let ghost out_start = outputs@;
        let mut adj = empty_slots(n_primal);
        let ghost mut st: Seq<Seq<Option<Sym>>> = seq![slot_syms(adj@, b.nodes@)];
        proof {
            assert(adj_ok(func, weight@, adj@, b.nodes@.len()));
            assert(slot_syms(adj@, b.nodes@) =~= Seq::new(n_primal as nat, |v: int| None::<Sym>));
        }
        // Seed the outputs; a node listed as several outputs sums their
        // weights.
        let mut k: usize = 0;
        while k < n_out
            invariant
                k <= n_out,
                b.ok(),
                extends(b_start, b.nodes@),
                helpers@.len() == n_primal,
                slots_below(helpers@, b.nodes@.len()),
                helpers_sym_ok(folder, func, b.nodes@, helpers@),
                outputs@ == out_start,
                adj_ok(func, weight@, adj@, b.nodes@.len()),
                st.len() == k + 1,
                st[0] == Seq::new(n_primal as nat, |v: int| None::<Sym>),
                st[k as int] == slot_syms(adj@, b.nodes@),
                forall|k2: int| 0 <= k2 < k ==> #[trigger] seed_rule(folder, st[k2], st[k2 + 1], outs@[k2] as int, weight@[k2]),
            decreases n_out - k,
        {
            let ghost s0 = b.nodes@;
            let ghost j0 = adj@;
            if !is_zero(Some(weight[k])) {
                let ghost n0 = b.nodes@.len();
                let c = b.constant(weight[k]);
                let o = outs[k];
                proof {
                    assert(outs@[k as int] < n_primal);
                    assert(reaches(nodes@, o as int, o as int));
                    assert(weighted(func, weight@, o as int));
                    lemma_slots_grow(helpers@, n0, b.nodes@.len());
                    lemma_const_lift(s0, b.nodes@, weight@[k as int], c);
                    lemma_helpers_extend(folder, func, s0, b.nodes@, helpers@);
                    lemma_slots_grow(j0, n0, b.nodes@.len());
                    lemma_slot_syms_extend(j0, s0, b.nodes@);
                }
                let ghost s1 = b.nodes@;
                acc_into(&mut adj, &mut b, o, c, false, func, Ghost(weight@), Ghost(n0), folder);
                proof {
                    lemma_slots_grow(helpers@, n0, b.nodes@.len());
                    lemma_helpers_extend(folder, func, s1, b.nodes@, helpers@);
                }
            }
            proof {
                let st2 = st.push(slot_syms(adj@, b.nodes@));
                assert(seed_rule(folder, st2[k as int], st2[k + 1], outs@[k as int] as int, weight@[k as int]));
                assert forall|k2: int| 0 <= k2 < k + 1 implies #[trigger] seed_rule(folder, 
                    st2[k2],
                    st2[k2 + 1],
                    outs@[k2] as int,
                    weight@[k2],
                ) by {
                    if k2 < k {
                        assert(st2[k2] == st[k2]);
                        assert(st2[k2 + 1] == st[k2 + 1]);
                    }
                }
                st = st2;
            }
            k += 1;
        }
        // Operands precede their readers, so when the sweep reaches a node
        // every reader has already added its share to the node's adjoint.
        let ghost mut at: Seq<Seq<Option<Sym>>> = Seq::new((n_primal + 1) as nat, |i: int| st[n_out as int]);
        let mut i: usize = n_primal;
        while i > 0
            invariant
                i <= n_primal,
                b.ok(),
                extends(b_start, b.nodes@),
                helpers@.len() == n_primal,
                slots_below(helpers@, b.nodes@.len()),
                helpers_sym_ok(folder, func, b.nodes@, helpers@),
                outputs@ == out_start,
                adj_ok(func, weight@, adj@, b.nodes@.len()),
                at.len() == n_primal + 1,
                at[n_primal as int] == st[n_out as int],
                at[i as int] == slot_syms(adj@, b.nodes@),
                forall|i2: int| i <= i2 < n_primal ==> #[trigger] adj_rule(folder, func, at[i2 + 1], at[i2], i2),
            decreases i,
        {
            i -= 1;
            let ghost s0 = b.nodes@;
            let ghost j0 = adj@;
            adjoint_step(&mut b, &mut helpers, &mut adj, func, i, Ghost(weight@), folder);
            proof {
                let at2 = at.update(i as int, slot_syms(adj@, b.nodes@));
                assert(adj_rule(folder, func, at2[i + 1], at2[i as int], i as int));
                assert forall|i2: int| i <= i2 < n_primal implies #[trigger] adj_rule(folder, func, at2[i2 + 1], at2[i2], i2) by {
                    if i2 > i {
                        assert(at2[i2] == at[i2]);
                        assert(at2[i2 + 1] == at[i2 + 1]);
                    }
                }
                at = at2;
            }
        }
        let ghost s_tr = b.nodes@;
        let ghost a_in = at[0];
        proof {
            assert(adjoint_trace(folder, func, weight@, st, at));
        }
        let mut j: usize = 0;
        while j < n_in
            invariant
                j <= n_in,
                b.ok(),
                extends(b_start, b.nodes@),
                extends(s_tr, b.nodes@),
                helpers@.len() == n_primal,
                slots_below(helpers@, b.nodes@.len()),
                helpers_sym_ok(folder, func, b.nodes@, helpers@),
                adj_ok(func, weight@, adj@, b.nodes@.len()),
                a_in == slot_syms(adj@, s_tr),
                slots_below(adj@, s_tr.len()),
                outputs@.len() == d * n_in + j,
                outputs@.subrange(0, out_start.len() as int) == out_start,
                ids_below(outputs@, b.nodes@.len()),
                forall|j2: int|
                    0 <= j2 < j && !#[trigger] weighted(func, weight@, ins@[j2] as int) ==> b.nodes@[outputs@[d
                        * n_in + j2] as int] == Node::Constant(Bits64(0)),
                block_syms(b.nodes@, outputs@, d * n_in, ins@.subrange(0, j as int), a_in),
            decreases n_in - j,
        {
            let p = ins[j];
            let ghost n0 = b.nodes@.len();
            let ghost s0 = b.nodes@;
            let ghost o0 = outputs@;
            proof {
                assert(ins@[j as int] < n_primal);
                assert(match adj@[p as int] {
                    Some(t) => t < n0,
                    None => true,
                });
            }
            let out = match adj[p] {
                Some(a) => a,
                None => b.constant(Bits64(0)),
            };
            outputs.push(out);
            proof {
                lemma_slots_grow(adj@, n0, b.nodes@.len());
                lemma_slots_grow(helpers@, n0, b.nodes@.len());
                lemma_helpers_extend(folder, func, s0, b.nodes@, helpers@);
                assert(outputs@.subrange(0, out_start.len() as int) == o0.subrange(0, out_start.len() as int));
                assert forall|i2: int| 0 <= i2 < outputs@.len() implies #[trigger] outputs@[i2] < b.nodes@.len() by {
                    if i2 < o0.len() {
                        assert(outputs@[i2] == o0[i2]);
                    }
                }
                assert forall|j2: int|
                    0 <= j2 < j + 1 && !#[trigger] weighted(func, weight@, ins@[j2] as int) implies b.nodes@[outputs@[d
                    * n_in + j2] as int] == Node::Constant(Bits64(0)) by {
                    if j2 < j {
                        assert(outputs@[d * n_in + j2] == o0[d * n_in + j2]);
                        assert(o0[d * n_in + j2] < n0);
                    } else {
                        assert(adj@[p as int] is None);
                    }
                }
                lemma_syms_extend(s_tr, b.nodes@);
                lemma_syms_extend(s0, b.nodes@);
                if adj@[p as int] is None {
                    lemma_const_lift(s0, b.nodes@, Bits64(0), out);
                } else {
                    assert(a_in[p as int] == opt_sym(adj@[p as int], s_tr));
                }
                assert(node_sym(b.nodes@, outputs@[d * n_in + j] as int) == or_zero(a_in[p as int]));
                assert(outputs@.subrange(0, o0.len() as int) =~= o0);
                lemma_block_keep(s0, b.nodes@, o0, outputs@, d * n_in, ins@.subrange(0, j as int), a_in);
                assert forall|j2: int| 0 <= j2 < j + 1 implies node_sym(b.nodes@, outputs@[d * n_in + j2] as int)
                    == or_zero(a_in[#[trigger] ins@.subrange(0, j + 1)[j2] as int]) by {
                    if j2 < j {
                        assert(ins@.subrange(0, j + 1)[j2] == ins@.subrange(0, j as int)[j2]);
                    }
                }
            }
            j += 1;
        }
        proof {
            assert(ins@.subrange(0, n_in as int) == ins@);
            assert forall|d2: int, j2: int|
                0 <= d2 < d + 1 && 0 <= j2 < n_in && !#[trigger] weighted(func, weights@[d2]@, ins@[j2] as int)
                    implies b.nodes@[outputs@[d2 * n_in + j2] as int] == Node::Constant(Bits64(0)) by {
                lemma_block(d as int, d2, j2, n_in as int);
                if d2 < d {
                    let i2 = d2 * n_in + j2;
                    assert(outputs@.subrange(0, out_start.len() as int)[i2] == out_start[i2]);
                    assert(outputs@[i2] == out_start[i2]);
                }
            }
            assert((d as int + 1) * n_in == d as int * n_in + n_in) by (nonlinear_arith);
            let seeds2 = seeds_tr.push(st);
            let sweeps2 = sweeps_tr.push(at);
            assert forall|d2: int| 0 <= d2 < d + 1 implies adjoint_trace(folder, 
                func,
                weights@[d2]@,
                #[trigger] seeds2[d2],
                sweeps2[d2],
            ) && block_syms(b.nodes@, outputs@, d2 * n_in, ins@, sweeps2[d2][0]) by {
                if d2 < d {
                    assert(seeds2[d2] == seeds_tr[d2]);
                    assert(sweeps2[d2] == sweeps_tr[d2]);
                    assert(0 <= d2 * n_in) by (nonlinear_arith)
                        requires
                            0 <= d2,
                    ;
                    assert(d2 * n_in + n_in <= d * n_in) by (nonlinear_arith)
                        requires
                            0 <= d2 < d,
                    ;
                    lemma_block_keep(b_start, b.nodes@, out_start, outputs@, d2 * n_in, ins@, sweeps_tr[d2][0]);
                }
            }
            seeds_tr = seeds2;
            sweeps_tr = sweeps2;
        }
        d += 1;
    }
    let raw = Function::from_parts(b.nodes, copy_ids(ins), outputs);
    let g = prune(&raw);
    proof {
        assert forall|j: int| 0 <= j < func.spec_inputs().len() implies #[trigger] g.input_sym(j)
            == func.input_sym(j) by {
            lemma_node_sym_extends(func.spec_nodes(), raw.spec_nodes(), ins@[j] as int);
        }
        assert forall|d2: int, j2: int|
            0 <= d2 < weights@.len() && 0 <= j2 < n_in && !#[trigger] weighted(
                func,
                weights@[d2]@,
                func.spec_inputs()[j2] as int,
            ) implies g.output_sym(d2 * n_in + j2) == zero_const() by {
            lemma_block(weights@.len() as int, d2, j2, n_in as int);
            lemma_pruned_output_zero(&raw, &g, d2 * n_in + j2);
        }
        assert forall|d2: int| 0 <= d2 < weights@.len() implies #[trigger] adjoints_at(folder, &g, func, weights@[d2]@, d2) by {
            let s = seeds_tr[d2];
            let a = sweeps_tr[d2];
            assert(adjoint_trace(folder, func, weights@[d2]@, s, a));
            assert forall|j2: int| 0 <= j2 < n_in implies g.output_sym(d2 * n_in + j2) == or_zero(
                a[0][#[trigger] func.spec_inputs()[j2] as int],
            ) by {
                lemma_block(weights@.len() as int, d2, j2, n_in as int);
                assert(ins@[j2] == func.spec_inputs()[j2]);
            }
        }
    }
    g
}

/// Gradient of a function with a single output: one reverse sweep with
/// unit weight. Output `j` is the derivative with respect to input `j`;
/// it is the constant zero where the output does not depend on input `j`.
pub fn gradient<C: ConstantFolder>(func: &Function, folder: &C) -> (g: Function)
    requires
        func.wf(),
        func.spec_outputs().len() == 1,
    ensures
        g.wf(),
        g.spec_inputs().len() == func.spec_inputs().len(),
        forall|j: int| 0 <= j < func.spec_inputs().len() ==> #[trigger] g.input_sym(j) == func.input_sym(j),
        g.spec_outputs().len() == func.spec_inputs().len(),
        // Output `j` computes the adjoint of input `j` for the unit weight.
        adjoints_at(folder, &g, func, seq![Bits64(ONE_BITS)], 0),
        forall|j: int|
            0 <= j < func.spec_inputs().len() && !reaches(
                func.spec_nodes(),
                func.spec_outputs()[0] as int,
                #[trigger] func.spec_inputs()[j] as int,
            ) ==> g.output_sym(j) == zero_const(),
        forall|w: int| 0 <= w < g.spec_nodes().len() ==> reached_from_ids(g.spec_nodes(), roots(&g), w),
{
    let mut unit: Vec<Bits64> = Vec::new();
    unit.push(Bits64(ONE_BITS));
    let mut weights: Vec<Vec<Bits64>> = Vec::new();
    weights.push(unit);
    let g = reverse(func, weights.as_slice(), folder);
    proof {
        assert(1 * func.spec_inputs().len() == func.spec_inputs().len());
        assert(weights@[0]@ =~= seq![Bits64(ONE_BITS)]);
        assert(adjoints_at(folder, &g, func, weights@[0]@, 0));
        assert forall|j: int|
            0 <= j < func.spec_inputs().len() && !reaches(
                func.spec_nodes(),
                func.spec_outputs()[0] as int,
                #[trigger] func.spec_inputs()[j] as int,
            ) implies g.output_sym(j) == zero_const() by {
            assert(!weighted(func, weights@[0]@, func.spec_inputs()[j] as int));
            assert(0 * func.spec_inputs().len() + j == j);
        }
    }
    g
}

} // verus!
