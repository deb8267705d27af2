//! Expressions built in a context, and their lowering to a flat tape of
//! the nodes that given roots depend on.
use vstd::prelude::*;

use crate::bits::Bits64;
use crate::deriv::ONE_BITS;
use crate::order::{lemma_position, position};
use vstd::arithmetic::power::{lemma_pow1, lemma_pow_adds, pow};

verus! {

#[derive(Clone, Copy, PartialEq, Eq, Hash, Debug, Structural)]
pub enum UnaryOp {
    Neg,
    Sqrt,
    Exp,
    Ln,
    Sin,
    Cos,
    Abs,
}

#[derive(Clone, Copy, PartialEq, Eq, Hash, Debug, Structural)]
pub enum BinaryOp {
    Add,
    Sub,
    Mul,
    Div,
    Mod,
    Min,
    Max,
    Pow,
}

/// Identifier of a variable of a context.
pub type VarId = u32;

/// Index of a node of a context.
pub type NodeId = usize;

/// Index of an instruction of a tape.
pub type Slot = usize;

#[derive(Clone, Copy, PartialEq, Eq, Debug, Structural)]
pub enum Node {
    Constant(Bits64),
    Variable(VarId),
    Unary(UnaryOp, NodeId),
    Binary(BinaryOp, NodeId, NodeId),
}

#[derive(Clone, Copy, PartialEq, Eq, Debug, Structural)]
pub enum Instr {
    Const(Bits64),
    Input(VarId),
    Unary(UnaryOp, Slot),
    Binary(BinaryOp, Slot, Slot),
}

/// Straight-line code: each instruction reads earlier ones.
pub struct Tape {
    pub insts: Vec<Instr>,
    pub outputs: Vec<Slot>,
}

/// An expression tree over the variables.
pub enum Term {
    Var(VarId),
    Const(Bits64),
    Unary(UnaryOp, Box<Term>),
    Binary(BinaryOp, Box<Term>, Box<Term>),
}

pub open spec fn zero_term() -> Term {
    Term::Const(Bits64(0))
}

/// Node `d` at position `i` reads only earlier nodes.
pub open spec fn node_ok(d: Node, i: int) -> bool {
    match d {
        Node::Unary(_, a) => a < i,
        Node::Binary(_, a, b) => a < i && b < i,
        _ => true,
    }
}

pub open spec fn nodes_ok(nodes: Seq<Node>) -> bool {
    forall|i: int| 0 <= i < nodes.len() ==> node_ok(#[trigger] nodes[i], i)
}

/// What node `v` computes.
pub open spec fn node_term(nodes: Seq<Node>, v: int) -> Term
    decreases v,
{
    if v < 0 || v >= nodes.len() {
        zero_term()
    } else {
        match nodes[v] {
            Node::Constant(c) => Term::Const(c),
            Node::Variable(x) => Term::Var(x),
            Node::Unary(op, a) => if a < v {
                Term::Unary(op, Box::new(node_term(nodes, a as int)))
            } else {
                zero_term()
            },
            Node::Binary(op, a, b) => if a < v && b < v {
                Term::Binary(op, Box::new(node_term(nodes, a as int)), Box::new(node_term(nodes, b as int)))
            } else {
                zero_term()
            },
        }
    }
}

/// Instruction `d` at position `i` reads only earlier instructions.
pub open spec fn instr_ok(d: Instr, i: int) -> bool {
    match d {
        Instr::Unary(_, a) => a < i,
        Instr::Binary(_, a, b) => a < i && b < i,
        _ => true,
    }
}

/// What instruction `s` computes.
pub open spec fn instr_term(insts: Seq<Instr>, s: int) -> Term
    decreases s,
{
    if s < 0 || s >= insts.len() {
        zero_term()
    } else {
        match insts[s] {
            Instr::Const(c) => Term::Const(c),
            Instr::Input(x) => Term::Var(x),
            Instr::Unary(op, a) => if a < s {
                Term::Unary(op, Box::new(instr_term(insts, a as int)))
            } else {
                zero_term()
            },
            Instr::Binary(op, a, b) => if a < s && b < s {
                Term::Binary(op, Box::new(instr_term(insts, a as int)), Box::new(instr_term(insts, b as int)))
            } else {
                zero_term()
            },
        }
    }
}

/// Instruction `s` is an output or an operand of one, transitively.
pub open spec fn instr_reaches(insts: Seq<Instr>, s: int, t: int) -> bool
    decreases s,
{
    if s < 0 || s >= insts.len() {
        false
    } else if s == t {
        true
    } else {
        match insts[s] {
            Instr::Unary(_, a) => a < s && instr_reaches(insts, a as int, t),
            Instr::Binary(_, a, b) => a < s && b < s && (instr_reaches(insts, a as int, t) || instr_reaches(
                insts,
                b as int,
                t,
            )),
            _ => false,
        }
    }
}

/// Node `v` is `w` or depends on it.
pub open spec fn node_reaches(nodes: Seq<Node>, v: int, w: int) -> bool
    decreases v,
{
    if v < 0 || v >= nodes.len() {
        false
    } else if v == w {
        true
    } else {
        match nodes[v] {
            Node::Unary(_, a) => a < v && node_reaches(nodes, a as int, w),
            Node::Binary(_, a, b) => a < v && b < v && (node_reaches(nodes, a as int, w) || node_reaches(
                nodes,
                b as int,
                w,
            )),
            _ => false,
        }
    }
}

/// `w` is an operand of node `v`.
pub open spec fn node_operand(nodes: Seq<Node>, v: int, w: int) -> bool {
    match nodes[v] {
        Node::Unary(_, a) => a == w,
        Node::Binary(_, a, b) => a == w || b == w,
        _ => false,
    }
}

impl Tape {
    /// Instructions read only earlier ones and outputs name instructions.
    pub open spec fn wf(&self) -> bool {
        &&& forall|i: int| 0 <= i < self.insts@.len() ==> instr_ok(#[trigger] self.insts@[i], i)
        &&& forall|k: int| 0 <= k < self.outputs@.len() ==> #[trigger] self.outputs@[k] < self.insts@.len()
    }

    /// Some output depends on instruction `s`.
    pub open spec fn needed(&self, s: int) -> bool {
        exists|k: int| 0 <= k < self.outputs@.len() && #[trigger] instr_reaches(self.insts@, self.outputs@[k] as int, s)
    }
}

/// An expression: a node of a context.
#[derive(Clone, Copy)]
pub struct Expr {
    id: NodeId,
}

impl Expr {
    pub closed spec fn view(self) -> NodeId {
        self.id
    }

    pub fn id(&self) -> (r: NodeId)
        ensures
            r == self@,
    {
        self.id
    }
}

/// The arena in which expressions are built.
pub struct Context {
    nodes: Vec<Node>,
    n_vars: u32,
}

proof fn lemma_node_reaches_operand(nodes: Seq<Node>, o: int, v: int, w: int)
    requires
        nodes_ok(nodes),
        0 <= v < nodes.len(),
        node_reaches(nodes, o, v),
        node_operand(nodes, v, w),
    ensures
        node_reaches(nodes, o, w),
    decreases o,
{
    assert(node_ok(nodes[v], v));
    if o == v {
        match nodes[v] {
            Node::Unary(_, a) => {
                assert(node_reaches(nodes, a as int, a as int));
            },
            Node::Binary(_, a, b) => {
                assert(node_reaches(nodes, a as int, a as int));
                assert(node_reaches(nodes, b as int, b as int));
            },
            _ => {},
        }
    } else {
        match nodes[o] {
            Node::Unary(_, a) => {
                lemma_node_reaches_operand(nodes, a as int, v, w);
            },
            Node::Binary(_, a, b) => {
                if node_reaches(nodes, a as int, v) {
                    lemma_node_reaches_operand(nodes, a as int, v, w);
                } else {
                    lemma_node_reaches_operand(nodes, b as int, v, w);
                }
            },
            _ => {},
        }
    }
}

/// The instruction for node `d`, with each operand `a` read from `slot_of[a]`.
pub open spec fn lowered(d: Node, slot_of: Seq<Option<Slot>>) -> Instr {
    match d {
        Node::Constant(c) => Instr::Const(c),
        Node::Variable(x) => Instr::Input(x),
        Node::Unary(op, a) => Instr::Unary(op, slot_of[a as int]->0),
        Node::Binary(op, a, b) => Instr::Binary(op, slot_of[a as int]->0, slot_of[b as int]->0),
    }
}

pub(crate) proof fn lemma_instr_term_extends(old: Seq<Instr>, new: Seq<Instr>, s: int)
    requires
        old.is_prefix_of(new),
        0 <= s < old.len(),
    ensures
        instr_term(new, s) == instr_term(old, s),
    decreases s,
{
    assert(new[s] == old[s]);
    match old[s] {
        Instr::Unary(_, a) => {
            if a < s {
                lemma_instr_term_extends(old, new, a as int);
            }
        },
        Instr::Binary(_, a, b) => {
            if a < s && b < s {
                lemma_instr_term_extends(old, new, a as int);
                lemma_instr_term_extends(old, new, b as int);
            }
        },
        _ => {},
    }
}

proof fn lemma_reaches_lowered(
    nodes: Seq<Node>,
    insts: Seq<Instr>,
    live: Seq<bool>,
    slot_of: Seq<Option<Slot>>,
    v: int,
    w: int,
)
    requires
        nodes_ok(nodes),
        forall|i: int| 0 <= i < insts.len() ==> instr_ok(#[trigger] insts[i], i),
        live.len() == nodes.len(),
        slot_of.len() == nodes.len(),
        forall|u: int, x: int|
            0 <= u < nodes.len() && #[trigger] live[u] && #[trigger] node_operand(nodes, u, x) ==> 0 <= x
                < nodes.len() && live[x],
        forall|u: int|
            0 <= u < nodes.len() && #[trigger] live[u] ==> slot_of[u] is Some && slot_of[u]->0 < insts.len()
                && insts[slot_of[u]->0 as int] == lowered(nodes[u], slot_of),
        0 <= v < nodes.len(),
        live[v],
        node_reaches(nodes, v, w),
    ensures
        0 <= w < nodes.len(),
        live[w],
        instr_reaches(insts, slot_of[v]->0 as int, slot_of[w]->0 as int),
    decreases v,
{
    let m = slot_of[v]->0 as int;
    assert(node_ok(nodes[v], v));
    assert(instr_ok(insts[m], m));
    if v != w {
        match nodes[v] {
            Node::Unary(_, a) => {
                assert(node_operand(nodes, v, a as int));
                lemma_reaches_lowered(nodes, insts, live, slot_of, a as int, w);
            },
            Node::Binary(_, a, b) => {
                assert(node_operand(nodes, v, a as int));
                assert(node_operand(nodes, v, b as int));
                if node_reaches(nodes, a as int, w) {
                    lemma_reaches_lowered(nodes, insts, live, slot_of, a as int, w);
                } else {
                    lemma_reaches_lowered(nodes, insts, live, slot_of, b as int, w);
                }
            },
            _ => {},
        }
    }
}

/// Some root depends on node `w`.
pub open spec fn rooted(nodes: Seq<Node>, roots: Seq<Expr>, w: int) -> bool {
    exists|k: int| 0 <= k < roots.len() && #[trigger] node_reaches(nodes, roots[k]@ as int, w)
}

/// The nodes below `i` that some root depends on, in increasing order.
pub open spec fn rooted_upto(nodes: Seq<Node>, roots: Seq<Expr>, i: int) -> Seq<int>
    decreases i,
{
    if i <= 0 {
        Seq::empty()
    } else {
        rooted_upto(nodes, roots, i - 1) + if rooted(nodes, roots, i - 1) {
            seq![i - 1]
        } else {
            Seq::empty()
        }
    }
}

/// The instruction for node `d` when the nodes kept are `order`, each
/// operand read from its position there.
pub open spec fn lowered_in(d: Node, order: Seq<int>) -> Instr {
    match d {
        Node::Constant(c) => Instr::Const(c),
        Node::Variable(x) => Instr::Input(x),
        Node::Unary(op, a) => Instr::Unary(op, position(order, a as int) as Slot),
        Node::Binary(op, a, b) => Instr::Binary(op, position(order, a as int) as Slot, position(order, b as int) as Slot),
    }
}

/// Every node a live node depends on is live, where live nodes are closed
/// under operands.
proof fn lemma_reached_live(nodes: Seq<Node>, live: Seq<bool>, v: int, w: int)
    requires
        nodes_ok(nodes),
        live.len() == nodes.len(),
        0 <= v < nodes.len(),
        live[v],
        forall|v2: int, w2: int|
            0 <= v2 < nodes.len() && #[trigger] live[v2] && #[trigger] node_operand(nodes, v2, w2) ==> 0 <= w2
                < nodes.len() && live[w2],
        node_reaches(nodes, v, w),
    ensures
        live[w],
    decreases v,
{
    if v != w {
        match nodes[v] {
            Node::Unary(_, a) => {
                assert(node_operand(nodes, v, a as int));
                lemma_reached_live(nodes, live, a as int, w);
            },
            Node::Binary(_, a, b) => {
                assert(node_operand(nodes, v, a as int));
                assert(node_operand(nodes, v, b as int));
                if node_reaches(nodes, a as int, w) {
                    lemma_reached_live(nodes, live, a as int, w);
                } else {
                    lemma_reached_live(nodes, live, b as int, w);
                }
            },
            _ => {},
        }
    }
}

/// Nodes live by marking from the roots are exactly those some root
/// depends on.
proof fn lemma_live_rooted(nodes: Seq<Node>, roots: Seq<Expr>, live: Seq<bool>)
    requires
        nodes_ok(nodes),
        live.len() == nodes.len(),
        forall|k: int| 0 <= k < roots.len() ==> (#[trigger] roots[k])@ < nodes.len(),
        forall|k: int| 0 <= k < roots.len() ==> live[(#[trigger] roots[k])@ as int],
        forall|w: int|
            0 <= w < nodes.len() && #[trigger] live[w] ==> exists|k: int|
                0 <= k < roots.len() && #[trigger] node_reaches(nodes, roots[k]@ as int, w),
        forall|v: int, w: int|
            0 <= v < nodes.len() && #[trigger] live[v] && #[trigger] node_operand(nodes, v, w) ==> 0 <= w
                < nodes.len() && live[w],
    ensures
        forall|w: int| 0 <= w < nodes.len() ==> #[trigger] live[w] == rooted(nodes, roots, w),
{
    assert forall|w: int| 0 <= w < nodes.len() implies #[trigger] live[w] == rooted(nodes, roots, w) by {
        if rooted(nodes, roots, w) {
            let k0 = choose|k0: int| 0 <= k0 < roots.len() && #[trigger] node_reaches(nodes, roots[k0]@ as int, w);
            lemma_reached_live(nodes, live, roots[k0]@ as int, w);
        }
    }
}

/// The instructions emitted for the live nodes, in order, are the nodes'
/// instructions with operands read from their positions among the live
/// nodes, and the outputs are the positions of the roots.
proof fn lemma_lowered_exact(
    nodes: Seq<Node>,
    roots: Seq<Expr>,
    live: Seq<bool>,
    slot_of: Seq<Option<Slot>>,
    origin: Seq<int>,
    insts: Seq<Instr>,
    outputs: Seq<Slot>,
)
    requires
        nodes_ok(nodes),
        live.len() == nodes.len(),
        slot_of.len() == nodes.len(),
        origin.len() == insts.len(),
        forall|v: int, w: int|
            0 <= v < nodes.len() && #[trigger] live[v] && #[trigger] node_operand(nodes, v, w) ==> 0 <= w
                < nodes.len() && live[w],
        forall|w: int|
            0 <= w < nodes.len() && #[trigger] live[w] ==> slot_of[w] is Some && slot_of[w]->0 < insts.len()
                && insts[slot_of[w]->0 as int] == lowered(nodes[w], slot_of),
        forall|m: int|
            0 <= m < insts.len() ==> 0 <= #[trigger] origin[m] < nodes.len() && live[origin[m]]
                && slot_of[origin[m]] is Some && slot_of[origin[m]]->0 == m,
        forall|m1: int, m2: int| 0 <= m1 < m2 < origin.len() ==> origin[m1] < origin[m2],
        forall|w: int| 0 <= w < nodes.len() && #[trigger] live[w] ==> origin[slot_of[w]->0 as int] == w,
        outputs.len() == roots.len(),
        forall|k: int| 0 <= k < roots.len() ==> (#[trigger] roots[k])@ < nodes.len(),
        forall|k: int| 0 <= k < roots.len() ==> live[(#[trigger] roots[k])@ as int],
        forall|k: int| 0 <= k < outputs.len() ==> Some(#[trigger] outputs[k]) == slot_of[roots[k]@ as int],
    ensures
        forall|m: int| 0 <= m < insts.len() ==> #[trigger] insts[m] == lowered_in(nodes[origin[m]], origin),
        forall|k: int| 0 <= k < roots.len() ==> #[trigger] outputs[k] == position(origin, roots[k]@ as int),
{
    assert forall|m: int| 0 <= m < insts.len() implies #[trigger] insts[m] == lowered_in(nodes[origin[m]], origin) by {
        let w = origin[m];
        assert(slot_of[w]->0 == m);
        assert(live[w]);
        assert(insts[m] == lowered(nodes[w], slot_of));
        assert(node_ok(nodes[w], w));
        match nodes[w] {
            Node::Unary(_, a) => {
                assert(node_operand(nodes, w, a as int));
                assert(live[a as int]);
                lemma_position(origin, slot_of[a as int]->0 as int);
            },
            Node::Binary(_, a, b) => {
                assert(node_operand(nodes, w, a as int));
                assert(node_operand(nodes, w, b as int));
                assert(live[a as int]);
                assert(live[b as int]);
                lemma_position(origin, slot_of[a as int]->0 as int);
                lemma_position(origin, slot_of[b as int]->0 as int);
            },
            _ => {},
        }
    }
    assert forall|k: int| 0 <= k < roots.len() implies #[trigger] outputs[k] == position(origin, roots[k]@ as int) by {
        let r = roots[k]@ as int;
        assert(live[r]);
        assert(slot_of[r] is Some && slot_of[r]->0 < insts.len());
        lemma_position(origin, slot_of[r]->0 as int);
    }
}

impl Context {
    #[verifier::type_invariant]
    closed spec fn inv(self) -> bool {
        nodes_ok(self.nodes@)
    }

    pub closed spec fn spec_nodes(&self) -> Seq<Node> {
        self.nodes@
    }

    pub closed spec fn spec_n_vars(&self) -> nat {
        self.n_vars as nat
    }

    /// `e` was built in this context.
    pub open spec fn holds(&self, e: Expr) -> bool {
        e@ < self.spec_nodes().len()
    }

    /// What `e` computes.
    pub open spec fn term(&self, e: Expr) -> Term {
        node_term(self.spec_nodes(), e@ as int)
    }

    pub fn new() -> (c: Self)
        ensures
            c.spec_nodes() == Seq::<Node>::empty(),
            c.spec_n_vars() == 0,
    {
        Context { nodes: Vec::new(), n_vars: 0 }
    }

    fn insert(&mut self, node: Node) -> (e: Expr)
        requires
            node_ok(node, old(self).spec_nodes().len() as int),
        ensures
            final(self).spec_nodes() == old(self).spec_nodes().push(node),
            final(self).spec_n_vars() == old(self).spec_n_vars(),
            e@ == old(self).spec_nodes().len(),
    {
        proof {
            use_type_invariant(&*self);
        }
        let id = self.nodes.len();
        let mut nodes: Vec<Node> = Vec::new();
        std::mem::swap(&mut nodes, &mut self.nodes);
        nodes.push(node);
        proof {
            assert forall|i: int| 0 <= i < nodes@.len() implies node_ok(#[trigger] nodes@[i], i) by {
                if i < id {
                    assert(nodes@[i] == old(self).nodes@[i]);
                }
            }
        }
        self.nodes = nodes;
        Expr { id }
    }

    /// A new variable, numbered after the existing ones.
    pub fn var(&mut self) -> (e: Expr)
        requires
            old(self).spec_n_vars() < u32::MAX,
        ensures
            final(self).spec_nodes() == old(self).spec_nodes().push(Node::Variable(old(self).spec_n_vars() as u32)),
            final(self).spec_n_vars() == old(self).spec_n_vars() + 1,
            e@ == old(self).spec_nodes().len(),
    {
        proof {
            use_type_invariant(&*self);
        }
        let v = self.n_vars;
        self.n_vars = v + 1;
        self.insert(Node::Variable(v))
    }

    /// A new constant, by its bit pattern.
    pub fn constant(&mut self, x: Bits64) -> (e: Expr)
        ensures
            final(self).spec_nodes() == old(self).spec_nodes().push(Node::Constant(x)),
            final(self).spec_n_vars() == old(self).spec_n_vars(),
            e@ == old(self).spec_nodes().len(),
    {
        self.insert(Node::Constant(x))
    }

    pub fn n_vars(&self) -> (r: u32)
        ensures
            r == self.spec_n_vars(),
    {
        self.n_vars
    }

    /// Records `op(a)`.
    pub fn unary(&mut self, op: UnaryOp, a: Expr) -> (e: Expr)
        requires
            old(self).holds(a),
        ensures
            final(self).spec_nodes() == old(self).spec_nodes().push(Node::Unary(op, a@)),
            final(self).spec_n_vars() == old(self).spec_n_vars(),
            e@ == old(self).spec_nodes().len(),
    {
        self.insert(Node::Unary(op, a.id))
    }

    /// Records `op(a, b)`.
    pub fn binary(&mut self, op: BinaryOp, a: Expr, b: Expr) -> (e: Expr)
        requires
            old(self).holds(a),
            old(self).holds(b),
        ensures
            final(self).spec_nodes() == old(self).spec_nodes().push(Node::Binary(op, a@, b@)),
            final(self).spec_n_vars() == old(self).spec_n_vars(),
            e@ == old(self).spec_nodes().len(),
    {
        self.insert(Node::Binary(op, a.id, b.id))
    }

    /// Lowers the nodes that `roots` depend on to a tape: one instruction
    /// per such node, in node order, each operand read from the instruction
    /// of its node; output `k` is the instruction of `roots[k]` and
    /// computes it, and every instruction is needed by some output.
    pub fn lower(&self, roots: &[Expr]) -> (t: Tape)
        requires
            forall|k: int| 0 <= k < roots@.len() ==> self.holds(#[trigger] roots@[k]),
        ensures
            t.wf(),
            t.outputs@.len() == roots@.len(),
            forall|k: int|
                0 <= k < roots@.len() ==> #[trigger] instr_term(t.insts@, t.outputs@[k] as int) == self.term(
                    roots@[k],
                ),
            forall|s: int| 0 <= s < t.insts@.len() ==> #[trigger] t.needed(s),
            t.insts@.len() == rooted_upto(self.spec_nodes(), roots@, self.spec_nodes().len() as int).len(),
            forall|m: int|
                0 <= m < t.insts@.len() ==> #[trigger] t.insts@[m] == lowered_in(
                    self.spec_nodes()[rooted_upto(self.spec_nodes(), roots@, self.spec_nodes().len() as int)[m]],
                    rooted_upto(self.spec_nodes(), roots@, self.spec_nodes().len() as int),
                ),
            forall|k: int|
                0 <= k < roots@.len() ==> #[trigger] t.outputs@[k] == position(
                    rooted_upto(self.spec_nodes(), roots@, self.spec_nodes().len() as int),
                    roots@[k]@ as int,
                ),
    {
        proof {
            use_type_invariant(self);
        }
        let nodes = &self.nodes;
        let n = nodes.len();
        // Pass 1: mark reachable nodes, high to low.
        let mut live: Vec<bool> = Vec::new();
        let mut i: usize = 0;
        while i < n
            invariant
                n == nodes@.len(),
                i <= n,
                live@.len() == i,
                forall|j: int| 0 <= j < i ==> !#[trigger] live@[j],
            decreases n - i,
        {
            live.push(false);
            i += 1;
        }
        let mut k: usize = 0;
        while k < roots.len()
            invariant
                n == nodes@.len(),
                live@.len() == n,
                k <= roots@.len(),
                forall|k2: int| 0 <= k2 < roots@.len() ==> (#[trigger] roots@[k2])@ < n,
                forall|w: int|
                    0 <= w < n && #[trigger] live@[w] ==> exists|k2: int|
                        0 <= k2 < roots@.len() && #[trigger] node_reaches(nodes@, roots@[k2]@ as int, w),
                forall|k2: int| 0 <= k2 < k ==> live@[(#[trigger] roots@[k2])@ as int],
            decreases roots@.len() - k,
        {
            let r = roots[k].id;
            proof {
                assert(roots@[k as int]@ == r);
                assert(node_reaches(nodes@, r as int, r as int));
            }
            let ghost before = live@;
            live.set(r, true);
            proof {
                assert forall|k2: int| 0 <= k2 < k + 1 implies live@[(#[trigger] roots@[k2])@ as int] by {
                    if k2 < k {
                        assert(before[roots@[k2]@ as int]);
                    }
                }
                assert forall|w: int| 0 <= w < n && #[trigger] live@[w] implies exists|k2: int|
                    0 <= k2 < roots@.len() && #[trigger] node_reaches(nodes@, roots@[k2]@ as int, w) by {
                    if w != r {
                        assert(before[w]);
                    } else {
                        assert(node_reaches(nodes@, roots@[k as int]@ as int, w));
                    }
                }
            }
            k += 1;
        }
        let mut idx = n;
        while idx > 0
            invariant
                nodes_ok(nodes@),
                n == nodes@.len(),
                live@.len() == n,
                idx <= n,
                forall|k2: int| 0 <= k2 < roots@.len() ==> (#[trigger] roots@[k2])@ < n,
                forall|w: int|
                    0 <= w < n && #[trigger] live@[w] ==> exists|k2: int|
                        0 <= k2 < roots@.len() && #[trigger] node_reaches(nodes@, roots@[k2]@ as int, w),
                forall|k2: int| 0 <= k2 < roots@.len() ==> live@[(#[trigger] roots@[k2])@ as int],
                forall|v: int, w: int|
                    idx <= v < n && #[trigger] live@[v] && #[trigger] node_operand(nodes@, v, w) ==> 0 <= w < n
                        && live@[w],
            decreases idx,
        {
            idx -= 1;
            if live[idx] {
                proof {
                    assert(node_ok(nodes@[idx as int], idx as int));
                }
                let ghost before = live@;
                let ghost k0 = choose|k0: int|
                    0 <= k0 < roots@.len() && #[trigger] node_reaches(nodes@, roots@[k0]@ as int, idx as int);
                match nodes[idx] {
                    Node::Unary(_, a) => {
                        proof {
                            lemma_node_reaches_operand(nodes@, roots@[k0]@ as int, idx as int, a as int);
                        }
                        live.set(a, true);
                    },
                    Node::Binary(_, a, b) => {
                        proof {
                            lemma_node_reaches_operand(nodes@, roots@[k0]@ as int, idx as int, a as int);
                            lemma_node_reaches_operand(nodes@, roots@[k0]@ as int, idx as int, b as int);
                        }
                        live.set(a, true);
                        live.set(b, true);
                    },
                    _ => {},
                }
                proof {
                    assert forall|v: int, w: int|
                        idx <= v < n && #[trigger] live@[v] && #[trigger] node_operand(nodes@, v, w) implies 0 <= w
                        < n && live@[w] by {
                        if v > idx {
                            assert(before[v]);
                            assert(before[w]);
                        }
                    }
                    assert forall|w: int| 0 <= w < n && #[trigger] live@[w] implies exists|k2: int|
                        0 <= k2 < roots@.len() && #[trigger] node_reaches(nodes@, roots@[k2]@ as int, w) by {
                        if before[w] {
                        } else {
                            assert(node_reaches(nodes@, roots@[k0]@ as int, w));
                        }
                    }
                    assert forall|k2: int| 0 <= k2 < roots@.len() implies live@[(#[trigger] roots@[k2])@ as int] by {
                        assert(before[roots@[k2]@ as int]);
                    }
                }
            }
        }
        // The live nodes are exactly those some root depends on.
        proof {
            lemma_live_rooted(nodes@, roots@, live@);
        }
        // Pass 2: emit live nodes, low to high.
        let mut slot_of: Vec<Option<Slot>> = Vec::new();
        let mut i: usize = 0;
        while i < n
            invariant
                n == nodes@.len(),
                i <= n,
                slot_of@.len() == i,
                forall|j: int| 0 <= j < i ==> #[trigger] slot_of@[j] is None,
            decreases n - i,
        {
            slot_of.push(None);
            i += 1;
        }
        let mut insts: Vec<Instr> = Vec::new();
        let ghost mut origin: Seq<int> = Seq::empty();
        let mut id: usize = 0;
        while id < n
            invariant
                nodes_ok(nodes@),
                n == nodes@.len(),
                id <= n,
                live@.len() == n,
                slot_of@.len() == n,
                forall|v: int, w: int|
                    0 <= v < n && #[trigger] live@[v] && #[trigger] node_operand(nodes@, v, w) ==> 0 <= w < n
                        && live@[w],
                forall|i2: int| 0 <= i2 < insts@.len() ==> instr_ok(#[trigger] insts@[i2], i2),
                forall|w: int| 0 <= w < n ==> (#[trigger] slot_of@[w] is Some <==> (w < id && live@[w])),
                forall|w: int|
                    0 <= w < id && #[trigger] live@[w] ==> slot_of@[w]->0 < insts@.len() && insts@[slot_of@[w]->0 as int]
                        == lowered(nodes@[w], slot_of@) && instr_term(insts@, slot_of@[w]->0 as int) == node_term(
                        nodes@,
                        w,
                    ),
                origin.len() == insts@.len(),
                forall|m: int|
                    0 <= m < insts@.len() ==> 0 <= #[trigger] origin[m] < id && live@[origin[m]]
                        && slot_of@[origin[m]] is Some && slot_of@[origin[m]]->0 == m,
                forall|w: int| 0 <= w < n ==> #[trigger] live@[w] == rooted(nodes@, roots@, w),
                origin == rooted_upto(nodes@, roots@, id as int),
                forall|m1: int, m2: int| 0 <= m1 < m2 < origin.len() ==> origin[m1] < origin[m2],
                forall|w: int| 0 <= w < id && #[trigger] live@[w] ==> origin[slot_of@[w]->0 as int] == w,
            decreases n - id,
        {
            let ghost o0 = origin;
            let ghost s_before = slot_of@;
            if !live[id] {
                proof {
                    assert(rooted_upto(nodes@, roots@, id + 1) =~= rooted_upto(nodes@, roots@, id as int));
                }
            }
            if live[id] {
                proof {
                    assert(node_ok(nodes@[id as int], id as int));
                }
                let inst = match nodes[id] {
                    Node::Constant(bits) => Instr::Const(bits),
                    Node::Variable(v) => Instr::Input(v),
                    Node::Unary(op, a) => {
                        proof {
                            assert(node_operand(nodes@, id as int, a as int));
                        }
                        Instr::Unary(op, slot_of[a].unwrap())
                    },
                    Node::Binary(op, a, b) => {
                        proof {
                            assert(node_operand(nodes@, id as int, a as int));
                            assert(node_operand(nodes@, id as int, b as int));
                        }
                        Instr::Binary(op, slot_of[a].unwrap(), slot_of[b].unwrap())
                    },
                };
                let m = insts.len();
                let ghost i0 = insts@;
                let ghost s0 = slot_of@;
                insts.push(inst);
                slot_of.set(id, Some(m));
                proof {
                    origin = origin.push(id as int);
                    assert(origin =~= rooted_upto(nodes@, roots@, id + 1));
                    assert forall|w: int| 0 <= w < id + 1 && #[trigger] live@[w] implies origin[slot_of@[w]->0 as int] == w by {
                        if w < id {
                            assert(slot_of@[w] == s0[w]);
                            assert(origin[s0[w]->0 as int] == o0[s0[w]->0 as int]);
                        }
                    }
                    assert(i0.is_prefix_of(insts@));
                    assert forall|i2: int| 0 <= i2 < insts@.len() implies instr_ok(#[trigger] insts@[i2], i2) by {
                        if i2 < m {
                            assert(insts@[i2] == i0[i2]);
                        }
                    }
                    assert(lowered(nodes@[id as int], slot_of@) == inst) by {
                        match nodes@[id as int] {
                            Node::Unary(_, a) => {
                                assert(slot_of@[a as int] == s0[a as int]);
                            },
                            Node::Binary(_, a, b) => {
                                assert(slot_of@[a as int] == s0[a as int]);
                                assert(slot_of@[b as int] == s0[b as int]);
                            },
                            _ => {},
                        }
                    }
                    assert forall|w: int|
                        0 <= w < id + 1 && #[trigger] live@[w] implies slot_of@[w]->0 < insts@.len()
                        && insts@[slot_of@[w]->0 as int] == lowered(nodes@[w], slot_of@) && instr_term(
                        insts@,
                        slot_of@[w]->0 as int,
                    ) == node_term(nodes@, w) by {
                        if w < id {
                            let mw = s0[w]->0 as int;
                            assert(slot_of@[w] == s0[w]);
                            lemma_instr_term_extends(i0, insts@, mw);
                            assert(node_ok(nodes@[w], w));
                            match nodes@[w] {
                                Node::Unary(_, a) => {
                                    assert(node_operand(nodes@, w, a as int));
                                    assert(slot_of@[a as int] == s0[a as int]);
                                },
                                Node::Binary(_, a, b) => {
                                    assert(node_operand(nodes@, w, a as int));
                                    assert(node_operand(nodes@, w, b as int));
                                    assert(slot_of@[a as int] == s0[a as int]);
                                    assert(slot_of@[b as int] == s0[b as int]);
                                },
                                _ => {},
                            }
                        } else {
                            match nodes@[id as int] {
                                Node::Unary(_, a) => {
                                    lemma_instr_term_extends(i0, insts@, s0[a as int]->0 as int);
                                },
                                Node::Binary(_, a, b) => {
                                    lemma_instr_term_extends(i0, insts@, s0[a as int]->0 as int);
                                    lemma_instr_term_extends(i0, insts@, s0[b as int]->0 as int);
                                },
                                _ => {},
                            }
                        }
                    }
                    assert forall|m2: int| 0 <= m2 < insts@.len() implies 0 <= #[trigger] origin[m2] < id + 1
                        && live@[origin[m2]] && slot_of@[origin[m2]] is Some && slot_of@[origin[m2]]->0 == m2 by {
                        if m2 < m {
                            assert(s0[origin[m2]] is Some && s0[origin[m2]]->0 == m2);
                        }
                    }
                }
            }
            id += 1;
        }
        let mut outputs: Vec<Slot> = Vec::new();
        let mut k: usize = 0;
        while k < roots.len()
            invariant
                n == nodes@.len(),
                live@.len() == n,
                slot_of@.len() == n,
                forall|k2: int| 0 <= k2 < roots@.len() ==> (#[trigger] roots@[k2])@ < n,
                forall|k2: int| 0 <= k2 < roots@.len() ==> live@[(#[trigger] roots@[k2])@ as int],
                forall|w: int| 0 <= w < n ==> (#[trigger] slot_of@[w] is Some <==> live@[w]),
                k <= roots@.len(),
                outputs@.len() == k,
                forall|k2: int| 0 <= k2 < k ==> Some(#[trigger] outputs@[k2]) == slot_of@[roots@[k2]@ as int],
            decreases roots@.len() - k,
        {
            let r = roots[k].id;
            proof {
                assert(roots@[k as int]@ == r);
                assert(live@[r as int]);
            }
            outputs.push(slot_of[r].unwrap());
            k += 1;
        }
        let t = Tape { insts, outputs };
        proof {
            assert(self.spec_nodes() == nodes@);
            lemma_lowered_exact(nodes@, roots@, live@, slot_of@, origin, t.insts@, t.outputs@);
            assert forall|s: int| 0 <= s < t.insts@.len() implies #[trigger] t.needed(s) by {
                let v = origin[s];
                let k0 = choose|k0: int| 0 <= k0 < roots@.len() && #[trigger] node_reaches(nodes@, roots@[k0]@ as int, v);
                lemma_reaches_lowered(nodes@, t.insts@, live@, slot_of@, roots@[k0]@ as int, v);
                assert(slot_of@[v]->0 == s);
                assert(Some(t.outputs@[k0]) == slot_of@[roots@[k0]@ as int]);
                assert(instr_reaches(t.insts@, t.outputs@[k0] as int, s));
            }
        }
        t
    }
}

impl Context {
    /// Records `sqrt(a)`.
    pub fn sqrt(&mut self, a: Expr) -> (e: Expr)
        requires
            old(self).holds(a),
        ensures
            final(self).spec_nodes() == old(self).spec_nodes().push(Node::Unary(UnaryOp::Sqrt, a@)),
            final(self).spec_n_vars() == old(self).spec_n_vars(),
            e@ == old(self).spec_nodes().len(),
    {
        self.unary(UnaryOp::Sqrt, a)
    }

    /// Records `exp(a)`.
    pub fn exp(&mut self, a: Expr) -> (e: Expr)
        requires
            old(self).holds(a),
        ensures
            final(self).spec_nodes() == old(self).spec_nodes().push(Node::Unary(UnaryOp::Exp, a@)),
            final(self).spec_n_vars() == old(self).spec_n_vars(),
            e@ == old(self).spec_nodes().len(),
    {
        self.unary(UnaryOp::Exp, a)
    }

    /// Records `ln(a)`.
    pub fn ln(&mut self, a: Expr) -> (e: Expr)
        requires
            old(self).holds(a),
        ensures
            final(self).spec_nodes() == old(self).spec_nodes().push(Node::Unary(UnaryOp::Ln, a@)),
            final(self).spec_n_vars() == old(self).spec_n_vars(),
            e@ == old(self).spec_nodes().len(),
    {
        self.unary(UnaryOp::Ln, a)
    }

    /// Records `sin(a)`.
    pub fn sin(&mut self, a: Expr) -> (e: Expr)
        requires
            old(self).holds(a),
        ensures
            final(self).spec_nodes() == old(self).spec_nodes().push(Node::Unary(UnaryOp::Sin, a@)),
            final(self).spec_n_vars() == old(self).spec_n_vars(),
            e@ == old(self).spec_nodes().len(),
    {
        self.unary(UnaryOp::Sin, a)
    }

    /// Records `cos(a)`.
    pub fn cos(&mut self, a: Expr) -> (e: Expr)
        requires
            old(self).holds(a),
        ensures
            final(self).spec_nodes() == old(self).spec_nodes().push(Node::Unary(UnaryOp::Cos, a@)),
            final(self).spec_n_vars() == old(self).spec_n_vars(),
            e@ == old(self).spec_nodes().len(),
    {
        self.unary(UnaryOp::Cos, a)
    }

    /// Records `abs(a)`.
    pub fn abs(&mut self, a: Expr) -> (e: Expr)
        requires
            old(self).holds(a),
        ensures
            final(self).spec_nodes() == old(self).spec_nodes().push(Node::Unary(UnaryOp::Abs, a@)),
            final(self).spec_n_vars() == old(self).spec_n_vars(),
            e@ == old(self).spec_nodes().len(),
    {
        self.unary(UnaryOp::Abs, a)
    }

    /// Records `min(a, b)`.
    pub fn min(&mut self, a: Expr, b: Expr) -> (e: Expr)
        requires
            old(self).holds(a),
            old(self).holds(b),
        ensures
            final(self).spec_nodes() == old(self).spec_nodes().push(Node::Binary(BinaryOp::Min, a@, b@)),
            final(self).spec_n_vars() == old(self).spec_n_vars(),
            e@ == old(self).spec_nodes().len(),
    {
        self.binary(BinaryOp::Min, a, b)
    }

    /// Records `max(a, b)`.
    pub fn max(&mut self, a: Expr, b: Expr) -> (e: Expr)
        requires
            old(self).holds(a),
            old(self).holds(b),
        ensures
            final(self).spec_nodes() == old(self).spec_nodes().push(Node::Binary(BinaryOp::Max, a@, b@)),
            final(self).spec_n_vars() == old(self).spec_n_vars(),
            e@ == old(self).spec_nodes().len(),
    {
        self.binary(BinaryOp::Max, a, b)
    }

    /// Records `powf(a, b)`.
    pub fn powf(&mut self, a: Expr, b: Expr) -> (e: Expr)
        requires
            old(self).holds(a),
            old(self).holds(b),
        ensures
            final(self).spec_nodes() == old(self).spec_nodes().push(Node::Binary(BinaryOp::Pow, a@, b@)),
            final(self).spec_n_vars() == old(self).spec_n_vars(),
            e@ == old(self).spec_nodes().len(),
    {
        self.binary(BinaryOp::Pow, a, b)
    }
}

/// `t` to the power `n`, as built by repeated squaring: `t^0` is one,
/// `t^-n` is one divided by `t^n`, and `t^n` squares `t^(n/2)`, times `t`
/// when `n` is odd.
pub open spec fn powi_term(t: Term, n: int) -> Term
    decreases if n >= 0 {
        n
    } else {
        -2 * n
    },
{
    if n == 0 {
        Term::Const(Bits64(ONE_BITS))
    } else if n == 1 {
        t
    } else if n < 0 {
        Term::Binary(BinaryOp::Div, Box::new(Term::Const(Bits64(ONE_BITS))), Box::new(powi_term(t, -n)))
    } else {
        let half = powi_term(t, n / 2);
        let sq = Term::Binary(BinaryOp::Mul, Box::new(half), Box::new(half));
        if n % 2 == 0 {
            sq
        } else {
            Term::Binary(BinaryOp::Mul, Box::new(sq), Box::new(t))
        }
    }
}

/// `s` read as a product: a multiplication is the integer product of its
/// operands, and any other subterm is the value `leaf` gives it.
pub open spec fn product_value(s: Term, leaf: spec_fn(Term) -> int) -> int
    decreases s,
{
    match s {
        Term::Binary(BinaryOp::Mul, l, r) => product_value(*l, leaf) * product_value(*r, leaf),
        _ => leaf(s),
    }
}

/// The integer power `t^n` that `powi` builds multiplies `t` by itself
/// exactly `n` times: read as a product, with any value for what is not a
/// multiplication, it is the `n`-th power of `t`, and one power more is
/// one factor `t` more. The zeroth power is the constant one.
pub proof fn lemma_powi_is_power(t: Term, n: int, leaf: spec_fn(Term) -> int)
    requires
        n >= 0,
    ensures
        n >= 1 ==> product_value(powi_term(t, n), leaf) == pow(product_value(t, leaf), n as nat),
        n >= 1 ==> product_value(powi_term(t, n + 1), leaf) == product_value(powi_term(t, n), leaf)
            * product_value(t, leaf),
        powi_term(t, 0) == Term::Const(Bits64(ONE_BITS)),
    decreases n,
{
    let v = product_value(t, leaf);
    if n >= 1 {
        lemma_powi_positive(t, n, leaf);
        lemma_powi_positive(t, n + 1, leaf);
        lemma_pow_adds(v, n as nat, 1);
        lemma_pow1(v);
    }
}

proof fn lemma_powi_positive(t: Term, n: int, leaf: spec_fn(Term) -> int)
    requires
        n >= 1,
    ensures
        product_value(powi_term(t, n), leaf) == pow(product_value(t, leaf), n as nat),
    decreases n,
{
    let v = product_value(t, leaf);
    if n == 1 {
        lemma_pow1(v);
    } else {
        let h = n / 2;
        lemma_powi_positive(t, h, leaf);
        lemma_pow_adds(v, h as nat, h as nat);
        let half = powi_term(t, h);
        let sq = Term::Binary(BinaryOp::Mul, Box::new(half), Box::new(half));
        assert(product_value(sq, leaf) == product_value(half, leaf) * product_value(half, leaf));
        if n % 2 == 1 {
            assert(powi_term(t, n) == Term::Binary(BinaryOp::Mul, Box::new(sq), Box::new(t)));
            assert(product_value(powi_term(t, n), leaf) == product_value(sq, leaf) * v);
            lemma_pow_adds(v, (h + h) as nat, 1);
            lemma_pow1(v);
            assert(n == h + h + 1);
        } else {
            assert(powi_term(t, n) == sq);
            assert(n == h + h);
        }
    }
}

/// A negative power is one divided by the positive power.
pub proof fn lemma_powi_negative(t: Term, n: int, leaf: spec_fn(Term) -> int)
    requires
        n <= -1,
    ensures
        powi_term(t, n) matches Term::Binary(BinaryOp::Div, one, p) && *one == Term::Const(Bits64(ONE_BITS))
            && product_value(*p, leaf) == pow(product_value(t, leaf), (-n) as nat),
{
    lemma_powi_positive(t, -n, leaf);
}

/// Nodes added after `v` leave what `v` computes unchanged.
proof fn lemma_node_term_extends(old: Seq<Node>, new: Seq<Node>, v: int)
    requires
        old.is_prefix_of(new),
        0 <= v < old.len(),
    ensures
        node_term(new, v) == node_term(old, v),
    decreases v,
{
    assert(new[v] == old[v]);
    match old[v] {
        Node::Unary(_, a) => {
            if a < v {
                lemma_node_term_extends(old, new, a as int);
            }
        },
        Node::Binary(_, a, b) => {
            if a < v && b < v {
                lemma_node_term_extends(old, new, a as int);
                lemma_node_term_extends(old, new, b as int);
            }
        },
        _ => {},
    }
}

impl Context {
    /// `a` to the integer power `n`, by repeated squaring.
    pub fn powi(&mut self, a: Expr, n: i32) -> (e: Expr)
        requires
            old(self).holds(a),
            n != i32::MIN,
        ensures
            old(self).spec_nodes().is_prefix_of(final(self).spec_nodes()),
            final(self).spec_n_vars() == old(self).spec_n_vars(),
            final(self).holds(e),
            final(self).term(e) == powi_term(old(self).term(a), n as int),
        decreases if n >= 0 {
            n as int
        } else {
            -2 * n
        },
    {
        let ghost n0 = self.spec_nodes();
        if n == 0 {
            self.constant(Bits64(ONE_BITS))
        } else if n == 1 {
            a
        } else if n < 0 {
            let p = self.powi(a, -n);
            let ghost n1 = self.spec_nodes();
            let one = self.constant(Bits64(ONE_BITS));
            let ghost n2 = self.spec_nodes();
            let e = self.binary(BinaryOp::Div, one, p);
            proof {
                lemma_node_term_extends(n0, n1, a@ as int);
                lemma_node_term_extends(n1, n2, p@ as int);
                lemma_node_term_extends(n2, self.spec_nodes(), p@ as int);
                lemma_node_term_extends(n2, self.spec_nodes(), one@ as int);
                assert(n0.is_prefix_of(self.spec_nodes()));
            }
            e
        } else {
            let half = self.powi(a, n / 2);
            let ghost n1 = self.spec_nodes();
            let sq = self.binary(BinaryOp::Mul, half, half);
            let ghost n2 = self.spec_nodes();
            proof {
                lemma_node_term_extends(n0, n1, a@ as int);
                lemma_node_term_extends(n1, n2, half@ as int);
                lemma_node_term_extends(n1, n2, a@ as int);
            }
            if n % 2 == 0 {
                proof {
                    assert(n0.is_prefix_of(self.spec_nodes()));
                }
                sq
            } else {
                let e = self.binary(BinaryOp::Mul, sq, a);
                proof {
                    lemma_node_term_extends(n2, self.spec_nodes(), sq@ as int);
                    lemma_node_term_extends(n2, self.spec_nodes(), a@ as int);
                    assert(n0.is_prefix_of(self.spec_nodes()));
                }
                e
            }
        }
    }
}

} // verus!
