//! A tape that records expressions as they are built, and its compilation
//! into a dense straight-line [`Function`].
pub mod jvp;

use vstd::prelude::*;

use crate::bits::Bits64;
use crate::function::{
    bin, inst_ok, inst_sym, insts_wf, push_inst, un, Function, Inst, InstructionData, Sym, zero_sym,
};
use crate::op::{BinaryOp, UnaryOp};

verus! {

/// Index of a value on a tape.
pub type Value = usize;

#[derive(Clone, Copy, PartialEq, Eq, Debug, Structural)]
pub enum ValueData {
    /// Input parameter, identified by a flat index in creation order.
    Param(u32),
    /// Constant, stored by bit pattern.
    Constant(Bits64),
    /// Unary expression, e.g. `x <- sin(a)`.
    Unary(UnaryOp, Value),
    /// Binary expression, e.g. `x <- a + b`.
    Binary(BinaryOp, Value, Value),
}

/// Records every value created through it, each after its operands.
pub struct Tape {
    nodes: Vec<ValueData>,
    num_params: u32,
    /// Identity of the tape, carried by every value recorded on it.
    id: u64,
}

/// A value recorded on a tape.
#[derive(Clone, Copy)]
pub struct Var {
    value: Value,
    tape: u64,
}

impl Var {
    pub closed spec fn view(self) -> Value {
        self.value
    }

    /// The identity of the tape that recorded the value.
    pub closed spec fn spec_tape(self) -> u64 {
        self.tape
    }

    /// The index of the value on its tape.
    pub fn id(&self) -> (r: Value)
        ensures
            r == self@,
    {
        self.value
    }
}

/// A new `RandomState`: `std::collections::hash_map::RandomState::new`,
/// whose keys differ from one call to the next. Nothing is stated of it.
#[verifier::external_body]
fn new_random_state() -> (s: std::collections::hash_map::RandomState) {
    std::collections::hash_map::RandomState::new()
}

/// A tape identity drawn from `s`: `BuildHasher::hash_one` of `0u8` under
/// its keys. Nothing is stated of the value, which depends on the keys.
#[verifier::external_body]
fn fresh_id(s: &std::collections::hash_map::RandomState) -> (r: u64) {
    std::hash::BuildHasher::hash_one(s, 0u8)
}

/// Node `d` at position `i` reads only earlier nodes and numbers its
/// parameter below `num_params`.
pub open spec fn node_ok(d: ValueData, i: int, num_params: nat) -> bool {
    match d {
        ValueData::Param(p) => p < num_params,
        ValueData::Constant(_) => true,
        ValueData::Unary(_, a) => a < i,
        ValueData::Binary(_, a, b) => a < i && b < i,
    }
}

pub open spec fn nodes_wf(nodes: Seq<ValueData>, num_params: nat) -> bool {
    forall|i: int| 0 <= i < nodes.len() ==> node_ok(#[trigger] nodes[i], i, num_params)
}

/// What node `v` computes, over the tape's parameters.
pub open spec fn node_sym(nodes: Seq<ValueData>, v: int) -> Sym
    decreases v,
{
    if v < 0 || v >= nodes.len() {
        zero_sym()
    } else {
        match nodes[v] {
            ValueData::Param(p) => Sym::Param(p),
            ValueData::Constant(c) => Sym::Const(c),
            ValueData::Unary(op, a) => if a < v {
                un(op, node_sym(nodes, a as int))
            } else {
                zero_sym()
            },
            ValueData::Binary(op, a, b) => if a < v && b < v {
                bin(op, node_sym(nodes, a as int), node_sym(nodes, b as int))
            } else {
                zero_sym()
            },
        }
    }
}

/// Node `w` is `v` or one of its operands, transitively.
pub open spec fn reaches(nodes: Seq<ValueData>, v: int, w: int) -> bool
    decreases v,
{
    if v < 0 || v >= nodes.len() {
        false
    } else if v == w {
        true
    } else {
        match nodes[v] {
            ValueData::Unary(_, a) => a < v && reaches(nodes, a as int, w),
            ValueData::Binary(_, a, b) => a < v && b < v && (reaches(nodes, a as int, w) || reaches(
                nodes,
                b as int,
                w,
            )),
            _ => false,
        }
    }
}

/// Some output reaches node `w`.
pub open spec fn reached_from(nodes: Seq<ValueData>, outputs: Seq<Var>, w: int) -> bool {
    exists|k: int| 0 <= k < outputs.len() && reaches(nodes, outputs[k]@ as int, w)
}

impl Tape {
    #[verifier::type_invariant]
    closed spec fn inv(self) -> bool {
        nodes_wf(self.nodes@, self.num_params as nat)
    }

    pub closed spec fn spec_nodes(self) -> Seq<ValueData> {
        self.nodes@
    }

    pub closed spec fn spec_num_params(self) -> nat {
        self.num_params as nat
    }

    /// The identity of the tape.
    pub closed spec fn spec_id(self) -> u64 {
        self.id
    }

    /// `v` was recorded on this tape.
    pub open spec fn holds(self, v: Var) -> bool {
        &&& v.spec_tape() == self.spec_id()
        &&& v@ < self.spec_nodes().len()
    }

    /// Whether `v` was recorded on this tape.
    pub fn owns(&self, v: Var) -> (r: bool)
        ensures
            r == self.holds(v),
    {
        v.tape == self.id && v.value < self.nodes.len()
    }

    /// What `v` computes, over the tape's parameters.
    pub open spec fn sym(self, v: Var) -> Sym {
        node_sym(self.spec_nodes(), v@ as int)
    }

    pub fn new() -> (t: Self)
        ensures
            t.spec_nodes() == Seq::<ValueData>::empty(),
            t.spec_num_params() == 0,
    {
        Tape { nodes: Vec::new(), num_params: 0, id: fresh_id(&new_random_state()) }
    }

    /// The recorded values, in order.
    pub fn nodes(&self) -> (r: &[ValueData])
        ensures
            r@ == self.spec_nodes(),
    {
        self.nodes.as_slice()
    }

    pub fn num_params(&self) -> (r: u32)
        ensures
            r == self.spec_num_params(),
    {
        self.num_params
    }

    fn push(&mut self, data: ValueData) -> (v: Var)
        requires
            node_ok(data, old(self).nodes@.len() as int, old(self).num_params as nat),
        ensures
            final(self).nodes@ == old(self).nodes@.push(data),
            final(self).num_params == old(self).num_params,
            final(self).id == old(self).id,
            v@ == old(self).nodes@.len(),
            v.spec_tape() == old(self).id,
    {
        proof {
            use_type_invariant(&*self);
        }
        let value = self.nodes.len();
        let mut nodes: Vec<ValueData> = Vec::new();
        std::mem::swap(&mut nodes, &mut self.nodes);
        nodes.push(data);
        proof {
            assert forall|i: int| 0 <= i < nodes@.len() implies node_ok(
                #[trigger] nodes@[i],
                i,
                self.num_params as nat,
            ) by {
                if i < value {
                    assert(nodes@[i] == old(self).nodes@[i]);
                }
            }
        }
        self.nodes = nodes;
        Var { value, tape: self.id }
    }

    /// A new parameter, numbered after the existing ones.
    pub fn param(&mut self) -> (v: Var)
        requires
            old(self).spec_num_params() < u32::MAX,
        ensures
            final(self).spec_nodes() == old(self).spec_nodes().push(ValueData::Param(old(self).spec_num_params() as u32)),
            final(self).spec_num_params() == old(self).spec_num_params() + 1,
            v@ == old(self).spec_nodes().len(),
            final(self).spec_id() == old(self).spec_id(),
            v.spec_tape() == old(self).spec_id(),
    {
        proof {
            use_type_invariant(&*self);
        }
        let p = self.num_params;
        self.num_params = p + 1;
        proof {
            assert forall|i: int| 0 <= i < self.nodes@.len() implies node_ok(
                #[trigger] self.nodes@[i],
                i,
                self.num_params as nat,
            ) by {
                assert(node_ok(old(self).nodes@[i], i, p as nat));
            }
        }
        self.push(ValueData::Param(p))
    }

    /// A new constant, given by its bit pattern.
    pub fn constant(&mut self, x: Bits64) -> (v: Var)
        ensures
            final(self).spec_nodes() == old(self).spec_nodes().push(ValueData::Constant(x)),
            final(self).spec_num_params() == old(self).spec_num_params(),
            v@ == old(self).spec_nodes().len(),
            final(self).spec_id() == old(self).spec_id(),
            v.spec_tape() == old(self).spec_id(),
    {
        self.push(ValueData::Constant(x))
    }

    /// Records `op(a)`.
    pub fn unary(&mut self, op: UnaryOp, a: Var) -> (v: Var)
        requires
            old(self).holds(a),
        ensures
            final(self).spec_nodes() == old(self).spec_nodes().push(ValueData::Unary(op, a@)),
            final(self).spec_num_params() == old(self).spec_num_params(),
            v@ == old(self).spec_nodes().len(),
            final(self).spec_id() == old(self).spec_id(),
            v.spec_tape() == old(self).spec_id(),
    {
        self.push(ValueData::Unary(op, a.value))
    }

    /// Records `op(a, b)`.
    pub fn binary(&mut self, op: BinaryOp, a: Var, b: Var) -> (v: Var)
        requires
            old(self).holds(a),
            old(self).holds(b),
        ensures
            final(self).spec_nodes() == old(self).spec_nodes().push(ValueData::Binary(op, a@, b@)),
            final(self).spec_num_params() == old(self).spec_num_params(),
            v@ == old(self).spec_nodes().len(),
            final(self).spec_id() == old(self).spec_id(),
            v.spec_tape() == old(self).spec_id(),
    {
        self.push(ValueData::Binary(op, a.value, b.value))
    }
}

/// `w` is an operand of live node `v`.
pub open spec fn operand_of(nodes: Seq<ValueData>, v: int, w: int) -> bool {
    match nodes[v] {
        ValueData::Unary(_, a) => a == w,
        ValueData::Binary(_, a, b) => a == w || b == w,
        _ => false,
    }
}

/// Whatever reaches a node also reaches its operands.
pub proof fn lemma_reaches_operand(nodes: Seq<ValueData>, num_params: nat, o: int, v: int, w: int)
    requires
        nodes_wf(nodes, num_params),
        0 <= v < nodes.len(),
        reaches(nodes, o, v),
        operand_of(nodes, v, w),
    ensures
        reaches(nodes, o, w),
    decreases o,
{
    assert(node_ok(nodes[v], v, num_params));
    if o == v {
        match nodes[v] {
            ValueData::Unary(_, a) => {
                assert(reaches(nodes, a as int, a as int));
            },
            ValueData::Binary(_, a, b) => {
                assert(reaches(nodes, a as int, a as int));
                assert(reaches(nodes, b as int, b as int));
            },
            _ => {},
        }
    } else {
        match nodes[o] {
            ValueData::Unary(_, a) => {
                lemma_reaches_operand(nodes, num_params, a as int, v, w);
            },
            ValueData::Binary(_, a, b) => {
                if reaches(nodes, a as int, v) {
                    lemma_reaches_operand(nodes, num_params, a as int, v, w);
                } else {
                    lemma_reaches_operand(nodes, num_params, b as int, v, w);
                }
            },
            _ => {},
        }
    }
}

/// Marks the nodes reachable from `outputs`: every marked node is reachable,
/// and the operands of every marked node are marked.
fn mark_live(nodes: &Vec<ValueData>, Ghost(num_params): Ghost<nat>, outputs: &[Var]) -> (live: Vec<bool>)
    requires
        nodes_wf(nodes@, num_params),
        forall|k: int| 0 <= k < outputs@.len() ==> #[trigger] outputs@[k]@ < nodes@.len(),
    ensures
        live@.len() == nodes@.len(),
        forall|w: int| 0 <= w < nodes@.len() && #[trigger] live@[w] ==> reached_from(nodes@, outputs@, w),
        forall|k: int| 0 <= k < outputs@.len() ==> live@[#[trigger] outputs@[k]@ as int],
        forall|v: int, w: int|
            0 <= v < nodes@.len() && #[trigger] live@[v] && #[trigger] operand_of(nodes@, v, w) ==> 0 <= w
                < nodes@.len() && live@[w],
{
    let n = nodes.len();
    let mut live: Vec<bool> = Vec::new();
    let mut i: usize = 0;
    while i < n
        invariant
            n == nodes@.len(),
            i <= n,
            live@.len() == i,
            forall|j: int| 0 <= j < i ==> !#[trigger] live@[j],
        decreases n - i,
    {
        live.push(false);
        i += 1;
    }
    let mut k: usize = 0;
    while k < outputs.len()
        invariant
            n == nodes@.len(),
            live@.len() == n,
            k <= outputs@.len(),
            forall|k2: int| 0 <= k2 < outputs@.len() ==> #[trigger] outputs@[k2]@ < nodes@.len(),
            forall|w: int| 0 <= w < n && #[trigger] live@[w] ==> reached_from(nodes@, outputs@, w),
            forall|k2: int| 0 <= k2 < k ==> live@[#[trigger] outputs@[k2]@ as int],
        decreases outputs@.len() - k,
    {
        let o = outputs[k].value;
        proof {
            assert(o == outputs@[k as int]@);
            assert(reaches(nodes@, o as int, o as int));
        }
        let ghost before = live@;
        live.set(o, true);
        proof {
            assert forall|k2: int| 0 <= k2 < k + 1 implies live@[#[trigger] outputs@[k2]@ as int] by {
                if k2 < k {
                    assert(before[outputs@[k2]@ as int]);
                }
            }
        }
        k += 1;
    }
    // A reverse sweep propagates liveness to all operands, since operands
    // precede the nodes that read them.
    let mut idx = n;
    while idx > 0
        invariant
            nodes_wf(nodes@, num_params),
            n == nodes@.len(),
            live@.len() == n,
            idx <= n,
            forall|k2: int| 0 <= k2 < outputs@.len() ==> #[trigger] outputs@[k2]@ < nodes@.len(),
            forall|w: int| 0 <= w < n && #[trigger] live@[w] ==> reached_from(nodes@, outputs@, w),
            forall|k2: int| 0 <= k2 < outputs@.len() ==> live@[#[trigger] outputs@[k2]@ as int],
            forall|v: int, w: int|
                idx <= v < n && #[trigger] live@[v] && #[trigger] operand_of(nodes@, v, w) ==> 0 <= w < n
                    && live@[w],
        decreases idx,
    {
        idx -= 1;
        if live[idx] {
            proof {
                assert(node_ok(nodes@[idx as int], idx as int, num_params));
            }
            let ghost before = live@;
            match nodes[idx] {
                ValueData::Unary(_, a) => {
                    proof {
                        let k0 = choose|k0: int|
                            0 <= k0 < outputs@.len() && reaches(nodes@, outputs@[k0]@ as int, idx as int);
                        lemma_reaches_operand(nodes@, num_params, outputs@[k0]@ as int, idx as int, a as int);
                    }
                    live.set(a, true);
                },
                ValueData::Binary(_, a, b) => {
                    proof {
                        let k0 = choose|k0: int|
                            0 <= k0 < outputs@.len() && reaches(nodes@, outputs@[k0]@ as int, idx as int);
                        lemma_reaches_operand(nodes@, num_params, outputs@[k0]@ as int, idx as int, a as int);
                        lemma_reaches_operand(nodes@, num_params, outputs@[k0]@ as int, idx as int, b as int);
                    }
                    live.set(a, true);
                    live.set(b, true);
                },
                _ => {},
            }
            proof {
                assert forall|v: int, w: int|
                    idx <= v < n && #[trigger] live@[v] && #[trigger] operand_of(nodes@, v, w) implies 0 <= w < n
                    && live@[w] by {
                    if v > idx {
                        assert(before[v]);
                        assert(before[w]);
                    }
                }
                assert forall|w: int| 0 <= w < n && #[trigger] live@[w] implies reached_from(nodes@, outputs@, w) by {
                    if before[w] {
                    }
                }
                assert forall|k2: int| 0 <= k2 < outputs@.len() implies live@[#[trigger] outputs@[k2]@ as int] by {
                    assert(before[outputs@[k2]@ as int]);
                }
            }
        }
    }
    live
}

/// `w` is one of `inputs`.
pub open spec fn is_input(inputs: Seq<Var>, w: int) -> bool {
    exists|i: int| 0 <= i < inputs.len() && #[trigger] inputs[i]@ == w
}

/// The nodes below `i` that `outputs` depend on, other than the inputs, in
/// tape order.
pub open spec fn kept_upto(nodes: Seq<ValueData>, inputs: Seq<Var>, outputs: Seq<Var>, i: int) -> Seq<int>
    decreases i,
{
    if i <= 0 {
        Seq::empty()
    } else {
        kept_upto(nodes, inputs, outputs, i - 1) + if reached_from(nodes, outputs, i - 1) && !is_input(
            inputs,
            i - 1,
        ) {
            seq![i - 1]
        } else {
            Seq::empty()
        }
    }
}

/// The instruction that node `w` becomes: input `i` is instruction `i`,
/// and the kept nodes follow the inputs in order.
pub open spec fn inst_of(inputs: Seq<Var>, kept: Seq<int>, w: int) -> int {
    if is_input(inputs, w) {
        choose|i: int| 0 <= i < inputs.len() && inputs[i]@ == w
    } else {
        inputs.len() + choose|m: int| 0 <= m < kept.len() && kept[m] == w
    }
}

/// The instruction for kept node `d`, its operands renumbered; a kept node
/// is never a parameter.
pub open spec fn compiled_inst(d: ValueData, inputs: Seq<Var>, kept: Seq<int>) -> InstructionData {
    match d {
        ValueData::Param(_) => InstructionData::Constant(Bits64(0)),
        ValueData::Constant(c) => InstructionData::Constant(c),
        ValueData::Unary(op, a) => InstructionData::Unary(op, inst_of(inputs, kept, a as int) as Inst),
        ValueData::Binary(op, a, b) => InstructionData::Binary(
            op,
            inst_of(inputs, kept, a as int) as Inst,
            inst_of(inputs, kept, b as int) as Inst,
        ),
    }
}

/// The instruction for node `d` with operands renumbered by `remap`.
pub open spec fn remapped(d: ValueData, remap: Seq<Option<Inst>>) -> InstructionData {
    match d {
        ValueData::Param(_) => InstructionData::Constant(Bits64(0)),
        ValueData::Constant(c) => InstructionData::Constant(c),
        ValueData::Unary(op, a) => match remap[a as int] {
            Some(ra) => InstructionData::Unary(op, ra),
            None => InstructionData::Constant(Bits64(0)),
        },
        ValueData::Binary(op, a, b) => match (remap[a as int], remap[b as int]) {
            (Some(ra), Some(rb)) => InstructionData::Binary(op, ra, rb),
            _ => InstructionData::Constant(Bits64(0)),
        },
    }
}

/// A live node's operands are numbered as `inst_of` says, and so are the
/// outputs.
proof fn lemma_compiled_exact(
    tape: Tape,
    inputs: Seq<Var>,
    outputs: Seq<Var>,
    live: Seq<bool>,
    remap: Seq<Option<Inst>>,
    origin: Seq<int>,
    insts: Seq<InstructionData>,
    rets: Seq<Inst>,
)
    requires
        tape.inv(),
        tape.compile_ok(inputs, outputs),
        origin == tape.kept(inputs, outputs),
        live.len() == tape.spec_nodes().len(),
        remap.len() == tape.spec_nodes().len(),
        insts.len() == inputs.len() + origin.len(),
        forall|k: int| 0 <= k < outputs.len() ==> live[#[trigger] outputs[k]@ as int],
        forall|v: int, w: int|
            0 <= v < tape.spec_nodes().len() && #[trigger] live[v] && #[trigger] operand_of(tape.spec_nodes(), v, w)
                ==> 0 <= w < tape.spec_nodes().len() && live[w],
        forall|w: int| 0 <= w < tape.spec_nodes().len() && #[trigger] live[w] ==> remap[w] is Some,
        forall|w: int|
            0 <= w < tape.spec_nodes().len() && (#[trigger] remap[w]) is Some ==> remap[w]->0 < insts.len(),
        forall|j: int| 0 <= j < inputs.len() ==> #[trigger] remap[inputs[j]@ as int] == Some(j as Inst),
        forall|m1: int, m2: int| 0 <= m1 < m2 < origin.len() ==> origin[m1] < origin[m2],
        forall|m: int|
            0 <= m < origin.len() ==> 0 <= #[trigger] origin[m] < tape.spec_nodes().len() && remap[origin[m]] == Some(
                (inputs.len() + m) as Inst,
            ) && live[origin[m]] && insts[inputs.len() + m] == remapped(tape.spec_nodes()[origin[m]], remap),
        forall|w: int|
            0 <= w < tape.spec_nodes().len() && (#[trigger] remap[w]) is Some ==> is_input(inputs, w) || (
            inputs.len() <= remap[w]->0 && origin[remap[w]->0 - inputs.len()] == w),
        rets.len() == outputs.len(),
        forall|k: int| 0 <= k < outputs.len() ==> Some(#[trigger] rets[k]) == remap[outputs[k]@ as int],
    ensures
        forall|m: int|
            0 <= m < origin.len() ==> #[trigger] insts[inputs.len() + m] == compiled_inst(
                tape.spec_nodes()[origin[m]],
                inputs,
                origin,
            ),
        forall|k: int| 0 <= k < outputs.len() ==> #[trigger] rets[k] == inst_of(inputs, origin, outputs[k]@ as int),
{
    let nodes = tape.spec_nodes();
    let ni = inputs.len();
    // A live node is numbered as `inst_of` says.
    assert forall|w: int| 0 <= w < nodes.len() && #[trigger] live[w] implies remap[w]->0 == inst_of(inputs, origin, w) by {
        if is_input(inputs, w) {
            let j = choose|j: int| 0 <= j < ni && #[trigger] inputs[j]@ == w;
            assert(remap[inputs[j]@ as int] == Some(j as Inst));
            let c = choose|i: int| 0 <= i < ni && inputs[i]@ == w;
            if c != j {
                if c < j {
                    assert(inputs[c]@ != inputs[j]@);
                } else {
                    assert(inputs[j]@ != inputs[c]@);
                }
            }
        } else {
            let m = remap[w]->0 - ni;
            assert(origin[m] == w);
            assert(0 <= m < origin.len());
            let c = choose|c: int| 0 <= c < origin.len() && origin[c] == w;
            if c < m {
                assert(origin[c] < origin[m]);
            } else if m < c {
                assert(origin[m] < origin[c]);
            }
        }
    }
    assert forall|m: int| 0 <= m < origin.len() implies #[trigger] insts[ni + m] == compiled_inst(
        nodes[origin[m]],
        inputs,
        origin,
    ) by {
        let w = origin[m];
        assert(live[w]);
        match nodes[w] {
            ValueData::Unary(_, a) => {
                assert(operand_of(nodes, w, a as int));
                assert(live[a as int]);
            },
            ValueData::Binary(_, a, b) => {
                assert(operand_of(nodes, w, a as int));
                assert(operand_of(nodes, w, b as int));
                assert(live[a as int]);
                assert(live[b as int]);
            },
            _ => {},
        }
    }
    assert forall|k: int| 0 <= k < outputs.len() implies #[trigger] rets[k] == inst_of(inputs, origin, outputs[k]@ as int) by {
        assert(tape.holds(outputs[k]));
        assert(live[outputs[k]@ as int]);
    }
}

impl Tape {
    /// What each of `inputs` computes.
    pub open spec fn input_syms(self, inputs: Seq<Var>) -> Seq<Sym> {
        inputs.map_values(|v: Var| self.sym(v))
    }

    /// Every parameter reached from `outputs` is among `inputs`, which are
    /// distinct parameters of this tape.
    pub open spec fn compile_ok(self, inputs: Seq<Var>, outputs: Seq<Var>) -> bool {
        &&& inputs.len() <= u32::MAX
        &&& forall|i: int| 0 <= i < inputs.len() ==> self.holds(#[trigger] inputs[i])
        &&& forall|k: int| 0 <= k < outputs.len() ==> self.holds(#[trigger] outputs[k])
        &&& forall|i: int| 0 <= i < inputs.len() ==> (#[trigger] self.spec_nodes()[inputs[i]@ as int]) is Param
        &&& forall|i: int, j: int| 0 <= i < j < inputs.len() ==> #[trigger] inputs[i]@ != #[trigger] inputs[j]@
        &&& forall|w: int|
            0 <= w < self.spec_nodes().len() && (#[trigger] self.spec_nodes()[w]) is Param && reached_from(
                self.spec_nodes(),
                outputs,
                w,
            ) ==> exists|i: int| 0 <= i < inputs.len() && inputs[i]@ == w
    }

    /// The nodes that `outputs` depend on, other than the inputs, in tape
    /// order.
    pub open spec fn kept(self, inputs: Seq<Var>, outputs: Seq<Var>) -> Seq<int> {
        kept_upto(self.spec_nodes(), inputs, outputs, self.spec_nodes().len() as int)
    }

    /// `f` is the compilation of `outputs` as a function of `inputs`:
    /// instruction `i` is parameter `i` for each input, the kept nodes
    /// follow in tape order with their operands renumbered, return `k` is
    /// the instruction of output `k`, and it computes that output when the
    /// parameters are the inputs.
    pub open spec fn compiles_to(self, inputs: Seq<Var>, outputs: Seq<Var>, f: Function) -> bool {
        let kept = self.kept(inputs, outputs);
        &&& f.wf()
        &&& f.num_params == inputs.len()
        &&& f.insts@.len() == inputs.len() + kept.len()
        &&& forall|i: int| 0 <= i < inputs.len() ==> #[trigger] f.insts@[i] == InstructionData::Param(i as u32)
        &&& forall|m: int|
            0 <= m < kept.len() ==> #[trigger] f.insts@[inputs.len() + m] == compiled_inst(
                self.spec_nodes()[kept[m]],
                inputs,
                kept,
            )
        &&& f.returns@.len() == outputs.len()
        &&& forall|k: int| 0 <= k < outputs.len() ==> #[trigger] f.returns@[k] == inst_of(inputs, kept, outputs[k]@ as int)
        &&& forall|k: int|
            0 <= k < outputs.len() ==> #[trigger] inst_sym(f.insts@, f.returns@[k] as int, self.input_syms(inputs))
                == self.sym(outputs[k])
    }

    /// Compiles the part of the tape that `outputs` depend on into a
    /// function of `inputs`: parameter `i` of the function is `inputs[i]`,
    /// and the reachable nodes follow in tape order.
    #[verifier::spinoff_prover]
    #[verifier::rlimit(100)]
    pub fn compile(&self, inputs: &[Var], outputs: &[Var]) -> (f: Function)
        requires
            self.compile_ok(inputs@, outputs@),
        ensures
            self.compiles_to(inputs@, outputs@, f),
    {
        proof {
            use_type_invariant(self);
        }
        let ghost np = self.num_params as nat;
        let ghost env = self.input_syms(inputs@);
        let ghost ni = inputs@.len();
        let nodes = &self.nodes;
        let n = nodes.len();
        let live = mark_live(nodes, Ghost(np), outputs);
        proof {
            assert forall|x: int| 0 <= x < n implies #[trigger] live@[x] == reached_from(nodes@, outputs@, x) by {
                if reached_from(nodes@, outputs@, x) {
                    let k = choose|k: int| 0 <= k < outputs@.len() && reaches(nodes@, outputs@[k]@ as int, x);
                    assert(self.holds(outputs@[k]));
                    lemma_reached_marked(nodes@, np, live@, outputs@[k]@ as int, x);
                }
            }
        }
        let mut insts: Vec<InstructionData> = Vec::new();
        let mut remap: Vec<Option<Inst>> = Vec::new();
        let mut i: usize = 0;
        while i < n
            invariant
                n == nodes@.len(),
                i <= n,
                remap@.len() == i,
                forall|j: int| 0 <= j < i ==> #[trigger] remap@[j] is None,
            decreases n - i,
        {
            remap.push(None);
            i += 1;
        }
        // Parameters first, numbered by their position in `inputs`.
        let mut i: usize = 0;
        while i < inputs.len()
            invariant
                self.inv(),
                nodes == &self.nodes,
                self.compile_ok(inputs@, outputs@),
                env == self.input_syms(inputs@),
                ni == inputs@.len(),
                n == nodes@.len(),
                i <= inputs@.len(),
                remap@.len() == n,
                insts@.len() == i,
                insts_wf(insts@, ni),
                forall|j: int| 0 <= j < i ==> insts@[j] == InstructionData::Param(j as u32),
                forall|w: int|
                    0 <= w < n ==> match #[trigger] remap@[w] {
                        Some(j) => j < insts@.len() && inst_sym(insts@, j as int, env) == node_sym(nodes@, w),
                        None => true,
                    },
                forall|j: int| 0 <= j < i ==> #[trigger] remap@[inputs@[j]@ as int] == Some(j as Inst),
                forall|w: int|
                    0 <= w < n && (#[trigger] remap@[w]) is Some ==> exists|j: int| 0 <= j < i && inputs@[j]@ == w,
            decreases inputs@.len() - i,
        {
            let v = inputs[i].value;
            proof {
                assert(self.holds(inputs@[i as int]));
                assert(remap@[v as int] is None) by {
                    if remap@[v as int] is Some {
                        let j = choose|j: int| 0 <= j < i && inputs@[j]@ == v;
                        assert(inputs@[j]@ != inputs@[i as int]@);
                    }
                }
            }
            let ghost s0 = insts@;
            let ghost r0 = remap@;
            let j = push_inst(&mut insts, InstructionData::Param(i as u32), Ghost(env), Ghost(ni));
            proof {
                assert(nodes@[v as int] is Param);
                assert(env[i as int] == self.sym(inputs@[i as int]));
            }
            remap.set(v, Some(j));
            proof {
                assert forall|w: int| 0 <= w < n implies match #[trigger] remap@[w] {
                    Some(j2) => j2 < insts@.len() && inst_sym(insts@, j2 as int, env) == node_sym(nodes@, w),
                    None => true,
                } by {
                    if w != v {
                        if let Some(j2) = remap@[w] {
                            assert(inst_sym(insts@, j2 as int, env) == inst_sym(s0, j2 as int, env));
                        }
                    }
                }
                assert forall|j2: int| 0 <= j2 < i + 1 implies #[trigger] remap@[inputs@[j2]@ as int] == Some(j2 as Inst) by {
                    if j2 < i {
                        assert(inputs@[j2]@ != inputs@[i as int]@);
                        assert(remap@[inputs@[j2]@ as int] == r0[inputs@[j2]@ as int]);
                    }
                }
                assert forall|w: int|
                    0 <= w < n && (#[trigger] remap@[w]) is Some implies exists|j2: int| 0 <= j2 < i + 1 && inputs@[j2]@ == w by {
                    if w == v {
                        assert(inputs@[i as int]@ == w);
                    }
                }
            }
            i += 1;
        }
        // Then every live node that is not an input, in tape order.
        let ghost mut origin: Seq<int> = Seq::empty();
        let mut idx: usize = 0;
        while idx < n
            invariant
                self.inv(),
                nodes == &self.nodes,
                self.compile_ok(inputs@, outputs@),
                env == self.input_syms(inputs@),
                ni == inputs@.len(),
                n == nodes@.len(),
                np == self.num_params,
                idx <= n,
                remap@.len() == n,
                live@.len() == n,
                insts_wf(insts@, ni),
                forall|j: int| 0 <= j < ni ==> insts@[j] == InstructionData::Param(j as u32),
                forall|w: int| 0 <= w < n ==> #[trigger] live@[w] == reached_from(nodes@, outputs@, w),
                forall|k: int| 0 <= k < outputs@.len() ==> live@[#[trigger] outputs@[k]@ as int],
                forall|v: int, w: int|
                    0 <= v < n && #[trigger] live@[v] && #[trigger] operand_of(nodes@, v, w) ==> 0 <= w < n
                        && live@[w],
                forall|w: int|
                    0 <= w < n ==> match #[trigger] remap@[w] {
                        Some(j) => j < insts@.len() && inst_sym(insts@, j as int, env) == node_sym(nodes@, w),
                        None => true,
                    },
                forall|w: int| 0 <= w < idx && #[trigger] live@[w] ==> remap@[w] is Some,
                forall|j: int| 0 <= j < ni ==> #[trigger] remap@[inputs@[j]@ as int] == Some(j as Inst),
                origin == kept_upto(nodes@, inputs@, outputs@, idx as int),
                insts@.len() == ni + origin.len(),
                forall|m1: int, m2: int| 0 <= m1 < m2 < origin.len() ==> origin[m1] < origin[m2],
                forall|m: int|
                    0 <= m < origin.len() ==> 0 <= #[trigger] origin[m] < idx && remap@[origin[m]] == Some(
                        (ni + m) as Inst,
                    ) && live@[origin[m]] && insts@[ni + m] == remapped(nodes@[origin[m]], remap@),
                forall|w: int|
                    0 <= w < n && (#[trigger] remap@[w]) is Some ==> is_input(inputs@, w) || (w < idx && ni
                        <= remap@[w]->0 && origin[remap@[w]->0 - ni] == w),
            decreases n - idx,
        {
            let ghost o0 = origin;
            proof {
                assert(is_input(inputs@, idx as int) ==> remap@[idx as int] is Some) by {
                    if is_input(inputs@, idx as int) {
                        let j = choose|j: int| 0 <= j < inputs@.len() && #[trigger] inputs@[j]@ == idx;
                        assert(remap@[inputs@[j]@ as int] == Some(j as Inst));
                    }
                }
            }
            if live[idx] && remap[idx].is_none() {
                proof {
                    assert(node_ok(nodes@[idx as int], idx as int, np));
                    assert(!is_input(inputs@, idx as int));
                }
                let ghost s0 = insts@;
                let data = match nodes[idx] {
                    ValueData::Param(_) => {
                        proof {
                            let i0 = choose|i0: int| 0 <= i0 < ni && inputs@[i0]@ == idx;
                            assert(remap@[inputs@[i0]@ as int] is Some);
                        }
                        // Unreachable: live parameters are inputs, mapped above.
                        InstructionData::Constant(Bits64(0))
                    },
                    ValueData::Constant(bits) => InstructionData::Constant(bits),
                    ValueData::Unary(op, a) => {
                        proof {
                            assert(operand_of(nodes@, idx as int, a as int));
                        }
                        match remap[a] {
                            Some(ra) => InstructionData::Unary(op, ra),
                            None => InstructionData::Constant(Bits64(0)),
                        }
                    },
                    ValueData::Binary(op, a, b) => {
                        proof {
                            assert(operand_of(nodes@, idx as int, a as int));
                            assert(operand_of(nodes@, idx as int, b as int));
                        }
                        match (remap[a], remap[b]) {
                            (Some(ra), Some(rb)) => InstructionData::Binary(op, ra, rb),
                            _ => InstructionData::Constant(Bits64(0)),
                        }
                    },
                };
                proof {
                    assert(data == remapped(nodes@[idx as int], remap@));
                }
                let j = push_inst(&mut insts, data, Ghost(env), Ghost(ni));
                let ghost r0 = remap@;
                remap.set(idx, Some(j));
                proof {
                    origin = origin.push(idx as int);
                    assert(origin =~= kept_upto(nodes@, inputs@, outputs@, idx + 1));
                    assert forall|j2: int| 0 <= j2 < ni implies #[trigger] remap@[inputs@[j2]@ as int] == Some(j2 as Inst) by {
                        assert(r0[inputs@[j2]@ as int] == Some(j2 as Inst));
                    }
                    assert forall|w: int| 0 <= w < n implies match #[trigger] remap@[w] {
                        Some(j2) => j2 < insts@.len() && inst_sym(insts@, j2 as int, env) == node_sym(nodes@, w),
                        None => true,
                    } by {
                        if w != idx {
                            if let Some(j2) = remap@[w] {
                                assert(inst_sym(insts@, j2 as int, env) == inst_sym(s0, j2 as int, env));
                            }
                        }
                    }
                    assert forall|m: int|
                        0 <= m < origin.len() implies 0 <= #[trigger] origin[m] < idx + 1 && remap@[origin[m]] == Some(
                        (ni + m) as Inst,
                    ) && live@[origin[m]] && insts@[ni + m] == remapped(nodes@[origin[m]], remap@) by {
                        if m < o0.len() {
                            let w = o0[m];
                            assert(origin[m] == w);
                            assert(remap@[w] == r0[w]);
                            assert(insts@[ni + m] == s0[ni + m]);
                            assert(node_ok(nodes@[w], w, np));
                            match nodes@[w] {
                                ValueData::Unary(_, a) => {
                                    assert(remap@[a as int] == r0[a as int]);
                                },
                                ValueData::Binary(_, a, b) => {
                                    assert(remap@[a as int] == r0[a as int]);
                                    assert(remap@[b as int] == r0[b as int]);
                                },
                                _ => {},
                            }
                        } else {
                            assert(node_ok(nodes@[idx as int], idx as int, np));
                            match nodes@[idx as int] {
                                ValueData::Unary(_, a) => {
                                    assert(remap@[a as int] == r0[a as int]);
                                },
                                ValueData::Binary(_, a, b) => {
                                    assert(remap@[a as int] == r0[a as int]);
                                    assert(remap@[b as int] == r0[b as int]);
                                },
                                _ => {},
                            }
                        }
                    }
                    assert forall|w: int|
                        0 <= w < n && (#[trigger] remap@[w]) is Some implies is_input(inputs@, w) || (w < idx + 1 && ni
                        <= remap@[w]->0 && origin[remap@[w]->0 - ni] == w) by {
                        if w != idx {
                            assert(remap@[w] == r0[w]);
                        }
                    }
                }
            } else {
                proof {
                    assert(kept_upto(nodes@, inputs@, outputs@, idx + 1) =~= kept_upto(
                        nodes@,
                        inputs@,
                        outputs@,
                        idx as int,
                    ));
                }
            }
            idx += 1;
        }
        let mut rets: Vec<Inst> = Vec::new();
        let mut k: usize = 0;
        while k < outputs.len()
            invariant
                n == nodes@.len(),
                remap@.len() == n,
                live@.len() == n,
                k <= outputs@.len(),
                forall|k2: int| 0 <= k2 < outputs@.len() ==> live@[#[trigger] outputs@[k2]@ as int],
                forall|k2: int| 0 <= k2 < outputs@.len() ==> #[trigger] outputs@[k2]@ < n,
                forall|w: int| 0 <= w < n && #[trigger] live@[w] ==> remap@[w] is Some,
                forall|w: int|
                    0 <= w < n ==> match #[trigger] remap@[w] {
                        Some(j) => j < insts@.len() && inst_sym(insts@, j as int, env) == node_sym(nodes@, w),
                        None => true,
                    },
                rets@.len() == k,
                forall|k2: int| 0 <= k2 < k ==> Some(#[trigger] rets@[k2]) == remap@[outputs@[k2]@ as int],
            decreases outputs@.len() - k,
        {
            let o = outputs[k].value;
            proof {
                assert(live@[outputs@[k as int]@ as int]);
            }
            match remap[o] {
                Some(r) => rets.push(r),
                None => rets.push(0),
            }
            k += 1;
        }
        let f = Function { insts, num_params: inputs.len() as u32, returns: rets };
        proof {
            assert(self.spec_nodes() == nodes@);
            assert(origin == self.kept(inputs@, outputs@));
            lemma_compiled_exact(*self, inputs@, outputs@, live@, remap@, origin, f.insts@, f.returns@);
            assert forall|k2: int|
                0 <= k2 < outputs@.len() implies #[trigger] inst_sym(f.insts@, f.returns@[k2] as int, env)
                == self.sym(outputs@[k2]) by {
                assert(f.returns@[k2] < f.insts@.len());
            }
            assert forall|k2: int| 0 <= k2 < f.returns@.len() implies #[trigger] f.returns@[k2] < f.insts@.len() by {
                assert(Some(f.returns@[k2]) == remap@[outputs@[k2]@ as int]);
            }
        }
        f
    }
}


/// A marking closed under operands that holds `o` holds all `o` reaches.
pub(crate) proof fn lemma_reached_marked(nodes: Seq<ValueData>, num_params: nat, live: Seq<bool>, o: int, w: int)
    requires
        nodes_wf(nodes, num_params),
        live.len() == nodes.len(),
        forall|v: int, x: int|
            0 <= v < nodes.len() && #[trigger] live[v] && #[trigger] operand_of(nodes, v, x) ==> 0 <= x
                < nodes.len() && live[x],
        0 <= o < nodes.len(),
        live[o],
        reaches(nodes, o, w),
    ensures
        live[w],
    decreases o,
{
    if o != w {
        assert(node_ok(nodes[o], o, num_params));
        match nodes[o] {
            ValueData::Unary(_, a) => {
                assert(operand_of(nodes, o, a as int));
                lemma_reached_marked(nodes, num_params, live, a as int, w);
            },
            ValueData::Binary(_, a, b) => {
                assert(operand_of(nodes, o, a as int));
                assert(operand_of(nodes, o, b as int));
                if reaches(nodes, a as int, w) {
                    lemma_reached_marked(nodes, num_params, live, a as int, w);
                } else {
                    lemma_reached_marked(nodes, num_params, live, b as int, w);
                }
            },
            _ => {},
        }
    }
}

/// Why a tape cannot be compiled for the given inputs and outputs.
#[derive(Clone, Copy, PartialEq, Eq, Debug, Structural)]
pub enum CompileError {
    /// A value listed in the inputs or the outputs was recorded on
    /// another tape.
    ForeignVar,
    /// Input `i` is not a parameter.
    InputNotParameter(usize),
    /// Input `i` was already listed.
    InputListedTwice(usize),
    /// The outputs depend on a parameter not listed in the inputs.
    UnlistedParameter,
}

impl Tape {
    /// The first `i` inputs are distinct parameters.
    pub open spec fn inputs_ok_upto(self, inputs: Seq<Var>, i: int) -> bool {
        &&& forall|j: int| 0 <= j < i ==> (#[trigger] self.spec_nodes()[inputs[j]@ as int]) is Param
        &&& forall|j: int, k: int| 0 <= j < k < i ==> #[trigger] inputs[j]@ != #[trigger] inputs[k]@
    }

    /// Compiles as `compile` does where the inputs are distinct parameters
    /// covering every parameter the outputs depend on; otherwise says which
    /// check failed first: the inputs in order, then the parameters.
    pub fn try_compile(&self, inputs: &[Var], outputs: &[Var]) -> (r: Result<Function, CompileError>)
        requires
            inputs@.len() <= u32::MAX,
        ensures
            r == Err::<Function, CompileError>(CompileError::ForeignVar) <==> !self.all_held(inputs@, outputs@),
            r is Ok <==> self.all_held(inputs@, outputs@) && self.compile_ok(inputs@, outputs@),
            r matches Ok(f) ==> self.compiles_to(inputs@, outputs@, f),
            r matches Err(CompileError::InputNotParameter(i)) ==> i < inputs@.len() && self.inputs_ok_upto(inputs@, i as int)
                && !(self.spec_nodes()[inputs@[i as int]@ as int] is Param),
            r matches Err(CompileError::InputListedTwice(i)) ==> i < inputs@.len() && self.inputs_ok_upto(inputs@, i as int)
                && self.spec_nodes()[inputs@[i as int]@ as int] is Param && exists|j: int| 0 <= j < i && inputs@[j]@ == inputs@[i as int]@,
            r matches Err(CompileError::UnlistedParameter) ==> self.inputs_ok_upto(inputs@, inputs@.len() as int),
    {
        let mut i: usize = 0;
        while i < inputs.len()
            invariant
                i <= inputs@.len(),
                forall|j: int| 0 <= j < i ==> self.holds(#[trigger] inputs@[j]),
            decreases inputs@.len() - i,
        {
            if !self.owns(inputs[i]) {
                return Err(CompileError::ForeignVar);
            }
            i += 1;
        }
        let mut k: usize = 0;
        while k < outputs.len()
            invariant
                forall|j: int| 0 <= j < inputs@.len() ==> self.holds(#[trigger] inputs@[j]),
                k <= outputs@.len(),
                forall|j: int| 0 <= j < k ==> self.holds(#[trigger] outputs@[j]),
            decreases outputs@.len() - k,
        {
            if !self.owns(outputs[k]) {
                return Err(CompileError::ForeignVar);
            }
            k += 1;
        }
        self.try_compile_owned(inputs, outputs)
    }

    /// Every value listed in `inputs` and `outputs` was recorded on this
    /// tape.
    pub open spec fn all_held(self, inputs: Seq<Var>, outputs: Seq<Var>) -> bool {
        &&& forall|i: int| 0 <= i < inputs.len() ==> self.holds(#[trigger] inputs[i])
        &&& forall|k: int| 0 <= k < outputs.len() ==> self.holds(#[trigger] outputs[k])
    }

    fn try_compile_owned(&self, inputs: &[Var], outputs: &[Var]) -> (r: Result<Function, CompileError>)
        requires
            inputs@.len() <= u32::MAX,
            forall|i: int| 0 <= i < inputs@.len() ==> self.holds(#[trigger] inputs@[i]),
            forall|k: int| 0 <= k < outputs@.len() ==> self.holds(#[trigger] outputs@[k]),
        ensures
            r != Err::<Function, CompileError>(CompileError::ForeignVar),
            r is Ok <==> self.compile_ok(inputs@, outputs@),
            r matches Ok(f) ==> self.compiles_to(inputs@, outputs@, f),
            r matches Err(CompileError::InputNotParameter(i)) ==> i < inputs@.len() && self.inputs_ok_upto(inputs@, i as int)
                && !(self.spec_nodes()[inputs@[i as int]@ as int] is Param),
            r matches Err(CompileError::InputListedTwice(i)) ==> i < inputs@.len() && self.inputs_ok_upto(inputs@, i as int)
                && self.spec_nodes()[inputs@[i as int]@ as int] is Param && exists|j: int| 0 <= j < i && inputs@[j]@ == inputs@[i as int]@,
            r matches Err(CompileError::UnlistedParameter) ==> self.inputs_ok_upto(inputs@, inputs@.len() as int),
    {
        proof {
            use_type_invariant(self);
        }
        let n = self.nodes.len();
        let mut listed: Vec<bool> = Vec::new();
        let mut w: usize = 0;
        while w < n
            invariant
                n == self.nodes@.len(),
                w <= n,
                listed@.len() == w,
                forall|j: int| 0 <= j < w ==> !#[trigger] listed@[j],
            decreases n - w,
        {
            listed.push(false);
            w += 1;
        }
        let mut i: usize = 0;
        while i < inputs.len()
            invariant
                n == self.nodes@.len(),
                i <= inputs@.len(),
                forall|i2: int| 0 <= i2 < inputs@.len() ==> self.holds(#[trigger] inputs@[i2]),
                listed@.len() == n,
                self.inputs_ok_upto(inputs@, i as int),
                forall|x: int| 0 <= x < n ==> (#[trigger] listed@[x] <==> exists|j: int| 0 <= j < i && inputs@[j]@ == x),
            decreases inputs@.len() - i,
        {
            let v = inputs[i].value;
            proof {
                assert(self.holds(inputs@[i as int]));
            }
            match self.nodes[v] {
                ValueData::Param(_) => {},
                _ => {
                    return Err(CompileError::InputNotParameter(i));
                },
            }
            if listed[v] {
                return Err(CompileError::InputListedTwice(i));
            }
            let ghost l0 = listed@;
            listed.set(v, true);
            proof {
                assert forall|x: int| 0 <= x < n implies (#[trigger] listed@[x] <==> exists|j: int| 0 <= j < i + 1 && inputs@[j]@ == x) by {
                    if x != v {
                        assert(listed@[x] == l0[x]);
                        if exists|j: int| 0 <= j < i + 1 && inputs@[j]@ == x {
                            let j = choose|j: int| 0 <= j < i + 1 && inputs@[j]@ == x;
                            assert(j != i);
                        }
                    } else {
                        assert(inputs@[i as int]@ == x);
                    }
                }
                assert forall|j: int, k: int| 0 <= j < k < i + 1 implies #[trigger] inputs@[j]@ != #[trigger] inputs@[k]@ by {
                    if k == i {
                        if inputs@[j]@ == inputs@[k]@ {
                            assert(l0[v as int]);
                        }
                    }
                }
            }
            i += 1;
        }
        let live = mark_live(&self.nodes, Ghost(self.num_params as nat), outputs);
        proof {
            assert forall|x: int| 0 <= x < n && reached_from(self.nodes@, outputs@, x) implies #[trigger] live@[x] by {
                let k = choose|k: int| 0 <= k < outputs@.len() && reaches(self.nodes@, outputs@[k]@ as int, x);
                assert(self.holds(outputs@[k]));
                lemma_reached_marked(self.nodes@, self.num_params as nat, live@, outputs@[k]@ as int, x);
            }
        }
        let mut w: usize = 0;
        while w < n
            invariant
                n == self.nodes@.len(),
                w <= n,
                live@.len() == n,
                listed@.len() == n,
                self.inputs_ok_upto(inputs@, inputs@.len() as int),
                forall|x: int| 0 <= x < n ==> (#[trigger] listed@[x] <==> exists|j: int| 0 <= j < inputs@.len() && inputs@[j]@ == x),
                forall|x: int| 0 <= x < n && #[trigger] live@[x] ==> reached_from(self.nodes@, outputs@, x),
                forall|x: int| 0 <= x < n && reached_from(self.nodes@, outputs@, x) ==> #[trigger] live@[x],
                forall|x: int|
                    0 <= x < w && (#[trigger] self.nodes@[x]) is Param && reached_from(self.nodes@, outputs@, x)
                        ==> exists|j: int| 0 <= j < inputs@.len() && inputs@[j]@ == x,
            decreases n - w,
        {
            if live[w] && !listed[w] {
                if let ValueData::Param(_) = self.nodes[w] {
                    return Err(CompileError::UnlistedParameter);
                }
            }
            w += 1;
        }
        Ok(self.compile(inputs, outputs))
    }
}

} // verus!
