//! Frozen expression graphs in SSA order, the input and output of the
//! source-transformation passes.
use vstd::prelude::*;

use crate::function::Sym;
use crate::tape::{node_ok, node_sym, nodes_wf, reaches};

pub use crate::tape::ValueData as Node;

verus! {

/// Index of a node in a graph.
pub type NodeId = usize;

/// Every node reads only earlier nodes.
pub open spec fn ssa(nodes: Seq<Node>) -> bool {
    nodes_wf(nodes, 0x1_0000_0000nat)
}

/// Every id of `ids` names a node of a graph with `n` nodes.
pub open spec fn ids_below(ids: Seq<NodeId>, n: nat) -> bool {
    forall|k: int| 0 <= k < ids.len() ==> #[trigger] ids[k] < n
}

/// Some id of `roots` depends on node `w`.
pub open spec fn reached_from_ids(nodes: Seq<Node>, roots: Seq<NodeId>, w: int) -> bool {
    exists|k: int| 0 <= k < roots.len() && #[trigger] reaches(nodes, roots[k] as int, w)
}

/// A graph with its input and output nodes.
pub struct Function {
    nodes: Vec<Node>,
    inputs: Vec<NodeId>,
    outputs: Vec<NodeId>,
}

impl Function {
    pub closed spec fn spec_nodes(&self) -> Seq<Node> {
        self.nodes@
    }

    pub closed spec fn spec_inputs(&self) -> Seq<NodeId> {
        self.inputs@
    }

    pub closed spec fn spec_outputs(&self) -> Seq<NodeId> {
        self.outputs@
    }

    /// Nodes are in SSA order and inputs and outputs name nodes.
    pub open spec fn wf(&self) -> bool {
        &&& ssa(self.spec_nodes())
        &&& ids_below(self.spec_inputs(), self.spec_nodes().len())
        &&& ids_below(self.spec_outputs(), self.spec_nodes().len())
    }

    /// What input `j` stands for.
    pub open spec fn input_sym(&self, j: int) -> Sym {
        node_sym(self.spec_nodes(), self.spec_inputs()[j] as int)
    }

    /// What output `k` computes.
    pub open spec fn output_sym(&self, k: int) -> Sym {
        node_sym(self.spec_nodes(), self.spec_outputs()[k] as int)
    }

    pub fn from_parts(nodes: Vec<Node>, inputs: Vec<NodeId>, outputs: Vec<NodeId>) -> (f: Self)
        ensures
            f.spec_nodes() == nodes@,
            f.spec_inputs() == inputs@,
            f.spec_outputs() == outputs@,
    {
        Function { nodes, inputs, outputs }
    }

    pub fn nodes(&self) -> (r: &[Node])
        ensures
            r@ == self.spec_nodes(),
    {
        self.nodes.as_slice()
    }

    pub fn inputs(&self) -> (r: &[NodeId])
        ensures
            r@ == self.spec_inputs(),
    {
        self.inputs.as_slice()
    }

    pub fn outputs(&self) -> (r: &[NodeId])
        ensures
            r@ == self.spec_outputs(),
    {
        self.outputs.as_slice()
    }
}

} // verus!
