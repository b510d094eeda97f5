use vstd::prelude::*;

verus! {

/// Identifier of a node, unique within its network.
pub type NodeId = u64;

/// One input of a node.
#[derive(Clone, Copy, Debug, PartialEq, Eq, Structural)]
pub enum NodeInput {
    /// A literal value (an opaque handle to the value's data), optionally shown as a port.
    Value { data: u64, exposed: bool },
    /// A connection to an output of another node of the same network.
    Node { node_id: NodeId, output_index: usize, lambda: bool },
    /// A generic stand-in at the network's input boundary.
    Network,
}

impl NodeInput {
    pub open spec fn spec_is_exposed(self) -> bool {
        match self {
            NodeInput::Value { exposed, .. } => exposed,
            _ => true,
        }
    }

    /// Whether the input is shown as a port in the graph.
    pub fn is_exposed(&self) -> (r: bool)
        ensures
            r == self.spec_is_exposed(),
    {
        match self {
            NodeInput::Value { exposed, .. } => *exposed,
            _ => true,
        }
    }

    /// Whether the input is a connection from another node.
    pub fn is_node(&self) -> (r: bool)
        ensures
            r == (*self is Node),
    {
        match self {
            NodeInput::Node { .. } => true,
            _ => false,
        }
    }

    /// Whether the input is a value shown as a port.
    pub fn is_exposed_value(&self) -> (r: bool)
        ensures
            r == is_exposed_value(*self),
    {
        match self {
            NodeInput::Value { exposed, .. } => *exposed,
            _ => false,
        }
    }
}

pub open spec fn is_exposed_value(i: NodeInput) -> bool {
    match i {
        NodeInput::Value { exposed, .. } => exposed,
        _ => false,
    }
}

/// Whether `i` is a connection from the node `id`.
pub open spec fn is_connection_from(i: NodeInput, id: NodeId) -> bool {
    match i {
        NodeInput::Node { node_id, .. } => node_id == id,
        _ => false,
    }
}

/// An output of a node: the node and the index of its output.
#[derive(Clone, Copy, Debug, PartialEq, Eq, Structural)]
pub struct NodeOutput {
    pub node_id: NodeId,
    pub output_index: usize,
}

/// A node of a network.
pub struct DocumentNode {
    /// Stable identifier of the node's type in the node-type registry.
    pub type_id: u64,
    /// Inputs in order; index 0 is the primary input.
    pub inputs: Vec<NodeInput>,
    pub is_layer: bool,
    pub display_as_layer: bool,
    pub has_primary_output: bool,
    pub visible: bool,
    pub locked: bool,
    /// Position on the graph's grid.
    pub x: i32,
    pub y: i32,
}

/// A network: nodes keyed by their ids, with its import and export boundary.
pub struct NodeNetwork {
    pub nodes: Vec<(NodeId, DocumentNode)>,
    pub imports: Vec<NodeId>,
    pub exports: Vec<NodeOutput>,
    /// The exports stashed while a preview overrides the first export.
    pub previous_exports: Option<Vec<NodeOutput>>,
}

/// Number of connection inputs among `s`.
pub open spec fn count_connections(s: Seq<NodeInput>) -> nat
    decreases s.len(),
{
    if s.len() == 0 {
        0
    } else {
        count_connections(s.drop_last()) + if s.last() is Node { 1nat } else { 0nat }
    }
}

/// Number of exposed value inputs among `s`.
pub open spec fn count_exposed_values(s: Seq<NodeInput>) -> nat
    decreases s.len(),
{
    if s.len() == 0 {
        0
    } else {
        count_exposed_values(s.drop_last()) + if is_exposed_value(s.last()) { 1nat } else { 0nat }
    }
}

/// A node has the shape of a layer: one connection and one exposed value.
pub open spec fn has_layer_shape(s: Seq<NodeInput>) -> bool {
    count_connections(s) + count_exposed_values(s) == 2
}

pub proof fn lemma_counts_bounded(s: Seq<NodeInput>)
    ensures
        count_connections(s) <= s.len(),
        count_exposed_values(s) <= s.len(),
    decreases s.len(),
{
    if s.len() > 0 {
        lemma_counts_bounded(s.drop_last());
    }
}

impl DocumentNode {
    /// Number of connection inputs and number of exposed value inputs.
    pub fn input_counts(&self) -> (r: (usize, usize))
        ensures
            r.0 == count_connections(self.inputs@),
            r.1 == count_exposed_values(self.inputs@),
    {
        let mut c: usize = 0;
        let mut e: usize = 0;
        let mut i: usize = 0;
        while i < self.inputs.len()
            invariant
                i <= self.inputs@.len(),
                c == count_connections(self.inputs@.subrange(0, i as int)),
                e == count_exposed_values(self.inputs@.subrange(0, i as int)),
            decreases self.inputs@.len() - i,
        {
            proof {
                let s = self.inputs@.subrange(0, i as int + 1);
                assert(s.drop_last() =~= self.inputs@.subrange(0, i as int));
                lemma_counts_bounded(s);
            }
            if self.inputs[i].is_node() {
                c = c + 1;
            }
            if self.inputs[i].is_exposed_value() {
                e = e + 1;
            }
            i = i + 1;
        }
        assert(self.inputs@.subrange(0, i as int) =~= self.inputs@);
        (c, e)
    }

    /// Whether the node's inputs have the shape of a layer.
    pub fn has_layer_shape(&self) -> (r: bool)
        ensures
            r == has_layer_shape(self.inputs@),
    {
        let (c, e) = self.input_counts();
        c as u128 + e as u128 == 2
    }
}

/// Whether some entry of `nodes` has the id `id`.
pub open spec fn has_id(nodes: Seq<(NodeId, DocumentNode)>, id: NodeId) -> bool {
    exists|i: int| 0 <= i < nodes.len() && #[trigger] nodes[i].0 == id
}

pub open spec fn ids_unique(nodes: Seq<(NodeId, DocumentNode)>) -> bool {
    forall|i: int, j: int|
        0 <= i < nodes.len() && 0 <= j < nodes.len() && i != j ==> #[trigger] nodes[i].0
            != #[trigger] nodes[j].0
}

/// Whether some export is an output of the node `id`.
pub open spec fn exports_contain(exports: Seq<NodeOutput>, id: NodeId) -> bool {
    exists|i: int| 0 <= i < exports.len() && #[trigger] exports[i].node_id == id
}

impl NodeNetwork {
    /// Node ids are unique within the network.
    pub open spec fn wf(&self) -> bool {
        ids_unique(self.nodes@)
    }

    /// Whether `id` is an import or the node of a current export.
    pub open spec fn is_boundary(&self, id: NodeId) -> bool {
        self.imports@.contains(id) || exports_contain(self.exports@, id)
    }

    /// Position in `nodes` of the node `id`.
    pub fn find(&self, id: NodeId) -> (r: Option<usize>)
        requires
            self.wf(),
        ensures
            r matches Some(i) ==> i < self.nodes@.len() && self.nodes@[i as int].0 == id,
            r is None <==> !has_id(self.nodes@, id),
    {
        let mut i: usize = 0;
        while i < self.nodes.len()
            invariant
                i <= self.nodes@.len(),
                forall|k: int| 0 <= k < i ==> self.nodes@[k].0 != id,
            decreases self.nodes@.len() - i,
        {
            if self.nodes[i].0 == id {
                return Some(i);
            }
            i = i + 1;
        }
        None
    }

    /// Whether the node ids are unique, as every edit requires.
    pub fn has_unique_ids(&self) -> (r: bool)
        ensures
            r == self.wf(),
    {
        let n = self.nodes.len();
        let mut a: usize = 0;
        while a < n
            invariant
                n == self.nodes@.len(),
                a <= n,
                forall|i: int, j: int| 0 <= i < a && 0 <= j < n && i != j ==> #[trigger] self.nodes@[i].0 != #[trigger] self.nodes@[j].0,
            decreases n - a,
        {
            let mut b: usize = 0;
            while b < n
                invariant
                    n == self.nodes@.len(),
                    a < n,
                    b <= n,
                    forall|i: int, j: int| 0 <= i < a && 0 <= j < n && i != j ==> #[trigger] self.nodes@[i].0 != #[trigger] self.nodes@[j].0,
                    forall|j: int| 0 <= j < b && j != a ==> self.nodes@[a as int].0 != #[trigger] self.nodes@[j].0,
                decreases n - b,
            {
                if b != a && self.nodes[a].0 == self.nodes[b].0 {
                    return false;
                }
                b = b + 1;
            }
            a = a + 1;
        }
        true
    }

    /// Whether some current export is an output of `id`.
    pub fn outputs_contain(&self, id: NodeId) -> (r: bool)
        ensures
            r == exports_contain(self.exports@, id),
    {
        let mut i: usize = 0;
        while i < self.exports.len()
            invariant
                i <= self.exports@.len(),
                forall|k: int| 0 <= k < i ==> self.exports@[k].node_id != id,
            decreases self.exports@.len() - i,
        {
            if self.exports[i].node_id == id {
                return true;
            }
            i = i + 1;
        }
        false
    }

    /// Whether `id` is one of the network's imports.
    pub fn imports_contain(&self, id: NodeId) -> (r: bool)
        ensures
            r == self.imports@.contains(id),
    {
        let mut i: usize = 0;
        while i < self.imports.len()
            invariant
                i <= self.imports@.len(),
                forall|k: int| 0 <= k < i ==> self.imports@[k] != id,
            decreases self.imports@.len() - i,
        {
            if self.imports[i] == id {
                assert(self.imports@[i as int] == id);
                return true;
            }
            i = i + 1;
        }
        false
    }

    /// Whether `id` is an import or the node of a current export.
    pub fn is_boundary_node(&self, id: NodeId) -> (r: bool)
        ensures
            r == self.is_boundary(id),
    {
        self.imports_contain(id) || self.outputs_contain(id)
    }
}

} // verus!

verus! {

/// Why an edit was refused. A refused edit leaves the network unchanged.
#[derive(Clone, Copy, Debug, PartialEq, Eq, Structural)]
pub enum EditError {
    /// No node with the given id.
    NoNode,
    /// The node has no input at the given index.
    NoInput,
    /// A node with the given id exists already.
    DuplicateId,
    /// The node is an import or the node of a current export.
    BoundaryNode,
    /// The registry has no default for the input.
    NoDefault,
    /// The connection would close a cycle.
    Cycle,
    /// A connection names a node that is not in the network.
    NoSource,
    /// Connections of the network already name the id.
    IdReferenced,
    /// Pasted nodes and fresh ids do not pair up.
    MalformedPayload,
    /// A position would leave the grid's range.
    PositionOutOfRange,
}

/// Two nodes agree on everything but their inputs and their layer display flag.
pub open spec fn same_but_inputs(a: DocumentNode, b: DocumentNode) -> bool {
    &&& a.type_id == b.type_id
    &&& a.is_layer == b.is_layer
    &&& a.has_primary_output == b.has_primary_output
    &&& a.visible == b.visible
    &&& a.locked == b.locked
    &&& a.x == b.x
    &&& a.y == b.y
}

} // verus!

verus! {

/// Position in `nodes` of the node `id` (meaningful where `has_id(nodes, id)`).
pub open spec fn index_of(nodes: Seq<(NodeId, DocumentNode)>, id: NodeId) -> int {
    choose|i: int| 0 <= i < nodes.len() && nodes[i].0 == id
}

/// Some connection of `nodes` names `id`.
pub open spec fn referenced(nodes: Seq<(NodeId, DocumentNode)>, id: NodeId) -> bool {
    exists|a: int, j: int| 0 <= a < nodes.len() && 0 <= j < nodes[a].1.inputs@.len() && #[trigger] is_connection_from(nodes[a].1.inputs@[j], id)
}

/// Every connection names a node of the network.
pub open spec fn refs_ok(nodes: Seq<(NodeId, DocumentNode)>) -> bool {
    forall|a: int, j: int, id: NodeId|
        0 <= a < nodes.len() && 0 <= j < nodes[a].1.inputs@.len() && #[trigger] is_connection_from(
            nodes[a].1.inputs@[j],
            id,
        ) ==> has_id(nodes, id)
}

pub proof fn lemma_index_of(nodes: Seq<(NodeId, DocumentNode)>, i: int)
    requires
        ids_unique(nodes),
        0 <= i < nodes.len(),
    ensures
        index_of(nodes, nodes[i].0) == i,
        has_id(nodes, nodes[i].0),
{
    let id = nodes[i].0;
    assert(0 <= i < nodes.len() && nodes[i].0 == id);
    let j = index_of(nodes, id);
    assert(0 <= j < nodes.len() && nodes[j].0 == id);
}

} // verus!
