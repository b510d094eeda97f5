use vstd::prelude::*;

use crate::clipboard::{map_ids, node_mapped};
use crate::delete::{contains_id, deletion_set, removes_in_turn};
use crate::edit::{boundary_kept, flag_set, NodeFlag, count_exposed, input_replaced, is_nth_exposed, lemma_count_exposed_bounded, nth_exposed_input};
use crate::graph::EditError;
use crate::graph::{
    exports_contain, has_id, has_layer_shape, index_of, lemma_index_of, same_but_inputs, DocumentNode, NodeId,
    NodeInput, NodeNetwork, NodeOutput,
};
use crate::registry::NodeTypeRegistry;
use crate::topology::{
    primary_upstream, acyclic, adj, closure, connected_to_output, links_in_range, reachable_from, reaches, up_edge, upstream,
    upstream_links,
};

verus! {

/// State of the node graph panel: the path of nested networks that is open, and whether
/// any node is selected.
pub struct NodeGraphMessageHandler {
    pub network: Vec<NodeId>,
    pub has_selection: bool,
}

/// What an edit of the graph works on: the network, the selected nodes, and whether the
/// graph view is open.
pub struct NodeGraphHandlerData {
    pub document_network: NodeNetwork,
    pub selected_nodes: Vec<NodeId>,
    pub graph_view_overlay_open: bool,
}

/// The commands that the graph panel offers.
#[derive(Clone, Copy, Debug, PartialEq, Eq, Structural)]
pub enum NodeGraphAction {
    ToggleSelectedVisibility,
    ToggleSelectedLocked,
    ToggleSelectedLayers,
    DuplicateSelectedNodes,
    DeleteSelectedNodes,
    Cut,
    Copy,
}

/// Node `id` of `net` is copied: it is a node of the network and no export's node.
pub open spec fn is_kept(net: &NodeNetwork, id: NodeId) -> bool {
    has_id(net.nodes@, id) && !exports_contain(net.exports@, id)
}

/// The pairs of `m` (old id, new id) whose old id is copied, in order: the remapping of
/// a copy.
pub open spec fn kept_pairs(net: &NodeNetwork, m: Seq<(NodeId, NodeId)>) -> Seq<(NodeId, NodeId)>
    decreases m.len(),
{
    if m.len() == 0 {
        m
    } else if is_kept(net, m.last().0) {
        kept_pairs(net, m.drop_last()).push(m.last())
    } else {
        kept_pairs(net, m.drop_last())
    }
}

pub proof fn lemma_kept_pairs(net: &NodeNetwork, m: Seq<(NodeId, NodeId)>)
    ensures
        forall|k: int| 0 <= k < kept_pairs(net, m).len() ==> #[trigger] is_kept(net, kept_pairs(net, m)[k].0),
    decreases m.len(),
{
    if m.len() > 0 {
        lemma_kept_pairs(net, m.drop_last());
        let prev = kept_pairs(net, m.drop_last());
        assert forall|k: int| 0 <= k < kept_pairs(net, m).len() implies #[trigger] is_kept(net, kept_pairs(net, m)[k].0) by {
            if k < prev.len() {
                assert(is_kept(net, prev[k].0));
            }
        }
    }
}

/// The node of `net` with id `id`.
pub open spec fn node_of(net: &NodeNetwork, id: NodeId) -> DocumentNode {
    net.nodes@[index_of(net.nodes@, id)].1
}

/// Edges "takes an input from" that end at a node other than a layer.
pub open spec fn local_upstream(nodes: Seq<(NodeId, DocumentNode)>) -> spec_fn(int, int) -> bool {
    |a: int, b: int| up_edge(nodes, a, b) && !nodes[b].1.is_layer
}

/// Number of entries of `sel` that name a layer of `nodes`.
pub open spec fn count_layers(nodes: Seq<(NodeId, DocumentNode)>, sel: Seq<NodeId>) -> nat
    decreases sel.len(),
{
    if sel.len() == 0 {
        0
    } else {
        count_layers(nodes, sel.drop_last()) + if is_layer_id(nodes, sel.last()) { 1nat } else { 0nat }
    }
}

pub open spec fn is_layer_id(nodes: Seq<(NodeId, DocumentNode)>, id: NodeId) -> bool {
    has_id(nodes, id) && nodes[index_of(nodes, id)].1.is_layer
}

pub open spec fn is_plain_id(nodes: Seq<(NodeId, DocumentNode)>, id: NodeId) -> bool {
    has_id(nodes, id) && !nodes[index_of(nodes, id)].1.is_layer
}

/// The entries of `sel` that name nodes of `nodes` other than layers, in order.
pub open spec fn plain_nodes(nodes: Seq<(NodeId, DocumentNode)>, sel: Seq<NodeId>) -> Seq<NodeId>
    decreases sel.len(),
{
    if sel.len() == 0 {
        Seq::empty()
    } else if is_plain_id(nodes, sel.last()) {
        plain_nodes(nodes, sel.drop_last()).push(sel.last())
    } else {
        plain_nodes(nodes, sel.drop_last())
    }
}

/// The nodes whose properties the panel shows for the selection `sel`.
pub open spec fn shown_properties(net: &NodeNetwork, sel: Seq<NodeId>, r: Seq<NodeId>) -> bool {
    let nodes = net.nodes@;
    let layers = count_layers(nodes, sel);
    &&& layers == 0 ==> r == plain_nodes(nodes, sel)
    &&& layers > 1 ==> r.len() == 0
    &&& layers == 1 ==> forall|i: int| 0 <= i < sel.len() && #[trigger] is_layer_id(nodes, sel[i]) ==> {
        let l = index_of(nodes, sel[i]);
        if exists|k: int| 0 <= k < sel.len() && #[trigger] is_plain_id(nodes, sel[k]) && !reaches(primary_upstream(nodes), l, index_of(nodes, sel[k])) {
            r.len() == 0
        } else {
            forall|x: NodeId| #[trigger] r.contains(x) <==> has_id(nodes, x) && reaches(local_upstream(nodes), l, index_of(nodes, x))
        }
    }
}

impl NodeGraphMessageHandler {
    /// The default of input `index` of nodes of type `type_id`.
    pub fn default_node_input(registry: &NodeTypeRegistry, type_id: u64, index: usize) -> (r: Option<NodeInput>)
        ensures
            r == registry.default_of(type_id, index as int),
    {
        registry.default_input(type_id, index)
    }

    /// Copies of the nodes named by the old ids of `new_ids` that are nodes and no export's
    /// node, in order, each under its new id. The remapping is those pairs alone: a
    /// connection from a copied node follows it to its new id, any other becomes the
    /// registry's default (see `map_ids`).
    pub fn copy_nodes(network: &NodeNetwork, new_ids: &Vec<(NodeId, NodeId)>, registry: &NodeTypeRegistry) -> (r: Vec<(NodeId, DocumentNode)>)
        requires
            network.wf(),
        ensures
            r@.len() == kept_pairs(network, new_ids@).len(),
            forall|k: int| 0 <= k < r@.len() ==> {
                let pair = kept_pairs(network, new_ids@)[k];
                &&& #[trigger] r@[k].0 == pair.1
                &&& is_kept(network, pair.0)
                &&& node_mapped(registry, kept_pairs(network, new_ids@), node_of(network, pair.0), r@[k].1)
            },
    {
        let mut remap: Vec<(NodeId, NodeId)> = Vec::new();
        let mut q: usize = 0;
        while q < new_ids.len()
            invariant
                network.wf(),
                q <= new_ids@.len(),
                remap@ == kept_pairs(network, new_ids@.subrange(0, q as int)),
            decreases new_ids@.len() - q,
        {
            proof {
                let post = new_ids@.subrange(0, q as int + 1);
                assert(post.drop_last() == new_ids@.subrange(0, q as int));
                assert(post.last() == new_ids@[q as int]);
            }
            let (old_id, new_id) = new_ids[q];
            if !network.outputs_contain(old_id) && network.find(old_id).is_some() {
                remap.push((old_id, new_id));
            }
            q = q + 1;
        }
        proof {
            assert(new_ids@.subrange(0, q as int) == new_ids@);
            lemma_kept_pairs(network, new_ids@);
        }
        let mut r: Vec<(NodeId, DocumentNode)> = Vec::new();
        let mut k: usize = 0;
        while k < remap.len()
            invariant
                network.wf(),
                remap@ == kept_pairs(network, new_ids@),
                forall|k2: int| 0 <= k2 < remap@.len() ==> #[trigger] is_kept(network, remap@[k2].0),
                k <= remap@.len(),
                r@.len() == k,
                forall|k2: int| 0 <= k2 < k ==> {
                    let pair = remap@[k2];
                    &&& #[trigger] r@[k2].0 == pair.1
                    &&& is_kept(network, pair.0)
                    &&& node_mapped(registry, remap@, node_of(network, pair.0), r@[k2].1)
                },
            decreases remap@.len() - k,
        {
            let (old_id, new_id) = remap[k];
            assert(is_kept(network, remap@[k as int].0));
            let p = match network.find(old_id) {
                Some(p) => p,
                None => {
                    assert(false);
                    return r;
                },
            };
            proof {
                lemma_index_of(network.nodes@, p as int);
            }
            let node = map_ids(&network.nodes[p].1, &remap, registry);
            let ghost r0 = r@;
            r.push((new_id, node));
            proof {
                assert forall|k2: int| 0 <= k2 < k + 1 implies {
                    let pair = remap@[k2];
                    &&& #[trigger] r@[k2].0 == pair.1
                    &&& is_kept(network, pair.0)
                    &&& node_mapped(registry, remap@, node_of(network, pair.0), r@[k2].1)
                } by {
                    if k2 < k {
                        assert(r@[k2] == r0[k2]);
                    }
                }
            }
            k = k + 1;
        }
        r
    }

    /// The commands on offer: with a selection, visibility and locking; with the graph
    /// open as well, the editing commands.
    pub fn actions_with_node_graph_open(&self, graph_open: bool) -> (r: Vec<NodeGraphAction>)
        ensures
            self.has_selection && graph_open ==> r@ == seq![
                NodeGraphAction::ToggleSelectedVisibility,
                NodeGraphAction::ToggleSelectedLocked,
                NodeGraphAction::ToggleSelectedLayers,
                NodeGraphAction::DuplicateSelectedNodes,
                NodeGraphAction::DeleteSelectedNodes,
                NodeGraphAction::Cut,
                NodeGraphAction::Copy,
            ],
            self.has_selection && !graph_open ==> r@ == seq![
                NodeGraphAction::ToggleSelectedVisibility,
                NodeGraphAction::ToggleSelectedLocked,
            ],
            !self.has_selection ==> r@.len() == 0,
    {
        let mut r: Vec<NodeGraphAction> = Vec::new();
        if self.has_selection {
            r.push(NodeGraphAction::ToggleSelectedVisibility);
            r.push(NodeGraphAction::ToggleSelectedLocked);
            if graph_open {
                r.push(NodeGraphAction::ToggleSelectedLayers);
                r.push(NodeGraphAction::DuplicateSelectedNodes);
                r.push(NodeGraphAction::DeleteSelectedNodes);
                r.push(NodeGraphAction::Cut);
                r.push(NodeGraphAction::Copy);
            }
        }
        assert(self.has_selection && graph_open ==> r@ =~= seq![
            NodeGraphAction::ToggleSelectedVisibility,
            NodeGraphAction::ToggleSelectedLocked,
            NodeGraphAction::ToggleSelectedLayers,
            NodeGraphAction::DuplicateSelectedNodes,
            NodeGraphAction::DeleteSelectedNodes,
            NodeGraphAction::Cut,
            NodeGraphAction::Copy,
        ]);
        assert(self.has_selection && !graph_open ==> r@ =~= seq![
            NodeGraphAction::ToggleSelectedVisibility,
            NodeGraphAction::ToggleSelectedLocked,
        ]);
        r
    }
}


pub proof fn lemma_layer_counted(nodes: Seq<(NodeId, DocumentNode)>, s: Seq<NodeId>, i: int)
    requires
        0 <= i < s.len(),
        is_layer_id(nodes, s[i]),
    ensures
        count_layers(nodes, s) >= 1,
    decreases s.len(),
{
    if i < s.len() - 1 {
        lemma_layer_counted(nodes, s.drop_last(), i);
    }
}

pub proof fn lemma_single_layer(nodes: Seq<(NodeId, DocumentNode)>, s: Seq<NodeId>, i: int, j: int)
    requires
        count_layers(nodes, s) <= 1,
        0 <= i < s.len(),
        0 <= j < s.len(),
        is_layer_id(nodes, s[i]),
        is_layer_id(nodes, s[j]),
    ensures
        i == j,
    decreases s.len(),
{
    let last = s.len() - 1;
    if i < last && j < last {
        lemma_single_layer(nodes, s.drop_last(), i, j);
    } else if i == last && j < last {
        lemma_layer_counted(nodes, s.drop_last(), j);
    } else if j == last && i < last {
        lemma_layer_counted(nodes, s.drop_last(), i);
    }
}

impl NodeNetwork {
    /// For each node, the positions of the nodes other than layers that it takes an input
    /// from.
    pub fn local_links(&self) -> (r: Vec<Vec<usize>>)
        requires
            self.wf(),
        ensures
            r@.len() == self.nodes@.len(),
            links_in_range(r@),
            adj(r@) == local_upstream(self.nodes@),
    {
        let up = upstream_links(self);
        let n = self.nodes.len();
        let mut links: Vec<Vec<usize>> = Vec::new();
        let mut a: usize = 0;
        while a < n
            invariant
                n == self.nodes@.len(),
                up@.len() == n,
                links_in_range(up@),
                adj(up@) == upstream(self.nodes@),
                a <= n,
                links@.len() == a,
                forall|x: int, k: int| 0 <= x < a && 0 <= k < links@[x]@.len() ==> #[trigger] links@[x]@[k] < n,
                forall|x: int, b: int| 0 <= x < a && 0 <= b < n ==> (#[trigger] links@[x]@.contains(b as usize)
                    <==> up@[x]@.contains(b as usize) && !self.nodes@[b].1.is_layer),
            decreases n - a,
        {
            let mut row: Vec<usize> = Vec::new();
            let mut k: usize = 0;
            while k < up[a].len()
                invariant
                    n == self.nodes@.len(),
                    up@.len() == n,
                    links_in_range(up@),
                    a < n,
                    k <= up@[a as int]@.len(),
                    forall|q: int| 0 <= q < row@.len() ==> #[trigger] row@[q] < n,
                    forall|b: int| 0 <= b < n ==> (#[trigger] row@.contains(b as usize)
                        <==> up@[a as int]@.subrange(0, k as int).contains(b as usize) && !self.nodes@[b].1.is_layer),
                decreases up@[a as int]@.len() - k,
            {
                let b = up[a][k];
                let ghost old_row = row@;
                let ghost s0 = up@[a as int]@.subrange(0, k as int);
                let ghost s1 = up@[a as int]@.subrange(0, k as int + 1);
                if !self.nodes[b].1.is_layer {
                    row.push(b);
                }
                proof {
                    assert(s1 == s0.push(b));
                    assert forall|b2: int| 0 <= b2 < n implies (#[trigger] row@.contains(b2 as usize)
                        <==> s1.contains(b2 as usize) && !self.nodes@[b2].1.is_layer) by {
                        crate::delete::lemma_push_contains(s0, b, b2 as usize);
                        crate::delete::lemma_push_contains(old_row, b, b2 as usize);
                    }
                }
                k = k + 1;
            }
            proof {
                assert(up@[a as int]@.subrange(0, k as int) == up@[a as int]@);
            }
            links.push(row);
            proof {
                assert forall|x: int, b: int| 0 <= x < a + 1 && 0 <= b < n implies (#[trigger] links@[x]@.contains(b as usize)
                    <==> up@[x]@.contains(b as usize) && !self.nodes@[b].1.is_layer) by {
                }
            }
            a = a + 1;
        }
        proof {
            assert forall|x: int, y: int| #[trigger] adj(links@)(x, y) == local_upstream(self.nodes@)(x, y) by {
                if 0 <= x < n && 0 <= y < n {
                    assert(links@[x]@.contains(y as usize) <==> up@[x]@.contains(y as usize) && !self.nodes@[y].1.is_layer);
                    assert(adj(up@)(x, y) == upstream(self.nodes@)(x, y));
                }
            }
            assert(adj(links@) =~= local_upstream(self.nodes@));
        }
        links
    }
}

impl NodeGraphMessageHandler {
    /// The nodes whose properties the panel shows for the selection: with no layer
    /// selected, each selected node; with one layer selected, and every other selected node
    /// upstream of it along primary inputs, the layer and the nodes it takes inputs from without passing through
    /// another layer; otherwise none.
    pub fn collate_properties(&self, network: &NodeNetwork, selected_nodes: &Vec<NodeId>) -> (r: Vec<NodeId>)
        requires
            network.wf(),
        ensures
            shown_properties(network, selected_nodes@, r@),
    {
        let ghost nodes = network.nodes@;
        let sel = selected_nodes;
        let mut plain: Vec<NodeId> = Vec::new();
        let mut layers: usize = 0;
        let mut layer_pos: usize = 0;
        let ghost mut layer_entry: int = 0;
        let mut i: usize = 0;
        while i < sel.len()
            invariant
                network.wf(),
                nodes == network.nodes@,
                sel@ == selected_nodes@,
                i <= sel@.len(),
                layers == count_layers(nodes, sel@.subrange(0, i as int)),
                layers <= i,
                plain@ == plain_nodes(nodes, sel@.subrange(0, i as int)),
                layers >= 1 ==> 0 <= layer_entry < i && is_layer_id(nodes, sel@[layer_entry]) && layer_pos == index_of(nodes, sel@[layer_entry]) && layer_pos < nodes.len(),
            decreases sel@.len() - i,
        {
            let ghost pre = sel@.subrange(0, i as int);
            let ghost post = sel@.subrange(0, i as int + 1);
            proof {
                assert(post.drop_last() == pre);
                assert(post.last() == sel@[i as int]);
            }
            if let Some(p) = network.find(sel[i]) {
                proof {
                    lemma_index_of(nodes, p as int);
                }
                if network.nodes[p].1.is_layer {
                    layers = layers + 1;
                    layer_pos = p;
                    proof {
                        layer_entry = i as int;
                    }
                } else {
                    plain.push(sel[i]);
                }
            }
            i = i + 1;
        }
        proof {
            assert(sel@.subrange(0, i as int) == sel@);
        }
        if layers == 0 {
            return plain;
        }
        if layers > 1 {
            return Vec::new();
        }
        proof {
            assert(count_layers(nodes, sel@) == 1);
            assert forall|i2: int| 0 <= i2 < sel@.len() && #[trigger] is_layer_id(nodes, sel@[i2]) implies i2 == layer_entry by {
                lemma_single_layer(nodes, sel@, i2, layer_entry);
            }
        }
        let mut roots: Vec<usize> = Vec::new();
        roots.push(layer_pos);
        let marks = network.upstream_flow(&roots, true);
        let mut k: usize = 0;
        while k < sel.len()
            invariant
                network.wf(),
                nodes == network.nodes@,
                sel@ == selected_nodes@,
                k <= sel@.len(),
                layer_pos < nodes.len(),
                count_layers(nodes, sel@) == 1,
                0 <= layer_entry < sel@.len(),
                is_layer_id(nodes, sel@[layer_entry]),
                layer_pos == index_of(nodes, sel@[layer_entry]),
                forall|i2: int| 0 <= i2 < sel@.len() && #[trigger] is_layer_id(nodes, sel@[i2]) ==> i2 == layer_entry,

                roots@ == seq![layer_pos],
                marks@.len() == nodes.len(),
                forall|v: int| 0 <= v < nodes.len() ==> (marks@[v] <==> reachable_from(primary_upstream(nodes), roots@, v)),
                forall|k2: int| 0 <= k2 < k && #[trigger] is_plain_id(nodes, sel@[k2]) ==> reaches(primary_upstream(nodes), layer_pos as int, index_of(nodes, sel@[k2])),
            decreases sel@.len() - k,
        {
            if let Some(p) = network.find(sel[k]) {
                proof {
                    lemma_index_of(nodes, p as int);
                }
                if !network.nodes[p].1.is_layer && !marks[p] {
                    proof {
                        assert(is_plain_id(nodes, sel@[k as int]));
                        if reaches(primary_upstream(nodes), layer_pos as int, p as int) {
                            assert(roots@[0] == layer_pos);
                            assert(reachable_from(primary_upstream(nodes), roots@, p as int));
                        }
                        assert(index_of(nodes, sel@[k as int]) == p);
                        assert(!reaches(primary_upstream(nodes), index_of(nodes, sel@[layer_entry]), index_of(nodes, sel@[k as int])));
                        let l = index_of(nodes, sel@[layer_entry]);
                        assert(exists|k2: int| 0 <= k2 < sel@.len() && #[trigger] is_plain_id(nodes, sel@[k2]) && !reaches(primary_upstream(nodes), l, index_of(nodes, sel@[k2])));
                    }
                    let empty: Vec<NodeId> = Vec::new();
                    proof {
                        assert forall|i2: int| 0 <= i2 < sel@.len() && #[trigger] is_layer_id(nodes, sel@[i2]) implies {
                            let l2 = index_of(nodes, sel@[i2]);
                            if exists|k2: int| 0 <= k2 < sel@.len() && #[trigger] is_plain_id(nodes, sel@[k2]) && !reaches(primary_upstream(nodes), l2, index_of(nodes, sel@[k2])) {
                                empty@.len() == 0
                            } else {
                                forall|x: NodeId| #[trigger] empty@.contains(x) <==> has_id(nodes, x) && reaches(local_upstream(nodes), l2, index_of(nodes, x))
                            }
                        } by {
                            assert(i2 == layer_entry);
                            assert(is_plain_id(nodes, sel@[k as int]) && !reaches(primary_upstream(nodes), index_of(nodes, sel@[i2]), index_of(nodes, sel@[k as int])));
                        }
                    }
                    return empty;
                }
                proof {
                    if marks@[p as int] {
                        let q = choose|q: int| 0 <= q < roots@.len() && #[trigger] reaches(primary_upstream(nodes), roots@[q] as int, p as int);
                        assert(q == 0);
                    }
                }
            }
            k = k + 1;
        }
        let local = network.local_links();
        let chain = closure(&local, &roots);
        let mut r: Vec<NodeId> = Vec::new();
        let mut p: usize = 0;
        while p < network.nodes.len()
            invariant
                network.wf(),
                nodes == network.nodes@,
                sel@ == selected_nodes@,
                p <= nodes.len(),
                roots@ == seq![layer_pos],
                count_layers(nodes, sel@) == 1,
                0 <= layer_entry < sel@.len(),
                is_layer_id(nodes, sel@[layer_entry]),
                layer_pos == index_of(nodes, sel@[layer_entry]),
                forall|i2: int| 0 <= i2 < sel@.len() && #[trigger] is_layer_id(nodes, sel@[i2]) ==> i2 == layer_entry,

                chain@.len() == nodes.len(),
                forall|v: int| 0 <= v < nodes.len() ==> (chain@[v] <==> reachable_from(local_upstream(nodes), roots@, v)),
                forall|x: NodeId| #[trigger] r@.contains(x) <==> exists|v: int| 0 <= v < p && chain@[v] && #[trigger] nodes[v].0 == x,
            decreases nodes.len() - p,
        {
            if chain[p] {
                let ghost r0 = r@;
                r.push(network.nodes[p].0);
                proof {
                    assert forall|x: NodeId| #[trigger] r@.contains(x) <==> exists|v: int| 0 <= v < p + 1 && chain@[v] && #[trigger] nodes[v].0 == x by {
                        crate::delete::lemma_push_contains(r0, nodes[p as int].0, x);
                    }
                }
            } else {
                proof {
                    assert forall|x: NodeId| #[trigger] r@.contains(x) <==> exists|v: int| 0 <= v < p + 1 && chain@[v] && #[trigger] nodes[v].0 == x by {
                        if exists|v: int| 0 <= v < p + 1 && chain@[v] && #[trigger] nodes[v].0 == x {
                            let v = choose|v: int| 0 <= v < p + 1 && chain@[v] && #[trigger] nodes[v].0 == x;
                            assert(v != p);
                        }
                    }
                }
            }
            p = p + 1;
        }
        proof {
            let e = local_upstream(nodes);
            assert forall|x: NodeId| #[trigger] r@.contains(x) <==> has_id(nodes, x) && reaches(e, layer_pos as int, index_of(nodes, x)) by {
                if r@.contains(x) {
                    let v = choose|v: int| 0 <= v < p && chain@[v] && #[trigger] nodes[v].0 == x;
                    lemma_index_of(nodes, v);
                    let q = choose|q: int| 0 <= q < roots@.len() && #[trigger] reaches(e, roots@[q] as int, v);
                    assert(q == 0);
                }
                if has_id(nodes, x) && reaches(e, layer_pos as int, index_of(nodes, x)) {
                    let v = index_of(nodes, x);
                    assert(roots@[0] == layer_pos);
                    assert(reachable_from(e, roots@, v));
                    assert(chain@[v]);
                }
            }
        }
        r
    }
}

/// The button that previews the selected node or ends its preview.
#[derive(Clone, Copy, Debug, PartialEq, Eq, Structural)]
pub enum PreviewButton {
    Hidden,
    Preview,
    EndPreview,
}

/// The buttons of the graph panel's bar for the current selection.
#[derive(Clone, Copy, Debug, PartialEq, Eq, Structural)]
pub struct SelectionButtons {
    /// The hide/show button is shown: some selected node is no boundary node.
    pub visibility: bool,
    /// Every selected node is visible, so the button hides.
    pub all_visible: bool,
    pub preview: PreviewButton,
}

/// Every selected node that is in the network is visible.
pub open spec fn all_visible(nodes: Seq<(NodeId, DocumentNode)>, sel: Seq<NodeId>) -> bool {
    forall|k: int| 0 <= k < sel.len() && #[trigger] has_id(nodes, sel[k]) ==> nodes[index_of(nodes, sel[k])].1.visible
}

/// Whether the stash of exports holds the node `id` (true where there is no stash).
pub open spec fn stash_holds(previous: Option<Vec<NodeOutput>>, id: NodeId) -> bool {
    match previous {
        Some(p) => exports_contain(p@, id),
        None => true,
    }
}

impl NodeGraphMessageHandler {
    /// Which buttons the bar shows for the selection `sel`.
    pub fn selection_buttons(network: &NodeNetwork, sel: &Vec<NodeId>) -> (r: SelectionButtons)
        requires
            network.wf(),
        ensures
            r.visibility == exists|k: int| 0 <= k < sel@.len() && !network.is_boundary(#[trigger] sel@[k]),
            r.all_visible == all_visible(network.nodes@, sel@),
            sel@.len() != 1 ==> r.preview == PreviewButton::Hidden,
            sel@.len() == 1 ==> r.preview == if exports_contain(network.exports@, sel@[0]) {
                if stash_holds(network.previous_exports, sel@[0]) { PreviewButton::Hidden } else { PreviewButton::EndPreview }
            } else {
                PreviewButton::Preview
            },
    {
        let mut visibility = false;
        let mut visible = true;
        let mut k: usize = 0;
        while k < sel.len()
            invariant
                network.wf(),
                k <= sel@.len(),
                visibility == exists|k2: int| 0 <= k2 < k && !network.is_boundary(#[trigger] sel@[k2]),
                visible == forall|k2: int| 0 <= k2 < k && #[trigger] has_id(network.nodes@, sel@[k2]) ==> network.nodes@[index_of(network.nodes@, sel@[k2])].1.visible,
            decreases sel@.len() - k,
        {
            if !network.is_boundary_node(sel[k]) {
                visibility = true;
            }
            if let Some(p) = network.find(sel[k]) {
                proof {
                    lemma_index_of(network.nodes@, p as int);
                }
                if !network.nodes[p].1.visible {
                    visible = false;
                }
            }
            k = k + 1;
        }
        let preview = if sel.len() != 1 {
            PreviewButton::Hidden
        } else {
            let id = sel[0];
            if network.outputs_contain(id) {
                let held = match &network.previous_exports {
                    Some(p) => {
                        let mut found = false;
                        let mut q: usize = 0;
                        while q < p.len()
                            invariant
                                q <= p@.len(),
                                found == exists|q2: int| 0 <= q2 < q && #[trigger] p@[q2].node_id == id,
                            decreases p@.len() - q,
                        {
                            if p[q].node_id == id {
                                found = true;
                            }
                            q = q + 1;
                        }
                        found
                    },
                    None => true,
                };
                if held { PreviewButton::Hidden } else { PreviewButton::EndPreview }
            } else {
                PreviewButton::Preview
            }
        };
        SelectionButtons { visibility, all_visible: visible, preview }
    }

    /// Turn the display as a layer of each selected node on or off; a node without a
    /// primary output or without the layer shape is left as it is.
    pub fn toggle_selected_layers(network: &mut NodeNetwork, sel: &Vec<NodeId>)
        requires
            old(network).wf(),
        ensures
            final(network).wf(),
            final(network).nodes@.len() == old(network).nodes@.len(),
            layers_toggled(old(network).nodes@, final(network).nodes@, sel@),
    {
        let mut k: usize = 0;
        while k < sel.len()
            invariant
                network.wf(),
                k <= sel@.len(),
                network.nodes@.len() == old(network).nodes@.len(),
                forall|v: int| 0 <= v < old(network).nodes@.len() ==> #[trigger] network.nodes@[v].0 == old(network).nodes@[v].0
                    && network.nodes@[v].1.inputs@ == old(network).nodes@[v].1.inputs@
                    && network.nodes@[v].1.has_primary_output == old(network).nodes@[v].1.has_primary_output
                    && network.nodes@[v].1.display_as_layer == (if count_in(sel@.subrange(0, k as int), old(network).nodes@[v].0) % 2 == 1
                        && old(network).nodes@[v].1.has_primary_output && has_layer_shape(old(network).nodes@[v].1.inputs@) {
                        !old(network).nodes@[v].1.display_as_layer
                    } else {
                        old(network).nodes@[v].1.display_as_layer
                    }),
            decreases sel@.len() - k,
        {
            let ghost pre = sel@.subrange(0, k as int);
            let ghost post = sel@.subrange(0, k as int + 1);
            proof {
                assert(post.drop_last() == pre);
            }
            let ghost before = network.nodes@;
            let found = network.find(sel[k]);
            if let Some(p) = found {
                if network.nodes[p].1.has_primary_output && network.nodes[p].1.has_layer_shape() {
                    let d = network.nodes[p].1.display_as_layer;
                    network.nodes[p].1.display_as_layer = !d;
                }
            }
            proof {
                assert forall|v: int| 0 <= v < before.len() implies #[trigger] count_in(post, before[v].0) == count_in(pre, before[v].0) + if before[v].0 == sel@[k as int] { 1nat } else { 0nat } by {
                    assert(post.last() == sel@[k as int]);
                }
                assert forall|v: int| 0 <= v < before.len() && before[v].0 != sel@[k as int] implies #[trigger] network.nodes@[v] == before[v] by {
                    if let Some(p) = found {
                        assert(before[p as int].0 == sel@[k as int]);
                        assert(v != p);
                    }
                }
                if let Some(p) = found {
                    assert(before[p as int].0 == sel@[k as int]);
                }
                assert forall|a: int, b: int|
                    0 <= a < network.nodes@.len() && 0 <= b < network.nodes@.len() && a != b implies #[trigger] network.nodes@[a].0
                    != #[trigger] network.nodes@[b].0 by {
                    assert(old(network).nodes@[a].0 == network.nodes@[a].0);
                    assert(old(network).nodes@[b].0 == network.nodes@[b].0);
                }
            }
            k = k + 1;
            proof {
                assert(sel@.subrange(0, k as int) == post);
                let o = old(network).nodes@;
                assert forall|v: int| 0 <= v < o.len() implies #[trigger] network.nodes@[v].0 == o[v].0
                    && network.nodes@[v].1.inputs@ == o[v].1.inputs@
                    && network.nodes@[v].1.has_primary_output == o[v].1.has_primary_output
                    && network.nodes@[v].1.display_as_layer == (if count_in(sel@.subrange(0, k as int), o[v].0) % 2 == 1
                        && o[v].1.has_primary_output && has_layer_shape(o[v].1.inputs@) {
                        !o[v].1.display_as_layer
                    } else {
                        o[v].1.display_as_layer
                    }) by {
                    let c = count_in(pre, o[v].0);
                    assert(count_in(post, o[v].0) == count_in(sel@.subrange(0, k as int), o[v].0));
                    assert(before[v].0 == o[v].0);
                    assert((c + 1) % 2 == 1 <==> c % 2 != 1);
                }
            }
        }
        proof {
            assert(sel@.subrange(0, k as int) == sel@);
            let o = old(network).nodes@;
            assert forall|v: int| 0 <= v < o.len() implies #[trigger] network.nodes@[v].0 == o[v].0
                && network.nodes@[v].1.inputs@ == o[v].1.inputs@
                && network.nodes@[v].1.display_as_layer == (if count_in(sel@, o[v].0) % 2 == 1
                    && o[v].1.has_primary_output && has_layer_shape(o[v].1.inputs@) {
                    !o[v].1.display_as_layer
                } else {
                    o[v].1.display_as_layer
                }) by {
                assert(count_in(sel@.subrange(0, k as int), o[v].0) == count_in(sel@, o[v].0));
            }
            assert(layers_toggled(o, network.nodes@, sel@));
        }
    }
}

/// `b` is `a` with the display as a layer of each node toggled where its id stands an odd
/// number of times in `sel` and it has a primary output and the layer shape.
pub open spec fn layers_toggled(a: Seq<(NodeId, DocumentNode)>, b: Seq<(NodeId, DocumentNode)>, sel: Seq<NodeId>) -> bool {
    forall|v: int| 0 <= v < a.len() ==> #[trigger] b[v].0 == a[v].0
        && b[v].1.inputs@ == a[v].1.inputs@
        && b[v].1.display_as_layer == (if count_in(sel, a[v].0) % 2 == 1
            && a[v].1.has_primary_output && has_layer_shape(a[v].1.inputs@) {
            !a[v].1.display_as_layer
        } else {
            a[v].1.display_as_layer
        })
}

/// How many times `x` stands in `s`.
pub open spec fn count_in(s: Seq<NodeId>, x: NodeId) -> nat
    decreases s.len(),
{
    if s.len() == 0 {
        0
    } else {
        count_in(s.drop_last(), x) + if s.last() == x { 1nat } else { 0nat }
    }
}

/// A connection as the graph view draws it: from an output of one node to the
/// `link_end_input_index`-th input of another shown as a port.
#[derive(Clone, Copy, Debug, PartialEq, Eq, Structural)]
pub struct FrontendNodeLink {
    pub link_start: NodeId,
    pub link_start_output_index: usize,
    pub link_end: NodeId,
    pub link_end_input_index: usize,
}

/// The links into node `end` whose inputs are `s`.
pub open spec fn input_links(end: NodeId, s: Seq<NodeInput>) -> Seq<FrontendNodeLink>
    decreases s.len(),
{
    if s.len() == 0 {
        Seq::empty()
    } else {
        let before = input_links(end, s.drop_last());
        match s.last() {
            NodeInput::Node { node_id, output_index, .. } => before.push(FrontendNodeLink {
                link_start: node_id,
                link_start_output_index: output_index,
                link_end: end,
                link_end_input_index: count_exposed(s.drop_last()) as usize,
            }),
            _ => before,
        }
    }
}

/// The links into the first `v` nodes of `nodes`, node after node.
pub open spec fn network_links(nodes: Seq<(NodeId, DocumentNode)>, v: int) -> Seq<FrontendNodeLink>
    decreases v,
{
    if v <= 0 {
        Seq::empty()
    } else {
        network_links(nodes, v - 1) + input_links(nodes[v - 1].0, nodes[v - 1].1.inputs@)
    }
}

impl NodeGraphMessageHandler {
    /// The links that the graph view draws for `network`.
    pub fn collect_links(network: &NodeNetwork) -> (r: Vec<FrontendNodeLink>)
        ensures
            r@ == network_links(network.nodes@, network.nodes@.len() as int),
    {
        let mut r: Vec<FrontendNodeLink> = Vec::new();
        let mut v: usize = 0;
        while v < network.nodes.len()
            invariant
                v <= network.nodes@.len(),
                r@ == network_links(network.nodes@, v as int),
            decreases network.nodes@.len() - v,
        {
            let end = network.nodes[v].0;
            let ghost inputs = network.nodes@[v as int].1.inputs@;
            let ghost r0 = r@;
            let mut exposed: usize = 0;
            let mut j: usize = 0;
            while j < network.nodes[v].1.inputs.len()
                invariant
                    v < network.nodes@.len(),
                    inputs == network.nodes@[v as int].1.inputs@,
                    end == network.nodes@[v as int].0,
                    j <= inputs.len(),
                    exposed == count_exposed(inputs.subrange(0, j as int)),
                    r@ == r0 + input_links(end, inputs.subrange(0, j as int)),
                decreases inputs.len() - j,
            {
                let ghost pre = inputs.subrange(0, j as int);
                let ghost post = inputs.subrange(0, j as int + 1);
                proof {
                    assert(post.drop_last() == pre);
                    lemma_count_exposed_bounded(pre);
                }
                let inp = network.nodes[v].1.inputs[j];
                if let NodeInput::Node { node_id, output_index, .. } = inp {
                    r.push(FrontendNodeLink {
                        link_start: node_id,
                        link_start_output_index: output_index,
                        link_end: end,
                        link_end_input_index: exposed,
                    });
                    proof {
                        assert(r@ =~= r0 + input_links(end, post));
                    }
                } else {
                    proof {
                        assert(r@ =~= r0 + input_links(end, post));
                    }
                }
                if inp.is_exposed() {
                    exposed = exposed + 1;
                }
                j = j + 1;
            }
            proof {
                assert(inputs.subrange(0, j as int) == inputs);
            }
            v = v + 1;
        }
        r
    }

    /// Open the nested network of node `node` of the open network.
    pub fn enter_nested_network(&mut self, node: NodeId)
        ensures
            final(self).network@ == old(self).network@.push(node),
            final(self).has_selection == old(self).has_selection,
    {
        self.network.push(node);
    }

    /// Close `depth` levels of nested networks (as many as are open).
    pub fn exit_nested_network(&mut self, depth: usize)
        ensures
            final(self).network@ == old(self).network@.subrange(
                0,
                if depth as int > old(self).network@.len() { 0 } else { old(self).network@.len() - depth },
            ),
            final(self).has_selection == old(self).has_selection,
    {
        let mut i: usize = 0;
        while i < depth && self.network.len() > 0
            invariant
                i <= depth,
                i <= old(self).network@.len(),
                self.network@ == old(self).network@.subrange(0, old(self).network@.len() - i),
                self.has_selection == old(self).has_selection,
            decreases depth - i,
        {
            self.network.pop();
            i = i + 1;
        }
    }
}

impl NodeNetwork {
    /// Connect output `output_index` of node `output_node` to the `connector`-th input shown
    /// as a port of node `input_node` (see `set_node_input`).
    pub fn connect_nodes_by_link(&mut self, output_node: NodeId, output_index: usize, input_node: NodeId, connector: usize) -> (r: Result<bool, EditError>)
        requires
            old(self).wf(),
        ensures
            final(self).wf(),
            !has_id(old(self).nodes@, input_node) ==> r == Err::<bool, EditError>(EditError::NoNode),
            has_id(old(self).nodes@, input_node) && count_exposed(old(self).nodes@[index_of(old(self).nodes@, input_node)].1.inputs@) <= connector
                ==> r == Err::<bool, EditError>(EditError::NoInput),
            r is Err ==> final(self).nodes@ == old(self).nodes@,
            has_id(old(self).nodes@, input_node) && connector < count_exposed(old(self).nodes@[index_of(old(self).nodes@, input_node)].1.inputs@)
                ==> if !has_id(old(self).nodes@, output_node) {
                    r == Err::<bool, EditError>(EditError::NoSource)
                } else if reaches(upstream(old(self).nodes@), index_of(old(self).nodes@, output_node), index_of(old(self).nodes@, input_node)) {
                    r == Err::<bool, EditError>(EditError::Cycle)
                } else {
                    r == Ok::<bool, EditError>(true)
                },
            r is Ok ==> exists|k: int| #[trigger] is_nth_exposed(old(self).nodes@[index_of(old(self).nodes@, input_node)].1.inputs@, connector as int, k)
                && input_replaced(old(self).nodes@, final(self).nodes@, index_of(old(self).nodes@, input_node), k,
                    NodeInput::Node { node_id: output_node, output_index, lambda: false }),
            r is Ok && acyclic(upstream(old(self).nodes@)) ==> acyclic(upstream(final(self).nodes@)),
    {
        let i = match self.find(input_node) {
            Some(i) => i,
            None => return Err(EditError::NoNode),
        };
        proof {
            lemma_index_of(self.nodes@, i as int);
        }
        let k = match nth_exposed_input(&self.nodes[i].1.inputs, connector) {
            Some(k) => k,
            None => return Err(EditError::NoInput),
        };
        proof {
            let s = self.nodes@[i as int].1.inputs@;
            crate::edit::lemma_count_exposed_prefix(s, k as int, s.len() as int);
            assert(s.subrange(0, s.len() as int) =~= s);
            assert(k < s.len());
        }
        self.set_node_input(input_node, k, NodeInput::Node { node_id: output_node, output_index, lambda: false })
    }
}

/// How the layer panel shows a layer.
#[derive(Clone, Copy, Debug, PartialEq, Eq, Structural)]
pub enum LayerClassification {
    Artboard,
    Folder,
    Layer,
}

/// One row of the layer panel.
#[derive(Clone, Copy, Debug, PartialEq, Eq, Structural)]
pub struct LayerPanelEntry {
    pub id: NodeId,
    pub layer_classification: LayerClassification,
    pub expanded: bool,
    pub has_children: bool,
    pub depth: usize,
    pub parent_id: Option<NodeId>,
    pub visible: bool,
    pub parents_visible: bool,
    pub unlocked: bool,
    pub parents_unlocked: bool,
}

/// Every strict ancestor (all of `ancestors` but the first, the layer itself) is a node of
/// the network with `visible` (or, with `lock`, not locked).
pub open spec fn ancestors_all(nodes: Seq<(NodeId, DocumentNode)>, ancestors: Seq<NodeId>, lock: bool) -> bool
    decreases ancestors.len(),
{
    if ancestors.len() <= 1 {
        true
    } else {
        ancestors_all(nodes, ancestors.drop_last(), lock) && ancestor_ok(nodes, ancestors.last(), lock)
    }
}

pub open spec fn ancestor_ok(nodes: Seq<(NodeId, DocumentNode)>, id: NodeId, lock: bool) -> bool {
    has_id(nodes, id) && if lock {
        !nodes[index_of(nodes, id)].1.locked
    } else {
        nodes[index_of(nodes, id)].1.visible
    }
}

impl NodeGraphMessageHandler {
    /// The layer panel's row for layer `id`, whose chain of ancestors, itself first, the
    /// layer hierarchy gives as `ancestors`: it is shown visible (unlocked) under its parents
    /// where all its strict ancestors are.
    pub fn layer_panel_entry(
        network: &NodeNetwork,
        id: NodeId,
        ancestors: &Vec<NodeId>,
        layer_classification: LayerClassification,
        has_children: bool,
        collapsed: bool,
    ) -> (r: Option<LayerPanelEntry>)
        requires
            network.wf(),
        ensures
            r is None <==> !has_id(network.nodes@, id) || ancestors@.len() == 0,
            r matches Some(e) ==> row_for(network, id, ancestors@, layer_classification, has_children, collapsed, e),
    {
        let p = match network.find(id) {
            Some(p) => p,
            None => return None,
        };
        proof {
            lemma_index_of(network.nodes@, p as int);
        }
        if ancestors.len() == 0 {
            return None;
        }
        let mut parents_visible = true;
        let mut parents_unlocked = true;
        let mut k: usize = 1;
        while k < ancestors.len()
            invariant
                network.wf(),
                1 <= k <= ancestors@.len(),
                parents_visible <==> ancestors_all(network.nodes@, ancestors@.subrange(0, k as int), false),
                parents_unlocked <==> ancestors_all(network.nodes@, ancestors@.subrange(0, k as int), true),
            decreases ancestors@.len() - k,
        {
            proof {
                let a1 = ancestors@.subrange(0, k as int + 1);
                assert(a1.drop_last() == ancestors@.subrange(0, k as int));
                assert(a1.last() == ancestors@[k as int]);
            }
            let found = network.find(ancestors[k]);
            match found {
                Some(q) => {
                    proof {
                        lemma_index_of(network.nodes@, q as int);
                    }
                    if !network.nodes[q].1.visible {
                        parents_visible = false;
                    }
                    if network.nodes[q].1.locked {
                        parents_unlocked = false;
                    }
                },
                None => {
                    parents_visible = false;
                    parents_unlocked = false;
                },
            }
            k = k + 1;
        }
        proof {
            assert(ancestors@.subrange(0, k as int) == ancestors@);
        }
        let parent_id = if ancestors.len() > 1 { Some(ancestors[1]) } else { None };
        Some(LayerPanelEntry {
            id,
            layer_classification,
            expanded: has_children && !collapsed,
            has_children,
            depth: ancestors.len() - 1,
            parent_id,
            visible: network.nodes[p].1.visible,
            parents_visible,
            unlocked: !network.nodes[p].1.locked,
            parents_unlocked,
        })
    }
}

impl Default for NodeGraphMessageHandler {
    fn default() -> (r: Self)
        ensures
            r.network@.len() == 0,
            !r.has_selection,
    {
        NodeGraphMessageHandler { network: Vec::new(), has_selection: false }
    }
}

impl NodeNetwork {
    /// Set input `index` of node `id` to a hidden value, adding boundary placeholders first
    /// where the node has fewer inputs.
    pub fn set_qualified_input_value(&mut self, id: NodeId, index: usize, data: u64) -> (r: Result<(), EditError>)
        requires
            old(self).wf(),
        ensures
            final(self).wf(),
            r is Err <==> !has_id(old(self).nodes@, id),
            r is Err ==> r == Err::<(), EditError>(EditError::NoNode) && final(self).nodes@ == old(self).nodes@,
            r is Ok ==> {
                let i = index_of(old(self).nodes@, id);
                let old_inputs = old(self).nodes@[i].1.inputs@;
                let padded = if index < old_inputs.len() {
                    old_inputs
                } else {
                    old_inputs + Seq::new((index + 1 - old_inputs.len()) as nat, |k: int| NodeInput::Network)
                };
                &&& final(self).nodes@.len() == old(self).nodes@.len()
                &&& forall|k: int| 0 <= k < old(self).nodes@.len() && k != i ==> #[trigger] final(self).nodes@[k] == old(self).nodes@[k]
                &&& final(self).nodes@[i].0 == id
                &&& same_but_inputs(old(self).nodes@[i].1, final(self).nodes@[i].1)
                &&& final(self).nodes@[i].1.inputs@ == padded.update(index as int, NodeInput::Value { data, exposed: false })
                &&& final(self).nodes@[i].1.display_as_layer == (old(self).nodes@[i].1.display_as_layer
                    && has_layer_shape(final(self).nodes@[i].1.inputs@))
            },
    {
        let i = match self.find(id) {
            Some(i) => i,
            None => return Err(EditError::NoNode),
        };
        proof {
            lemma_index_of(self.nodes@, i as int);
        }
        let ghost old_inputs = self.nodes@[i as int].1.inputs@;
        let ghost nodes0 = self.nodes@;
        while self.nodes[i].1.inputs.len() <= index
            invariant
                nodes0 == old(self).nodes@,
                i < self.nodes@.len(),
                self.nodes@.len() == nodes0.len(),
                old_inputs == nodes0[i as int].1.inputs@,
                forall|k: int| 0 <= k < nodes0.len() && k != i ==> #[trigger] self.nodes@[k] == nodes0[k],
                self.nodes@[i as int].0 == id,
                same_but_inputs(nodes0[i as int].1, self.nodes@[i as int].1),
                self.nodes@[i as int].1.display_as_layer == nodes0[i as int].1.display_as_layer,
                self.nodes@[i as int].1.inputs@.len() <= index + 1 || self.nodes@[i as int].1.inputs@ == old_inputs,
                self.nodes@[i as int].1.inputs@.len() >= old_inputs.len(),
                self.nodes@[i as int].1.inputs@ == old_inputs + Seq::new((self.nodes@[i as int].1.inputs@.len() - old_inputs.len()) as nat, |k: int| NodeInput::Network),
            decreases index + 1 - self.nodes@[i as int].1.inputs@.len(),
        {
            let ghost before = self.nodes@[i as int].1.inputs@;
            self.nodes[i].1.inputs.push(NodeInput::Network);
            proof {
                assert(self.nodes@[i as int].1.inputs@ =~= old_inputs + Seq::new((self.nodes@[i as int].1.inputs@.len() - old_inputs.len()) as nat, |k: int| NodeInput::Network));
            }
        }
        proof {
            let cur = self.nodes@[i as int].1.inputs@;
            if index < old_inputs.len() {
                assert(cur.len() == old_inputs.len());
                assert(cur =~= old_inputs);
            } else {
                assert(cur.len() == index + 1);
            }
            assert forall|a: int, b: int|
                0 <= a < self.nodes@.len() && 0 <= b < self.nodes@.len() && a != b implies #[trigger] self.nodes@[a].0
                != #[trigger] self.nodes@[b].0 by {
                assert(nodes0[a].0 == self.nodes@[a].0);
                assert(nodes0[b].0 == self.nodes@[b].0);
            }
        }
        let ghost mid = self.nodes@;
        self.nodes[i].1.inputs.set(index, NodeInput::Value { data, exposed: false });
        let shape = self.nodes[i].1.has_layer_shape();
        let display = self.nodes[i].1.display_as_layer;
        self.nodes[i].1.display_as_layer = display && shape;
        proof {
            assert forall|a: int, b: int|
                0 <= a < self.nodes@.len() && 0 <= b < self.nodes@.len() && a != b implies #[trigger] self.nodes@[a].0
                != #[trigger] self.nodes@[b].0 by {
                assert(nodes0[a].0 == self.nodes@[a].0);
                assert(nodes0[b].0 == self.nodes@[b].0);
            }
        }
        Ok(())
    }
}

/// The visibility (or, with `lock`, the lock) of node `id` may take `value`: boundary nodes
/// are never hidden or locked.
pub open spec fn flag_allowed(net: &NodeNetwork, id: NodeId, lock: bool, value: bool) -> bool {
    if lock {
        !value || !net.is_boundary(id)
    } else {
        value || !net.is_boundary(id)
    }
}

/// `b` is `a` with the visibility (or, with `lock`, the lock) of each node named in `sel`
/// set to `value` where that is allowed.
pub open spec fn flag_applied(net: &NodeNetwork, a: Seq<(NodeId, DocumentNode)>, b: Seq<(NodeId, DocumentNode)>, sel: Seq<NodeId>, lock: bool, value: bool) -> bool {
    &&& b.len() == a.len()
    &&& forall|v: int| 0 <= v < a.len() ==> {
        let set = sel.contains(a[v].0) && flag_allowed(net, a[v].0, lock, value);
        &&& #[trigger] b[v].0 == a[v].0
        &&& flag_set(a[v].1, b[v].1, if lock { NodeFlag::Locked } else { NodeFlag::Visible },
            if set { value } else if lock { a[v].1.locked } else { a[v].1.visible })
    }
}

impl NodeGraphMessageHandler {
    fn set_flag_on_selection(network: &mut NodeNetwork, sel: &Vec<NodeId>, lock: bool, value: bool)
        requires
            old(network).wf(),
        ensures
            final(network).wf(),
            boundary_kept(&*old(network), &*final(network)),
            flag_applied(&*old(network), old(network).nodes@, final(network).nodes@, sel@, lock, value),
    {
        let ghost nodes0 = network.nodes@;
        let mut k: usize = 0;
        while k < sel.len()
            invariant
                network.wf(),
                nodes0 == old(network).nodes@,
                boundary_kept(&*old(network), &*network),
                k <= sel@.len(),
                flag_applied(&*old(network), nodes0, network.nodes@, sel@.subrange(0, k as int), lock, value),
            decreases sel@.len() - k,
        {
            let ghost before = network.nodes@;
            let id = sel[k];
            let res = if lock { network.set_locked(id, value) } else { network.set_visibility(id, value) };
            k = k + 1;
            proof {
                let pre = sel@.subrange(0, k - 1);
                let post = sel@.subrange(0, k as int);
                assert(post == pre.push(id));
                assert(network.nodes@.len() == nodes0.len());
                assert forall|v: int| 0 <= v < nodes0.len() implies {
                    let set = post.contains(nodes0[v].0) && flag_allowed(&*old(network), nodes0[v].0, lock, value);
                    &&& #[trigger] network.nodes@[v].0 == nodes0[v].0
                    &&& flag_set(nodes0[v].1, network.nodes@[v].1, if lock { NodeFlag::Locked } else { NodeFlag::Visible },
                        if set { value } else if lock { nodes0[v].1.locked } else { nodes0[v].1.visible })
                } by {
                    crate::delete::lemma_push_contains(pre, id, nodes0[v].0);
                    assert(before[v].0 == nodes0[v].0);
                    if res is Ok {
                        let i = index_of(before, id);
                        lemma_index_of(before, i);
                        if v != i {
                            assert(network.nodes@[v] == before[v]);
                            assert(before[i].0 == id);
                        }
                    } else {
                        if has_id(before, id) {
                            let i = index_of(before, id);
                            lemma_index_of(before, i);
                        }
                        assert(network.nodes@ == before);
                    }
                }
                assert(flag_applied(&*old(network), nodes0, network.nodes@, post, lock, value));
            }
        }
        proof {
            assert(sel@.subrange(0, k as int) == sel@);
        }
    }

    /// Show every selected node where some selected node is hidden; hide them all (but
    /// boundary nodes) otherwise. Returns the visibility that was applied.
    pub fn toggle_selected_visibility(network: &mut NodeNetwork, sel: &Vec<NodeId>) -> (r: bool)
        requires
            old(network).wf(),
        ensures
            r == !all_visible(old(network).nodes@, sel@),
            final(network).wf(),
            boundary_kept(&*old(network), &*final(network)),
            flag_applied(&*old(network), old(network).nodes@, final(network).nodes@, sel@, false, r),
    {
        let visible = !Self::selection_buttons(network, sel).all_visible;
        Self::set_flag_on_selection(network, sel, false, visible);
        visible
    }

    /// Unlock every selected node where some selected node is locked; lock them all (but
    /// boundary nodes) otherwise. Returns the lock that was applied.
    pub fn toggle_selected_locked(network: &mut NodeNetwork, sel: &Vec<NodeId>) -> (r: bool)
        requires
            old(network).wf(),
        ensures
            r == !exists|k: int| 0 <= k < sel@.len() && #[trigger] has_id(old(network).nodes@, sel@[k])
                && old(network).nodes@[index_of(old(network).nodes@, sel@[k])].1.locked,
            final(network).wf(),
            boundary_kept(&*old(network), &*final(network)),
            flag_applied(&*old(network), old(network).nodes@, final(network).nodes@, sel@, true, r),
    {
        let mut any_locked = false;
        let mut k: usize = 0;
        while k < sel.len()
            invariant
                network.wf(),
                k <= sel@.len(),
                any_locked == exists|k2: int| 0 <= k2 < k && #[trigger] has_id(network.nodes@, sel@[k2])
                    && network.nodes@[index_of(network.nodes@, sel@[k2])].1.locked,
            decreases sel@.len() - k,
        {
            if let Some(p) = network.find(sel[k]) {
                proof {
                    lemma_index_of(network.nodes@, p as int);
                }
                if network.nodes[p].1.locked {
                    any_locked = true;
                }
            }
            k = k + 1;
        }
        Self::set_flag_on_selection(network, sel, true, !any_locked);
        !any_locked
    }
}

impl NodeGraphMessageHandler {
    /// Delete the selected nodes (see `NodeNetwork::delete_nodes`). Returns whether the
    /// graph must run again: some node still selected feeds into the node of a current
    /// export.
    pub fn delete_selected_nodes(&mut self, data: &mut NodeGraphHandlerData, registry: &NodeTypeRegistry, reconnect: bool) -> (r: bool)
        requires
            old(data).document_network.wf(),
        ensures
            final(data).document_network.wf(),
            final(data).graph_view_overlay_open == old(data).graph_view_overlay_open,
            removes_in_turn(registry, &old(data).document_network,
                deletion_set(&old(data).document_network, old(data).selected_nodes@, reconnect), reconnect,
                final(data).document_network.nodes@),
            forall|x: NodeId| #[trigger] has_id(final(data).document_network.nodes@, x) <==> has_id(old(data).document_network.nodes@, x)
                && !(deletion_set(&old(data).document_network, old(data).selected_nodes@, reconnect).contains(x)
                    && !old(data).document_network.is_boundary(x)),
            forall|x: NodeId| #[trigger] final(data).selected_nodes@.contains(x) <==> old(data).selected_nodes@.contains(x)
                && !(has_id(old(data).document_network.nodes@, x)
                    && deletion_set(&old(data).document_network, old(data).selected_nodes@, reconnect).contains(x)
                    && !old(data).document_network.is_boundary(x)),
            r == exists|k: int| 0 <= k < final(data).selected_nodes@.len() && #[trigger] has_id(final(data).document_network.nodes@, final(data).selected_nodes@[k])
                && connected_to_output(final(data).document_network.nodes@, final(data).document_network.exports@,
                    index_of(final(data).document_network.nodes@, final(data).selected_nodes@[k])),
            final(self).has_selection == (final(data).selected_nodes@.len() > 0),
            final(self).network@ == old(self).network@,
    {
        let ids = clone_ids(&data.selected_nodes);
        let removed = data.document_network.delete_nodes(registry, &ids, reconnect, &mut data.selected_nodes);
        proof {
            assert forall|x: NodeId| #[trigger] data.selected_nodes@.contains(x) <==> old(data).selected_nodes@.contains(x)
                && !(has_id(old(data).document_network.nodes@, x)
                    && deletion_set(&old(data).document_network, old(data).selected_nodes@, reconnect).contains(x)
                    && !old(data).document_network.is_boundary(x)) by {
                crate::delete::lemma_filter_out_contains(old(data).selected_nodes@, removed@, x);
            }
        }
        let mut run = false;
        let mut k: usize = 0;
        while k < data.selected_nodes.len()
            invariant
                data.document_network.wf(),
                k <= data.selected_nodes@.len(),
                run == exists|k2: int| 0 <= k2 < k && #[trigger] has_id(data.document_network.nodes@, data.selected_nodes@[k2])
                    && connected_to_output(data.document_network.nodes@, data.document_network.exports@,
                        index_of(data.document_network.nodes@, data.selected_nodes@[k2])),
            decreases data.selected_nodes@.len() - k,
        {
            if data.document_network.connected_to_output(data.selected_nodes[k]) {
                run = true;
            }
            k = k + 1;
        }
        self.has_selection = data.selected_nodes.len() > 0;
        run
    }
}

/// A copy of a list of ids.
pub fn clone_ids(v: &Vec<NodeId>) -> (r: Vec<NodeId>)
    ensures
        r@ == v@,
{
    let mut r: Vec<NodeId> = Vec::new();
    let mut i: usize = 0;
    while i < v.len()
        invariant
            i <= v@.len(),
            r@ == v@.subrange(0, i as int),
        decreases v@.len() - i,
    {
        r.push(v[i]);
        i = i + 1;
    }
    assert(r@ =~= v@);
    r
}

/// `e` is the layer panel's row for node `id` with the given place in the layer hierarchy.
pub open spec fn row_for(
    network: &NodeNetwork,
    id: NodeId,
    ancestors: Seq<NodeId>,
    layer_classification: LayerClassification,
    has_children: bool,
    collapsed: bool,
    e: LayerPanelEntry,
) -> bool {
    let node = network.nodes@[index_of(network.nodes@, id)].1;
    &&& e.id == id
    &&& e.layer_classification == layer_classification
    &&& e.has_children == has_children
    &&& e.expanded == (has_children && !collapsed)
    &&& e.depth == ancestors.len() - 1
    &&& e.parent_id == if ancestors.len() > 1 { Some(ancestors[1]) } else { None::<NodeId> }
    &&& e.visible == node.visible
    &&& e.unlocked == !node.locked
    &&& e.parents_visible == ancestors_all(network.nodes@, ancestors, false)
    &&& e.parents_unlocked == ancestors_all(network.nodes@, ancestors, true)
}

/// What the layer hierarchy knows of one layer: its chain of ancestors (itself first), its
/// classification, whether it has children and whether the panel shows it collapsed.
pub struct LayerRecord {
    pub id: NodeId,
    pub ancestors: Vec<NodeId>,
    pub layer_classification: LayerClassification,
    pub has_children: bool,
    pub collapsed: bool,
}

/// The record names a layer node of the network and places it in the hierarchy.
pub open spec fn record_shown(network: &NodeNetwork, rec: LayerRecord) -> bool {
    has_id(network.nodes@, rec.id) && network.nodes@[index_of(network.nodes@, rec.id)].1.is_layer && rec.ancestors@.len() > 0
}

/// `rows` are the rows of the records that are shown, in the records' order.
pub open spec fn rows_of(network: &NodeNetwork, records: Seq<LayerRecord>, rows: Seq<LayerPanelEntry>) -> bool
    decreases records.len(),
{
    if records.len() == 0 {
        rows.len() == 0
    } else {
        let rec = records.last();
        if record_shown(network, rec) {
            rows.len() > 0 && row_for(network, rec.id, rec.ancestors@, rec.layer_classification, rec.has_children, rec.collapsed, rows.last())
                && rows_of(network, records.drop_last(), rows.drop_last())
        } else {
            rows_of(network, records.drop_last(), rows)
        }
    }
}

impl NodeGraphMessageHandler {
    /// The layer panel's rows: one for each record that names a layer node of the network.
    pub fn layer_panel_entries(network: &NodeNetwork, records: &Vec<LayerRecord>) -> (r: Vec<LayerPanelEntry>)
        requires
            network.wf(),
        ensures
            rows_of(network, records@, r@),
    {
        let mut r: Vec<LayerPanelEntry> = Vec::new();
        let mut i: usize = 0;
        while i < records.len()
            invariant
                network.wf(),
                i <= records@.len(),
                rows_of(network, records@.subrange(0, i as int), r@),
            decreases records@.len() - i,
        {
            let ghost pre = records@.subrange(0, i as int);
            let ghost post = records@.subrange(0, i as int + 1);
            let ghost r0 = r@;
            proof {
                assert(post.drop_last() == pre);
                assert(post.last() == records@[i as int]);
            }
            let rec = &records[i];
            let shown = match network.find(rec.id) {
                Some(p) => {
                    proof {
                        lemma_index_of(network.nodes@, p as int);
                    }
                    network.nodes[p].1.is_layer
                },
                None => false,
            };
            if shown {
                match Self::layer_panel_entry(network, rec.id, &rec.ancestors, rec.layer_classification, rec.has_children, rec.collapsed) {
                    Some(e) => {
                        r.push(e);
                        proof {
                            assert(r@.drop_last() == r0);
                        }
                    },
                    None => {},
                }
            }
            i = i + 1;
        }
        proof {
            assert(records@.subrange(0, i as int) == records@);
        }
        r
    }
}
} // verus!
