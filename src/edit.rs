use vstd::prelude::*;

use crate::graph::{
    count_connections, count_exposed_values, exports_contain, has_id, has_layer_shape, ids_unique,
    index_of, is_connection_from, lemma_index_of, referenced, refs_ok, same_but_inputs, DocumentNode, EditError, NodeId, NodeInput,
    NodeNetwork, NodeOutput,
};
use crate::registry::NodeTypeRegistry;
use crate::topology::{acyclic, lemma_fresh_node_acyclic, lemma_new_edge_acyclic, reach, reachable_from, reaches, upstream};

verus! {

/// The network's nodes after input `index` of the node at position `i` became `input`:
/// a node whose inputs lose the layer shape stops being displayed as a layer.
pub open spec fn input_replaced(
    old_nodes: Seq<(NodeId, DocumentNode)>,
    new_nodes: Seq<(NodeId, DocumentNode)>,
    i: int,
    index: int,
    input: NodeInput,
) -> bool {
    &&& new_nodes.len() == old_nodes.len()
    &&& forall|k: int| 0 <= k < old_nodes.len() && k != i ==> #[trigger] new_nodes[k] == old_nodes[k]
    &&& new_nodes[i].0 == old_nodes[i].0
    &&& same_but_inputs(old_nodes[i].1, new_nodes[i].1)
    &&& new_nodes[i].1.inputs@ == old_nodes[i].1.inputs@.update(index, input)
    &&& new_nodes[i].1.display_as_layer == (old_nodes[i].1.display_as_layer && has_layer_shape(
        new_nodes[i].1.inputs@,
    ))
}

/// Only the nodes changed.
pub open spec fn boundary_kept(a: &NodeNetwork, b: &NodeNetwork) -> bool {
    &&& b.imports@ == a.imports@
    &&& b.exports@ == a.exports@
    &&& opt_seq(b.previous_exports) == opt_seq(a.previous_exports)
}

pub open spec fn opt_seq(o: Option<Vec<NodeOutput>>) -> Option<Seq<NodeOutput>> {
    match o {
        Some(v) => Some(v@),
        None => None,
    }
}

/// Index, among all inputs, of the `n`-th exposed one.
pub open spec fn is_nth_exposed(s: Seq<NodeInput>, n: int, k: int) -> bool {
    &&& 0 <= k < s.len()
    &&& s[k].spec_is_exposed()
    &&& count_exposed(s.subrange(0, k)) == n
}

/// Number of inputs of `s` shown as ports.
pub open spec fn count_exposed(s: Seq<NodeInput>) -> nat
    decreases s.len(),
{
    if s.len() == 0 {
        0
    } else {
        count_exposed(s.drop_last()) + if s.last().spec_is_exposed() { 1nat } else { 0nat }
    }
}

pub proof fn lemma_count_exposed_bounded(s: Seq<NodeInput>)
    ensures
        count_exposed(s) <= s.len(),
    decreases s.len(),
{
    if s.len() > 0 {
        lemma_count_exposed_bounded(s.drop_last());
    }
}

/// Index among all inputs of the `n`-th input shown as a port.
pub fn nth_exposed_input(inputs: &Vec<NodeInput>, n: usize) -> (r: Option<usize>)
    ensures
        r matches Some(k) ==> is_nth_exposed(inputs@, n as int, k as int),
        r is None ==> count_exposed(inputs@) <= n,
{
    let mut seen: usize = 0;
    let mut k: usize = 0;
    while k < inputs.len()
        invariant
            k <= inputs@.len(),
            seen == count_exposed(inputs@.subrange(0, k as int)),
            seen <= n,
        decreases inputs@.len() - k,
    {
        let s = Ghost(inputs@.subrange(0, k as int + 1));
        assert(s@.drop_last() =~= inputs@.subrange(0, k as int));
        if inputs[k].is_exposed() {
            if seen == n {
                return Some(k);
            }
            seen = seen + 1;
        }
        k = k + 1;
    }
    assert(inputs@.subrange(0, k as int) =~= inputs@);
    None
}

impl NodeNetwork {
    /// Replace one input of the node at position `i`; the node stops being displayed as a
    /// layer where its inputs lose the layer shape.
    fn replace_input(&mut self, i: usize, index: usize, input: NodeInput)
        requires
            i < old(self).nodes@.len(),
            index < old(self).nodes@[i as int].1.inputs@.len(),
        ensures
            input_replaced(old(self).nodes@, final(self).nodes@, i as int, index as int, input),
            boundary_kept(&*old(self), &*final(self)),
    {
        self.nodes[i].1.inputs[index] = input;
        let shape = self.nodes[i].1.has_layer_shape();
        let display = self.nodes[i].1.display_as_layer;
        self.nodes[i].1.display_as_layer = display && shape;
    }
}


/// Only the node at position `i` may differ between `a` and `b`, and it keeps its id.
pub open spec fn only_node_changed(
    a: Seq<(NodeId, DocumentNode)>,
    b: Seq<(NodeId, DocumentNode)>,
    i: int,
) -> bool {
    &&& b.len() == a.len()
    &&& 0 <= i < a.len()
    &&& forall|k: int| 0 <= k < a.len() && k != i ==> #[trigger] b[k] == a[k]
    &&& b[i].0 == a[i].0
}

/// The input that `expose_input` writes, if any: a value keeps its data and takes the new
/// flag; another input becomes the registry's default value with the new flag.
pub open spec fn exposed_input(old: NodeInput, default: Option<NodeInput>, exposed: bool) -> Option<
    NodeInput,
> {
    match old {
        NodeInput::Value { data, .. } => Some(NodeInput::Value { data, exposed }),
        _ => match default {
            Some(NodeInput::Value { data, .. }) => Some(NodeInput::Value { data, exposed }),
            _ => None,
        },
    }
}

/// The input that disconnecting writes: the registry's default, shown as a port where it
/// is a value.
pub open spec fn disconnected_input(default: NodeInput) -> NodeInput {
    match default {
        NodeInput::Value { data, .. } => NodeInput::Value { data, exposed: true },
        _ => default,
    }
}

/// Exports and stash after toggling the preview of `id`.
pub open spec fn toggled_preview(
    exports: Seq<NodeOutput>,
    previous: Option<Seq<NodeOutput>>,
    id: NodeId,
) -> (Seq<NodeOutput>, Option<Seq<NodeOutput>>) {
    if exports.len() == 0 {
        (exports, previous)
    } else if !exports_contain(exports, id) {
        let stash = match previous {
            Some(p) => p,
            None => exports,
        };
        (exports.update(0, NodeOutput { node_id: id, output_index: 0 }), Some(stash))
    } else {
        match previous {
            Some(p) => (p, None),
            None => (exports, previous),
        }
    }
}

/// Toggling the preview of a node that is not an output twice restores the exports exactly
/// and leaves no stash.
pub proof fn lemma_preview_round_trip(exports: Seq<NodeOutput>, id: NodeId)
    requires
        exports.len() > 0,
        !exports_contain(exports, id),
    ensures
        toggled_preview(exports, None, id).1 == Some(exports),
        toggled_preview(toggled_preview(exports, None, id).0, toggled_preview(exports, None, id).1, id)
            == (exports, None::<Seq<NodeOutput>>),
{
    let e1 = exports.update(0, NodeOutput { node_id: id, output_index: 0 });
    assert(e1[0].node_id == id);
    assert(exports_contain(e1, id));
}

impl NodeNetwork {
    /// Add a node under a fresh id. Its connections must name nodes of the network.
    pub fn insert_node(&mut self, id: NodeId, node: DocumentNode) -> (r: Result<(), EditError>)
        requires
            old(self).wf(),
        ensures
            final(self).wf(),
            has_id(old(self).nodes@, id) ==> r == Err::<(), EditError>(EditError::DuplicateId),
            !has_id(old(self).nodes@, id) ==> (r == Err::<(), EditError>(EditError::NoSource) <==> exists|j: int, nid: NodeId|
                0 <= j < node.inputs@.len() && #[trigger] is_connection_from(node.inputs@[j], nid) && !has_id(old(self).nodes@, nid)),
            r is Err ==> final(self).nodes@ == old(self).nodes@,
            r is Ok ==> final(self).nodes@ == old(self).nodes@.push((id, node)),
            r is Ok && refs_ok(old(self).nodes@) ==> refs_ok(final(self).nodes@),
            !has_id(old(self).nodes@, id) && !(exists|j: int, nid: NodeId|
                0 <= j < node.inputs@.len() && #[trigger] is_connection_from(node.inputs@[j], nid) && !has_id(old(self).nodes@, nid))
                ==> (r == Err::<(), EditError>(EditError::IdReferenced) <==> referenced(old(self).nodes@, id)),
            r is Ok <==> !has_id(old(self).nodes@, id) && !referenced(old(self).nodes@, id) && !(exists|j: int, nid: NodeId|
                0 <= j < node.inputs@.len() && #[trigger] is_connection_from(node.inputs@[j], nid) && !has_id(old(self).nodes@, nid)),
            r is Ok && acyclic(upstream(old(self).nodes@)) ==> acyclic(upstream(final(self).nodes@)),
            boundary_kept(&*old(self), &*final(self)),
    {
        if self.find(id).is_some() {
            return Err(EditError::DuplicateId);
        }
        let mut j: usize = 0;
        while j < node.inputs.len()
            invariant
                self.wf(),
                !has_id(self.nodes@, id),
                j <= node.inputs@.len(),
                forall|jj: int, nid: NodeId| 0 <= jj < j && #[trigger] is_connection_from(node.inputs@[jj], nid) ==> has_id(self.nodes@, nid),
            decreases node.inputs@.len() - j,
        {
            if let NodeInput::Node { node_id, .. } = node.inputs[j] {
                if self.find(node_id).is_none() {
                    assert(is_connection_from(node.inputs@[j as int], node_id));
                    return Err(EditError::NoSource);
                }
            }
            j = j + 1;
        }
        let mut a: usize = 0;
        while a < self.nodes.len()
            invariant
                self.wf(),
                self.nodes@ == old(self).nodes@,
                !has_id(self.nodes@, id),
                forall|jj: int, nid: NodeId| 0 <= jj < node.inputs@.len() && #[trigger] is_connection_from(node.inputs@[jj], nid) ==> has_id(self.nodes@, nid),
                a <= self.nodes@.len(),
                forall|a2: int, jj: int| 0 <= a2 < a && 0 <= jj < self.nodes@[a2].1.inputs@.len() ==> !#[trigger] is_connection_from(self.nodes@[a2].1.inputs@[jj], id),
            decreases self.nodes@.len() - a,
        {
            let mut jj: usize = 0;
            while jj < self.nodes[a].1.inputs.len()
                invariant
                    self.wf(),
                    self.nodes@ == old(self).nodes@,
                    !has_id(self.nodes@, id),
                    forall|j3: int, nid: NodeId| 0 <= j3 < node.inputs@.len() && #[trigger] is_connection_from(node.inputs@[j3], nid) ==> has_id(self.nodes@, nid),
                    a < self.nodes@.len(),
                    jj <= self.nodes@[a as int].1.inputs@.len(),
                    forall|j2: int| 0 <= j2 < jj ==> !#[trigger] is_connection_from(self.nodes@[a as int].1.inputs@[j2], id),
                decreases self.nodes@[a as int].1.inputs@.len() - jj,
            {
                if let NodeInput::Node { node_id, .. } = self.nodes[a].1.inputs[jj] {
                    if node_id == id {
                        assert(is_connection_from(self.nodes@[a as int].1.inputs@[jj as int], id));
                        return Err(EditError::IdReferenced);
                    }
                }
                jj = jj + 1;
            }
            a = a + 1;
        }
        let ghost old_nodes = self.nodes@;
        self.nodes.push((id, node));
        proof {
            let n = old_nodes.len() as int;
            let new_nodes = self.nodes@;
            assert(new_nodes[n].0 == id);
            assert forall|a: int, b: int|
                0 <= a < new_nodes.len() && 0 <= b < new_nodes.len() && a != b implies #[trigger] new_nodes[a].0
                != #[trigger] new_nodes[b].0 by {
                if a < n && b < n {
                    assert(new_nodes[a] == old_nodes[a]);
                    assert(new_nodes[b] == old_nodes[b]);
                } else if a < n {
                    assert(new_nodes[a] == old_nodes[a]);
                } else {
                    assert(new_nodes[b] == old_nodes[b]);
                }
            }
            if refs_ok(old_nodes) {
                assert forall|a: int, jj: int, nid: NodeId|
                    0 <= a < new_nodes.len() && 0 <= jj < new_nodes[a].1.inputs@.len() && #[trigger] is_connection_from(
                        new_nodes[a].1.inputs@[jj],
                        nid,
                    ) implies has_id(new_nodes, nid) by {
                    if a < n {
                        assert(new_nodes[a] == old_nodes[a]);
                        assert(is_connection_from(old_nodes[a].1.inputs@[jj], nid));
                        assert(has_id(old_nodes, nid));
                    } else {
                        assert(new_nodes[a].1 == node);
                        assert(is_connection_from(node.inputs@[jj], nid));
                        assert(has_id(old_nodes, nid));
                    }
                    let w = choose|w: int| 0 <= w < old_nodes.len() && #[trigger] old_nodes[w].0 == nid;
                    assert(new_nodes[w] == old_nodes[w]);
                }
            }
            {
                assert forall|x: int, y: int| #[trigger] upstream(new_nodes)(x, y) implies y != n && (upstream(old_nodes)(x, y) || x == n) by {
                    let jj = choose|jj: int| 0 <= jj < new_nodes[x].1.inputs@.len() && #[trigger] is_connection_from(new_nodes[x].1.inputs@[jj], new_nodes[y].0);
                    if x < n {
                        assert(new_nodes[x] == old_nodes[x]);
                    }
                    if y == n {
                        if x < n {
                            assert(is_connection_from(old_nodes[x].1.inputs@[jj], id));
                        } else {
                            assert(new_nodes[x].1 == node);
                            assert(is_connection_from(node.inputs@[jj], id));
                            assert(has_id(old_nodes, id));
                        }
                    } else if x < n {
                        assert(new_nodes[y] == old_nodes[y]);
                    }
                }
                if acyclic(upstream(old_nodes)) {
                    lemma_fresh_node_acyclic(upstream(old_nodes), upstream(new_nodes), n);
                }
            }
        }
        Ok(())
    }

    /// Replace input `index` of node `id`. A connection must name a node of the network
    /// that does not take its inputs, directly or not, from node `id`. Returns whether a
    /// connection was added or removed.
    pub fn set_node_input(&mut self, id: NodeId, index: usize, input: NodeInput) -> (r: Result<
        bool,
        EditError,
    >)
        requires
            old(self).wf(),
        ensures
            final(self).wf(),
            boundary_kept(&*old(self), &*final(self)),
            !has_id(old(self).nodes@, id) ==> r == Err::<bool, EditError>(EditError::NoNode),
            has_id(old(self).nodes@, id) ==> {
                let i = index_of(old(self).nodes@, id);
                let old_inputs = old(self).nodes@[i].1.inputs@;
                &&& index >= old_inputs.len() ==> r == Err::<bool, EditError>(EditError::NoInput)
                &&& index < old_inputs.len() ==> match input {
                    NodeInput::Node { node_id, .. } => if !has_id(old(self).nodes@, node_id) {
                        r == Err::<bool, EditError>(EditError::NoSource)
                    } else if reaches(
                        upstream(old(self).nodes@),
                        index_of(old(self).nodes@, node_id),
                        i,
                    ) {
                        r == Err::<bool, EditError>(EditError::Cycle)
                    } else {
                        r == Ok::<bool, EditError>(true)
                    },
                    _ => r == Ok::<bool, EditError>(old_inputs[index as int] is Node),
                }
                &&& r is Ok ==> input_replaced(old(self).nodes@, final(self).nodes@, i, index as int, input)
            },
            r is Err ==> final(self).nodes@ == old(self).nodes@,
            r is Ok && acyclic(upstream(old(self).nodes@)) ==> acyclic(upstream(final(self).nodes@)),
            r is Ok && refs_ok(old(self).nodes@) ==> refs_ok(final(self).nodes@),
    {
        let i = match self.find(id) {
            Some(i) => i,
            None => return Err(EditError::NoNode),
        };
        proof {
            lemma_index_of(self.nodes@, i as int);
        }
        if index >= self.nodes[i].1.inputs.len() {
            return Err(EditError::NoInput);
        }
        let ghost source: int = -1;
        if let NodeInput::Node { node_id, .. } = input {
            let si = match self.find(node_id) {
                Some(si) => si,
                None => return Err(EditError::NoSource),
            };
            proof {
                lemma_index_of(self.nodes@, si as int);
                source = si as int;
            }
            let mut roots: Vec<usize> = Vec::new();
            roots.push(si);
            let marks = self.upstream_closure(&roots);
            proof {
                let e = upstream(self.nodes@);
                if reaches(e, si as int, i as int) {
                    assert(roots@[0] == si);
                    assert(reachable_from(e, roots@, i as int));
                }
                if marks@[i as int] {
                    let k = choose|k: int| 0 <= k < roots@.len() && #[trigger] reaches(e, roots@[k] as int, i as int);
                    assert(k == 0);
                }
            }
            if marks[i] {
                return Err(EditError::Cycle);
            }
        }
        let changed = self.nodes[i].1.inputs[index].is_node() || input.is_node();
        self.replace_input(i, index, input);
        proof {
            assert forall|a: int, b: int|
                0 <= a < self.nodes@.len() && 0 <= b < self.nodes@.len() && a != b implies #[trigger] self.nodes@[a].0
                != #[trigger] self.nodes@[b].0 by {
                assert(old(self).nodes@[a].0 == self.nodes@[a].0);
                assert(old(self).nodes@[b].0 == self.nodes@[b].0);
            }
            lemma_replaced_edges(old(self).nodes@, self.nodes@, i as int, index as int, input, source);
            if acyclic(upstream(old(self).nodes@)) {
                if source == -1 {
                    if reaches(upstream(old(self).nodes@), source, i as int) {
                        let n = choose|n: nat| #[trigger] reach(upstream(old(self).nodes@), source, i as int, n);
                        lemma_no_path_from_outside(old(self).nodes@, i as int, n);
                    }
                }
                lemma_new_edge_acyclic(upstream(old(self).nodes@), upstream(self.nodes@), i as int, source);
            }
            if refs_ok(old(self).nodes@) {
                assert forall|a: int, j: int, nid: NodeId|
                    0 <= a < self.nodes@.len() && 0 <= j < self.nodes@[a].1.inputs@.len() && #[trigger] is_connection_from(
                        self.nodes@[a].1.inputs@[j],
                        nid,
                    ) implies has_id(self.nodes@, nid) by {
                    if a != i as int || j != index as int {
                        assert(is_connection_from(old(self).nodes@[a].1.inputs@[j], nid));
                    }
                    let w = index_of(old(self).nodes@, nid);
                    assert(self.nodes@[w].0 == old(self).nodes@[w].0);
                }
            }
        }
        Ok(changed)
    }

    /// Show or hide input `index` of node `id` as a port.
    pub fn expose_input(
        &mut self,
        registry: &NodeTypeRegistry,
        id: NodeId,
        index: usize,
        exposed: bool,
    ) -> (r: Result<(), EditError>)
        requires
            old(self).wf(),
        ensures
            final(self).wf(),
            boundary_kept(&*old(self), &*final(self)),
            !has_id(old(self).nodes@, id) ==> r == Err::<(), EditError>(EditError::NoNode),
            has_id(old(self).nodes@, id) ==> {
                let i = index_of(old(self).nodes@, id);
                let node = old(self).nodes@[i].1;
                &&& index >= node.inputs@.len() ==> r == Err::<(), EditError>(EditError::NoInput)
                &&& index < node.inputs@.len() ==> match exposed_input(
                    node.inputs@[index as int],
                    registry.default_of(node.type_id, index as int),
                    exposed,
                ) {
                    Some(input) => r is Ok && input_replaced(
                        old(self).nodes@,
                        final(self).nodes@,
                        i,
                        index as int,
                        input,
                    ),
                    None => r == Err::<(), EditError>(EditError::NoDefault),
                }
            },
            r is Err ==> final(self).nodes@ == old(self).nodes@,
    {
        let i = match self.find(id) {
            Some(i) => i,
            None => return Err(EditError::NoNode),
        };
        proof {
            lemma_index_of(self.nodes@, i as int);
        }
        if index >= self.nodes[i].1.inputs.len() {
            return Err(EditError::NoInput);
        }
        let input = match self.nodes[i].1.inputs[index] {
            NodeInput::Value { data, .. } => NodeInput::Value { data, exposed },
            _ => match registry.default_input(self.nodes[i].1.type_id, index) {
                Some(NodeInput::Value { data, .. }) => NodeInput::Value { data, exposed },
                _ => return Err(EditError::NoDefault),
            },
        };
        self.replace_input(i, index, input);
        proof {
            assert forall|a: int, b: int|
                0 <= a < self.nodes@.len() && 0 <= b < self.nodes@.len() && a != b implies #[trigger] self.nodes@[a].0
                != #[trigger] self.nodes@[b].0 by {
                assert(old(self).nodes@[a].0 == self.nodes@[a].0);
                assert(old(self).nodes@[b].0 == self.nodes@[b].0);
            }
        }
        Ok(())
    }

    /// Reset the `n`-th exposed input of node `id` to the registry's default, still shown
    /// as a port.
    pub fn disconnect_input(&mut self, registry: &NodeTypeRegistry, id: NodeId, n: usize) -> (r:
        Result<(), EditError>)
        requires
            old(self).wf(),
        ensures
            final(self).wf(),
            boundary_kept(&*old(self), &*final(self)),
            !has_id(old(self).nodes@, id) ==> r == Err::<(), EditError>(EditError::NoNode),
            has_id(old(self).nodes@, id) ==> {
                let i = index_of(old(self).nodes@, id);
                let node = old(self).nodes@[i].1;
                &&& count_exposed(node.inputs@) <= n ==> r == Err::<(), EditError>(
                    EditError::NoInput,
                )
                &&& forall|k: int| #[trigger]
                    is_nth_exposed(node.inputs@, n as int, k) ==> match registry.default_of(
                        node.type_id,
                        k,
                    ) {
                        Some(d) => r is Ok && input_replaced(
                            old(self).nodes@,
                            final(self).nodes@,
                            i,
                            k,
                            disconnected_input(d),
                        ),
                        None => r == Err::<(), EditError>(EditError::NoDefault),
                    }
            },
            r is Err ==> final(self).nodes@ == old(self).nodes@,
    {
        let i = match self.find(id) {
            Some(i) => i,
            None => return Err(EditError::NoNode),
        };
        proof {
            lemma_index_of(self.nodes@, i as int);
        }
        let k = match nth_exposed_input(&self.nodes[i].1.inputs, n) {
            Some(k) => k,
            None => {
                proof {
                    let s = self.nodes@[i as int].1.inputs@;
                    assert forall|k2: int| !#[trigger] is_nth_exposed(s, n as int, k2) by {
                        if is_nth_exposed(s, n as int, k2) {
                            lemma_count_exposed_prefix(s, k2, s.len() as int);
                            assert(s.subrange(0, s.len() as int) =~= s);
                        }
                    }
                }
                return Err(EditError::NoInput);
            },
        };
        proof {
            let s = self.nodes@[i as int].1.inputs@;
            lemma_count_exposed_prefix(s, k as int, s.len() as int);
            assert(s.subrange(0, s.len() as int) =~= s);
            assert forall|k2: int| #[trigger] is_nth_exposed(s, n as int, k2) implies k2 == k by {
                lemma_nth_exposed_unique(s, n as int, k as int, k2);
            }
        }
        let input = match registry.default_input(self.nodes[i].1.type_id, k) {
            Some(NodeInput::Value { data, .. }) => NodeInput::Value { data, exposed: true },
            Some(d) => d,
            None => {
                assert(registry.default_of(self.nodes@[i as int].1.type_id, k as int) is None);
                return Err(EditError::NoDefault);
            },
        };
        self.replace_input(i, k, input);
        proof {
            assert forall|a: int, b: int|
                0 <= a < self.nodes@.len() && 0 <= b < self.nodes@.len() && a != b implies #[trigger] self.nodes@[a].0
                != #[trigger] self.nodes@[b].0 by {
                assert(old(self).nodes@[a].0 == self.nodes@[a].0);
                assert(old(self).nodes@[b].0 == self.nodes@[b].0);
            }
        }
        Ok(())
    }
}

pub proof fn lemma_count_exposed_prefix(s: Seq<NodeInput>, a: int, b: int)
    requires
        0 <= a <= b <= s.len(),
    ensures
        count_exposed(s.subrange(0, a)) <= count_exposed(s.subrange(0, b)),
        a < b && s[a].spec_is_exposed() ==> count_exposed(s.subrange(0, a)) < count_exposed(
            s.subrange(0, b),
        ),
    decreases b - a,
{
    if a < b {
        lemma_count_exposed_prefix(s, a, b - 1);
        assert(s.subrange(0, b).drop_last() =~= s.subrange(0, b - 1));
    }
}

pub proof fn lemma_nth_exposed_unique(s: Seq<NodeInput>, n: int, k1: int, k2: int)
    requires
        is_nth_exposed(s, n, k1),
        is_nth_exposed(s, n, k2),
    ensures
        k1 == k2,
{
    if k1 < k2 {
        lemma_count_exposed_prefix(s, k1, k2);
    } else if k2 < k1 {
        lemma_count_exposed_prefix(s, k2, k1);
    }
}

/// An edit of a node's inputs that leaves them without the layer shape (one connection and
/// one exposed value) turns off the node's display as a layer.
pub proof fn lemma_layer_shape_revert(
    old_nodes: Seq<(NodeId, DocumentNode)>,
    new_nodes: Seq<(NodeId, DocumentNode)>,
    i: int,
    index: int,
    input: NodeInput,
)
    requires
        input_replaced(old_nodes, new_nodes, i, index, input),
        !has_layer_shape(old_nodes[i].1.inputs@.update(index, input)),
    ensures
        !new_nodes[i].1.display_as_layer,
{
}

/// Which flag of a node an edit sets.
pub enum NodeFlag {
    Visible,
    Locked,
    DisplayAsLayer,
}

/// `b` is `a` with `flag` set to `value`.
pub open spec fn flag_set(a: DocumentNode, b: DocumentNode, flag: NodeFlag, value: bool) -> bool {
    &&& b.type_id == a.type_id
    &&& b.inputs@ == a.inputs@
    &&& b.is_layer == a.is_layer
    &&& b.has_primary_output == a.has_primary_output
    &&& b.x == a.x
    &&& b.y == a.y
    &&& b.visible == (if flag is Visible { value } else { a.visible })
    &&& b.locked == (if flag is Locked { value } else { a.locked })
    &&& b.display_as_layer == (if flag is DisplayAsLayer { value } else { a.display_as_layer })
}

impl NodeNetwork {
    proof fn lemma_ids_kept(&self, other: &NodeNetwork, i: int)
        requires
            other.wf(),
            only_node_changed(other.nodes@, self.nodes@, i),
        ensures
            self.wf(),
    {
        assert forall|a: int, b: int|
            0 <= a < self.nodes@.len() && 0 <= b < self.nodes@.len() && a != b implies #[trigger] self.nodes@[a].0
            != #[trigger] self.nodes@[b].0 by {
            assert(other.nodes@[a].0 == self.nodes@[a].0);
            assert(other.nodes@[b].0 == self.nodes@[b].0);
        }
    }

    /// Set one flag of node `id`.
    fn set_flag(&mut self, i: usize, flag: NodeFlag, value: bool)
        requires
            old(self).wf(),
            i < old(self).nodes@.len(),
        ensures
            final(self).wf(),
            boundary_kept(&*old(self), &*final(self)),
            only_node_changed(old(self).nodes@, final(self).nodes@, i as int),
            flag_set(old(self).nodes@[i as int].1, final(self).nodes@[i as int].1, flag, value),
    {
        match flag {
            NodeFlag::Visible => self.nodes[i].1.visible = value,
            NodeFlag::Locked => self.nodes[i].1.locked = value,
            NodeFlag::DisplayAsLayer => self.nodes[i].1.display_as_layer = value,
        }
        proof {
            self.lemma_ids_kept(old(self), i as int);
        }
    }

    /// Show or hide node `id`. An import or the node of a current export is never hidden.
    pub fn set_visibility(&mut self, id: NodeId, visible: bool) -> (r: Result<(), EditError>)
        requires
            old(self).wf(),
        ensures
            final(self).wf(),
            boundary_kept(&*old(self), &*final(self)),
            !has_id(old(self).nodes@, id) ==> r == Err::<(), EditError>(EditError::NoNode),
            has_id(old(self).nodes@, id) && !visible && old(self).is_boundary(id) ==> r == Err::<
                (),
                EditError,
            >(EditError::BoundaryNode),
            r is Ok <==> has_id(old(self).nodes@, id) && (visible || !old(self).is_boundary(id)),
            r is Ok ==> {
                let i = index_of(old(self).nodes@, id);
                &&& only_node_changed(old(self).nodes@, final(self).nodes@, i)
                &&& flag_set(old(self).nodes@[i].1, final(self).nodes@[i].1, NodeFlag::Visible, visible)
            },
            r is Err ==> final(self).nodes@ == old(self).nodes@,
    {
        let i = match self.find(id) {
            Some(i) => i,
            None => return Err(EditError::NoNode),
        };
        proof {
            lemma_index_of(self.nodes@, i as int);
        }
        if !visible && self.is_boundary_node(id) {
            return Err(EditError::BoundaryNode);
        }
        self.set_flag(i, NodeFlag::Visible, visible);
        Ok(())
    }

    /// Lock or unlock node `id`. An import or the node of a current export is never locked.
    pub fn set_locked(&mut self, id: NodeId, locked: bool) -> (r: Result<(), EditError>)
        requires
            old(self).wf(),
        ensures
            final(self).wf(),
            boundary_kept(&*old(self), &*final(self)),
            !has_id(old(self).nodes@, id) ==> r == Err::<(), EditError>(EditError::NoNode),
            has_id(old(self).nodes@, id) && locked && old(self).is_boundary(id) ==> r == Err::<
                (),
                EditError,
            >(EditError::BoundaryNode),
            r is Ok <==> has_id(old(self).nodes@, id) && (!locked || !old(self).is_boundary(id)),
            r is Ok ==> {
                let i = index_of(old(self).nodes@, id);
                &&& only_node_changed(old(self).nodes@, final(self).nodes@, i)
                &&& flag_set(old(self).nodes@[i].1, final(self).nodes@[i].1, NodeFlag::Locked, locked)
            },
            r is Err ==> final(self).nodes@ == old(self).nodes@,
    {
        let i = match self.find(id) {
            Some(i) => i,
            None => return Err(EditError::NoNode),
        };
        proof {
            lemma_index_of(self.nodes@, i as int);
        }
        if locked && self.is_boundary_node(id) {
            return Err(EditError::BoundaryNode);
        }
        self.set_flag(i, NodeFlag::Locked, locked);
        Ok(())
    }

    /// Display node `id` as a layer or not. Only a node with a primary output and the layer
    /// shape is displayed as a layer; for any other the flag becomes false.
    pub fn set_display_as_layer(&mut self, id: NodeId, display: bool) -> (r: Result<(), EditError>)
        requires
            old(self).wf(),
        ensures
            final(self).wf(),
            boundary_kept(&*old(self), &*final(self)),
            r is Err <==> !has_id(old(self).nodes@, id),
            r is Err ==> r == Err::<(), EditError>(EditError::NoNode) && final(self).nodes@ == old(
                self,
            ).nodes@,
            r is Ok ==> {
                let i = index_of(old(self).nodes@, id);
                let node = old(self).nodes@[i].1;
                &&& only_node_changed(old(self).nodes@, final(self).nodes@, i)
                &&& flag_set(
                    node,
                    final(self).nodes@[i].1,
                    NodeFlag::DisplayAsLayer,
                    display && node.has_primary_output && has_layer_shape(node.inputs@),
                )
            },
    {
        let i = match self.find(id) {
            Some(i) => i,
            None => return Err(EditError::NoNode),
        };
        proof {
            lemma_index_of(self.nodes@, i as int);
        }
        let value = display && self.nodes[i].1.has_primary_output && self.nodes[i].1.has_layer_shape();
        self.set_flag(i, NodeFlag::DisplayAsLayer, value);
        Ok(())
    }

    /// Preview node `id` through the first export, or end the preview. Returns whether
    /// anything changed.
    pub fn toggle_preview(&mut self, id: NodeId) -> (r: bool)
        ensures
            final(self).nodes@ == old(self).nodes@,
            final(self).imports@ == old(self).imports@,
            (final(self).exports@, opt_seq(final(self).previous_exports)) == toggled_preview(
                old(self).exports@,
                opt_seq(old(self).previous_exports),
                id,
            ),
            r == ((final(self).exports@, opt_seq(final(self).previous_exports)) != (
                old(self).exports@,
                opt_seq(old(self).previous_exports),
            )),
    {
        if self.exports.len() == 0 {
            return false;
        }
        if !self.outputs_contain(id) {
            if self.previous_exports.is_none() {
                let mut stash: Vec<NodeOutput> = Vec::new();
                let mut k: usize = 0;
                while k < self.exports.len()
                    invariant
                        k <= self.exports@.len(),
                        stash@ == self.exports@.subrange(0, k as int),
                    decreases self.exports@.len() - k,
                {
                    stash.push(self.exports[k]);
                    k = k + 1;
                }
                assert(stash@ =~= self.exports@);
                self.previous_exports = Some(stash);
            }
            let before = Ghost(self.exports@);
            self.exports.set(0, NodeOutput { node_id: id, output_index: 0 });
            assert(self.exports@[0].node_id == id);
            assert(exports_contain(self.exports@, id));
            assert(!exports_contain(before@, id));
            true
        } else {
            match self.previous_exports.take() {
                Some(p) => {
                    self.exports = p;
                    true
                },
                None => false,
            }
        }
    }
}


/// Replacing one input adds at most the edge from the node to the input's source.
pub proof fn lemma_replaced_edges(
    old_nodes: Seq<(NodeId, DocumentNode)>,
    new_nodes: Seq<(NodeId, DocumentNode)>,
    i: int,
    index: int,
    input: NodeInput,
    source: int,
)
    requires
        ids_unique(old_nodes),
        input_replaced(old_nodes, new_nodes, i, index, input),
        0 <= i < old_nodes.len(),
        0 <= index < old_nodes[i].1.inputs@.len(),
        input matches NodeInput::Node { node_id, .. } ==> 0 <= source < old_nodes.len()
            && old_nodes[source].0 == node_id,
    ensures
        forall|x: int, y: int| #[trigger] upstream(new_nodes)(x, y) ==> upstream(old_nodes)(x, y) || (x == i && y == source),
{
    assert forall|x: int, y: int| #[trigger] upstream(new_nodes)(x, y) implies upstream(old_nodes)(x, y) || (x == i && y == source) by {
        assert(new_nodes[y].0 == old_nodes[y].0);
        let j = choose|j: int| 0 <= j < new_nodes[x].1.inputs@.len() && #[trigger] is_connection_from(new_nodes[x].1.inputs@[j], new_nodes[y].0);
        if x != i {
            assert(new_nodes[x] == old_nodes[x]);
            assert(is_connection_from(old_nodes[x].1.inputs@[j], old_nodes[y].0));
        } else if j != index {
            assert(new_nodes[x].1.inputs@[j] == old_nodes[x].1.inputs@[j]);
            assert(is_connection_from(old_nodes[x].1.inputs@[j], old_nodes[y].0));
        } else {
            assert(new_nodes[x].1.inputs@[j] == input);
            if y != source {
                assert(old_nodes[y].0 != old_nodes[source].0);
            }
        }
    }
}

/// No edge leaves a position outside the network.
pub proof fn lemma_no_path_from_outside(nodes: Seq<(NodeId, DocumentNode)>, b: int, n: nat)
    requires
        reach(upstream(nodes), -1, b, n),
    ensures
        b == -1,
    decreases n,
{
    if n > 0 {
        let m = choose|m: int| reach(upstream(nodes), -1, m, (n - 1) as nat) && #[trigger] upstream(nodes)(m, b);
        lemma_no_path_from_outside(nodes, m, (n - 1) as nat);
    }
}
} // verus!
