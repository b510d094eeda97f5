use vstd::prelude::*;

use crate::edit::boundary_kept;
use crate::graph::{
    exports_contain, has_id, ids_unique, index_of, is_connection_from, lemma_index_of, DocumentNode, EditError,
    NodeId, NodeInput, NodeNetwork,
};
use crate::registry::NodeTypeRegistry;
use crate::topology::{
    adj, closure, links_in_range, reach, reachable_from, reaches, reverse_links, up_edge,
    upstream, upstream_links,
};

verus! {

/// The input that takes the place of the connections from a deleted node: with `reconnect`,
/// the deleted node's primary input where that is a connection.
pub open spec fn reconnect_target(node: DocumentNode, reconnect: bool) -> Option<NodeInput> {
    if reconnect && node.inputs@.len() > 0 && node.inputs@[0] is Node {
        Some(node.inputs@[0])
    } else {
        None
    }
}

/// What becomes of input `inp` when node `del` is deleted: a connection from the primary
/// output of `del` is bridged to `target` where there is one; any other connection from
/// `del` becomes the registry's default value, shown as a port, or an unwired placeholder
/// where the registry has no default value for it.
pub open spec fn rewritten_input(
    inp: NodeInput,
    del: NodeId,
    target: Option<NodeInput>,
    default: Option<NodeInput>,
) -> NodeInput {
    match inp {
        NodeInput::Node { node_id, output_index, .. } => if node_id != del {
            inp
        } else {
            match target {
                Some(t) if output_index == 0 => t,
                _ => match default {
                    Some(NodeInput::Value { data, .. }) => NodeInput::Value { data, exposed: true },
                    _ => NodeInput::Network,
                },
            }
        },
        _ => inp,
    }
}

/// `b` is `a` with its connections from `del` rewritten.
pub open spec fn node_rewritten(
    registry: &NodeTypeRegistry,
    a: (NodeId, DocumentNode),
    b: (NodeId, DocumentNode),
    del: NodeId,
    target: Option<NodeInput>,
) -> bool {
    &&& b.0 == a.0
    &&& b.1.type_id == a.1.type_id
    &&& b.1.is_layer == a.1.is_layer
    &&& b.1.display_as_layer == a.1.display_as_layer
    &&& b.1.has_primary_output == a.1.has_primary_output
    &&& b.1.visible == a.1.visible
    &&& b.1.locked == a.1.locked
    &&& b.1.x == a.1.x
    &&& b.1.y == a.1.y
    &&& b.1.inputs@.len() == a.1.inputs@.len()
    &&& forall|j: int|
        0 <= j < a.1.inputs@.len() ==> #[trigger] b.1.inputs@[j] == rewritten_input(
            a.1.inputs@[j],
            del,
            target,
            registry.default_of(a.1.type_id, j),
        )
}

/// `b` is `a` after the removal of node `id`: the connections from it rewritten (see
/// `rewritten_input`), then the node taken out, the order of the others kept.
pub open spec fn removed_from(
    registry: &NodeTypeRegistry,
    a: Seq<(NodeId, DocumentNode)>,
    b: Seq<(NodeId, DocumentNode)>,
    id: NodeId,
    reconnect: bool,
) -> bool {
    let p = index_of(a, id);
    let target = reconnect_target(a[p].1, reconnect);
    &&& b.len() == a.len() - 1
    &&& forall|k: int| 0 <= k < p ==> #[trigger] node_rewritten(registry, a[k], b[k], id, target)
    &&& forall|k: int| p <= k < b.len() ==> #[trigger] node_rewritten(registry, a[k + 1], b[k], id, target)
}

/// `s` without the entries `x`, in order.
pub open spec fn without(s: Seq<NodeId>, x: NodeId) -> Seq<NodeId>
    decreases s.len(),
{
    if s.len() == 0 {
        s
    } else if s.last() == x {
        without(s.drop_last(), x)
    } else {
        without(s.drop_last(), x).push(s.last())
    }
}

/// `s` without the entries that `gone` holds, in order.
pub open spec fn filter_out(s: Seq<NodeId>, gone: Seq<NodeId>) -> Seq<NodeId>
    decreases s.len(),
{
    if s.len() == 0 {
        s
    } else if gone.contains(s.last()) {
        filter_out(s.drop_last(), gone)
    } else {
        filter_out(s.drop_last(), gone).push(s.last())
    }
}

pub proof fn lemma_filter_out_step(s: Seq<NodeId>, gone: Seq<NodeId>, x: NodeId)
    ensures
        without(filter_out(s, gone), x) == filter_out(s, gone.push(x)),
    decreases s.len(),
{
    if s.len() > 0 {
        lemma_filter_out_step(s.drop_last(), gone, x);
        lemma_push_contains(gone, x, s.last());
        let f = filter_out(s.drop_last(), gone);
        if !gone.contains(s.last()) {
            assert(f.push(s.last()).drop_last() == f);
        }
    }
}

pub proof fn lemma_filter_out_empty(s: Seq<NodeId>)
    ensures
        filter_out(s, Seq::empty()) == s,
    decreases s.len(),
{
    if s.len() > 0 {
        lemma_filter_out_empty(s.drop_last());
        assert(s.drop_last().push(s.last()) == s);
    }
}

pub proof fn lemma_filter_out_contains(s: Seq<NodeId>, gone: Seq<NodeId>, x: NodeId)
    ensures
        filter_out(s, gone).contains(x) <==> s.contains(x) && !gone.contains(x),
    decreases s.len(),
{
    if s.len() > 0 {
        lemma_filter_out_contains(s.drop_last(), gone, x);
        lemma_push_contains(s.drop_last(), s.last(), x);
        assert(s.drop_last().push(s.last()) == s);
        if !gone.contains(s.last()) {
            lemma_push_contains(filter_out(s.drop_last(), gone), s.last(), x);
        }
    }
}

fn rewrite_input(inp: NodeInput, del: NodeId, target: Option<NodeInput>, default: Option<NodeInput>) -> (r: NodeInput)
    ensures
        r == rewritten_input(inp, del, target, default),
{
    match inp {
        NodeInput::Node { node_id, output_index, .. } => if node_id != del {
            inp
        } else {
            match target {
                Some(t) if output_index == 0 => t,
                _ => match default {
                    Some(NodeInput::Value { data, .. }) => NodeInput::Value { data, exposed: true },
                    _ => NodeInput::Network,
                },
            }
        },
        _ => inp,
    }
}

impl NodeNetwork {
    /// Delete node `id`: the connections from it are rewritten first (bridged with
    /// `reconnect`, else reset to defaults), then it leaves the network and `selection`.
    /// An import or the node of a current export is never deleted.
    pub fn remove_node(
        &mut self,
        registry: &NodeTypeRegistry,
        id: NodeId,
        reconnect: bool,
        selection: &mut Vec<NodeId>,
    ) -> (r: Result<(), EditError>)
        requires
            old(self).wf(),
        ensures
            final(self).wf(),
            boundary_kept(&*old(self), &*final(self)),
            !has_id(old(self).nodes@, id) ==> r == Err::<(), EditError>(EditError::NoNode),
            has_id(old(self).nodes@, id) && old(self).is_boundary(id) ==> r == Err::<(), EditError>(EditError::BoundaryNode),
            r is Ok <==> has_id(old(self).nodes@, id) && !old(self).is_boundary(id),
            r is Err ==> final(self).nodes@ == old(self).nodes@ && final(selection)@ == old(selection)@,
            r is Ok ==> removed_from(registry, old(self).nodes@, final(self).nodes@, id, reconnect)
                && final(selection)@ == without(old(selection)@, id),
            forall|x: NodeId| #[trigger] has_id(final(self).nodes@, x) <==> has_id(old(self).nodes@, x) && (r is Err || x != id),
    {
        let p = match self.find(id) {
            Some(p) => p,
            None => return Err(EditError::NoNode),
        };
        proof {
            lemma_index_of(self.nodes@, p as int);
        }
        if self.is_boundary_node(id) {
            return Err(EditError::BoundaryNode);
        }
        let target: Option<NodeInput> = if reconnect && self.nodes[p].1.inputs.len() > 0 && self.nodes[p].1.inputs[0].is_node() {
            Some(self.nodes[p].1.inputs[0])
        } else {
            None
        };
        let ghost nodes0 = self.nodes@;
        let mut k: usize = 0;
        while k < self.nodes.len()
            invariant
                nodes0 == old(self).nodes@,
                ids_unique(nodes0),
                self.nodes@.len() == nodes0.len(),
                p < nodes0.len(),
                nodes0[p as int].0 == id,
                k <= nodes0.len(),
                forall|k2: int| 0 <= k2 < k && k2 != p ==> #[trigger] node_rewritten(registry, nodes0[k2], self.nodes@[k2], id, target),
                forall|k2: int| 0 <= k2 < nodes0.len() && (k2 >= k || k2 == p) ==> #[trigger] self.nodes@[k2] == nodes0[k2],
                boundary_kept(&*old(self), &*self),
            decreases nodes0.len() - k,
        {
            if k != p {
                proof {
                    if nodes0[k as int].0 == id {
                        assert(nodes0[k as int].0 != nodes0[p as int].0);
                    }
                }
                let mut j: usize = 0;
                while j < self.nodes[k].1.inputs.len()
                    invariant
                        nodes0 == old(self).nodes@,
                        self.nodes@.len() == nodes0.len(),
                        k < nodes0.len(),
                        k != p,
                        nodes0[k as int].0 != id,
                                j <= self.nodes@[k as int].1.inputs@.len(),
                        self.nodes@[k as int].1.inputs@.len() == nodes0[k as int].1.inputs@.len(),
                        self.nodes@[k as int].0 == nodes0[k as int].0,
                        self.nodes@[k as int].1.type_id == nodes0[k as int].1.type_id,
                        self.nodes@[k as int].1.is_layer == nodes0[k as int].1.is_layer,
                        self.nodes@[k as int].1.display_as_layer == nodes0[k as int].1.display_as_layer,
                        self.nodes@[k as int].1.has_primary_output == nodes0[k as int].1.has_primary_output,
                        self.nodes@[k as int].1.visible == nodes0[k as int].1.visible,
                        self.nodes@[k as int].1.locked == nodes0[k as int].1.locked,
                        self.nodes@[k as int].1.x == nodes0[k as int].1.x,
                        self.nodes@[k as int].1.y == nodes0[k as int].1.y,
                        forall|j2: int| 0 <= j2 < j ==> #[trigger] self.nodes@[k as int].1.inputs@[j2] == rewritten_input(
                            nodes0[k as int].1.inputs@[j2], id, target, registry.default_of(nodes0[k as int].1.type_id, j2)),
                        forall|j2: int| j <= j2 < nodes0[k as int].1.inputs@.len() ==> #[trigger] self.nodes@[k as int].1.inputs@[j2] == nodes0[k as int].1.inputs@[j2],
                        forall|k2: int| 0 <= k2 < k && k2 != p ==> #[trigger] node_rewritten(registry, nodes0[k2], self.nodes@[k2], id, target),
                        forall|k2: int| 0 <= k2 < nodes0.len() && (k2 > k || k2 == p) ==> #[trigger] self.nodes@[k2] == nodes0[k2],
                        boundary_kept(&*old(self), &*self),
                    decreases nodes0[k as int].1.inputs@.len() - j,
                {
                    let inp = self.nodes[k].1.inputs[j];
                    let default = registry.default_input(self.nodes[k].1.type_id, j);
                    let new_input = rewrite_input(inp, id, target, default);
                    self.nodes[k].1.inputs[j] = new_input;
                    j = j + 1;
                }
            }
            k = k + 1;
        }
        let ghost rewritten = self.nodes@;
        self.nodes.remove(p);
        proof {
            assert forall|a: int, b: int|
                0 <= a < self.nodes@.len() && 0 <= b < self.nodes@.len() && a != b implies #[trigger] self.nodes@[a].0
                != #[trigger] self.nodes@[b].0 by {
                let a0 = if a < p { a } else { a + 1 };
                let b0 = if b < p { b } else { b + 1 };
                assert(self.nodes@[a] == rewritten[a0]);
                assert(self.nodes@[b] == rewritten[b0]);
                if a0 != p {
                    assert(node_rewritten(registry, nodes0[a0], rewritten[a0], id, target));
                }
                if b0 != p {
                    assert(node_rewritten(registry, nodes0[b0], rewritten[b0], id, target));
                }
            }
            assert forall|x: NodeId| #[trigger] has_id(self.nodes@, x) <==> has_id(old(self).nodes@, x) && x != id by {
                if has_id(self.nodes@, x) {
                    let a = choose|a: int| 0 <= a < self.nodes@.len() && #[trigger] self.nodes@[a].0 == x;
                    let a0 = if a < p { a } else { a + 1 };
                    assert(self.nodes@[a] == rewritten[a0]);
                    assert(node_rewritten(registry, nodes0[a0], rewritten[a0], id, target));
                    assert(nodes0[a0].0 == x);
                }
                if has_id(old(self).nodes@, x) && x != id {
                    let a0 = choose|a: int| 0 <= a < nodes0.len() && #[trigger] nodes0[a].0 == x;
                    assert(a0 != p);
                    let a = if a0 < p { a0 } else { a0 - 1 };
                    assert(self.nodes@[a] == rewritten[a0]);
                    assert(node_rewritten(registry, nodes0[a0], rewritten[a0], id, target));
                }
            }
            assert forall|k2: int| 0 <= k2 < p implies #[trigger] node_rewritten(registry, old(self).nodes@[k2], self.nodes@[k2], id, target) by {
                assert(self.nodes@[k2] == rewritten[k2]);
            }
            assert forall|k2: int| p <= k2 < self.nodes@.len() implies #[trigger] node_rewritten(registry, old(self).nodes@[k2 + 1], self.nodes@[k2], id, target) by {
                assert(self.nodes@[k2] == rewritten[k2 + 1]);
                assert(node_rewritten(registry, nodes0[k2 + 1], rewritten[k2 + 1], id, target));
            }
        }
        let mut kept: Vec<NodeId> = Vec::new();
        let mut s: usize = 0;
        while s < selection.len()
            invariant
                s <= selection@.len(),
                selection@ == old(selection)@,
                kept@ == without(selection@.subrange(0, s as int), id),
            decreases selection@.len() - s,
        {
            let x = selection[s];
            proof {
                let post = selection@.subrange(0, s as int + 1);
                assert(post.drop_last() == selection@.subrange(0, s as int));
                assert(post.last() == x);
            }
            if x != id {
                kept.push(x);
            }
            s = s + 1;
        }
        proof {
            assert(selection@.subrange(0, s as int) == selection@);
        }
        *selection = kept;
        Ok(())
    }
}


/// Position `w` is the node of a current export.
pub open spec fn is_export_at(net: &NodeNetwork, w: int) -> bool {
    exports_contain(net.exports@, net.nodes@[w].0)
}

/// Node `c` feeds directly into the node of a current export.
pub open spec fn feeds_export(net: &NodeNetwork, c: int) -> bool {
    exists|d: int| #[trigger] up_edge(net.nodes@, d, c) && is_export_at(net, d)
}

/// A step of the forward walk of the sole-dependent test from node `c` to node `w`: `w` is
/// fed by `c` and neither an export's node nor marked for deletion; or `c` feeds a node
/// marked for deletion, and `w` is one of the nodes asked to be deleted whose primary input
/// connects from `c`.
pub open spec fn walk_edge(net: &NodeNetwork, del: Seq<NodeId>, ids: Seq<NodeId>, c: int, w: int) -> bool {
    let nodes = net.nodes@;
    &&& 0 <= c < nodes.len()
    &&& 0 <= w < nodes.len()
    &&& {
        ||| (up_edge(nodes, w, c) && !is_export_at(net, w) && !del.contains(nodes[w].0))
        ||| (feeds_deleted(net, del, c) && ids.contains(nodes[w].0) && nodes[w].1.inputs@.len() > 0
            && is_connection_from(nodes[w].1.inputs@[0], nodes[c].0))
    }
}

/// Node `c` feeds directly into a node marked for deletion that is no export's node.
pub open spec fn feeds_deleted(net: &NodeNetwork, del: Seq<NodeId>, c: int) -> bool {
    exists|d: int| #[trigger] up_edge(net.nodes@, d, c) && !is_export_at(net, d) && del.contains(net.nodes@[d].0)
}

pub open spec fn walk(net: &NodeNetwork, del: Seq<NodeId>, ids: Seq<NodeId>) -> spec_fn(int, int) -> bool {
    |c: int, w: int| walk_edge(net, del, ids, c, w)
}

/// Node `s` may go with the nodes marked for deletion `del`: no node that the forward walk
/// reaches from `s` feeds directly into the node of a current export.
pub open spec fn sole_dependent(net: &NodeNetwork, del: Seq<NodeId>, ids: Seq<NodeId>, s: int) -> bool {
    forall|c: int| #[trigger] reaches(walk(net, del, ids), s, c) ==> !feeds_export(net, c)
}

pub proof fn lemma_push_contains<T>(s: Seq<T>, x: T, y: T)
    ensures
        s.push(x).contains(y) <==> s.contains(y) || y == x,
{
    let t = s.push(x);
    if s.contains(y) {
        let q = choose|q: int| 0 <= q < s.len() && s[q] == y;
        assert(t[q] == y);
    }
    if y == x {
        assert(t[s.len() as int] == y);
    }
    if t.contains(y) {
        let q = choose|q: int| 0 <= q < t.len() && t[q] == y;
        if q < s.len() {
            assert(s[q] == y);
        }
    }
}

/// Whether `v` holds `x`.
pub fn contains_id(v: &Vec<NodeId>, x: NodeId) -> (r: bool)
    ensures
        r == v@.contains(x),
{
    let mut i: usize = 0;
    while i < v.len()
        invariant
            i <= v@.len(),
            forall|k: int| 0 <= k < i ==> v@[k] != x,
        decreases v@.len() - i,
    {
        if v[i] == x {
            assert(v@[i as int] == x);
            return true;
        }
        i = i + 1;
    }
    false
}

impl NodeNetwork {
    /// The forward walk of the sole-dependent test, as an adjacency list.
    fn walk_links(&self, down: &Vec<Vec<usize>>, del: &Vec<NodeId>, ids: &Vec<NodeId>) -> (r: Vec<Vec<usize>>)
        requires
            self.wf(),
            down@.len() == self.nodes@.len(),
            links_in_range(down@),
            forall|a: int, b: int| #[trigger] adj(down@)(a, b) == up_edge(self.nodes@, b, a),
        ensures
            r@.len() == self.nodes@.len(),
            links_in_range(r@),
            adj(r@) == walk(self, del@, ids@),
    {
        let n = self.nodes.len();
        let mut links: Vec<Vec<usize>> = Vec::new();
        let mut c: usize = 0;
        while c < n
            invariant
                n == self.nodes@.len(),
                self.wf(),
                down@.len() == n,
                links_in_range(down@),
                forall|a: int, b: int| #[trigger] adj(down@)(a, b) == up_edge(self.nodes@, b, a),
                c <= n,
                links@.len() == c,
                forall|x: int, k: int| 0 <= x < c && 0 <= k < links@[x]@.len() ==> #[trigger] links@[x]@[k] < n,
                forall|x: int, w: int| 0 <= x < c && 0 <= w < n ==> (#[trigger] links@[x]@.contains(w as usize) <==> walk_edge(self, del@, ids@, x, w)),
            decreases n - c,
        {
            let mut row: Vec<usize> = Vec::new();
            let mut flag = false;
            let mut k: usize = 0;
            while k < down[c].len()
                invariant
                    n == self.nodes@.len(),
                    c < n,
                    down@.len() == n,
                    links_in_range(down@),
                    k <= down@[c as int]@.len(),
                    forall|q: int| 0 <= q < row@.len() ==> #[trigger] row@[q] < n,
                    forall|w: int| 0 <= w < n ==> (#[trigger] row@.contains(w as usize) <==> exists|q: int| 0 <= q < k
                        && down@[c as int]@[q] == w && !is_export_at(self, w) && !del@.contains(self.nodes@[w].0)),
                    flag <==> exists|q: int| 0 <= q < k && !is_export_at(self, down@[c as int]@[q] as int)
                        && del@.contains(self.nodes@[down@[c as int]@[q] as int].0),
                decreases down@[c as int]@.len() - k,
            {
                let d = down[c][k];
                let export = self.outputs_contain(self.nodes[d].0);
                let marked = contains_id(del, self.nodes[d].0);
                let ghost old_row = row@;
                if !export && !marked {
                    row.push(d);
                } else if !export {
                    flag = true;
                }
                proof {
                    assert forall|w: int| 0 <= w < n implies (#[trigger] row@.contains(w as usize) <==> exists|q: int| 0 <= q < k + 1
                        && down@[c as int]@[q] == w && !is_export_at(self, w) && !del@.contains(self.nodes@[w].0)) by {
                        lemma_push_contains(old_row, d, w as usize);
                        if exists|q: int| 0 <= q < k + 1 && down@[c as int]@[q] == w && !is_export_at(self, w) && !del@.contains(self.nodes@[w].0) {
                            let q = choose|q: int| 0 <= q < k + 1 && down@[c as int]@[q] == w && !is_export_at(self, w) && !del@.contains(self.nodes@[w].0);
                            if q == k {
                                assert(d as int == w);
                            }
                        }
                    }
                }
                k = k + 1;
            }
            let mut w: usize = 0;
            while w < n
                invariant
                    n == self.nodes@.len(),
                    c < n,
                    self.wf(),
                    down@.len() == n,
                    links_in_range(down@),
                    w <= n,
                    forall|q: int| 0 <= q < row@.len() ==> #[trigger] row@[q] < n,
                    forall|x: int| 0 <= x < n ==> (#[trigger] row@.contains(x as usize) <==> (exists|q: int| 0 <= q < down@[c as int]@.len()
                        && down@[c as int]@[q] == x && !is_export_at(self, x) && !del@.contains(self.nodes@[x].0))
                        || (x < w && flag && ids@.contains(self.nodes@[x].0) && self.nodes@[x].1.inputs@.len() > 0
                            && is_connection_from(self.nodes@[x].1.inputs@[0], self.nodes@[c as int].0))),
                    flag <==> exists|q: int| 0 <= q < down@[c as int]@.len() && !is_export_at(self, down@[c as int]@[q] as int)
                        && del@.contains(self.nodes@[down@[c as int]@[q] as int].0),
                decreases n - w,
            {
                if flag && contains_id(ids, self.nodes[w].0) && self.nodes[w].1.inputs.len() > 0 {
                    if let NodeInput::Node { node_id, .. } = self.nodes[w].1.inputs[0] {
                        if node_id == self.nodes[c].0 {
                            let ghost old_row = row@;
                            row.push(w);
                            proof {
                                assert forall|x: int| 0 <= x < n implies (#[trigger] row@.contains(x as usize) <==> (exists|q: int| 0 <= q < down@[c as int]@.len()
                                    && down@[c as int]@[q] == x && !is_export_at(self, x) && !del@.contains(self.nodes@[x].0))
                                    || (x < w + 1 && flag && ids@.contains(self.nodes@[x].0) && self.nodes@[x].1.inputs@.len() > 0
                                        && is_connection_from(self.nodes@[x].1.inputs@[0], self.nodes@[c as int].0))) by {
                                    lemma_push_contains(old_row, w, x as usize);
                                }
                            }
                        }
                    }
                }
                w = w + 1;
            }
            proof {
                assert forall|w2: int| 0 <= w2 < n implies (#[trigger] row@.contains(w2 as usize) <==> walk_edge(self, del@, ids@, c as int, w2)) by {
                    let e1 = exists|q: int| 0 <= q < down@[c as int]@.len() && down@[c as int]@[q] == w2 && !is_export_at(self, w2) && !del@.contains(self.nodes@[w2].0);
                    if e1 {
                        let q = choose|q: int| 0 <= q < down@[c as int]@.len() && down@[c as int]@[q] == w2 && !is_export_at(self, w2) && !del@.contains(self.nodes@[w2].0);
                        assert(down@[c as int]@.contains(w2 as usize));
                        assert(adj(down@)(c as int, w2));
                    }
                    if up_edge(self.nodes@, w2, c as int) && !is_export_at(self, w2) && !del@.contains(self.nodes@[w2].0) {
                        assert(adj(down@)(c as int, w2));
                        let q = choose|q: int| 0 <= q < down@[c as int]@.len() && down@[c as int]@[q] == w2 as usize;
                    }
                    if flag {
                        let q = choose|q: int| 0 <= q < down@[c as int]@.len() && !is_export_at(self, down@[c as int]@[q] as int)
                            && del@.contains(self.nodes@[down@[c as int]@[q] as int].0);
                        let d = down@[c as int]@[q] as int;
                        assert(down@[c as int]@.contains(d as usize));
                        assert(adj(down@)(c as int, d));
                        assert(up_edge(self.nodes@, d, c as int));
                    }
                    if feeds_deleted(self, del@, c as int) {
                        let d = choose|d: int| #[trigger] up_edge(self.nodes@, d, c as int) && !is_export_at(self, d) && del@.contains(self.nodes@[d].0);
                        assert(adj(down@)(c as int, d));
                        let q = choose|q: int| 0 <= q < down@[c as int]@.len() && down@[c as int]@[q] == d as usize;
                        assert(down@[c as int]@[q] as int == d);
                    }
                }
            }
            links.push(row);
            proof {
                assert forall|x: int, w2: int| 0 <= x < c + 1 && 0 <= w2 < n implies (#[trigger] links@[x]@.contains(w2 as usize) <==> walk_edge(self, del@, ids@, x, w2)) by {
                }
            }
            c = c + 1;
        }
        proof {
            assert forall|x: int, y: int| #[trigger] adj(links@)(x, y) == walk(self, del@, ids@)(x, y) by {
                if 0 <= x < n && 0 <= y < n {
                    assert(links@[x]@.contains(y as usize) <==> walk_edge(self, del@, ids@, x, y));
                }
            }
            assert(adj(links@) =~= walk(self, del@, ids@));
        }
        links
    }
}

/// Position of the node that feeds the secondary input of node `t`, if there is one.
pub open spec fn child_of(nodes: Seq<(NodeId, DocumentNode)>, t: NodeId) -> Option<int> {
    if has_id(nodes, t) {
        let inputs = nodes[index_of(nodes, t)].1.inputs@;
        if inputs.len() > 1 {
            match inputs[1] {
                NodeInput::Node { node_id, .. } => if has_id(nodes, node_id) {
                    Some(index_of(nodes, node_id))
                } else {
                    None
                },
                _ => None,
            }
        } else {
            None
        }
    } else {
        None
    }
}

/// The delete set after the candidates below position `upto` upstream of `c` were tested in
/// order: each that is not in it yet and is a sole dependent joins it.
pub open spec fn grown_from(net: &NodeNetwork, ids: Seq<NodeId>, del: Seq<NodeId>, c: int, upto: nat) -> Seq<NodeId>
    decreases upto,
{
    if upto == 0 {
        del
    } else {
        let d = grown_from(net, ids, del, c, (upto - 1) as nat);
        let p = upto - 1;
        if reaches(upstream(net.nodes@), c, p) && !d.contains(net.nodes@[p].0) && sole_dependent(net, d, ids, p) {
            d.push(net.nodes@[p].0)
        } else {
            d
        }
    }
}

/// The delete set after the first `q` of the asked ids: each joins it, then with
/// `reconnect` the nodes upstream of its secondary input are tested.
pub open spec fn deletion_set_upto(net: &NodeNetwork, ids: Seq<NodeId>, reconnect: bool, q: nat) -> Seq<NodeId>
    decreases q,
{
    if q == 0 {
        Seq::empty()
    } else {
        let d = deletion_set_upto(net, ids, reconnect, (q - 1) as nat).push(ids[q - 1]);
        if reconnect {
            match child_of(net.nodes@, ids[q - 1]) {
                Some(c) => grown_from(net, ids, d, c, net.nodes@.len()),
                None => d,
            }
        } else {
            d
        }
    }
}

/// The nodes that deleting `ids` removes (boundary nodes aside).
pub open spec fn deletion_set(net: &NodeNetwork, ids: Seq<NodeId>, reconnect: bool) -> Seq<NodeId> {
    deletion_set_upto(net, ids, reconnect, ids.len())
}

impl NodeNetwork {
    /// Whether node `s` may go with the nodes marked for deletion `del`, the nodes asked to
    /// be deleted being `ids`.
    pub fn is_sole_dependent(&self, del: &Vec<NodeId>, ids: &Vec<NodeId>, s: usize) -> (r: bool)
        requires
            self.wf(),
            s < self.nodes@.len(),
        ensures
            r == sole_dependent(self, del@, ids@, s as int),
    {
        let n = self.nodes.len();
        let up = upstream_links(self);
        let down = reverse_links(&up);
        let walk_adj = self.walk_links(&down, del, ids);
        let mut roots: Vec<usize> = Vec::new();
        roots.push(s);
        let marks = closure(&walk_adj, &roots);
        let ghost e = walk(self, del@, ids@);
        let mut c: usize = 0;
        while c < n
            invariant
                n == self.nodes@.len(),
                s < n,
                e == walk(self, del@, ids@),
                adj(walk_adj@) == e,
                roots@ == seq![s],
                marks@.len() == n,
                forall|v: int| 0 <= v < n ==> (marks@[v] <==> reachable_from(e, roots@, v)),
                down@.len() == n,
                links_in_range(down@),
                forall|a: int, b: int| #[trigger] adj(down@)(a, b) == adj(up@)(b, a),
                adj(up@) == upstream(self.nodes@),
                c <= n,
                forall|c2: int| 0 <= c2 < c && reaches(e, s as int, c2) ==> !feeds_export(self, c2),
            decreases n - c,
        {
            proof {
                if reaches(e, s as int, c as int) {
                    assert(roots@[0] == s);
                    assert(reachable_from(e, roots@, c as int));
                }
            }
            if marks[c] {
                let mut k: usize = 0;
                while k < down[c].len()
                    invariant
                        n == self.nodes@.len(),
                        c < n,
                        down@.len() == n,
                        links_in_range(down@),
                        k <= down@[c as int]@.len(),
                        forall|q: int| 0 <= q < k ==> !is_export_at(self, #[trigger] down@[c as int]@[q] as int),
                        forall|a: int, b: int| #[trigger] adj(down@)(a, b) == adj(up@)(b, a),
                        adj(up@) == upstream(self.nodes@),
                        e == walk(self, del@, ids@),
                        roots@ == seq![s],
                        marks@.len() == n,
                        marks@[c as int],
                        forall|v: int| 0 <= v < n ==> (marks@[v] <==> reachable_from(e, roots@, v)),
                    decreases down@[c as int]@.len() - k,
                {
                    if self.outputs_contain(self.nodes[down[c][k]].0) {
                        proof {
                            let d = down@[c as int]@[k as int] as int;
                            assert(down@[c as int]@.contains(d as usize));
                            assert(adj(down@)(c as int, d));
                            assert(up_edge(self.nodes@, d, c as int));
                            let q = choose|q: int| 0 <= q < roots@.len() && #[trigger] reaches(e, roots@[q] as int, c as int);
                            assert(q == 0);
                        }
                        return false;
                    }
                    k = k + 1;
                }
                proof {
                    assert forall|d: int| #[trigger] up_edge(self.nodes@, d, c as int) implies !is_export_at(self, d) by {
                        assert(adj(down@)(c as int, d));
                        let q = choose|q: int| 0 <= q < down@[c as int]@.len() && down@[c as int]@[q] == d as usize;
                        assert(down@[c as int]@[q] as int == d);
                    }
                }
            }
            c = c + 1;
        }
        proof {
            assert forall|c2: int| #[trigger] reaches(e, s as int, c2) implies !feeds_export(self, c2) by {
                let m = choose|m: nat| #[trigger] reach(e, s as int, c2, m);
                if c2 != s as int {
                    assert(m > 0);
                    let x = choose|x: int| reach(e, s as int, x, (m - 1) as nat) && #[trigger] e(x, c2);
                    assert(walk_edge(self, del@, ids@, x, c2));
                }
            }
        }
        true
    }

    /// The nodes that deleting `ids` removes, boundary nodes aside: each asked id, and with
    /// `reconnect` each node upstream of an asked node's secondary input that is a sole
    /// dependent of the nodes marked so far.
    pub fn deletion_set(&self, ids: &Vec<NodeId>, reconnect: bool) -> (r: Vec<NodeId>)
        requires
            self.wf(),
        ensures
            r@ == deletion_set(self, ids@, reconnect),
    {
        let n = self.nodes.len();
        let mut del: Vec<NodeId> = Vec::new();
        let mut q: usize = 0;
        while q < ids.len()
            invariant
                self.wf(),
                n == self.nodes@.len(),
                q <= ids@.len(),
                del@ == deletion_set_upto(self, ids@, reconnect, q as nat),
            decreases ids@.len() - q,
        {
            let t = ids[q];
            del.push(t);
            let ghost d0 = del@;
            if reconnect {
                if let Some(ti) = self.find(t) {
                    proof {
                        lemma_index_of(self.nodes@, ti as int);
                    }
                    if self.nodes[ti].1.inputs.len() > 1 {
                        if let NodeInput::Node { node_id, .. } = self.nodes[ti].1.inputs[1] {
                            if let Some(ci) = self.find(node_id) {
                                proof {
                                    lemma_index_of(self.nodes@, ci as int);
                                }
                                let mut roots: Vec<usize> = Vec::new();
                                roots.push(ci);
                                let marks = self.upstream_closure(&roots);
                                let mut p: usize = 0;
                                while p < n
                                    invariant
                                        self.wf(),
                                        n == self.nodes@.len(),
                                        ci < n,
                                        roots@ == seq![ci],
                                        marks@.len() == n,
                                        forall|v: int| 0 <= v < n ==> (marks@[v] <==> reachable_from(upstream(self.nodes@), roots@, v)),
                                        p <= n,
                                        del@ == grown_from(self, ids@, d0, ci as int, p as nat),
                                    decreases n - p,
                                {
                                    proof {
                                        let e = upstream(self.nodes@);
                                        if marks@[p as int] {
                                            let k = choose|k: int| 0 <= k < roots@.len() && #[trigger] reaches(e, roots@[k] as int, p as int);
                                            assert(k == 0);
                                        }
                                        if reaches(e, ci as int, p as int) {
                                            assert(roots@[0] == ci);
                                            assert(reachable_from(e, roots@, p as int));
                                        }
                                    }
                                    if marks[p] && !contains_id(&del, self.nodes[p].0) && self.is_sole_dependent(&del, ids, p) {
                                        del.push(self.nodes[p].0);
                                    }
                                    p = p + 1;
                                }
                            }
                        }
                    }
                }
            }
            q = q + 1;
        }
        del
    }

    /// Delete the nodes of `deletion_set(ids, reconnect)` one by one, in order (see
    /// `remove_node`); an id that is no node at its turn, an import, or the node of a current
    /// export is passed over. Returns the ids that were removed.
    pub fn delete_nodes(
        &mut self,
        registry: &NodeTypeRegistry,
        ids: &Vec<NodeId>,
        reconnect: bool,
        selection: &mut Vec<NodeId>,
    ) -> (r: Vec<NodeId>)
        requires
            old(self).wf(),
        ensures
            final(self).wf(),
            boundary_kept(&*old(self), &*final(self)),
            removes_in_turn(registry, &*old(self), deletion_set(&*old(self), ids@, reconnect), reconnect, final(self).nodes@),
            forall|x: NodeId| #[trigger] r@.contains(x) <==> has_id(old(self).nodes@, x)
                && deletion_set(&*old(self), ids@, reconnect).contains(x) && !old(self).is_boundary(x),
            forall|x: NodeId| #[trigger] has_id(final(self).nodes@, x) <==> has_id(old(self).nodes@, x) && !r@.contains(x),
            final(selection)@ == filter_out(old(selection)@, r@),
    {
        let set = self.deletion_set(ids, reconnect);
        let mut removed: Vec<NodeId> = Vec::new();
        let ghost mut states: Seq<Seq<(NodeId, DocumentNode)>> = seq![self.nodes@];
        proof {
            lemma_filter_out_empty(selection@);
        }
        let mut k: usize = 0;
        while k < set.len()
            invariant
                self.wf(),
                boundary_kept(&*old(self), &*self),
                k <= set@.len(),
                set@ == deletion_set(&*old(self), ids@, reconnect),
                states.len() == k + 1,
                states[0] == old(self).nodes@,
                states[k as int] == self.nodes@,
                forall|i: int| 0 <= i < k ==> #[trigger] removal_step(registry, &*old(self), states[i], states[i + 1], set@[i], reconnect),
                forall|x: NodeId| #[trigger] removed@.contains(x) <==> has_id(old(self).nodes@, x)
                    && set@.subrange(0, k as int).contains(x) && !old(self).is_boundary(x),
                forall|x: NodeId| #[trigger] has_id(self.nodes@, x) <==> has_id(old(self).nodes@, x) && !removed@.contains(x),
                selection@ == filter_out(old(selection)@, removed@),
            decreases set@.len() - k,
        {
            let x = set[k];
            let ghost rem0 = removed@;
            let ghost nodes0 = self.nodes@;
            let ghost pre = set@.subrange(0, k as int);
            let ghost post = set@.subrange(0, k as int + 1);
            proof {
                assert(post == pre.push(x));
            }
            let res = self.remove_node(registry, x, reconnect, selection);
            if res.is_ok() {
                removed.push(x);
                proof {
                    lemma_filter_out_step(old(selection)@, rem0, x);
                }
            }
            proof {
                states = states.push(self.nodes@);
                assert(removal_step(registry, &*old(self), states[k as int], states[k + 1], set@[k as int], reconnect));
                assert forall|i: int| 0 <= i < k + 1 implies #[trigger] removal_step(registry, &*old(self), states[i], states[i + 1], set@[i], reconnect) by {
                }
                assert forall|y: NodeId| #[trigger] removed@.contains(y) <==> has_id(old(self).nodes@, y)
                    && post.contains(y) && !old(self).is_boundary(y) by {
                    lemma_push_contains(rem0, x, y);
                    lemma_push_contains(pre, x, y);
                }
                assert forall|y: NodeId| #[trigger] has_id(self.nodes@, y) <==> has_id(old(self).nodes@, y) && !removed@.contains(y) by {
                    lemma_push_contains(rem0, x, y);
                    assert(has_id(nodes0, y) <==> has_id(old(self).nodes@, y) && !rem0.contains(y));
                }
            }
            k = k + 1;
            proof {
                assert(set@.subrange(0, k as int) == post);
            }
        }
        proof {
            assert(set@.subrange(0, k as int) == set@);
            assert(removal_sequence(registry, &*old(self), set@, reconnect, states));
        }
        removed
    }
}

/// One turn of the removal: node `id` goes as `removed_from` says where it is a node of `a`
/// and no boundary node; otherwise nothing changes.
pub open spec fn removal_step(
    registry: &NodeTypeRegistry,
    net: &NodeNetwork,
    a: Seq<(NodeId, DocumentNode)>,
    b: Seq<(NodeId, DocumentNode)>,
    id: NodeId,
    reconnect: bool,
) -> bool {
    if has_id(a, id) && !net.is_boundary(id) {
        removed_from(registry, a, b, id, reconnect)
    } else {
        b == a
    }
}

/// `states` are the nodes of `net` before the removal of each of `ids` in turn, and after
/// the last.
pub open spec fn removal_sequence(
    registry: &NodeTypeRegistry,
    net: &NodeNetwork,
    ids: Seq<NodeId>,
    reconnect: bool,
    states: Seq<Seq<(NodeId, DocumentNode)>>,
) -> bool {
    &&& states.len() == ids.len() + 1
    &&& states[0] == net.nodes@
    &&& forall|i: int| 0 <= i < ids.len() ==> #[trigger] removal_step(registry, net, states[i], states[i + 1], ids[i], reconnect)
}

/// Removing `ids` from `net` in turn leaves the nodes `result`.
pub open spec fn removes_in_turn(
    registry: &NodeTypeRegistry,
    net: &NodeNetwork,
    ids: Seq<NodeId>,
    reconnect: bool,
    result: Seq<(NodeId, DocumentNode)>,
) -> bool {
    exists|states: Seq<Seq<(NodeId, DocumentNode)>>| #[trigger] removal_sequence(registry, net, ids, reconnect, states)
        && states[ids.len() as int] == result
}

} // verus!
