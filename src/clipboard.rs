use vstd::prelude::*;

use crate::edit::boundary_kept;
use crate::graph::{exports_contain, has_id, ids_unique, index_of, DocumentNode, EditError, NodeId, NodeInput, NodeNetwork};
use crate::handler::{clone_ids, is_kept, kept_pairs, node_of, NodeGraphMessageHandler};
use crate::registry::NodeTypeRegistry;

verus! {

/// The new id that the remapping `m` (pairs of old and new id) gives `id`: the first pair
/// from position `k` on whose old id is `id`.
pub open spec fn remap_from(m: Seq<(NodeId, NodeId)>, id: NodeId, k: int) -> Option<NodeId>
    decreases m.len() - k,
{
    if k < 0 || k >= m.len() {
        None
    } else if m[k].0 == id {
        Some(m[k].1)
    } else {
        remap_from(m, id, k + 1)
    }
}

pub open spec fn remap_of(m: Seq<(NodeId, NodeId)>, id: NodeId) -> Option<NodeId> {
    remap_from(m, id, 0)
}

/// The new id of `id` under the remapping `m`.
pub fn lookup_new_id(m: &Vec<(NodeId, NodeId)>, id: NodeId) -> (r: Option<NodeId>)
    ensures
        r == remap_of(m@, id),
{
    let mut k: usize = 0;
    while k < m.len()
        invariant
            k <= m@.len(),
            remap_from(m@, id, k as int) == remap_of(m@, id),
        decreases m@.len() - k,
    {
        if m[k].0 == id {
            return Some(m[k].1);
        }
        k = k + 1;
    }
    None
}

/// An input carried across a copy: a connection from a copied node follows it to its new
/// id; a connection from a node left behind becomes the registry's default.
pub open spec fn mapped_input(inp: NodeInput, m: Seq<(NodeId, NodeId)>, default: Option<NodeInput>) -> NodeInput {
    match inp {
        NodeInput::Node { node_id, output_index, lambda } => match remap_of(m, node_id) {
            Some(n) => NodeInput::Node { node_id: n, output_index, lambda },
            None => match default {
                Some(d) => d,
                None => inp,
            },
        },
        _ => inp,
    }
}

/// `b` is `a` with its inputs carried across a copy under `m`.
pub open spec fn node_mapped(registry: &NodeTypeRegistry, m: Seq<(NodeId, NodeId)>, a: DocumentNode, b: DocumentNode) -> bool {
    &&& b.type_id == a.type_id
    &&& b.is_layer == a.is_layer
    &&& b.display_as_layer == a.display_as_layer
    &&& b.has_primary_output == a.has_primary_output
    &&& b.visible == a.visible
    &&& b.locked == a.locked
    &&& b.x == a.x
    &&& b.y == a.y
    &&& b.inputs@.len() == a.inputs@.len()
    &&& forall|j: int| 0 <= j < a.inputs@.len() ==> #[trigger] b.inputs@[j] == mapped_input(
        a.inputs@[j],
        m,
        registry.default_of(a.type_id, j),
    )
}

/// A copy of `node` with its inputs carried across under `m`.
pub fn map_ids(node: &DocumentNode, m: &Vec<(NodeId, NodeId)>, registry: &NodeTypeRegistry) -> (r: DocumentNode)
    ensures
        node_mapped(registry, m@, *node, r),
{
    let mut inputs: Vec<NodeInput> = Vec::new();
    let mut j: usize = 0;
    while j < node.inputs.len()
        invariant
            j <= node.inputs@.len(),
            inputs@.len() == j,
            forall|j2: int| 0 <= j2 < j ==> #[trigger] inputs@[j2] == mapped_input(
                node.inputs@[j2],
                m@,
                registry.default_of(node.type_id, j2),
            ),
        decreases node.inputs@.len() - j,
    {
        let inp = node.inputs[j];
        let new_input = match inp {
            NodeInput::Node { node_id, output_index, lambda } => match lookup_new_id(m, node_id) {
                Some(n) => NodeInput::Node { node_id: n, output_index, lambda },
                None => match registry.default_input(node.type_id, j) {
                    Some(d) => d,
                    None => inp,
                },
            },
            _ => inp,
        };
        inputs.push(new_input);
        j = j + 1;
    }
    DocumentNode {
        type_id: node.type_id,
        inputs,
        is_layer: node.is_layer,
        display_as_layer: node.display_as_layer,
        has_primary_output: node.has_primary_output,
        visible: node.visible,
        locked: node.locked,
        x: node.x,
        y: node.y,
    }
}

/// An input renamed through two remappings one after the other.
pub open spec fn renamed_input(inp: NodeInput, m1: Seq<(NodeId, NodeId)>, m2: Seq<(NodeId, NodeId)>) -> NodeInput {
    match inp {
        NodeInput::Node { node_id, output_index, lambda } => match remap_of(m1, node_id) {
            Some(a) => match remap_of(m2, a) {
                Some(b) => NodeInput::Node { node_id: b, output_index, lambda },
                None => inp,
            },
            None => inp,
        },
        _ => inp,
    }
}

/// Copy, paste, copy: pasting a copied node under `m1` with the offset `s` and copying the
/// pasted node under `m2` gives the first copy back, moved by `s`, with only the ids of its
/// connections renamed, as long as every connection of the first copy names a copied node
/// (the others were reset by the copy) and the pasted ids are all copied again.
pub proof fn lemma_copy_paste_copy(
    registry: &NodeTypeRegistry,
    m1: Seq<(NodeId, NodeId)>,
    m2: Seq<(NodeId, NodeId)>,
    s: int,
    copied: DocumentNode,
    pasted_node: DocumentNode,
    copied_again: DocumentNode,
)
    requires
        pasted_as(registry, m1, copied, pasted_node, s),
        node_mapped(registry, m2, pasted_node, copied_again),
        forall|j: int| 0 <= j < copied.inputs@.len() ==> match #[trigger] copied.inputs@[j] {
            NodeInput::Node { node_id, .. } => remap_of(m1, node_id) matches Some(a) && remap_of(m2, a) is Some,
            _ => true,
        },
    ensures
        copied_again.type_id == copied.type_id,
        copied_again.is_layer == copied.is_layer,
        copied_again.display_as_layer == copied.display_as_layer,
        copied_again.has_primary_output == copied.has_primary_output,
        copied_again.visible == copied.visible,
        copied_again.locked == copied.locked,
        copied_again.x == copied.x + s,
        copied_again.y == copied.y + s,
        copied_again.inputs@.len() == copied.inputs@.len(),
        forall|j: int| 0 <= j < copied.inputs@.len() ==> #[trigger] copied_again.inputs@[j] == renamed_input(copied.inputs@[j], m1, m2),
{
    assert forall|j: int| 0 <= j < copied.inputs@.len() implies #[trigger] copied_again.inputs@[j] == renamed_input(copied.inputs@[j], m1, m2) by {
        assert(pasted_node.inputs@[j] == mapped_input(copied.inputs@[j], m1, registry.default_of(copied.type_id, j)));
        assert(copied_again.inputs@[j] == mapped_input(pasted_node.inputs@[j], m2, registry.default_of(pasted_node.type_id, j)));
    }
}


/// Shifted by `s` on both axes, some pasted node would stand exactly on a node of `nodes`.
pub open spec fn overlaps(nodes: Seq<(NodeId, DocumentNode)>, pasted: Seq<(NodeId, DocumentNode)>, s: int) -> bool {
    exists|k: int, v: int|
        0 <= k < pasted.len() && 0 <= v < nodes.len() && #[trigger] pasted[k].1.x + s == #[trigger] nodes[v].1.x
            && pasted[k].1.y + s == nodes[v].1.y
}

/// The paste offset: the least even shift, from 0 up, at which no pasted node stands on a
/// node of the network.
pub open spec fn is_paste_offset(nodes: Seq<(NodeId, DocumentNode)>, pasted: Seq<(NodeId, DocumentNode)>, s: int) -> bool {
    &&& s >= 0
    &&& s % 2 == 0
    &&& !overlaps(nodes, pasted, s)
    &&& forall|t: int| 0 <= t < s && t % 2 == 0 ==> #[trigger] overlaps(nodes, pasted, t)
}

/// The offset that paste applies to the pasted nodes `pasted` (see `is_paste_offset`).
pub open spec fn the_paste_offset(nodes: Seq<(NodeId, DocumentNode)>, pasted: Seq<(NodeId, DocumentNode)>) -> int {
    choose|s: int| is_paste_offset(nodes, pasted, s)
}

/// Every pasted node, moved by `s`, stays in the grid's range.
pub open spec fn pasted_fit(pasted: Seq<(NodeId, DocumentNode)>, s: int) -> bool {
    forall|k: int| 0 <= k < pasted.len() ==> #[trigger] pasted[k].1.x + s <= i32::MAX && pasted[k].1.y + s <= i32::MAX
}

/// The ids `fresh` are no node ids of `nodes` and differ from each other.
pub open spec fn fresh_list(nodes: Seq<(NodeId, DocumentNode)>, fresh: Seq<NodeId>) -> bool {
    &&& forall|k: int| 0 <= k < fresh.len() ==> !#[trigger] has_id(nodes, fresh[k])
    &&& forall|a: int, b: int| 0 <= a < b < fresh.len() ==> #[trigger] fresh[a] != #[trigger] fresh[b]
}

/// `b` is the pasted node `a` carried across under `m` and shifted by `s`.
pub open spec fn pasted_as(registry: &NodeTypeRegistry, m: Seq<(NodeId, NodeId)>, a: DocumentNode, b: DocumentNode, s: int) -> bool {
    &&& b.type_id == a.type_id
    &&& b.is_layer == a.is_layer
    &&& b.display_as_layer == a.display_as_layer
    &&& b.has_primary_output == a.has_primary_output
    &&& b.visible == a.visible
    &&& b.locked == a.locked
    &&& b.x == a.x + s
    &&& b.y == a.y + s
    &&& b.inputs@.len() == a.inputs@.len()
    &&& forall|j: int| 0 <= j < a.inputs@.len() ==> #[trigger] b.inputs@[j] == mapped_input(
        a.inputs@[j],
        m,
        registry.default_of(a.type_id, j),
    )
}

/// The remapping that pairs the id of each pasted node with its fresh id.
pub open spec fn paste_remap(pasted: Seq<(NodeId, DocumentNode)>, fresh: Seq<NodeId>) -> Seq<(NodeId, NodeId)> {
    Seq::new(pasted.len(), |k: int| (pasted[k].0, fresh[k]))
}

impl NodeNetwork {
    /// Whether, shifted by `s`, some pasted node stands on a node of the network.
    fn overlaps_at(&self, pasted: &Vec<(NodeId, DocumentNode)>, s: i64) -> (r: bool)
        requires
            0 <= s <= 0x2_0000_0000,
        ensures
            r == overlaps(self.nodes@, pasted@, s as int),
    {
        let mut k: usize = 0;
        while k < pasted.len()
            invariant
                0 <= s <= 0x2_0000_0000,
                k <= pasted@.len(),
                forall|k2: int, v: int| 0 <= k2 < k && 0 <= v < self.nodes@.len() ==> !(#[trigger] pasted@[k2].1.x + s == #[trigger] self.nodes@[v].1.x
                    && pasted@[k2].1.y + s == self.nodes@[v].1.y),
            decreases pasted@.len() - k,
        {
            let mut v: usize = 0;
            while v < self.nodes.len()
                invariant
                    0 <= s <= 0x2_0000_0000,
                    k < pasted@.len(),
                    v <= self.nodes@.len(),
                    forall|k2: int, v2: int| 0 <= k2 < k && 0 <= v2 < self.nodes@.len() ==> !(#[trigger] pasted@[k2].1.x + s == #[trigger] self.nodes@[v2].1.x
                        && pasted@[k2].1.y + s == self.nodes@[v2].1.y),
                    forall|v2: int| 0 <= v2 < v ==> !(pasted@[k as int].1.x + s == #[trigger] self.nodes@[v2].1.x
                        && pasted@[k as int].1.y + s == self.nodes@[v2].1.y),
                decreases self.nodes@.len() - v,
            {
                if pasted[k].1.x as i64 + s == self.nodes[v].1.x as i64 && pasted[k].1.y as i64 + s == self.nodes[v].1.y as i64 {
                    return true;
                }
                v = v + 1;
            }
            k = k + 1;
        }
        false
    }

    /// The least even shift, from 0 up, that places no pasted node exactly on a node of the
    /// network.
    pub fn paste_offset(&self, pasted: &Vec<(NodeId, DocumentNode)>) -> (r: i64)
        ensures
            is_paste_offset(self.nodes@, pasted@, r as int),
            r <= 0x1_0000_0002,
    {
        let mut s: i64 = 0;
        while self.overlaps_at(pasted, s)
            invariant
                0 <= s <= 0x1_0000_0002,
                s % 2 == 0,
                forall|t: int| 0 <= t < s && t % 2 == 0 ==> #[trigger] overlaps(self.nodes@, pasted@, t),
            decreases 0x1_0000_0002 - s,
        {
            proof {
                let (k, v) = choose|k: int, v: int|
                    0 <= k < pasted@.len() && 0 <= v < self.nodes@.len() && #[trigger] pasted@[k].1.x + s == #[trigger] self.nodes@[v].1.x
                        && pasted@[k].1.y + s == self.nodes@[v].1.y;
                assert(s <= 0x1_0000_0000);
                assert forall|t: int| 0 <= t < s + 2 && t % 2 == 0 implies #[trigger] overlaps(self.nodes@, pasted@, t) by {
                    if t == s {
                    } else {
                        assert(t < s);
                    }
                }
            }
            s = s + 2;
        }
        s
    }

    /// Paste `pasted` under the ids `fresh` (one for each, in order) and select the new
    /// nodes: the nodes move by the paste offset, and their connections follow the pasted
    /// nodes to their new ids.
    pub fn paste_nodes(
        &mut self,
        registry: &NodeTypeRegistry,
        pasted: &Vec<(NodeId, DocumentNode)>,
        fresh: &Vec<NodeId>,
        selection: &mut Vec<NodeId>,
    ) -> (r: Result<(), EditError>)
        requires
            old(self).wf(),
        ensures
            final(self).wf(),
            fresh@.len() != pasted@.len() ==> r == Err::<(), EditError>(EditError::MalformedPayload),
            r == Err::<(), EditError>(EditError::DuplicateId) <==> fresh@.len() == pasted@.len() && !fresh_list(old(self).nodes@, fresh@),
            r is Ok <==> fresh@.len() == pasted@.len() && fresh_list(old(self).nodes@, fresh@)
                && pasted_fit(pasted@, the_paste_offset(old(self).nodes@, pasted@)),
            r == Err::<(), EditError>(EditError::PositionOutOfRange) <==> fresh@.len() == pasted@.len()
                && fresh_list(old(self).nodes@, fresh@) && !pasted_fit(pasted@, the_paste_offset(old(self).nodes@, pasted@)),
            r is Err ==> final(self).nodes@ == old(self).nodes@ && final(selection)@ == old(selection)@,
            r is Ok ==> final(selection)@ == fresh@,
            r is Ok ==> {
                let n = old(self).nodes@.len();
                let s = the_paste_offset(old(self).nodes@, pasted@);
                &&& final(self).nodes@.len() == n + pasted@.len()
                &&& forall|v: int| 0 <= v < n ==> #[trigger] final(self).nodes@[v] == old(self).nodes@[v]
                &&& forall|k: int| 0 <= k < pasted@.len() ==> #[trigger] final(self).nodes@[n + k].0 == fresh@[k]
                    && pasted_as(registry, paste_remap(pasted@, fresh@), pasted@[k].1, final(self).nodes@[n + k].1, s)
            },
            boundary_kept(&*old(self), &*final(self)),
    {
        if fresh.len() != pasted.len() {
            return Err(EditError::MalformedPayload);
        }
        let mut k: usize = 0;
        while k < fresh.len()
            invariant
                self.wf(),
                self.nodes@ == old(self).nodes@,
                boundary_kept(&*old(self), &*self),
                fresh@.len() == pasted@.len(),
                k <= fresh@.len(),
                forall|k2: int| 0 <= k2 < k ==> !#[trigger] has_id(self.nodes@, fresh@[k2]),
                forall|a: int, b: int| 0 <= a < b < fresh@.len() && a < k ==> #[trigger] fresh@[a] != #[trigger] fresh@[b],
            decreases fresh@.len() - k,
        {
            if self.find(fresh[k]).is_some() {
                assert(has_id(old(self).nodes@, fresh@[k as int]));
                return Err(EditError::DuplicateId);
            }
            let mut b: usize = k + 1;
            while b < fresh.len()
                invariant
                    self.wf(),
                    self.nodes@ == old(self).nodes@,
                    boundary_kept(&*old(self), &*self),
                    fresh@.len() == pasted@.len(),
                    k < b <= fresh@.len(),
                    forall|b2: int| k < b2 < b ==> fresh@[k as int] != #[trigger] fresh@[b2],
                decreases fresh@.len() - b,
            {
                if fresh[k] == fresh[b] {
                    assert(fresh@[k as int] == fresh@[b as int]);
                    return Err(EditError::DuplicateId);
                }
                b = b + 1;
            }
            k = k + 1;
        }
        let s = self.paste_offset(pasted);
        proof {
            lemma_paste_offset_unique(self.nodes@, pasted@, s as int);
        }
        let mut q: usize = 0;
        while q < pasted.len()
            invariant
                0 <= s <= 0x1_0000_0002,
                self.wf(),
                self.nodes@ == old(self).nodes@,
                boundary_kept(&*old(self), &*self),
                fresh@.len() == pasted@.len(),
                fresh_list(old(self).nodes@, fresh@),
                q <= pasted@.len(),
                s as int == the_paste_offset(old(self).nodes@, pasted@),
                forall|q2: int| 0 <= q2 < q ==> #[trigger] pasted@[q2].1.x + s <= i32::MAX && pasted@[q2].1.y + s <= i32::MAX,
            decreases pasted@.len() - q,
        {
            if pasted[q].1.x as i64 + s > i32::MAX as i64 || pasted[q].1.y as i64 + s > i32::MAX as i64 {
                proof {
                    assert(!(#[trigger] pasted@[q as int].1.x + s <= i32::MAX && pasted@[q as int].1.y + s <= i32::MAX));
                }
                return Err(EditError::PositionOutOfRange);
            }
            q = q + 1;
        }
        let mut remap: Vec<(NodeId, NodeId)> = Vec::new();
        let mut i: usize = 0;
        while i < pasted.len()
            invariant
                fresh@.len() == pasted@.len(),
                i <= pasted@.len(),
                remap@ == paste_remap(pasted@, fresh@).subrange(0, i as int),
            decreases pasted@.len() - i,
        {
            remap.push((pasted[i].0, fresh[i]));
            proof {
                assert(remap@ =~= paste_remap(pasted@, fresh@).subrange(0, i as int + 1));
            }
            i = i + 1;
        }
        proof {
            assert(remap@ =~= paste_remap(pasted@, fresh@));
        }
        let ghost n = self.nodes@.len();
        let ghost nodes0 = self.nodes@;
        let mut k: usize = 0;
        while k < pasted.len()
            invariant
                fresh@.len() == pasted@.len(),
                nodes0 == old(self).nodes@,
                ids_unique(nodes0),
                n == nodes0.len(),
                remap@ == paste_remap(pasted@, fresh@),
                0 <= s,
                s as int == the_paste_offset(nodes0, pasted@),
                fresh_list(nodes0, fresh@),
                forall|q2: int| 0 <= q2 < pasted@.len() ==> #[trigger] pasted@[q2].1.x + s <= i32::MAX && pasted@[q2].1.y + s <= i32::MAX,
                k <= pasted@.len(),
                self.nodes@.len() == n + k,
                forall|v: int| 0 <= v < n ==> #[trigger] self.nodes@[v] == nodes0[v],
                forall|k2: int| 0 <= k2 < k ==> #[trigger] self.nodes@[n + k2].0 == fresh@[k2]
                    && pasted_as(registry, remap@, pasted@[k2].1, self.nodes@[n + k2].1, s as int),
                boundary_kept(&*old(self), &*self),
            decreases pasted@.len() - k,
        {
            let mapped = map_ids(&pasted[k].1, &remap, registry);
            proof {
                assert(pasted@[k as int].1.x + s <= i32::MAX);
            }
            let node = DocumentNode {
                type_id: mapped.type_id,
                inputs: mapped.inputs,
                is_layer: mapped.is_layer,
                display_as_layer: mapped.display_as_layer,
                has_primary_output: mapped.has_primary_output,
                visible: mapped.visible,
                locked: mapped.locked,
                x: (mapped.x as i64 + s) as i32,
                y: (mapped.y as i64 + s) as i32,
            };
            let ghost before = self.nodes@;
            self.nodes.push((fresh[k], node));
            proof {
                assert(node_mapped(registry, remap@, pasted@[k as int].1, mapped));
                assert(self.nodes@[n + k].1 == node);
                assert forall|k2: int| 0 <= k2 < k + 1 implies #[trigger] self.nodes@[n + k2].0 == fresh@[k2]
                    && pasted_as(registry, remap@, pasted@[k2].1, self.nodes@[n + k2].1, s as int) by {
                    if k2 < k {
                        assert(self.nodes@[n + k2] == before[n + k2]);
                    }
                }
                assert forall|v: int| 0 <= v < n implies #[trigger] self.nodes@[v] == nodes0[v] by {
                    assert(self.nodes@[v] == before[v]);
                }
            }
            k = k + 1;
        }
        proof {
            assert forall|a: int, b: int|
                0 <= a < self.nodes@.len() && 0 <= b < self.nodes@.len() && a != b implies #[trigger] self.nodes@[a].0
                != #[trigger] self.nodes@[b].0 by {
                if a < n && b < n {
                    assert(self.nodes@[a] == nodes0[a]);
                    assert(self.nodes@[b] == nodes0[b]);
                } else if a < n {
                    assert(self.nodes@[a] == nodes0[a]);
                    assert(self.nodes@[n + (b - n)].0 == fresh@[b - n]);
                    assert(!has_id(nodes0, fresh@[b - n]));
                } else if b < n {
                    assert(self.nodes@[b] == nodes0[b]);
                    assert(self.nodes@[n + (a - n)].0 == fresh@[a - n]);
                    assert(!has_id(nodes0, fresh@[a - n]));
                } else {
                    assert(self.nodes@[n + (a - n)].0 == fresh@[a - n]);
                    assert(self.nodes@[n + (b - n)].0 == fresh@[b - n]);
                    if a < b {
                        assert(fresh@[a - n] != fresh@[b - n]);
                    } else {
                        assert(fresh@[b - n] != fresh@[a - n]);
                    }
                }
            }
        }
        *selection = clone_ids(fresh);
        Ok(())
    }
}

pub proof fn lemma_paste_offset_unique(nodes: Seq<(NodeId, DocumentNode)>, pasted: Seq<(NodeId, DocumentNode)>, s: int)
    requires
        is_paste_offset(nodes, pasted, s),
    ensures
        (choose|t: int| is_paste_offset(nodes, pasted, t)) == s,
{
    let t = choose|t: int| is_paste_offset(nodes, pasted, t);
    if t < s {
        assert(overlaps(nodes, pasted, t));
    } else if s < t {
        assert(overlaps(nodes, pasted, s));
    }
}

/// Offset of duplicated nodes from their originals, on both axes.
pub const DUPLICATE_OFFSET: i32 = 2;

/// The new ids of `pairs` are no node ids of `nodes` and differ from each other.
pub open spec fn fresh_ids(nodes: Seq<(NodeId, DocumentNode)>, pairs: Seq<(NodeId, NodeId)>) -> bool {
    &&& forall|k: int| 0 <= k < pairs.len() ==> !#[trigger] has_id(nodes, pairs[k].1)
    &&& forall|a: int, b: int| 0 <= a < b < pairs.len() ==> #[trigger] pairs[a].1 != #[trigger] pairs[b].1
}

/// Every node copied under `pairs`, moved by `s`, stays in the grid's range.
pub open spec fn copies_fit(net: &NodeNetwork, pairs: Seq<(NodeId, NodeId)>, s: int) -> bool {
    forall|k: int| 0 <= k < pairs.len() ==> #[trigger] node_of(net, pairs[k].0).x + s <= i32::MAX
        && node_of(net, pairs[k].0).y + s <= i32::MAX
}

impl NodeNetwork {
    /// Duplicate the nodes named by the old ids of `new_ids` that are nodes and no export's
    /// node (see `copy_nodes`) under their new ids, moved by `DUPLICATE_OFFSET`, and select
    /// the new nodes. Returns their ids.
    pub fn duplicate_nodes(
        &mut self,
        registry: &NodeTypeRegistry,
        new_ids: &Vec<(NodeId, NodeId)>,
        selection: &mut Vec<NodeId>,
    ) -> (r: Result<Vec<NodeId>, EditError>)
        requires
            old(self).wf(),
        ensures
            final(self).wf(),
            boundary_kept(&*old(self), &*final(self)),
            r is Ok <==> fresh_ids(old(self).nodes@, kept_pairs(&*old(self), new_ids@))
                && copies_fit(&*old(self), kept_pairs(&*old(self), new_ids@), DUPLICATE_OFFSET as int),
            r == Err::<Vec<NodeId>, EditError>(EditError::DuplicateId) ==> !fresh_ids(old(self).nodes@, kept_pairs(&*old(self), new_ids@)),
            r == Err::<Vec<NodeId>, EditError>(EditError::PositionOutOfRange) ==> !copies_fit(&*old(self), kept_pairs(&*old(self), new_ids@), DUPLICATE_OFFSET as int),
            r is Err ==> r == Err::<Vec<NodeId>, EditError>(EditError::DuplicateId) || r == Err::<Vec<NodeId>, EditError>(EditError::PositionOutOfRange),
            r is Err ==> final(self).nodes@ == old(self).nodes@ && final(selection)@ == old(selection)@,
            r matches Ok(ids) ==> {
                let n = old(self).nodes@.len();
                let pairs = kept_pairs(&*old(self), new_ids@);
                &&& ids@.len() == pairs.len()
                &&& final(self).nodes@.len() == n + pairs.len()
                &&& forall|v: int| 0 <= v < n ==> #[trigger] final(self).nodes@[v] == old(self).nodes@[v]
                &&& forall|k: int| 0 <= k < pairs.len() ==> #[trigger] final(self).nodes@[n + k].0 == pairs[k].1
                    && ids@[k] == pairs[k].1
                    && pasted_as(registry, pairs, node_of(&*old(self), pairs[k].0), final(self).nodes@[n + k].1, DUPLICATE_OFFSET as int)
                &&& final(selection)@ == ids@
            },
    {
        let mut copies = NodeGraphMessageHandler::copy_nodes(self, new_ids, registry);
        let ghost all = copies@;
        let ghost pairs = kept_pairs(&*self, new_ids@);
        let m = copies.len();
        let mut k: usize = 0;
        while k < m
            invariant
                self.wf(),
                self.nodes@ == old(self).nodes@,
                boundary_kept(&*old(self), &*self),
                copies@ == all,
                m == all.len(),
                pairs == kept_pairs(&*old(self), new_ids@),
                pairs.len() == m,
                forall|k2: int| 0 <= k2 < m ==> {
                    &&& #[trigger] all[k2].0 == pairs[k2].1
                    &&& is_kept(&*old(self), pairs[k2].0)
                    &&& node_mapped(registry, pairs, node_of(&*old(self), pairs[k2].0), all[k2].1)
                },
                k <= m,
                forall|k2: int| 0 <= k2 < k ==> !#[trigger] has_id(self.nodes@, pairs[k2].1),
                forall|a: int, b: int| 0 <= a < b < m && a < k ==> #[trigger] pairs[a].1 != #[trigger] pairs[b].1,
            decreases m - k,
        {
            proof {
                assert(all[k as int].0 == pairs[k as int].1);
            }
            if self.find(copies[k].0).is_some() {
                assert(has_id(old(self).nodes@, pairs[k as int].1));
                return Err(EditError::DuplicateId);
            }
            let mut b: usize = k + 1;
            while b < m
                invariant
                    self.wf(),
                    self.nodes@ == old(self).nodes@,
                    boundary_kept(&*old(self), &*self),
                    copies@ == all,
                    m == all.len(),
                    pairs == kept_pairs(&*old(self), new_ids@),
                    pairs.len() == m,
                    forall|k2: int| 0 <= k2 < m ==> #[trigger] all[k2].0 == pairs[k2].1,
                    k < b <= m,
                    forall|b2: int| k < b2 < b ==> pairs[k as int].1 != #[trigger] pairs[b2].1,
                decreases m - b,
            {
                if copies[k].0 == copies[b].0 {
                    proof {
                        assert(all[b as int].0 == pairs[b as int].1);
                        assert(pairs[k as int].1 == pairs[b as int].1);
                    }
                    return Err(EditError::DuplicateId);
                }
                proof {
                    assert(all[b as int].0 == pairs[b as int].1);
                }
                b = b + 1;
            }
            k = k + 1;
        }
        let mut k: usize = 0;
        while k < m
            invariant
                self.wf(),
                self.nodes@ == old(self).nodes@,
                boundary_kept(&*old(self), &*self),
                copies@ == all,
                m == all.len(),
                pairs == kept_pairs(&*old(self), new_ids@),
                pairs.len() == m,
                forall|k2: int| 0 <= k2 < m ==> {
                    &&& #[trigger] all[k2].0 == pairs[k2].1
                    &&& is_kept(&*old(self), pairs[k2].0)
                    &&& node_mapped(registry, pairs, node_of(&*old(self), pairs[k2].0), all[k2].1)
                },
                fresh_ids(old(self).nodes@, pairs),
                k <= m,
                forall|k2: int| 0 <= k2 < k ==> #[trigger] node_of(&*old(self), pairs[k2].0).x + DUPLICATE_OFFSET <= i32::MAX
                    && node_of(&*old(self), pairs[k2].0).y + DUPLICATE_OFFSET <= i32::MAX,
            decreases m - k,
        {
            proof {
                assert(all[k as int].0 == pairs[k as int].1);
                assert(node_mapped(registry, pairs, node_of(&*old(self), pairs[k as int].0), all[k as int].1));
            }
            if copies[k].1.x > i32::MAX - DUPLICATE_OFFSET || copies[k].1.y > i32::MAX - DUPLICATE_OFFSET {
                return Err(EditError::PositionOutOfRange);
            }
            k = k + 1;
        }
        let ghost n = self.nodes@.len();
        let ghost nodes0 = self.nodes@;
        let mut ids: Vec<NodeId> = Vec::new();
        let mut k: usize = 0;
        while k < m
            invariant
                nodes0 == old(self).nodes@,
                ids_unique(nodes0),
                n == nodes0.len(),
                m == all.len(),
                pairs == kept_pairs(&*old(self), new_ids@),
                pairs.len() == m,
                forall|k2: int| 0 <= k2 < m ==> {
                    &&& #[trigger] all[k2].0 == pairs[k2].1
                    &&& is_kept(&*old(self), pairs[k2].0)
                    &&& node_mapped(registry, pairs, node_of(&*old(self), pairs[k2].0), all[k2].1)
                },
                fresh_ids(nodes0, pairs),
                copies_fit(&*old(self), pairs, DUPLICATE_OFFSET as int),
                k <= m,
                copies@ == all.subrange(k as int, m as int),
                ids@.len() == k,
                self.nodes@.len() == n + k,
                forall|v: int| 0 <= v < n ==> #[trigger] self.nodes@[v] == nodes0[v],
                forall|k2: int| 0 <= k2 < k ==> #[trigger] self.nodes@[n + k2].0 == pairs[k2].1
                    && ids@[k2] == pairs[k2].1
                    && pasted_as(registry, pairs, node_of(&*old(self), pairs[k2].0), self.nodes@[n + k2].1, DUPLICATE_OFFSET as int),
                boundary_kept(&*old(self), &*self),
            decreases m - k,
        {
            let (id, mut node) = copies.remove(0);
            proof {
                assert(all[k as int] == (id, node));
                assert(all[k as int].0 == pairs[k as int].1);
                assert(node_mapped(registry, pairs, node_of(&*old(self), pairs[k as int].0), node));
                assert(node_of(&*old(self), pairs[k as int].0).x + DUPLICATE_OFFSET <= i32::MAX);
            }
            node.x = node.x + DUPLICATE_OFFSET;
            node.y = node.y + DUPLICATE_OFFSET;
            let ghost before = self.nodes@;
            let ghost ids0 = ids@;
            self.nodes.push((id, node));
            ids.push(id);
            proof {
                assert forall|k2: int| 0 <= k2 < k + 1 implies #[trigger] self.nodes@[n + k2].0 == pairs[k2].1
                    && ids@[k2] == pairs[k2].1
                    && pasted_as(registry, pairs, node_of(&*old(self), pairs[k2].0), self.nodes@[n + k2].1, DUPLICATE_OFFSET as int) by {
                    if k2 < k {
                        assert(self.nodes@[n + k2] == before[n + k2]);
                        assert(ids@[k2] == ids0[k2]);
                    }
                }
                assert forall|v: int| 0 <= v < n implies #[trigger] self.nodes@[v] == nodes0[v] by {
                    assert(self.nodes@[v] == before[v]);
                }
                assert(copies@ =~= all.subrange(k as int + 1, m as int));
            }
            k = k + 1;
        }
        proof {
            assert forall|a: int, b: int|
                0 <= a < self.nodes@.len() && 0 <= b < self.nodes@.len() && a != b implies #[trigger] self.nodes@[a].0
                != #[trigger] self.nodes@[b].0 by {
                if a < n && b < n {
                    assert(self.nodes@[a] == nodes0[a]);
                    assert(self.nodes@[b] == nodes0[b]);
                } else if a < n {
                    assert(self.nodes@[a] == nodes0[a]);
                    assert(self.nodes@[n + (b - n)].0 == pairs[b - n].1);
                    assert(!has_id(nodes0, pairs[b - n].1));
                } else if b < n {
                    assert(self.nodes@[b] == nodes0[b]);
                    assert(self.nodes@[n + (a - n)].0 == pairs[a - n].1);
                    assert(!has_id(nodes0, pairs[a - n].1));
                } else {
                    assert(self.nodes@[n + (a - n)].0 == pairs[a - n].1);
                    assert(self.nodes@[n + (b - n)].0 == pairs[b - n].1);
                    if a < b {
                        assert(pairs[a - n].1 != pairs[b - n].1);
                    } else {
                        assert(pairs[b - n].1 != pairs[a - n].1);
                    }
                }
            }
        }
        *selection = clone_ids(&ids);
        Ok(ids)
    }
}

} // verus!
