use vstd::prelude::*;

use crate::edit::boundary_kept;
use crate::graph::{has_id, index_of, lemma_index_of, DocumentNode, EditError, NodeId, NodeInput, NodeNetwork};
use crate::topology::{
    acyclic, adj, downstream, lemma_reach_step, lemma_reach_trans, reach, reachable_from, reaches,
    reverse_links, up_edge, upstream, upstream_links,
};

verus! {

/// Horizontal room, in grid units, that a node keeps from its neighbours when shifted.
pub const SPACING: i32 = 8;

/// `x + s`, held at `i32::MAX` where it would pass it.
pub open spec fn sat_add(x: i32, s: int) -> i32 {
    if x + s > i32::MAX {
        i32::MAX
    } else {
        (x + s) as i32
    }
}

/// `b` is `a` with some nodes moved horizontally: ids, inputs, flags and vertical
/// positions are kept.
pub open spec fn moved_horizontally(a: Seq<(NodeId, DocumentNode)>, b: Seq<(NodeId, DocumentNode)>) -> bool {
    &&& b.len() == a.len()
    &&& forall|v: int| 0 <= v < a.len() ==> {
        &&& #[trigger] b[v].0 == a[v].0
        &&& b[v].1.type_id == a[v].1.type_id
        &&& b[v].1.inputs@ == a[v].1.inputs@
        &&& b[v].1.is_layer == a[v].1.is_layer
        &&& b[v].1.display_as_layer == a[v].1.display_as_layer
        &&& b[v].1.has_primary_output == a[v].1.has_primary_output
        &&& b[v].1.visible == a[v].1.visible
        &&& b[v].1.locked == a[v].1.locked
        &&& b[v].1.y == a[v].1.y
    }
}

/// Nodes only move to the right.
pub open spec fn moved_right(a: Seq<(NodeId, DocumentNode)>, b: Seq<(NodeId, DocumentNode)>) -> bool {
    &&& moved_horizontally(a, b)
    &&& forall|v: int| 0 <= v < a.len() ==> #[trigger] b[v].1.x >= a[v].1.x
}

pub proof fn lemma_moved_right_trans(a: Seq<(NodeId, DocumentNode)>, b: Seq<(NodeId, DocumentNode)>, c: Seq<(NodeId, DocumentNode)>)
    requires
        moved_right(a, b),
        moved_right(b, c),
    ensures
        moved_right(a, c),
{
    assert forall|v: int| 0 <= v < a.len() implies #[trigger] c[v].1.x >= a[v].1.x by {
        assert(c[v].1.x >= b[v].1.x);
        assert(b[v].1.x >= a[v].1.x);
    }
    assert forall|v: int| 0 <= v < a.len() implies {
        &&& #[trigger] c[v].0 == a[v].0
        &&& c[v].1.type_id == a[v].1.type_id
        &&& c[v].1.inputs@ == a[v].1.inputs@
        &&& c[v].1.is_layer == a[v].1.is_layer
        &&& c[v].1.display_as_layer == a[v].1.display_as_layer
        &&& c[v].1.has_primary_output == a[v].1.has_primary_output
        &&& c[v].1.visible == a[v].1.visible
        &&& c[v].1.locked == a[v].1.locked
        &&& c[v].1.y == a[v].1.y
    } by {
        assert(b[v].0 == a[v].0);
        assert(c[v].0 == b[v].0);
    }
}

pub proof fn lemma_moved_same_edges(a: Seq<(NodeId, DocumentNode)>, b: Seq<(NodeId, DocumentNode)>)
    requires
        moved_horizontally(a, b),
    ensures
        upstream(a) == upstream(b),
{
    assert forall|x: int, y: int| #[trigger] upstream(a)(x, y) == upstream(b)(x, y) by {
        if 0 <= x < a.len() && 0 <= y < a.len() {
            assert(b[x].0 == a[x].0);
            assert(b[y].0 == a[y].0);
            assert(b[x].1.inputs@ == a[x].1.inputs@);
        }
    }
    assert(upstream(a) =~= upstream(b));
}

/// A path along the outputs is a path along the inputs, walked backwards.
pub proof fn lemma_downstream_reversed(nodes: Seq<(NodeId, DocumentNode)>, a: int, b: int, n: nat)
    requires
        reach(downstream(nodes), a, b, n),
    ensures
        reaches(upstream(nodes), b, a),
    decreases n,
{
    let up = upstream(nodes);
    if n == 0 {
        assert(reach(up, b, a, 0));
    } else {
        let m = choose|m: int| reach(downstream(nodes), a, m, (n - 1) as nat) && #[trigger] downstream(nodes)(m, b);
        lemma_downstream_reversed(nodes, a, m, (n - 1) as nat);
        assert(up(b, m));
        assert(reach(up, b, b, 0));
        lemma_reach_step(up, b, b, m, 0);
        let k = choose|k: nat| #[trigger] reach(up, m, a, k);
        lemma_reach_trans(up, b, m, a, 1, k);
    }
}

impl NodeNetwork {
    /// Move the marked nodes `s` units to the right (held at `i32::MAX`).
    fn shift_marked(&mut self, marks: &Vec<bool>, s: i64)
        requires
            marks@.len() == old(self).nodes@.len(),
            0 <= s <= 0x1_0000_0010,
        ensures
            moved_right(old(self).nodes@, final(self).nodes@),
            forall|v: int| 0 <= v < marks@.len() ==> #[trigger] final(self).nodes@[v].1.x == if marks@[v] {
                sat_add(old(self).nodes@[v].1.x, s as int)
            } else {
                old(self).nodes@[v].1.x
            },
            boundary_kept(&*old(self), &*final(self)),
    {
        let mut v: usize = 0;
        while v < self.nodes.len()
            invariant
                marks@.len() == old(self).nodes@.len(),
                0 <= s <= 0x1_0000_0010,
                v <= self.nodes@.len(),
                moved_right(old(self).nodes@, self.nodes@),
                forall|w: int| 0 <= w < v ==> #[trigger] self.nodes@[w].1.x == if marks@[w] {
                    sat_add(old(self).nodes@[w].1.x, s as int)
                } else {
                    old(self).nodes@[w].1.x
                },
                forall|w: int| v <= w < self.nodes@.len() ==> #[trigger] self.nodes@[w].1.x == old(self).nodes@[w].1.x,
                boundary_kept(&*old(self), &*self),
            decreases self.nodes@.len() - v,
        {
            if marks[v] {
                let x = self.nodes[v].1.x;
                let moved: i32 = if x as i64 + s > i32::MAX as i64 {
                    i32::MAX
                } else {
                    (x as i64 + s) as i32
                };
                self.nodes[v].1.x = moved;
            }
            v = v + 1;
        }
    }

    /// Make room around node `id`: it moves right until each node it takes an input from
    /// and stands left of it is `SPACING` units away; then each node that it feeds into,
    /// with everything that node feeds into, moves right until that node is `SPACING` units
    /// right of it.
    pub fn shift_node(&mut self, id: NodeId) -> (r: Result<(), EditError>)
        requires
            old(self).wf(),
        ensures
            r is Err <==> !has_id(old(self).nodes@, id),
            r is Err ==> r == Err::<(), EditError>(EditError::NoNode) && final(self).nodes@ == old(self).nodes@,
            final(self).wf(),
            moved_right(old(self).nodes@, final(self).nodes@),
            boundary_kept(&*old(self), &*final(self)),
            r is Ok && acyclic(upstream(old(self).nodes@)) ==> {
                let i = index_of(old(self).nodes@, id);
                forall|d: int| #[trigger] up_edge(final(self).nodes@, d, i) ==> final(self).nodes@[d].1.x - final(self).nodes@[i].1.x >= SPACING
                    || final(self).nodes@[i].1.x > i32::MAX - SPACING
            },
    {
        let i = match self.find(id) {
            Some(i) => i,
            None => return Err(EditError::NoNode),
        };
        proof {
            lemma_index_of(self.nodes@, i as int);
        }
        let ghost nodes0 = self.nodes@;
        let mut j: usize = 0;
        while j < self.nodes[i].1.inputs.len()
            invariant
                nodes0 == old(self).nodes@,
                i < self.nodes@.len(),
                j <= self.nodes@[i as int].1.inputs@.len(),
                moved_right(nodes0, self.nodes@),
                forall|v: int| 0 <= v < nodes0.len() && v != i ==> #[trigger] self.nodes@[v].1.x == nodes0[v].1.x,
                boundary_kept(&*old(self), &*self),
                old(self).wf(),
            decreases self.nodes@[i as int].1.inputs@.len() - j,
        {
            proof {
                lemma_moved_same_edges(nodes0, self.nodes@);
                assert(self.wf()) by {
                    assert forall|a: int, b: int|
                        0 <= a < self.nodes@.len() && 0 <= b < self.nodes@.len() && a != b implies #[trigger] self.nodes@[a].0
                        != #[trigger] self.nodes@[b].0 by {
                        assert(nodes0[a].0 == self.nodes@[a].0);
                        assert(nodes0[b].0 == self.nodes@[b].0);
                    }
                }
            }
            if let NodeInput::Node { node_id, .. } = self.nodes[i].1.inputs[j] {
                if let Some(u) = self.find(node_id) {
                    let xu = self.nodes[u].1.x;
                    let xi = self.nodes[i].1.x;
                    if u != i && xi >= xu && (xi as i64) - (xu as i64) < SPACING as i64 {
                        let moved: i32 = if xu as i64 + SPACING as i64 > i32::MAX as i64 {
                            i32::MAX
                        } else {
                            (xu as i64 + SPACING as i64) as i32
                        };
                        let ghost before = self.nodes@;
                        self.nodes[i].1.x = moved;
                        proof {
                            assert(moved >= xi);
                            assert forall|v: int| 0 <= v < nodes0.len() implies #[trigger] self.nodes@[v].1.x >= nodes0[v].1.x by {
                                if v != i {
                                    assert(self.nodes@[v] == before[v]);
                                }
                            }
                            assert forall|v: int| 0 <= v < nodes0.len() implies {
                                &&& #[trigger] self.nodes@[v].0 == nodes0[v].0
                                &&& self.nodes@[v].1.type_id == nodes0[v].1.type_id
                                &&& self.nodes@[v].1.inputs@ == nodes0[v].1.inputs@
                                &&& self.nodes@[v].1.is_layer == nodes0[v].1.is_layer
                                &&& self.nodes@[v].1.display_as_layer == nodes0[v].1.display_as_layer
                                &&& self.nodes@[v].1.has_primary_output == nodes0[v].1.has_primary_output
                                &&& self.nodes@[v].1.visible == nodes0[v].1.visible
                                &&& self.nodes@[v].1.locked == nodes0[v].1.locked
                                &&& self.nodes@[v].1.y == nodes0[v].1.y
                            } by {
                                if v != i {
                                    assert(self.nodes@[v] == before[v]);
                                }
                                assert(before[v].0 == nodes0[v].0);
                            }
                        }
                    }
                }
            }
            j = j + 1;
        }
        proof {
            lemma_moved_same_edges(nodes0, self.nodes@);
            assert forall|a: int, b: int|
                0 <= a < self.nodes@.len() && 0 <= b < self.nodes@.len() && a != b implies #[trigger] self.nodes@[a].0
                != #[trigger] self.nodes@[b].0 by {
                assert(nodes0[a].0 == self.nodes@[a].0);
                assert(nodes0[b].0 == self.nodes@[b].0);
            }
        }
        let up = upstream_links(self);
        let down = reverse_links(&up);
        let ghost nodes1 = self.nodes@;
        let n = self.nodes.len();
        let mut k: usize = 0;
        while k < down[i].len()
            invariant
                nodes0 == old(self).nodes@,
                n == nodes0.len(),
                i < n,
                self.wf(),
                down@.len() == n,
                forall|a: int, b: int| #[trigger] adj(down@)(a, b) == adj(up@)(b, a),
                adj(up@) == upstream(nodes0),
                k <= down@[i as int]@.len(),
                moved_right(nodes0, self.nodes@),
                moved_right(nodes1, self.nodes@),
                acyclic(upstream(nodes0)) ==> self.nodes@[i as int].1.x == nodes1[i as int].1.x,
                upstream(self.nodes@) == upstream(nodes0),
                forall|kk: int| 0 <= kk < k ==> #[trigger] down@[i as int]@[kk] < n,
                acyclic(upstream(nodes0)) ==> forall|kk: int| 0 <= kk < k ==> (self.nodes@[#[trigger] down@[i as int]@[kk] as int].1.x
                    - self.nodes@[i as int].1.x >= SPACING || self.nodes@[i as int].1.x > i32::MAX - SPACING),
                forall|a: int, kk: int| 0 <= a < down@.len() && 0 <= kk < down@[a]@.len() ==> #[trigger] down@[a]@[kk] < n,
                boundary_kept(&*old(self), &*self),
            decreases down@[i as int]@.len() - k,
        {
            let d = down[i][k];
            let xd = self.nodes[d].1.x;
            let xi = self.nodes[i].1.x;
            let gap: i64 = xd as i64 - xi as i64;
            if gap < SPACING as i64 {
                let s: i64 = SPACING as i64 - gap;
                let mut roots: Vec<usize> = Vec::new();
                roots.push(d);
                let marks = self.downstream_closure(&roots);
                proof {
                    assert(down@[i as int]@.contains(d));
                    assert(adj(down@)(i as int, d as int));
                    assert(upstream(nodes0)(d as int, i as int));
                    if acyclic(upstream(nodes0)) && marks@[i as int] {
                        let q = choose|q: int| 0 <= q < roots@.len() && #[trigger] reaches(downstream(self.nodes@), roots@[q] as int, i as int);
                        assert(roots@[q] == d);
                        let m = choose|m: nat| #[trigger] reach(downstream(self.nodes@), d as int, i as int, m);
                        lemma_downstream_reversed(self.nodes@, d as int, i as int, m);
                        assert(false);
                    }
                    assert(roots@[0] == d);
                    assert(reach(downstream(self.nodes@), d as int, d as int, 0));
                    assert(reaches(downstream(self.nodes@), roots@[0] as int, d as int));
                    assert(marks@[d as int]);
                }
                let ghost before = self.nodes@;
                self.shift_marked(&marks, s);
                proof {
                    lemma_moved_same_edges(before, self.nodes@);
                    assert forall|a: int, b: int|
                        0 <= a < self.nodes@.len() && 0 <= b < self.nodes@.len() && a != b implies #[trigger] self.nodes@[a].0
                        != #[trigger] self.nodes@[b].0 by {
                        assert(before[a].0 == self.nodes@[a].0);
                        assert(before[b].0 == self.nodes@[b].0);
                    }
                    lemma_moved_right_trans(nodes0, before, self.nodes@);
                    lemma_moved_right_trans(nodes1, before, self.nodes@);
                    if acyclic(upstream(nodes0)) {
                        assert(self.nodes@[i as int].1.x == before[i as int].1.x);
                        assert(self.nodes@[d as int].1.x == sat_add(before[d as int].1.x, s as int));
                        assert forall|kk: int| 0 <= kk < k + 1 implies (self.nodes@[#[trigger] down@[i as int]@[kk] as int].1.x
                            - self.nodes@[i as int].1.x >= SPACING || self.nodes@[i as int].1.x > i32::MAX - SPACING) by {
                            let w = down@[i as int]@[kk] as int;
                            assert(self.nodes@[w].1.x >= before[w].1.x);
                        }
                    }
                }
            }
            k = k + 1;
        }
        proof {
            if acyclic(upstream(nodes0)) {
                assert forall|d: int| #[trigger] up_edge(self.nodes@, d, i as int) implies self.nodes@[d].1.x - self.nodes@[i as int].1.x >= SPACING
                    || self.nodes@[i as int].1.x > i32::MAX - SPACING by {
                    assert(upstream(self.nodes@)(d, i as int));
                    assert(adj(down@)(i as int, d));
                    assert(down@[i as int]@.contains(d as usize));
                    let kk = choose|kk: int| 0 <= kk < down@[i as int]@.len() && down@[i as int]@[kk] == d as usize;
                    assert(down@[i as int]@[kk] < n);
                }
            }
        }
        Ok(())
    }
}


/// `b` is `a` with the nodes whose ids `sel` holds moved by `(dx, dy)`.
pub open spec fn moved_by(a: (NodeId, DocumentNode), b: (NodeId, DocumentNode), sel: Seq<NodeId>, dx: int, dy: int) -> bool {
    let d = if sel.contains(a.0) { (dx, dy) } else { (0int, 0int) };
    &&& b.0 == a.0
    &&& b.1.type_id == a.1.type_id
    &&& b.1.inputs@ == a.1.inputs@
    &&& b.1.is_layer == a.1.is_layer
    &&& b.1.display_as_layer == a.1.display_as_layer
    &&& b.1.has_primary_output == a.1.has_primary_output
    &&& b.1.visible == a.1.visible
    &&& b.1.locked == a.1.locked
    &&& b.1.x == a.1.x + d.0
    &&& b.1.y == a.1.y + d.1
}

impl NodeNetwork {
    /// Move each selected node by `(dx, dy)`.
    pub fn move_selected_nodes(&mut self, selection: &Vec<NodeId>, dx: i32, dy: i32)
        requires
            forall|v: int| 0 <= v < old(self).nodes@.len() && selection@.contains(#[trigger] old(self).nodes@[v].0) ==> i32::MIN <= old(self).nodes@[v].1.x + dx <= i32::MAX
                && i32::MIN <= old(self).nodes@[v].1.y + dy <= i32::MAX,
        ensures
            final(self).nodes@.len() == old(self).nodes@.len(),
            forall|v: int| 0 <= v < old(self).nodes@.len() ==> #[trigger] moved_by(old(self).nodes@[v], final(self).nodes@[v], selection@, dx as int, dy as int),
            boundary_kept(&*old(self), &*final(self)),
    {
        let mut v: usize = 0;
        while v < self.nodes.len()
            invariant
                v <= self.nodes@.len(),
                self.nodes@.len() == old(self).nodes@.len(),
                forall|w: int| 0 <= w < old(self).nodes@.len() && selection@.contains(#[trigger] old(self).nodes@[w].0) ==> i32::MIN <= old(self).nodes@[w].1.x + dx <= i32::MAX
                    && i32::MIN <= old(self).nodes@[w].1.y + dy <= i32::MAX,
                forall|w: int| 0 <= w < v ==> #[trigger] moved_by(old(self).nodes@[w], self.nodes@[w], selection@, dx as int, dy as int),
                forall|w: int| v <= w < self.nodes@.len() ==> #[trigger] self.nodes@[w] == old(self).nodes@[w],
                boundary_kept(&*old(self), &*self),
            decreases self.nodes@.len() - v,
        {
            if crate::delete::contains_id(selection, self.nodes[v].0) {
                let x = self.nodes[v].1.x;
                let y = self.nodes[v].1.y;
                self.nodes[v].1.x = x + dx;
                self.nodes[v].1.y = y + dy;
            }
            v = v + 1;
        }
    }
}
} // verus!
