use vstd::prelude::*;

use crate::graph::{
    exports_contain, has_id, ids_unique, index_of, is_connection_from, lemma_index_of,
    DocumentNode, NodeId, NodeInput, NodeNetwork, NodeOutput,
};

verus! {

/// Node `a` takes an input from node `b` (positions in `nodes`).
pub open spec fn up_edge(nodes: Seq<(NodeId, DocumentNode)>, a: int, b: int) -> bool {
    &&& 0 <= a < nodes.len()
    &&& 0 <= b < nodes.len()
    &&& exists|j: int|
        0 <= j < nodes[a].1.inputs@.len() && #[trigger] is_connection_from(
            nodes[a].1.inputs@[j],
            nodes[b].0,
        )
}

/// The edges "takes an input from" of a network, as a relation on positions.
pub open spec fn upstream(nodes: Seq<(NodeId, DocumentNode)>) -> spec_fn(int, int) -> bool {
    |a: int, b: int| up_edge(nodes, a, b)
}

/// The edges "feeds into" of a network, as a relation on positions.
pub open spec fn downstream(nodes: Seq<(NodeId, DocumentNode)>) -> spec_fn(int, int) -> bool {
    |a: int, b: int| up_edge(nodes, b, a)
}

/// The edges of an adjacency list.
pub open spec fn adj(links: Seq<Vec<usize>>) -> spec_fn(int, int) -> bool {
    |a: int, b: int| 0 <= a < links.len() && 0 <= b < links.len() && links[a]@.contains(b as usize)
}

/// A path of `n` edges of `e` leads from `a` to `b`.
pub open spec fn reach(e: spec_fn(int, int) -> bool, a: int, b: int, n: nat) -> bool
    decreases n,
{
    if n == 0 {
        a == b
    } else {
        exists|m: int| reach(e, a, m, (n - 1) as nat) && #[trigger] e(m, b)
    }
}

/// Some path of `e` leads from `a` to `b`.
pub open spec fn reaches(e: spec_fn(int, int) -> bool, a: int, b: int) -> bool {
    exists|n: nat| #[trigger] reach(e, a, b, n)
}

/// Some path of `e` leads from one of `roots` to `b`.
pub open spec fn reachable_from(e: spec_fn(int, int) -> bool, roots: Seq<usize>, b: int) -> bool {
    exists|i: int| 0 <= i < roots.len() && #[trigger] reaches(e, roots[i] as int, b)
}

/// No edge of `e` closes a cycle.
pub open spec fn acyclic(e: spec_fn(int, int) -> bool) -> bool {
    forall|a: int, b: int| #[trigger] e(a, b) ==> !reaches(e, b, a)
}

pub proof fn lemma_reach_step(e: spec_fn(int, int) -> bool, a: int, m: int, b: int, n: nat)
    requires
        reach(e, a, m, n),
        e(m, b),
    ensures
        reach(e, a, b, n + 1),
        reaches(e, a, b),
{
    let n1: nat = n + 1;
    assert((n1 - 1) as nat == n);
    assert(reach(e, a, m, (n1 - 1) as nat) && e(m, b));
    assert(reach(e, a, b, n1));
}

pub proof fn lemma_reach_trans(e: spec_fn(int, int) -> bool, a: int, b: int, c: int, n1: nat, n2: nat)
    requires
        reach(e, a, b, n1),
        reach(e, b, c, n2),
    ensures
        reach(e, a, c, n1 + n2),
    decreases n2,
{
    if n2 > 0 {
        let m = choose|m: int| reach(e, b, m, (n2 - 1) as nat) && #[trigger] e(m, c);
        lemma_reach_trans(e, a, b, m, n1, (n2 - 1) as nat);
        lemma_reach_step(e, a, m, c, (n1 + n2 - 1) as nat);
    }
}

pub proof fn lemma_reaches_trans(e: spec_fn(int, int) -> bool, a: int, b: int, c: int)
    requires
        reaches(e, a, b),
        reaches(e, b, c),
    ensures
        reaches(e, a, c),
{
    let n1 = choose|n: nat| #[trigger] reach(e, a, b, n);
    let n2 = choose|n: nat| #[trigger] reach(e, b, c, n);
    lemma_reach_trans(e, a, b, c, n1, n2);
}

/// A set closed under the edges holds everything that its members reach.
pub proof fn lemma_closed_reach(links: Seq<Vec<usize>>, vis: Seq<bool>, a: int, b: int, n: nat)
    requires
        vis.len() == links.len(),
        0 <= a < vis.len(),
        vis[a],
        forall|u: int, w: int| 0 <= u < vis.len() && vis[u] && #[trigger] adj(links)(u, w) ==> 0 <= w < vis.len() && vis[w],
        reach(adj(links), a, b, n),
    ensures
        0 <= b < vis.len() && vis[b],
    decreases n,
{
    if n > 0 {
        let m = choose|m: int| reach(adj(links), a, m, (n - 1) as nat) && #[trigger] adj(links)(m, b);
        lemma_closed_reach(links, vis, a, m, (n - 1) as nat);
    }
}

pub open spec fn count_true(s: Seq<bool>) -> nat
    decreases s.len(),
{
    if s.len() == 0 {
        0
    } else {
        count_true(s.drop_last()) + if s.last() { 1nat } else { 0nat }
    }
}

pub proof fn lemma_count_true(s: Seq<bool>, i: int)
    requires
        0 <= i < s.len(),
        !s[i],
    ensures
        count_true(s.update(i, true)) == count_true(s) + 1,
        count_true(s) < s.len(),
    decreases s.len(),
{
    let t = s.update(i, true);
    if i == s.len() - 1 {
        assert(t.drop_last() =~= s.drop_last());
        lemma_count_true_bounded(s.drop_last());
    } else {
        assert(t.drop_last() =~= s.drop_last().update(i, true));
        lemma_count_true(s.drop_last(), i);
    }
}

pub proof fn lemma_count_true_bounded(s: Seq<bool>)
    ensures
        count_true(s) <= s.len(),
    decreases s.len(),
{
    if s.len() > 0 {
        lemma_count_true_bounded(s.drop_last());
    }
}

/// Every entry of the adjacency list names a position of it.
pub open spec fn links_in_range(links: Seq<Vec<usize>>) -> bool {
    forall|a: int, k: int|
        0 <= a < links.len() && 0 <= k < links[a]@.len() ==> #[trigger] links[a]@[k] < links.len()
}

/// Marks the positions that a path of `links` leads to from one of `roots`.
pub fn closure(links: &Vec<Vec<usize>>, roots: &Vec<usize>) -> (r: Vec<bool>)
    requires
        links_in_range(links@),
        forall|i: int| 0 <= i < roots@.len() ==> #[trigger] roots@[i] < links@.len(),
    ensures
        r@.len() == links@.len(),
        forall|v: int| 0 <= v < links@.len() ==> (r@[v] <==> reachable_from(adj(links@), roots@, v)),
{
    let n = links.len();
    let ghost e = adj(links@);
    let mut vis: Vec<bool> = Vec::new();
    let mut i: usize = 0;
    while i < n
        invariant
            n == links@.len(),
            i <= n,
            vis@.len() == i,
            forall|v: int| 0 <= v < i ==> !vis@[v],
        decreases n - i,
    {
        vis.push(false);
        i = i + 1;
    }
    proof {
        assert(count_true(vis@) == 0) by {
            lemma_count_true_bounded(vis@);
            lemma_none_true(vis@);
        }
    }
    let mut count: usize = 0;
    let mut stack: Vec<usize> = Vec::new();
    let mut ri: usize = 0;
    while ri < roots.len()
        invariant
            n == links@.len(),
            e == adj(links@),
            links_in_range(links@),
            forall|i: int| 0 <= i < roots@.len() ==> #[trigger] roots@[i] < links@.len(),
            forall|i: int| 0 <= i < roots@.len() ==> #[trigger] roots@[i] < links@.len(),
            ri <= roots@.len(),
            vis@.len() == n,
            count == count_true(vis@),
            forall|v: int| 0 <= v < n && vis@[v] ==> reachable_from(e, roots@, v),
            forall|k: int| 0 <= k < stack@.len() ==> #[trigger] stack@[k] < n && vis@[stack@[k] as int],
            forall|k: int| 0 <= k < ri ==> vis@[#[trigger] roots@[k] as int],
            forall|u: int, w: int| 0 <= u < n && vis@[u] && !stack@.contains(u as usize) && #[trigger] e(u, w) ==> 0 <= w < n && vis@[w],
        decreases roots@.len() - ri,
    {
        let r = roots[ri];
        if !vis[r] {
            proof {
                lemma_count_true(vis@, r as int);
                assert(reach(e, r as int, r as int, 0));
                assert(reaches(e, roots@[ri as int] as int, r as int));
                assert(reachable_from(e, roots@, r as int));
            }
            let ghost old_vis = vis@;
            vis.set(r, true);
            count = count + 1;
            let ghost old_stack = stack@;
            stack.push(r);
            proof {
                assert forall|u: int, w: int| 0 <= u < n && vis@[u] && !stack@.contains(u as usize) && #[trigger] e(u, w) implies 0 <= w < n && vis@[w] by {
                    assert(stack@.drop_last() == old_stack);
                    assert(stack@[stack@.len() - 1] == r);
                    if u != r as int {
                        assert(old_vis[u]);
                        if !old_stack.contains(u as usize) {
                            assert(0 <= w < n && old_vis[w]);
                        }
                    }
                    if old_stack.contains(u as usize) {
                        let j = choose|j: int| 0 <= j < old_stack.len() && old_stack[j] == u as usize;
                        assert(stack@[j] == u as usize);
                    }
                }
            }
        }
        ri = ri + 1;
    }
    proof {
        lemma_count_true_bounded(vis@);
    }
    while stack.len() > 0
        invariant
            n == links@.len(),
            e == adj(links@),
            links_in_range(links@),
            forall|i: int| 0 <= i < roots@.len() ==> #[trigger] roots@[i] < links@.len(),
            vis@.len() == n,
            count == count_true(vis@),
            count <= n,
            forall|v: int| 0 <= v < n && vis@[v] ==> reachable_from(e, roots@, v),
            forall|k: int| 0 <= k < stack@.len() ==> #[trigger] stack@[k] < n && vis@[stack@[k] as int],
            forall|k: int| 0 <= k < roots@.len() ==> vis@[#[trigger] roots@[k] as int],
            forall|u: int, w: int| 0 <= u < n && vis@[u] && !stack@.contains(u as usize) && #[trigger] e(u, w) ==> 0 <= w < n && vis@[w],
        decreases n - count, stack@.len(),
    {
        let ghost old_stack = stack@;
        let v = stack.pop().unwrap();
        proof {
            assert(old_stack == stack@.push(v));
            assert forall|u: int, w: int| 0 <= u < n && u != v && vis@[u] && !stack@.contains(u as usize) && #[trigger] e(u, w) implies 0 <= w < n && vis@[w] by {
                if old_stack.contains(u as usize) {
                    let j = choose|j: int| 0 <= j < old_stack.len() && old_stack[j] == u as usize;
                    if j < stack@.len() {
                        assert(stack@[j] == u as usize);
                    }
                }
            }
        }
        let ghost count0 = count;
        let ghost len0 = stack@.len();
        let mut k: usize = 0;
        while k < links[v].len()
            invariant
                n == links@.len(),
                e == adj(links@),
                links_in_range(links@),
                forall|i: int| 0 <= i < roots@.len() ==> #[trigger] roots@[i] < links@.len(),
                v < n,
                vis@[v as int],
                k <= links@[v as int]@.len(),
                vis@.len() == n,
                count == count_true(vis@),
                count <= n,
                count >= count0,
                count == count0 ==> stack@.len() == len0,
                forall|j: int| 0 <= j < k ==> vis@[#[trigger] links@[v as int]@[j] as int],
                forall|x: int| 0 <= x < n && vis@[x] ==> reachable_from(e, roots@, x),
                forall|j: int| 0 <= j < stack@.len() ==> #[trigger] stack@[j] < n && vis@[stack@[j] as int],
                forall|j: int| 0 <= j < roots@.len() ==> vis@[#[trigger] roots@[j] as int],
                forall|u: int, w: int| 0 <= u < n && u != v && vis@[u] && !stack@.contains(u as usize) && #[trigger] e(u, w) ==> 0 <= w < n && vis@[w],
            decreases links@[v as int]@.len() - k,
        {
            let w = links[v][k];
            assert(w < n);
            if !vis[w] {
                proof {
                    lemma_count_true(vis@, w as int);
                    assert(links@[v as int]@[k as int] == w);
                    assert(links@[v as int]@.contains(w));
                    assert(e(v as int, w as int));
                    let i0 = choose|i0: int| 0 <= i0 < roots@.len() && #[trigger] reaches(e, roots@[i0] as int, v as int);
                    assert(reach(e, v as int, v as int, 0));
                    lemma_reach_step(e, v as int, v as int, w as int, 0);
                    lemma_reaches_trans(e, roots@[i0] as int, v as int, w as int);
                }
                let ghost old_vis = vis@;
                let ghost old_stack = stack@;
                vis.set(w, true);
                count = count + 1;
                stack.push(w);
                proof {
                    assert(stack@[stack@.len() - 1] == w);
                    assert(stack@.drop_last() == old_stack);
                    assert forall|u: int, w2: int| 0 <= u < n && u != v && vis@[u] && !stack@.contains(u as usize) && #[trigger] e(u, w2) implies 0 <= w2 < n && vis@[w2] by {
                        if u != w {
                            assert(old_vis[u]);
                            if !old_stack.contains(u as usize) {
                                assert(0 <= w2 < n && old_vis[w2]);
                            }
                            if old_stack.contains(u as usize) {
                                let j = choose|j: int| 0 <= j < old_stack.len() && old_stack[j] == u as usize;
                                assert(stack@[j] == u as usize);
                            }
                        } else {
                            assert(stack@.contains(w));
                        }
                    }
                }
            }
            k = k + 1;
        }
        proof {
            assert forall|u: int, w: int| 0 <= u < n && vis@[u] && !stack@.contains(u as usize) && #[trigger] e(u, w) implies 0 <= w < n && vis@[w] by {
                if u == v as int {
                    assert(0 <= w);
                    assert(links@[v as int]@.contains(w as usize));
                    let j = choose|j: int| 0 <= j < links@[v as int]@.len() && links@[v as int]@[j] == w as usize;
                    assert(vis@[links@[v as int]@[j] as int]);
                }
            }
        }
    }
    proof {
        assert forall|v: int| 0 <= v < n && reachable_from(e, roots@, v) implies vis@[v] by {
            let i0 = choose|i0: int| 0 <= i0 < roots@.len() && #[trigger] reaches(e, roots@[i0] as int, v);
            let m = choose|m: nat| #[trigger] reach(e, roots@[i0] as int, v, m);
            assert(vis@[roots@[i0] as int]);
            lemma_closed_reach(links@, vis@, roots@[i0] as int, v, m);
        }
    }
    vis
}

pub proof fn lemma_none_true(s: Seq<bool>)
    requires
        forall|v: int| 0 <= v < s.len() ==> !s[v],
    ensures
        count_true(s) == 0,
    decreases s.len(),
{
    if s.len() > 0 {
        lemma_none_true(s.drop_last());
    }
}


/// For each node, the positions of the nodes that it takes an input from.
pub fn upstream_links(net: &NodeNetwork) -> (r: Vec<Vec<usize>>)
    requires
        net.wf(),
    ensures
        r@.len() == net.nodes@.len(),
        links_in_range(r@),
        adj(r@) == upstream(net.nodes@),
{
    let n = net.nodes.len();
    let ghost nodes = net.nodes@;
    let mut links: Vec<Vec<usize>> = Vec::new();
    let mut a: usize = 0;
    while a < n
        invariant
            n == nodes.len(),
            nodes == net.nodes@,
            ids_unique(nodes),
            a <= n,
            links@.len() == a,
            forall|x: int, k: int|
                0 <= x < a && 0 <= k < links@[x]@.len() ==> #[trigger] links@[x]@[k] < n,
            forall|x: int, b: int|
                0 <= x < a && 0 <= b < n ==> (#[trigger] links@[x]@.contains(b as usize)
                    <==> up_edge(nodes, x, b)),
        decreases n - a,
    {
        let mut row: Vec<usize> = Vec::new();
        let mut j: usize = 0;
        let ghost inputs = nodes[a as int].1.inputs@;
        while j < net.nodes[a].1.inputs.len()
            invariant
                n == nodes.len(),
                nodes == net.nodes@,
                ids_unique(nodes),
                a < n,
                inputs == nodes[a as int].1.inputs@,
                j <= inputs.len(),
                forall|k: int| 0 <= k < row@.len() ==> #[trigger] row@[k] < n,
                forall|b: int|
                    0 <= b < n ==> (#[trigger] row@.contains(b as usize) <==> exists|jj: int|
                        0 <= jj < j && #[trigger] is_connection_from(inputs[jj], nodes[b].0)),
            decreases inputs.len() - j,
        {
            if let NodeInput::Node { node_id, .. } = net.nodes[a].1.inputs[j] {
                if let Some(b0) = net.find(node_id) {
                    let ghost old_row = row@;
                    row.push(b0);
                    proof {
                        assert forall|b: int| 0 <= b < n implies (#[trigger] row@.contains(b as usize) <==> exists|jj: int|
                            0 <= jj < j + 1 && #[trigger] is_connection_from(inputs[jj], nodes[b].0)) by {
                            if row@.contains(b as usize) {
                                let k = choose|k: int| 0 <= k < row@.len() && row@[k] == b as usize;
                                if k < old_row.len() {
                                    assert(old_row[k] == b as usize);
                                    assert(old_row.contains(b as usize));
                                } else {
                                    assert(is_connection_from(inputs[j as int], nodes[b].0));
                                }
                            }
                            if exists|jj: int| 0 <= jj < j + 1 && #[trigger] is_connection_from(inputs[jj], nodes[b].0) {
                                let jj = choose|jj: int| 0 <= jj < j + 1 && #[trigger] is_connection_from(inputs[jj], nodes[b].0);
                                if jj < j {
                                    assert(old_row.contains(b as usize));
                                    let k = choose|k: int| 0 <= k < old_row.len() && old_row[k] == b as usize;
                                    assert(row@[k] == b as usize);
                                } else {
                                    assert(nodes[b].0 == node_id);
                                    assert(b == b0);
                                    assert(row@[old_row.len() as int] == b0);
                                }
                            }
                        }
                    }
                } else {
                    proof {
                        assert forall|b: int| 0 <= b < n implies (#[trigger] row@.contains(b as usize) <==> exists|jj: int|
                            0 <= jj < j + 1 && #[trigger] is_connection_from(inputs[jj], nodes[b].0)) by {
                            if exists|jj: int| 0 <= jj < j + 1 && #[trigger] is_connection_from(inputs[jj], nodes[b].0) {
                                let jj = choose|jj: int| 0 <= jj < j + 1 && #[trigger] is_connection_from(inputs[jj], nodes[b].0);
                                if jj == j {
                                    assert(nodes[b].0 == node_id);
                                    assert(has_id(nodes, node_id));
                                }
                            }
                        }
                    }
                }
            } else {
                proof {
                    assert forall|b: int| 0 <= b < n implies (#[trigger] row@.contains(b as usize) <==> exists|jj: int|
                        0 <= jj < j + 1 && #[trigger] is_connection_from(inputs[jj], nodes[b].0)) by {
                        if exists|jj: int| 0 <= jj < j + 1 && #[trigger] is_connection_from(inputs[jj], nodes[b].0) {
                            let jj = choose|jj: int| 0 <= jj < j + 1 && #[trigger] is_connection_from(inputs[jj], nodes[b].0);
                            assert(jj != j);
                        }
                    }
                }
            }
            j = j + 1;
        }
        let ghost old_links = links@;
        links.push(row);
        proof {
            assert forall|x: int, b: int|
                0 <= x < a + 1 && 0 <= b < n implies (#[trigger] links@[x]@.contains(b as usize)
                    <==> up_edge(nodes, x, b)) by {
                if x < a {
                    assert(links@[x] == old_links[x]);
                } else {
                    if up_edge(nodes, x, b) {
                        let jj = choose|jj: int| 0 <= jj < nodes[x].1.inputs@.len() && #[trigger] is_connection_from(nodes[x].1.inputs@[jj], nodes[b].0);
                        assert(is_connection_from(inputs[jj], nodes[b].0));
                    }
                }
            }
        }
        a = a + 1;
    }
    proof {
        assert forall|x: int, y: int| #[trigger] adj(links@)(x, y) == upstream(nodes)(x, y) by {
            if 0 <= x < n && 0 <= y < n {
                assert(links@[x]@.contains(y as usize) <==> up_edge(nodes, x, y));
            }
        }
        assert(adj(links@) =~= upstream(nodes));
    }
    links
}

/// The reverse of an adjacency list: for each position, the positions that list it.
pub fn reverse_links(links: &Vec<Vec<usize>>) -> (r: Vec<Vec<usize>>)
    requires
        links_in_range(links@),
    ensures
        r@.len() == links@.len(),
        links_in_range(r@),
        forall|a: int, b: int| #[trigger] adj(r@)(a, b) == adj(links@)(b, a),
{
    let n = links.len();
    let mut rev: Vec<Vec<usize>> = Vec::new();
    let mut i: usize = 0;
    while i < n
        invariant
            n == links@.len(),
            i <= n,
            rev@.len() == i,
            forall|x: int| 0 <= x < i ==> #[trigger] rev@[x]@.len() == 0,
        decreases n - i,
    {
        rev.push(Vec::new());
        i = i + 1;
    }
    let mut a: usize = 0;
    while a < n
        invariant
            n == links@.len(),
            links_in_range(links@),
            a <= n,
            rev@.len() == n,
            forall|x: int, k: int| 0 <= x < n && 0 <= k < rev@[x]@.len() ==> #[trigger] rev@[x]@[k] < a,
            forall|x: int, y: int|
                0 <= x < n && 0 <= y < a ==> (#[trigger] rev@[x]@.contains(y as usize) <==> links@[y]@.contains(x as usize)),
        decreases n - a,
    {
        let mut k: usize = 0;
        while k < links[a].len()
            invariant
                n == links@.len(),
                links_in_range(links@),
                a < n,
                k <= links@[a as int]@.len(),
                rev@.len() == n,
                forall|x: int, kk: int| 0 <= x < n && 0 <= kk < rev@[x]@.len() ==> #[trigger] rev@[x]@[kk] <= a,
                forall|x: int, y: int|
                    0 <= x < n && 0 <= y < a ==> (#[trigger] rev@[x]@.contains(y as usize) <==> links@[y]@.contains(x as usize)),
                forall|x: int|
                    0 <= x < n ==> (#[trigger] rev@[x]@.contains(a) <==> links@[a as int]@.subrange(0, k as int).contains(x as usize)),
            decreases links@[a as int]@.len() - k,
        {
            let b = links[a][k];
            let ghost old_rev = rev@;
            rev[b].push(a);
            proof {
                assert forall|x: int, kk: int| 0 <= x < n && 0 <= kk < rev@[x]@.len() implies #[trigger] rev@[x]@[kk] <= a by {
                    if x != b as int {
                        assert(rev@[x] == old_rev[x]);
                    } else if kk < old_rev[x]@.len() {
                        assert(rev@[x]@[kk] == old_rev[x]@[kk]);
                    }
                }
                assert forall|x: int, y: int|
                    0 <= x < n && 0 <= y < a implies (#[trigger] rev@[x]@.contains(y as usize) <==> links@[y]@.contains(x as usize)) by {
                    if x != b as int {
                        assert(rev@[x] == old_rev[x]);
                    } else {
                        assert(rev@[x]@ == old_rev[x]@.push(a));
                        if rev@[x]@.contains(y as usize) {
                            let kk = choose|kk: int| 0 <= kk < rev@[x]@.len() && rev@[x]@[kk] == y as usize;
                            if kk < old_rev[x]@.len() {
                                assert(old_rev[x]@[kk] == y as usize);
                                assert(old_rev[x]@.contains(y as usize));
                            }
                        }
                        if old_rev[x]@.contains(y as usize) {
                            let kk = choose|kk: int| 0 <= kk < old_rev[x]@.len() && old_rev[x]@[kk] == y as usize;
                            assert(rev@[x]@[kk] == y as usize);
                        }
                    }
                }
                let s1 = links@[a as int]@.subrange(0, k as int + 1);
                let s0 = links@[a as int]@.subrange(0, k as int);
                assert(s1 == s0.push(b));
                assert forall|x: int|
                    0 <= x < n implies (#[trigger] rev@[x]@.contains(a) <==> s1.contains(x as usize)) by {
                    if x != b as int {
                        assert(rev@[x] == old_rev[x]);
                        if s1.contains(x as usize) {
                            let kk = choose|kk: int| 0 <= kk < s1.len() && s1[kk] == x as usize;
                            assert(s0[kk] == x as usize);
                        }
                        if s0.contains(x as usize) {
                            let kk = choose|kk: int| 0 <= kk < s0.len() && s0[kk] == x as usize;
                            assert(s1[kk] == x as usize);
                        }
                    } else {
                        assert(rev@[x]@ == old_rev[x]@.push(a));
                        assert(rev@[x]@[old_rev[x]@.len() as int] == a);
                        assert(s1[k as int] == b);
                    }
                }
            }
            k = k + 1;
        }
        proof {
            assert(links@[a as int]@.subrange(0, k as int) == links@[a as int]@);
            assert forall|x: int, kk: int| 0 <= x < n && 0 <= kk < rev@[x]@.len() implies #[trigger] rev@[x]@[kk] < a + 1 by {
            }
        }
        a = a + 1;
    }
    proof {
        assert forall|x: int, y: int| #[trigger] adj(rev@)(x, y) == adj(links@)(y, x) by {
            if 0 <= x < n && 0 <= y < n {
                assert(rev@[x]@.contains(y as usize) <==> links@[y]@.contains(x as usize));
            }
        }
    }
    rev
}

/// Node `v` feeds, directly or not, into the node of a current export.
pub open spec fn connected_to_output(nodes: Seq<(NodeId, DocumentNode)>, exports: Seq<NodeOutput>, v: int) -> bool {
    exists|p: int|
        0 <= p < nodes.len() && exports_contain(exports, #[trigger] nodes[p].0) && reaches(upstream(nodes), p, v)
}

impl NodeNetwork {
    /// Marks the nodes that `roots` take their inputs from, directly or not (the roots
    /// included).
    pub fn upstream_closure(&self, roots: &Vec<usize>) -> (r: Vec<bool>)
        requires
            self.wf(),
            forall|i: int| 0 <= i < roots@.len() ==> #[trigger] roots@[i] < self.nodes@.len(),
        ensures
            r@.len() == self.nodes@.len(),
            forall|v: int| 0 <= v < self.nodes@.len() ==> (r@[v] <==> reachable_from(upstream(self.nodes@), roots@, v)),
    {
        let links = upstream_links(self);
        closure(&links, roots)
    }

    /// Marks the nodes that `roots` feed into, directly or not (the roots included).
    pub fn downstream_closure(&self, roots: &Vec<usize>) -> (r: Vec<bool>)
        requires
            self.wf(),
            forall|i: int| 0 <= i < roots@.len() ==> #[trigger] roots@[i] < self.nodes@.len(),
        ensures
            r@.len() == self.nodes@.len(),
            forall|v: int| 0 <= v < self.nodes@.len() ==> (r@[v] <==> reachable_from(downstream(self.nodes@), roots@, v)),
    {
        let up = upstream_links(self);
        let down = reverse_links(&up);
        proof {
            assert(adj(down@) =~= downstream(self.nodes@));
        }
        closure(&down, roots)
    }

    /// Positions of the nodes of the current exports.
    pub fn export_positions(&self) -> (r: Vec<usize>)
        ensures
            forall|i: int| 0 <= i < r@.len() ==> #[trigger] r@[i] < self.nodes@.len() && exports_contain(self.exports@, self.nodes@[r@[i] as int].0),
            forall|p: int| 0 <= p < self.nodes@.len() && exports_contain(self.exports@, #[trigger] self.nodes@[p].0) ==> exists|k: int| 0 <= k < r@.len() && r@[k] as int == p,
    {
        let mut r: Vec<usize> = Vec::new();
        let mut p: usize = 0;
        while p < self.nodes.len()
            invariant
                p <= self.nodes@.len(),
                forall|i: int| 0 <= i < r@.len() ==> #[trigger] r@[i] < self.nodes@.len() && exports_contain(self.exports@, self.nodes@[r@[i] as int].0),
                forall|q: int| 0 <= q < p && exports_contain(self.exports@, #[trigger] self.nodes@[q].0) ==> exists|k: int| 0 <= k < r@.len() && r@[k] as int == q,
            decreases self.nodes@.len() - p,
        {
            if self.outputs_contain(self.nodes[p].0) {
                let ghost old_r = r@;
                r.push(p);
                proof {
                    assert(r@[r@.len() - 1] == p);
                    assert forall|q: int| 0 <= q < p + 1 && exports_contain(self.exports@, #[trigger] self.nodes@[q].0) implies exists|k: int| 0 <= k < r@.len() && r@[k] as int == q by {
                        if q < p {
                            let k = choose|k: int| 0 <= k < old_r.len() && old_r[k] as int == q;
                            assert(r@[k] == old_r[k]);
                        } else {
                            assert(r@[r@.len() - 1] as int == q);
                        }
                    }
                }
            }
            p = p + 1;
        }
        r
    }

    /// Whether node `id` feeds, directly or not, into the node of a current export.
    pub fn connected_to_output(&self, id: NodeId) -> (r: bool)
        requires
            self.wf(),
        ensures
            r == (has_id(self.nodes@, id) && connected_to_output(self.nodes@, self.exports@, index_of(self.nodes@, id))),
    {
        let v = match self.find(id) {
            Some(v) => v,
            None => return false,
        };
        proof {
            lemma_index_of(self.nodes@, v as int);
        }
        let roots = self.export_positions();
        let marks = self.upstream_closure(&roots);
        proof {
            let e = upstream(self.nodes@);
            if marks@[v as int] {
                let i = choose|i: int| 0 <= i < roots@.len() && #[trigger] reaches(e, roots@[i] as int, v as int);
                assert(exports_contain(self.exports@, self.nodes@[roots@[i] as int].0));
            }
            if connected_to_output(self.nodes@, self.exports@, v as int) {
                let p = choose|p: int| 0 <= p < self.nodes@.len() && exports_contain(self.exports@, #[trigger] self.nodes@[p].0) && reaches(e, p, v as int);
                let i = choose|i: int| 0 <= i < roots@.len() && roots@[i] as int == p;
                assert(reaches(e, roots@[i] as int, v as int));
            }
        }
        marks[v]
    }
}

/// A path of `e2`, whose only edge beyond those of `e1` is `i -> s`, is a path of `e1` or
/// ends with a path of `e1` from `s`.
pub proof fn lemma_path_after_new_edge(e1: spec_fn(int, int) -> bool, e2: spec_fn(int, int) -> bool, i: int, s: int, a: int, b: int, n: nat)
    requires
        forall|x: int, y: int| #[trigger] e2(x, y) ==> e1(x, y) || (x == i && y == s),
        reach(e2, a, b, n),
    ensures
        reaches(e1, a, b) || reaches(e1, s, b),
    decreases n,
{
    if n == 0 {
        assert(reach(e1, a, b, 0));
    } else {
        let m = choose|m: int| reach(e2, a, m, (n - 1) as nat) && #[trigger] e2(m, b);
        lemma_path_after_new_edge(e1, e2, i, s, a, m, (n - 1) as nat);
        if e1(m, b) {
            if reaches(e1, a, m) {
                let k = choose|k: nat| #[trigger] reach(e1, a, m, k);
                lemma_reach_step(e1, a, m, b, k);
            } else {
                let k = choose|k: nat| #[trigger] reach(e1, s, m, k);
                lemma_reach_step(e1, s, m, b, k);
            }
        } else {
            assert(reach(e1, s, s, 0));
        }
    }
}

/// A path of `e2`, whose only edge beyond those of `e1` is `i -> s`, is a path of `e1` or
/// starts with a path of `e1` to `i`.
pub proof fn lemma_path_before_new_edge(e1: spec_fn(int, int) -> bool, e2: spec_fn(int, int) -> bool, i: int, s: int, a: int, b: int, n: nat)
    requires
        forall|x: int, y: int| #[trigger] e2(x, y) ==> e1(x, y) || (x == i && y == s),
        reach(e2, a, b, n),
    ensures
        reaches(e1, a, b) || reaches(e1, a, i),
    decreases n,
{
    if n == 0 {
        assert(reach(e1, a, b, 0));
    } else {
        let m = choose|m: int| reach(e2, a, m, (n - 1) as nat) && #[trigger] e2(m, b);
        lemma_path_before_new_edge(e1, e2, i, s, a, m, (n - 1) as nat);
        if e1(m, b) {
            if reaches(e1, a, m) {
                let k = choose|k: nat| #[trigger] reach(e1, a, m, k);
                lemma_reach_step(e1, a, m, b, k);
            }
        }
    }
}

/// Adding the edge `i -> s` to an acyclic relation keeps it acyclic where `s` does not
/// lead back to `i`.
pub proof fn lemma_new_edge_acyclic(e1: spec_fn(int, int) -> bool, e2: spec_fn(int, int) -> bool, i: int, s: int)
    requires
        acyclic(e1),
        forall|x: int, y: int| #[trigger] e2(x, y) ==> e1(x, y) || (x == i && y == s),
        !reaches(e1, s, i),
    ensures
        acyclic(e2),
{
    assert forall|x: int, y: int| #[trigger] e2(x, y) implies !reaches(e2, y, x) by {
        if reaches(e2, y, x) {
            let n = choose|n: nat| #[trigger] reach(e2, y, x, n);
            lemma_path_after_new_edge(e1, e2, i, s, y, x, n);
            lemma_path_before_new_edge(e1, e2, i, s, y, x, n);
            if e1(x, y) {
                assert(!reaches(e1, y, x));
                let k1 = choose|k: nat| #[trigger] reach(e1, s, x, k);
                lemma_reach_step(e1, s, x, y, k1);
                lemma_reaches_trans(e1, s, y, i);
            }
        }
    }
}

/// A path of `e2` from a node other than `f`, where `e2` has no edge into `f` and its edges
/// other than those out of `f` are edges of `e1`, is a path of `e1`.
pub proof fn lemma_path_avoids_fresh(e1: spec_fn(int, int) -> bool, e2: spec_fn(int, int) -> bool, f: int, a: int, b: int, n: nat)
    requires
        forall|x: int, y: int| #[trigger] e2(x, y) ==> y != f && (e1(x, y) || x == f),
        a != f,
        reach(e2, a, b, n),
    ensures
        b != f,
        reaches(e1, a, b),
    decreases n,
{
    if n == 0 {
        assert(reach(e1, a, b, 0));
    } else {
        let m = choose|m: int| reach(e2, a, m, (n - 1) as nat) && #[trigger] e2(m, b);
        lemma_path_avoids_fresh(e1, e2, f, a, m, (n - 1) as nat);
        let k = choose|k: nat| #[trigger] reach(e1, a, m, k);
        lemma_reach_step(e1, a, m, b, k);
    }
}

/// Adding a node `f` with edges out of it only keeps a relation acyclic.
pub proof fn lemma_fresh_node_acyclic(e1: spec_fn(int, int) -> bool, e2: spec_fn(int, int) -> bool, f: int)
    requires
        acyclic(e1),
        forall|x: int, y: int| #[trigger] e2(x, y) ==> y != f && (e1(x, y) || x == f),
    ensures
        acyclic(e2),
{
    assert forall|x: int, y: int| #[trigger] e2(x, y) implies !reaches(e2, y, x) by {
        if reaches(e2, y, x) {
            let n = choose|n: nat| #[trigger] reach(e2, y, x, n);
            lemma_path_avoids_fresh(e1, e2, f, y, x, n);
            assert(e1(x, y));
        }
    }
}

impl NodeNetwork {
    /// Whether no connection closes a cycle.
    pub fn is_acyclic(&self) -> (r: bool)
        requires
            self.wf(),
        ensures
            r == acyclic(upstream(self.nodes@)),
    {
        let up = upstream_links(self);
        let n = up.len();
        let ghost e = upstream(self.nodes@);
        let mut a: usize = 0;
        while a < n
            invariant
                n == up@.len(),
                n == self.nodes@.len(),
                links_in_range(up@),
                adj(up@) == e,
                e == upstream(self.nodes@),
                a <= n,
                forall|x: int, y: int| 0 <= x < a && #[trigger] e(x, y) ==> !reaches(e, y, x),
            decreases n - a,
        {
            let mut k: usize = 0;
            while k < up[a].len()
                invariant
                    n == up@.len(),
                    n == self.nodes@.len(),
                    links_in_range(up@),
                    adj(up@) == e,
                    e == upstream(self.nodes@),
                    a < n,
                    k <= up@[a as int]@.len(),
                    forall|x: int, y: int| 0 <= x < a && #[trigger] e(x, y) ==> !reaches(e, y, x),
                    forall|q: int| 0 <= q < k ==> !reaches(e, #[trigger] up@[a as int]@[q] as int, a as int),
                decreases up@[a as int]@.len() - k,
            {
                let b = up[a][k];
                let mut roots: Vec<usize> = Vec::new();
                roots.push(b);
                let marks = closure(&up, &roots);
                proof {
                    assert(roots@[0] == b);
                    if reaches(e, b as int, a as int) {
                        assert(reachable_from(e, roots@, a as int));
                    }
                }
                if marks[a] {
                    proof {
                        let q = choose|q: int| 0 <= q < roots@.len() && #[trigger] reaches(e, roots@[q] as int, a as int);
                        assert(q == 0);
                        assert(up@[a as int]@[k as int] == b);
                        assert(up@[a as int]@.contains(b));
                        assert(e(a as int, b as int));
                    }
                    return false;
                }
                k = k + 1;
            }
            proof {
                assert forall|x: int, y: int| 0 <= x < a + 1 && #[trigger] e(x, y) implies !reaches(e, y, x) by {
                    if x == a as int {
                        assert(adj(up@)(x, y));
                        let q = choose|q: int| 0 <= q < up@[a as int]@.len() && up@[a as int]@[q] == y as usize;
                        assert(up@[a as int]@[q] as int == y);
                    }
                }
            }
            a = a + 1;
        }
        proof {
            assert forall|x: int, y: int| #[trigger] e(x, y) implies !reaches(e, y, x) by {
                assert(0 <= x < n);
            }
        }
        true
    }
}

/// Node `a` takes its primary input from node `b`.
pub open spec fn primary_edge(nodes: Seq<(NodeId, DocumentNode)>, a: int, b: int) -> bool {
    &&& 0 <= a < nodes.len()
    &&& 0 <= b < nodes.len()
    &&& nodes[a].1.inputs@.len() > 0
    &&& is_connection_from(nodes[a].1.inputs@[0], nodes[b].0)
}

/// The edges along primary inputs, as a relation on positions.
pub open spec fn primary_upstream(nodes: Seq<(NodeId, DocumentNode)>) -> spec_fn(int, int) -> bool {
    |a: int, b: int| primary_edge(nodes, a, b)
}

impl NodeNetwork {
    /// For each node, the position of the node that feeds its primary input, if any.
    pub fn primary_links(&self) -> (r: Vec<Vec<usize>>)
        requires
            self.wf(),
        ensures
            r@.len() == self.nodes@.len(),
            links_in_range(r@),
            adj(r@) == primary_upstream(self.nodes@),
    {
        let n = self.nodes.len();
        let mut links: Vec<Vec<usize>> = Vec::new();
        let mut a: usize = 0;
        while a < n
            invariant
                n == self.nodes@.len(),
                self.wf(),
                a <= n,
                links@.len() == a,
                forall|x: int, k: int| 0 <= x < a && 0 <= k < links@[x]@.len() ==> #[trigger] links@[x]@[k] < n,
                forall|x: int, b: int| 0 <= x < a && 0 <= b < n ==> (#[trigger] links@[x]@.contains(b as usize) <==> primary_edge(self.nodes@, x, b)),
            decreases n - a,
        {
            let mut row: Vec<usize> = Vec::new();
            if self.nodes[a].1.inputs.len() > 0 {
                if let NodeInput::Node { node_id, .. } = self.nodes[a].1.inputs[0] {
                    if let Some(b) = self.find(node_id) {
                        row.push(b);
                        proof {
                            assert(row@[0] == b);
                            assert forall|b2: int| 0 <= b2 < n implies (#[trigger] row@.contains(b2 as usize) <==> primary_edge(self.nodes@, a as int, b2)) by {
                                if primary_edge(self.nodes@, a as int, b2) {
                                    assert(self.nodes@[b2].0 == node_id);
                                    if b2 != b as int {
                                        assert(self.nodes@[b2].0 != self.nodes@[b as int].0);
                                    }
                                }
                            }
                        }
                    } else {
                        proof {
                            assert forall|b2: int| 0 <= b2 < n implies !primary_edge(self.nodes@, a as int, b2) by {
                                if primary_edge(self.nodes@, a as int, b2) {
                                    assert(self.nodes@[b2].0 == node_id);
                                    assert(has_id(self.nodes@, node_id));
                                }
                            }
                        }
                    }
                }
            }
            let ghost old_links = links@;
            links.push(row);
            proof {
                assert forall|x: int, b: int| 0 <= x < a + 1 && 0 <= b < n implies (#[trigger] links@[x]@.contains(b as usize) <==> primary_edge(self.nodes@, x, b)) by {
                    if x < a {
                        assert(links@[x] == old_links[x]);
                    }
                }
            }
            a = a + 1;
        }
        proof {
            assert forall|x: int, y: int| #[trigger] adj(links@)(x, y) == primary_upstream(self.nodes@)(x, y) by {
                if 0 <= x < n && 0 <= y < n {
                    assert(links@[x]@.contains(y as usize) <==> primary_edge(self.nodes@, x, y));
                }
            }
            assert(adj(links@) =~= primary_upstream(self.nodes@));
        }
        links
    }

    /// Marks the nodes that `roots` take their inputs from, directly or not (the roots
    /// included); with `primary_only`, along primary inputs alone.
    pub fn upstream_flow(&self, roots: &Vec<usize>, primary_only: bool) -> (r: Vec<bool>)
        requires
            self.wf(),
            forall|i: int| 0 <= i < roots@.len() ==> #[trigger] roots@[i] < self.nodes@.len(),
        ensures
            r@.len() == self.nodes@.len(),
            forall|v: int| 0 <= v < self.nodes@.len() ==> (r@[v] <==> reachable_from(
                if primary_only { primary_upstream(self.nodes@) } else { upstream(self.nodes@) },
                roots@,
                v,
            )),
    {
        if primary_only {
            let links = self.primary_links();
            closure(&links, roots)
        } else {
            self.upstream_closure(roots)
        }
    }
}
} // verus!
