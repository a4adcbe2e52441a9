use vstd::prelude::*;
use crate::model::value::{NodeSpec, Pool, Value, scalar_node_wf};

verus! {

/// The number of inputs of the nodes `s`, together.
pub open spec fn slots_total(v: Seq<NodeSpec>, s: Seq<usize>) -> nat
    decreases s.len(),
{
    if s.len() == 0 { 0 } else { slots_total(v, s.drop_last()) + v[s.last() as int].parents.len() }
}

/// The first `upto` inputs of node `x` are among `nodes`, each with its edge to `x` among `edges`.
pub open spec fn followed(v: Seq<NodeSpec>, nodes: Seq<usize>, edges: Seq<(usize, usize)>, x: usize, upto: int) -> bool {
    forall|s: int| 0 <= s < upto ==> nodes.contains(#[trigger] v[x as int].parents[s])
        && edges.contains((v[x as int].parents[s], x))
}

/// Some node listed before position `k` has `nodes[k]` as an input.
pub open spec fn used_earlier(v: Seq<NodeSpec>, nodes: Seq<usize>, k: int) -> bool {
    exists|j: int| 0 <= j < k && v[nodes[j] as int].parents.contains(nodes[k])
}

/// Each node after the first is an input of a node listed before it.
pub open spec fn reached_in_order(v: Seq<NodeSpec>, nodes: Seq<usize>) -> bool {
    forall|k: int| 0 < k < nodes.len() ==> #[trigger] used_earlier(v, nodes, k)
}

proof fn lemma_push_keeps<A>(s: Seq<A>, a: A)
    ensures
        forall|y: A| s.contains(y) ==> #[trigger] s.push(a).contains(y),
        s.push(a).contains(a),
{
    assert forall|y: A| s.contains(y) implies #[trigger] s.push(a).contains(y) by {
        let k = choose|k: int| 0 <= k < s.len() && s[k] == y;
        assert(s.push(a)[k] == y);
    }
    assert(s.push(a)[s.len() as int] == a);
}

proof fn lemma_followed_grow(
    v: Seq<NodeSpec>,
    nodes: Seq<usize>,
    edges: Seq<(usize, usize)>,
    nodes2: Seq<usize>,
    edges2: Seq<(usize, usize)>,
    x: usize,
    upto: int,
)
    requires
        followed(v, nodes, edges, x, upto),
        forall|y: usize| nodes.contains(y) ==> #[trigger] nodes2.contains(y),
        forall|y: (usize, usize)| edges.contains(y) ==> #[trigger] edges2.contains(y),
    ensures
        followed(v, nodes2, edges2, x, upto),
{
    assert forall|s: int| 0 <= s < upto implies nodes2.contains(#[trigger] v[x as int].parents[s])
        && edges2.contains((v[x as int].parents[s], x)) by {
        assert(nodes.contains(v[x as int].parents[s]));
        assert(edges.contains((v[x as int].parents[s], x)));
    }
}



/// Depth-first from `x`: nothing if `x` is already `seen`; otherwise `x` is
/// listed and its inputs are followed in order.
pub open spec fn walk(v: Seq<NodeSpec>, x: usize, seen: Seq<usize>, edges: Seq<(usize, usize)>)
    -> (Seq<usize>, Seq<(usize, usize)>)
    decreases x, 1int, 0int,
{
    if seen.contains(x) {
        (seen, edges)
    } else {
        follow(v, x, 0, seen.push(x), edges)
    }
}

/// Follows the inputs of `x` from input `i` on: for each, the edge from the
/// input to `x`, then the walk from the input.
pub open spec fn follow(v: Seq<NodeSpec>, x: usize, i: int, seen: Seq<usize>, edges: Seq<(usize, usize)>)
    -> (Seq<usize>, Seq<(usize, usize)>)
    decreases x, 0int, v[x as int].parents.len() - i,
{
    if 0 <= i < v[x as int].parents.len() {
        let p = v[x as int].parents[i];
        let e2 = edges.push((p, x));
        if p < x {
            let r = walk(v, p, seen, e2);
            follow(v, x, i + 1, r.0, r.1)
        } else {
            follow(v, x, i + 1, seen, e2)
        }
    } else {
        (seen, edges)
    }
}

/// `nodes` are distinct nodes below `n`, exactly those `vis` marks.
pub open spec fn marks_listed(n: nat, vis: Seq<bool>, nodes: Seq<usize>) -> bool {
    &&& vis.len() == n
    &&& forall|y: usize| y < n ==> (vis[y as int] <==> #[trigger] nodes.contains(y))
    &&& forall|k: int| 0 <= k < nodes.len() ==> (#[trigger] nodes[k]) < n
    &&& nodes.no_duplicates()
}

/// Every edge runs from an input of a listed node to that node.
pub open spec fn edges_valid(v: Seq<NodeSpec>, nodes: Seq<usize>, edges: Seq<(usize, usize)>) -> bool {
    forall|e: int| 0 <= e < edges.len() ==> nodes.contains((#[trigger] edges[e]).1)
        && v[edges[e].1 as int].parents.contains(edges[e].0)
}

/// Every node listed after the first `from` has followed all its inputs.
pub open spec fn fresh_done(v: Seq<NodeSpec>, nodes: Seq<usize>, edges: Seq<(usize, usize)>, from: int) -> bool {
    forall|k: int| from <= k < nodes.len()
        ==> followed(v, nodes, edges, #[trigger] nodes[k], v[nodes[k] as int].parents.len() as int)
}

proof fn lemma_fresh_done_grow(
    v: Seq<NodeSpec>,
    nodes: Seq<usize>,
    edges: Seq<(usize, usize)>,
    nodes2: Seq<usize>,
    edges2: Seq<(usize, usize)>,
    from: int,
)
    requires
        fresh_done(v, nodes, edges, from),
        0 <= from,
        nodes.is_prefix_of(nodes2),
        edges.is_prefix_of(edges2),
    ensures
        forall|k: int| from <= k < nodes.len()
            ==> followed(v, nodes2, edges2, #[trigger] nodes[k], v[nodes[k] as int].parents.len() as int),
{
    lemma_prefix_contains(nodes, nodes2);
    lemma_prefix_contains(edges, edges2);
    assert forall|k: int| from <= k < nodes.len()
        implies followed(v, nodes2, edges2, #[trigger] nodes[k], v[nodes[k] as int].parents.len() as int) by {
        lemma_followed_grow(v, nodes, edges, nodes2, edges2, nodes[k], v[nodes[k] as int].parents.len() as int);
    }
}

proof fn lemma_prefix_contains<A>(s: Seq<A>, t: Seq<A>)
    requires
        s.is_prefix_of(t),
    ensures
        forall|y: A| s.contains(y) ==> #[trigger] t.contains(y),
{
    assert forall|y: A| s.contains(y) implies #[trigger] t.contains(y) by {
        let k = choose|k: int| 0 <= k < s.len() && s[k] == y;
        assert(t[k] == y);
    }
}

proof fn lemma_slots_push(v: Seq<NodeSpec>, s: Seq<usize>, x: usize)
    ensures
        slots_total(v, s.push(x)) == slots_total(v, s) + v[x as int].parents.len(),
{
    assert(s.push(x).drop_last() =~= s);
}

proof fn lemma_marks_add(n: nat, vis: Seq<bool>, nodes: Seq<usize>, x: usize)
    requires
        marks_listed(n, vis, nodes),
        x < n,
        !vis[x as int],
    ensures
        marks_listed(n, vis.update(x as int, true), nodes.push(x)),
        !nodes.contains(x),
{
    let n2 = nodes.push(x);
    let vis2 = vis.update(x as int, true);
    lemma_push_keeps(nodes, x);
    assert(n2[nodes.len() as int] == x);
    assert forall|y: usize| y < n implies (vis2[y as int] <==> #[trigger] n2.contains(y)) by {
        if y != x {
            assert(vis[y as int] <==> nodes.contains(y));
            if n2.contains(y) {
                let k = choose|k: int| 0 <= k < n2.len() && n2[k] == y;
                assert(nodes[k] == y);
            }
        }
    }
    assert forall|k: int| 0 <= k < n2.len() implies (#[trigger] n2[k]) < n by {
        if k < nodes.len() { assert(n2[k] == nodes[k]); }
    }
    assert forall|a: int, b: int| 0 <= a < n2.len() && 0 <= b < n2.len() && a != b
        implies n2[a] != n2[b] by {
        if a < nodes.len() && b < nodes.len() {
            assert(n2[a] == nodes[a] && n2[b] == nodes[b]);
        } else if a < nodes.len() {
            assert(nodes.contains(nodes[a]));
        } else {
            assert(nodes.contains(nodes[b]));
        }
    }
}

proof fn lemma_reached_push(v: Seq<NodeSpec>, nodes: Seq<usize>, x: usize)
    requires
        reached_in_order(v, nodes),
        nodes.len() == 0 || exists|j: int| 0 <= j < nodes.len() && v[nodes[j] as int].parents.contains(x),
    ensures
        reached_in_order(v, nodes.push(x)),
{
    let n2 = nodes.push(x);
    assert forall|k: int| 0 < k < n2.len() implies #[trigger] used_earlier(v, n2, k) by {
        if k < nodes.len() {
            assert(used_earlier(v, nodes, k));
            let j = choose|j: int| 0 <= j < k && v[nodes[j] as int].parents.contains(nodes[k]);
            assert(n2[j] == nodes[j]);
            assert(n2[k] == nodes[k]);
        } else {
            let j = choose|j: int| 0 <= j < nodes.len() && v[nodes[j] as int].parents.contains(x);
            assert(n2[j] == nodes[j]);
            assert(n2[k] == x);
        }
    }
}

/// Walks depth first from `x`, as `walk` says, marking and listing each node
/// it reaches for the first time and adding an edge per input it follows.
fn build(
    pool: &Pool,
    x: usize,
    visited: &mut Vec<bool>,
    nodes: &mut Vec<usize>,
    edges: &mut Vec<(usize, usize)>,
)
    requires
        pool.wf(),
        x < pool.nodes@.len(),
        marks_listed(pool.nodes@.len() as nat, old(visited)@, old(nodes)@),
        reached_in_order(pool.views(), old(nodes)@),
        old(nodes)@.len() == 0 || exists|j: int| 0 <= j < old(nodes)@.len()
            && pool.views()[old(nodes)@[j] as int].parents.contains(x),
        edges_valid(pool.views(), old(nodes)@, old(edges)@),
    ensures
        (final(nodes)@, final(edges)@) == walk(pool.views(), x, old(nodes)@, old(edges)@),
        marks_listed(pool.nodes@.len() as nat, final(visited)@, final(nodes)@),
        reached_in_order(pool.views(), final(nodes)@),
        edges_valid(pool.views(), final(nodes)@, final(edges)@),
        old(nodes)@.is_prefix_of(final(nodes)@),
        old(edges)@.is_prefix_of(final(edges)@),
        final(nodes)@.contains(x),
        !old(nodes)@.contains(x) ==> final(nodes)@.len() > old(nodes)@.len()
            && final(nodes)@[old(nodes)@.len() as int] == x,
        fresh_done(pool.views(), final(nodes)@, final(edges)@, old(nodes)@.len() as int),
        final(edges)@.len() + slots_total(pool.views(), old(nodes)@)
            == old(edges)@.len() + slots_total(pool.views(), final(nodes)@),
    decreases x,
{
    let ghost v = pool.views();
    let ghost n = pool.nodes@.len() as nat;
    let ghost n0 = nodes@;
    let ghost e0 = edges@;
    if visited[x] {
        proof {
            assert(n0.contains(x));
            assert(n0.is_prefix_of(n0));
            assert(e0.is_prefix_of(e0));
        }
        return;
    }
    proof {
        lemma_marks_add(n, visited@, nodes@, x);
        lemma_reached_push(v, nodes@, x);
        lemma_slots_push(v, n0, x);
        lemma_push_keeps(n0, x);
    }
    visited.set(x, true);
    nodes.push(x);
    proof {
        assert(nodes@[n0.len() as int] == x);
        assert(walk(v, x, n0, e0) == follow(v, x, 0, n0.push(x), e0));
        assert forall|e: int| 0 <= e < edges@.len() implies nodes@.contains((#[trigger] edges@[e]).1)
            && v[edges@[e].1 as int].parents.contains(edges@[e].0) by {
            assert(n0.contains(edges@[e].1));
        }
        assert(n0.push(x).is_prefix_of(nodes@));
        assert(e0.is_prefix_of(edges@));
    }
    let plen = pool.nodes[x].parents.len();
    let mut i: usize = 0;
    while i < plen
        invariant
            pool.wf(),
            v == pool.views(),
            n == pool.nodes@.len(),
            x < n,
            plen == v[x as int].parents.len(),
            i <= plen,
            !n0.contains(x),
            follow(v, x, i as int, nodes@, edges@) == walk(v, x, n0, e0),
            marks_listed(n, visited@, nodes@),
            reached_in_order(v, nodes@),
            edges_valid(v, nodes@, edges@),
            n0.push(x).is_prefix_of(nodes@),
            e0.is_prefix_of(edges@),
            followed(v, nodes@, edges@, x, i as int),
            fresh_done(v, nodes@, edges@, (n0.len() + 1) as int),
            edges@.len() + slots_total(v, n0) + (plen - i) == e0.len() + slots_total(v, nodes@),
        decreases plen - i,
    {
        let p = pool.nodes[x].parents[i];
        let ghost nb = nodes@;
        let ghost eb = edges@;
        proof {
            assert(scalar_node_wf(v, x as int));
            assert(v[x as int].parents[i as int] == p);
            assert(p < x);
            assert(n0.push(x)[n0.len() as int] == x);
            assert(nb.subrange(0, (n0.len() + 1) as int)[n0.len() as int] == nb[n0.len() as int]);
            assert(nb[n0.len() as int] == x);
            assert(v[nb[n0.len() as int] as int].parents.contains(p));
            lemma_push_keeps(eb, (p, x));
        }
        edges.push((p, x));
        proof {
            assert forall|e: int| 0 <= e < edges@.len() implies nb.contains((#[trigger] edges@[e]).1)
                && v[edges@[e].1 as int].parents.contains(edges@[e].0) by {
                if e < eb.len() {
                    assert(edges@[e] == eb[e]);
                } else {
                    assert(edges@[e] == (p, x));
                    assert(nb.contains(x));
                }
            }
        }
        build(pool, p, visited, nodes, edges);
        proof {
            let e1 = eb.push((p, x));
            assert(eb.is_prefix_of(e1));
            assert(eb.is_prefix_of(edges@)) by {
                assert forall|k: int| 0 <= k < eb.len() implies eb[k] == edges@[k] by {
                    assert(e1[k] == eb[k]);
                }
            }
            assert(e0.is_prefix_of(edges@)) by {
                assert forall|k: int| 0 <= k < e0.len() implies e0[k] == edges@[k] by {
                    assert(eb[k] == e0[k]);
                }
            }
            assert(n0.push(x).is_prefix_of(nodes@)) by {
                assert forall|k: int| 0 <= k < n0.len() + 1 implies n0.push(x)[k] == nodes@[k] by {
                    assert(nb[k] == n0.push(x)[k]);
                }
            }
            lemma_prefix_contains(e1, edges@);
            lemma_followed_grow(v, nb, eb, nodes@, edges@, x, i as int);
            lemma_prefix_contains(nb, nodes@);
            lemma_prefix_contains(eb, edges@);
            assert(edges@.contains((p, x))) by {
                assert(e1[eb.len() as int] == (p, x));
            }
            assert(followed(v, nodes@, edges@, x, i + 1)) by {
                assert forall|s: int| 0 <= s < i + 1 implies nodes@.contains(#[trigger] v[x as int].parents[s])
                    && edges@.contains((v[x as int].parents[s], x)) by {
                    if s < i {
                        assert(followed(v, nodes@, edges@, x, i as int));
                    }
                }
            }
            lemma_fresh_done_grow(v, nb, eb, nodes@, edges@, (n0.len() + 1) as int);
            assert forall|k: int| n0.len() + 1 <= k < nodes@.len()
                implies followed(v, nodes@, edges@, #[trigger] nodes@[k], v[nodes@[k] as int].parents.len() as int) by {
                if k < nb.len() {
                    assert(nodes@[k] == nb[k]);
                }
            }
        }
        i = i + 1;
    }
    proof {
        assert(follow(v, x, i as int, nodes@, edges@) == (nodes@, edges@));
        assert(nodes@[n0.len() as int] == x);
        assert forall|k: int| n0.len() <= k < nodes@.len()
            implies followed(v, nodes@, edges@, #[trigger] nodes@[k], v[nodes@[k] as int].parents.len() as int) by {
            if k == n0.len() {
                assert(nodes@[k] == x);
            }
        }
        assert(n0.is_prefix_of(nodes@)) by {
            assert forall|k: int| 0 <= k < n0.len() implies n0[k] == nodes@[k] by {
                assert(n0.push(x)[k] == n0[k]);
            }
        }
        assert(nodes@.contains(x));
    }
}

/// The nodes that `root` is computed from, `root` first and then depth
/// first through each node's inputs in order (each node once), and an edge
/// from each input of each of these nodes to the node, in the order the
/// inputs are followed.
pub fn trace(pool: &Pool, root: Value) -> (r: (Vec<usize>, Vec<(usize, usize)>))
    requires
        pool.wf(),
        pool.has(root),
    ensures
        (r.0@, r.1@) == walk(pool.views(), root.0, seq![], seq![]),
        r.0@.len() >= 1,
        r.0@[0] == root.0,
        r.0@.no_duplicates(),
        forall|k: int| 0 <= k < r.0@.len() ==> (#[trigger] r.0@[k]) < pool.nodes@.len(),
        reached_in_order(pool.views(), r.0@),
        forall|k: int, s: int| 0 <= k < r.0@.len() && 0 <= s < pool.views()[r.0@[k] as int].parents.len()
            ==> r.0@.contains(#[trigger] pool.views()[r.0@[k] as int].parents[s]),
        forall|e: int| 0 <= e < r.1@.len() ==> r.0@.contains((#[trigger] r.1@[e]).1)
            && pool.views()[r.1@[e].1 as int].parents.contains(r.1@[e].0),
        forall|k: int, s: int| 0 <= k < r.0@.len() && 0 <= s < pool.views()[r.0@[k] as int].parents.len()
            ==> r.1@.contains((#[trigger] pool.views()[r.0@[k] as int].parents[s], r.0@[k])),
        r.1@.len() == slots_total(pool.views(), r.0@),
{
    let n = pool.nodes.len();
    let ghost v = pool.views();
    let mut visited: Vec<bool> = Vec::new();
    for i in 0..n
        invariant
            visited@.len() == i,
            forall|q: int| 0 <= q < i ==> !visited@[q],
    {
        visited.push(false);
    }
    let mut nodes: Vec<usize> = Vec::new();
    let mut edges: Vec<(usize, usize)> = Vec::new();
    proof {
        assert(marks_listed(n as nat, visited@, nodes@)) by {
            assert forall|y: usize| y < n implies (visited@[y as int] <==> #[trigger] nodes@.contains(y)) by {
                assert(!visited@[y as int]);
            }
        }
        assert(nodes@ =~= seq![]);
        assert(edges@ =~= seq![]);
    }
    build(pool, root.0, &mut visited, &mut nodes, &mut edges);
    proof {
        assert(!Seq::<usize>::empty().contains(root.0));
        assert(slots_total(v, Seq::<usize>::empty()) == 0);
        assert forall|k: int, s: int| 0 <= k < nodes@.len() && 0 <= s < v[nodes@[k] as int].parents.len()
            implies nodes@.contains(#[trigger] v[nodes@[k] as int].parents[s])
                && edges@.contains((v[nodes@[k] as int].parents[s], nodes@[k])) by {
            assert(followed(v, nodes@, edges@, nodes@[k], v[nodes@[k] as int].parents.len() as int));
        }
    }
    (nodes, edges)
}

} // verus!
