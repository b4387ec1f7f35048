//! Directed graphs over node numbers, and their topological order.

use vstd::prelude::*;
use petgraph::graph::Graph;
use petgraph::graph::NodeIndex;
use petgraph::Directed;

verus! {

/// The outside directed graph on which the ordering is computed.
#[verifier::external_type_specification]
#[verifier::external_body]
#[verifier::reject_recursive_types(N)]
#[verifier::reject_recursive_types(E)]
#[verifier::reject_recursive_types(Ty)]
#[verifier::reject_recursive_types(Ix)]
pub struct ExGraph<N, E, Ty, Ix>(Graph<N, E, Ty, Ix>);

/// The marker of a graph whose edges have a direction.
#[verifier::external_type_specification]
#[verifier::external_body]
pub struct ExDirected(Directed);

/// How many nodes the graph holds; they are numbered from zero in the order of their insertion.
pub uninterp spec fn graph_nodes(g: Graph<(), (), Directed, usize>) -> nat;

/// The edges of the graph, as pairs of source and target, in the order of their insertion.
pub uninterp spec fn graph_edges(g: Graph<(), (), Directed, usize>) -> Seq<(usize, usize)>;

/// `Graph::with_capacity(0, 0)`: the graph without nodes and edges.
#[verifier::external_body]
fn graph_new() -> (g: Graph<(), (), Directed, usize>)
    ensures
        graph_nodes(g) == 0,
        graph_edges(g) == Seq::<(usize, usize)>::empty(),
{
    Graph::with_capacity(0, 0)
}

/// `Graph::add_node`: appends one node and returns its number, the former node count.
#[verifier::external_body]
fn graph_add_node(g: &mut Graph<(), (), Directed, usize>) -> (id: usize)
    ensures
        id == graph_nodes(*old(g)),
        graph_nodes(*final(g)) == graph_nodes(*old(g)) + 1,
        graph_edges(*final(g)) == graph_edges(*old(g)),
{
    g.add_node(()).index()
}

/// `Graph::add_edge`: appends one edge between two existing nodes.
#[verifier::external_body]
fn graph_add_edge(g: &mut Graph<(), (), Directed, usize>, from: usize, to: usize)
    requires
        from < graph_nodes(*old(g)),
        to < graph_nodes(*old(g)),
    ensures
        graph_nodes(*final(g)) == graph_nodes(*old(g)),
        graph_edges(*final(g)) == graph_edges(*old(g)).push((from, to)),
{
    g.add_edge(NodeIndex::new(from), NodeIndex::new(to), ());
}

/// `petgraph::algo::toposort` without a workspace: on a graph without cycles, every node
/// once, each before its successors; otherwise a node that takes part in a cycle.
#[verifier::external_body]
fn graph_toposort(g: &Graph<(), (), Directed, usize>) -> (r: Result<Vec<usize>, usize>)
    ensures
        match r {
            Ok(order) => is_topological(order@, graph_nodes(*g), graph_edges(*g)),
            Err(v) => v < graph_nodes(*g) && on_cycle(graph_edges(*g), v),
        },
{
    match petgraph::algo::toposort(g, None) {
        Ok(order) => Ok(order.into_iter().map(|node| node.index()).collect()),
        Err(cycle) => Err(cycle.node_id().index()),
    }
}

/// Every edge joins two of the nodes `0 .. n`.
pub open spec fn edges_within(edges: Seq<(usize, usize)>, n: nat) -> bool {
    forall|e: int| 0 <= e < edges.len() ==> (#[trigger] edges[e]).0 < n && edges[e].1 < n
}

/// `p` walks along edges and comes back to where it started.
pub open spec fn is_cycle(edges: Seq<(usize, usize)>, p: Seq<usize>) -> bool {
    &&& p.len() >= 2
    &&& p[0] == p[p.len() - 1]
    &&& forall|k: int| 0 <= k < p.len() - 1 ==> edges.contains((#[trigger] p[k], p[k + 1]))
}

/// Some cycle passes through `v`.
pub open spec fn on_cycle(edges: Seq<(usize, usize)>, v: usize) -> bool {
    exists|p: Seq<usize>| is_cycle(edges, p) && p[0] == v
}

/// `order` lists each of the nodes `0 .. n` once, the source of every edge before its target.
pub open spec fn is_topological(order: Seq<usize>, n: nat, edges: Seq<(usize, usize)>) -> bool {
    &&& order.len() == n
    &&& forall|v: usize| v < n ==> order.contains(v)
    &&& forall|i: int| 0 <= i < order.len() ==> (#[trigger] order[i]) < n
    &&& forall|i: int, j: int|
        0 <= i < order.len() && 0 <= j < order.len() && i != j ==> (#[trigger] order[i])
            != (#[trigger] order[j])
    &&& forall|i: int, j: int|
        0 <= i < order.len() && 0 <= j < order.len() && edges.contains(
            (#[trigger] order[i], #[trigger] order[j]),
        ) ==> i < j
}

/// `depth` gives each node the length of the longest chain of edges that ends in it:
/// zero without an incoming edge, else one more than the deepest of its predecessors.
pub open spec fn is_depth(depth: Seq<usize>, n: nat, edges: Seq<(usize, usize)>) -> bool {
    &&& depth.len() == n
    &&& forall|e: int|
        0 <= e < edges.len() ==> depth[(#[trigger] edges[e]).0 as int] < depth[edges[e].1 as int]
    &&& forall|v: int|
        0 <= v < n ==> (#[trigger] depth[v]) == 0 || exists|e: int|
            0 <= e < edges.len() && (#[trigger] edges[e]).1 == v && depth[edges[e].0 as int] + 1
                == depth[v]
}

/// The source of an edge into `order[i]` stands at an earlier place of `order`.
proof fn lemma_source_is_earlier(order: Seq<usize>, n: nat, edges: Seq<(usize, usize)>, e: int, i: int) -> (j: int)
    requires
        is_topological(order, n, edges),
        edges_within(edges, n),
        0 <= e < edges.len(),
        0 <= i < order.len(),
        edges[e].1 == order[i],
    ensures
        0 <= j < i,
        order[j] == edges[e].0,
{
    let a = edges[e].0;
    assert(order.contains(a));
    let j = choose|j: int| 0 <= j < order.len() && order[j] == a;
    assert(edges[e] == (order[j], order[i]));
    assert(edges.contains((order[j], order[i])));
    j
}

/// The depth of every node, computed along a topological order.
pub fn node_depths(n: usize, edges: &Vec<(usize, usize)>, order: &Vec<usize>) -> (depth: Vec<usize>)
    requires
        is_topological(order@, n as nat, edges@),
        edges_within(edges@, n as nat),
    ensures
        is_depth(depth@, n as nat, edges@),
        forall|v: int| 0 <= v < n ==> (#[trigger] depth@[v]) < n,
{
    let mut depth: Vec<usize> = Vec::new();
    while depth.len() < n
        invariant
            depth.len() <= n,
            forall|v: int| 0 <= v < depth.len() ==> depth@[v] == 0,
        decreases n - depth.len(),
    {
        depth.push(0);
    }
    let mut k: usize = 0;
    while k < n
        invariant
            k <= n,
            depth.len() == n,
            is_topological(order@, n as nat, edges@),
            edges_within(edges@, n as nat),
            forall|i: int| k <= i < n ==> depth@[#[trigger] order@[i] as int] == 0,
            forall|i: int| 0 <= i < k ==> depth@[#[trigger] order@[i] as int] <= i,
            forall|i: int, e: int|
                0 <= i < k && 0 <= e < edges.len() && (#[trigger] edges@[e]).1 == #[trigger] order@[i]
                    ==> depth@[edges@[e].0 as int] < depth@[order@[i] as int],
            forall|i: int|
                0 <= i < k ==> depth@[#[trigger] order@[i] as int] == 0 || exists|e: int|
                    0 <= e < edges.len() && (#[trigger] edges@[e]).1 == order@[i] && depth@[edges@[e].0 as int]
                        + 1 == depth@[order@[i] as int],
        decreases n - k,
    {
        let v: usize = order[k];
        let mut d: usize = 0;
        let mut e: usize = 0;
        while e < edges.len()
            invariant
                e <= edges.len(),
                k < n,
                v == order@[k as int],
                depth.len() == n,
                d <= k,
                is_topological(order@, n as nat, edges@),
                edges_within(edges@, n as nat),
                forall|i: int| 0 <= i < k ==> depth@[#[trigger] order@[i] as int] <= i,
                forall|x: int|
                    0 <= x < e && (#[trigger] edges@[x]).1 == v ==> depth@[edges@[x].0 as int] < d,
                d == 0 || exists|x: int|
                    0 <= x < e && (#[trigger] edges@[x]).1 == v && depth@[edges@[x].0 as int] + 1 == d,
            decreases edges.len() - e,
        {
            let a: usize = edges[e].0;
            let b: usize = edges[e].1;
            if b == v {
                proof {
                    let j = lemma_source_is_earlier(order@, n as nat, edges@, e as int, k as int);
                    assert(depth@[order@[j] as int] <= j);
                }
                if depth[a] >= d {
                    d = depth[a] + 1;
                }
            }
            e = e + 1;
        }
        let ghost before = depth@;
        depth.set(v, d);
        proof {
            assert forall|i: int| 0 <= i < k implies before[#[trigger] order@[i] as int] == depth@[order@[i] as int] by {}
            assert forall|i: int, x: int|
                0 <= i < k + 1 && 0 <= x < edges.len() && (#[trigger] edges@[x]).1 == #[trigger] order@[i]
                implies depth@[edges@[x].0 as int] < depth@[order@[i] as int] by {
                let j = lemma_source_is_earlier(order@, n as nat, edges@, x, i);
                assert(before[order@[j] as int] == depth@[order@[j] as int]);
            }
            assert forall|i: int| 0 <= i < k + 1 implies depth@[#[trigger] order@[i] as int] == 0 || exists|x: int|
                    0 <= x < edges.len() && (#[trigger] edges@[x]).1 == order@[i] && depth@[edges@[x].0 as int]
                        + 1 == depth@[order@[i] as int] by {
                if depth@[order@[i] as int] != 0 {
                    let x = if i < k {
                        choose|x: int|
                            0 <= x < edges.len() && (#[trigger] edges@[x]).1 == order@[i] && before[edges@[x].0 as int]
                                + 1 == before[order@[i] as int]
                    } else {
                        choose|x: int|
                            0 <= x < edges.len() && (#[trigger] edges@[x]).1 == v && before[edges@[x].0 as int] + 1 == d
                    };
                    let j = lemma_source_is_earlier(order@, n as nat, edges@, x, i);
                    assert(before[order@[j] as int] == depth@[order@[j] as int]);
                }
            }
        }
        k = k + 1;
    }
    proof {
        assert forall|v: int| 0 <= v < n implies (#[trigger] depth@[v]) < n && (depth@[v] == 0 || exists|e: int|
                0 <= e < edges.len() && (#[trigger] edges@[e]).1 == v && depth@[edges@[e].0 as int] + 1
                    == depth@[v]) by {
            assert(order@.contains(v as usize));
            let i = choose|i: int| 0 <= i < order@.len() && order@[i] == v as usize;
            assert(depth@[order@[i] as int] <= i);
        }
        assert forall|e: int| 0 <= e < edges.len() implies depth@[(#[trigger] edges@[e]).0 as int] < depth@[edges@[e].1 as int] by {
            let b = edges@[e].1;
            assert(order@.contains(b));
            let i = choose|i: int| 0 <= i < order@.len() && order@[i] == b;
            assert(edges@[e].1 == order@[i]);
        }
    }
    depth
}

/// Some cycle exists among the edges.
pub open spec fn has_cycle(edges: Seq<(usize, usize)>) -> bool {
    exists|p: Seq<usize>| is_cycle(edges, p)
}

/// Along a walk the depth grows strictly, so no walk comes back to its start.
pub proof fn lemma_depth_excludes_cycle(depth: Seq<usize>, n: nat, edges: Seq<(usize, usize)>, p: Seq<usize>, k: int)
    requires
        is_depth(depth, n, edges),
        edges_within(edges, n),
        p.len() >= 2,
        forall|i: int| 0 <= i < p.len() - 1 ==> edges.contains((#[trigger] p[i], p[i + 1])),
        1 <= k < p.len(),
    ensures
        depth[p[0] as int] < depth[p[k] as int],
    decreases k,
{
    assert(edges.contains((p[k - 1], p[k])));
    let e = choose|e: int| 0 <= e < edges.len() && edges[e] == (p[k - 1], p[k]);
    assert(depth[edges[e].0 as int] < depth[edges[e].1 as int]);
    if k > 1 {
        lemma_depth_excludes_cycle(depth, n, edges, p, k - 1);
    }
}

/// A topological order of the graph with `n` nodes and the given edges, or a node on a cycle.
pub fn sort_nodes(n: usize, edges: &Vec<(usize, usize)>) -> (r: Result<Vec<usize>, usize>)
    requires
        edges_within(edges@, n as nat),
    ensures
        match r {
            Ok(order) => is_topological(order@, n as nat, edges@),
            Err(v) => v < n && on_cycle(edges@, v),
        },
{
    let mut g = graph_new();
    let mut v: usize = 0;
    while v < n
        invariant
            v <= n,
            graph_nodes(g) == v,
            graph_edges(g) == Seq::<(usize, usize)>::empty(),
        decreases n - v,
    {
        let _ = graph_add_node(&mut g);
        v = v + 1;
    }
    let mut e: usize = 0;
    while e < edges.len()
        invariant
            e <= edges.len(),
            edges_within(edges@, n as nat),
            graph_nodes(g) == n,
            graph_edges(g) == edges@.take(e as int),
        decreases edges.len() - e,
    {
        let from: usize = edges[e].0;
        let to: usize = edges[e].1;
        graph_add_edge(&mut g, from, to);
        proof {
            assert(edges@.take(e as int).push((from, to)) =~= edges@.take(e + 1));
        }
        e = e + 1;
    }
    proof {
        assert(edges@.take(edges.len() as int) =~= edges@);
    }
    graph_toposort(&g)
}

/// The depth of every node of the graph, or a node on a cycle: depths exist exactly
/// where the graph has no cycle.
pub fn depths_of(n: usize, edges: &Vec<(usize, usize)>) -> (r: Result<Vec<usize>, usize>)
    requires
        edges_within(edges@, n as nat),
    ensures
        r is Ok <==> !has_cycle(edges@),
        match r {
            Ok(depth) => is_depth(depth@, n as nat, edges@) && forall|v: int|
                0 <= v < n ==> (#[trigger] depth@[v]) < n,
            Err(v) => v < n && on_cycle(edges@, v),
        },
{
    match sort_nodes(n, edges) {
        Ok(order) => {
            let depth = node_depths(n, edges, &order);
            proof {
                assert forall|p: Seq<usize>| !is_cycle(edges@, p) by {
                    if is_cycle(edges@, p) {
                        lemma_depth_excludes_cycle(depth@, n as nat, edges@, p, p.len() - 1);
                    }
                }
            }
            Ok(depth)
        },
        Err(v) => Err(v),
    }
}

} // verus!
