//! Strongly connected components through petgraph, and the number of nodes
//! that lie on a cycle.

use petgraph::graph::{DiGraph, NodeIndex};
use vstd::prelude::*;

verus! {

#[verifier::external_type_specification]
#[verifier::external_body]
#[verifier::reject_recursive_types(N)]
#[verifier::reject_recursive_types(E)]
#[verifier::reject_recursive_types(Ty)]
#[verifier::reject_recursive_types(Ix)]
pub struct ExPetGraph<N, E, Ty, Ix>(petgraph::graph::Graph<N, E, Ty, Ix>);

#[verifier::external_type_specification]
#[verifier::external_body]
pub struct ExDirected(petgraph::Directed);

/// The edges of a petgraph graph, as node positions in insertion order.
pub uninterp spec fn digraph_edges(g: DiGraph<(), ()>) -> Seq<(int, int)>;

/// The number of nodes of a petgraph graph.
pub uninterp spec fn digraph_node_count(g: DiGraph<(), ()>) -> nat;

/// Edge `i -> i + 1` of path `p` is an edge of `edges`.
pub open spec fn path_step(edges: Seq<(int, int)>, p: Seq<int>, i: int) -> bool {
    edges.contains((p[i], p[i + 1]))
}

/// `p` is a (possibly trivial) walk along `edges`.
pub open spec fn is_path(edges: Seq<(int, int)>, p: Seq<int>) -> bool {
    &&& p.len() >= 1
    &&& forall|i: int| 0 <= i < p.len() - 1 ==> #[trigger] path_step(edges, p, i)
}

/// `v` can be reached from `u` along `edges` (every node reaches itself).
pub open spec fn reaches(edges: Seq<(int, int)>, u: int, v: int) -> bool {
    exists|p: Seq<int>| #[trigger] is_path(edges, p) && p[0] == u && p.last() == v
}

pub open spec fn mutually_reachable(edges: Seq<(int, int)>, u: int, v: int) -> bool {
    reaches(edges, u, v) && reaches(edges, v, u)
}

pub open spec fn comp_views(r: Seq<Vec<usize>>) -> Seq<Seq<usize>> {
    r.map_values(|c: Vec<usize>| c@)
}

/// Node `u` lies in one of `comps`.
pub open spec fn covered(comps: Seq<Seq<usize>>, u: int) -> bool {
    exists|c: int, k: int| 0 <= c < comps.len() && 0 <= k < comps[c].len() && #[trigger] comps[c][k] == u
}

/// `comps` are the strongly connected components of the graph with nodes
/// `0..n` and `edges`: every node lies in exactly one of them, and two
/// nodes share a component exactly when each reaches the other.
pub open spec fn is_scc_partition(comps: Seq<Seq<usize>>, n: nat, edges: Seq<(int, int)>) -> bool {
    &&& forall|c: int, k: int|
        0 <= c < comps.len() && 0 <= k < comps[c].len() ==> #[trigger] comps[c][k] < n
    &&& forall|u: int| 0 <= u < n ==> #[trigger] covered(comps, u)
    &&& forall|c1: int, k1: int, c2: int, k2: int|
        0 <= c1 < comps.len() && 0 <= k1 < comps[c1].len() && 0 <= c2 < comps.len() && 0 <= k2
            < comps[c2].len() && #[trigger] comps[c1][k1] == #[trigger] comps[c2][k2] ==> c1 == c2
            && k1 == k2
    &&& forall|c: int, k1: int, k2: int|
        0 <= c < comps.len() && 0 <= k1 < comps[c].len() && 0 <= k2 < comps[c].len()
            ==> reaches(edges, #[trigger] comps[c][k1] as int, #[trigger] comps[c][k2] as int)
    &&& forall|c1: int, k1: int, c2: int, k2: int|
        0 <= c1 < comps.len() && 0 <= k1 < comps[c1].len() && 0 <= c2 < comps.len() && 0 <= k2
            < comps[c2].len() && c1 != c2 ==> !mutually_reachable(
            edges,
            #[trigger] comps[c1][k1] as int,
            #[trigger] comps[c2][k2] as int,
        )
}

/// An empty directed graph (`DiGraph::new`).
#[verifier::external_body]
fn digraph_new() -> (g: DiGraph<(), ()>)
    ensures
        digraph_node_count(g) == 0,
        digraph_edges(g) == Seq::<(int, int)>::empty(),
{
    DiGraph::new()
}

/// `Graph::add_node`: appends a node and returns its position. petgraph
/// asserts that the new index is not `u32::MAX`, its reserved end marker.
#[verifier::external_body]
fn digraph_add_node(g: &mut DiGraph<(), ()>) -> (i: usize)
    requires
        digraph_node_count(*old(g)) < u32::MAX,
    ensures
        i == digraph_node_count(*old(g)),
        digraph_node_count(*final(g)) == digraph_node_count(*old(g)) + 1,
        digraph_edges(*final(g)) == digraph_edges(*old(g)),
{
    g.add_node(()).index()
}

/// `Graph::add_edge`: appends the edge `a -> b`. petgraph panics when an
/// end is not a node and asserts that the new edge index is not `u32::MAX`.
#[verifier::external_body]
fn digraph_add_edge(g: &mut DiGraph<(), ()>, a: usize, b: usize)
    requires
        a < digraph_node_count(*old(g)),
        b < digraph_node_count(*old(g)),
        digraph_edges(*old(g)).len() < u32::MAX,
    ensures
        digraph_node_count(*final(g)) == digraph_node_count(*old(g)),
        digraph_edges(*final(g)) == digraph_edges(*old(g)).push((a as int, b as int)),
{
    g.add_edge(NodeIndex::new(a), NodeIndex::new(b), ());
}

/// `petgraph::algo::tarjan_scc`: the strongly connected components, each as
/// the positions of its nodes. The order of the components and of the nodes
/// inside one is not stated. The search is recursive, so its stack depth
/// grows with the length of the longest path; no bound on it is stated.
#[verifier::external_body]
fn digraph_sccs(g: &DiGraph<(), ()>) -> (r: Vec<Vec<usize>>)
    ensures
        is_scc_partition(comp_views(r@), digraph_node_count(*g), digraph_edges(*g)),
{
    petgraph::algo::tarjan_scc(g).into_iter().map(|c| c.into_iter().map(|v| v.index()).collect()).collect()
}

pub open spec fn int_pairs(e: Seq<(usize, usize)>) -> Seq<(int, int)> {
    e.map_values(|p: (usize, usize)| (p.0 as int, p.1 as int))
}

/// Node `u` lies on a cycle: some other node reaches it and is reached by it.
pub open spec fn on_cycle(n: int, edges: Seq<(int, int)>, u: int) -> bool {
    exists|v: int| 0 <= v < n && v != u && #[trigger] mutually_reachable(edges, u, v)
}

/// Number of nodes below `k` that lie on a cycle.
pub open spec fn count_on_cycle(n: int, edges: Seq<(int, int)>, k: int) -> nat
    decreases k,
{
    if k <= 0 {
        0
    } else {
        count_on_cycle(n, edges, k - 1) + if on_cycle(n, edges, k - 1) {
            1nat
        } else {
            0nat
        }
    }
}

proof fn lemma_on_cycle_iff(comps: Seq<Seq<usize>>, n: nat, edges: Seq<(int, int)>, c: int, k: int)
    requires
        is_scc_partition(comps, n, edges),
        0 <= c < comps.len(),
        0 <= k < comps[c].len(),
    ensures
        on_cycle(n as int, edges, comps[c][k] as int) <==> comps[c].len() > 1,
{
    let u = comps[c][k] as int;
    if comps[c].len() > 1 {
        let k2 = if k == 0 {
            1int
        } else {
            0int
        };
        let v = comps[c][k2] as int;
        assert(comps[c][k] != comps[c][k2]);
        assert(reaches(edges, comps[c][k] as int, comps[c][k2] as int));
        assert(reaches(edges, comps[c][k2] as int, comps[c][k] as int));
        assert(mutually_reachable(edges, u, v));
        assert(v < n);
    }
    if on_cycle(n as int, edges, u) {
        let v = choose|v: int| 0 <= v < n && v != u && #[trigger] mutually_reachable(edges, u, v);
        assert(covered(comps, v));
        let (c2, k2) = choose|c2: int, k2: int|
            0 <= c2 < comps.len() && 0 <= k2 < comps[c2].len() && #[trigger] comps[c2][k2] == v;
        if c2 != c {
            assert(!mutually_reachable(edges, comps[c][k] as int, comps[c2][k2] as int));
        }
        assert(c2 == c);
        assert(k2 != k);
    }
}

/// Number of nodes of the graph `(0..n, edges)` that lie on a cycle, i.e.
/// that belong to a strongly connected component of two or more nodes.
pub fn cyclic_node_count(n: usize, edges: &Vec<(usize, usize)>) -> (r: usize)
    requires
        n < u32::MAX,
        edges.len() < u32::MAX,
        forall|k: int| 0 <= k < edges.len() ==> (#[trigger] edges@[k]).0 < n && edges@[k].1 < n,
    ensures
        r == count_on_cycle(n as int, int_pairs(edges@), n as int),
{
    let mut g = digraph_new();
    let mut i: usize = 0;
    while i < n
        invariant
            i <= n < u32::MAX,
            digraph_node_count(g) == i,
            digraph_edges(g) == Seq::<(int, int)>::empty(),
        decreases n - i,
    {
        digraph_add_node(&mut g);
        i = i + 1;
    }
    let mut k: usize = 0;
    while k < edges.len()
        invariant
            k <= edges.len() < u32::MAX,
            digraph_node_count(g) == n,
            digraph_edges(g) == int_pairs(edges@.take(k as int)),
            forall|j: int| 0 <= j < edges.len() ==> (#[trigger] edges@[j]).0 < n && edges@[j].1 < n,
        decreases edges.len() - k,
    {
        let (a, b) = edges[k];
        digraph_add_edge(&mut g, a, b);
        assert(int_pairs(edges@.take(k + 1)) =~= int_pairs(edges@.take(k as int)).push(
            (a as int, b as int),
        ));
        k = k + 1;
    }
    assert(edges@.take(edges.len() as int) =~= edges@);
    let ghost es = int_pairs(edges@);
    let comps = digraph_sccs(&g);
    let ghost cs = comp_views(comps@);
    // component size of every node
    let mut size: Vec<usize> = Vec::new();
    let mut i: usize = 0;
    while i < n
        invariant
            i <= n,
            size@.len() == i,
        decreases n - i,
    {
        size.push(0);
        i = i + 1;
    }
    let mut c: usize = 0;
    while c < comps.len()
        invariant
            c <= comps.len(),
            cs == comp_views(comps@),
            is_scc_partition(cs, n as nat, es),
            size@.len() == n,
            forall|c1: int, k1: int|
                0 <= c1 < c && 0 <= k1 < cs[c1].len() ==> size@[#[trigger] cs[c1][k1] as int]
                    == cs[c1].len(),
        decreases comps.len() - c,
    {
        let comp = &comps[c];
        assert(comp@ == cs[c as int]);
        let mut q: usize = 0;
        while q < comp.len()
            invariant
                q <= comp.len(),
                c < comps.len(),
                comp@ == cs[c as int],
                cs == comp_views(comps@),
                is_scc_partition(cs, n as nat, es),
                size@.len() == n,
                forall|c1: int, k1: int|
                    0 <= c1 < c && 0 <= k1 < cs[c1].len() ==> size@[#[trigger] cs[c1][k1] as int]
                        == cs[c1].len(),
                forall|k1: int| 0 <= k1 < q ==> size@[#[trigger] cs[c as int][k1] as int] == comp.len(),
            decreases comp.len() - q,
        {
            let m = comp[q];
            assert(cs[c as int][q as int] == m);
            assert(m < n);
            let ghost before = size@;
            size.set(m, comp.len());
            assert forall|c1: int, k1: int|
                0 <= c1 < c && 0 <= k1 < cs[c1].len() implies size@[#[trigger] cs[c1][k1] as int]
                == cs[c1].len() by {
                if cs[c1][k1] == m {
                    assert(cs[c1][k1] == cs[c as int][q as int]);
                }
                assert(size@[cs[c1][k1] as int] == before[cs[c1][k1] as int]);
            }
            assert forall|k1: int| 0 <= k1 < q + 1 implies size@[#[trigger] cs[c as int][k1] as int]
                == comp.len() by {
                if k1 < q {
                    if cs[c as int][k1] == m {
                        assert(cs[c as int][k1] == cs[c as int][q as int]);
                    }
                }
            }
            q = q + 1;
        }
        c = c + 1;
    }
    let mut count: usize = 0;
    let mut u: usize = 0;
    while u < n
        invariant
            u <= n,
            cs == comp_views(comps@),
            is_scc_partition(cs, n as nat, es),
            size@.len() == n,
            forall|c1: int, k1: int|
                0 <= c1 < cs.len() && 0 <= k1 < cs[c1].len() ==> size@[#[trigger] cs[c1][k1] as int]
                    == cs[c1].len(),
            count == count_on_cycle(n as int, es, u as int),
            count <= u,
        decreases n - u,
    {
        proof {
            assert(covered(cs, u as int));
            let (c1, k1) = choose|c1: int, k1: int|
                0 <= c1 < cs.len() && 0 <= k1 < cs[c1].len() && #[trigger] cs[c1][k1] == u as int;
            lemma_on_cycle_iff(cs, n as nat, es, c1, k1);
            assert(size@[cs[c1][k1] as int] == cs[c1].len());
        }
        if size[u] > 1 {
            count = count + 1;
        }
        u = u + 1;
    }
    count
}

} // verus!
