//! The dependency graph, kept in a `petgraph` graph keyed directly by
//! cell keys.  Nodes are cell references packed into `u64` keys; an edge
//! `u -> v` means "v's formula reads u".  The graph type is declared
//! opaquely; its node set and edge set are named, and each operation the
//! engine uses is a trusted wrapper whose contract states what
//! `petgraph`'s documentation promises.

use vstd::prelude::*;

verus! {

#[verifier::external_type_specification]
#[verifier::external_body]
#[verifier::reject_recursive_types(N)]
#[verifier::reject_recursive_types(E)]
#[verifier::reject_recursive_types(Ty)]
#[verifier::reject_recursive_types(S)]
pub struct ExGraphMap<N, E, Ty, S: std::hash::BuildHasher>(
    petgraph::graphmap::GraphMap<N, E, Ty, S>,
);

#[verifier::external_type_specification]
#[verifier::external_body]
pub struct ExDirected(petgraph::Directed);

/// The node keys a dependency graph holds.
pub uninterp spec fn dg_nodes(g: petgraph::graphmap::DiGraphMap<u64, ()>) -> Set<u64>;

/// The directed edges a dependency graph holds.
pub uninterp spec fn dg_edges(g: petgraph::graphmap::DiGraphMap<u64, ()>) -> Set<(u64, u64)>;

/// A non-empty key sequence that loops through the edge set.
pub open spec fn spec_is_cycle(edges: Set<(u64, u64)>, p: Seq<u64>) -> bool {
    p.len() > 0 && forall|i: int|
        0 <= i < p.len() ==> #[trigger] edges.contains((p[i], p[(i + 1) % (p.len() as int)]))
}

/// Whether the edge set has a cycle.
pub open spec fn spec_has_cycle(edges: Set<(u64, u64)>) -> bool {
    exists|p: Seq<u64>| #[trigger] spec_is_cycle(edges, p)
}

/// A key path through the edge set, start to end.
pub open spec fn spec_is_path(edges: Set<(u64, u64)>, p: Seq<u64>, a: u64, b: u64) -> bool {
    &&& p.len() >= 1
    &&& p[0] == a
    &&& p[p.len() - 1] == b
    &&& forall|i: int| 0 <= i < p.len() - 1 ==> #[trigger] edges.contains((p[i], p[i + 1]))
}

/// Whether `b` is reachable from `a` (every key reaches itself).
pub open spec fn spec_reaches(edges: Set<(u64, u64)>, a: u64, b: u64) -> bool {
    exists|p: Seq<u64>| #[trigger] spec_is_path(edges, p, a, b)
}

/// Every key reaches itself.
pub proof fn lemma_reaches_self(edges: Set<(u64, u64)>, a: u64)
    ensures
        spec_reaches(edges, a, a),
{
    let p = seq![a];
    assert(spec_is_path(edges, p, a, a));
}

/// Reachability extends along one edge.
pub proof fn lemma_reaches_step(edges: Set<(u64, u64)>, a: u64, b: u64, c: u64)
    requires
        spec_reaches(edges, a, b),
        edges.contains((b, c)),
    ensures
        spec_reaches(edges, a, c),
{
    let p = choose|p: Seq<u64>| #[trigger] spec_is_path(edges, p, a, b);
    let q = p.push(c);
    assert forall|i: int| 0 <= i < q.len() - 1 implies #[trigger] edges.contains(
        (q[i], q[i + 1]),
    ) by {
        if i < p.len() - 1 {
            assert(q[i] == p[i] && q[i + 1] == p[i + 1]);
        } else {
            assert(q[i] == b && q[i + 1] == c);
        }
    }
    assert(spec_is_path(edges, q, a, c));
}

/// Relies on `GraphMap::new`: a new graph is empty.
#[verifier::external_body]
pub fn dg_new() -> (g: petgraph::graphmap::DiGraphMap<u64, ()>)
    ensures
        dg_nodes(g) == Set::<u64>::empty(),
        dg_edges(g) == Set::<(u64, u64)>::empty(),
{
    petgraph::graphmap::DiGraphMap::new()
}

/// Relies on `GraphMap::add_node`: the key is added; edges are untouched.
#[verifier::external_body]
pub fn dg_add_node(g: &mut petgraph::graphmap::DiGraphMap<u64, ()>, n: u64)
    ensures
        dg_nodes(*final(g)) == dg_nodes(*old(g)).insert(n),
        dg_edges(*final(g)) == dg_edges(*old(g)),
{
    g.add_node(n);
}

/// Relies on `GraphMap::add_edge`: both endpoints are added as nodes and
/// the edge is added (at most one edge per ordered pair).
#[verifier::external_body]
pub fn dg_add_edge(g: &mut petgraph::graphmap::DiGraphMap<u64, ()>, a: u64, b: u64)
    ensures
        dg_nodes(*final(g)) == dg_nodes(*old(g)).insert(a).insert(b),
        dg_edges(*final(g)) == dg_edges(*old(g)).insert((a, b)),
{
    g.add_edge(a, b, ());
}

/// Relies on `GraphMap::remove_edge`: the edge is removed; nodes remain.
#[verifier::external_body]
pub fn dg_remove_edge(g: &mut petgraph::graphmap::DiGraphMap<u64, ()>, a: u64, b: u64)
    ensures
        dg_nodes(*final(g)) == dg_nodes(*old(g)),
        dg_edges(*final(g)) == dg_edges(*old(g)).remove((a, b)),
{
    g.remove_edge(a, b);
}

/// Relies on `GraphMap::neighbors_directed` with the incoming direction:
/// the distinct sources of edges into `v`.
#[verifier::external_body]
pub fn dg_incoming(g: &petgraph::graphmap::DiGraphMap<u64, ()>, v: u64) -> (r: Vec<u64>)
    ensures
        r@.no_duplicates(),
        forall|u: u64| r@.contains(u) <==> dg_edges(*g).contains((u, v)),
{
    g.neighbors_directed(v, petgraph::Direction::Incoming).collect()
}

/// Relies on `GraphMap::neighbors_directed` with the outgoing direction:
/// the distinct targets of edges out of `v`; every target is a node.
#[verifier::external_body]
pub fn dg_outgoing(g: &petgraph::graphmap::DiGraphMap<u64, ()>, v: u64) -> (r: Vec<u64>)
    ensures
        r@.no_duplicates(),
        forall|u: u64| r@.contains(u) <==> dg_edges(*g).contains((v, u)),
        forall|u: u64| r@.contains(u) ==> dg_nodes(*g).contains(u),
{
    g.neighbors_directed(v, petgraph::Direction::Outgoing).collect()
}

/// Relies on `GraphMap::nodes`: every node key, each exactly once.
#[verifier::external_body]
pub fn dg_node_list(g: &petgraph::graphmap::DiGraphMap<u64, ()>) -> (r: Vec<u64>)
    ensures
        r@.no_duplicates(),
        forall|u: u64| r@.contains(u) <==> dg_nodes(*g).contains(u),
{
    g.nodes().collect()
}

/// Relies on `petgraph::algo::toposort`: on success the order lists every
/// node exactly once with every edge pointing forward; it fails exactly
/// when the graph has a cycle.
#[verifier::external_body]
pub fn dg_topo(g: &petgraph::graphmap::DiGraphMap<u64, ()>) -> (r: Result<Vec<u64>, ()>)
    ensures
        (r matches Ok(o) ==> {
            &&& o@.no_duplicates()
            &&& forall|u: u64| o@.contains(u) <==> dg_nodes(*g).contains(u)
            &&& forall|i: int, j: int|
                0 <= i < o@.len() && 0 <= j < o@.len() && dg_edges(*g).contains(
                    (o@[i], o@[j]),
                ) ==> i < j
        }),
        (r matches Ok(o) ==> !spec_has_cycle(dg_edges(*g))),
        (r is Err ==> spec_has_cycle(dg_edges(*g))),
{
    match petgraph::algo::toposort(g, None) {
        Ok(o) => Ok(o),
        Err(_) => Err(()),
    }
}

} // verus!
