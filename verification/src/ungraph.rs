//! The undirected graph store from `petgraph` that holds the symbol graph's
//! nodes and weighted edges, with what each of its operations does.

use crate::symbol::{NodeData, NodeModel};
use vstd::prelude::*;

verus! {

/// The store: an undirected graph of `petgraph` with a [`NodeData`] at each
/// node and a weight at each edge.
#[verifier::external_body]
pub struct Store {
    inner: petgraph::graph::UnGraph<NodeData, usize>,
}

/// One edge of the store: its two end nodes, in the order in which they were
/// given when the edge was added, and its weight.
pub struct Link {
    pub a: usize,
    pub b: usize,
    pub weight: usize,
}

/// The nodes that a store holds, in the order of their indices.
pub uninterp spec fn graph_nodes(g: Store) -> Seq<NodeModel>;

/// The edges that a store holds, in the order of their indices.
pub uninterp spec fn graph_edges(g: Store) -> Seq<Link>;

/// Whether an edge joins the nodes `a` and `b`, in either direction.
pub open spec fn joins(e: Link, a: usize, b: usize) -> bool {
    (e.a == a && e.b == b) || (e.a == b && e.b == a)
}

/// The edges that were added with `a` as their first end, newest first, each
/// as the other end and the weight.
pub open spec fn edges_from(edges: Seq<Link>, a: usize) -> Seq<(usize, usize)>
    decreases edges.len(),
{
    if edges.len() == 0 {
        Seq::empty()
    } else if edges.last().a == a {
        seq![(edges.last().b, edges.last().weight)] + edges_from(edges.drop_last(), a)
    } else {
        edges_from(edges.drop_last(), a)
    }
}

/// The edges that were added with `a` as their second end and another node
/// as their first, newest first, each as the other end and the weight.
pub open spec fn edges_to(edges: Seq<Link>, a: usize) -> Seq<(usize, usize)>
    decreases edges.len(),
{
    if edges.len() == 0 {
        Seq::empty()
    } else if edges.last().b == a && edges.last().a != a {
        seq![(edges.last().a, edges.last().weight)] + edges_to(edges.drop_last(), a)
    } else {
        edges_to(edges.drop_last(), a)
    }
}

/// The edges at node `a` in the order in which the store walks them.
pub open spec fn incident(edges: Seq<Link>, a: usize) -> Seq<(usize, usize)> {
    edges_from(edges, a) + edges_to(edges, a)
}

/// Every node that `incident` names is an end of an edge.
pub proof fn lemma_incident_in_range(edges: Seq<Link>, a: usize, n: nat)
    requires
        forall|i: int| 0 <= i < edges.len() ==> (#[trigger] edges[i]).a < n && edges[i].b < n,
    ensures
        forall|k: int| 0 <= k < incident(edges, a).len() ==> (#[trigger] incident(edges, a)[k]).0 < n,
{
    lemma_edges_in_range(edges, a, n);
}

proof fn lemma_edges_in_range(edges: Seq<Link>, a: usize, n: nat)
    requires
        forall|i: int| 0 <= i < edges.len() ==> (#[trigger] edges[i]).a < n && edges[i].b < n,
    ensures
        forall|k: int| 0 <= k < edges_from(edges, a).len() ==> (#[trigger] edges_from(edges, a)[k]).0 < n,
        forall|k: int| 0 <= k < edges_to(edges, a).len() ==> (#[trigger] edges_to(edges, a)[k]).0 < n,
    decreases edges.len(),
{
    if edges.len() > 0 {
        let rest = edges.drop_last();
        assert forall|i: int| 0 <= i < rest.len() implies (#[trigger] rest[i]).a < n && rest[i].b
            < n by {
            assert(rest[i] == edges[i]);
        }
        lemma_edges_in_range(rest, a, n);
        let last = edges[edges.len() - 1];
        assert(edges.last() == last);
        let f = edges_from(edges, a);
        let fr = edges_from(rest, a);
        assert forall|k: int| 0 <= k < f.len() implies (#[trigger] f[k]).0 < n by {
            if last.a == a {
                if k > 0 {
                    assert(f[k] == fr[k - 1]);
                }
            }
        }
        let t = edges_to(edges, a);
        let tr = edges_to(rest, a);
        assert forall|k: int| 0 <= k < t.len() implies (#[trigger] t[k]).0 < n by {
            if last.b == a && last.a != a {
                if k > 0 {
                    assert(t[k] == tr[k - 1]);
                }
            }
        }
    }
}

/// `Graph::new_undirected`: a store without nodes or edges.
#[verifier::external_body]
pub(crate) fn graph_new() -> (g: Store)
    ensures
        graph_nodes(g) == Seq::<NodeModel>::empty(),
        graph_edges(g) == Seq::<Link>::empty(),
{
    Store { inner: petgraph::graph::UnGraph::<NodeData, usize>::new_undirected() }
}

/// `Graph::node_count`: the number of nodes.
#[verifier::external_body]
pub(crate) fn graph_node_count(g: &Store) -> (n: usize)
    ensures
        n == graph_nodes(*g).len(),
{
    g.inner.node_count()
}

/// `Graph::edge_count`: the number of edges.
#[verifier::external_body]
pub(crate) fn graph_edge_count(g: &Store) -> (n: usize)
    ensures
        n == graph_edges(*g).len(),
{
    g.inner.edge_count()
}

/// `Graph::add_node`: appends a node and returns its index, leaving the
/// edges alone. The store panics when it already holds `u32::MAX` nodes.
#[verifier::external_body]
pub(crate) fn graph_add_node(
    g: &mut Store,
    data: NodeData,
) -> (i: usize)
    requires
        graph_nodes(*old(g)).len() < u32::MAX,
    ensures
        graph_nodes(*final(g)) == graph_nodes(*old(g)).push(data@),
        graph_edges(*final(g)) == graph_edges(*old(g)),
        i == graph_nodes(*old(g)).len(),
{
    g.inner.add_node(data).index()
}

/// `Graph::add_edge`: appends an edge from `a` to `b` and returns its index,
/// leaving the nodes alone. The store panics when an end is not a node or
/// when it already holds `u32::MAX` edges.
#[verifier::external_body]
pub(crate) fn graph_add_edge(
    g: &mut Store,
    a: usize,
    b: usize,
    weight: usize,
) -> (e: usize)
    requires
        a < graph_nodes(*old(g)).len(),
        b < graph_nodes(*old(g)).len(),
        graph_nodes(*old(g)).len() <= u32::MAX,
        graph_edges(*old(g)).len() < u32::MAX,
    ensures
        graph_nodes(*final(g)) == graph_nodes(*old(g)),
        graph_edges(*final(g)) == graph_edges(*old(g)).push(Link { a, b, weight }),
        e == graph_edges(*old(g)).len(),
{
    g.inner.add_edge(petgraph::graph::NodeIndex::new(a), petgraph::graph::NodeIndex::new(b), weight).index()
}

/// `Graph::find_edge`: the index of an edge that joins `a` and `b` in
/// either direction, or nothing when no edge joins them.
#[verifier::external_body]
pub(crate) fn graph_find_edge(
    g: &Store,
    a: usize,
    b: usize,
) -> (r: Option<usize>)
    requires
        a <= u32::MAX,
        b <= u32::MAX,
    ensures
        r is Some ==> r.unwrap() < graph_edges(*g).len() && joins(
            graph_edges(*g)[r.unwrap() as int],
            a,
            b,
        ),
        r is None ==> forall|i: int|
            0 <= i < graph_edges(*g).len() ==> !joins(#[trigger] graph_edges(*g)[i], a, b),
{
    g.inner.find_edge(petgraph::graph::NodeIndex::new(a), petgraph::graph::NodeIndex::new(b)).map(
        |e| e.index(),
    )
}

/// `Graph::contains_edge`: whether some edge joins `a` and `b` in either
/// direction.
#[verifier::external_body]
pub(crate) fn graph_contains_edge(
    g: &Store,
    a: usize,
    b: usize,
) -> (r: bool)
    requires
        a <= u32::MAX,
        b <= u32::MAX,
    ensures
        r <==> (exists|i: int|
            0 <= i < graph_edges(*g).len() && joins(#[trigger] graph_edges(*g)[i], a, b)),
{
    g.inner.contains_edge(petgraph::graph::NodeIndex::new(a), petgraph::graph::NodeIndex::new(b))
}

/// Indexing a store by a node index: the node's data. The store panics when
/// the index is not a node.
#[verifier::external_body]
pub(crate) fn graph_node(g: &Store, a: usize) -> (r: &NodeData)
    requires
        a < graph_nodes(*g).len(),
        graph_nodes(*g).len() <= u32::MAX,
    ensures
        r@ == graph_nodes(*g)[a as int],
{
    &g.inner[petgraph::graph::NodeIndex::new(a)]
}

/// `Graph::edge_weight`: the weight of the edge with index `e`.
#[verifier::external_body]
pub(crate) fn graph_edge_weight(g: &Store, e: usize) -> (r:
    Option<usize>)
    requires
        e <= u32::MAX,
    ensures
        r == (if e < graph_edges(*g).len() {
            Some(graph_edges(*g)[e as int].weight)
        } else {
            None
        }),
{
    g.inner.edge_weight(petgraph::graph::EdgeIndex::new(e)).copied()
}

/// `Graph::edge_weight_mut`, written through: gives the edge with index `e`
/// the weight `weight` and leaves everything else alone.
#[verifier::external_body]
pub(crate) fn graph_set_edge_weight(
    g: &mut Store,
    e: usize,
    weight: usize,
)
    requires
        e < graph_edges(*old(g)).len(),
        graph_edges(*old(g)).len() <= u32::MAX,
    ensures
        graph_nodes(*final(g)) == graph_nodes(*old(g)),
        graph_edges(*final(g)) == graph_edges(*old(g)).update(
            e as int,
            Link { weight, ..graph_edges(*old(g))[e as int] },
        ),
{
    if let Some(w) = g.inner.edge_weight_mut(petgraph::graph::EdgeIndex::new(e)) {
        *w = weight;
    }
}

/// `Graph::edges`: the edges at node `a`, each as the node at its other end
/// and its weight. The store walks first the edges added with `a` as first
/// end, then those added with `a` as second end, the newest first in both,
/// and gives an edge from `a` to itself once.
#[verifier::external_body]
pub(crate) fn graph_edges_of(g: &Store, a: usize) -> (r: Vec<
    (usize, usize),
>)
    requires
        a <= u32::MAX,
    ensures
        r@ == incident(graph_edges(*g), a),
{
    g.inner.edges(petgraph::graph::NodeIndex::new(a)).map(
        |e| (petgraph::visit::EdgeRef::target(&e).index(), *e.weight()),
    ).collect()
}

} // verus!
