//! Trusted interface to the `daggy` crate: an acyclic graph whose node weights
//! are system identifiers and whose edges carry no weight.
use vstd::prelude::*;
use crate::paths::{acyclic, connected};

verus! {

/// A `daggy::Dag` with `u64` node weights and unit edge weights. Verus sees
/// nothing inside it; what it holds is named by `graph_nodes` and
/// `graph_edges`.
#[verifier::external_body]
pub struct DaggyGraph {
    inner: daggy::Dag<u64, ()>,
}

/// The node weights of the graph, in the order of their node indices.
pub uninterp spec fn graph_nodes(g: DaggyGraph) -> Seq<u64>;

/// The edges of the graph, in the order of their edge indices, each given as
/// the pair of the weights of its source and target nodes.
pub uninterp spec fn graph_edges(g: DaggyGraph) -> Seq<(u64, u64)>;

/// Creates an empty graph with `daggy::Dag::new`.
#[verifier::external_body]
pub(crate) fn graph_new() -> (g: DaggyGraph)
    ensures
        graph_nodes(g) == Seq::<u64>::empty(),
        graph_edges(g) == Seq::<(u64, u64)>::empty(),
{
    DaggyGraph { inner: daggy::Dag::new() }
}

/// Adds a node of weight `weight` with `daggy::Dag::add_node`, which returns
/// the next free node index. The node index type is `u32`, whose largest value
/// `add_node` refuses with a panic; `requires` leaves that case out.
#[verifier::external_body]
pub(crate) fn graph_add_node(g: &mut DaggyGraph, weight: u64) -> (index: usize)
    requires
        graph_nodes(*old(g)).len() < 0xffff_ffff,
    ensures
        index == graph_nodes(*old(g)).len(),
        graph_nodes(*final(g)) == graph_nodes(*old(g)).push(weight),
        graph_edges(*final(g)) == graph_edges(*old(g)),
{
    g.inner.add_node(weight).index()
}

/// Adds the edge from node `a` to node `b` with `daggy::Dag::add_edge`, and
/// tells whether it was added. `add_edge` refuses the edge, and leaves the
/// graph unchanged, exactly when `a` can be reached from `b` (when
/// `a == b` too): its shortcut cases skip that search only where no such walk
/// can exist in an acyclic graph. With distinct node weights, reachability
/// between node indices is reachability between their weights. An accepted
/// edge is appended at the next edge index. `add_edge` panics on indices that
/// name no node and when the `u32` edge index is exhausted.
#[verifier::external_body]
pub(crate) fn graph_add_edge(g: &mut DaggyGraph, a: usize, b: usize) -> (added: bool)
    requires
        a < graph_nodes(*old(g)).len(),
        b < graph_nodes(*old(g)).len(),
        graph_nodes(*old(g)).no_duplicates(),
        acyclic(graph_edges(*old(g))),
        graph_edges(*old(g)).len() < 0xffff_ffff,
    ensures
        graph_nodes(*final(g)) == graph_nodes(*old(g)),
        added == !connected(
            graph_edges(*old(g)),
            graph_nodes(*old(g))[b as int],
            graph_nodes(*old(g))[a as int],
        ),
        added ==> graph_edges(*final(g)) == graph_edges(*old(g)).push(
            (graph_nodes(*old(g))[a as int], graph_nodes(*old(g))[b as int]),
        ),
        !added ==> graph_edges(*final(g)) == graph_edges(*old(g)),
{
    let a = daggy::NodeIndex::new(a);
    let b = daggy::NodeIndex::new(b);
    g.inner.add_edge(a, b, ()).is_ok()
}

/// The number of edges, from `daggy::Dag::edge_count`.
#[verifier::external_body]
pub(crate) fn graph_edge_count(g: &DaggyGraph) -> (count: usize)
    ensures
        count == graph_edges(*g).len(),
{
    g.inner.edge_count()
}

/// The node indices of the source and target of edge `i`, from
/// `daggy::Dag::edge_endpoints`, which answers `Some` for every index below the
/// edge count.
#[verifier::external_body]
pub(crate) fn graph_edge_endpoints(g: &DaggyGraph, i: usize) -> (ends: (usize, usize))
    requires
        i < graph_edges(*g).len(),
    ensures
        ends.0 < graph_nodes(*g).len(),
        ends.1 < graph_nodes(*g).len(),
        graph_nodes(*g)[ends.0 as int] == graph_edges(*g)[i as int].0,
        graph_nodes(*g)[ends.1 as int] == graph_edges(*g)[i as int].1,
{
    let (a, b) = g.inner.edge_endpoints(daggy::EdgeIndex::new(i)).unwrap();
    (a.index(), b.index())
}

} // verus!
