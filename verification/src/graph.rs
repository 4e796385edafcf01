//! The read-only view of the handle graph that the search consumes.
//!
//! The search needs three queries over a [`handlegraph::hashgraph::HashGraph`]:
//! whether a node id is present, the right-hand out-degree of a node's
//! forward handle, and the ids of its right-hand neighbors.  Those queries
//! live behind trusted wrappers here; everything above them is verified
//! against the spec-level adjacency [`adj`].
//!
//! Two conventions keep the verified code total where the underlying crate
//! would panic: a node id that does not fit in a forward handle (63 bits),
//! or that the graph does not hold, has no successors and out-degree zero.

use vstd::prelude::*;

use handlegraph::handle::{Direction, Handle};
use handlegraph::handlegraph::{handle_edges_iter, HandleGraph};
use handlegraph::hashgraph::HashGraph;

verus! {

#[verifier::external_type_specification]
#[verifier::external_body]
pub struct ExHashGraph(HashGraph);

/// Whether the graph holds a node with this id; names the result of
/// `HashGraph::has_node`.
pub uninterp spec fn node_in(g: HashGraph, nid: u64) -> bool;

/// The ids of the right-hand neighbors of the forward handle of `nid`, in
/// the graph's stored edge order; names the sequence that
/// `handle_edges_iter` yields for a node the graph holds.
pub uninterp spec fn right_nbrs(g: HashGraph, nid: u64) -> Seq<u64>;

/// Node ids above this cannot be packed into a forward handle.
pub const HANDLE_ID_LIMIT: u64 = 0x8000_0000_0000_0000;

/// The id fits in a forward handle.
pub open spec fn handle_ok(nid: u64) -> bool {
    nid < HANDLE_ID_LIMIT
}

/// Right-adjacency as the search sees it: ids the graph does not hold, or
/// that no handle can carry, have no successors.
pub open spec fn adj(g: HashGraph, nid: u64) -> Seq<u64> {
    if handle_ok(nid) && node_in(g, nid) {
        right_nbrs(g, nid)
    } else {
        Seq::empty()
    }
}

/// Relies on `HashGraph::has_node`: presence of `nid` in the node table.
#[verifier::external_body]
fn raw_has_node(g: &HashGraph, nid: u64) -> (r: bool)
    ensures
        r == node_in(*g, nid),
{
    g.has_node(nid.into())
}

/// Relies on `HashGraph::degree`: for a forward handle and
/// `Direction::Right` it returns the length of the node's right edge list,
/// the same list `handle_edges_iter` walks.  Panics on an absent node, so
/// presence is required.
#[verifier::external_body]
fn raw_right_degree(g: &HashGraph, nid: u64) -> (d: usize)
    requires
        handle_ok(nid),
        node_in(*g, nid),
    ensures
        d == right_nbrs(*g, nid).len(),
{
    g.degree(Handle::pack(nid, false), Direction::Right)
}

/// Relies on `handle_edges_iter`: for a forward handle and
/// `Direction::Right` it yields the node's right edge list in stored
/// order.  Panics on an absent node, so presence is required.
#[verifier::external_body]
fn raw_right_neighbors(g: &HashGraph, nid: u64) -> (v: Vec<u64>)
    requires
        handle_ok(nid),
        node_in(*g, nid),
    ensures
        v@ == right_nbrs(*g, nid),
{
    handle_edges_iter(g, Handle::pack(nid, false), Direction::Right)
        .map(|h| u64::from(h.id()))
        .collect()
}

/// Relies on the public node table of `HashGraph`: its keys are exactly
/// the ids `has_node` answers for.  The order of the returned ids is
/// whatever the table's iterator gives and is not specified.
#[verifier::external_body]
pub(crate) fn graph_node_ids(g: &HashGraph) -> (v: Vec<u64>)
    ensures
        forall|x: u64| v@.contains(x) <==> node_in(*g, x),
{
    g.graph.keys().map(|k| u64::from(*k)).collect()
}

/// The right-hand out-degree of `nid`, zero for ids the graph does not
/// hold.
pub fn graph_right_degree(g: &HashGraph, nid: u64) -> (d: usize)
    ensures
        d == adj(*g, nid).len(),
{
    if nid < HANDLE_ID_LIMIT && raw_has_node(g, nid) {
        raw_right_degree(g, nid)
    } else {
        0
    }
}

/// The ids of the right-hand neighbors of `nid`, empty for ids the graph
/// does not hold.
pub fn graph_right_neighbors(g: &HashGraph, nid: u64) -> (v: Vec<u64>)
    ensures
        v@ == adj(*g, nid),
{
    if nid < HANDLE_ID_LIMIT && raw_has_node(g, nid) {
        raw_right_neighbors(g, nid)
    } else {
        Vec::new()
    }
}

} // verus!
