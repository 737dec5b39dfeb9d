//! Trusted boundary around the directed-graph container.
//!
//! The graph store itself comes from the `petgraph` crate; everything the
//! rest of the library knows about it is stated here, over the ghost map
//! [`graph_edges`] from directed edges to their cached weights.

use petgraph::graphmap::DiGraphMap;
use petgraph::Direction;
use vstd::prelude::*;

verus! {

/// A directed graph over `u32` node ids with one `u32` weight per edge.
///
/// Nodes exist only implicitly, as endpoints of edges; there are no
/// parallel edges, and self loops are allowed.
#[verifier::external_body]
pub struct DirGraph {
    inner: DiGraphMap<u32, u32>,
}

/// The contents of a [`DirGraph`]: the map from each present directed
/// edge `(source, destination)` to its weight.
pub uninterp spec fn graph_edges(g: DirGraph) -> Map<(u32, u32), u32>;

/// The contents of a graph with no edges.
pub open spec fn no_edges() -> Map<(u32, u32), u32> {
    Map::empty()
}

impl DirGraph {
    /// Relies on petgraph's `GraphMap::new`: a graph with no edges.
    #[verifier::external_body]
    pub(crate) fn empty() -> (g: DirGraph)
        ensures
            graph_edges(g) == no_edges(),
    {
        DirGraph { inner: DiGraphMap::new() }
    }

    /// Relies on petgraph's `GraphMap::add_edge`: inserts the directed edge
    /// `(a, b)` with weight `w`, overwriting the weight if the edge exists.
    #[verifier::external_body]
    pub(crate) fn set_edge(&mut self, a: u32, b: u32, w: u32)
        ensures
            graph_edges(*final(self)) == graph_edges(*old(self)).insert((a, b), w),
    {
        self.inner.add_edge(a, b, w);
    }

    /// Relies on petgraph's `GraphMap::contains_edge`: whether the directed
    /// edge `(a, b)` is present.
    #[verifier::external_body]
    pub(crate) fn has_edge(&self, a: u32, b: u32) -> (r: bool)
        ensures
            r == graph_edges(*self).dom().contains((a, b)),
    {
        self.inner.contains_edge(a, b)
    }

    /// Relies on petgraph's `GraphMap::edge_weight`: the weight of the
    /// directed edge `(a, b)`, if that edge is present.
    #[verifier::external_body]
    pub(crate) fn edge_weight(&self, a: u32, b: u32) -> (r: Option<u32>)
        ensures
            match r {
                Some(w) => graph_edges(*self).dom().contains((a, b)) && graph_edges(*self)[(a, b)]
                    == w,
                None => !graph_edges(*self).dom().contains((a, b)),
            },
    {
        self.inner.edge_weight(a, b).copied()
    }

    /// Relies on petgraph's `GraphMap::edges_directed` with the outgoing
    /// direction: every successor of `n`, exactly once, paired with the
    /// weight of the edge that leads to it; the order is unspecified.
    #[verifier::external_body]
    pub(crate) fn out_edges(&self, n: u32) -> (r: Vec<(u32, u32)>)
        ensures
            forall|i: int, j: int|
                0 <= i < j < r@.len() ==> (#[trigger] r@[i]).0 != (#[trigger] r@[j]).0,
            forall|i: int|
                0 <= i < r@.len() ==> graph_edges(*self).dom().contains((n, (#[trigger] r@[i]).0))
                    && r@[i].1 == graph_edges(*self)[(n, r@[i].0)],
            forall|m: u32|
                #[trigger] graph_edges(*self).dom().contains((n, m)) ==> exists|i: int|
                    0 <= i < r@.len() && (#[trigger] r@[i]).0 == m,
    {
        self.inner.edges_directed(n, Direction::Outgoing).map(|(_, t, w)| (t, *w)).collect()
    }

    /// Relies on petgraph's `GraphMap::neighbors_directed` with the incoming
    /// direction: every predecessor of `n`, exactly once, in an unspecified
    /// order.
    #[verifier::external_body]
    pub(crate) fn in_neighbors(&self, n: u32) -> (r: Vec<u32>)
        ensures
            forall|i: int, j: int|
                0 <= i < j < r@.len() ==> (#[trigger] r@[i]) != (#[trigger] r@[j]),
            forall|i: int|
                0 <= i < r@.len() ==> graph_edges(*self).dom().contains(((#[trigger] r@[i]), n)),
            forall|m: u32|
                #[trigger] graph_edges(*self).dom().contains((m, n)) ==> r@.contains(m),
    {
        self.inner.neighbors_directed(n, Direction::Incoming).collect()
    }
}

/// The nodes that occur as an endpoint of some edge of `m`.
pub open spec fn graph_nodes(m: Map<(u32, u32), u32>) -> Set<u32> {
    Set::new(
        |x: u32|
            exists|y: u32|
                #![trigger m.dom().contains((x, y))]
                #![trigger m.dom().contains((y, x))]
                m.dom().contains((x, y)) || m.dom().contains((y, x)),
    )
}

} // verus!
