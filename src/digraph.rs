use vstd::prelude::*;
use petgraph::graph::{Graph, NodeIndex};
use petgraph::Directed;
use crate::store::GraphStore;

verus! {

#[verifier::external_type_specification]
#[verifier::external_body]
pub struct ExDirected(petgraph::Directed);

#[verifier::external_type_specification]
#[verifier::external_body]
#[verifier::reject_recursive_types(N)]
#[verifier::reject_recursive_types(E)]
#[verifier::reject_recursive_types(Ty)]
#[verifier::reject_recursive_types(Ix)]
pub struct ExGraph<N, E, Ty, Ix>(petgraph::graph::Graph<N, E, Ty, Ix>);

/// The edges of a petgraph directed graph, as (source, target) node
/// numbers in order of insertion.
pub uninterp spec fn digraph_edges(g: Graph<(), (), Directed, u32>) -> Seq<(usize, usize)>;

/// The number of nodes of a petgraph directed graph.
pub uninterp spec fn digraph_node_count(g: Graph<(), (), Directed, u32>) -> nat;

/// Relies on petgraph's `Graph::new`: the new graph has no nodes and no edges.
#[verifier::external_body]
fn new_digraph() -> (g: Graph<(), (), Directed, u32>)
    ensures
        digraph_node_count(g) == 0,
        digraph_edges(g) == Seq::<(usize, usize)>::empty(),
{
    Graph::new()
}

/// Relies on petgraph's `Graph::add_node`: the new node is numbered by the
/// count of nodes before it, and edges are untouched. It panics only when
/// that count is `u32::MAX`.
#[verifier::external_body]
fn digraph_add_node(g: &mut Graph<(), (), Directed, u32>) -> (r: usize)
    requires
        digraph_node_count(*old(g)) < u32::MAX,
    ensures
        r == digraph_node_count(*old(g)),
        digraph_node_count(*final(g)) == digraph_node_count(*old(g)) + 1,
        digraph_edges(*final(g)) == digraph_edges(*old(g)),
{
    g.add_node(()).index()
}

/// Relies on petgraph's `Graph::add_edge`: the edge from `a` to `b` is
/// appended, parallel edges kept, and nodes are untouched. It panics only
/// when a node does not exist or the edge count is `u32::MAX`.
#[verifier::external_body]
fn digraph_add_edge(g: &mut Graph<(), (), Directed, u32>, a: usize, b: usize)
    requires
        a < digraph_node_count(*old(g)),
        b < digraph_node_count(*old(g)),
        digraph_edges(*old(g)).len() < u32::MAX,
    ensures
        digraph_node_count(*final(g)) == digraph_node_count(*old(g)),
        digraph_edges(*final(g)) == digraph_edges(*old(g)).push((a, b)),
{
    g.add_edge(NodeIndex::new(a), NodeIndex::new(b), ());
}

impl GraphStore {
    /// The store as a petgraph directed graph: node `i` is entity `i`, and
    /// edge `e` is relationship `e`, parallel relationships included.
    pub fn to_digraph(&self) -> (g: Graph<(), (), Directed, u32>)
        requires
            self.wf(),
            self.names().len() < u32::MAX,
            self.relationships().len() < u32::MAX,
        ensures
            digraph_node_count(g) == self.names().len(),
            digraph_edges(g) == self.relationships(),
    {
        let mut g = new_digraph();
        let n = self.entity_count();
        let mut i: usize = 0;
        while i < n
            invariant
                n == self.names().len(),
                n < u32::MAX,
                i <= n,
                digraph_node_count(g) == i,
                digraph_edges(g) == Seq::<(usize, usize)>::empty(),
            decreases n - i,
        {
            digraph_add_node(&mut g);
            i = i + 1;
        }
        let m = self.relationship_count();
        let mut e: usize = 0;
        while e < m
            invariant
                self.wf(),
                n == self.names().len(),
                m == self.relationships().len(),
                m < u32::MAX,
                e <= m,
                digraph_node_count(g) == n,
                digraph_edges(g) == self.relationships().take(e as int),
            decreases m - e,
        {
            let (a, b) = self.relationship(e);
            proof {
                assert(self.relationships().take(e + 1) =~= self.relationships().take(
                    e as int,
                ).push((a, b)));
            }
            digraph_add_edge(&mut g, a, b);
            e = e + 1;
        }
        proof {
            assert(self.relationships().take(m as int) =~= self.relationships());
        }
        g
    }
}

} // verus!
