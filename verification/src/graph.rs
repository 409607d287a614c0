use vstd::prelude::*;
use vstd::laws_eq::obeys_view_eq;

use crate::index::{EdgeIndex, NodeIndex};

verus! {

/// The outgoing neighbors of node `a` among the first `n` edges: for each
/// edge `(a, b)` with index `e`, the pair `(b, e)`, in edge order.
pub open spec fn out_list(edges: Seq<(NodeIndex, NodeIndex)>, a: usize, n: nat) -> Seq<(NodeIndex, EdgeIndex)>
    decreases n,
{
    if n == 0 {
        Seq::empty()
    } else {
        let rest = out_list(edges, a, (n - 1) as nat);
        let k = (n - 1) as int;
        if edges[k].0.0 == a {
            rest.push((edges[k].1, EdgeIndex(k as usize)))
        } else {
            rest
        }
    }
}

/// The incoming neighbors of node `b` among the first `n` edges: for each
/// edge `(a, b)` with `a != b` and index `e`, the pair `(a, e)`, in edge
/// order. A self-loop is only an outgoing edge.
pub open spec fn in_list(edges: Seq<(NodeIndex, NodeIndex)>, b: usize, n: nat) -> Seq<(NodeIndex, EdgeIndex)>
    decreases n,
{
    if n == 0 {
        Seq::empty()
    } else {
        let rest = in_list(edges, b, (n - 1) as nat);
        let k = (n - 1) as int;
        if edges[k].1.0 == b && edges[k].0.0 != b {
            rest.push((edges[k].0, EdgeIndex(k as usize)))
        } else {
            rest
        }
    }
}

/// What a node type needs: a total order and a hash.
pub trait NodeTrait: Ord + std::hash::Hash {}

impl<N: Ord + std::hash::Hash> NodeTrait for N {}

/// Which way edges are followed from a node.
#[derive(Copy, Clone, Debug, PartialEq, Eq, Structural, PartialOrd, Ord, Hash)]
pub enum Direction {
    Outgoing,
    Incoming,
}

/// What every graph can tell: how many nodes and edges it has.
pub trait GraphBase {
    /// The node type.
    type Node;

    /// The edge data.
    type Edge;

    /// The number of nodes.
    spec fn node_count_spec(&self) -> nat;

    /// The number of edges.
    spec fn edge_count_spec(&self) -> nat;

    /// Returns the number of nodes in the graph.
    fn node_count(&self) -> (r: usize)
        ensures
            r == self.node_count_spec(),
    ;

    /// Returns the number of edges in the graph.
    fn edge_count(&self) -> (r: usize)
        ensures
            r == self.edge_count_spec(),
    ;
}

/// The neighbors of a node.
pub struct NodeNeighbors {
    /// Incoming edges: the source node and the edge index.
    pub incoming: Vec<(NodeIndex, EdgeIndex)>,
    /// Outgoing edges: the target node and the edge index.
    pub outgoing: Vec<(NodeIndex, EdgeIndex)>,
}

/// Directed graph. Nodes are unique and keep the index they were added
/// with; so do edges, which are unique by their pair of endpoints.
pub struct Graph<N, E> {
    nodes: Vec<N>,
    neighbors: Vec<NodeNeighbors>,
    edges: Vec<(NodeIndex, NodeIndex)>,
    weights: Vec<E>,
}

impl<N, E> Graph<N, E> {
    /// The nodes, by index.
    pub closed spec fn spec_nodes(&self) -> Seq<N> {
        self.nodes@
    }

    /// The endpoints of the edges, by edge index.
    pub closed spec fn spec_edges(&self) -> Seq<(NodeIndex, NodeIndex)> {
        self.edges@
    }

    /// The edge weights, by edge index.
    pub closed spec fn spec_weights(&self) -> Seq<E> {
        self.weights@
    }

    /// The outgoing neighbors of node `i`, as stored.
    pub closed spec fn spec_outgoing(&self, i: int) -> Seq<(NodeIndex, EdgeIndex)> {
        self.neighbors@[i].outgoing@
    }

    /// The incoming neighbors of node `i`, as stored.
    pub closed spec fn spec_incoming(&self, i: int) -> Seq<(NodeIndex, EdgeIndex)> {
        self.neighbors@[i].incoming@
    }

    /// Whether `(a, b)` is an edge.
    pub open spec fn has_edge(&self, a: int, b: int) -> bool {
        exists|e: int| 0 <= e < self.spec_edges().len() && self.spec_edges()[e] == (NodeIndex(a as usize), NodeIndex(b as usize))
    }

    /// The invariant of the graph.
    pub open spec fn wf(&self) -> bool {
        let nodes = self.spec_nodes();
        let edges = self.spec_edges();
        &&& nodes.len() < usize::MAX
        &&& edges.len() < usize::MAX
        &&& self.spec_weights().len() == edges.len()
        &&& forall|i: int, j: int| 0 <= i < j < nodes.len() ==> nodes[i] != nodes[j]
        &&& forall|i: int, j: int| 0 <= i < j < edges.len() ==> edges[i] != edges[j]
        &&& forall|e: int| 0 <= e < edges.len() ==> (#[trigger] edges[e]).0.0 < nodes.len() && edges[e].1.0 < nodes.len()
        &&& forall|i: int| 0 <= i < nodes.len() ==> #[trigger] self.spec_outgoing(i) == out_list(edges, i as usize, edges.len())
        &&& forall|i: int| 0 <= i < nodes.len() ==> #[trigger] self.spec_incoming(i) == in_list(edges, i as usize, edges.len())
        &&& self.inner_wf()
    }

    pub closed spec fn inner_wf(&self) -> bool {
        self.neighbors@.len() == self.nodes@.len()
    }
}

/// Appending an edge leaves the neighbor lists over the old edges unchanged.
pub proof fn lemma_out_list_prefix(edges: Seq<(NodeIndex, NodeIndex)>, k: (NodeIndex, NodeIndex), a: usize, n: nat)
    requires
        n <= edges.len(),
    ensures
        out_list(edges.push(k), a, n) == out_list(edges, a, n),
        in_list(edges.push(k), a, n) == in_list(edges, a, n),
    decreases n,
{
    if n > 0 {
        lemma_out_list_prefix(edges, k, a, (n - 1) as nat);
    }
}

/// Equality of nodes whose `==` compares their views.
fn node_eq<N: PartialEq + View>(a: &N, b: &N) -> (r: bool)
    requires
        obeys_view_eq::<N>(),
    ensures
        r == (a@ == b@),
{
    proof {
        reveal(obeys_view_eq);
    }
    a == b
}

/// Calls `Vec::capacity`: how many elements the vector can hold without
/// allocating again, which is never less than its length. What the
/// allocator gave beyond that is not stated.
#[verifier::external_body]
fn vec_capacity<T>(v: &Vec<T>) -> (r: usize)
    ensures
        r >= v@.len(),
{
    v.capacity()
}

/// Node `n` is among `nodes`, up to views.
pub open spec fn has_view<N: View>(nodes: Seq<N>, v: N::V) -> bool {
    exists|i: int| 0 <= i < nodes.len() && (#[trigger] nodes[i])@ == v
}

impl<N, E> Graph<N, E> {
    /// Creates a new, empty `Graph`.
    pub fn new() -> (r: Self)
        ensures
            r.wf(),
            r.spec_nodes() == Seq::<N>::empty(),
            r.spec_edges() == Seq::<(NodeIndex, NodeIndex)>::empty(),
    {
        Graph { nodes: Vec::new(), neighbors: Vec::new(), edges: Vec::new(), weights: Vec::new() }
    }

    /// Creates a new, empty `Graph` with room for the given number of nodes
    /// and edges.
    pub fn with_capacity(nodes: usize, edges: usize) -> (r: Self)
        ensures
            r.wf(),
            r.spec_nodes() == Seq::<N>::empty(),
            r.spec_edges() == Seq::<(NodeIndex, NodeIndex)>::empty(),
    {
        Graph {
            nodes: Vec::with_capacity(nodes),
            neighbors: Vec::with_capacity(nodes),
            edges: Vec::with_capacity(edges),
            weights: Vec::with_capacity(edges),
        }
    }

    /// Returns the number of nodes in the graph.
    pub fn node_count(&self) -> (r: usize)
        ensures
            r == self.spec_nodes().len(),
    {
        self.nodes.len()
    }

    /// Returns the number of edges in the graph.
    pub fn edge_count(&self) -> (r: usize)
        ensures
            r == self.spec_edges().len(),
    {
        self.edges.len()
    }

    /// Returns how many nodes and how many edges the graph can hold
    /// without allocating again.
    pub fn capacity(&self) -> (r: (usize, usize))
        ensures
            r.0 >= self.spec_nodes().len(),
            r.1 >= self.spec_edges().len(),
    {
        (vec_capacity(&self.nodes), vec_capacity(&self.edges))
    }

    /// Removes all nodes and edges.
    pub fn clear(&mut self)
        ensures
            final(self).wf(),
            final(self).spec_nodes() == Seq::<N>::empty(),
            final(self).spec_edges() == Seq::<(NodeIndex, NodeIndex)>::empty(),
    {
        self.nodes = Vec::new();
        self.neighbors = Vec::new();
        self.edges = Vec::new();
        self.weights = Vec::new();
    }
}

impl<N, E> Default for Graph<N, E> {
    /// Creates a new, empty `Graph`.
    fn default() -> (r: Self)
        ensures
            r.wf(),
            r.spec_nodes() == Seq::<N>::empty(),
            r.spec_edges() == Seq::<(NodeIndex, NodeIndex)>::empty(),
    {
        Graph::with_capacity(0, 0)
    }
}

impl<N, E> GraphBase for Graph<N, E> {
    type Node = N;

    type Edge = E;

    open spec fn node_count_spec(&self) -> nat {
        self.spec_nodes().len()
    }

    open spec fn edge_count_spec(&self) -> nat {
        self.spec_edges().len()
    }

    fn node_count(&self) -> (r: usize) {
        Graph::node_count(self)
    }

    fn edge_count(&self) -> (r: usize) {
        Graph::edge_count(self)
    }
}

/// A graph whose nodes can be looked up by raw position.
pub trait NodeIndexable: GraphBase {
    /// Lookups are meaningful in this state of the graph.
    spec fn indexable(&self) -> bool;

    /// The node at position `i`.
    spec fn node_at(&self, i: int) -> Self::Node;

    /// Whether `a` and `b` stand for the same node.
    spec fn same_node(&self, a: Self::Node, b: Self::Node) -> bool;

    /// Converts an index to a node.
    fn from_index(&self, index: usize) -> (r: &Self::Node)
        requires
            self.indexable(),
            index < self.node_count_spec(),
        ensures
            *r == self.node_at(index as int),
    ;

    /// Converts a node to an index, if the graph has it.
    fn to_index(&self, node: &Self::Node) -> (r: Option<usize>)
        requires
            self.indexable(),
        ensures
            match r {
                Some(i) => i < self.node_count_spec() && self.same_node(self.node_at(i as int), *node),
                None => forall|i: int| 0 <= i < self.node_count_spec() ==> !self.same_node(#[trigger] self.node_at(i), *node),
            },
    ;

    /// Returns `true` if the graph has the node.
    fn contains_node(&self, n: &Self::Node) -> (r: bool)
        requires
            self.indexable(),
        ensures
            r == exists|i: int| 0 <= i < self.node_count_spec() && self.same_node(#[trigger] self.node_at(i), *n),
    {
        self.to_index(n).is_some()
    }
}

impl<N: View, E> Graph<N, E> {
    /// No two nodes have the same view.
    pub open spec fn views_distinct(&self) -> bool {
        forall|i: int, j: int| 0 <= i < j < self.spec_nodes().len() ==> (#[trigger] self.spec_nodes()[i])@ != (#[trigger] self.spec_nodes()[j])@
    }
}

impl<N: PartialEq + View, E> Graph<N, E> {
    /// Converts a node to its index, if the graph has a node equal to it.
    pub fn node_to_index(&self, node: &N) -> (r: Option<NodeIndex>)
        requires
            self.wf(),
            obeys_view_eq::<N>(),
        ensures
            match r {
                Some(i) => i.0 < self.spec_nodes().len() && self.spec_nodes()[i.0 as int]@ == node@,
                None => !has_view(self.spec_nodes(), node@),
            },
    {
        let mut i: usize = 0;
        while i < self.nodes.len()
            invariant
                i <= self.nodes@.len(),
                obeys_view_eq::<N>(),
                forall|j: int| 0 <= j < i ==> (#[trigger] self.nodes@[j])@ != node@,
            decreases self.nodes@.len() - i,
        {
            if node_eq(&self.nodes[i], node) {
                return Some(NodeIndex(i));
            }
            i = i + 1;
        }
        None
    }

    /// Returns `true` if the graph has a node equal to `node`.
    pub fn contains_node(&self, node: &N) -> (r: bool)
        requires
            self.wf(),
            obeys_view_eq::<N>(),
        ensures
            r == has_view(self.spec_nodes(), node@),
    {
        self.node_to_index(node).is_some()
    }

    /// Adds node `n` to the graph and returns its index. If the graph
    /// already has a node equal to `n`, that node keeps its index and the
    /// graph is unchanged.
    pub fn add_node(&mut self, n: N) -> (r: NodeIndex)
        requires
            old(self).wf(),
            old(self).views_distinct(),
            obeys_view_eq::<N>(),
            old(self).spec_nodes().len() + 1 < usize::MAX,
        ensures
            final(self).wf(),
            final(self).views_distinct(),
            final(self).spec_nodes() == if has_view(old(self).spec_nodes(), n@) {
                old(self).spec_nodes()
            } else {
                old(self).spec_nodes().push(n)
            },
            r.0 < final(self).spec_nodes().len(),
            final(self).spec_nodes()[r.0 as int]@ == n@,
            !has_view(old(self).spec_nodes(), n@) ==> r.0 == old(self).spec_nodes().len(),
            final(self).spec_edges() == old(self).spec_edges(),
            final(self).spec_weights() == old(self).spec_weights(),
    {
        match self.node_to_index(&n) {
            Some(i) => {
                proof {
                    assert(has_view(self.spec_nodes(), n@));
                }
                i
            },
            None => {
                let index = self.nodes.len();
                let ghost old_self = *self;
                self.nodes.push(n);
                self.neighbors.push(NodeNeighbors { incoming: Vec::new(), outgoing: Vec::new() });
                proof {
                    let edges = self.spec_edges();
                    assert forall|e: int| 0 <= e < edges.len() implies !(edges[e].0.0 == index) && !(edges[e].1.0 == index) by {
                        assert(old_self.spec_edges()[e] == edges[e]);
                    }
                    lemma_lists_without_node(edges, index, edges.len());
                    assert forall|i: int| 0 <= i < self.spec_nodes().len() implies #[trigger] self.spec_outgoing(i) == out_list(edges, i as usize, edges.len()) by {
                        if i < index {
                            assert(self.spec_outgoing(i) == old_self.spec_outgoing(i));
                        }
                    }
                    assert forall|i: int| 0 <= i < self.spec_nodes().len() implies #[trigger] self.spec_incoming(i) == in_list(edges, i as usize, edges.len()) by {
                        if i < index {
                            assert(self.spec_incoming(i) == old_self.spec_incoming(i));
                        }
                    }
                    assert forall|i: int, j: int| 0 <= i < j < self.spec_nodes().len() implies (#[trigger] self.spec_nodes()[i])@ != (#[trigger] self.spec_nodes()[j])@ by {
                        assert(old_self.spec_nodes()[i] == self.spec_nodes()[i]);
                        if j < index {
                            assert(old_self.spec_nodes()[j] == self.spec_nodes()[j]);
                        }
                    }
                    assert forall|i: int, j: int| 0 <= i < j < self.spec_nodes().len() implies self.spec_nodes()[i] != self.spec_nodes()[j] by {
                        assert(self.spec_nodes()[i]@ != self.spec_nodes()[j]@);
                    }
                }
                NodeIndex(index)
            },
        }
    }
}


impl<N: PartialEq + View, E> NodeIndexable for Graph<N, E> {
    open spec fn indexable(&self) -> bool {
        self.wf() && obeys_view_eq::<N>()
    }

    open spec fn node_at(&self, i: int) -> N {
        self.spec_nodes()[i]
    }

    open spec fn same_node(&self, a: N, b: N) -> bool {
        a@ == b@
    }

    fn from_index(&self, index: usize) -> (r: &N) {
        self.node_from_index(NodeIndex(index))
    }

    fn to_index(&self, node: &N) -> (r: Option<usize>) {
        match self.node_to_index(node) {
            Some(i) => Some(i.0),
            None => None,
        }
    }
}

impl<N, E> Graph<N, E> {
    /// Converts an edge to its index, if it is in the graph.
    pub fn edge_to_index(&self, edge: &(NodeIndex, NodeIndex)) -> (r: Option<EdgeIndex>)
        requires
            self.wf(),
        ensures
            match r {
                Some(e) => e.0 < self.spec_edges().len() && self.spec_edges()[e.0 as int] == *edge,
                None => !self.spec_edges().contains(*edge),
            },
    {
        let mut i: usize = 0;
        while i < self.edges.len()
            invariant
                i <= self.edges@.len(),
                forall|j: int| 0 <= j < i ==> self.edges@[j] != *edge,
            decreases self.edges@.len() - i,
        {
            let k = self.edges[i];
            if k.0.0 == edge.0.0 && k.1.0 == edge.1.0 {
                return Some(EdgeIndex(i));
            }
            i = i + 1;
        }
        None
    }

    /// Returns `true` if the edge is in the graph.
    pub fn contains_edge(&self, edge: &(NodeIndex, NodeIndex)) -> (r: bool)
        requires
            self.wf(),
        ensures
            r == self.spec_edges().contains(*edge),
    {
        self.edge_to_index(edge).is_some()
    }

    /// Adds the edge `(a, b)` with the given weight. If the edge already
    /// exists, it keeps its index, takes the new weight and the old weight is
    /// returned; a new edge is appended and `None` is returned.
    pub fn add_edge(&mut self, a: NodeIndex, b: NodeIndex, weight: E) -> (r: Option<E>)
        requires
            old(self).wf(),
            a.0 < old(self).spec_nodes().len(),
            b.0 < old(self).spec_nodes().len(),
            old(self).spec_edges().len() + 1 < usize::MAX,
        ensures
            final(self).wf(),
            final(self).spec_nodes() == old(self).spec_nodes(),
            final(self).spec_edges() == if old(self).spec_edges().contains((a, b)) {
                old(self).spec_edges()
            } else {
                old(self).spec_edges().push((a, b))
            },
            forall|i: int| 0 <= i < old(self).spec_edges().len() && #[trigger] old(self).spec_edges()[i] == (a, b)
                ==> r == Some(old(self).spec_weights()[i])
                    && final(self).spec_weights() == old(self).spec_weights().update(i, weight),
            !old(self).spec_edges().contains((a, b)) ==> r is None
                && final(self).spec_weights() == old(self).spec_weights().push(weight),
            final(self).spec_edges().contains((a, b)),
    {
        match self.edge_to_index(&(a, b)) {
            Some(e) => {
                proof {
                    assert(self.spec_edges().contains((a, b)));
                }
                let ghost old_self = *self;
                let mut w = weight;
                std::mem::swap(&mut self.weights[e.0], &mut w);
                proof {
                    assert(self.spec_nodes() == old_self.spec_nodes());
                    assert(self.spec_edges() == old_self.spec_edges());
                    assert(self.inner_wf());
                    assert forall|i: int| 0 <= i < self.spec_nodes().len() implies #[trigger] self.spec_outgoing(i) == old_self.spec_outgoing(i) by {}
                    assert forall|i: int| 0 <= i < self.spec_nodes().len() implies #[trigger] self.spec_incoming(i) == old_self.spec_incoming(i) by {}
                    assert forall|i: int| 0 <= i < old_self.spec_edges().len() && #[trigger] old_self.spec_edges()[i] == (a, b) implies i == e.0 by {
                        if i != e.0 {
                            assert(old_self.spec_edges()[e.0 as int] == (a, b));
                        }
                    }
                }
                Some(w)
            },
            None => {
                let ghost old_self = *self;
                let e = self.edges.len();
                self.edges.push((a, b));
                self.weights.push(weight);
                self.neighbors[a.0].outgoing.push((b, EdgeIndex(e)));
                if a.0 != b.0 {
                    self.neighbors[b.0].incoming.push((a, EdgeIndex(e)));
                }
                proof {
                    let edges = self.spec_edges();
                    assert(edges == old_self.spec_edges().push((a, b)));
                    assert forall|i: int| 0 <= i < self.spec_nodes().len() implies #[trigger] self.spec_outgoing(i) == out_list(edges, i as usize, edges.len()) by {
                        lemma_out_list_prefix(old_self.spec_edges(), (a, b), i as usize, e as nat);
                        assert(old_self.spec_outgoing(i) == out_list(old_self.spec_edges(), i as usize, e as nat));
                    }
                    assert forall|i: int| 0 <= i < self.spec_nodes().len() implies #[trigger] self.spec_incoming(i) == in_list(edges, i as usize, edges.len()) by {
                        lemma_out_list_prefix(old_self.spec_edges(), (a, b), i as usize, e as nat);
                        assert(old_self.spec_incoming(i) == in_list(old_self.spec_edges(), i as usize, e as nat));
                    }
                    assert forall|i: int, j: int| 0 <= i < j < edges.len() implies edges[i] != edges[j] by {
                        if j == e {
                            assert(old_self.spec_edges()[i] == edges[i]);
                            assert(old_self.spec_edges().contains(edges[i]));
                        } else {
                            assert(old_self.spec_edges()[i] == edges[i]);
                            assert(old_self.spec_edges()[j] == edges[j]);
                        }
                    }
                    assert(self.spec_nodes() == old_self.spec_nodes());
                    assert(self.inner_wf());
                    assert(edges[e as int] == (a, b));
                    assert forall|k: int| 0 <= k < edges.len() implies (#[trigger] edges[k]).0.0 < self.spec_nodes().len() && edges[k].1.0 < self.spec_nodes().len() by {
                        if k < e {
                            assert(old_self.spec_edges()[k] == edges[k]);
                        }
                    }
                }
                None
            },
        }
    }

    /// Converts a node index into a node, if the index is in the graph.
    pub fn try_node_from_index(&self, index: NodeIndex) -> (r: Option<&N>)
        requires
            self.wf(),
        ensures
            match r {
                Some(n) => index.0 < self.spec_nodes().len() && *n == self.spec_nodes()[index.0 as int],
                None => index.0 >= self.spec_nodes().len(),
            },
    {
        if index.0 < self.nodes.len() {
            Some(&self.nodes[index.0])
        } else {
            None
        }
    }

    /// Converts a node index into a node.
    pub fn node_from_index(&self, index: NodeIndex) -> (r: &N)
        requires
            self.wf(),
            index.0 < self.spec_nodes().len(),
        ensures
            *r == self.spec_nodes()[index.0 as int],
    {
        &self.nodes[index.0]
    }

    /// Converts an edge index into its endpoints and weight, if the index
    /// is in the graph.
    pub fn try_edge_from_index(&self, index: EdgeIndex) -> (r: Option<((NodeIndex, NodeIndex), &E)>)
        requires
            self.wf(),
        ensures
            match r {
                Some(x) => index.0 < self.spec_edges().len() && x.0 == self.spec_edges()[index.0 as int]
                    && *x.1 == self.spec_weights()[index.0 as int],
                None => index.0 >= self.spec_edges().len(),
            },
    {
        if index.0 < self.edges.len() {
            Some((self.edges[index.0], &self.weights[index.0]))
        } else {
            None
        }
    }

    /// Converts an edge index into its endpoints and weight.
    pub fn edge_from_index(&self, index: EdgeIndex) -> (r: ((NodeIndex, NodeIndex), &E))
        requires
            self.wf(),
            index.0 < self.spec_edges().len(),
        ensures
            r.0 == self.spec_edges()[index.0 as int],
            *r.1 == self.spec_weights()[index.0 as int],
    {
        (self.edges[index.0], &self.weights[index.0])
    }

    /// Returns `true` if the node index is in the graph.
    pub fn contains_node_index(&self, index: NodeIndex) -> (r: bool)
        requires
            self.wf(),
        ensures
            r == (index.0 < self.spec_nodes().len()),
    {
        index.0 < self.nodes.len()
    }

    /// Returns `true` if the edge index is in the graph.
    pub fn contains_edge_index(&self, index: EdgeIndex) -> (r: bool)
        requires
            self.wf(),
        ensures
            r == (index.0 < self.spec_edges().len()),
    {
        index.0 < self.edges.len()
    }

    /// The incoming edges of a node: the source and the edge index of each.
    pub fn incoming(&self, node: NodeIndex) -> (r: &Vec<(NodeIndex, EdgeIndex)>)
        requires
            self.wf(),
            node.0 < self.spec_nodes().len(),
        ensures
            r@ == in_list(self.spec_edges(), node.0, self.spec_edges().len()),
    {
        proof {
            assert(self.spec_incoming(node.0 as int) == in_list(self.spec_edges(), node.0, self.spec_edges().len()));
        }
        &self.neighbors[node.0].incoming
    }

    /// The outgoing edges of a node: the target and the edge index of each.
    pub fn outgoing(&self, node: NodeIndex) -> (r: &Vec<(NodeIndex, EdgeIndex)>)
        requires
            self.wf(),
            node.0 < self.spec_nodes().len(),
        ensures
            r@ == out_list(self.spec_edges(), node.0, self.spec_edges().len()),
    {
        proof {
            assert(self.spec_outgoing(node.0 as int) == out_list(self.spec_edges(), node.0, self.spec_edges().len()));
        }
        &self.neighbors[node.0].outgoing
    }

    /// The number of outgoing edges of a node, or `None` if there is no
    /// such node.
    pub fn outgoing_count(&self, node: NodeIndex) -> (r: Option<usize>)
        requires
            self.wf(),
        ensures
            r == if node.0 < self.spec_nodes().len() {
                Some(out_list(self.spec_edges(), node.0, self.spec_edges().len()).len() as usize)
            } else {
                None::<usize>
            },
    {
        if node.0 < self.nodes.len() {
            Some(self.outgoing(node).len())
        } else {
            None
        }
    }

    /// The number of incoming edges of a node, or `None` if there is no
    /// such node. Self-loops are not among them.
    pub fn incoming_count(&self, node: NodeIndex) -> (r: Option<usize>)
        requires
            self.wf(),
        ensures
            r == if node.0 < self.spec_nodes().len() {
                Some(in_list(self.spec_edges(), node.0, self.spec_edges().len()).len() as usize)
            } else {
                None::<usize>
            },
    {
        if node.0 < self.nodes.len() {
            Some(self.incoming(node).len())
        } else {
            None
        }
    }

    /// The outgoing edges of a node, or the incoming ones if `reverse`.
    pub fn neighbors(&self, node: NodeIndex, reverse: bool) -> (r: &Vec<(NodeIndex, EdgeIndex)>)
        requires
            self.wf(),
            node.0 < self.spec_nodes().len(),
        ensures
            r@ == if reverse {
                in_list(self.spec_edges(), node.0, self.spec_edges().len())
            } else {
                out_list(self.spec_edges(), node.0, self.spec_edges().len())
            },
    {
        if reverse {
            self.incoming(node)
        } else {
            self.outgoing(node)
        }
    }

    /// Returns `true` if the node has no incoming edges; a self-loop counts
    /// as one. (The incoming list leaves self-loops out.)
    pub fn is_root_node(&self, node: NodeIndex) -> (r: bool)
        requires
            self.wf(),
            node.0 < self.spec_nodes().len(),
        ensures
            r == !self.has_incoming(node.0 as int),
    {
        let no_others = self.incoming(node).len() == 0;
        let looped = self.contains_edge(&(node, node));
        proof {
            let edges = self.spec_edges();
            lemma_in_list_empty(edges, node.0, edges.len());
            if looped {
                let k = choose|k: int| 0 <= k < edges.len() && edges[k] == (node, node);
                assert(edges[k].1.0 == node.0);
            }
            if no_others && !looped {
                assert forall|k: int| 0 <= k < edges.len() implies (#[trigger] edges[k]).1.0 != node.0 by {
                    if edges[k].1.0 == node.0 {
                        if edges[k].0.0 == node.0 {
                            assert(edges[k] == (node, node));
                            assert(edges.contains((node, node)));
                        }
                    }
                }
            }
            if !no_others {
                let k = choose|k: int| 0 <= k < edges.len() && (#[trigger] edges[k]).1.0 == node.0 && edges[k].0.0 != node.0;
                assert(edges[k].1.0 == node.0);
            }
        }
        no_others && !looped
    }

    /// Returns `true` if the node has no outgoing edges.
    pub fn is_terminal_node(&self, node: NodeIndex) -> (r: bool)
        requires
            self.wf(),
            node.0 < self.spec_nodes().len(),
        ensures
            r == (out_list(self.spec_edges(), node.0, self.spec_edges().len()).len() == 0),
    {
        self.outgoing(node).len() == 0
    }

    /// The indices of all nodes, in order.
    pub fn nodes(&self) -> (r: Vec<NodeIndex>)
        requires
            self.wf(),
        ensures
            r@.len() == self.spec_nodes().len(),
            forall|i: int| 0 <= i < r@.len() ==> (#[trigger] r@[i]).0 == i,
    {
        let mut r: Vec<NodeIndex> = Vec::new();
        let mut i: usize = 0;
        while i < self.nodes.len()
            invariant
                i <= self.nodes@.len(),
                r@.len() == i,
                forall|j: int| 0 <= j < i ==> (#[trigger] r@[j]).0 == j,
            decreases self.nodes@.len() - i,
        {
            r.push(NodeIndex(i));
            i = i + 1;
        }
        r
    }

    /// The indices of all edges, in order.
    pub fn edges(&self) -> (r: Vec<EdgeIndex>)
        requires
            self.wf(),
        ensures
            r@.len() == self.spec_edges().len(),
            forall|i: int| 0 <= i < r@.len() ==> (#[trigger] r@[i]).0 == i,
    {
        let mut r: Vec<EdgeIndex> = Vec::new();
        let mut i: usize = 0;
        while i < self.edges.len()
            invariant
                i <= self.edges@.len(),
                r@.len() == i,
                forall|j: int| 0 <= j < i ==> (#[trigger] r@[j]).0 == j,
            decreases self.edges@.len() - i,
        {
            r.push(EdgeIndex(i));
            i = i + 1;
        }
        r
    }
}

/// A node that no edge touches has no neighbors.
proof fn lemma_lists_without_node(edges: Seq<(NodeIndex, NodeIndex)>, a: usize, n: nat)
    requires
        n <= edges.len(),
        forall|e: int| 0 <= e < edges.len() ==> !(edges[e].0.0 == a) && !(edges[e].1.0 == a),
    ensures
        out_list(edges, a, n) == Seq::<(NodeIndex, EdgeIndex)>::empty(),
        in_list(edges, a, n) == Seq::<(NodeIndex, EdgeIndex)>::empty(),
    decreases n,
{
    if n > 0 {
        lemma_lists_without_node(edges, a, (n - 1) as nat);
    }
}

} // verus!

verus! {

/// Each entry of an outgoing list names an edge out of `a`, and every edge
/// out of `a` has its entry.
pub proof fn lemma_out_list_members(edges: Seq<(NodeIndex, NodeIndex)>, a: usize, n: nat)
    requires
        n <= edges.len(),
        n < usize::MAX,
    ensures
        forall|j: int| 0 <= j < out_list(edges, a, n).len() ==> {
            let p = #[trigger] out_list(edges, a, n)[j];
            &&& p.1.0 < n
            &&& edges[p.1.0 as int].0.0 == a
            &&& edges[p.1.0 as int].1 == p.0
        },
        forall|k: int| 0 <= k < n && (#[trigger] edges[k]).0.0 == a ==> out_list(edges, a, n).contains((edges[k].1, EdgeIndex(k as usize))),
        out_list(edges, a, n).len() <= n,
    decreases n,
{
    if n > 0 {
        lemma_out_list_members(edges, a, (n - 1) as nat);
        let rest = out_list(edges, a, (n - 1) as nat);
        let k = (n - 1) as int;
        if edges[k].0.0 == a {
            assert(out_list(edges, a, n) == rest.push((edges[k].1, EdgeIndex(k as usize))));
            assert forall|k2: int| 0 <= k2 < n && (#[trigger] edges[k2]).0.0 == a implies out_list(edges, a, n).contains((edges[k2].1, EdgeIndex(k2 as usize))) by {
                if k2 < k {
                    let j = choose|j: int| 0 <= j < rest.len() && rest[j] == (edges[k2].1, EdgeIndex(k2 as usize));
                    assert(out_list(edges, a, n)[j] == rest[j]);
                } else {
                    assert(out_list(edges, a, n)[rest.len() as int] == (edges[k].1, EdgeIndex(k as usize)));
                }
            }
        }
    }
}

/// Each entry of an incoming list names an edge into `b` from another node,
/// and every such edge has its entry.
pub proof fn lemma_in_list_members(edges: Seq<(NodeIndex, NodeIndex)>, b: usize, n: nat)
    requires
        n <= edges.len(),
        n < usize::MAX,
    ensures
        forall|j: int| 0 <= j < in_list(edges, b, n).len() ==> {
            let p = #[trigger] in_list(edges, b, n)[j];
            &&& p.1.0 < n
            &&& edges[p.1.0 as int].1.0 == b
            &&& edges[p.1.0 as int].0 == p.0
            &&& p.0.0 != b
        },
        forall|k: int| 0 <= k < n && (#[trigger] edges[k]).1.0 == b && edges[k].0.0 != b ==> in_list(edges, b, n).contains((edges[k].0, EdgeIndex(k as usize))),
        in_list(edges, b, n).len() <= n,
    decreases n,
{
    if n > 0 {
        lemma_in_list_members(edges, b, (n - 1) as nat);
        let rest = in_list(edges, b, (n - 1) as nat);
        let k = (n - 1) as int;
        if edges[k].1.0 == b && edges[k].0.0 != b {
            assert(in_list(edges, b, n) == rest.push((edges[k].0, EdgeIndex(k as usize))));
            assert forall|k2: int| 0 <= k2 < n && (#[trigger] edges[k2]).1.0 == b && edges[k2].0.0 != b implies in_list(edges, b, n).contains((edges[k2].0, EdgeIndex(k2 as usize))) by {
                if k2 < k {
                    let j = choose|j: int| 0 <= j < rest.len() && rest[j] == (edges[k2].0, EdgeIndex(k2 as usize));
                    assert(in_list(edges, b, n)[j] == rest[j]);
                } else {
                    assert(in_list(edges, b, n)[rest.len() as int] == (edges[k].0, EdgeIndex(k as usize)));
                }
            }
        }
    }
}

/// A node has an empty outgoing list exactly when no edge leaves it.
pub proof fn lemma_out_list_empty(edges: Seq<(NodeIndex, NodeIndex)>, a: usize, n: nat)
    requires
        n <= edges.len(),
        n < usize::MAX,
    ensures
        (out_list(edges, a, n).len() == 0) <==> (forall|k: int| 0 <= k < n ==> (#[trigger] edges[k]).0.0 != a),
{
    lemma_out_list_members(edges, a, n);
    if out_list(edges, a, n).len() != 0 {
        let p = out_list(edges, a, n)[0];
        assert(edges[p.1.0 as int].0.0 == a);
    }
}

/// A node has an empty incoming list exactly when no edge enters it from
/// another node.
pub proof fn lemma_in_list_empty(edges: Seq<(NodeIndex, NodeIndex)>, b: usize, n: nat)
    requires
        n <= edges.len(),
        n < usize::MAX,
    ensures
        (in_list(edges, b, n).len() == 0) <==> (forall|k: int| 0 <= k < n ==> !((#[trigger] edges[k]).1.0 == b && edges[k].0.0 != b)),
{
    lemma_in_list_members(edges, b, n);
    if in_list(edges, b, n).len() != 0 {
        let p = in_list(edges, b, n)[0];
        assert(edges[p.1.0 as int].1.0 == b);
    }
}

} // verus!
