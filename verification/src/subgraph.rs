use vstd::prelude::*;
use vstd::laws_eq::obeys_view_eq;

use crate::build_graph::{Edge, Node};
use crate::graph::{Graph, GraphBase, has_view, in_list, lemma_in_list_members, lemma_out_list_members, out_list};
use crate::index::{EdgeIndex, IndexSet, NodeIndex};

verus! {

/// A graph with a subset of the nodes and edges of another graph, which
/// keep their indices.
pub struct Subgraph<'a, N, E> {
    graph: &'a Graph<N, E>,
    nodes: IndexSet<NodeIndex>,
    edges: IndexSet<EdgeIndex>,
}

/// The raw positions of a list of node indices.
pub open spec fn node_positions(v: Seq<NodeIndex>) -> Set<usize> {
    Set::new(|i: usize| exists|k: int| 0 <= k < v.len() && (#[trigger] v[k]).0 == i)
}

/// The raw positions of a list of edge indices.
pub open spec fn edge_positions(v: Seq<EdgeIndex>) -> Set<usize> {
    Set::new(|i: usize| exists|k: int| 0 <= k < v.len() && (#[trigger] v[k]).0 == i)
}

fn collect_nodes(v: &Vec<NodeIndex>) -> (r: IndexSet<NodeIndex>)
    requires
        forall|k: int| 0 <= k < v@.len() ==> (#[trigger] v@[k]).0 < usize::MAX,
    ensures
        r.view() == node_positions(v@),
{
    let mut s: IndexSet<NodeIndex> = IndexSet::new();
    let mut i: usize = 0;
    while i < v.len()
        invariant
            i <= v@.len(),
            forall|k: int| 0 <= k < v@.len() ==> (#[trigger] v@[k]).0 < usize::MAX,
            s.view() == node_positions(v@.subrange(0, i as int)),
        decreases v@.len() - i,
    {
        s.insert(v[i]);
        proof {
            let pre = v@.subrange(0, i as int);
            let post = v@.subrange(0, i + 1);
            assert(node_positions(post) =~= node_positions(pre).insert(v@[i as int].0)) by {
                assert forall|x: usize| node_positions(post).contains(x) implies node_positions(pre).insert(v@[i as int].0).contains(x) by {
                    let k = choose|k: int| 0 <= k < post.len() && (#[trigger] post[k]).0 == x;
                    if k < i {
                        assert(pre[k] == post[k]);
                    }
                }
                assert forall|x: usize| node_positions(pre).insert(v@[i as int].0).contains(x) implies node_positions(post).contains(x) by {
                    if x == v@[i as int].0 {
                        assert(post[i as int].0 == x);
                    } else {
                        let k = choose|k: int| 0 <= k < pre.len() && (#[trigger] pre[k]).0 == x;
                        assert(post[k] == pre[k]);
                    }
                }
            }
        }
        i = i + 1;
    }
    proof {
        assert(v@.subrange(0, v@.len() as int) =~= v@);
    }
    s
}

fn collect_edges(v: &Vec<EdgeIndex>) -> (r: IndexSet<EdgeIndex>)
    requires
        forall|k: int| 0 <= k < v@.len() ==> (#[trigger] v@[k]).0 < usize::MAX,
    ensures
        r.view() == edge_positions(v@),
{
    let mut s: IndexSet<EdgeIndex> = IndexSet::new();
    let mut i: usize = 0;
    while i < v.len()
        invariant
            i <= v@.len(),
            forall|k: int| 0 <= k < v@.len() ==> (#[trigger] v@[k]).0 < usize::MAX,
            s.view() == edge_positions(v@.subrange(0, i as int)),
        decreases v@.len() - i,
    {
        s.insert(v[i]);
        proof {
            let pre = v@.subrange(0, i as int);
            let post = v@.subrange(0, i + 1);
            assert(edge_positions(post) =~= edge_positions(pre).insert(v@[i as int].0)) by {
                assert forall|x: usize| edge_positions(post).contains(x) implies edge_positions(pre).insert(v@[i as int].0).contains(x) by {
                    let k = choose|k: int| 0 <= k < post.len() && (#[trigger] post[k]).0 == x;
                    if k < i {
                        assert(pre[k] == post[k]);
                    }
                }
                assert forall|x: usize| edge_positions(pre).insert(v@[i as int].0).contains(x) implies edge_positions(post).contains(x) by {
                    if x == v@[i as int].0 {
                        assert(post[i as int].0 == x);
                    } else {
                        let k = choose|k: int| 0 <= k < pre.len() && (#[trigger] pre[k]).0 == x;
                        assert(post[k] == pre[k]);
                    }
                }
            }
        }
        i = i + 1;
    }
    proof {
        assert(v@.subrange(0, v@.len() as int) =~= v@);
    }
    s
}

impl<'a, N, E> Subgraph<'a, N, E> {
    /// The graph this is a part of.
    pub closed spec fn spec_graph(&self) -> Graph<N, E> {
        *self.graph
    }

    /// The positions of the nodes in the subgraph.
    pub closed spec fn spec_node_set(&self) -> Set<usize> {
        self.nodes.view()
    }

    /// The positions of the edges in the subgraph.
    pub closed spec fn spec_edge_set(&self) -> Set<usize> {
        self.edges.view()
    }

    /// The subgraph of `graph` with the given nodes and edges.
    pub fn new(graph: &'a Graph<N, E>, nodes: Vec<NodeIndex>, edges: Vec<EdgeIndex>) -> (r: Self)
        requires
            forall|k: int| 0 <= k < nodes@.len() ==> (#[trigger] nodes@[k]).0 < usize::MAX,
            forall|k: int| 0 <= k < edges@.len() ==> (#[trigger] edges@[k]).0 < usize::MAX,
        ensures
            r.spec_graph() == *graph,
            r.spec_node_set() == node_positions(nodes@),
            r.spec_edge_set() == edge_positions(edges@),
    {
        Subgraph { graph, nodes: collect_nodes(&nodes), edges: collect_edges(&edges) }
    }

    /// The number of nodes.
    pub fn node_count(&self) -> (r: usize)
        ensures
            r == self.spec_node_set().len(),
    {
        self.nodes.len()
    }

    /// The number of edges.
    pub fn edge_count(&self) -> (r: usize)
        ensures
            r == self.spec_edge_set().len(),
    {
        self.edges.len()
    }

    /// Returns `true` if the subgraph has the node at `index`.
    pub fn contains_node_index(&self, index: NodeIndex) -> (r: bool)
        ensures
            r == self.spec_node_set().contains(index.0),
    {
        self.nodes.contains(&index)
    }

    /// Returns `true` if the subgraph has the edge at `index`.
    pub fn contains_edge_index(&self, index: EdgeIndex) -> (r: bool)
        ensures
            r == self.spec_edge_set().contains(index.0),
    {
        self.edges.contains(&index)
    }

    /// The node at `index`, which the subgraph must have.
    pub fn node_from_index(&self, index: NodeIndex) -> (r: &N)
        requires
            self.spec_graph().wf(),
            self.spec_node_set().contains(index.0),
            index.0 < self.spec_graph().spec_nodes().len(),
        ensures
            *r == self.spec_graph().spec_nodes()[index.0 as int],
    {
        self.graph.node_from_index(index)
    }

    /// The endpoints and weight of the edge at `index`, which the subgraph
    /// must have.
    pub fn edge_from_index(&self, index: EdgeIndex) -> (r: ((NodeIndex, NodeIndex), &E))
        requires
            self.spec_graph().wf(),
            self.spec_edge_set().contains(index.0),
            index.0 < self.spec_graph().spec_edges().len(),
        ensures
            r.0 == self.spec_graph().spec_edges()[index.0 as int],
            *r.1 == self.spec_graph().spec_weights()[index.0 as int],
    {
        self.graph.edge_from_index(index)
    }

    /// The index of an edge, if the subgraph has it.
    pub fn edge_to_index(&self, edge: &(NodeIndex, NodeIndex)) -> (r: Option<EdgeIndex>)
        requires
            self.spec_graph().wf(),
        ensures
            match r {
                Some(e) => e.0 < self.spec_graph().spec_edges().len() && self.spec_graph().spec_edges()[e.0 as int] == *edge
                    && self.spec_edge_set().contains(e.0),
                None => forall|e: int| 0 <= e < self.spec_graph().spec_edges().len() && self.spec_graph().spec_edges()[e] == *edge
                    ==> !self.spec_edge_set().contains(e as usize),
            },
    {
        match self.graph.edge_to_index(edge) {
            Some(e) => {
                if self.edges.contains(&e) {
                    Some(e)
                } else {
                    proof {
                        assert forall|e2: int| 0 <= e2 < self.spec_graph().spec_edges().len() && self.spec_graph().spec_edges()[e2] == *edge
                            implies !self.spec_edge_set().contains(e2 as usize) by {
                            if e2 != e.0 {
                                if e2 < e.0 {
                                    assert(self.spec_graph().spec_edges()[e2] != self.spec_graph().spec_edges()[e.0 as int]);
                                } else {
                                    assert(self.spec_graph().spec_edges()[e.0 as int] != self.spec_graph().spec_edges()[e2]);
                                }
                            }
                        }
                    }
                    None
                }
            },
            None => None,
        }
    }

    /// The node indices of the subgraph, in increasing order.
    pub fn nodes(&self) -> (r: Vec<NodeIndex>)
        ensures
            r@.len() == self.spec_node_set().len(),
            forall|i: int, j: int| 0 <= i < j < r@.len() ==> r@[i].0 < r@[j].0,
            forall|i: int| 0 <= i < r@.len() ==> self.spec_node_set().contains((#[trigger] r@[i]).0),
            forall|x: usize| self.spec_node_set().contains(x) ==> r@.contains(NodeIndex(x)),
    {
        self.nodes.iter()
    }

    /// The edge indices of the subgraph, in increasing order.
    pub fn edges(&self) -> (r: Vec<EdgeIndex>)
        ensures
            r@.len() == self.spec_edge_set().len(),
            forall|i: int, j: int| 0 <= i < j < r@.len() ==> r@[i].0 < r@[j].0,
            forall|i: int| 0 <= i < r@.len() ==> self.spec_edge_set().contains((#[trigger] r@[i]).0),
            forall|x: usize| self.spec_edge_set().contains(x) ==> r@.contains(EdgeIndex(x)),
    {
        self.edges.iter()
    }

    /// Keeps the neighbors that the subgraph has, through edges it has.
    fn filter_neighbors(&self, list: &Vec<(NodeIndex, EdgeIndex)>) -> (r: Vec<(NodeIndex, EdgeIndex)>)
        ensures
            r@ == list@.filter(|p: (NodeIndex, EdgeIndex)| self.spec_node_set().contains(p.0.0) && self.spec_edge_set().contains(p.1.0)),
    {
        let ghost keep = |p: (NodeIndex, EdgeIndex)| self.spec_node_set().contains(p.0.0) && self.spec_edge_set().contains(p.1.0);
        let mut out: Vec<(NodeIndex, EdgeIndex)> = Vec::new();
        let mut i: usize = 0;
        while i < list.len()
            invariant
                i <= list@.len(),
                keep == (|p: (NodeIndex, EdgeIndex)| self.spec_node_set().contains(p.0.0) && self.spec_edge_set().contains(p.1.0)),
                out@ == list@.subrange(0, i as int).filter(keep),
            decreases list@.len() - i,
        {
            let p = list[i];
            proof {
                assert(list@.subrange(0, i + 1).drop_last() =~= list@.subrange(0, i as int));
                assert(list@.subrange(0, i + 1).last() == p);
            }
            if self.nodes.contains(&p.0) && self.edges.contains(&p.1) {
                out.push(p);
            }
            proof {
                reveal(Seq::filter);
                assert(list@.subrange(0, i + 1).filter(keep) == if keep(p) {
                    list@.subrange(0, i as int).filter(keep).push(p)
                } else {
                    list@.subrange(0, i as int).filter(keep)
                });
            }
            i = i + 1;
        }
        proof {
            assert(list@.subrange(0, list@.len() as int) =~= list@);
        }
        out
    }

    /// The incoming edges of a node that the subgraph has, from nodes it
    /// has: the source and edge index of each, in edge order.
    pub fn incoming(&self, node: NodeIndex) -> (r: Vec<(NodeIndex, EdgeIndex)>)
        requires
            self.spec_graph().wf(),
            node.0 < self.spec_graph().spec_nodes().len(),
        ensures
            r@ == in_list(self.spec_graph().spec_edges(), node.0, self.spec_graph().spec_edges().len())
                .filter(|p: (NodeIndex, EdgeIndex)| self.spec_node_set().contains(p.0.0) && self.spec_edge_set().contains(p.1.0)),
    {
        self.filter_neighbors(self.graph.incoming(node))
    }

    /// The outgoing edges of a node that the subgraph has, to nodes it has:
    /// the target and edge index of each, in edge order.
    pub fn outgoing(&self, node: NodeIndex) -> (r: Vec<(NodeIndex, EdgeIndex)>)
        requires
            self.spec_graph().wf(),
            node.0 < self.spec_graph().spec_nodes().len(),
        ensures
            r@ == out_list(self.spec_graph().spec_edges(), node.0, self.spec_graph().spec_edges().len())
                .filter(|p: (NodeIndex, EdgeIndex)| self.spec_node_set().contains(p.0.0) && self.spec_edge_set().contains(p.1.0)),
    {
        self.filter_neighbors(self.graph.outgoing(node))
    }
}

impl<'a, N, E> GraphBase for Subgraph<'a, N, E> {
    type Node = N;

    type Edge = E;

    open spec fn node_count_spec(&self) -> nat {
        self.spec_node_set().len()
    }

    open spec fn edge_count_spec(&self) -> nat {
        self.spec_edge_set().len()
    }

    fn node_count(&self) -> (r: usize) {
        Subgraph::node_count(self)
    }

    fn edge_count(&self) -> (r: usize) {
        Subgraph::edge_count(self)
    }
}

impl<'a, N: PartialEq + View, E> Subgraph<'a, N, E> {
    /// The index of a node equal to `node`, if the subgraph has one.
    pub fn node_to_index(&self, node: &N) -> (r: Option<NodeIndex>)
        requires
            self.spec_graph().wf(),
            self.spec_graph().views_distinct(),
            obeys_view_eq::<N>(),
        ensures
            match r {
                Some(i) => i.0 < self.spec_graph().spec_nodes().len() && self.spec_graph().spec_nodes()[i.0 as int]@ == node@
                    && self.spec_node_set().contains(i.0),
                None => forall|i: int| 0 <= i < self.spec_graph().spec_nodes().len() && (#[trigger] self.spec_graph().spec_nodes()[i])@ == node@
                    ==> !self.spec_node_set().contains(i as usize),
            },
    {
        match self.graph.node_to_index(node) {
            Some(i) => {
                if self.nodes.contains(&i) {
                    Some(i)
                } else {
                    proof {
                        let ns = self.spec_graph().spec_nodes();
                        assert forall|i2: int| 0 <= i2 < ns.len() && (#[trigger] ns[i2])@ == node@
                            implies !self.spec_node_set().contains(i2 as usize) by {
                            if i2 != i.0 {
                                if i2 < i.0 {
                                    assert(ns[i2]@ != ns[i.0 as int]@);
                                } else {
                                    assert(ns[i.0 as int]@ != ns[i2]@);
                                }
                            }
                        }
                    }
                    None
                }
            },
            None => None,
        }
    }
}

/// A node that the explicit subgraph keeps: every task, and the resources
/// with at least one explicit edge.
pub open spec fn explicit_node<R, T>(g: &Graph<Node<R, T>, Edge>, i: int) -> bool {
    ||| g.spec_nodes()[i] is Task
    ||| exists|k: int| 0 <= k < g.spec_edges().len() && g.spec_weights()[k] == Edge::Explicit
        && ((#[trigger] g.spec_edges()[k]).0.0 == i || g.spec_edges()[k].1.0 == i)
}

/// Whether some edge of the list is explicit.
fn any_explicit<R, T>(g: &Graph<Node<R, T>, Edge>, list: &Vec<(NodeIndex, EdgeIndex)>) -> (r: bool)
    requires
        g.wf(),
        forall|j: int| 0 <= j < list@.len() ==> (#[trigger] list@[j]).1.0 < g.spec_edges().len(),
    ensures
        r == exists|j: int| 0 <= j < list@.len() && g.spec_weights()[(#[trigger] list@[j]).1.0 as int] == Edge::Explicit,
{
    let mut i: usize = 0;
    while i < list.len()
        invariant
            g.wf(),
            forall|j: int| 0 <= j < list@.len() ==> (#[trigger] list@[j]).1.0 < g.spec_edges().len(),
            i <= list@.len(),
            forall|j: int| 0 <= j < i ==> g.spec_weights()[(#[trigger] list@[j]).1.0 as int] != Edge::Explicit,
        decreases list@.len() - i,
    {
        let (_, e) = list[i];
        let (_, w) = g.edge_from_index(e);
        if *w == Edge::Explicit {
            return true;
        }
        i = i + 1;
    }
    false
}

impl<R, T> Graph<Node<R, T>, Edge> {
    /// The explicit subgraph: the edges that the build description lists,
    /// every task, and the resources that such an edge touches. Edges and
    /// nodes only reachable through implicit edges are left out.
    pub fn explicit_subgraph(&self) -> (r: Subgraph<'_, Node<R, T>, Edge>)
        requires
            self.wf(),
        ensures
            r.spec_graph() == *self,
            r.spec_node_set() == Set::new(|i: usize| i < self.spec_nodes().len() && explicit_node(self, i as int)),
            r.spec_edge_set() == Set::new(|e: usize| e < self.spec_edges().len() && self.spec_weights()[e as int] == Edge::Explicit),
    {
        let n = self.node_count();
        let mut nodes: Vec<NodeIndex> = Vec::new();
        let mut i: usize = 0;
        let ghost wanted = Set::new(|i: usize| i < self.spec_nodes().len() && explicit_node(self, i as int));
        while i < n
            invariant
                self.wf(),
                n == self.spec_nodes().len(),
                i <= n,
                wanted == Set::new(|i: usize| i < self.spec_nodes().len() && explicit_node(self, i as int)),
                forall|k: int| 0 <= k < nodes@.len() ==> (#[trigger] nodes@[k]).0 < n,
                node_positions(nodes@) == wanted.filter(|x: usize| x < i),
            decreases n - i,
        {
            let keep = match self.node_from_index(NodeIndex(i)) {
                Node::Task(_) => true,
                Node::Resource(_) => {
                    let inc = self.incoming(NodeIndex(i));
                    let out = self.outgoing(NodeIndex(i));
                    proof {
                        let edges = self.spec_edges();
                        lemma_in_list_members(edges, i, edges.len());
                        lemma_out_list_members(edges, i, edges.len());
                    }
                    any_explicit(self, inc) || any_explicit(self, out)
                },
            };
            proof {
                let edges = self.spec_edges();
                let inc = in_list(edges, i, edges.len());
                let out = out_list(edges, i, edges.len());
                lemma_in_list_members(edges, i, edges.len());
                lemma_out_list_members(edges, i, edges.len());
                if !(self.spec_nodes()[i as int] is Task) {
                    if explicit_node(self, i as int) {
                        let k = choose|k: int| 0 <= k < edges.len() && self.spec_weights()[k] == Edge::Explicit
                            && ((#[trigger] edges[k]).0.0 == i || edges[k].1.0 == i);
                        if edges[k].0.0 == i {
                            assert(out.contains((edges[k].1, EdgeIndex(k as usize))));
                            let j = choose|j: int| 0 <= j < out.len() && out[j] == (edges[k].1, EdgeIndex(k as usize));
                            assert(self.spec_weights()[(out[j]).1.0 as int] == Edge::Explicit);
                        } else {
                            assert(inc.contains((edges[k].0, EdgeIndex(k as usize))));
                            let j = choose|j: int| 0 <= j < inc.len() && inc[j] == (edges[k].0, EdgeIndex(k as usize));
                            assert(self.spec_weights()[(inc[j]).1.0 as int] == Edge::Explicit);
                        }
                    }
                    if exists|j: int| 0 <= j < inc.len() && self.spec_weights()[(#[trigger] inc[j]).1.0 as int] == Edge::Explicit {
                        let j = choose|j: int| 0 <= j < inc.len() && self.spec_weights()[(#[trigger] inc[j]).1.0 as int] == Edge::Explicit;
                        let k = inc[j].1.0 as int;
                        assert(edges[k].1.0 == i);
                    }
                    if exists|j: int| 0 <= j < out.len() && self.spec_weights()[(#[trigger] out[j]).1.0 as int] == Edge::Explicit {
                        let j = choose|j: int| 0 <= j < out.len() && self.spec_weights()[(#[trigger] out[j]).1.0 as int] == Edge::Explicit;
                        let k = out[j].1.0 as int;
                        assert(edges[k].0.0 == i);
                    }
                }
                assert(keep == explicit_node(self, i as int));
            }
            let ghost before = nodes@;
            if keep {
                nodes.push(NodeIndex(i));
            }
            proof {
                assert(node_positions(nodes@) =~= wanted.filter(|x: usize| x < i + 1)) by {
                    assert forall|x: usize| node_positions(nodes@).contains(x) implies wanted.filter(|x: usize| x < i + 1).contains(x) by {
                        let k = choose|k: int| 0 <= k < nodes@.len() && (#[trigger] nodes@[k]).0 == x;
                        if k < before.len() {
                            assert(before[k] == nodes@[k]);
                            assert(node_positions(before).contains(x));
                        }
                    }
                    assert forall|x: usize| wanted.filter(|x: usize| x < i + 1).contains(x) implies node_positions(nodes@).contains(x) by {
                        if x < i {
                            assert(node_positions(before).contains(x));
                            let k = choose|k: int| 0 <= k < before.len() && (#[trigger] before[k]).0 == x;
                            assert(nodes@[k] == before[k]);
                        } else {
                            assert(nodes@[nodes@.len() - 1].0 == x);
                        }
                    }
                }
            }
            i = i + 1;
        }
        let m = self.edge_count();
        let mut edges: Vec<EdgeIndex> = Vec::new();
        let ghost wanted_e = Set::new(|e: usize| e < self.spec_edges().len() && self.spec_weights()[e as int] == Edge::Explicit);
        let mut e: usize = 0;
        while e < m
            invariant
                self.wf(),
                m == self.spec_edges().len(),
                e <= m,
                wanted_e == Set::new(|e: usize| e < self.spec_edges().len() && self.spec_weights()[e as int] == Edge::Explicit),
                forall|k: int| 0 <= k < edges@.len() ==> (#[trigger] edges@[k]).0 < m,
                edge_positions(edges@) == wanted_e.filter(|x: usize| x < e),
            decreases m - e,
        {
            let (_, w) = self.edge_from_index(EdgeIndex(e));
            let ghost before = edges@;
            if *w == Edge::Explicit {
                edges.push(EdgeIndex(e));
            }
            proof {
                assert(edge_positions(edges@) =~= wanted_e.filter(|x: usize| x < e + 1)) by {
                    assert forall|x: usize| edge_positions(edges@).contains(x) implies wanted_e.filter(|x: usize| x < e + 1).contains(x) by {
                        let k = choose|k: int| 0 <= k < edges@.len() && (#[trigger] edges@[k]).0 == x;
                        if k < before.len() {
                            assert(before[k] == edges@[k]);
                            assert(edge_positions(before).contains(x));
                        }
                    }
                    assert forall|x: usize| wanted_e.filter(|x: usize| x < e + 1).contains(x) implies edge_positions(edges@).contains(x) by {
                        if x < e {
                            assert(edge_positions(before).contains(x));
                            let k = choose|k: int| 0 <= k < before.len() && (#[trigger] before[k]).0 == x;
                            assert(edges@[k] == before[k]);
                        } else {
                            assert(edges@[edges@.len() - 1].0 == x);
                        }
                    }
                }
            }
            e = e + 1;
        }
        proof {
            assert(wanted.filter(|x: usize| x < n) =~= wanted);
            assert(wanted_e.filter(|x: usize| x < m) =~= wanted_e);
        }
        Subgraph::new(self, nodes, edges)
    }
}

} // verus!
