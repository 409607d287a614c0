use vstd::prelude::*;
use vstd::laws_eq::obeys_view_eq;

use crate::graph::{Graph, has_view};
use crate::index::{EdgeIndex, IndexSet, NodeIndex};

verus! {

impl<N: View, E> Graph<N, E> {
    /// The positions of the nodes of `self` that `other` has no equal of.
    pub open spec fn only_nodes(&self, other: &Graph<N, E>) -> Set<usize> {
        Set::new(|i: usize| i < self.spec_nodes().len() && !has_view(other.spec_nodes(), self.spec_nodes()[i as int]@))
    }

    /// `other` has an edge from a node equal to `a` to a node equal to `b`.
    pub open spec fn has_edge_between_views(&self, a: N::V, b: N::V) -> bool {
        exists|e: int| 0 <= e < self.spec_edges().len()
            && self.spec_nodes()[(#[trigger] self.spec_edges()[e]).0.0 as int]@ == a
            && self.spec_nodes()[self.spec_edges()[e].1.0 as int]@ == b
    }

    /// The positions of the edges of `self` whose endpoints `other` does not
    /// join by an edge.
    pub open spec fn only_edges(&self, other: &Graph<N, E>) -> Set<usize> {
        Set::new(|e: usize| e < self.spec_edges().len() && !other.has_edge_between_views(
            self.spec_nodes()[self.spec_edges()[e as int].0.0 as int]@,
            self.spec_nodes()[self.spec_edges()[e as int].1.0 as int]@,
        ))
    }
}

/// The differences between two graphs, `left` and `right`, as node and
/// edge indices of the graph that holds them.
pub struct Diff {
    /// Nodes of `right` that `left` does not have.
    pub right_only_nodes: IndexSet<NodeIndex>,
    /// Nodes of `left` that `right` does not have.
    pub left_only_nodes: IndexSet<NodeIndex>,
    /// Edges of `right` that `left` does not have.
    pub right_only_edges: IndexSet<EdgeIndex>,
    /// Edges of `left` that `right` does not have.
    pub left_only_edges: IndexSet<EdgeIndex>,
}

impl<N: PartialEq + View, E> Graph<N, E> {
    /// Finds the nodes that are only present in this graph, not the other.
    pub fn unique_nodes(&self, other: &Graph<N, E>) -> (r: IndexSet<NodeIndex>)
        requires
            self.wf(),
            other.wf(),
            obeys_view_eq::<N>(),
        ensures
            r.view() == self.only_nodes(other),
            r.view().finite(),
            r.view().len() <= self.spec_nodes().len(),
    {
        let mut nodes: IndexSet<NodeIndex> = IndexSet::new();
        let n = self.node_count();
        let mut i: usize = 0;
        while i < n
            invariant
                self.wf(),
                other.wf(),
                obeys_view_eq::<N>(),
                n == self.spec_nodes().len(),
                i <= n,
                nodes.view() == Set::new(|j: usize| j < i && !has_view(other.spec_nodes(), self.spec_nodes()[j as int]@)),
                nodes.view().finite(),
                nodes.view().len() <= i,
            decreases n - i,
        {
            let ghost before = nodes.view();
            if !other.contains_node(self.node_from_index(NodeIndex(i))) {
                nodes.insert(NodeIndex(i));
            }
            proof {
                assert(nodes.view() =~= Set::new(|j: usize| j < i + 1 && !has_view(other.spec_nodes(), self.spec_nodes()[j as int]@)));
            }
            i = i + 1;
        }
        proof {
            assert(nodes.view() =~= self.only_nodes(other));
        }
        nodes
    }

    /// Finds the edges that are only present in this graph, not the other:
    /// those whose endpoints the other graph lacks or does not join.
    pub fn unique_edges(&self, other: &Graph<N, E>) -> (r: IndexSet<EdgeIndex>)
        requires
            self.wf(),
            other.wf(),
            other.views_distinct(),
            obeys_view_eq::<N>(),
        ensures
            r.view() == self.only_edges(other),
            r.view().finite(),
            r.view().len() <= self.spec_edges().len(),
    {
        let mut edges: IndexSet<EdgeIndex> = IndexSet::new();
        let m = self.edge_count();
        let mut e: usize = 0;
        while e < m
            invariant
                self.wf(),
                other.wf(),
                other.views_distinct(),
                obeys_view_eq::<N>(),
                m == self.spec_edges().len(),
                e <= m,
                edges.view() == Set::new(|k: usize| k < e && !other.has_edge_between_views(
                    self.spec_nodes()[self.spec_edges()[k as int].0.0 as int]@,
                    self.spec_nodes()[self.spec_edges()[k as int].1.0 as int]@,
                )),
                edges.view().finite(),
                edges.view().len() <= e,
            decreases m - e,
        {
            let (ends, _weight) = self.edge_from_index(EdgeIndex(e));
            let (a, b) = ends;
            let from = other.node_to_index(self.node_from_index(a));
            let to = other.node_to_index(self.node_from_index(b));
            let unique = match (from, to) {
                (Some(f), Some(t)) => !other.contains_edge(&(f, t)),
                _ => true,
            };
            proof {
                let va = self.spec_nodes()[a.0 as int]@;
                let vb = self.spec_nodes()[b.0 as int]@;
                let oe = other.spec_edges();
                let on = other.spec_nodes();
                match (from, to) {
                    (Some(f), Some(t)) => {
                        if other.has_edge_between_views(va, vb) {
                            let k = choose|k: int| 0 <= k < oe.len() && on[(#[trigger] oe[k]).0.0 as int]@ == va && on[oe[k].1.0 as int]@ == vb;
                            assert(oe[k].0.0 < on.len() && oe[k].1.0 < on.len());
                            if oe[k].0.0 != f.0 {
                                if oe[k].0.0 < f.0 {
                                    assert(on[oe[k].0.0 as int]@ != on[f.0 as int]@);
                                } else {
                                    assert(on[f.0 as int]@ != on[oe[k].0.0 as int]@);
                                }
                            }
                            if oe[k].1.0 != t.0 {
                                if oe[k].1.0 < t.0 {
                                    assert(on[oe[k].1.0 as int]@ != on[t.0 as int]@);
                                } else {
                                    assert(on[t.0 as int]@ != on[oe[k].1.0 as int]@);
                                }
                            }
                            assert(oe[k] == (f, t));
                            assert(oe.contains((f, t)));
                        }
                        if oe.contains((f, t)) {
                            let k = choose|k: int| 0 <= k < oe.len() && oe[k] == (f, t);
                            assert(on[(oe[k]).0.0 as int]@ == va);
                        }
                        assert(unique == !other.has_edge_between_views(va, vb));
                    },
                    _ => {
                        if other.has_edge_between_views(va, vb) {
                            let k = choose|k: int| 0 <= k < oe.len() && on[(#[trigger] oe[k]).0.0 as int]@ == va && on[oe[k].1.0 as int]@ == vb;
                            assert(oe[k].0.0 < on.len() && oe[k].1.0 < on.len());
                            if from is None {
                                assert(has_view(on, va));
                            } else {
                                assert(has_view(on, vb));
                            }
                        }
                        assert(unique == !other.has_edge_between_views(va, vb));
                    },
                }
            }
            if unique {
                edges.insert(EdgeIndex(e));
            }
            proof {
                assert(edges.view() =~= Set::new(|k: usize| k < e + 1 && !other.has_edge_between_views(
                    self.spec_nodes()[self.spec_edges()[k as int].0.0 as int]@,
                    self.spec_nodes()[self.spec_edges()[k as int].1.0 as int]@,
                )));
            }
            e = e + 1;
        }
        proof {
            assert(edges.view() =~= self.only_edges(other));
        }
        edges
    }

    /// Diffs this graph (the left) with another graph (the right).
    pub fn diff(&self, other: &Graph<N, E>) -> (r: Diff)
        requires
            self.wf(),
            other.wf(),
            self.views_distinct(),
            other.views_distinct(),
            obeys_view_eq::<N>(),
        ensures
            r.left_only_nodes.view() == self.only_nodes(other),
            r.right_only_nodes.view() == other.only_nodes(self),
            r.left_only_edges.view() == self.only_edges(other),
            r.right_only_edges.view() == other.only_edges(self),
    {
        Diff {
            left_only_nodes: self.unique_nodes(other),
            right_only_nodes: other.unique_nodes(self),
            left_only_edges: self.unique_edges(other),
            right_only_edges: other.unique_edges(self),
        }
    }
}

/// A graph has nothing that it does not share with itself: its diff with
/// itself is empty on all four sides.
pub proof fn lemma_diff_with_self_empty<N: View, E>(g: &Graph<N, E>)
    requires
        g.wf(),
    ensures
        g.only_nodes(g) == Set::<usize>::empty(),
        g.only_edges(g) == Set::<usize>::empty(),
{
    assert forall|i: usize| !g.only_nodes(g).contains(i) by {
        if i < g.spec_nodes().len() {
            assert(has_view(g.spec_nodes(), g.spec_nodes()[i as int]@));
        }
    }
    assert forall|e: usize| !g.only_edges(g).contains(e) by {
        if e < g.spec_edges().len() {
            let k = e as int;
            assert(g.spec_edges()[k] == g.spec_edges()[k]);
            assert(g.has_edge_between_views(
                g.spec_nodes()[g.spec_edges()[k].0.0 as int]@,
                g.spec_nodes()[g.spec_edges()[k].1.0 as int]@,
            ));
        }
    }
    assert(g.only_nodes(g) =~= Set::<usize>::empty());
    assert(g.only_edges(g) =~= Set::<usize>::empty());
}

} // verus!
