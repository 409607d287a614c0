use std::cmp::Ordering;

use vstd::prelude::*;
use vstd::laws_cmp::obeys_partial_cmp_spec_properties;
use vstd::laws_eq::obeys_view_eq;
use vstd::std_specs::cmp::PartialOrdSpec;
use vstd::pervasive::cloned;

use crate::graph::{Graph, has_view, in_list, lemma_in_list_members};
use crate::index::NodeIndex;
use crate::rules::{Rule, Rules};
use crate::tarjan::{edge_between, edges_point_back, is_cycle, lemma_mutual_reach_cycle, lemma_single_components_acyclic, partitions, reaches, strongly_connected};

verus! {

/// A node in the build graph: a resource, or the tasks of a rule.
#[derive(Clone, Debug, Hash)]
pub enum Node<R, T> {
    Resource(R),
    Task(T),
}

impl<R: View, T: View> View for Node<R, T> {
    type V = Node<R::V, T::V>;

    open spec fn view(&self) -> Node<R::V, T::V> {
        match self {
            Node::Resource(r) => Node::Resource(r@),
            Node::Task(t) => Node::Task(t@),
        }
    }
}

impl<R, T> Node<R, T> {
    /// The resource of a resource node.
    pub fn as_res(&self) -> (r: &R)
        requires
            self is Resource,
        ensures
            *r == self->Resource_0,
    {
        match self {
            Node::Resource(r) => r,
            Node::Task(_) => vstd::pervasive::unreached(),
        }
    }

    /// The tasks of a task node.
    pub fn as_task(&self) -> (r: &T)
        requires
            self is Task,
        ensures
            *r == self->Task_0,
    {
        match self {
            Node::Task(t) => t,
            Node::Resource(_) => vstd::pervasive::unreached(),
        }
    }

    /// Returns `true` for a resource node.
    pub fn is_resource(&self) -> (r: bool)
        ensures
            r == (self is Resource),
    {
        match self {
            Node::Resource(_) => true,
            Node::Task(_) => false,
        }
    }
}

impl<R: PartialEq + View, T: PartialEq + View> PartialEq for Node<R, T> {
    fn eq(&self, other: &Self) -> (r: bool) {
        proof {
            reveal(obeys_view_eq);
        }
        match (self, other) {
            (Node::Resource(a), Node::Resource(b)) => a == b,
            (Node::Task(a), Node::Task(b)) => a == b,
            _ => false,
        }
    }
}

impl<R: PartialEq + View, T: PartialEq + View> vstd::std_specs::cmp::PartialEqSpecImpl for Node<R, T> {
    open spec fn obeys_eq_spec() -> bool {
        obeys_view_eq::<R>() && obeys_view_eq::<T>()
    }

    open spec fn eq_spec(&self, other: &Self) -> bool {
        self@ == other@
    }
}

impl<R: Eq + View, T: Eq + View> Eq for Node<R, T> {
}

/// Nodes compare by their views when their resources and tasks do.
pub proof fn lemma_node_obeys_view_eq<R: PartialEq + View, T: PartialEq + View>()
    requires
        obeys_view_eq::<R>(),
        obeys_view_eq::<T>(),
    ensures
        obeys_view_eq::<Node<R, T>>(),
{
    reveal(obeys_view_eq);
}

/// The kind of an edge: one that the build description lists, or one that
/// a build discovered.
#[derive(Clone, Copy, Debug, Hash, PartialEq, Eq, Structural, PartialOrd, Ord)]
pub enum Edge {
    Implicit,
    Explicit,
}

/// A race condition in the build graph: a resource that two or more tasks
/// write.
#[derive(Debug, Clone, PartialEq, Eq, Hash, PartialOrd, Ord)]
pub struct Race<N> {
    /// The node with two or more incoming edges.
    pub node: N,
    /// The number of incoming edges.
    pub count: usize,
}

impl<N> Race<N> {
    /// A race on `node`, written by `count` tasks.
    pub fn new(node: N, count: usize) -> (r: Race<N>)
        ensures
            r.node == node,
            r.count == count,
    {
        Race { node, count }
    }
}

/// `<` on `R` is a total order: `partial_cmp` always compares, and its
/// answers are consistent (the laws of `PartialOrd`, with equality).
pub open spec fn total_order<R: PartialOrd>() -> bool {
    &&& R::obeys_partial_cmp_spec()
    &&& obeys_partial_cmp_spec_properties::<R>()
    &&& forall|x: R, y: R| (#[trigger] x.partial_cmp_spec(&y)) is Some
}

/// The order of races: by resource, then by count.
pub open spec fn race_order_spec<R: PartialOrd>(a: Race<R>, b: Race<R>) -> Ordering {
    match a.node.partial_cmp_spec(&b.node) {
        Some(Ordering::Less) => Ordering::Less,
        Some(Ordering::Greater) => Ordering::Greater,
        _ => if a.count < b.count {
            Ordering::Less
        } else if a.count == b.count {
            Ordering::Equal
        } else {
            Ordering::Greater
        },
    }
}

/// Race `a` comes no later than race `b`.
pub open spec fn race_le<R: PartialOrd>(a: Race<R>, b: Race<R>) -> bool {
    race_order_spec(a, b) != Ordering::Greater
}

/// Compares two races: by resource, then by count.
pub fn race_order<R: PartialOrd>(a: &Race<R>, b: &Race<R>) -> (r: Ordering)
    requires
        R::obeys_partial_cmp_spec(),
    ensures
        r == race_order_spec(*a, *b),
{
    match a.node.partial_cmp(&b.node) {
        Some(Ordering::Less) => Ordering::Less,
        Some(Ordering::Greater) => Ordering::Greater,
        _ => if a.count < b.count {
            Ordering::Less
        } else if a.count == b.count {
            Ordering::Equal
        } else {
            Ordering::Greater
        },
    }
}

/// Sorts the races with `slice::sort_by` and `race_order`, which, the
/// order being total, puts them in that order; the same races come out,
/// each as often as it went in.
#[verifier::external_body]
fn sort_races<R: PartialOrd>(races: &mut Vec<Race<R>>)
    requires
        total_order::<R>(),
    ensures
        final(races)@.to_multiset() == old(races)@.to_multiset(),
        final(races)@.len() == old(races)@.len(),
        forall|i: int, j: int| 0 <= i < j < final(races)@.len() ==> race_le(final(races)@[i], final(races)@[j]),
{
    races.sort_by(|a, b| race_order(a, b));
}

/// The race conditions found in a build graph.
#[derive(Debug, PartialEq, Eq, Hash, PartialOrd, Ord)]
pub struct RaceError<R> {
    pub races: Vec<Race<R>>,
}

impl<R: PartialOrd> RaceError<R> {
    /// The error for the given races, sorted by resource and count so that
    /// the report does not depend on the order in which they were found.
    pub fn new(races: Vec<Race<R>>) -> (r: RaceError<R>)
        requires
            total_order::<R>(),
        ensures
            r.races@.to_multiset() == races@.to_multiset(),
            r.races@.len() == races@.len(),
            forall|i: int, j: int| 0 <= i < j < r.races@.len() ==> race_le(r.races@[i], r.races@[j]),
    {
        let mut races = races;
        sort_races(&mut races);
        RaceError { races }
    }
}

/// The cycles found in a graph: groups of nodes, each a strongly connected
/// component with more than one node.
pub struct CyclesError<N, E> {
    pub graph: Graph<N, E>,
    pub cycles: Vec<Vec<NodeIndex>>,
}

impl<N, E> CyclesError<N, E> {
    pub fn new(graph: Graph<N, E>, cycles: Vec<Vec<NodeIndex>>) -> (r: CyclesError<N, E>)
        ensures
            r.graph == graph,
            r.cycles == cycles,
    {
        CyclesError { graph, cycles }
    }
}

/// Why a build graph could not be made from a set of rules.
pub enum Error<R, T> {
    Races(RaceError<R>),
    Cycles(CyclesError<Node<R, T>, Edge>),
}

/// The graph has no cycle, not even a self-loop.
pub open spec fn acyclic<N, E>(g: &Graph<N, E>) -> bool {
    forall|path: Seq<int>| !is_cycle(g.spec_edges(), path)
}

/// No resource node has more than one incoming edge.
pub open spec fn race_free<R, T, E>(g: &Graph<Node<R, T>, E>) -> bool {
    forall|i: int| 0 <= i < g.spec_nodes().len() && (#[trigger] g.spec_nodes()[i]) is Resource
        ==> in_list(g.spec_edges(), i as usize, g.spec_edges().len()).len() <= 1
}

/// `sccs` are the strongly connected components of a graph with `n` nodes
/// and these edges, listed so that edges point back: a partition of the
/// nodes into strongly connected groups, every edge leading into the same
/// or an earlier group.
pub open spec fn components_of(sccs: Seq<Vec<NodeIndex>>, edges: Seq<(NodeIndex, NodeIndex)>, n: nat) -> bool {
    &&& partitions(sccs, n)
    &&& strongly_connected(sccs, edges)
    &&& edges_point_back(sccs, edges)
}

/// A component lies on a cycle: it has more than one node, or its one
/// node has a self-loop.
pub open spec fn cyclic(c: Vec<NodeIndex>, edges: Seq<(NodeIndex, NodeIndex)>) -> bool {
    c@.len() > 1 || (c@.len() == 1 && edges.contains((c@[0], c@[0])))
}

/// The components that lie on a cycle, in their order.
pub open spec fn cyclic_components(sccs: Seq<Vec<NodeIndex>>, edges: Seq<(NodeIndex, NodeIndex)>) -> Seq<Vec<NodeIndex>> {
    sccs.filter(|c: Vec<NodeIndex>| cyclic(c, edges))
}

/// Checks the graph for cycles, with Tarjan's algorithm for strongly
/// connected components: every component with more than one node, and
/// every node with a self-loop, is reported.
pub fn check_cycles<N, E>(graph: Graph<N, E>) -> (r: Result<Graph<N, E>, CyclesError<N, E>>)
    requires
        graph.wf(),
    ensures
        match r {
            Ok(g) => g == graph && acyclic(&g),
            Err(e) => {
                &&& e.graph == graph
                &&& e.cycles@.len() > 0
                &&& forall|c: int| 0 <= c < e.cycles@.len() ==> cyclic(#[trigger] e.cycles@[c], graph.spec_edges())
                &&& forall|c: int, a: int| 0 <= c < e.cycles@.len() && 0 <= a < e.cycles@[c]@.len()
                    ==> (#[trigger] e.cycles@[c]@[a]).0 < graph.spec_nodes().len()
                &&& strongly_connected(e.cycles@, graph.spec_edges())
                &&& !acyclic(&e.graph)
                &&& exists|sccs: Seq<Vec<NodeIndex>>| components_of(sccs, graph.spec_edges(), graph.spec_nodes().len())
                    && e.cycles@ == cyclic_components(sccs, graph.spec_edges())
            },
        },
{
    let mut sccs = graph.tarjan_scc();
    let ghost all = sccs@;
    let ghost n = graph.spec_nodes().len();
    let mut cycles: Vec<Vec<NodeIndex>> = Vec::new();
    let count = sccs.len();
    let mut k: usize = 0;
    while k < count
        invariant
            k <= count,
            count == all.len(),
            sccs@ == all.subrange(k as int, count as int),
            partitions(all, n),
            graph.wf(),
            all.len() == count,
            forall|j: int| 0 <= j < k && cyclic(#[trigger] all[j], graph.spec_edges()) ==> cycles@.len() > 0,
            forall|c: int| 0 <= c < cycles@.len() ==> cyclic(#[trigger] cycles@[c], graph.spec_edges()),
            forall|c: int, a: int| 0 <= c < cycles@.len() && 0 <= a < cycles@[c]@.len() ==> (#[trigger] cycles@[c]@[a]).0 < n,
            forall|c: int| 0 <= c < cycles@.len() ==> exists|j: int| 0 <= j < k && #[trigger] cycles@[c] == all[j],
            cycles@ == cyclic_components(all.subrange(0, k as int), graph.spec_edges()),
        decreases count - k,
    {
        let scc = sccs.remove(0);
        proof {
            assert(sccs@ =~= all.subrange(k + 1, count as int));
            assert(scc == all[k as int]);
        }
        let ghost before = cycles@;
        let on_cycle = scc.len() > 1 || (scc.len() == 1 && graph.contains_edge(&(scc[0], scc[0])));
        proof {
            assert(on_cycle == cyclic(scc, graph.spec_edges()));
        }
        if on_cycle {
            cycles.push(scc);
        }
        proof {
            reveal(Seq::filter);
            assert(all.subrange(0, k + 1).drop_last() =~= all.subrange(0, k as int));
            assert(all.subrange(0, k + 1).last() == all[k as int]);
            assert forall|c: int| 0 <= c < cycles@.len() implies exists|j: int| 0 <= j < k + 1 && #[trigger] cycles@[c] == all[j] by {
                if c < before.len() {
                    assert(cycles@[c] == before[c]);
                } else {
                    assert(cycles@[c] == all[k as int]);
                }
            }
        }
        k = k + 1;
    }
    if cycles.len() == 0 {
        proof {
            assert forall|c: int| 0 <= c < all.len() implies (#[trigger] all[c])@.len() == 1 && !graph.spec_edges().contains((all[c]@[0], all[c]@[0])) by {
                assert(all[c]@.len() > 0);
                assert(!cyclic(all[c], graph.spec_edges()));
            }
            assert forall|path: Seq<int>| !is_cycle(graph.spec_edges(), path) by {
                lemma_single_components_acyclic(all, graph.spec_edges(), n, path);
            }
        }
        Ok(graph)
    } else {
        proof {
            let edges = graph.spec_edges();
            assert forall|c: int, a1: int, a2: int| 0 <= c < cycles@.len() && 0 <= a1 < cycles@[c]@.len() && 0 <= a2 < cycles@[c]@.len()
                implies reaches(edges, (#[trigger] cycles@[c]@[a1]).0 as int, (#[trigger] cycles@[c]@[a2]).0 as int) by {
                let j = choose|j: int| 0 <= j < count && #[trigger] cycles@[c] == all[j];
                assert(cycles@[c]@[a1] == all[j]@[a1]);
                assert(cycles@[c]@[a2] == all[j]@[a2]);
            }
            let j = choose|j: int| 0 <= j < count && #[trigger] cycles@[0] == all[j];
            assert(cyclic(cycles@[0], edges));
            if cycles@[0]@.len() > 1 {
                assert(all[j]@[0] != all[j]@[1]);
                assert(cycles@[0]@[0].0 != cycles@[0]@[1].0);
                lemma_mutual_reach_cycle(edges, cycles@[0]@[0].0 as int, cycles@[0]@[1].0 as int);
            } else {
                let x = cycles@[0]@[0];
                let e = choose|e: int| 0 <= e < edges.len() && edges[e] == (x, x);
                let path = seq![x.0 as int, x.0 as int];
                assert(edge_between(edges, x.0 as int, x.0 as int)) by {
                    assert(edges[e].0.0 == x.0 && edges[e].1.0 == x.0);
                }
                assert(is_cycle(edges, path));
            }
            assert(all.subrange(0, count as int) =~= all);
            assert(components_of(all, edges, n));
        }
        Err(CyclesError::new(graph, cycles))
    }
}

/// `races` reports exactly the resource nodes below `upto` that have more
/// than one incoming edge: each race is such a node (a clone of its
/// resource) with its number of incoming edges, and each such node has a
/// race.
pub open spec fn races_report<R: Clone, T>(races: Seq<Race<R>>, nodes: Seq<Node<R, T>>, edges: Seq<(NodeIndex, NodeIndex)>, upto: int) -> bool {
    &&& forall|k: int| 0 <= k < races.len() ==> {
        let race = #[trigger] races[k];
        &&& race.count > 1
        &&& exists|j: int| 0 <= j < upto && (#[trigger] nodes[j]) is Resource
            && race.count == in_list(edges, j as usize, edges.len()).len()
            && cloned(nodes[j]->Resource_0, race.node)
    }
    &&& forall|j: int| 0 <= j < upto && (#[trigger] nodes[j]) is Resource && in_list(edges, j as usize, edges.len()).len() > 1
        ==> exists|k: int| 0 <= k < races.len()
            && (#[trigger] races[k]).count == in_list(edges, j as usize, edges.len()).len()
            && cloned(nodes[j]->Resource_0, races[k].node)
}

proof fn lemma_races_report_permuted<R: Clone, T>(found: Seq<Race<R>>, sorted: Seq<Race<R>>, nodes: Seq<Node<R, T>>, edges: Seq<(NodeIndex, NodeIndex)>, upto: int)
    requires
        races_report(found, nodes, edges, upto),
        sorted.to_multiset() == found.to_multiset(),
    ensures
        races_report(sorted, nodes, edges, upto),
{
    sorted.to_multiset_ensures();
    found.to_multiset_ensures();
    assert forall|k: int| 0 <= k < sorted.len() implies {
        let race = #[trigger] sorted[k];
        &&& race.count > 1
        &&& exists|j: int| 0 <= j < upto && (#[trigger] nodes[j]) is Resource
            && race.count == in_list(edges, j as usize, edges.len()).len()
            && cloned(nodes[j]->Resource_0, race.node)
    } by {
        assert(sorted.contains(sorted[k]));
        assert(sorted.to_multiset().count(sorted[k]) > 0);
        assert(found.to_multiset().count(sorted[k]) > 0);
        assert(found.contains(sorted[k]));
        let k2 = choose|k2: int| 0 <= k2 < found.len() && found[k2] == sorted[k];
        assert(found[k2] == sorted[k]);
    }
    assert forall|j: int| 0 <= j < upto && (#[trigger] nodes[j]) is Resource && in_list(edges, j as usize, edges.len()).len() > 1
        implies exists|k: int| 0 <= k < sorted.len()
            && (#[trigger] sorted[k]).count == in_list(edges, j as usize, edges.len()).len()
            && cloned(nodes[j]->Resource_0, sorted[k].node) by {
        let k = choose|k: int| 0 <= k < found.len()
            && (#[trigger] found[k]).count == in_list(edges, j as usize, edges.len()).len()
            && cloned(nodes[j]->Resource_0, found[k].node);
        assert(found.contains(found[k]));
        assert(found.to_multiset().count(found[k]) > 0);
        assert(sorted.to_multiset().count(found[k]) > 0);
        assert(sorted.contains(found[k]));
        let k2 = choose|k2: int| 0 <= k2 < sorted.len() && sorted[k2] == found[k];
        assert(sorted[k2] == found[k]);
    }
}

/// One more node examined: the report grows by that node's race, if it
/// has one.
proof fn lemma_races_report_step<R: Clone, T>(before: Seq<Race<R>>, after: Seq<Race<R>>, nodes: Seq<Node<R, T>>, edges: Seq<(NodeIndex, NodeIndex)>, i: int)
    requires
        0 <= i < nodes.len(),
        races_report(before, nodes, edges, i),
        (after == before && !(nodes[i] is Resource && in_list(edges, i as usize, edges.len()).len() > 1)) || (
            nodes[i] is Resource
            && after.len() == before.len() + 1
            && after.drop_last() == before
            && after.last().count == in_list(edges, i as usize, edges.len()).len()
            && after.last().count > 1
            && cloned(nodes[i]->Resource_0, after.last().node)
        ),
    ensures
        races_report(after, nodes, edges, i + 1),
{
    assert forall|k: int| 0 <= k < after.len() implies {
        let race = #[trigger] after[k];
        &&& race.count > 1
        &&& exists|j: int| 0 <= j < i + 1 && (#[trigger] nodes[j]) is Resource
            && race.count == in_list(edges, j as usize, edges.len()).len()
            && cloned(nodes[j]->Resource_0, race.node)
    } by {
        if k < before.len() {
            assert(after[k] == before[k]);
        } else {
            assert(nodes[i] is Resource);
        }
    }
    assert forall|j: int| 0 <= j < i + 1 && (#[trigger] nodes[j]) is Resource && in_list(edges, j as usize, edges.len()).len() > 1
        implies exists|k: int| 0 <= k < after.len()
            && (#[trigger] after[k]).count == in_list(edges, j as usize, edges.len()).len()
            && cloned(nodes[j]->Resource_0, after[k].node) by {
        if j < i {
            let k = choose|k: int| 0 <= k < before.len()
                && (#[trigger] before[k]).count == in_list(edges, j as usize, edges.len()).len()
                && cloned(nodes[j]->Resource_0, before[k].node);
            assert(after[k] == before[k]);
        } else {
            let k = after.len() - 1;
            assert(after[k].count == in_list(edges, j as usize, edges.len()).len());
        }
    }
}

/// The positions below `upto` of the resources with more than one incoming
/// edge.
pub open spec fn racing_nodes<R, T>(nodes: Seq<Node<R, T>>, edges: Seq<(NodeIndex, NodeIndex)>, upto: int) -> Set<int> {
    Set::new(|j: int| 0 <= j < upto && nodes[j] is Resource && in_list(edges, j as usize, edges.len()).len() > 1)
}

proof fn lemma_racing_nodes_step<R, T>(nodes: Seq<Node<R, T>>, edges: Seq<(NodeIndex, NodeIndex)>, i: int)
    requires
        0 <= i,
        racing_nodes(nodes, edges, i).finite(),
    ensures
        racing_nodes(nodes, edges, i + 1).finite(),
        racing_nodes(nodes, edges, i + 1).len() == racing_nodes(nodes, edges, i).len()
            + if nodes[i] is Resource && in_list(edges, i as usize, edges.len()).len() > 1 { 1int } else { 0int },
{
    let before = racing_nodes(nodes, edges, i);
    if nodes[i] is Resource && in_list(edges, i as usize, edges.len()).len() > 1 {
        assert(racing_nodes(nodes, edges, i + 1) =~= before.insert(i));
        assert(!before.contains(i));
    } else {
        assert(racing_nodes(nodes, edges, i + 1) =~= before);
    }
}

/// A graph for which a race is reported is not race-free: some resource in
/// it is written by more than one task.
pub proof fn lemma_reported_race<R: Clone, T, E>(races: Seq<Race<R>>, g: &Graph<Node<R, T>, E>)
    requires
        races.len() > 0,
        races_report(races, g.spec_nodes(), g.spec_edges(), g.spec_nodes().len() as int),
    ensures
        !race_free(g),
{
    let nodes = g.spec_nodes();
    let edges = g.spec_edges();
    let race = races[0];
    let j = choose|j: int| 0 <= j < nodes.len() && (#[trigger] nodes[j]) is Resource
        && race.count == in_list(edges, j as usize, edges.len()).len()
        && cloned(nodes[j]->Resource_0, race.node);
    assert(nodes[j] is Resource);
}

/// Checks the graph for race conditions: resources that two or more tasks
/// write. Each is reported with the number of tasks that write it.
pub fn check_races<R: Clone + PartialOrd + View, T: View>(graph: Graph<Node<R, T>, Edge>) -> (r: Result<Graph<Node<R, T>, Edge>, RaceError<R>>)
    requires
        graph.wf(),
        total_order::<R>(),
    ensures
        match r {
            Ok(g) => g == graph && race_free(&g),
            Err(e) => e.races@.len() > 0 && races_report(e.races@, graph.spec_nodes(), graph.spec_edges(), graph.spec_nodes().len() as int)
                && e.races@.len() == racing_nodes(graph.spec_nodes(), graph.spec_edges(), graph.spec_nodes().len() as int).len()
                && forall|a: int, b: int| 0 <= a < b < e.races@.len() ==> race_le(e.races@[a], e.races@[b]),
        },
{
    let mut races: Vec<Race<R>> = Vec::new();
    let n = graph.node_count();
    let ghost nodes = graph.spec_nodes();
    let ghost edges = graph.spec_edges();
    let mut i: usize = 0;
    proof {
        assert(racing_nodes(nodes, edges, 0) =~= Set::<int>::empty());
    }
    while i < n
        invariant
            graph.wf(),
            nodes == graph.spec_nodes(),
            edges == graph.spec_edges(),
            n == nodes.len(),
            i <= n,
            races_report(races@, nodes, edges, i as int),
            racing_nodes(nodes, edges, i as int).finite(),
            races@.len() == racing_nodes(nodes, edges, i as int).len(),
        decreases n - i,
    {
        let node = graph.node_from_index(NodeIndex(i));
        let ghost before = races@;
        match node {
            Node::Resource(res) => {
                let incoming = graph.incoming(NodeIndex(i)).len();
                if incoming > 1 {
                    let copy = res.clone();
                    races.push(Race::new(copy, incoming));
                    proof {
                        assert(races@.drop_last() =~= before);
                    }
                }
            },
            Node::Task(_) => {},
        }
        proof {
            lemma_races_report_step(before, races@, nodes, edges, i as int);
            lemma_racing_nodes_step(nodes, edges, i as int);
        }
        i = i + 1;
    }
    if races.len() == 0 {
        proof {
            assert forall|j: int| 0 <= j < n && (#[trigger] nodes[j]) is Resource implies in_list(edges, j as usize, edges.len()).len() <= 1 by {
                if in_list(edges, j as usize, edges.len()).len() > 1 {
                    assert(nodes[j] is Resource);
                }
            }
        }
        Ok(graph)
    } else {
        let ghost found = races@;
        let err = RaceError::new(races);
        proof {
            lemma_races_report_permuted(found, err.races@, nodes, edges, n as int);
        }
        Err(err)
    }
}

/// Node `v` is the tasks, an input or an output of the rule.
pub open spec fn node_of_rule<RV, TV>(rule: (TV, Seq<RV>, Seq<RV>), v: Node<RV, TV>) -> bool {
    ||| v == Node::<RV, TV>::Task(rule.0)
    ||| exists|j: int| 0 <= j < rule.1.len() && v == Node::<RV, TV>::Resource(#[trigger] rule.1[j])
    ||| exists|j: int| 0 <= j < rule.2.len() && v == Node::<RV, TV>::Resource(#[trigger] rule.2[j])
}

/// `(a, b)` leads from an input of the rule to its tasks, or from its tasks
/// to an output.
pub open spec fn edge_of_rule<RV, TV>(rule: (TV, Seq<RV>, Seq<RV>), a: Node<RV, TV>, b: Node<RV, TV>) -> bool {
    ||| (exists|j: int| 0 <= j < rule.1.len() && a == Node::<RV, TV>::Resource(#[trigger] rule.1[j])) && b == Node::<RV, TV>::Task(rule.0)
    ||| a == Node::<RV, TV>::Task(rule.0) && (exists|j: int| 0 <= j < rule.2.len() && b == Node::<RV, TV>::Resource(#[trigger] rule.2[j]))
}

/// Node `v` comes from one of the rules.
pub open spec fn rules_node<RV, TV>(rules: Seq<(TV, Seq<RV>, Seq<RV>)>, v: Node<RV, TV>) -> bool {
    exists|i: int| 0 <= i < rules.len() && node_of_rule(#[trigger] rules[i], v)
}

/// Edge `(a, b)` comes from one of the rules.
pub open spec fn rules_edge<RV, TV>(rules: Seq<(TV, Seq<RV>, Seq<RV>)>, a: Node<RV, TV>, b: Node<RV, TV>) -> bool {
    exists|i: int| 0 <= i < rules.len() && edge_of_rule(#[trigger] rules[i], a, b)
}

/// The rules, by their views.
pub open spec fn rules_view<R: View, T: View>(rules: Seq<Rule<R, T>>) -> Seq<(T::V, Seq<R::V>, Seq<R::V>)> {
    rules.map_values(|r: Rule<R, T>| r@)
}

/// The number of tasks, inputs and outputs that the rules list.
pub open spec fn rules_size<R, T>(rules: Seq<Rule<R, T>>) -> nat
    decreases rules.len(),
{
    if rules.len() == 0 {
        0
    } else {
        rules_size(rules.drop_last()) + 1 + rules.last().inputs@.len() + rules.last().outputs@.len()
    }
}

/// Every edge is explicit.
pub open spec fn all_explicit<N>(g: &Graph<N, Edge>) -> bool {
    forall|e: int| 0 <= e < g.spec_weights().len() ==> g.spec_weights()[e] == Edge::Explicit
}

impl<R: View, T: View> Graph<Node<R, T>, Edge> {
    /// The graph of the rules: its nodes are, up to equality, the tasks,
    /// inputs and outputs of the rules, each once; its edges lead from each
    /// input to its tasks and from the tasks to each output, and are all
    /// explicit.
    pub open spec fn builds(&self, rules: Seq<(T::V, Seq<R::V>, Seq<R::V>)>) -> bool {
        &&& self.wf()
        &&& self.views_distinct()
        &&& all_explicit(self)
        &&& forall|v: Node<R::V, T::V>| #![trigger has_view(self.spec_nodes(), v)] #![trigger rules_node(rules, v)]
            has_view(self.spec_nodes(), v) <==> rules_node(rules, v)
        &&& forall|a: Node<R::V, T::V>, b: Node<R::V, T::V>| #![trigger self.has_edge_between_views(a, b)] #![trigger rules_edge(rules, a, b)]
            self.has_edge_between_views(a, b) <==> rules_edge(rules, a, b)
    }
}

proof fn lemma_rules_size_prefix<R, T>(rules: Seq<Rule<R, T>>, k: int)
    requires
        0 <= k <= rules.len(),
    ensures
        rules_size(rules.take(k)) <= rules_size(rules),
    decreases rules.len(),
{
    if k < rules.len() {
        lemma_rules_size_prefix(rules.drop_last(), k);
        assert(rules.drop_last().take(k) =~= rules.take(k));
    } else {
        assert(rules.take(k) =~= rules);
    }
}

/// Adds resource `r` and an explicit edge between it and the node at
/// `task`: into the task for an input, out of it for an output.
fn add_resource<R: PartialEq + View, T: PartialEq + View>(g: &mut Graph<Node<R, T>, Edge>, r: R, task: NodeIndex, input: bool)
    requires
        old(g).wf(),
        old(g).views_distinct(),
        all_explicit(old(g)),
        task.0 < old(g).spec_nodes().len(),
        obeys_view_eq::<R>(),
        obeys_view_eq::<T>(),
        old(g).spec_nodes().len() + 2 < usize::MAX,
        old(g).spec_edges().len() + 2 < usize::MAX,
    ensures
        final(g).wf(),
        final(g).views_distinct(),
        all_explicit(final(g)),
        old(g).spec_nodes().len() <= final(g).spec_nodes().len() <= old(g).spec_nodes().len() + 1,
        final(g).spec_edges().len() <= old(g).spec_edges().len() + 1,
        forall|i: int| 0 <= i < old(g).spec_nodes().len() ==> #[trigger] final(g).spec_nodes()[i] == old(g).spec_nodes()[i],
        forall|v: Node<R::V, T::V>| #[trigger] has_view(final(g).spec_nodes(), v)
            <==> has_view(old(g).spec_nodes(), v) || v == Node::<R::V, T::V>::Resource(r@),
        forall|a: Node<R::V, T::V>, b: Node<R::V, T::V>| #[trigger] final(g).has_edge_between_views(a, b)
            <==> old(g).has_edge_between_views(a, b) || (if input {
                a == Node::<R::V, T::V>::Resource(r@) && b == old(g).spec_nodes()[task.0 as int]@
            } else {
                a == old(g).spec_nodes()[task.0 as int]@ && b == Node::<R::V, T::V>::Resource(r@)
            }),
{
    proof {
        lemma_node_obeys_view_eq::<R, T>();
    }
    let ghost rv = r@;
    let ghost g0 = *g;
    let node = g.add_node(Node::Resource(r));
    let ghost g1 = *g;
    if input {
        g.add_edge(node, task, Edge::Explicit);
    } else {
        g.add_edge(task, node, Edge::Explicit);
    }
    proof {
        let n0 = g0.spec_nodes();
        let nodes = g.spec_nodes();
        assert(nodes == g1.spec_nodes());
        assert forall|i: int| 0 <= i < n0.len() implies #[trigger] nodes[i] == n0[i] by {
            if !has_view(n0, Node::<R::V, T::V>::Resource(rv)) {
                assert(nodes == n0.push(Node::Resource(g1.spec_nodes()[node.0 as int]->Resource_0)) || nodes == n0.push(nodes.last()));
            }
        }
        assert forall|v: Node<R::V, T::V>| #[trigger] has_view(nodes, v)
            <==> has_view(n0, v) || v == Node::<R::V, T::V>::Resource(rv) by {
            if has_view(nodes, v) {
                let i = choose|i: int| 0 <= i < nodes.len() && (#[trigger] nodes[i])@ == v;
                if i < n0.len() {
                    assert(nodes[i] == n0[i]);
                } else {
                    assert(i == node.0);
                }
            }
            if has_view(n0, v) {
                let i = choose|i: int| 0 <= i < n0.len() && (#[trigger] n0[i])@ == v;
                assert(nodes[i] == n0[i]);
            }
            if v == Node::<R::V, T::V>::Resource(rv) {
                assert(nodes[node.0 as int]@ == v);
            }
        }
        let e0 = g0.spec_edges();
        let edges = g.spec_edges();
        assert(g1.spec_edges() == e0);
        assert forall|a: Node<R::V, T::V>, b: Node<R::V, T::V>| #[trigger] g.has_edge_between_views(a, b)
            <==> g0.has_edge_between_views(a, b) || (if input {
                a == Node::<R::V, T::V>::Resource(rv) && b == n0[task.0 as int]@
            } else {
                a == n0[task.0 as int]@ && b == Node::<R::V, T::V>::Resource(rv)
            }) by {
            if g.has_edge_between_views(a, b) {
                let e = choose|e: int| 0 <= e < edges.len()
                    && nodes[(#[trigger] edges[e]).0.0 as int]@ == a && nodes[edges[e].1.0 as int]@ == b;
                if e < e0.len() {
                    assert(edges[e] == e0[e]);
                    assert(e0[e].0.0 < n0.len() && e0[e].1.0 < n0.len());
                    assert(g0.has_edge_between_views(a, b));
                }
            }
            if g0.has_edge_between_views(a, b) {
                let e = choose|e: int| 0 <= e < e0.len()
                    && n0[(#[trigger] e0[e]).0.0 as int]@ == a && n0[e0[e].1.0 as int]@ == b;
                assert(e0[e].0.0 < n0.len() && e0[e].1.0 < n0.len());
                assert(edges[e] == e0[e]);
                assert(nodes[edges[e].0.0 as int]@ == a);
                assert(nodes[edges[e].1.0 as int]@ == b);
            }
            let pair = if input { (node, task) } else { (task, node) };
            assert(edges.contains(pair));
            let e3 = choose|e3: int| 0 <= e3 < edges.len() && edges[e3] == pair;
            if input {
                if a == Node::<R::V, T::V>::Resource(rv) && b == n0[task.0 as int]@ {
                    assert(nodes[edges[e3].0.0 as int]@ == a);
                    assert(nodes[edges[e3].1.0 as int]@ == b);
                }
            } else {
                if a == n0[task.0 as int]@ && b == Node::<R::V, T::V>::Resource(rv) {
                    assert(nodes[edges[e3].0.0 as int]@ == a);
                    assert(nodes[edges[e3].1.0 as int]@ == b);
                }
            }
        }
    }
}

/// Adds the node of a rule's tasks.
fn add_task<R: PartialEq + View, T: PartialEq + View>(g: &mut Graph<Node<R, T>, Edge>, t: T) -> (r: NodeIndex)
    requires
        old(g).wf(),
        old(g).views_distinct(),
        all_explicit(old(g)),
        obeys_view_eq::<R>(),
        obeys_view_eq::<T>(),
        old(g).spec_nodes().len() + 2 < usize::MAX,
    ensures
        final(g).wf(),
        final(g).views_distinct(),
        all_explicit(final(g)),
        final(g).spec_nodes().len() <= old(g).spec_nodes().len() + 1,
        final(g).spec_edges() == old(g).spec_edges(),
        r.0 < final(g).spec_nodes().len(),
        final(g).spec_nodes()[r.0 as int]@ == Node::<R::V, T::V>::Task(t@),
        forall|i: int| 0 <= i < old(g).spec_nodes().len() ==> #[trigger] final(g).spec_nodes()[i] == old(g).spec_nodes()[i],
        forall|v: Node<R::V, T::V>| #[trigger] has_view(final(g).spec_nodes(), v)
            <==> has_view(old(g).spec_nodes(), v) || v == Node::<R::V, T::V>::Task(t@),
        forall|a: Node<R::V, T::V>, b: Node<R::V, T::V>| #[trigger] final(g).has_edge_between_views(a, b)
            <==> old(g).has_edge_between_views(a, b),
{
    proof {
        lemma_node_obeys_view_eq::<R, T>();
    }
    let ghost tv = t@;
    let ghost g0 = *g;
    let r = g.add_node(Node::Task(t));
    proof {
        let n0 = g0.spec_nodes();
        let nodes = g.spec_nodes();
        assert forall|i: int| 0 <= i < n0.len() implies #[trigger] nodes[i] == n0[i] by {}
        assert forall|v: Node<R::V, T::V>| #[trigger] has_view(nodes, v)
            <==> has_view(n0, v) || v == Node::<R::V, T::V>::Task(tv) by {
            if has_view(nodes, v) {
                let i = choose|i: int| 0 <= i < nodes.len() && (#[trigger] nodes[i])@ == v;
                if i < n0.len() {
                    assert(nodes[i] == n0[i]);
                }
            }
            if has_view(n0, v) {
                let i = choose|i: int| 0 <= i < n0.len() && (#[trigger] n0[i])@ == v;
                assert(nodes[i] == n0[i]);
            }
            if v == Node::<R::V, T::V>::Task(tv) {
                assert(nodes[r.0 as int]@ == v);
            }
        }
        let edges = g.spec_edges();
        assert forall|a: Node<R::V, T::V>, b: Node<R::V, T::V>| #[trigger] g.has_edge_between_views(a, b)
            <==> g0.has_edge_between_views(a, b) by {
            if g.has_edge_between_views(a, b) {
                let e = choose|e: int| 0 <= e < edges.len()
                    && nodes[(#[trigger] edges[e]).0.0 as int]@ == a && nodes[edges[e].1.0 as int]@ == b;
                assert(edges[e].0.0 < n0.len() && edges[e].1.0 < n0.len());
                assert(n0[edges[e].0.0 as int]@ == a);
            }
            if g0.has_edge_between_views(a, b) {
                let e = choose|e: int| 0 <= e < edges.len()
                    && n0[(#[trigger] edges[e]).0.0 as int]@ == a && n0[edges[e].1.0 as int]@ == b;
                assert(edges[e].0.0 < n0.len() && edges[e].1.0 < n0.len());
                assert(nodes[edges[e].0.0 as int]@ == a);
            }
        }
    }
    r
}

/// A rule with nothing but its tasks adds their node and no edge.
proof fn lemma_rules_push_tasks<RV, TV>(rs: Seq<(TV, Seq<RV>, Seq<RV>)>, t: TV)
    ensures
        forall|v: Node<RV, TV>| #[trigger] rules_node(rs.push((t, Seq::empty(), Seq::empty())), v)
            == (rules_node(rs, v) || v == Node::<RV, TV>::Task(t)),
        forall|a: Node<RV, TV>, b: Node<RV, TV>| #[trigger] rules_edge(rs.push((t, Seq::empty(), Seq::empty())), a, b)
            == rules_edge(rs, a, b),
{
    let x = (t, Seq::<RV>::empty(), Seq::<RV>::empty());
    let rs2 = rs.push(x);
    assert forall|v: Node<RV, TV>| #[trigger] rules_node(rs2, v) == (rules_node(rs, v) || v == Node::<RV, TV>::Task(t)) by {
        if rules_node(rs2, v) {
            let i = choose|i: int| 0 <= i < rs2.len() && node_of_rule(#[trigger] rs2[i], v);
            if i < rs.len() {
                assert(rs[i] == rs2[i]);
            }
        }
        if rules_node(rs, v) {
            let i = choose|i: int| 0 <= i < rs.len() && node_of_rule(#[trigger] rs[i], v);
            assert(rs2[i] == rs[i]);
        }
        if v == Node::<RV, TV>::Task(t) {
            assert(node_of_rule(rs2[rs.len() as int], v));
        }
    }
    assert forall|a: Node<RV, TV>, b: Node<RV, TV>| #[trigger] rules_edge(rs2, a, b) == rules_edge(rs, a, b) by {
        if rules_edge(rs2, a, b) {
            let i = choose|i: int| 0 <= i < rs2.len() && edge_of_rule(#[trigger] rs2[i], a, b);
            if i < rs.len() {
                assert(rs[i] == rs2[i]);
            }
        }
        if rules_edge(rs, a, b) {
            let i = choose|i: int| 0 <= i < rs.len() && edge_of_rule(#[trigger] rs[i], a, b);
            assert(rs2[i] == rs[i]);
        }
    }
}

/// One more input of the last rule adds its node and its edge into the
/// tasks.
proof fn lemma_rules_push_input<RV, TV>(rs: Seq<(TV, Seq<RV>, Seq<RV>)>, t: TV, ins: Seq<RV>, outs: Seq<RV>, r: RV)
    ensures
        forall|v: Node<RV, TV>| #[trigger] rules_node(rs.push((t, ins.push(r), outs)), v)
            == (rules_node(rs.push((t, ins, outs)), v) || v == Node::<RV, TV>::Resource(r)),
        forall|a: Node<RV, TV>, b: Node<RV, TV>| #[trigger] rules_edge(rs.push((t, ins.push(r), outs)), a, b)
            == (rules_edge(rs.push((t, ins, outs)), a, b) || (a == Node::<RV, TV>::Resource(r) && b == Node::<RV, TV>::Task(t))),
{
    let old_rs = rs.push((t, ins, outs));
    let new_rs = rs.push((t, ins.push(r), outs));
    let last = rs.len() as int;
    assert(old_rs[last] == (t, ins, outs));
    assert(new_rs[last] == (t, ins.push(r), outs));
    assert forall|v: Node<RV, TV>| #[trigger] rules_node(new_rs, v) == (rules_node(old_rs, v) || v == Node::<RV, TV>::Resource(r)) by {
        if rules_node(new_rs, v) {
            let i = choose|i: int| 0 <= i < new_rs.len() && node_of_rule(#[trigger] new_rs[i], v);
            if i < last {
                assert(old_rs[i] == new_rs[i]);
            } else {
                if exists|j: int| 0 <= j < ins.len() + 1 && v == Node::<RV, TV>::Resource(#[trigger] ins.push(r)[j]) {
                    let j = choose|j: int| 0 <= j < ins.len() + 1 && v == Node::<RV, TV>::Resource(#[trigger] ins.push(r)[j]);
                    if j < ins.len() {
                        assert(ins.push(r)[j] == ins[j]);
                        assert(old_rs[last].1[j] == ins[j]);
                        assert(node_of_rule(old_rs[last], v));
                    }
                } else {
                    if exists|j: int| 0 <= j < outs.len() && v == Node::<RV, TV>::Resource(#[trigger] outs[j]) {
                        let j = choose|j: int| 0 <= j < outs.len() && v == Node::<RV, TV>::Resource(#[trigger] outs[j]);
                        assert(old_rs[last].2[j] == outs[j]);
                    }
                    assert(node_of_rule(old_rs[last], v));
                }
            }
        }
        if rules_node(old_rs, v) {
            let i = choose|i: int| 0 <= i < old_rs.len() && node_of_rule(#[trigger] old_rs[i], v);
            if i < last {
                assert(new_rs[i] == old_rs[i]);
            } else {
                if exists|j: int| 0 <= j < ins.len() && v == Node::<RV, TV>::Resource(#[trigger] ins[j]) {
                    let j = choose|j: int| 0 <= j < ins.len() && v == Node::<RV, TV>::Resource(#[trigger] ins[j]);
                    assert(ins.push(r)[j] == ins[j]);
                    assert(new_rs[last].1[j] == ins[j]);
                }
                if exists|j: int| 0 <= j < outs.len() && v == Node::<RV, TV>::Resource(#[trigger] outs[j]) {
                    let j = choose|j: int| 0 <= j < outs.len() && v == Node::<RV, TV>::Resource(#[trigger] outs[j]);
                    assert(new_rs[last].2[j] == outs[j]);
                }
                assert(node_of_rule(new_rs[last], v));
            }
        }
        if v == Node::<RV, TV>::Resource(r) {
            assert(ins.push(r)[ins.len() as int] == r);
            assert(new_rs[last].1[ins.len() as int] == r);
            assert(node_of_rule(new_rs[last], v));
        }
    }
    assert forall|a: Node<RV, TV>, b: Node<RV, TV>| #[trigger] rules_edge(new_rs, a, b)
        == (rules_edge(old_rs, a, b) || (a == Node::<RV, TV>::Resource(r) && b == Node::<RV, TV>::Task(t))) by {
        let nl = new_rs[last];
        let ol = old_rs[last];
        if rules_edge(new_rs, a, b) {
            let i = choose|i: int| 0 <= i < new_rs.len() && edge_of_rule(#[trigger] new_rs[i], a, b);
            if i < last {
                assert(old_rs[i] == new_rs[i]);
            } else {
                if exists|j: int| 0 <= j < nl.1.len() && a == Node::<RV, TV>::Resource(#[trigger] nl.1[j]) && b == Node::<RV, TV>::Task(t) {
                    let j = choose|j: int| 0 <= j < nl.1.len() && a == Node::<RV, TV>::Resource(#[trigger] nl.1[j]) && b == Node::<RV, TV>::Task(t);
                    if j < ins.len() {
                        assert(ol.1[j] == nl.1[j]);
                        assert(edge_of_rule(ol, a, b));
                    }
                } else {
                    let j = choose|j: int| 0 <= j < nl.2.len() && b == Node::<RV, TV>::Resource(#[trigger] nl.2[j]);
                    assert(ol.2[j] == nl.2[j]);
                    assert(edge_of_rule(ol, a, b));
                }
            }
        }
        if rules_edge(old_rs, a, b) {
            let i = choose|i: int| 0 <= i < old_rs.len() && edge_of_rule(#[trigger] old_rs[i], a, b);
            if i < last {
                assert(new_rs[i] == old_rs[i]);
            } else {
                if exists|j: int| 0 <= j < ol.1.len() && a == Node::<RV, TV>::Resource(#[trigger] ol.1[j]) && b == Node::<RV, TV>::Task(t) {
                    let j = choose|j: int| 0 <= j < ol.1.len() && a == Node::<RV, TV>::Resource(#[trigger] ol.1[j]) && b == Node::<RV, TV>::Task(t);
                    assert(nl.1[j] == ol.1[j]);
                } else {
                    let j = choose|j: int| 0 <= j < ol.2.len() && b == Node::<RV, TV>::Resource(#[trigger] ol.2[j]);
                    assert(nl.2[j] == ol.2[j]);
                }
                assert(edge_of_rule(nl, a, b));
            }
        }
        if a == Node::<RV, TV>::Resource(r) && b == Node::<RV, TV>::Task(t) {
            assert(nl.1[ins.len() as int] == r);
            assert(edge_of_rule(nl, a, b));
        }
    }
}

/// One more output of the last rule adds its node and its edge out of the
/// tasks.
proof fn lemma_rules_push_output<RV, TV>(rs: Seq<(TV, Seq<RV>, Seq<RV>)>, t: TV, ins: Seq<RV>, outs: Seq<RV>, r: RV)
    ensures
        forall|v: Node<RV, TV>| #[trigger] rules_node(rs.push((t, ins, outs.push(r))), v)
            == (rules_node(rs.push((t, ins, outs)), v) || v == Node::<RV, TV>::Resource(r)),
        forall|a: Node<RV, TV>, b: Node<RV, TV>| #[trigger] rules_edge(rs.push((t, ins, outs.push(r))), a, b)
            == (rules_edge(rs.push((t, ins, outs)), a, b) || (a == Node::<RV, TV>::Task(t) && b == Node::<RV, TV>::Resource(r))),
{
    let old_rs = rs.push((t, ins, outs));
    let new_rs = rs.push((t, ins, outs.push(r)));
    let last = rs.len() as int;
    assert(old_rs[last] == (t, ins, outs));
    assert(new_rs[last] == (t, ins, outs.push(r)));
    assert forall|v: Node<RV, TV>| #[trigger] rules_node(new_rs, v) == (rules_node(old_rs, v) || v == Node::<RV, TV>::Resource(r)) by {
        if rules_node(new_rs, v) {
            let i = choose|i: int| 0 <= i < new_rs.len() && node_of_rule(#[trigger] new_rs[i], v);
            if i < last {
                assert(old_rs[i] == new_rs[i]);
            } else {
                if exists|j: int| 0 <= j < outs.len() + 1 && v == Node::<RV, TV>::Resource(#[trigger] outs.push(r)[j]) {
                    let j = choose|j: int| 0 <= j < outs.len() + 1 && v == Node::<RV, TV>::Resource(#[trigger] outs.push(r)[j]);
                    if j < outs.len() {
                        assert(outs.push(r)[j] == outs[j]);
                        assert(old_rs[last].2[j] == outs[j]);
                        assert(node_of_rule(old_rs[last], v));
                    }
                } else {
                    if exists|j: int| 0 <= j < ins.len() && v == Node::<RV, TV>::Resource(#[trigger] ins[j]) {
                        let j = choose|j: int| 0 <= j < ins.len() && v == Node::<RV, TV>::Resource(#[trigger] ins[j]);
                        assert(old_rs[last].1[j] == ins[j]);
                    }
                    assert(node_of_rule(old_rs[last], v));
                }
            }
        }
        if rules_node(old_rs, v) {
            let i = choose|i: int| 0 <= i < old_rs.len() && node_of_rule(#[trigger] old_rs[i], v);
            if i < last {
                assert(new_rs[i] == old_rs[i]);
            } else {
                if exists|j: int| 0 <= j < outs.len() && v == Node::<RV, TV>::Resource(#[trigger] outs[j]) {
                    let j = choose|j: int| 0 <= j < outs.len() && v == Node::<RV, TV>::Resource(#[trigger] outs[j]);
                    assert(outs.push(r)[j] == outs[j]);
                    assert(new_rs[last].2[j] == outs[j]);
                }
                if exists|j: int| 0 <= j < ins.len() && v == Node::<RV, TV>::Resource(#[trigger] ins[j]) {
                    let j = choose|j: int| 0 <= j < ins.len() && v == Node::<RV, TV>::Resource(#[trigger] ins[j]);
                    assert(new_rs[last].1[j] == ins[j]);
                }
                assert(node_of_rule(new_rs[last], v));
            }
        }
        if v == Node::<RV, TV>::Resource(r) {
            assert(outs.push(r)[outs.len() as int] == r);
            assert(new_rs[last].2[outs.len() as int] == r);
            assert(node_of_rule(new_rs[last], v));
        }
    }
    assert forall|a: Node<RV, TV>, b: Node<RV, TV>| #[trigger] rules_edge(new_rs, a, b)
        == (rules_edge(old_rs, a, b) || (a == Node::<RV, TV>::Task(t) && b == Node::<RV, TV>::Resource(r))) by {
        let nl = new_rs[last];
        let ol = old_rs[last];
        if rules_edge(new_rs, a, b) {
            let i = choose|i: int| 0 <= i < new_rs.len() && edge_of_rule(#[trigger] new_rs[i], a, b);
            if i < last {
                assert(old_rs[i] == new_rs[i]);
            } else {
                if exists|j: int| 0 <= j < nl.1.len() && a == Node::<RV, TV>::Resource(#[trigger] nl.1[j]) && b == Node::<RV, TV>::Task(t) {
                    let j = choose|j: int| 0 <= j < nl.1.len() && a == Node::<RV, TV>::Resource(#[trigger] nl.1[j]) && b == Node::<RV, TV>::Task(t);
                    assert(ol.1[j] == nl.1[j]);
                    assert(edge_of_rule(ol, a, b));
                } else {
                    let j = choose|j: int| 0 <= j < nl.2.len() && b == Node::<RV, TV>::Resource(#[trigger] nl.2[j]);
                    if j < outs.len() {
                        assert(ol.2[j] == nl.2[j]);
                        assert(edge_of_rule(ol, a, b));
                    }
                }
            }
        }
        if rules_edge(old_rs, a, b) {
            let i = choose|i: int| 0 <= i < old_rs.len() && edge_of_rule(#[trigger] old_rs[i], a, b);
            if i < last {
                assert(new_rs[i] == old_rs[i]);
            } else {
                if exists|j: int| 0 <= j < ol.1.len() && a == Node::<RV, TV>::Resource(#[trigger] ol.1[j]) && b == Node::<RV, TV>::Task(t) {
                    let j = choose|j: int| 0 <= j < ol.1.len() && a == Node::<RV, TV>::Resource(#[trigger] ol.1[j]) && b == Node::<RV, TV>::Task(t);
                    assert(nl.1[j] == ol.1[j]);
                } else {
                    let j = choose|j: int| 0 <= j < ol.2.len() && b == Node::<RV, TV>::Resource(#[trigger] ol.2[j]);
                    assert(nl.2[j] == ol.2[j]);
                }
                assert(edge_of_rule(nl, a, b));
            }
        }
        if a == Node::<RV, TV>::Task(t) && b == Node::<RV, TV>::Resource(r) {
            assert(nl.2[outs.len() as int] == r);
            assert(edge_of_rule(nl, a, b));
        }
    }
}

/// The graph of the rules, before any check: a task node per rule, a
/// resource node per input and output, an explicit edge from each input to
/// the tasks of its rule and from the tasks to each output. Equal nodes
/// and equal edges are added once.
pub fn build<R: PartialEq + View, T: PartialEq + View>(rules: Vec<Rule<R, T>>) -> (g: Graph<Node<R, T>, Edge>)
    requires
        obeys_view_eq::<R>(),
        obeys_view_eq::<T>(),
        rules_size(rules@) + 3 < usize::MAX,
    ensures
        g.builds(rules_view(rules@)),
        g.spec_nodes().len() <= rules_size(rules@),
        g.spec_edges().len() <= rules_size(rules@),
{
    let ghost all = rules@;
    let ghost rv = rules_view(all);
    let mut rules = rules;
    let n = rules.len();
    let mut g: Graph<Node<R, T>, Edge> = Graph::new();
    proof {
        assert(rv.take(0) =~= Seq::empty());
        assert forall|v: Node<R::V, T::V>| !has_view(g.spec_nodes(), v) && !rules_node(rv.take(0), v) by {}
        assert forall|a: Node<R::V, T::V>, b: Node<R::V, T::V>| !g.has_edge_between_views(a, b) && !rules_edge(rv.take(0), a, b) by {}
        assert(all.take(0) =~= Seq::empty());
    }
    let mut k: usize = 0;
    while k < n
        invariant
            obeys_view_eq::<R>(),
            obeys_view_eq::<T>(),
            n == all.len(),
            rv == rules_view(all),
            k <= n,
            rules@ == all.subrange(k as int, n as int),
            g.builds(rv.take(k as int)),
            g.spec_nodes().len() <= rules_size(all.take(k as int)),
            g.spec_edges().len() <= rules_size(all.take(k as int)),
            rules_size(all) + 3 < usize::MAX,
        decreases n - k,
    {
        let rule = rules.remove(0);
        proof {
            assert(rules@ =~= all.subrange(k + 1, n as int));
            assert(rule == all[k as int]);
            assert(all.take(k + 1).drop_last() =~= all.take(k as int));
            lemma_rules_size_prefix(all, k + 1);
        }
        let Rule { inputs, outputs, tasks } = rule;
        let ghost tv = tasks@;
        let ghost insv = inputs@.map_values(|r: R| r@);
        let ghost outsv = outputs@.map_values(|r: R| r@);
        let ghost base = rv.take(k as int);
        let ghost size0 = rules_size(all.take(k as int));
        proof {
            assert(rv[k as int] == (tv, insv, outsv));
            lemma_rules_push_tasks(base, tv);
        }
        let task = add_task(&mut g, tasks);
        proof {
            assert(g.builds(base.push((tv, Seq::empty(), Seq::empty()))));
            assert(insv.take(0) =~= Seq::<R::V>::empty());
        }
        let mut inputs = inputs;
        let ghost ins_all = inputs@;
        let m = inputs.len();
        let mut j: usize = 0;
        while j < m
            invariant
                obeys_view_eq::<R>(),
                obeys_view_eq::<T>(),
                m == ins_all.len(),
                insv == ins_all.map_values(|r: R| r@),
                j <= m,
                inputs@ == ins_all.subrange(j as int, m as int),
                task.0 < g.spec_nodes().len(),
                g.spec_nodes()[task.0 as int]@ == Node::<R::V, T::V>::Task(tv),
                g.builds(base.push((tv, insv.take(j as int), Seq::empty()))),
                g.spec_nodes().len() <= size0 + 1 + j,
                g.spec_edges().len() <= size0 + j,
                size0 + 1 + m + outsv.len() <= rules_size(all),
                rules_size(all) + 3 < usize::MAX,
            decreases m - j,
        {
            let r = inputs.remove(0);
            proof {
                assert(inputs@ =~= ins_all.subrange(j + 1, m as int));
                assert(r == ins_all[j as int]);
                assert(insv.take(j + 1) =~= insv.take(j as int).push(r@));
                lemma_rules_push_input(base, tv, insv.take(j as int), Seq::empty(), r@);
            }
            let ghost g0 = g;
            add_resource(&mut g, r, task, true);
            proof {
                let rs = base.push((tv, insv.take(j + 1), Seq::empty()));
                assert forall|v: Node<R::V, T::V>| has_view(g.spec_nodes(), v) <==> rules_node(rs, v) by {}
                assert forall|a: Node<R::V, T::V>, b: Node<R::V, T::V>| g.has_edge_between_views(a, b) <==> rules_edge(rs, a, b) by {}
                assert(g.spec_nodes()[task.0 as int] == g0.spec_nodes()[task.0 as int]);
            }
            j = j + 1;
        }
        proof {
            assert(insv.take(m as int) =~= insv);
            assert(outsv.take(0) =~= Seq::<R::V>::empty());
        }
        let mut outputs = outputs;
        let ghost outs_all = outputs@;
        let m2 = outputs.len();
        let mut j: usize = 0;
        while j < m2
            invariant
                obeys_view_eq::<R>(),
                obeys_view_eq::<T>(),
                m2 == outs_all.len(),
                outsv == outs_all.map_values(|r: R| r@),
                j <= m2,
                outputs@ == outs_all.subrange(j as int, m2 as int),
                task.0 < g.spec_nodes().len(),
                g.spec_nodes()[task.0 as int]@ == Node::<R::V, T::V>::Task(tv),
                g.builds(base.push((tv, insv, outsv.take(j as int)))),
                g.spec_nodes().len() <= size0 + 1 + insv.len() + j,
                g.spec_edges().len() <= size0 + insv.len() + j,
                size0 + 1 + insv.len() + m2 <= rules_size(all),
                rules_size(all) + 3 < usize::MAX,
            decreases m2 - j,
        {
            let r = outputs.remove(0);
            proof {
                assert(outputs@ =~= outs_all.subrange(j + 1, m2 as int));
                assert(r == outs_all[j as int]);
                assert(outsv.take(j + 1) =~= outsv.take(j as int).push(r@));
                lemma_rules_push_output(base, tv, insv, outsv.take(j as int), r@);
            }
            let ghost g0 = g;
            add_resource(&mut g, r, task, false);
            proof {
                let rs = base.push((tv, insv, outsv.take(j + 1)));
                assert forall|v: Node<R::V, T::V>| has_view(g.spec_nodes(), v) <==> rules_node(rs, v) by {}
                assert forall|a: Node<R::V, T::V>, b: Node<R::V, T::V>| g.has_edge_between_views(a, b) <==> rules_edge(rs, a, b) by {}
                assert(g.spec_nodes()[task.0 as int] == g0.spec_nodes()[task.0 as int]);
            }
            j = j + 1;
        }
        proof {
            assert(outsv.take(m2 as int) =~= outsv);
            assert(rv.take(k + 1) =~= base.push((tv, insv, outsv)));
        }
        k = k + 1;
    }
    proof {
        assert(rv.take(n as int) =~= rv);
        assert(all.take(n as int) =~= all);
    }
    g
}

/// Creates a build graph from the given rules. If the graph would contain
/// cycles or race conditions, an error is returned instead; cycles are
/// looked for first. A returned graph is therefore acyclic and no resource
/// in it is the output of more than one task.
pub fn from_rules<R: PartialEq + Clone + PartialOrd + View, T: PartialEq + View>(rules: Rules<R, T>) -> (r: Result<Graph<Node<R, T>, Edge>, Error<R, T>>)
    requires
        total_order::<R>(),
        obeys_view_eq::<R>(),
        obeys_view_eq::<T>(),
        rules_size(rules.0@) + 3 < usize::MAX,
    ensures
        match r {
            Ok(g) => g.builds(rules_view(rules.0@)) && acyclic(&g) && race_free(&g),
            Err(Error::Cycles(e)) => {
                &&& e.graph.builds(rules_view(rules.0@))
                &&& e.cycles@.len() > 0
                &&& forall|c: int| 0 <= c < e.cycles@.len() ==> cyclic(#[trigger] e.cycles@[c], e.graph.spec_edges())
                &&& forall|c: int, a: int| 0 <= c < e.cycles@.len() && 0 <= a < e.cycles@[c]@.len()
                    ==> (#[trigger] e.cycles@[c]@[a]).0 < e.graph.spec_nodes().len()
                &&& strongly_connected(e.cycles@, e.graph.spec_edges())
                &&& !acyclic(&e.graph)
                &&& exists|sccs: Seq<Vec<NodeIndex>>| components_of(sccs, e.graph.spec_edges(), e.graph.spec_nodes().len())
                    && e.cycles@ == cyclic_components(sccs, e.graph.spec_edges())
            },
            Err(Error::Races(e)) => exists|g: Graph<Node<R, T>, Edge>| {
                &&& g.builds(rules_view(rules.0@))
                &&& acyclic(&g)
                &&& !race_free(&g)
                &&& e.races@.len() > 0
                &&& races_report(e.races@, g.spec_nodes(), g.spec_edges(), g.spec_nodes().len() as int)
                &&& e.races@.len() == racing_nodes(g.spec_nodes(), g.spec_edges(), g.spec_nodes().len() as int).len()
                &&& forall|a: int, b: int| 0 <= a < b < e.races@.len() ==> race_le(e.races@[a], e.races@[b])
            },
        },
{
    let ghost rs = rules_view(rules.0@);
    let g = build(rules.0);
    match check_cycles(g) {
        Err(e) => Err(Error::Cycles(e)),
        Ok(g) => {
            let ghost g1 = g;
            match check_races(g) {
                Ok(g) => Ok(g),
                Err(e) => {
                    proof {
                        assert(g1.builds(rs) && acyclic(&g1));
                        lemma_reported_race(e.races@, &g1);
                    }
                    Err(Error::Races(e))
                },
            }
        },
    }
}

/// The graph of a set of rules is bipartite: every edge joins a resource
/// and a task, from an input to its tasks or from tasks to an output.
pub proof fn lemma_rules_graph_bipartite<R: View, T: View>(g: &Graph<Node<R, T>, Edge>, rules: Seq<(T::V, Seq<R::V>, Seq<R::V>)>, e: int)
    requires
        g.builds(rules),
        0 <= e < g.spec_edges().len(),
    ensures
        (g.spec_nodes()[g.spec_edges()[e].0.0 as int] is Resource) == (g.spec_nodes()[g.spec_edges()[e].1.0 as int] is Task),
{
    let a = g.spec_nodes()[g.spec_edges()[e].0.0 as int]@;
    let b = g.spec_nodes()[g.spec_edges()[e].1.0 as int]@;
    assert(g.has_edge_between_views(a, b));
    assert(rules_edge(rules, a, b));
}

} // verus!
