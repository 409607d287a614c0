use vstd::prelude::*;

use crate::graph::{Graph, in_list, lemma_in_list_empty, lemma_in_list_members, lemma_out_list_empty, lemma_out_list_members, out_list};
use crate::index::{EdgeIndex, IndexSet, NodeIndex};

verus! {

impl<N, E> Graph<N, E> {
    /// Whether some edge enters node `i`, a self-loop included.
    pub open spec fn has_incoming(&self, i: int) -> bool {
        exists|k: int| 0 <= k < self.spec_edges().len() && (#[trigger] self.spec_edges()[k]).1.0 == i
    }

    /// Whether some edge leaves node `i`.
    pub open spec fn has_outgoing(&self, i: int) -> bool {
        exists|k: int| 0 <= k < self.spec_edges().len() && (#[trigger] self.spec_edges()[k]).0.0 == i
    }

    /// Whether node `i` is selected: `reverse` picks the incoming side,
    /// `with` picks nodes that have neighbors on that side.
    pub open spec fn selected(&self, i: int, reverse: bool, with: bool) -> bool {
        if reverse {
            self.has_incoming(i) == with
        } else {
            self.has_outgoing(i) == with
        }
    }

    /// The nodes, in index order, that have (or lack) neighbors on one side.
    fn select_nodes(&self, reverse: bool, with: bool) -> (r: Vec<NodeIndex>)
        requires
            self.wf(),
        ensures
            forall|i: int, j: int| 0 <= i < j < r@.len() ==> r@[i].0 < r@[j].0,
            forall|i: int| 0 <= i < r@.len() ==> (#[trigger] r@[i]).0 < self.spec_nodes().len() && self.selected(r@[i].0 as int, reverse, with),
            forall|i: int| 0 <= i < self.spec_nodes().len() && self.selected(i, reverse, with) ==> r@.contains(NodeIndex(i as usize)),
    {
        let mut r: Vec<NodeIndex> = Vec::new();
        let mut i: usize = 0;
        let n = self.node_count();
        while i < n
            invariant
                self.wf(),
                n == self.spec_nodes().len(),
                i <= n,
                forall|a: int, b: int| 0 <= a < b < r@.len() ==> r@[a].0 < r@[b].0,
                forall|a: int| 0 <= a < r@.len() ==> (#[trigger] r@[a]).0 < i && self.selected(r@[a].0 as int, reverse, with),
                forall|a: int| 0 <= a < i && self.selected(a, reverse, with) ==> r@.contains(NodeIndex(a as usize)),
            decreases n - i,
        {
            let empty = if reverse {
                self.is_root_node(NodeIndex(i))
            } else {
                self.neighbors(NodeIndex(i), reverse).len() == 0
            };
            proof {
                let edges = self.spec_edges();
                lemma_out_list_empty(edges, i, edges.len());
                if reverse {
                } else {
                    if !empty {
                        assert(!(forall|k: int| 0 <= k < edges.len() ==> (#[trigger] edges[k]).0.0 != i));
                    }
                }
                assert(self.selected(i as int, reverse, with) == (empty != with));
            }
            let ghost old_r = r@;
            if empty != with {
                r.push(NodeIndex(i));
                proof {
                    assert(r@[r@.len() - 1] == NodeIndex(i));
                }
            }
            proof {
                assert forall|a: int| 0 <= a < i + 1 && self.selected(a, reverse, with) implies r@.contains(NodeIndex(a as usize)) by {
                    if a < i {
                        let j = choose|j: int| 0 <= j < old_r.len() && old_r[j] == NodeIndex(a as usize);
                        assert(r@[j] == old_r[j]);
                    }
                }
            }
            i = i + 1;
        }
        r
    }

    /// All nodes that have no incoming edges, in index order. A self-loop
    /// counts as an incoming edge.
    pub fn root_nodes(&self) -> (r: Vec<NodeIndex>)
        requires
            self.wf(),
        ensures
            forall|i: int, j: int| 0 <= i < j < r@.len() ==> r@[i].0 < r@[j].0,
            forall|i: int| 0 <= i < r@.len() ==> (#[trigger] r@[i]).0 < self.spec_nodes().len() && !self.has_incoming(r@[i].0 as int),
            forall|i: int| 0 <= i < self.spec_nodes().len() && !self.has_incoming(i) ==> r@.contains(NodeIndex(i as usize)),
    {
        let r = self.select_nodes(true, false);
        proof {
            assert forall|i: int| 0 <= i < self.spec_nodes().len() && !self.has_incoming(i) implies r@.contains(NodeIndex(i as usize)) by {
                assert(self.selected(i, true, false));
            }
            assert forall|i: int| 0 <= i < r@.len() implies (#[trigger] r@[i]).0 < self.spec_nodes().len() && !self.has_incoming(r@[i].0 as int) by {
                assert(self.selected(r@[i].0 as int, true, false));
            }
        }
        r
    }

    /// All nodes that have at least one incoming edge, in index order.
    pub fn non_root_nodes(&self) -> (r: Vec<NodeIndex>)
        requires
            self.wf(),
        ensures
            forall|i: int, j: int| 0 <= i < j < r@.len() ==> r@[i].0 < r@[j].0,
            forall|i: int| 0 <= i < r@.len() ==> (#[trigger] r@[i]).0 < self.spec_nodes().len() && self.has_incoming(r@[i].0 as int),
            forall|i: int| 0 <= i < self.spec_nodes().len() && self.has_incoming(i) ==> r@.contains(NodeIndex(i as usize)),
    {
        let r = self.select_nodes(true, true);
        proof {
            assert forall|i: int| 0 <= i < self.spec_nodes().len() && self.has_incoming(i) implies r@.contains(NodeIndex(i as usize)) by {
                assert(self.selected(i, true, true));
            }
            assert forall|i: int| 0 <= i < r@.len() implies (#[trigger] r@[i]).0 < self.spec_nodes().len() && self.has_incoming(r@[i].0 as int) by {
                assert(self.selected(r@[i].0 as int, true, true));
            }
        }
        r
    }

    /// All nodes that have no outgoing edges, in index order.
    pub fn terminal_nodes(&self) -> (r: Vec<NodeIndex>)
        requires
            self.wf(),
        ensures
            forall|i: int, j: int| 0 <= i < j < r@.len() ==> r@[i].0 < r@[j].0,
            forall|i: int| 0 <= i < r@.len() ==> (#[trigger] r@[i]).0 < self.spec_nodes().len() && !self.has_outgoing(r@[i].0 as int),
            forall|i: int| 0 <= i < self.spec_nodes().len() && !self.has_outgoing(i) ==> r@.contains(NodeIndex(i as usize)),
    {
        let r = self.select_nodes(false, false);
        proof {
            assert forall|i: int| 0 <= i < self.spec_nodes().len() && !self.has_outgoing(i) implies r@.contains(NodeIndex(i as usize)) by {
                assert(self.selected(i, false, false));
            }
            assert forall|i: int| 0 <= i < r@.len() implies (#[trigger] r@[i]).0 < self.spec_nodes().len() && !self.has_outgoing(r@[i].0 as int) by {
                assert(self.selected(r@[i].0 as int, false, false));
            }
        }
        r
    }

    /// All nodes that have at least one outgoing edge, in index order.
    pub fn non_terminal_nodes(&self) -> (r: Vec<NodeIndex>)
        requires
            self.wf(),
        ensures
            forall|i: int, j: int| 0 <= i < j < r@.len() ==> r@[i].0 < r@[j].0,
            forall|i: int| 0 <= i < r@.len() ==> (#[trigger] r@[i]).0 < self.spec_nodes().len() && self.has_outgoing(r@[i].0 as int),
            forall|i: int| 0 <= i < self.spec_nodes().len() && self.has_outgoing(i) ==> r@.contains(NodeIndex(i as usize)),
    {
        let r = self.select_nodes(false, true);
        proof {
            assert forall|i: int| 0 <= i < self.spec_nodes().len() && self.has_outgoing(i) implies r@.contains(NodeIndex(i as usize)) by {
                assert(self.selected(i, false, true));
            }
            assert forall|i: int| 0 <= i < r@.len() implies (#[trigger] r@[i]).0 < self.spec_nodes().len() && self.has_outgoing(r@[i].0 as int) by {
                assert(self.selected(r@[i].0 as int, false, true));
            }
        }
        r
    }
}

/// The neighbors of node `i` on one side: the incoming ones when
/// `reverse`, the outgoing ones otherwise.
pub open spec fn side<N, E>(g: &Graph<N, E>, i: int, reverse: bool) -> Seq<(NodeIndex, EdgeIndex)> {
    if reverse {
        in_list(g.spec_edges(), i as usize, g.spec_edges().len())
    } else {
        out_list(g.spec_edges(), i as usize, g.spec_edges().len())
    }
}

/// Every node of the list has been visited.
pub open spec fn all_visited(list: Seq<(NodeIndex, EdgeIndex)>, visited: Seq<Option<bool>>) -> bool {
    forall|j: int| 0 <= j < list.len() ==> visited[(#[trigger] list[j]).0.0 as int] is Some
}

/// The visitor runs on a node whose dependencies are `deps`: when it has
/// none, or when the visitor ran on one of them and asked to go on.
pub open spec fn visits(deps: Seq<(NodeIndex, EdgeIndex)>, visited: Seq<Option<bool>>) -> bool {
    deps.len() == 0 || exists|j: int| 0 <= j < deps.len() && visited[(#[trigger] deps[j]).0.0 as int] == Some(true)
}

/// A node becomes ready to visit once it has not been visited yet and all
/// the nodes it depends on have been.
pub open spec fn ready<N, E>(g: &Graph<N, E>, i: int, visited: Seq<Option<bool>>, reverse: bool) -> bool {
    visited[i] is None && all_visited(side(g, i, !reverse), visited)
}

impl<N, E> Graph<N, E> {
    fn side_targets_valid(&self, i: usize, reverse: bool)
        requires
            self.wf(),
            i < self.spec_nodes().len(),
        ensures
            forall|j: int| 0 <= j < side(self, i as int, reverse).len() ==> (#[trigger] side(self, i as int, reverse)[j]).0.0 < self.spec_nodes().len(),
    {
        proof {
            let edges = self.spec_edges();
            lemma_in_list_members(edges, i, edges.len());
            lemma_out_list_members(edges, i, edges.len());
            assert forall|j: int| 0 <= j < side(self, i as int, reverse).len() implies (#[trigger] side(self, i as int, reverse)[j]).0.0 < self.spec_nodes().len() by {
                let p = side(self, i as int, reverse)[j];
                assert(edges[p.1.0 as int].0.0 < self.spec_nodes().len() && edges[p.1.0 as int].1.0 < self.spec_nodes().len());
            }
        }
    }

    /// Whether every node of a neighbor list has been visited.
    fn list_all_visited(&self, list: &Vec<(NodeIndex, EdgeIndex)>, visited: &Vec<Option<bool>>) -> (r: bool)
        requires
            forall|j: int| 0 <= j < list@.len() ==> (#[trigger] list@[j]).0.0 < visited@.len(),
        ensures
            r == all_visited(list@, visited@),
    {
        let mut j: usize = 0;
        while j < list.len()
            invariant
                j <= list@.len(),
                forall|k: int| 0 <= k < list@.len() ==> (#[trigger] list@[k]).0.0 < visited@.len(),
                forall|k: int| 0 <= k < j ==> visited@[(#[trigger] list@[k]).0.0 as int] is Some,
            decreases list@.len() - j,
        {
            if visited[list[j].0.0].is_none() {
                return false;
            }
            j = j + 1;
        }
        true
    }

    /// Whether a traversal calls its visitor on `node`: when the node
    /// depends on nothing, or when the visitor ran on one of the nodes it
    /// depends on and asked to go on.
    pub fn should_visit(&self, node: NodeIndex, visited: &Vec<Option<bool>>, reverse: bool) -> (r: bool)
        requires
            self.wf(),
            node.0 < self.spec_nodes().len(),
            visited@.len() == self.spec_nodes().len(),
        ensures
            r == visits(side(self, node.0 as int, !reverse), visited@),
    {
        let list = self.neighbors(node, !reverse);
        self.side_targets_valid(node.0, !reverse);
        if list.len() == 0 {
            return true;
        }
        let mut j: usize = 0;
        while j < list.len()
            invariant
                j <= list@.len(),
                list@ == side(self, node.0 as int, !reverse),
                visited@.len() == self.spec_nodes().len(),
                forall|k: int| 0 <= k < list@.len() ==> (#[trigger] list@[k]).0.0 < self.spec_nodes().len(),
                forall|k: int| 0 <= k < j ==> visited@[(#[trigger] list@[k]).0.0 as int] != Some(true),
            decreases list@.len() - j,
        {
            let v = visited[list[j].0.0];
            if v == Some(true) {
                return true;
            }
            j = j + 1;
        }
        false
    }

    /// Records how the visit of `node` went and gives the nodes to queue
    /// next. When the visitor asked to go on (`Some(true)`) or not
    /// (`Some(false)`), the node is marked so and its neighbors that are now
    /// ready are returned. When the visitor failed (`None`), the node is
    /// marked as not going on and nothing is queued: nothing that depends on
    /// it is visited from it.
    pub fn finish_visit(&self, node: NodeIndex, visited: &mut Vec<Option<bool>>, outcome: Option<bool>, reverse: bool) -> (r: Vec<NodeIndex>)
        requires
            self.wf(),
            node.0 < self.spec_nodes().len(),
            old(visited)@.len() == self.spec_nodes().len(),
        ensures
            final(visited)@ == old(visited)@.update(node.0 as int, Some(match outcome { Some(k) => k, None => false })),
            match outcome {
                Some(_) => r@ == side(self, node.0 as int, reverse)
                    .filter(|p: (NodeIndex, EdgeIndex)| ready(self, p.0.0 as int, final(visited)@, reverse))
                    .map_values(|p: (NodeIndex, EdgeIndex)| p.0),
                None => r@ == Seq::<NodeIndex>::empty(),
            },
    {
        match outcome {
            Some(keep_going) => {
                visited.set(node.0, Some(keep_going));
                self.ready_neighbors(node, visited, reverse)
            },
            None => {
                visited.set(node.0, Some(false));
                Vec::new()
            },
        }
    }

    /// The neighbors of `node` on the traversal's side that are now ready
    /// to visit, in edge order.
    pub fn ready_neighbors(&self, node: NodeIndex, visited: &Vec<Option<bool>>, reverse: bool) -> (r: Vec<NodeIndex>)
        requires
            self.wf(),
            node.0 < self.spec_nodes().len(),
            visited@.len() == self.spec_nodes().len(),
        ensures
            r@ == side(self, node.0 as int, reverse)
                .filter(|p: (NodeIndex, EdgeIndex)| ready(self, p.0.0 as int, visited@, reverse))
                .map_values(|p: (NodeIndex, EdgeIndex)| p.0),
    {
        let list = self.neighbors(node, reverse);
        self.side_targets_valid(node.0, reverse);
        let ghost keep = |p: (NodeIndex, EdgeIndex)| ready(self, p.0.0 as int, visited@, reverse);
        let mut out: Vec<NodeIndex> = Vec::new();
        let mut j: usize = 0;
        while j < list.len()
            invariant
                self.wf(),
                j <= list@.len(),
                list@ == side(self, node.0 as int, reverse),
                visited@.len() == self.spec_nodes().len(),
                forall|k: int| 0 <= k < list@.len() ==> (#[trigger] list@[k]).0.0 < self.spec_nodes().len(),
                keep == (|p: (NodeIndex, EdgeIndex)| ready(self, p.0.0 as int, visited@, reverse)),
                out@ == list@.subrange(0, j as int).filter(keep).map_values(|p: (NodeIndex, EdgeIndex)| p.0),
            decreases list@.len() - j,
        {
            let (neigh, e) = list[j];
            let deps = self.neighbors(neigh, !reverse);
            self.side_targets_valid(neigh.0, !reverse);
            proof {
                assert(deps@ == side(self, neigh.0 as int, !reverse));
            }
            let is_ready = visited[neigh.0].is_none() && self.list_all_visited(deps, visited);
            proof {
                assert(is_ready == keep((neigh, e)));
                reveal(Seq::filter);
                assert(list@.subrange(0, j + 1).drop_last() =~= list@.subrange(0, j as int));
                assert(list@.subrange(0, j + 1).last() == (neigh, e));
            }
            if is_ready {
                out.push(neigh);
            }
            proof {
                let pre = list@.subrange(0, j as int).filter(keep);
                let post = list@.subrange(0, j + 1).filter(keep);
                if is_ready {
                    assert(post == pre.push((neigh, e)));
                    assert(post.map_values(|p: (NodeIndex, EdgeIndex)| p.0) =~= pre.map_values(|p: (NodeIndex, EdgeIndex)| p.0).push(neigh));
                } else {
                    assert(post == pre);
                }
            }
            j = j + 1;
        }
        proof {
            assert(list@.subrange(0, list@.len() as int) =~= list@);
        }
        out
    }
}

/// The number of positions below `k` that the set holds.
pub open spec fn count_below(s: Set<usize>, k: nat) -> nat
    decreases k,
{
    if k == 0 {
        0
    } else {
        count_below(s, (k - 1) as nat) + if s.contains((k - 1) as usize) { 1nat } else { 0nat }
    }
}

/// Adding a position not yet in the set adds one to the count below `k`
/// when it lies below `k`.
pub proof fn lemma_count_below_insert(s: Set<usize>, x: usize, k: nat)
    requires
        !s.contains(x),
        k <= usize::MAX,
    ensures
        count_below(s.insert(x), k) == count_below(s, k) + if x < k { 1nat } else { 0nat },
    decreases k,
{
    if k > 0 {
        lemma_count_below_insert(s, x, (k - 1) as nat);
    }
}

/// At most `k` positions lie below `k`.
pub proof fn lemma_count_below_bound(s: Set<usize>, k: nat)
    ensures
        count_below(s, k) <= k,
    decreases k,
{
    if k > 0 {
        lemma_count_below_bound(s, (k - 1) as nat);
    }
}

/// The successors in `succs` pushed in order onto `stack`: each one not yet
/// in `seen` is marked seen and pushed; the others are skipped.
pub open spec fn push_unseen(succs: Seq<(NodeIndex, EdgeIndex)>, stack: Seq<NodeIndex>, seen: Set<usize>) -> (Seq<NodeIndex>, Set<usize>)
    decreases succs.len(),
{
    if succs.len() == 0 {
        (stack, seen)
    } else {
        let (s, v) = push_unseen(succs.drop_last(), stack, seen);
        let x = succs.last().0;
        if v.contains(x.0) {
            (s, v)
        } else {
            (s.push(x), v.insert(x.0))
        }
    }
}

/// Pushing successors only marks more nodes seen and only pushes: the
/// stack grows by as many nodes below `n` as become seen.
pub proof fn lemma_push_unseen(succs: Seq<(NodeIndex, EdgeIndex)>, stack: Seq<NodeIndex>, seen: Set<usize>, n: nat)
    requires
        n <= usize::MAX,
        forall|k: int| 0 <= k < succs.len() ==> (#[trigger] succs[k]).0.0 < n,
    ensures
        seen.subset_of(push_unseen(succs, stack, seen).1),
        push_unseen(succs, stack, seen).0.len() >= stack.len(),
        count_below(push_unseen(succs, stack, seen).1, n) == count_below(seen, n) + push_unseen(succs, stack, seen).0.len() - stack.len(),
    decreases succs.len(),
{
    if succs.len() > 0 {
        let init = succs.drop_last();
        assert forall|k: int| 0 <= k < init.len() implies (#[trigger] init[k]).0.0 < n by {
            assert(init[k] == succs[k]);
        }
        lemma_push_unseen(init, stack, seen, n);
        let (s, v) = push_unseen(init, stack, seen);
        let x = succs.last().0;
        assert(x.0 < n) by {
            assert(succs[succs.len() - 1].0.0 < n);
        }
        if !v.contains(x.0) {
            lemma_count_below_insert(v, x.0, n);
        }
    }
}

/// The order in which a depth-first search emits nodes: it takes the last
/// node of `stack`, emits it, pushes its successors not yet seen, in edge
/// order, and goes on until the stack is empty.
pub open spec fn dfs_order<N, E>(g: &Graph<N, E>, stack: Seq<NodeIndex>, seen: Set<usize>) -> Seq<NodeIndex>
    decreases g.spec_nodes().len() - count_below(seen, g.spec_nodes().len()), stack.len()
    when g.wf()
{
    if stack.len() == 0 {
        Seq::empty()
    } else {
        let node = stack.last();
        let succs = out_list(g.spec_edges(), node.0, g.spec_edges().len());
        let next = push_unseen(succs, stack.drop_last(), seen);
        proof {
            let n = g.spec_nodes().len();
            lemma_out_list_members(g.spec_edges(), node.0, g.spec_edges().len());
            assert forall|k: int| 0 <= k < succs.len() implies (#[trigger] succs[k]).0.0 < n by {
                let e = succs[k].1.0 as int;
                assert(g.spec_edges()[e].1.0 < n);
            }
            lemma_push_unseen(succs, stack.drop_last(), seen, n);
            lemma_count_below_bound(next.1, n);
        }
        seq![node] + dfs_order(g, next.0, next.1)
    }
}

impl<N, E> Graph<N, E> {
    /// The nodes of a depth-first search from `roots`: each root, and each
    /// node reachable from one, the first time it is found. The roots are
    /// taken from the end of the list; a node's successors are searched
    /// before the remaining roots.
    pub fn dfs(&self, roots: Vec<NodeIndex>) -> (r: Vec<NodeIndex>)
        requires
            self.wf(),
            forall|k: int| 0 <= k < roots@.len() ==> (#[trigger] roots@[k]).0 < self.spec_nodes().len(),
        ensures
            forall|k: int| 0 <= k < roots@.len() ==> r@.contains(#[trigger] roots@[k]),
            forall|i: int| 0 <= i < r@.len() ==> (#[trigger] r@[i]).0 < self.spec_nodes().len()
                && (roots@.contains(r@[i]) || exists|j: int| 0 <= j < i && self.has_edge(r@[j].0 as int, r@[i].0 as int)),
            forall|i: int, e: int| 0 <= i < r@.len() && 0 <= e < self.spec_edges().len() && (#[trigger] self.spec_edges()[e]).0 == #[trigger] r@[i]
                ==> r@.contains(self.spec_edges()[e].1),
            r@ == dfs_order(self, roots@, Set::<usize>::empty()),
    {
        let n = self.node_count();
        let ghost edges = self.spec_edges();
        let ghost rs = roots@;
        let mut stack = roots;
        let mut visited: IndexSet<NodeIndex> = IndexSet::new();
        let mut out: Vec<NodeIndex> = Vec::new();
        proof {
            assert(visited.view() =~= Set::<usize>::empty());
            assert(out@ + dfs_order(self, stack@, visited.view()) =~= dfs_order(self, rs, Set::<usize>::empty()));
        }
        while stack.len() > 0
            invariant
                self.wf(),
                n == self.spec_nodes().len(),
                edges == self.spec_edges(),
                forall|k: int| 0 <= k < rs.len() ==> (#[trigger] rs[k]).0 < n,
                forall|k: int| 0 <= k < rs.len() ==> stack@.contains(#[trigger] rs[k]) || out@.contains(rs[k]),
                forall|i: int| 0 <= i < out@.len() ==> (#[trigger] out@[i]).0 < n
                    && (rs.contains(out@[i]) || exists|j: int| 0 <= j < i && self.has_edge(out@[j].0 as int, out@[i].0 as int)),
                forall|k: int| 0 <= k < stack@.len() ==> (#[trigger] stack@[k]).0 < n
                    && (rs.contains(stack@[k]) || exists|j: int| 0 <= j < out@.len() && self.has_edge(out@[j].0 as int, stack@[k].0 as int)),
                forall|x: usize| #[trigger] visited.view().contains(x) ==> stack@.contains(NodeIndex(x)) || out@.contains(NodeIndex(x)),
                forall|i: int, e: int| 0 <= i < out@.len() && 0 <= e < edges.len() && (#[trigger] edges[e]).0 == #[trigger] out@[i]
                    ==> visited.view().contains(edges[e].1.0),
                out@ + dfs_order(self, stack@, visited.view()) == dfs_order(self, rs, Set::<usize>::empty()),
            decreases n - count_below(visited.view(), n as nat), stack@.len(),
        {
            let ghost stack0 = stack@;
            let ghost out0 = out@;
            let ghost visited0 = visited.view();
            let node = stack.pop().unwrap();
            proof {
                assert(stack0 == stack@.push(node));
                assert(node.0 < n);
            }
            out.push(node);
            let list = self.outgoing(node);
            proof {
                lemma_out_list_members(edges, node.0, edges.len());
                lemma_count_below_bound(visited.view(), n as nat);
            }
            let ghost stack1 = stack@;
            let mut j: usize = 0;
            while j < list.len()
                invariant
                    self.wf(),
                    n == self.spec_nodes().len(),
                    edges == self.spec_edges(),
                    list@ == out_list(edges, node.0, edges.len()),
                    forall|k: int| 0 <= k < list@.len() ==> {
                        let p = #[trigger] list@[k];
                        &&& p.1.0 < edges.len()
                        &&& edges[p.1.0 as int].0.0 == node.0
                        &&& edges[p.1.0 as int].1 == p.0
                    },
                    j <= list@.len(),
                    out@ == out0.push(node),
                    node.0 < n,
                    stack@.len() >= stack1.len(),
                    forall|k: int| 0 <= k < stack1.len() ==> #[trigger] stack@[k] == stack1[k],
                    forall|k: int| stack1.len() <= k < stack@.len() ==> (#[trigger] stack@[k]).0 < n
                        && self.has_edge(node.0 as int, stack@[k].0 as int),
                    visited0.subset_of(visited.view()),
                    forall|x: usize| #[trigger] visited.view().contains(x) && !visited0.contains(x)
                        ==> exists|k: int| stack1.len() <= k < stack@.len() && stack@[k] == NodeIndex(x),
                    forall|k: int| 0 <= k < j ==> visited.view().contains((#[trigger] list@[k]).0.0),
                    count_below(visited.view(), n as nat) >= count_below(visited0, n as nat),
                    count_below(visited.view(), n as nat) <= n,
                    count_below(visited.view(), n as nat) == count_below(visited0, n as nat) ==> stack@.len() == stack1.len(),
                    (stack@, visited.view()) == push_unseen(list@.subrange(0, j as int), stack1, visited0),
                decreases list@.len() - j,
            {
                let succ = list[j].0;
                proof {
                    let e = list@[j as int].1.0 as int;
                    assert(edges[e].1.0 < n);
                }
                let ghost before = visited.view();
                let ghost stack_pre = stack@;
                proof {
                    assert(list@.subrange(0, j + 1).drop_last() =~= list@.subrange(0, j as int));
                    assert(list@.subrange(0, j + 1).last() == list@[j as int]);
                }
                let fresh = visited.insert(succ);
                proof {
                    assert(visited.view() == before.insert(succ.0));
                    if !fresh {
                        assert(visited.view() =~= before);
                    }
                }
                if fresh {
                    proof {
                        lemma_count_below_insert(before, succ.0, n as nat);
                        lemma_count_below_bound(visited.view(), n as nat);
                        let e = list@[j as int].1.0 as int;
                        assert(edges[e] == (node, succ));
                        assert(self.has_edge(node.0 as int, succ.0 as int));
                    }
                    let ghost stack_before = stack@;
                    stack.push(succ);
                    proof {
                        assert forall|x: usize| #[trigger] visited.view().contains(x) && !visited0.contains(x)
                            implies exists|k: int| stack1.len() <= k < stack@.len() && stack@[k] == NodeIndex(x) by {
                            if x == succ.0 {
                                assert(stack@[stack@.len() - 1] == NodeIndex(x));
                            } else {
                                assert(before.contains(x));
                                let k = choose|k: int| stack1.len() <= k < stack_before.len() && stack_before[k] == NodeIndex(x);
                                assert(stack@[k] == stack_before[k]);
                            }
                        }
                    }
                }
                j = j + 1;
            }
            proof {
                assert(list@.subrange(0, list@.len() as int) =~= list@);
                assert(stack1 == stack0.drop_last());
                assert(dfs_order(self, stack0, visited0) == seq![node] + dfs_order(self, stack@, visited.view()));
                assert(out@ + dfs_order(self, stack@, visited.view()) =~= out0 + dfs_order(self, stack0, visited0));
                // the successors of the new node have all been seen
                assert forall|i: int, e: int| 0 <= i < out@.len() && 0 <= e < edges.len() && (#[trigger] edges[e]).0 == #[trigger] out@[i]
                    implies visited.view().contains(edges[e].1.0) by {
                    if i < out0.len() {
                        assert(out@[i] == out0[i]);
                        assert(visited0.contains(edges[e].1.0));
                    } else {
                        assert(edges[e].0.0 == node.0);
                        assert(list@.contains((edges[e].1, EdgeIndex(e as usize))));
                        let k = choose|k: int| 0 <= k < list@.len() && list@[k] == (edges[e].1, EdgeIndex(e as usize));
                        assert(visited.view().contains(list@[k].0.0));
                    }
                }
                assert forall|x: usize| #[trigger] visited.view().contains(x) implies stack@.contains(NodeIndex(x)) || out@.contains(NodeIndex(x)) by {
                    if visited0.contains(x) {
                        if stack0.contains(NodeIndex(x)) {
                            let k = choose|k: int| 0 <= k < stack0.len() && stack0[k] == NodeIndex(x);
                            if k < stack1.len() {
                                assert(stack@[k] == NodeIndex(x));
                            } else {
                                assert(out@[out0.len() as int] == NodeIndex(x));
                            }
                        } else {
                            let k = choose|k: int| 0 <= k < out0.len() && out0[k] == NodeIndex(x);
                            assert(out@[k] == NodeIndex(x));
                        }
                    } else {
                        let k = choose|k: int| stack1.len() <= k < stack@.len() && stack@[k] == NodeIndex(x);
                    }
                }
                assert forall|k: int| 0 <= k < rs.len() implies stack@.contains(#[trigger] rs[k]) || out@.contains(rs[k]) by {
                    if stack0.contains(rs[k]) {
                        let q = choose|q: int| 0 <= q < stack0.len() && stack0[q] == rs[k];
                        if q < stack1.len() {
                            assert(stack@[q] == rs[k]);
                        } else {
                            assert(out@[out0.len() as int] == rs[k]);
                        }
                    } else {
                        let q = choose|q: int| 0 <= q < out0.len() && out0[q] == rs[k];
                        assert(out@[q] == rs[k]);
                    }
                }
                assert forall|i: int| 0 <= i < out@.len() implies (#[trigger] out@[i]).0 < n
                    && (rs.contains(out@[i]) || exists|j2: int| 0 <= j2 < i && self.has_edge(out@[j2].0 as int, out@[i].0 as int)) by {
                    if i < out0.len() {
                        assert(out@[i] == out0[i]);
                        if !rs.contains(out0[i]) {
                            let j2 = choose|j2: int| 0 <= j2 < i && self.has_edge(out0[j2].0 as int, out0[i].0 as int);
                            assert(out@[j2] == out0[j2]);
                        }
                    } else {
                        assert(stack0[stack0.len() - 1] == node);
                        if !rs.contains(node) {
                            let j2 = choose|j2: int| 0 <= j2 < out0.len() && self.has_edge(out0[j2].0 as int, stack0[stack0.len() - 1].0 as int);
                            assert(out@[j2] == out0[j2]);
                        }
                    }
                }
                assert forall|k: int| 0 <= k < stack@.len() implies (#[trigger] stack@[k]).0 < n
                    && (rs.contains(stack@[k]) || exists|j2: int| 0 <= j2 < out@.len() && self.has_edge(out@[j2].0 as int, stack@[k].0 as int)) by {
                    if k < stack1.len() {
                        assert(stack@[k] == stack0[k]);
                        if !rs.contains(stack0[k]) {
                            let j2 = choose|j2: int| 0 <= j2 < out0.len() && self.has_edge(out0[j2].0 as int, stack0[k].0 as int);
                            assert(out@[j2] == out0[j2]);
                        }
                    } else {
                        assert(out@[out0.len() as int] == node);
                        assert(self.has_edge(out@[out0.len() as int].0 as int, stack@[k].0 as int));
                    }
                }
            }
        }
        proof {
            assert forall|i: int, e: int| 0 <= i < out@.len() && 0 <= e < edges.len() && (#[trigger] edges[e]).0 == #[trigger] out@[i]
                implies out@.contains(edges[e].1) by {
                assert(visited.view().contains(edges[e].1.0));
                assert(NodeIndex(edges[e].1.0) == edges[e].1);
            }
            assert forall|k: int| 0 <= k < rs.len() implies out@.contains(#[trigger] rs[k]) by {
                assert(stack@.contains(rs[k]) || out@.contains(rs[k]));
            }
            assert(out@ + dfs_order(self, stack@, visited.view()) =~= out@);
        }
        out
    }

    /// The index that the node at `index` has in `other`, if `other` has an
    /// equal node.
    pub fn translate_index(&self, index: NodeIndex, other: &Graph<N, E>) -> (r: Option<NodeIndex>)
        where N: PartialEq + View
        requires
            self.wf(),
            other.wf(),
            index.0 < self.spec_nodes().len(),
            vstd::laws_eq::obeys_view_eq::<N>(),
        ensures
            match r {
                Some(i) => i.0 < other.spec_nodes().len() && other.spec_nodes()[i.0 as int]@ == self.spec_nodes()[index.0 as int]@,
                None => !crate::graph::has_view(other.spec_nodes(), self.spec_nodes()[index.0 as int]@),
            },
            *self == *other && self.views_distinct() ==> r == Some(index),
    {
        other.node_to_index(self.node_from_index(index))
    }
}

/// Node `x` is a neighbor of node `i` on the traversal's side.
pub open spec fn is_side_neighbor<N, E>(g: &Graph<N, E>, i: int, x: int, reverse: bool) -> bool {
    exists|j: int| 0 <= j < side(g, i, reverse).len() && (#[trigger] side(g, i, reverse)[j]).0.0 == x
}

/// A neighbor `x` of node `i` other than `i` itself depends on `i`.
proof fn lemma_neighbor_depends<N, E>(g: &Graph<N, E>, i: int, x: int, reverse: bool)
    requires
        g.wf(),
        0 <= i < g.spec_nodes().len(),
        is_side_neighbor(g, i, x, reverse),
        x != i,
    ensures
        is_side_neighbor(g, x, i, !reverse),
{
    let edges = g.spec_edges();
    let n = edges.len();
    let j = choose|j: int| 0 <= j < side(g, i, reverse).len() && (#[trigger] side(g, i, reverse)[j]).0.0 == x;
    lemma_out_list_members(edges, i as usize, n);
    lemma_in_list_members(edges, i as usize, n);
    lemma_out_list_members(edges, x as usize, n);
    lemma_in_list_members(edges, x as usize, n);
    let p = side(g, i, reverse)[j];
    let k = p.1.0 as int;
    assert(0 <= k < n);
    if reverse {
        // The edge `(x, i)`: `i` is among the outgoing neighbors of `x`.
        assert(edges[k].0 == p.0 && edges[k].1.0 == i);
        assert(out_list(edges, x as usize, n).contains((edges[k].1, EdgeIndex(k as usize))));
        let j2 = choose|j2: int| 0 <= j2 < out_list(edges, x as usize, n).len()
            && #[trigger] out_list(edges, x as usize, n)[j2] == (edges[k].1, EdgeIndex(k as usize));
        assert(side(g, x, !reverse)[j2].0.0 == i);
    } else {
        // The edge `(i, x)` with `i != x`: `i` is among the incoming
        // neighbors of `x`.
        assert(edges[k].0.0 == i && edges[k].1 == p.0);
        assert(in_list(edges, x as usize, n).contains((edges[k].0, EdgeIndex(k as usize))));
        let j2 = choose|j2: int| 0 <= j2 < in_list(edges, x as usize, n).len()
            && #[trigger] in_list(edges, x as usize, n)[j2] == (edges[k].0, EdgeIndex(k as usize));
        assert(side(g, x, !reverse)[j2].0.0 == i);
    }
}

/// A traversal queues each node once, when the visit of the last node it
/// depends on finishes. If finishing the visit of `node` (not visited
/// before) makes its neighbor `x` ready, then `x` was not ready before that
/// visit; and later, once more nodes have been visited, finishing the visit
/// of any node `other` not visited yet never makes `x` ready again.
pub proof fn lemma_queued_once<N, E>(
    g: &Graph<N, E>,
    node: int,
    x: int,
    before: Seq<Option<bool>>,
    outcome: bool,
    later: Seq<Option<bool>>,
    other: int,
    later_outcome: bool,
    reverse: bool,
)
    requires
        g.wf(),
        0 <= node < g.spec_nodes().len(),
        0 <= other < g.spec_nodes().len(),
        before.len() == g.spec_nodes().len(),
        later.len() == g.spec_nodes().len(),
        before[node] is None,
        is_side_neighbor(g, node, x, reverse),
        ready(g, x, before.update(node, Some(outcome)), reverse),
        forall|i: int| 0 <= i < before.len() && (#[trigger] before.update(node, Some(outcome))[i]) is Some ==> later[i] is Some,
        later[other] is None,
        is_side_neighbor(g, other, x, reverse),
    ensures
        !ready(g, x, before, reverse),
        !ready(g, x, later.update(other, Some(later_outcome)), reverse),
{
    let after = before.update(node, Some(outcome));
    let deps_side = !reverse;
    assert(x != node);
    lemma_neighbor_depends(g, node, x, reverse);
    let j = choose|j: int| 0 <= j < side(g, x, deps_side).len() && (#[trigger] side(g, x, deps_side)[j]).0.0 == node;
    assert(before[side(g, x, deps_side)[j].0.0 as int] is None);
    if other != x {
        lemma_neighbor_depends(g, other, x, reverse);
        let j2 = choose|j2: int| 0 <= j2 < side(g, x, deps_side).len() && (#[trigger] side(g, x, deps_side)[j2]).0.0 == other;
        assert(after[side(g, x, deps_side)[j2].0.0 as int] is Some);
        assert(after[other] is Some);
        assert(later[other] is Some);
    }
}

/// Edge `xy` makes node `node` wait for another node: going forward, an
/// edge into `node` from a different node; in reverse, an edge out of
/// `node` (a self-loop included).
pub open spec fn edge_dependency(xy: (NodeIndex, NodeIndex), node: int, reverse: bool) -> bool {
    if reverse {
        xy.0.0 == node
    } else {
        xy.1.0 == node && xy.0.0 != node
    }
}

/// The node that a dependency edge makes its node wait for.
pub open spec fn dependency_node(xy: (NodeIndex, NodeIndex), reverse: bool) -> int {
    if reverse {
        xy.1.0 as int
    } else {
        xy.0.0 as int
    }
}

/// A traversal runs the visitor on a node exactly when no edge makes the
/// node depend on another one, or when some edge makes it depend on a node
/// whose visitor ran and asked to go on. Every dependency counts, whatever
/// its place among the edges.
pub proof fn lemma_visits_iff_some_dependency_went_on<N, E>(g: &Graph<N, E>, node: int, visited: Seq<Option<bool>>, reverse: bool)
    requires
        g.wf(),
        0 <= node < g.spec_nodes().len(),
        visited.len() == g.spec_nodes().len(),
    ensures
        visits(side(g, node, !reverse), visited) <==> (
            (forall|e: int| 0 <= e < g.spec_edges().len() ==> !#[trigger] edge_dependency(g.spec_edges()[e], node, reverse))
            || (exists|e: int| 0 <= e < g.spec_edges().len() && #[trigger] edge_dependency(g.spec_edges()[e], node, reverse)
                && visited[dependency_node(g.spec_edges()[e], reverse)] == Some(true))),
{
    let edges = g.spec_edges();
    let n = edges.len();
    let deps = side(g, node, !reverse);
    lemma_out_list_members(edges, node as usize, n);
    lemma_in_list_members(edges, node as usize, n);
    // Each entry of the list comes from a dependency edge, and names the
    // node that edge waits for.
    assert forall|j: int| 0 <= j < deps.len() implies {
        let k = (#[trigger] deps[j]).1.0 as int;
        &&& 0 <= k < n
        &&& edge_dependency(edges[k], node, reverse)
        &&& dependency_node(edges[k], reverse) == deps[j].0.0
    } by {}
    // Each dependency edge has its entry in the list.
    assert forall|e: int| 0 <= e < n && #[trigger] edge_dependency(edges[e], node, reverse)
        implies deps.contains((NodeIndex(dependency_node(edges[e], reverse) as usize), EdgeIndex(e as usize))) by {
        if reverse {
            assert(out_list(edges, node as usize, n).contains((edges[e].1, EdgeIndex(e as usize))));
        } else {
            assert(in_list(edges, node as usize, n).contains((edges[e].0, EdgeIndex(e as usize))));
        }
    }
    let no_deps = forall|e: int| 0 <= e < n ==> !#[trigger] edge_dependency(edges[e], node, reverse);
    let some_on = exists|e: int| 0 <= e < n && #[trigger] edge_dependency(edges[e], node, reverse)
        && visited[dependency_node(edges[e], reverse)] == Some(true);
    if visits(deps, visited) {
        if deps.len() == 0 {
            assert forall|e: int| 0 <= e < n implies !#[trigger] edge_dependency(edges[e], node, reverse) by {
                if edge_dependency(edges[e], node, reverse) {
                    assert(deps.contains((NodeIndex(dependency_node(edges[e], reverse) as usize), EdgeIndex(e as usize))));
                }
            }
        } else {
            let j = choose|j: int| 0 <= j < deps.len() && visited[(#[trigger] deps[j]).0.0 as int] == Some(true);
            let k = deps[j].1.0 as int;
            assert(edge_dependency(edges[k], node, reverse));
            assert(some_on);
        }
    }
    if no_deps {
        if deps.len() > 0 {
            let k = deps[0].1.0 as int;
            assert(edge_dependency(edges[k], node, reverse));
        }
    }
    if some_on {
        let e = choose|e: int| 0 <= e < n && #[trigger] edge_dependency(edges[e], node, reverse)
            && visited[dependency_node(edges[e], reverse)] == Some(true);
        let p = (NodeIndex(dependency_node(edges[e], reverse) as usize), EdgeIndex(e as usize));
        assert(deps.contains(p));
        let j = choose|j: int| 0 <= j < deps.len() && deps[j] == p;
        assert(visited[deps[j].0.0 as int] == Some(true));
    }
}

/// A node is ready to be queued exactly when it has not been visited and
/// every node that an edge makes it depend on, wherever that edge stands,
/// has been visited.
pub proof fn lemma_ready_iff_all_dependencies_visited<N, E>(g: &Graph<N, E>, node: int, visited: Seq<Option<bool>>, reverse: bool)
    requires
        g.wf(),
        0 <= node < g.spec_nodes().len(),
        visited.len() == g.spec_nodes().len(),
    ensures
        ready(g, node, visited, reverse) <==> (visited[node] is None
            && forall|e: int| 0 <= e < g.spec_edges().len() && #[trigger] edge_dependency(g.spec_edges()[e], node, reverse)
                ==> visited[dependency_node(g.spec_edges()[e], reverse)] is Some),
{
    let edges = g.spec_edges();
    let n = edges.len();
    let deps = side(g, node, !reverse);
    lemma_out_list_members(edges, node as usize, n);
    lemma_in_list_members(edges, node as usize, n);
    assert forall|j: int| 0 <= j < deps.len() implies {
        let k = (#[trigger] deps[j]).1.0 as int;
        &&& 0 <= k < n
        &&& edge_dependency(edges[k], node, reverse)
        &&& dependency_node(edges[k], reverse) == deps[j].0.0
    } by {}
    assert forall|e: int| 0 <= e < n && #[trigger] edge_dependency(edges[e], node, reverse)
        implies deps.contains((NodeIndex(dependency_node(edges[e], reverse) as usize), EdgeIndex(e as usize))) by {
        if reverse {
            assert(out_list(edges, node as usize, n).contains((edges[e].1, EdgeIndex(e as usize))));
        } else {
            assert(in_list(edges, node as usize, n).contains((edges[e].0, EdgeIndex(e as usize))));
        }
    }
    if all_visited(deps, visited) {
        assert forall|e: int| 0 <= e < n && #[trigger] edge_dependency(edges[e], node, reverse)
            implies visited[dependency_node(edges[e], reverse)] is Some by {
            let p = (NodeIndex(dependency_node(edges[e], reverse) as usize), EdgeIndex(e as usize));
            assert(deps.contains(p));
            let j = choose|j: int| 0 <= j < deps.len() && deps[j] == p;
            assert(visited[deps[j].0.0 as int] is Some);
        }
    }
    if forall|e: int| 0 <= e < n && #[trigger] edge_dependency(edges[e], node, reverse)
        ==> visited[dependency_node(edges[e], reverse)] is Some {
        assert forall|j: int| 0 <= j < deps.len() implies visited[(#[trigger] deps[j]).0.0 as int] is Some by {
            let k = deps[j].1.0 as int;
            assert(edge_dependency(edges[k], node, reverse));
        }
    }
}

} // verus!
