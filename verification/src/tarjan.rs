use vstd::prelude::*;

use crate::graph::{Graph, out_list, lemma_out_list_members};
use crate::index::{EdgeIndex, NodeIndex};

verus! {

/// Bookkeeping for one node in Tarjan's algorithm.
#[derive(Copy, Clone, Debug)]
pub struct TarjanNodeData {
    /// The order in which the node was first visited.
    pub index: usize,
    /// The smallest index of any node known to be reachable from this node
    /// that is still on the stack. If it equals `index`, the node is the root
    /// of a strongly connected component.
    pub lowlink: usize,
    /// `true` if the node is on the depth-first search stack.
    pub on_stack: bool,
}

/// The number of unvisited entries.
pub open spec fn count_none(s: Seq<Option<TarjanNodeData>>) -> nat
    decreases s.len(),
{
    if s.len() == 0 {
        0
    } else {
        count_none(s.drop_last()) + if s.last() is None { 1nat } else { 0nat }
    }
}

proof fn lemma_count_none_bound(s: Seq<Option<TarjanNodeData>>)
    ensures
        count_none(s) <= s.len(),
    decreases s.len(),
{
    if s.len() > 0 {
        lemma_count_none_bound(s.drop_last());
    }
}

proof fn lemma_count_none_update(s: Seq<Option<TarjanNodeData>>, i: int, d: Option<TarjanNodeData>)
    requires
        0 <= i < s.len(),
    ensures
        count_none(s.update(i, d)) + (if s[i] is None { 1nat } else { 0nat }) == count_none(s) + (if d is None { 1nat } else { 0nat }),
    decreases s.len(),
{
    let t = s.update(i, d);
    if i == s.len() - 1 {
        assert(t.drop_last() =~= s.drop_last());
    } else {
        assert(t.drop_last() =~= s.drop_last().update(i, d));
        lemma_count_none_update(s.drop_last(), i, d);
    }
}

struct Tarjan {
    index: usize,
    nodes: Vec<Option<TarjanNodeData>>,
    stack: Vec<NodeIndex>,
    sccs: Vec<Vec<NodeIndex>>,
    /// The nodes whose outgoing edges have all been explored.
    done: Ghost<Set<int>>,
}

impl Tarjan {
    spec fn vis(&self, x: int) -> bool {
        self.nodes@[x] is Some
    }

    spec fn idx(&self, x: int) -> int {
        self.nodes@[x].unwrap().index as int
    }

    spec fn low(&self, x: int) -> int {
        self.nodes@[x].unwrap().lowlink as int
    }

    spec fn onst(&self, x: int) -> bool {
        self.nodes@[x].unwrap().on_stack
    }

    spec fn st(&self, p: int) -> int {
        self.stack@[p].0 as int
    }

    spec fn low_ok(&self, p: int) -> bool {
        exists|q: int| 0 <= q <= p && self.low(self.st(p)) == self.idx(#[trigger] self.st(q))
    }

    spec fn in_sccs(&self, x: int) -> bool {
        exists|c: int, a: int| 0 <= c < self.sccs@.len() && 0 <= a < self.sccs@[c]@.len() && (#[trigger] self.sccs@[c]@[a]).0 == x
    }

    spec fn inv(&self, n: nat) -> bool {
        &&& self.nodes@.len() == n
        &&& n < usize::MAX
        &&& self.index == n - count_none(self.nodes@)
        &&& forall|x: int| 0 <= x < n && #[trigger] self.vis(x) ==> self.idx(x) < self.index
        &&& forall|p: int| 0 <= p < self.stack@.len() ==> #[trigger] self.st(p) < n && self.vis(self.st(p)) && self.onst(self.st(p))
        &&& forall|x: int| 0 <= x < n && #[trigger] self.vis(x) && self.onst(x) ==> self.stack@.contains(NodeIndex(x as usize))
        &&& forall|p: int, q: int| 0 <= p < q < self.stack@.len() ==> self.idx(#[trigger] self.st(p)) < self.idx(#[trigger] self.st(q))
        &&& forall|p: int| 0 <= p < self.stack@.len() ==> #[trigger] self.low_ok(p)
        &&& forall|c: int| 0 <= c < self.sccs@.len() ==> (#[trigger] self.sccs@[c])@.len() > 0
        &&& forall|c: int, a: int| 0 <= c < self.sccs@.len() && 0 <= a < self.sccs@[c]@.len() ==> {
            let x = (#[trigger] self.sccs@[c]@[a]).0 as int;
            &&& x < n
            &&& self.vis(x)
            &&& !self.onst(x)
        }
        &&& forall|c1: int, a1: int, c2: int, a2: int|
            0 <= c1 < self.sccs@.len() && 0 <= a1 < self.sccs@[c1]@.len() && 0 <= c2 < self.sccs@.len() && 0 <= a2 < self.sccs@[c2]@.len() && (c1 != c2 || a1 != a2)
            ==> #[trigger] self.sccs@[c1]@[a1] != #[trigger] self.sccs@[c2]@[a2]
        &&& forall|x: int| 0 <= x < n && #[trigger] self.vis(x) && !self.onst(x) ==> self.in_sccs(x)
    }
}


/// Node `y` is in group `c` or an earlier one.
pub open spec fn placed_by(sccs: Seq<Vec<NodeIndex>>, c: int, y: int) -> bool {
    exists|c2: int, a2: int| 0 <= c2 <= c && 0 <= a2 < sccs[c2]@.len() && (#[trigger] sccs[c2]@[a2]).0 == y
}

/// Every edge out of a group leads into that group or an earlier one.
pub open spec fn edges_point_back(sccs: Seq<Vec<NodeIndex>>, edges: Seq<(NodeIndex, NodeIndex)>) -> bool {
    forall|c: int, a: int, e: int|
        0 <= c < sccs.len() && 0 <= a < sccs[c]@.len() && 0 <= e < edges.len() && #[trigger] edges[e].0 == #[trigger] sccs[c]@[a]
        ==> placed_by(sccs, c, edges[e].1.0 as int)
}

impl Tarjan {
    /// The target of an explored edge has been visited, and if it is still
    /// on the stack its index bounds the source's lowlink from above.
    spec fn edge_ok(&self, xy: (NodeIndex, NodeIndex)) -> bool {
        let y = xy.1.0 as int;
        &&& y < self.nodes@.len()
        &&& self.vis(y)
        &&& self.onst(y) ==> self.low(xy.0.0 as int) <= self.idx(y)
    }

    /// What the search knows of the edges: finished nodes have explored
    /// edges, nodes off the stack are finished, and each finished group
    /// only has edges back into itself or into earlier groups.
    spec fn ord(&self, edges: Seq<(NodeIndex, NodeIndex)>) -> bool {
        &&& forall|x: int| #[trigger] self.done@.contains(x) ==> 0 <= x < self.nodes@.len() && self.vis(x)
        &&& forall|e: int| #![trigger edges[e]] 0 <= e < edges.len() && self.done@.contains(edges[e].0.0 as int) ==> self.edge_ok(edges[e])
        &&& forall|x: int| 0 <= x < self.nodes@.len() && #[trigger] self.vis(x) && !self.onst(x) ==> self.done@.contains(x)
        &&& edges_point_back(self.sccs@, edges)
        &&& forall|p: int, q: int| 0 <= q <= p < self.stack@.len() && self.low(self.st(p)) == self.idx(self.st(q))
            ==> reaches(edges, #[trigger] self.st(p), #[trigger] self.st(q))
        &&& strongly_connected(self.sccs@, edges)
    }
}

spec fn in_suffix(s: Seq<NodeIndex>, from: int, x: int) -> bool {
    exists|p: int| from <= p < s.len() && (#[trigger] s[p]).0 == x
}

impl Tarjan {
    /// Pops the stack down to `base` and records the popped nodes, in pop
    /// order, as a new strongly connected component.
    fn pop_component(&mut self, base: usize, Ghost(n): Ghost<nat>)
        requires
            old(self).inv(n),
            base < old(self).stack@.len(),
        ensures
            final(self).inv(n),
            final(self).index == old(self).index,
            final(self).done == old(self).done,
            final(self).stack@ == old(self).stack@.subrange(0, base as int),
            final(self).sccs@.len() == old(self).sccs@.len() + 1,
            forall|c: int| 0 <= c < old(self).sccs@.len() ==> final(self).sccs@[c] == old(self).sccs@[c],
            final(self).sccs@.last()@.len() == old(self).stack@.len() - base,
            forall|a: int| 0 <= a < final(self).sccs@.last()@.len() ==> #[trigger] final(self).sccs@.last()@[a] == old(self).stack@[old(self).stack@.len() - 1 - a],
            forall|x: int| 0 <= x < n ==> #[trigger] final(self).nodes@[x] == if in_suffix(old(self).stack@, base as int, x) {
                Some(TarjanNodeData { on_stack: false, ..old(self).nodes@[x].unwrap() })
            } else {
                old(self).nodes@[x]
            },
    {
        let ghost s0 = self.stack@;
        let ghost old_self = *self;
        let mut comp: Vec<NodeIndex> = Vec::new();
        while self.stack.len() > base
            invariant
                self.stack@ == s0.subrange(0, self.stack@.len() as int),
                base <= self.stack@.len() <= s0.len(),
                base < s0.len(),
                comp@.len() == s0.len() - self.stack@.len(),
                forall|a: int| 0 <= a < comp@.len() ==> #[trigger] comp@[a] == s0[s0.len() - 1 - a],
                self.nodes@.len() == n,
                forall|x: int| 0 <= x < n ==> #[trigger] self.nodes@[x] == if in_suffix(s0, self.stack@.len() as int, x) {
                    Some(TarjanNodeData { on_stack: false, ..old_self.nodes@[x].unwrap() })
                } else {
                    old_self.nodes@[x]
                },
                self.sccs@ == old_self.sccs@,
                self.index == old_self.index,
                self.done == old_self.done,
                old_self.inv(n),
                s0 == old_self.stack@,
            decreases self.stack@.len(),
        {
            let ghost len0: int = self.stack@.len() as int;
            let w = self.stack.pop().unwrap();
            proof {
                assert(w == s0[len0 - 1]);
                assert(old_self.st(len0 - 1) < n);
            }
            let mut wd = self.nodes[w.0].unwrap();
            wd.on_stack = false;
            self.nodes.set(w.0, Some(wd));
            comp.push(w);
            proof {
                assert forall|x: int| 0 <= x < n implies #[trigger] self.nodes@[x] == if in_suffix(s0, self.stack@.len() as int, x) {
                    Some(TarjanNodeData { on_stack: false, ..old_self.nodes@[x].unwrap() })
                } else {
                    old_self.nodes@[x]
                } by {
                    if x == w.0 {
                        assert(in_suffix(s0, self.stack@.len() as int, x));
                        if in_suffix(s0, len0, x) {
                            let p = choose|p: int| len0 <= p < s0.len() && (#[trigger] s0[p]).0 == x;
                            assert(old_self.idx(old_self.st(len0 - 1)) < old_self.idx(old_self.st(p)));
                        }
                    } else {
                        if in_suffix(s0, self.stack@.len() as int, x) {
                            let p = choose|p: int| self.stack@.len() <= p < s0.len() && (#[trigger] s0[p]).0 == x;
                            assert(p != len0 - 1);
                            assert(in_suffix(s0, len0, x));
                        } else {
                            if in_suffix(s0, len0, x) {
                                let p = choose|p: int| len0 <= p < s0.len() && (#[trigger] s0[p]).0 == x;
                                assert(in_suffix(s0, self.stack@.len() as int, x));
                            }
                        }
                    }
                }
                assert forall|a: int| 0 <= a < comp@.len() implies #[trigger] comp@[a] == s0[s0.len() - 1 - a] by {
                }
            }
        }
        let ghost comp_s = comp@;
        self.sccs.push(comp);
        proof {
            let k = s0.len() - base;
            assert(self.stack@ == s0.subrange(0, base as int));
            // distinct stack entries
            assert forall|p: int, q: int| 0 <= p < s0.len() && 0 <= q < s0.len() && p != q implies s0[p] != s0[q] by {
                if p < q {
                    assert(old_self.idx(old_self.st(p)) < old_self.idx(old_self.st(q)));
                } else {
                    assert(old_self.idx(old_self.st(q)) < old_self.idx(old_self.st(p)));
                }
            }
            let c_new = old_self.sccs@.len() as int;
            assert(self.sccs@[c_new]@ == comp_s);
            // stack entries
            assert forall|p: int| 0 <= p < self.stack@.len() implies #[trigger] self.st(p) < n && self.vis(self.st(p)) && self.onst(self.st(p)) by {
                assert(old_self.st(p) < n);
                let x = self.st(p);
                if in_suffix(s0, base as int, x) {
                    let q = choose|q: int| base <= q < s0.len() && (#[trigger] s0[q]).0 == x;
                    assert(s0[q] == s0[p]);
                }
            }
            assert forall|x: int| 0 <= x < n && #[trigger] self.vis(x) && self.onst(x) implies self.stack@.contains(NodeIndex(x as usize)) by {
                assert(!in_suffix(s0, base as int, x));
                assert(old_self.vis(x) && old_self.onst(x));
                assert(s0.contains(NodeIndex(x as usize)));
                let p = choose|p: int| 0 <= p < s0.len() && s0[p] == NodeIndex(x as usize);
                if p >= base {
                    assert(in_suffix(s0, base as int, x));
                }
                assert(self.stack@[p] == NodeIndex(x as usize));
            }
            assert forall|p: int, q: int| 0 <= p < q < self.stack@.len() implies self.idx(#[trigger] self.st(p)) < self.idx(#[trigger] self.st(q)) by {
                assert(old_self.idx(old_self.st(p)) < old_self.idx(old_self.st(q)));
            }
            assert forall|p: int| 0 <= p < self.stack@.len() implies #[trigger] self.low_ok(p) by {
                assert(old_self.low_ok(p));
                let q = choose|q: int| 0 <= q <= p && old_self.low(old_self.st(p)) == old_self.idx(#[trigger] old_self.st(q));
                assert(self.low(self.st(p)) == self.idx(self.st(q)));
            }
            assert forall|x: int| 0 <= x < n implies old_self.vis(x) == #[trigger] self.vis(x) by {
                if in_suffix(s0, base as int, x) {
                    let q = choose|q: int| base <= q < s0.len() && (#[trigger] s0[q]).0 == x;
                    assert(old_self.st(q) < n);
                }
            }
            assert forall|x: int| 0 <= x < n && #[trigger] self.vis(x) implies self.idx(x) < self.index by {
                assert(old_self.vis(x));
            }
            assert forall|c: int| 0 <= c < self.sccs@.len() implies (#[trigger] self.sccs@[c])@.len() > 0 by {
                if c < c_new {
                    assert(self.sccs@[c] == old_self.sccs@[c]);
                }
            }
            assert forall|c: int, a: int| 0 <= c < self.sccs@.len() && 0 <= a < self.sccs@[c]@.len() implies {
                let x = (#[trigger] self.sccs@[c]@[a]).0 as int;
                &&& x < n
                &&& self.vis(x)
                &&& !self.onst(x)
            } by {
                let x = self.sccs@[c]@[a].0 as int;
                if c < c_new {
                    assert(self.sccs@[c] == old_self.sccs@[c]);
                    assert(old_self.sccs@[c]@[a].0 == x);
                    assert(x < n && old_self.vis(x) && !old_self.onst(x));
                    if in_suffix(s0, base as int, x) {
                        let q = choose|q: int| base <= q < s0.len() && (#[trigger] s0[q]).0 == x;
                        assert(old_self.st(q) == x);
                    }
                } else {
                    assert(comp_s[a] == s0[s0.len() - 1 - a]);
                    let q = s0.len() - 1 - a;
                    assert(old_self.st(q) < n);
                    assert(in_suffix(s0, base as int, x));
                }
            }
            assert forall|c1: int, a1: int, c2: int, a2: int|
                0 <= c1 < self.sccs@.len() && 0 <= a1 < self.sccs@[c1]@.len() && 0 <= c2 < self.sccs@.len() && 0 <= a2 < self.sccs@[c2]@.len() && (c1 != c2 || a1 != a2)
                implies #[trigger] self.sccs@[c1]@[a1] != #[trigger] self.sccs@[c2]@[a2] by {
                if c1 < c_new && c2 < c_new {
                    assert(self.sccs@[c1] == old_self.sccs@[c1]);
                    assert(self.sccs@[c2] == old_self.sccs@[c2]);
                } else if c1 == c_new && c2 == c_new {
                    assert(comp_s[a1] == s0[s0.len() - 1 - a1]);
                    assert(comp_s[a2] == s0[s0.len() - 1 - a2]);
                } else if c1 == c_new {
                    assert(self.sccs@[c2] == old_self.sccs@[c2]);
                    let x = old_self.sccs@[c2]@[a2].0 as int;
                    assert(!old_self.onst(x));
                    let q = s0.len() - 1 - a1;
                    assert(comp_s[a1] == s0[q]);
                    assert(old_self.onst(old_self.st(q)));
                } else {
                    assert(self.sccs@[c1] == old_self.sccs@[c1]);
                    let x = old_self.sccs@[c1]@[a1].0 as int;
                    assert(!old_self.onst(x));
                    let q = s0.len() - 1 - a2;
                    assert(comp_s[a2] == s0[q]);
                    assert(old_self.onst(old_self.st(q)));
                }
            }
            assert forall|x: int| 0 <= x < n && #[trigger] self.vis(x) && !self.onst(x) implies self.in_sccs(x) by {
                if in_suffix(s0, base as int, x) {
                    let q = choose|q: int| base <= q < s0.len() && (#[trigger] s0[q]).0 == x;
                    let a = s0.len() - 1 - q;
                    assert(self.sccs@[c_new]@[a] == s0[q]);
                } else {
                    assert(old_self.vis(x) && !old_self.onst(x));
                    assert(old_self.in_sccs(x));
                    let (c, a) = choose|c: int, a: int| 0 <= c < old_self.sccs@.len() && 0 <= a < old_self.sccs@[c]@.len() && (#[trigger] old_self.sccs@[c]@[a]).0 == x;
                    assert(self.sccs@[c] == old_self.sccs@[c]);
                    assert(self.sccs@[c]@[a].0 == x);
                }
            }
            // unvisited count unchanged
            assert forall|x: int| 0 <= x < n implies (self.nodes@[x] is None) == (old_self.nodes@[x] is None) by {
                assert(old_self.vis(x) == self.vis(x));
            }
            lemma_count_none_same(self.nodes@, old_self.nodes@);
        }
    }
}

impl Tarjan {
    /// Visits `v` and, depth first, every unvisited node reachable from it,
    /// emitting each strongly connected component whose root it finishes.
    #[verifier::spinoff_prover]
    #[verifier::rlimit(40)]
    fn visit<N, E>(&mut self, v: NodeIndex, g: &Graph<N, E>)
        requires
            g.wf(),
            old(self).inv(g.spec_nodes().len()),
            old(self).ord(g.spec_edges()),
            v.0 < g.spec_nodes().len(),
        ensures
            final(self).inv(g.spec_nodes().len()),
            final(self).ord(g.spec_edges()),
            old(self).done@.subset_of(final(self).done@),
            forall|x: int| #[trigger] final(self).done@.contains(x) ==> old(self).done@.contains(x) || !old(self).vis(x),
            !old(self).vis(v.0 as int) ==> final(self).done@.contains(v.0 as int),
            !old(self).vis(v.0 as int) ==> forall|q: int| old(self).stack@.len() <= q < final(self).stack@.len()
                ==> final(self).done@.contains(#[trigger] final(self).st(q)) && final(self).low(final(self).st(q)) >= final(self).low(v.0 as int),
            !old(self).vis(v.0 as int) ==> forall|q: int| old(self).stack@.len() <= q < final(self).stack@.len()
                ==> reaches(g.spec_edges(), v.0 as int, #[trigger] final(self).st(q)),
            !old(self).vis(v.0 as int) ==> forall|q: int| old(self).stack@.len() < q < final(self).stack@.len()
                ==> final(self).low(#[trigger] final(self).st(q)) < final(self).idx(final(self).st(q)),
            final(self).vis(v.0 as int),
            forall|x: int| 0 <= x < g.spec_nodes().len() && old(self).vis(x) ==> #[trigger] final(self).nodes@[x] == old(self).nodes@[x],
            final(self).stack@.len() >= old(self).stack@.len(),
            forall|p: int| 0 <= p < old(self).stack@.len() ==> #[trigger] final(self).stack@[p] == old(self).stack@[p],
            final(self).stack@.len() > old(self).stack@.len() ==> final(self).stack@[old(self).stack@.len() as int] == v
                && final(self).low(v.0 as int) < final(self).idx(v.0 as int),
            !old(self).vis(v.0 as int) ==> final(self).idx(v.0 as int) == old(self).index,
            !old(self).vis(v.0 as int) && final(self).stack@.len() == old(self).stack@.len() ==> final(self).low(v.0 as int) == final(self).idx(v.0 as int),
            final(self).sccs@.len() >= old(self).sccs@.len(),
            forall|c: int| 0 <= c < old(self).sccs@.len() ==> #[trigger] final(self).sccs@[c] == old(self).sccs@[c],
            final(self).index >= old(self).index,
        decreases count_none(old(self).nodes@),
    {
        let ghost n = g.spec_nodes().len();
        if self.nodes[v.0].is_some() {
            return;
        }
        let ghost old_self = *self;
        let base = self.stack.len();
        let v_index = self.index;
        proof {
            lemma_count_none_update(self.nodes@, v.0 as int, Some(TarjanNodeData { index: v_index, lowlink: v_index, on_stack: true }));
            lemma_count_none_bound(self.nodes@);
        }
        self.nodes.set(v.0, Some(TarjanNodeData { index: v_index, lowlink: v_index, on_stack: true }));
        self.stack.push(v);
        self.index = self.index + 1;
        proof {
            assert forall|x: int| 0 <= x < n && #[trigger] self.vis(x) implies self.idx(x) < self.index by {
                if x != v.0 {
                    assert(old_self.vis(x));
                }
            }
            assert forall|p: int| 0 <= p < self.stack@.len() implies #[trigger] self.st(p) < n && self.vis(self.st(p)) && self.onst(self.st(p)) by {
                if p < base {
                    assert(old_self.st(p) < n);
                    assert(old_self.st(p) != v.0);
                }
            }
            assert forall|x: int| 0 <= x < n && #[trigger] self.vis(x) && self.onst(x) implies self.stack@.contains(NodeIndex(x as usize)) by {
                if x == v.0 {
                    assert(self.stack@[base as int] == v);
                } else {
                    assert(old_self.vis(x) && old_self.onst(x));
                    let p = choose|p: int| 0 <= p < old_self.stack@.len() && old_self.stack@[p] == NodeIndex(x as usize);
                    assert(self.stack@[p] == NodeIndex(x as usize));
                }
            }
            assert forall|p: int, q: int| 0 <= p < q < self.stack@.len() implies self.idx(#[trigger] self.st(p)) < self.idx(#[trigger] self.st(q)) by {
                assert(old_self.st(p) < n);
                assert(old_self.st(p) != v.0);
                if q < base {
                    assert(old_self.idx(old_self.st(p)) < old_self.idx(old_self.st(q)));
                    assert(old_self.st(q) != v.0);
                } else {
                    assert(old_self.idx(old_self.st(p)) < old_self.index);
                }
            }
            assert forall|p: int| 0 <= p < self.stack@.len() implies #[trigger] self.low_ok(p) by {
                if p < base {
                    assert(old_self.low_ok(p));
                    let q = choose|q: int| 0 <= q <= p && old_self.low(old_self.st(p)) == old_self.idx(#[trigger] old_self.st(q));
                    assert(old_self.st(p) != v.0);
                    assert(old_self.st(q) < n);
                    assert(old_self.st(q) != v.0);
                    assert(self.low(self.st(p)) == self.idx(self.st(q)));
                } else {
                    assert(self.low(self.st(p)) == self.idx(self.st(p)));
                }
            }
            assert forall|c: int, a: int| 0 <= c < self.sccs@.len() && 0 <= a < self.sccs@[c]@.len() implies {
                let x = (#[trigger] self.sccs@[c]@[a]).0 as int;
                &&& x < n
                &&& self.vis(x)
                &&& !self.onst(x)
            } by {
                let x = self.sccs@[c]@[a].0 as int;
                assert(old_self.vis(x));
            }
            assert forall|x: int| 0 <= x < n && #[trigger] self.vis(x) && !self.onst(x) implies self.in_sccs(x) by {
                assert(old_self.vis(x));
                assert(old_self.in_sccs(x));
                let (c, a) = choose|c: int, a: int| 0 <= c < old_self.sccs@.len() && 0 <= a < old_self.sccs@[c]@.len() && (#[trigger] old_self.sccs@[c]@[a]).0 == x;
                assert(self.sccs@[c]@[a].0 == x);
            }
            assert(self.inv(n));
            self.lemma_push_ord(old_self, v.0 as int, n, g.spec_edges());
        }
        let out = g.outgoing(v);
        proof {
            lemma_out_list_members(g.spec_edges(), v.0, g.spec_edges().len());
            assert forall|j: int| 0 <= j < out@.len() implies edge_between(g.spec_edges(), v.0 as int, (#[trigger] out@[j]).0.0 as int) by {
                let e = out@[j].1.0 as int;
                assert(g.spec_edges()[e].0.0 == v.0 && g.spec_edges()[e].1 == out@[j].0);
            }
        }
        let mut k: usize = 0;
        while k < out.len()
            invariant
                g.wf(),
                n == g.spec_nodes().len(),
                out@ == out_list(g.spec_edges(), v.0, g.spec_edges().len()),
                forall|j: int| 0 <= j < out@.len() ==> (#[trigger] out@[j]).0.0 < n,
                k <= out@.len(),
                self.inv(n),
                self.vis(v.0 as int),
                self.idx(v.0 as int) == v_index,
                v_index < self.index,
                self.stack@.len() > base,
                self.stack@[base as int] == v,
                base == old_self.stack@.len(),
                !old_self.vis(v.0 as int),
                old_self.inv(n),
                forall|p: int| 0 <= p < base ==> #[trigger] self.stack@[p] == old_self.stack@[p],
                forall|x: int| 0 <= x < n && old_self.vis(x) ==> #[trigger] self.nodes@[x] == old_self.nodes@[x],
                self.sccs@.len() >= old_self.sccs@.len(),
                forall|c: int| 0 <= c < old_self.sccs@.len() ==> #[trigger] self.sccs@[c] == old_self.sccs@[c],
                count_none(self.nodes@) < count_none(old_self.nodes@),
                old_self.nodes@ == old(self).nodes@,
                v.0 < n,
                v_index == old_self.index,
                self.ord(g.spec_edges()),
                old_self.done@.subset_of(self.done@),
                forall|x: int| #[trigger] self.done@.contains(x) ==> old_self.done@.contains(x) || !old_self.vis(x),
                !self.done@.contains(v.0 as int),
                forall|q: int| base < q < self.stack@.len() ==> self.done@.contains(#[trigger] self.st(q)) && self.low(self.st(q)) >= self.low(v.0 as int),
                forall|j: int| 0 <= j < k ==> self.edge_ok((v, (#[trigger] out@[j]).0)),
                forall|q: int| base < q < self.stack@.len() ==> reaches(g.spec_edges(), v.0 as int, #[trigger] self.st(q)),
                forall|q: int| base < q < self.stack@.len() ==> self.low(#[trigger] self.st(q)) < self.idx(self.st(q)),
                forall|j: int| 0 <= j < out@.len() ==> edge_between(g.spec_edges(), v.0 as int, (#[trigger] out@[j]).0.0 as int),
            decreases out@.len() - k,
        {
            let w = out[k].0;
            proof {
                assert(out@[k as int].0.0 < n);
                assert(g.spec_nodes().len() == n);
            }
            match self.nodes[w.0] {
                None => {
                    let ghost mid = *self;
                    assert(count_none(self.nodes@) < count_none(old(self).nodes@));
                    self.visit(w, g);
                    proof {
                        assert(mid.vis(v.0 as int));
                        assert(0 <= v.0 < n);
                        assert(self.nodes@[v.0 as int] == mid.nodes@[v.0 as int]);
                        assert(mid.stack@[base as int] == v);
                        assert(self.stack@[base as int] == v);
                        assert(self.nodes@[v.0 as int] == mid.nodes@[v.0 as int]);
                        assert(!self.done@.contains(v.0 as int));
                        assert forall|x: int| #[trigger] self.done@.contains(x) implies old_self.done@.contains(x) || !old_self.vis(x) by {
                            if !mid.done@.contains(x) {
                                assert(!mid.vis(x));
                                if 0 <= x < n && old_self.vis(x) {
                                    assert(mid.nodes@[x] == old_self.nodes@[x]);
                                }
                            }
                        }
                    }
                    let ghost after_child = *self;
                    let lw = self.nodes[w.0].unwrap().lowlink;
                    let mut vd = self.nodes[v.0].unwrap();
                    if lw < vd.lowlink {
                        let ghost before = *self;
                        vd.lowlink = lw;
                        self.nodes.set(v.0, Some(vd));
                        proof {
                            self.lemma_set_low(before, v.0 as int, base as int, n);
                            // the new lowlink comes from the child's stack segment
                            let pw = mid.stack@.len() as int;
                            if before.stack@.len() > mid.stack@.len() {
                                assert(before.stack@[pw] == w);
                                assert(before.low_ok(pw));
                                let q = choose|q: int| 0 <= q <= pw && before.low(before.st(pw)) == before.idx(#[trigger] before.st(q));
                                assert(before.st(base as int) == v.0);
                                assert(before.low_ok(base as int));
                                let q2 = choose|q2: int| 0 <= q2 <= base && before.low(before.st(base as int)) == before.idx(#[trigger] before.st(q2));
                                if q2 < base {
                                    assert(before.idx(before.st(q2)) < before.idx(before.st(base as int)));
                                }
                                if q > base {
                                    assert(before.idx(before.st(base as int)) < before.idx(before.st(q)));
                                    assert(false);
                                }
                                assert(before.st(q) < n);
                                assert(self.st(q) == before.st(q));
                                assert(self.idx(self.st(q)) == before.idx(before.st(q)));
                                assert(self.low(self.st(base as int)) == self.idx(self.st(q)));
                                assert(self.low_ok(base as int));
                            } else {
                                assert(before.low(w.0 as int) == before.idx(w.0 as int));
                                assert(before.idx(w.0 as int) == mid.index);
                                assert(before.low_ok(base as int));
                                let q = choose|q: int| 0 <= q <= base && before.low(before.st(base as int)) == before.idx(#[trigger] before.st(q));
                                if q < base {
                                    assert(before.idx(before.st(q)) < before.idx(before.st(base as int)));
                                }
                                assert(before.idx(v.0 as int) < mid.index);
                                assert(false);
                            }
                            self.lemma_low_ok_rest(before, v.0 as int, base as int, n);
                            assert(edge_between(g.spec_edges(), v.0 as int, out@[k as int].0.0 as int));
                            lemma_reaches_edge(g.spec_edges(), v.0 as int, w.0 as int);
                            assert forall|q: int| 0 <= q <= base && self.low(v.0 as int) == self.idx(#[trigger] self.st(q))
                                implies reaches(g.spec_edges(), v.0 as int, self.st(q)) by {
                                assert(before.stack@[pw] == w);
                                assert(before.st(pw) == w.0);
                                assert(self.st(q) == before.st(q));
                                assert(before.st(q) < n);
                                assert(self.idx(self.st(q)) == before.idx(before.st(q)));
                                assert(before.low(before.st(pw)) == before.idx(before.st(q)));
                                assert(reaches(g.spec_edges(), before.st(pw), before.st(q)));
                                lemma_reaches_trans(g.spec_edges(), v.0 as int, w.0 as int, before.st(q));
                            }
                            self.lemma_set_low_ord(before, v.0 as int, base as int, n, g.spec_edges());
                        }
                    }
                    proof {
                        let pw = mid.stack@.len() as int;
                        // what the child left in place
                        assert forall|x: int| 0 <= x < n && x != v.0 implies #[trigger] self.nodes@[x] == after_child.nodes@[x] by {}
                        assert(self.low(v.0 as int) <= mid.low(v.0 as int));
                        assert(self.low(v.0 as int) <= lw);
                        assert(self.stack@ == after_child.stack@);
                        assert(self.done == after_child.done);
                        assert forall|q: int| base < q < self.stack@.len() implies self.done@.contains(#[trigger] self.st(q)) && self.low(self.st(q)) >= self.low(v.0 as int) by {
                            if q < pw {
                                assert(mid.st(q) < n);
                                assert(mid.vis(mid.st(q)));
                                assert(after_child.stack@[q] == mid.stack@[q]);
                                assert(after_child.nodes@[mid.st(q)] == mid.nodes@[mid.st(q)]);
                                assert(mid.done@.contains(mid.st(q)));
                                assert(mid.st(q) != v.0) by {
                                    assert(mid.idx(mid.st(base as int)) < mid.idx(mid.st(q)));
                                }
                            } else {
                                assert(after_child.done@.contains(after_child.st(q)));
                                assert(after_child.low(after_child.st(q)) >= after_child.low(w.0 as int));
                                assert(after_child.st(q) != v.0) by {
                                    assert(after_child.idx(after_child.st(base as int)) < after_child.idx(after_child.st(q)));
                                }
                            }
                        }
                        assert(edge_between(g.spec_edges(), v.0 as int, out@[k as int].0.0 as int));
                        lemma_reaches_edge(g.spec_edges(), v.0 as int, w.0 as int);
                        assert forall|q: int| base < q < self.stack@.len() implies reaches(g.spec_edges(), v.0 as int, #[trigger] self.st(q)) by {
                            if q < pw {
                                assert(after_child.stack@[q] == mid.stack@[q]);
                                assert(self.st(q) == mid.st(q));
                            } else {
                                assert(reaches(g.spec_edges(), w.0 as int, after_child.st(q)));
                                lemma_reaches_trans(g.spec_edges(), v.0 as int, w.0 as int, self.st(q));
                            }
                        }
                        assert forall|q: int| base < q < self.stack@.len() implies self.low(#[trigger] self.st(q)) < self.idx(self.st(q)) by {
                            assert(self.st(q) != v.0) by {
                                assert(self.idx(self.st(base as int)) < self.idx(self.st(q)));
                            }
                            assert(self.st(q) < n);
                            assert(self.nodes@[self.st(q)] == after_child.nodes@[self.st(q)]);
                            if q < pw {
                                assert(after_child.stack@[q] == mid.stack@[q]);
                                assert(mid.st(q) < n);
                                assert(mid.vis(mid.st(q)));
                                assert(after_child.nodes@[mid.st(q)] == mid.nodes@[mid.st(q)]);
                                assert(mid.low(mid.st(q)) < mid.idx(mid.st(q)));
                            } else if q == pw {
                                assert(after_child.stack@[pw] == w);
                            } else {
                                assert(after_child.low(after_child.st(q)) < after_child.idx(after_child.st(q)));
                            }
                        }
                        assert forall|j: int| 0 <= j < k + 1 implies self.edge_ok((v, (#[trigger] out@[j]).0)) by {
                            let y = out@[j].0.0 as int;
                            if j < k {
                                assert(mid.edge_ok((v, out@[j].0)));
                                assert(mid.vis(y));
                                assert(after_child.nodes@[y] == mid.nodes@[y]);
                                if y == v.0 {
                                    assert(self.onst(y) ==> self.low(v.0 as int) <= self.idx(y));
                                }
                            } else {
                                assert(y == w.0);
                                if self.onst(y) {
                                    assert(after_child.onst(y));
                                    if after_child.stack@.len() == mid.stack@.len() {
                                        assert(after_child.stack@.contains(w));
                                        let q = choose|q: int| 0 <= q < after_child.stack@.len() && after_child.stack@[q] == w;
                                        assert(mid.stack@[q] == w);
                                        assert(mid.vis(mid.st(q)));
                                        assert(false);
                                    }
                                    assert(after_child.low(y) < after_child.idx(y));
                                    assert(w.0 != v.0);
                                }
                            }
                        }
                    }
                },
                Some(wd) => {
                    if wd.on_stack {
                        let mut vd = self.nodes[v.0].unwrap();
                        if wd.index < vd.lowlink {
                            let ghost before = *self;
                            vd.lowlink = wd.index;
                            self.nodes.set(v.0, Some(vd));
                            proof {
                                self.lemma_set_low(before, v.0 as int, base as int, n);
                                assert(before.nodes@[w.0 as int] == Some(wd));
                                assert(before.vis(w.0 as int) && before.onst(w.0 as int));
                                assert(NodeIndex(w.0 as usize) == w);
                                assert(before.stack@.contains(w));
                                let q = choose|q: int| 0 <= q < before.stack@.len() && before.stack@[q] == w;
                                assert(before.st(q) == w.0);
                                assert(before.low_ok(base as int));
                                let q2 = choose|q2: int| 0 <= q2 <= base && before.low(before.st(base as int)) == before.idx(#[trigger] before.st(q2));
                                if q > base {
                                    assert(before.idx(before.st(base as int)) < before.idx(before.st(q)));
                                    if q2 < base {
                                        assert(before.idx(before.st(q2)) < before.idx(before.st(base as int)));
                                    }
                                    assert(false);
                                }
                                assert(self.st(q) == w.0);
                                assert(self.low_ok(base as int));
                                self.lemma_low_ok_rest(before, v.0 as int, base as int, n);
                                assert(edge_between(g.spec_edges(), v.0 as int, out@[k as int].0.0 as int));
                                lemma_reaches_edge(g.spec_edges(), v.0 as int, w.0 as int);
                                assert forall|q4: int| 0 <= q4 <= base && self.low(v.0 as int) == self.idx(#[trigger] self.st(q4))
                                    implies reaches(g.spec_edges(), v.0 as int, self.st(q4)) by {
                                    assert(self.st(q4) == before.st(q4));
                                    assert(before.st(q4) < n);
                                    assert(self.idx(self.st(q4)) == before.idx(before.st(q4)));
                                    if q4 < q {
                                        assert(before.idx(before.st(q4)) < before.idx(before.st(q)));
                                    } else if q4 > q {
                                        assert(before.idx(before.st(q)) < before.idx(before.st(q4)));
                                    }
                                }
                                self.lemma_set_low_ord(before, v.0 as int, base as int, n, g.spec_edges());
                                assert forall|q3: int| base < q3 < self.stack@.len() implies self.done@.contains(#[trigger] self.st(q3)) && self.low(self.st(q3)) >= self.low(v.0 as int) by {
                                    assert(before.st(q3) != v.0) by {
                                        assert(before.idx(before.st(base as int)) < before.idx(before.st(q3)));
                                    }
                                    assert(before.st(q3) < n);
                                }
                                assert forall|j: int| 0 <= j < k implies self.edge_ok((v, (#[trigger] out@[j]).0)) by {
                                    assert(before.edge_ok((v, out@[j].0)));
                                }
                                assert forall|q5: int| base < q5 < self.stack@.len() implies self.low(#[trigger] self.st(q5)) < self.idx(self.st(q5)) by {
                                    assert(before.st(q5) != v.0) by {
                                        assert(before.idx(before.st(base as int)) < before.idx(before.st(q5)));
                                    }
                                    assert(before.st(q5) < n);
                                    assert(before.low(before.st(q5)) < before.idx(before.st(q5)));
                                }
                                assert forall|q5: int| base < q5 < self.stack@.len() implies reaches(g.spec_edges(), v.0 as int, #[trigger] self.st(q5)) by {
                                    assert(self.st(q5) == before.st(q5));
                                }
                            }
                        }
                    }
                    proof {
                        assert(self.edge_ok((v, out@[k as int].0)));
                    }
                },
            }
            k = k + 1;
        }
        let ghost before_fin = *self;
        proof {
            // every edge out of `v` has been explored
            assert forall|e: int| 0 <= e < g.spec_edges().len() && (#[trigger] g.spec_edges()[e]).0.0 == v.0 implies before_fin.edge_ok(g.spec_edges()[e]) by {
                let edges = g.spec_edges();
                assert(out@.contains((edges[e].1, EdgeIndex(e as usize))));
                let j = choose|j: int| 0 <= j < out@.len() && out@[j] == (edges[e].1, EdgeIndex(e as usize));
                assert(before_fin.edge_ok((v, out@[j].0)));
                assert(edges[e].0 == v);
            }
        }
        self.done = Ghost(self.done@.insert(v.0 as int));
        proof {
            self.lemma_finish_ord(before_fin, v.0 as int, g.spec_edges());
            self.lemma_inv_frame(before_fin, n);
        }
        let vd = self.nodes[v.0].unwrap();
        if vd.lowlink == vd.index {
            let ghost before = *self;
            self.pop_component(base, Ghost(n));
            proof {
                assert forall|q: int| base <= q < before.stack@.len() implies before.done@.contains(#[trigger] before.st(q))
                    && before.low(before.st(q)) >= before.idx(before.st(base as int)) by {
                    assert(before.st(base as int) == v.0);
                    assert(before.low(v.0 as int) == before.idx(v.0 as int));
                    if q > base {
                        assert(before_fin.done@.contains(before_fin.st(q)) && before_fin.low(before_fin.st(q)) >= before_fin.low(v.0 as int));
                    }
                }
                assert(before.st(base as int) == v.0);
                assert forall|q: int| base <= q < before.stack@.len() implies reaches(g.spec_edges(), before.st(base as int), #[trigger] before.st(q)) by {
                    if q == base {
                        lemma_reaches_refl(g.spec_edges(), v.0 as int);
                    } else {
                        assert(before.st(q) == before_fin.st(q));
                    }
                }
                assert forall|q: int| base < q < before.stack@.len() implies before.low(#[trigger] before.st(q)) < before.idx(before.st(q)) by {
                    assert(before.st(q) == before_fin.st(q));
                }
                self.lemma_pop_ord(before, base as int, n, g.spec_edges());
                assert(in_suffix(before.stack@, base as int, v.0 as int));
                assert forall|x: int| 0 <= x < n && old_self.vis(x) implies #[trigger] self.nodes@[x] == old_self.nodes@[x] by {
                    assert(before.nodes@[x] == old_self.nodes@[x]);
                    if in_suffix(before.stack@, base as int, x) {
                        let q = choose|q: int| base <= q < before.stack@.len() && (#[trigger] before.stack@[q]).0 == x;
                        assert(before.st(q) == x);
                        assert(before.idx(before.st(base as int)) <= before.idx(before.st(q)));
                        assert(old_self.idx(x) < old_self.index);
                    }
                }
                assert forall|x: int| 0 <= x < self.nodes@.len() implies (self.nodes@[x] is None) == (before.nodes@[x] is None) by {
                    if in_suffix(before.stack@, base as int, x) {
                        let q = choose|q: int| base <= q < before.stack@.len() && (#[trigger] before.stack@[q]).0 == x;
                        assert(before.st(q) == x);
                        assert(before.vis(x));
                    }
                }
                lemma_count_none_same(self.nodes@, before.nodes@);
            }
        } else {
            proof {
                let ghost b = *self;
                assert forall|q: int| old_self.stack@.len() <= q < b.stack@.len()
                    implies reaches(g.spec_edges(), v.0 as int, #[trigger] b.st(q)) by {
                    if q == base {
                        assert(b.st(q) == v.0);
                        lemma_reaches_refl(g.spec_edges(), v.0 as int);
                    } else {
                        assert(b.st(q) == before_fin.st(q));
                    }
                }
                assert forall|q: int| old_self.stack@.len() < q < b.stack@.len()
                    implies b.low(#[trigger] b.st(q)) < b.idx(b.st(q)) by {
                    assert(b.st(q) == before_fin.st(q));
                }
                assert forall|q: int| old_self.stack@.len() <= q < b.stack@.len()
                    implies b.done@.contains(#[trigger] b.st(q)) && b.low(b.st(q)) >= b.low(v.0 as int) by {
                    if q > base {
                        assert(before_fin.done@.contains(before_fin.st(q)) && before_fin.low(before_fin.st(q)) >= before_fin.low(v.0 as int));
                    } else {
                        assert(b.st(q) == v.0);
                    }
                }
                assert(b.low_ok(base as int));
                let q = choose|q: int| 0 <= q <= base && b.low(b.st(base as int)) == b.idx(#[trigger] b.st(q));
                if q < base {
                    assert(b.idx(b.st(q)) < b.idx(b.st(base as int)));
                }
            }
        }
    }

    /// Setting the lowlink of the stack node at `base` keeps every part of
    /// the invariant but the lowlink condition at `base`.
    proof fn lemma_set_low(&self, before: Tarjan, v: int, base: int, n: nat)
        requires
            before.inv(n),
            0 <= v < n,
            0 <= base < before.stack@.len(),
            before.st(base) == v,
            self.stack@ == before.stack@,
            self.sccs@ == before.sccs@,
            self.index == before.index,
            self.nodes@ == before.nodes@.update(v, Some(TarjanNodeData { lowlink: self.low(v) as usize, ..before.nodes@[v].unwrap() })),
        ensures
            self.nodes@.len() == n,
            forall|x: int| 0 <= x < n && x != v ==> self.nodes@[x] == before.nodes@[x],
            self.vis(v) && self.onst(v) && self.idx(v) == before.idx(v),
            count_none(self.nodes@) == count_none(before.nodes@),
    {
        assert(before.vis(before.st(base)));
        lemma_count_none_update(before.nodes@, v, self.nodes@[v]);
    }

    /// After lowering the lowlink of the stack node at `base`, the invariant
    /// holds again once the lowlink condition at `base` does.
    proof fn lemma_low_ok_rest(&self, before: Tarjan, v: int, base: int, n: nat)
        requires
            before.inv(n),
            0 <= v < n,
            0 <= base < before.stack@.len(),
            before.st(base) == v,
            self.stack@ == before.stack@,
            self.sccs@ == before.sccs@,
            self.index == before.index,
            self.nodes@.len() == n,
            forall|x: int| 0 <= x < n && x != v ==> self.nodes@[x] == before.nodes@[x],
            self.vis(v) && self.onst(v) && self.idx(v) == before.idx(v),
            count_none(self.nodes@) == count_none(before.nodes@),
            self.low_ok(base),
        ensures
            self.inv(n),
    {
        assert forall|x: int| 0 <= x < n implies #[trigger] self.vis(x) == before.vis(x) && (self.vis(x) ==> self.idx(x) == before.idx(x) && self.onst(x) == before.onst(x)) by {}
        assert forall|p: int| 0 <= p < self.stack@.len() implies #[trigger] self.st(p) < n && self.vis(self.st(p)) && self.onst(self.st(p)) by {
            assert(before.st(p) < n);
        }
        assert forall|p: int, q: int| 0 <= p < q < self.stack@.len() implies self.idx(#[trigger] self.st(p)) < self.idx(#[trigger] self.st(q)) by {
            assert(before.idx(before.st(p)) < before.idx(before.st(q)));
            assert(before.st(p) < n && before.st(q) < n);
        }
        assert forall|p: int| 0 <= p < self.stack@.len() implies #[trigger] self.low_ok(p) by {
            if p != base {
                assert(before.low_ok(p));
                let q = choose|q: int| 0 <= q <= p && before.low(before.st(p)) == before.idx(#[trigger] before.st(q));
                assert(before.st(p) < n && before.st(q) < n);
                if before.st(p) == v {
                    if p < base {
                        assert(before.idx(before.st(p)) < before.idx(before.st(base)));
                    } else {
                        assert(before.idx(before.st(base)) < before.idx(before.st(p)));
                    }
                }
                assert(self.low(self.st(p)) == self.idx(self.st(q)));
            }
        }
        assert forall|c: int, a: int| 0 <= c < self.sccs@.len() && 0 <= a < self.sccs@[c]@.len() implies {
            let x = (#[trigger] self.sccs@[c]@[a]).0 as int;
            &&& x < n
            &&& self.vis(x)
            &&& !self.onst(x)
        } by {
            let x = self.sccs@[c]@[a].0 as int;
            assert(before.sccs@[c]@[a].0 == x);
        }
        assert forall|x: int| 0 <= x < n && #[trigger] self.vis(x) && !self.onst(x) implies self.in_sccs(x) by {
            assert(before.in_sccs(x));
        }
        assert forall|x: int| 0 <= x < n && #[trigger] self.vis(x) && self.onst(x) implies self.stack@.contains(NodeIndex(x as usize)) by {
            assert(before.vis(x) && before.onst(x));
        }
        assert forall|x: int| 0 <= x < n && #[trigger] self.vis(x) implies self.idx(x) < self.index by {
            assert(before.vis(x));
        }
    }
}

impl Tarjan {
    /// The invariant only depends on the nodes, the stack, the groups and
    /// the counter.
    proof fn lemma_inv_frame(&self, other: Tarjan, n: nat)
        requires
            other.inv(n),
            self.nodes@ == other.nodes@,
            self.stack@ == other.stack@,
            self.sccs@ == other.sccs@,
            self.index == other.index,
        ensures
            self.inv(n),
    {
        assert forall|p: int| 0 <= p < self.stack@.len() implies #[trigger] self.low_ok(p) by {
            assert(other.low_ok(p));
            let q = choose|q: int| 0 <= q <= p && other.low(other.st(p)) == other.idx(#[trigger] other.st(q));
            assert(self.low(self.st(p)) == self.idx(self.st(q)));
        }
        assert forall|x: int| 0 <= x < n && #[trigger] self.vis(x) && !self.onst(x) implies self.in_sccs(x) by {
            assert(other.vis(x) && !other.onst(x));
            assert(other.in_sccs(x));
            let (c, a) = choose|c: int, a: int| 0 <= c < other.sccs@.len() && 0 <= a < other.sccs@[c]@.len() && (#[trigger] other.sccs@[c]@[a]).0 == x;
            assert(self.sccs@[c]@[a].0 == x);
        }
        assert forall|x: int| 0 <= x < n && #[trigger] self.vis(x) implies self.idx(x) < self.index by {
            assert(other.vis(x));
        }
        assert forall|p: int| 0 <= p < self.stack@.len() implies #[trigger] self.st(p) < n && self.vis(self.st(p)) && self.onst(self.st(p)) by {
            assert(other.st(p) < n);
        }
        assert forall|x: int| 0 <= x < n && #[trigger] self.vis(x) && self.onst(x) implies self.stack@.contains(NodeIndex(x as usize)) by {
            assert(other.vis(x) && other.onst(x));
        }
        assert forall|p: int, q: int| 0 <= p < q < self.stack@.len() implies self.idx(#[trigger] self.st(p)) < self.idx(#[trigger] self.st(q)) by {
            assert(other.idx(other.st(p)) < other.idx(other.st(q)));
        }
        assert forall|c: int, a: int| 0 <= c < self.sccs@.len() && 0 <= a < self.sccs@[c]@.len() implies {
            let x = (#[trigger] self.sccs@[c]@[a]).0 as int;
            &&& x < n
            &&& self.vis(x)
            &&& !self.onst(x)
        } by {
            assert(other.sccs@[c]@[a] == self.sccs@[c]@[a]);
        }
    }

    /// Marking a new node as visited and on the stack keeps `ord`.
    proof fn lemma_push_ord(&self, before: Tarjan, v: int, n: nat, edges: Seq<(NodeIndex, NodeIndex)>)
        requires
            before.inv(n),
            before.ord(edges),
            0 <= v < n,
            !before.vis(v),
            self.done == before.done,
            self.sccs@ == before.sccs@,
            self.nodes@.len() == n,
            forall|x: int| 0 <= x < n && x != v ==> self.nodes@[x] == before.nodes@[x],
            self.vis(v) && self.onst(v),
            self.stack@ == before.stack@.push(NodeIndex(v as usize)),
            self.low(v) == self.idx(v),
            self.idx(v) == before.index,
        ensures
            self.ord(edges),
    {
        assert forall|x: int| #[trigger] self.done@.contains(x) implies 0 <= x < self.nodes@.len() && self.vis(x) by {
            assert(before.vis(x));
        }
        assert forall|e: int| #![trigger edges[e]] 0 <= e < edges.len() && self.done@.contains(edges[e].0.0 as int) implies self.edge_ok(edges[e]) by {
            assert(before.edge_ok(edges[e]));
            let x = edges[e].0.0 as int;
            assert(before.vis(x));
        }
        assert forall|x: int| 0 <= x < self.nodes@.len() && #[trigger] self.vis(x) && !self.onst(x) implies self.done@.contains(x) by {
            assert(before.vis(x));
        }
        let top = before.stack@.len() as int;
        assert forall|p: int, q: int| 0 <= q <= p < self.stack@.len() && self.low(self.st(p)) == self.idx(self.st(q))
            implies reaches(edges, #[trigger] self.st(p), #[trigger] self.st(q)) by {
            if p < top {
                assert(self.stack@[p] == before.stack@[p] && self.stack@[q] == before.stack@[q]);
                assert(before.st(p) < n && before.st(q) < n);
                assert(before.vis(before.st(p)) && before.vis(before.st(q)));
            } else if q < top {
                assert(self.stack@[q] == before.stack@[q]);
                assert(before.st(q) < n);
                assert(before.vis(before.st(q)));
                assert(before.idx(before.st(q)) < before.index);
                assert(self.idx(self.st(q)) == before.idx(before.st(q)));
                assert(false);
            } else {
                lemma_reaches_refl(edges, v);
            }
        }
    }

    /// Changing only the lowlink of a node that is not finished keeps `ord`.
    proof fn lemma_set_low_ord(&self, before: Tarjan, v: int, base: int, n: nat, edges: Seq<(NodeIndex, NodeIndex)>)
        requires
            before.inv(n),
            before.ord(edges),
            0 <= v < n,
            !before.done@.contains(v),
            before.vis(v) && before.onst(v),
            0 <= base < before.stack@.len(),
            before.st(base) == v,
            self.stack@ == before.stack@,
            self.done == before.done,
            self.sccs@ == before.sccs@,
            self.nodes@.len() == n,
            forall|x: int| 0 <= x < n && x != v ==> self.nodes@[x] == before.nodes@[x],
            self.vis(v) && self.onst(v) && self.idx(v) == before.idx(v),
            forall|q: int| 0 <= q <= base && self.low(v) == self.idx(#[trigger] self.st(q)) ==> reaches(edges, v, self.st(q)),
        ensures
            self.ord(edges),
    {
        assert forall|p: int, q: int| 0 <= q <= p < self.stack@.len() && self.low(self.st(p)) == self.idx(self.st(q))
            implies reaches(edges, #[trigger] self.st(p), #[trigger] self.st(q)) by {
            assert(before.st(p) < n && before.st(q) < n);
            if p == base {
            } else {
                if before.st(p) == v {
                    if p < base {
                        assert(before.idx(before.st(p)) < before.idx(before.st(base)));
                    } else {
                        assert(before.idx(before.st(base)) < before.idx(before.st(p)));
                    }
                }
                assert(self.low(self.st(p)) == before.low(before.st(p)));
                assert(self.idx(self.st(q)) == before.idx(before.st(q)));
            }
        }
        assert forall|x: int| #[trigger] self.done@.contains(x) implies 0 <= x < self.nodes@.len() && self.vis(x) by {
            assert(before.vis(x));
        }
        assert forall|e: int| #![trigger edges[e]] 0 <= e < edges.len() && self.done@.contains(edges[e].0.0 as int) implies self.edge_ok(edges[e]) by {
            assert(before.edge_ok(edges[e]));
        }
        assert forall|x: int| 0 <= x < self.nodes@.len() && #[trigger] self.vis(x) && !self.onst(x) implies self.done@.contains(x) by {
            assert(before.vis(x));
        }
    }

    /// Marking a visited node whose edges are all explored as finished
    /// keeps `ord`.
    proof fn lemma_finish_ord(&self, before: Tarjan, v: int, edges: Seq<(NodeIndex, NodeIndex)>)
        requires
            before.ord(edges),
            0 <= v < before.nodes@.len(),
            before.vis(v),
            self.done@ == before.done@.insert(v),
            self.sccs@ == before.sccs@,
            self.nodes@ == before.nodes@,
            self.stack@ == before.stack@,
            forall|e: int| 0 <= e < edges.len() && (#[trigger] edges[e]).0.0 == v ==> before.edge_ok(edges[e]),
        ensures
            self.ord(edges),
    {
        assert forall|e: int| #![trigger edges[e]] 0 <= e < edges.len() && self.done@.contains(edges[e].0.0 as int) implies self.edge_ok(edges[e]) by {
            assert(before.edge_ok(edges[e]));
        }
        assert forall|x: int| #[trigger] self.done@.contains(x) implies 0 <= x < self.nodes@.len() && self.vis(x) by {
            if x != v {
                assert(before.done@.contains(x));
            }
        }
        assert forall|x: int| 0 <= x < self.nodes@.len() && #[trigger] self.vis(x) && !self.onst(x) implies self.done@.contains(x) by {
            assert(before.vis(x));
        }
        assert(edges_point_back(self.sccs@, edges));
        assert forall|p: int, q: int| 0 <= q <= p < self.stack@.len() && self.low(self.st(p)) == self.idx(self.st(q))
            implies reaches(edges, #[trigger] self.st(p), #[trigger] self.st(q)) by {
            assert(before.st(p) == self.st(p) && before.st(q) == self.st(q));
        }
    }

    /// Popping a finished root with the finished nodes above it keeps
    /// `ord`: the edges out of the popped nodes lead into the new group or
    /// into earlier groups.
    proof fn lemma_pop_ord(&self, before: Tarjan, base: int, n: nat, edges: Seq<(NodeIndex, NodeIndex)>)
        requires
            before.inv(n),
            before.ord(edges),
            0 <= base < before.stack@.len(),
            forall|q: int| base <= q < before.stack@.len() ==> before.done@.contains(#[trigger] before.st(q))
                && before.low(before.st(q)) >= before.idx(before.st(base)),
            forall|q: int| base < q < before.stack@.len() ==> before.low(#[trigger] before.st(q)) < before.idx(before.st(q)),
            forall|q: int| base <= q < before.stack@.len() ==> reaches(edges, before.st(base), #[trigger] before.st(q)),
            self.stack@ == before.stack@.subrange(0, base),
            self.done == before.done,
            self.sccs@.len() == before.sccs@.len() + 1,
            forall|c: int| 0 <= c < before.sccs@.len() ==> self.sccs@[c] == before.sccs@[c],
            self.sccs@.last()@.len() == before.stack@.len() - base,
            forall|a: int| 0 <= a < self.sccs@.last()@.len() ==> #[trigger] self.sccs@.last()@[a] == before.stack@[before.stack@.len() - 1 - a],
            self.nodes@.len() == n,
            forall|x: int| 0 <= x < n ==> #[trigger] self.nodes@[x] == if in_suffix(before.stack@, base, x) {
                Some(TarjanNodeData { on_stack: false, ..before.nodes@[x].unwrap() })
            } else {
                before.nodes@[x]
            },
        ensures
            self.ord(edges),
    {
        let s0 = before.stack@;
        let len = s0.len() as int;
        let c_new = before.sccs@.len() as int;
        assert forall|x: int| 0 <= x < n && before.vis(x) implies #[trigger] self.vis(x) && self.idx(x) == before.idx(x) && self.low(x) == before.low(x) && (self.onst(x) ==> before.onst(x)) by {
            assert(self.nodes@[x] == if in_suffix(s0, base, x) {
                Some(TarjanNodeData { on_stack: false, ..before.nodes@[x].unwrap() })
            } else {
                before.nodes@[x]
            });
        }
        assert forall|x: int| #[trigger] self.done@.contains(x) implies 0 <= x < self.nodes@.len() && self.vis(x) by {
            assert(before.vis(x));
        }
        assert forall|e: int| #![trigger edges[e]] 0 <= e < edges.len() && self.done@.contains(edges[e].0.0 as int) implies self.edge_ok(edges[e]) by {
            assert(before.edge_ok(edges[e]));
            let x = edges[e].0.0 as int;
            let y = edges[e].1.0 as int;
            assert(before.vis(x));
            assert(self.vis(y));
        }
        assert forall|x: int| 0 <= x < self.nodes@.len() && #[trigger] self.vis(x) && !self.onst(x) implies self.done@.contains(x) by {
            if in_suffix(s0, base, x) {
                let q = choose|q: int| base <= q < s0.len() && (#[trigger] s0[q]).0 == x;
                assert(before.st(q) == x);
            } else {
                assert(self.nodes@[x] == before.nodes@[x]);
            }
        }
        assert forall|c: int, a: int, e: int|
            0 <= c < self.sccs@.len() && 0 <= a < self.sccs@[c]@.len() && 0 <= e < edges.len() && #[trigger] edges[e].0 == #[trigger] self.sccs@[c]@[a]
            implies placed_by(self.sccs@, c, edges[e].1.0 as int) by {
            let y = edges[e].1.0 as int;
            if c < c_new {
                assert(self.sccs@[c] == before.sccs@[c]);
                assert(edges[e].0 == before.sccs@[c]@[a]);
                assert(placed_by(before.sccs@, c, y));
                let (c2, a2) = choose|c2: int, a2: int| 0 <= c2 <= c && 0 <= a2 < before.sccs@[c2]@.len() && (#[trigger] before.sccs@[c2]@[a2]).0 == y;
                assert(self.sccs@[c2] == before.sccs@[c2]);
                assert(self.sccs@[c2]@[a2].0 == y);
            } else {
                let q = len - 1 - a;
                assert(self.sccs@[c]@[a] == s0[q]);
                let x = before.st(q);
                assert(before.done@.contains(x));
                assert(edges[e].0.0 == x);
                assert(before.edge_ok(edges[e]));
                assert(before.vis(y));
                if before.onst(y) {
                    assert(s0.contains(NodeIndex(y as usize)));
                    let qy = choose|qy: int| 0 <= qy < s0.len() && s0[qy] == NodeIndex(y as usize);
                    assert(before.st(qy) == y);
                    if qy < base {
                        assert(before.idx(before.st(qy)) < before.idx(before.st(base)));
                        assert(false);
                    }
                    let a2 = len - 1 - qy;
                    assert(self.sccs@[c]@[a2] == s0[qy]);
                    assert(self.sccs@[c]@[a2].0 == y);
                } else {
                    assert(before.in_sccs(y));
                    let (c2, a2) = choose|c2: int, a2: int| 0 <= c2 < before.sccs@.len() && 0 <= a2 < before.sccs@[c2]@.len() && (#[trigger] before.sccs@[c2]@[a2]).0 == y;
                    assert(self.sccs@[c2] == before.sccs@[c2]);
                    assert(self.sccs@[c2]@[a2].0 == y);
                }
            }
        }
        assert forall|p: int, q: int| 0 <= q <= p < self.stack@.len() && self.low(self.st(p)) == self.idx(self.st(q))
            implies reaches(edges, #[trigger] self.st(p), #[trigger] self.st(q)) by {
            assert(self.stack@[p] == s0[p] && self.stack@[q] == s0[q]);
            assert(before.st(p) < n && before.st(q) < n);
            assert(before.vis(before.st(p)) && before.vis(before.st(q)));
        }
        assert forall|c: int, a1: int, a2: int| 0 <= c < self.sccs@.len() && 0 <= a1 < self.sccs@[c]@.len() && 0 <= a2 < self.sccs@[c]@.len()
            implies reaches(edges, (#[trigger] self.sccs@[c]@[a1]).0 as int, (#[trigger] self.sccs@[c]@[a2]).0 as int) by {
            if c < c_new {
                assert(self.sccs@[c] == before.sccs@[c]);
                assert(before.sccs@[c]@[a1] == self.sccs@[c]@[a1]);
                assert(before.sccs@[c]@[a2] == self.sccs@[c]@[a2]);
            } else {
                let q1 = len - 1 - a1;
                let q2 = len - 1 - a2;
                assert(self.sccs@[c]@[a1] == s0[q1]);
                assert(self.sccs@[c]@[a2] == s0[q2]);
                lemma_suffix_reaches_root(before, base, q1, n, edges);
                assert(reaches(edges, before.st(base), before.st(q2)));
                lemma_reaches_trans(edges, before.st(q1), before.st(base), before.st(q2));
            }
        }
    }
}

/// In the stack above a root whose lowlink is its own index, where every
/// node above it points lower and no lower than the root, every node
/// reaches the root.
proof fn lemma_suffix_reaches_root(t: Tarjan, base: int, q: int, n: nat, edges: Seq<(NodeIndex, NodeIndex)>)
    requires
        t.inv(n),
        t.ord(edges),
        0 <= base <= q < t.stack@.len(),
        forall|r: int| base < r < t.stack@.len() ==> t.low(#[trigger] t.st(r)) < t.idx(t.st(r)),
        forall|r: int| base <= r < t.stack@.len() ==> t.done@.contains(#[trigger] t.st(r))
            && t.low(t.st(r)) >= t.idx(t.st(base)),
    ensures
        reaches(edges, t.st(q), t.st(base)),
    decreases q,
{
    if q == base {
        lemma_reaches_refl(edges, t.st(q));
    } else {
        assert(t.low_ok(q));
        let q2 = choose|q2: int| 0 <= q2 <= q && t.low(t.st(q)) == t.idx(#[trigger] t.st(q2));
        assert(t.low(t.st(q)) < t.idx(t.st(q)));
        if q2 == q {
            assert(false);
        }
        if q2 < base {
            assert(t.idx(t.st(q2)) < t.idx(t.st(base)));
            assert(t.low(t.st(q)) >= t.idx(t.st(base)));
            assert(false);
        }
        assert(reaches(edges, t.st(q), t.st(q2)));
        lemma_suffix_reaches_root(t, base, q2, n, edges);
        lemma_reaches_trans(edges, t.st(q), t.st(q2), t.st(base));
    }
}

proof fn lemma_count_none_same(s: Seq<Option<TarjanNodeData>>, t: Seq<Option<TarjanNodeData>>)
    requires
        s.len() == t.len(),
        forall|x: int| 0 <= x < s.len() ==> (s[x] is None) == (t[x] is None),
    ensures
        count_none(s) == count_none(t),
    decreases s.len(),
{
    if s.len() > 0 {
        lemma_count_none_same(s.drop_last(), t.drop_last());
    }
}

proof fn lemma_count_none_all(s: Seq<Option<TarjanNodeData>>)
    requires
        forall|x: int| 0 <= x < s.len() ==> s[x] is None,
    ensures
        count_none(s) == s.len(),
    decreases s.len(),
{
    if s.len() > 0 {
        lemma_count_none_all(s.drop_last());
    }
}

/// `sccs` splits the nodes `0..n` into non-empty groups: every node is in
/// exactly one group, once.
pub open spec fn partitions(sccs: Seq<Vec<NodeIndex>>, n: nat) -> bool {
    &&& forall|c: int| 0 <= c < sccs.len() ==> (#[trigger] sccs[c])@.len() > 0
    &&& forall|c: int, a: int| 0 <= c < sccs.len() && 0 <= a < sccs[c]@.len() ==> (#[trigger] sccs[c]@[a]).0 < n
    &&& forall|x: int| 0 <= x < n ==> #[trigger] in_some(sccs, x)
    &&& forall|c1: int, a1: int, c2: int, a2: int|
        0 <= c1 < sccs.len() && 0 <= a1 < sccs[c1]@.len() && 0 <= c2 < sccs.len() && 0 <= a2 < sccs[c2]@.len() && (c1 != c2 || a1 != a2)
        ==> #[trigger] sccs[c1]@[a1] != #[trigger] sccs[c2]@[a2]
}

/// Node `x` is in one of the groups.
pub open spec fn in_some(sccs: Seq<Vec<NodeIndex>>, x: int) -> bool {
    exists|c: int, a: int| 0 <= c < sccs.len() && 0 <= a < sccs[c]@.len() && (#[trigger] sccs[c]@[a]).0 == x
}

impl<N, E> Graph<N, E> {
    /// The strongly connected components of the graph, found with Tarjan's
    /// algorithm. Each component is listed once, in the order in which the
    /// search finishes it.
    pub fn tarjan_scc(&self) -> (r: Vec<Vec<NodeIndex>>)
        requires
            self.wf(),
        ensures
            partitions(r@, self.spec_nodes().len()),
            edges_point_back(r@, self.spec_edges()),
            strongly_connected(r@, self.spec_edges()),
    {
        let n = self.node_count();
        let ghost gn = self.spec_nodes().len();
        let mut nodes: Vec<Option<TarjanNodeData>> = Vec::new();
        let mut i: usize = 0;
        while i < n
            invariant
                i <= n,
                n == gn,
                nodes@.len() == i,
                forall|x: int| 0 <= x < i ==> nodes@[x] is None,
            decreases n - i,
        {
            nodes.push(None);
            i = i + 1;
        }
        proof {
            lemma_count_none_all(nodes@);
        }
        let mut t = Tarjan { index: 0, nodes, stack: Vec::new(), sccs: Vec::new(), done: Ghost(Set::empty()) };
        let mut i: usize = 0;
        while i < n
            invariant
                self.wf(),
                i <= n,
                n == gn,
                gn == self.spec_nodes().len(),
                t.inv(gn),
                t.ord(self.spec_edges()),
                t.stack@.len() == 0,
                forall|x: int| 0 <= x < i ==> #[trigger] t.vis(x),
            decreases n - i,
        {
            let ghost before = t;
            t.visit(NodeIndex(i), self);
            proof {
                if t.stack@.len() > 0 {
                    assert(t.low_ok(0));
                    assert(t.st(0) == i);
                    assert(false);
                }
                assert forall|x: int| 0 <= x < i + 1 implies #[trigger] t.vis(x) by {
                    if x < i {
                        assert(before.vis(x));
                        assert(t.nodes@[x] == before.nodes@[x]);
                    }
                }
            }
            i = i + 1;
        }
        proof {
            assert forall|x: int| 0 <= x < gn implies #[trigger] in_some(t.sccs@, x) by {
                assert(t.vis(x));
                if t.onst(x) {
                    assert(t.stack@.contains(NodeIndex(x as usize)));
                }
                assert(t.in_sccs(x));
            }
        }
        t.sccs
    }
}

/// There is an edge from node `a` to node `b`.
pub open spec fn edge_between(edges: Seq<(NodeIndex, NodeIndex)>, a: int, b: int) -> bool {
    exists|e: int| 0 <= e < edges.len() && (#[trigger] edges[e]).0.0 == a && edges[e].1.0 == b
}

/// `path` is a closed walk along at least one edge; a self-loop is such a
/// walk.
pub open spec fn is_cycle(edges: Seq<(NodeIndex, NodeIndex)>, path: Seq<int>) -> bool {
    &&& path.len() >= 2
    &&& path[0] == path.last()
    &&& forall|i: int| 0 <= i < path.len() - 1 ==> edge_between(edges, #[trigger] path[i], path[i + 1])
}

/// A graph whose strongly connected components, listed so that every edge
/// leads back into the same or an earlier component, all have a single node
/// without a self-loop has no cycle.
pub proof fn lemma_single_components_acyclic(sccs: Seq<Vec<NodeIndex>>, edges: Seq<(NodeIndex, NodeIndex)>, n: nat, path: Seq<int>)
    requires
        partitions(sccs, n),
        edges_point_back(sccs, edges),
        forall|c: int| 0 <= c < sccs.len() ==> (#[trigger] sccs[c])@.len() == 1 && !edges.contains((sccs[c]@[0], sccs[c]@[0])),
        forall|e: int| 0 <= e < edges.len() ==> (#[trigger] edges[e]).0.0 < n && edges[e].1.0 < n,
    ensures
        !is_cycle(edges, path),
{
    if is_cycle(edges, path) && forall|i: int| 0 <= i < path.len() - 1 ==> #[trigger] path[i] == path[i + 1] {
        // Every step stays on one node: the first step is a self-loop.
        assert(path[0] == path[1]);
        assert(edge_between(edges, path[0], path[1]));
        let e = choose|e: int| 0 <= e < edges.len() && (#[trigger] edges[e]).0.0 == path[0] && edges[e].1.0 == path[1];
        let x = path[0];
        lemma_comp_of(sccs, n, x);
        let cx = comp_of(sccs, x);
        let ax = choose|a: int| 0 <= a < sccs[cx]@.len() && (#[trigger] sccs[cx]@[a]).0 == x;
        assert(sccs[cx]@.len() == 1);
        assert(ax == 0);
        assert(edges[e] == (sccs[cx]@[0], sccs[cx]@[0]));
        assert(edges.contains((sccs[cx]@[0], sccs[cx]@[0])));
    } else if is_cycle(edges, path) {
        let i = choose|i: int| 0 <= i < path.len() - 1 && #[trigger] path[i] != path[i + 1];
        let x = path[i];
        let y = path[i + 1];
        assert(edge_between(edges, path[i], path[i + 1]));
        let e = choose|e: int| 0 <= e < edges.len() && (#[trigger] edges[e]).0.0 == x && edges[e].1.0 == y;
        // `y` leads back to `x` along the rest of the cycle.
        let back = path.subrange(i + 1, path.len() as int);
        let front = path.subrange(0, i + 1);
        assert(is_walk(edges, back) && back[0] == y && back.last() == path[0]) by {
            assert forall|j: int| 0 <= j < back.len() - 1 implies edge_between(edges, #[trigger] back[j], back[j + 1]) by {
                assert(back[j] == path[i + 1 + j] && back[j + 1] == path[i + 1 + j + 1]);
            }
        }
        assert(is_walk(edges, front) && front[0] == path[0] && front.last() == x) by {
            assert forall|j: int| 0 <= j < front.len() - 1 implies edge_between(edges, #[trigger] front[j], front[j + 1]) by {
                assert(front[j] == path[j] && front[j + 1] == path[j + 1]);
            }
        }
        lemma_reaches_trans(edges, y, path[0], x);
        lemma_reaches_edge(edges, x, y);
        lemma_comp_of(sccs, n, x);
        lemma_comp_of(sccs, n, y);
        let cx = comp_of(sccs, x);
        let cy = comp_of(sccs, y);
        let ax = choose|a: int| 0 <= a < sccs[cx]@.len() && (#[trigger] sccs[cx]@[a]).0 == x;
        let ay = choose|a: int| 0 <= a < sccs[cy]@.len() && (#[trigger] sccs[cy]@[a]).0 == y;
        lemma_components_maximal(sccs, edges, n, cx, ax, cy, ay);
        assert(sccs[cx]@.len() == 1);
    }
}

/// `path` is a walk along edges: consecutive nodes are joined by an edge.
pub open spec fn is_walk(edges: Seq<(NodeIndex, NodeIndex)>, path: Seq<int>) -> bool {
    &&& path.len() >= 1
    &&& forall|i: int| 0 <= i < path.len() - 1 ==> edge_between(edges, #[trigger] path[i], path[i + 1])
}

/// Node `b` can be reached from node `a` along edges (every node reaches
/// itself).
pub open spec fn reaches(edges: Seq<(NodeIndex, NodeIndex)>, a: int, b: int) -> bool {
    exists|path: Seq<int>| is_walk(edges, path) && path[0] == a && path.last() == b
}

/// Every two nodes of a group reach each other.
pub open spec fn strongly_connected(sccs: Seq<Vec<NodeIndex>>, edges: Seq<(NodeIndex, NodeIndex)>) -> bool {
    forall|c: int, a1: int, a2: int| 0 <= c < sccs.len() && 0 <= a1 < sccs[c]@.len() && 0 <= a2 < sccs[c]@.len()
        ==> reaches(edges, (#[trigger] sccs[c]@[a1]).0 as int, (#[trigger] sccs[c]@[a2]).0 as int)
}

pub proof fn lemma_reaches_refl(edges: Seq<(NodeIndex, NodeIndex)>, a: int)
    ensures
        reaches(edges, a, a),
{
    let path = seq![a];
    assert(is_walk(edges, path));
    assert(path[0] == a && path.last() == a);
}

pub proof fn lemma_reaches_edge(edges: Seq<(NodeIndex, NodeIndex)>, a: int, b: int)
    requires
        edge_between(edges, a, b),
    ensures
        reaches(edges, a, b),
{
    let path = seq![a, b];
    assert forall|i: int| 0 <= i < path.len() - 1 implies edge_between(edges, #[trigger] path[i], path[i + 1]) by {
        assert(i == 0);
    }
    assert(is_walk(edges, path));
    assert(path[0] == a && path.last() == b);
}

pub proof fn lemma_reaches_trans(edges: Seq<(NodeIndex, NodeIndex)>, a: int, b: int, c: int)
    requires
        reaches(edges, a, b),
        reaches(edges, b, c),
    ensures
        reaches(edges, a, c),
{
    let p1 = choose|path: Seq<int>| is_walk(edges, path) && path[0] == a && path.last() == b;
    let p2 = choose|path: Seq<int>| is_walk(edges, path) && path[0] == b && path.last() == c;
    let path = p1 + p2.drop_first();
    assert forall|i: int| 0 <= i < path.len() - 1 implies edge_between(edges, #[trigger] path[i], path[i + 1]) by {
        if i < p1.len() - 1 {
            assert(path[i] == p1[i] && path[i + 1] == p1[i + 1]);
        } else if i == p1.len() - 1 {
            assert(path[i] == b);
            assert(path[i + 1] == p2[1]);
            assert(edge_between(edges, p2[0], p2[1]));
        } else {
            let k = i - p1.len() + 1;
            assert(path[i] == p2[k]);
            assert(path[i + 1] == p2[k + 1]);
            assert(edge_between(edges, p2[k], p2[k + 1]));
        }
    }
    if p2.len() == 1 {
        assert(path =~= p1);
    } else {
        assert(path.last() == p2.last());
    }
    assert(is_walk(edges, path));
}

/// Two different nodes that reach each other lie on a cycle.
pub proof fn lemma_mutual_reach_cycle(edges: Seq<(NodeIndex, NodeIndex)>, a: int, b: int)
    requires
        a != b,
        reaches(edges, a, b),
        reaches(edges, b, a),
    ensures
        exists|path: Seq<int>| is_cycle(edges, path),
{
    let p1 = choose|path: Seq<int>| is_walk(edges, path) && path[0] == a && path.last() == b;
    let p2 = choose|path: Seq<int>| is_walk(edges, path) && path[0] == b && path.last() == a;
    let path = p1 + p2.drop_first();
    assert forall|i: int| 0 <= i < path.len() - 1 implies edge_between(edges, #[trigger] path[i], path[i + 1]) by {
        if i < p1.len() - 1 {
            assert(path[i] == p1[i] && path[i + 1] == p1[i + 1]);
        } else if i == p1.len() - 1 {
            assert(path[i] == b);
            assert(path[i + 1] == p2[1]);
            assert(edge_between(edges, p2[0], p2[1]));
        } else {
            let k = i - p1.len() + 1;
            assert(path[i] == p2[k]);
            assert(path[i + 1] == p2[k + 1]);
            assert(edge_between(edges, p2[k], p2[k + 1]));
        }
    }
    assert(p2.len() >= 2);
    assert(path.last() == a);
    // some step of the walk from `a` to `b` moves
    if forall|i: int| 0 <= i < p1.len() - 1 ==> #[trigger] p1[i] == p1[i + 1] {
        assert forall|i: int| 0 <= i < p1.len() implies p1[i] == a by {
            lemma_walk_constant(p1, i);
        }
        assert(false);
    }
    let i = choose|i: int| 0 <= i < p1.len() - 1 && #[trigger] p1[i] != p1[i + 1];
    assert(path[i] == p1[i] && path[i + 1] == p1[i + 1]);
    assert(is_cycle(edges, path));
}

proof fn lemma_walk_constant(p: Seq<int>, k: int)
    requires
        0 <= k < p.len(),
        forall|i: int| 0 <= i < p.len() - 1 ==> #[trigger] p[i] == p[i + 1],
    ensures
        p[k] == p[0],
    decreases k,
{
    if k > 0 {
        lemma_walk_constant(p, k - 1);
        assert(p[k - 1] == p[k]);
    }
}

/// Component `c` holds node `x`.
spec fn comp_has(sccs: Seq<Vec<NodeIndex>>, c: int, x: int) -> bool {
    exists|a: int| 0 <= a < sccs[c]@.len() && (#[trigger] sccs[c]@[a]).0 == x
}

/// The position of the component that holds node `x`.
spec fn comp_of(sccs: Seq<Vec<NodeIndex>>, x: int) -> int {
    choose|c: int| 0 <= c < sccs.len() && #[trigger] comp_has(sccs, c, x)
}

proof fn lemma_comp_of(sccs: Seq<Vec<NodeIndex>>, n: nat, x: int)
    requires
        partitions(sccs, n),
        0 <= x < n,
    ensures
        0 <= comp_of(sccs, x) < sccs.len(),
        comp_has(sccs, comp_of(sccs, x), x),
        forall|c: int, a: int| 0 <= c < sccs.len() && 0 <= a < sccs[c]@.len() && (#[trigger] sccs[c]@[a]).0 == x ==> c == comp_of(sccs, x),
{
    assert(in_some(sccs, x));
    let (c0, a0) = choose|c: int, a: int| 0 <= c < sccs.len() && 0 <= a < sccs[c]@.len() && (#[trigger] sccs[c]@[a]).0 == x;
    assert(comp_has(sccs, c0, x));
    let r = comp_of(sccs, x);
    let ar = choose|a: int| 0 <= a < sccs[r]@.len() && (#[trigger] sccs[r]@[a]).0 == x;
    assert forall|c: int, a: int| 0 <= c < sccs.len() && 0 <= a < sccs[c]@.len() && (#[trigger] sccs[c]@[a]).0 == x implies c == r by {
        if c != r {
            assert(sccs[c]@[a] != sccs[r]@[ar]);
        }
    }
}

proof fn lemma_walk_comp(sccs: Seq<Vec<NodeIndex>>, edges: Seq<(NodeIndex, NodeIndex)>, n: nat, path: Seq<int>, k: int)
    requires
        partitions(sccs, n),
        edges_point_back(sccs, edges),
        forall|e: int| 0 <= e < edges.len() ==> (#[trigger] edges[e]).0.0 < n && edges[e].1.0 < n,
        is_walk(edges, path),
        0 <= path[0] < n,
        0 <= k < path.len(),
    ensures
        0 <= path[k] < n,
        comp_of(sccs, path[k]) <= comp_of(sccs, path[0]),
    decreases k,
{
    if k > 0 {
        lemma_walk_comp(sccs, edges, n, path, k - 1);
        let x = path[k - 1];
        let y = path[k];
        assert(edge_between(edges, path[k - 1], path[k]));
        let e = choose|e: int| 0 <= e < edges.len() && (#[trigger] edges[e]).0.0 == x && edges[e].1.0 == y;
        lemma_comp_of(sccs, n, x);
        lemma_comp_of(sccs, n, y);
        let cx = comp_of(sccs, x);
        assert(comp_has(sccs, cx, x));
        let ax = choose|a: int| 0 <= a < sccs[cx]@.len() && (#[trigger] sccs[cx]@[a]).0 == x;
        assert(edges[e].0 == sccs[cx]@[ax]);
        assert(placed_by(sccs, cx, y));
        let (c2, a2) = choose|c2: int, a2: int| 0 <= c2 <= cx && 0 <= a2 < sccs[c2]@.len() && (#[trigger] sccs[c2]@[a2]).0 == y;
        assert(c2 == comp_of(sccs, y));
    }
}

/// Components come in reverse topological order: a node reaches only nodes
/// of its own component or of earlier ones.
pub proof fn lemma_reach_points_back(sccs: Seq<Vec<NodeIndex>>, edges: Seq<(NodeIndex, NodeIndex)>, n: nat, c1: int, a1: int, c2: int, a2: int)
    requires
        partitions(sccs, n),
        edges_point_back(sccs, edges),
        forall|e: int| 0 <= e < edges.len() ==> (#[trigger] edges[e]).0.0 < n && edges[e].1.0 < n,
        0 <= c1 < sccs.len(),
        0 <= a1 < sccs[c1]@.len(),
        0 <= c2 < sccs.len(),
        0 <= a2 < sccs[c2]@.len(),
        reaches(edges, sccs[c1]@[a1].0 as int, sccs[c2]@[a2].0 as int),
    ensures
        c2 <= c1,
{
    let x = sccs[c1]@[a1].0 as int;
    let y = sccs[c2]@[a2].0 as int;
    let path = choose|path: Seq<int>| is_walk(edges, path) && path[0] == x && path.last() == y;
    lemma_walk_comp(sccs, edges, n, path, path.len() - 1);
    lemma_comp_of(sccs, n, x);
    lemma_comp_of(sccs, n, y);
}

/// Components are maximal: nodes of two different components never reach
/// each other both ways.
pub proof fn lemma_components_maximal(sccs: Seq<Vec<NodeIndex>>, edges: Seq<(NodeIndex, NodeIndex)>, n: nat, c1: int, a1: int, c2: int, a2: int)
    requires
        partitions(sccs, n),
        edges_point_back(sccs, edges),
        forall|e: int| 0 <= e < edges.len() ==> (#[trigger] edges[e]).0.0 < n && edges[e].1.0 < n,
        0 <= c1 < sccs.len(),
        0 <= a1 < sccs[c1]@.len(),
        0 <= c2 < sccs.len(),
        0 <= a2 < sccs[c2]@.len(),
        reaches(edges, sccs[c1]@[a1].0 as int, sccs[c2]@[a2].0 as int),
        reaches(edges, sccs[c2]@[a2].0 as int, sccs[c1]@[a1].0 as int),
    ensures
        c1 == c2,
{
    lemma_reach_points_back(sccs, edges, n, c1, a1, c2, a2);
    lemma_reach_points_back(sccs, edges, n, c2, a2, c1, a1);
}

} // verus!
