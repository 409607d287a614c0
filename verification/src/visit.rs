use vstd::prelude::*;

use crate::graph::Graph;
use crate::index::{Index, IndexSet, NodeIndex};

verus! {

/// A record of visited nodes, each with a value.
pub trait VisitMap<N, T>: Sized {
    /// The visited nodes and their values.
    spec fn visited(&self) -> Map<N, T>;

    /// Whether `node` can be recorded.
    spec fn admits(&self, node: N) -> bool;

    /// Marks the node as visited. Returns the previous visited state if any.
    fn visit(&mut self, node: N, value: T) -> (r: Option<T>)
        requires
            old(self).admits(node),
        ensures
            final(self).visited() == old(self).visited().insert(node, value),
            r == (if old(self).visited().contains_key(node) {
                Some(old(self).visited()[node])
            } else {
                None::<T>
            }),
    ;

    /// Returns the value of the node if it has been visited.
    fn get(&self, node: &N) -> (r: Option<&T>)
        ensures
            r is Some <==> self.visited().contains_key(*node),
            r is Some ==> *r->0 == self.visited()[*node],
    ;

    /// Returns the value of the node, to change it, if it has been visited.
    fn get_mut(&mut self, node: &N) -> (r: Option<&mut T>)
        ensures
            r is Some <==> old(self).visited().contains_key(*node),
            r is None ==> final(self).visited() == old(self).visited(),
            r is Some ==> *r->0 == old(self).visited()[*node]
                && final(self).visited() == old(self).visited().insert(*node, *final(r->0)),
    ;

    /// Returns `true` if the node has been visited.
    fn is_visited(&self, node: &N) -> (r: bool)
        ensures
            r == self.visited().contains_key(*node),
    {
        self.get(node).is_some()
    }

    /// Marks all nodes as unvisited.
    fn clear(&mut self)
        ensures
            final(self).visited() == Map::<N, T>::empty(),
    ;
}

/// The visited nodes of a vector indexed by node: slot `i` holds the value
/// of node `i`, if it was visited.
pub open spec fn slots<T>(v: Seq<Option<T>>) -> Map<NodeIndex, T> {
    Map::new(|n: NodeIndex| n.0 < v.len() && v[n.0 as int] is Some, |n: NodeIndex| v[n.0 as int]->0)
}

proof fn lemma_slots_update<T>(v: Seq<Option<T>>, i: usize)
    requires
        i < v.len(),
    ensures
        forall|x: T| #[trigger] slots(v.update(i as int, Some(x))) == slots(v).insert(NodeIndex(i), x),
        v[i as int] is None ==> slots(v.update(i as int, None::<T>)) == slots(v),
{
    assert forall|x: T| #[trigger] slots(v.update(i as int, Some(x))) == slots(v).insert(NodeIndex(i), x) by {
        assert(slots(v.update(i as int, Some(x))) =~= slots(v).insert(NodeIndex(i), x));
    }
    if v[i as int] is None {
        assert(v.update(i as int, None::<T>) =~= v);
    }
}

impl<T> VisitMap<NodeIndex, T> for Vec<Option<T>> {
    open spec fn visited(&self) -> Map<NodeIndex, T> {
        slots(self@)
    }

    open spec fn admits(&self, node: NodeIndex) -> bool {
        node.0 < usize::MAX
    }

    fn visit(&mut self, node: NodeIndex, value: T) -> (r: Option<T>) {
        let i: usize = node.0;
        let ghost start = self@;
        // Grow the vector until slot `i` exists.
        let mut j: usize = self.len();
        while j <= i
            invariant
                i < usize::MAX,
                j == self@.len(),
                start.len() <= self@.len(),
                forall|k: int| 0 <= k < start.len() ==> self@[k] == start[k],
                forall|k: int| start.len() <= k < self@.len() ==> self@[k] is None,
            decreases i + 1 - j,
        {
            self.push(None);
            j = j + 1;
        }
        let mut slot = Some(value);
        std::mem::swap(&mut self[i], &mut slot);
        proof {
            let s = slots(start);
            assert(slots(self@) =~= s.insert(node, value)) by {
                assert forall|n: NodeIndex| #[trigger] slots(self@).contains_key(n) == s.insert(node, value).contains_key(n) by {
                    if n.0 < start.len() {
                        assert(self@[n.0 as int] == start[n.0 as int] || n == node);
                    }
                }
            }
        }
        slot
    }

    fn get(&self, node: &NodeIndex) -> (r: Option<&T>) {
        let i: usize = node.0;
        if i < self.len() {
            match &self[i] {
                Some(v) => Some(v),
                None => None,
            }
        } else {
            None
        }
    }

    fn get_mut(&mut self, node: &NodeIndex) -> (r: Option<&mut T>) {
        let i: usize = node.0;
        if i < self.len() {
            proof {
                lemma_slots_update(self@, i);
            }
            self[i].as_mut()
        } else {
            None
        }
    }

    fn clear(&mut self) {
        let len = self.len();
        Vec::clear(self);
        let mut k: usize = 0;
        while k < len
            invariant
                k <= len,
                self@.len() == k,
                forall|x: int| 0 <= x < k ==> self@[x] is None,
            decreases len - k,
        {
            self.push(None);
            k = k + 1;
        }
        assert(slots(self@) =~= Map::<NodeIndex, T>::empty());
    }
}

/// A record of visited nodes.
pub trait VisitSet<N>: Sized {
    /// The visited nodes.
    spec fn visited_set(&self) -> Set<N>;

    /// Whether `node` can be recorded.
    spec fn admits(&self, node: N) -> bool;

    /// Marks the node as visited. Returns `true` if the node hadn't been
    /// visited before.
    fn visit(&mut self, node: N) -> (r: bool)
        requires
            old(self).admits(node),
        ensures
            final(self).visited_set() == old(self).visited_set().insert(node),
            r == !old(self).visited_set().contains(node),
    ;

    /// Returns `true` if the node has been visited.
    fn is_visited(&self, node: &N) -> (r: bool)
        ensures
            r == self.visited_set().contains(*node),
    ;

    /// Marks all nodes as unvisited.
    fn clear(&mut self)
        ensures
            final(self).visited_set() == Set::<N>::empty(),
    ;
}

impl VisitSet<NodeIndex> for IndexSet<NodeIndex> {
    open spec fn visited_set(&self) -> Set<NodeIndex> {
        Set::new(|n: NodeIndex| self.view().contains(n.0))
    }

    open spec fn admits(&self, node: NodeIndex) -> bool {
        node.0 < usize::MAX
    }

    fn visit(&mut self, node: NodeIndex) -> (r: bool) {
        let r = self.insert(node);
        assert(self.visited_set() =~= old(self).visited_set().insert(node));
        r
    }

    fn is_visited(&self, node: &NodeIndex) -> (r: bool) {
        self.contains(node)
    }

    fn clear(&mut self) {
        IndexSet::clear(self);
        assert(self.visited_set() =~= Set::<NodeIndex>::empty());
    }
}

/// A graph that can track the visited status of its nodes.
pub trait Visitable<T> {
    /// The record of visited nodes.
    type Map: VisitMap<NodeIndex, T>;

    /// Whether `map` has a slot for every node of the graph.
    spec fn fits(&self, map: Self::Map) -> bool;

    /// Creates a new visit map, with no node visited and a slot for every
    /// node.
    fn visit_map(&self) -> (r: Self::Map)
        ensures
            r.visited() == Map::<NodeIndex, T>::empty(),
            self.fits(r),
    ;
}

impl<N, E, T> Visitable<T> for Graph<N, E> {
    type Map = Vec<Option<T>>;

    open spec fn fits(&self, map: Vec<Option<T>>) -> bool {
        map@.len() == self.spec_nodes().len()
    }

    fn visit_map(&self) -> (r: Vec<Option<T>>) {
        let n = self.node_count();
        let mut map: Vec<Option<T>> = Vec::with_capacity(n);
        let mut k: usize = 0;
        while k < n
            invariant
                k <= n,
                map@.len() == k,
                forall|x: int| 0 <= x < k ==> map@[x] is None,
            decreases n - k,
        {
            map.push(None);
            k = k + 1;
        }
        assert(slots(map@) =~= Map::<NodeIndex, T>::empty());
        map
    }
}

} // verus!
