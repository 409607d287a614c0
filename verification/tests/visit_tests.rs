use button::graph::{Direction, Graph, GraphBase, NodeIndexable};
use button::index::{IndexSet, NodeIndex};
use button::visit::{VisitMap, VisitSet};

#[test]
fn visit_map_on_a_vector_grows_and_replaces() {
    let mut visited: Vec<Option<bool>> = Vec::new();
    assert_eq!(VisitMap::visit(&mut visited, NodeIndex(3), true), None);
    assert_eq!(visited.len(), 4);
    assert!(VisitMap::is_visited(&visited, &NodeIndex(3)));
    assert!(!VisitMap::is_visited(&visited, &NodeIndex(1)));
    assert!(!VisitMap::is_visited(&visited, &NodeIndex(10)));
    assert_eq!(VisitMap::visit(&mut visited, NodeIndex(3), false), Some(true));
    assert_eq!(VisitMap::get(&visited, &NodeIndex(3)), Some(&false));
    if let Some(v) = VisitMap::get_mut(&mut visited, &NodeIndex(3)) {
        *v = true;
    }
    assert_eq!(VisitMap::get(&visited, &NodeIndex(3)), Some(&true));
    assert_eq!(VisitMap::get_mut(&mut visited, &NodeIndex(0)), None);
    VisitMap::clear(&mut visited);
    assert_eq!(visited.len(), 4);
    assert!(!VisitMap::is_visited(&visited, &NodeIndex(3)));
}

#[test]
fn visit_set_reports_first_visits() {
    let mut set: IndexSet<NodeIndex> = IndexSet::new();
    assert!(VisitSet::visit(&mut set, NodeIndex(5)));
    assert!(!VisitSet::visit(&mut set, NodeIndex(5)));
    assert!(VisitSet::is_visited(&set, &NodeIndex(5)));
    assert!(!VisitSet::is_visited(&set, &NodeIndex(4)));
    VisitSet::clear(&mut set);
    assert!(!VisitSet::is_visited(&set, &NodeIndex(5)));
}

#[test]
fn graphs_count_and_index_through_their_traits() {
    let mut g: Graph<&'static str, ()> = Graph::new();
    let a = g.add_node("a");
    let b = g.add_node("b");
    g.add_edge(a, b, ());
    assert_eq!(GraphBase::node_count(&g), 2);
    assert_eq!(GraphBase::edge_count(&g), 1);
    assert_eq!(*g.from_index(1), "b");
    assert_eq!(g.to_index(&"a"), Some(0));
    assert_eq!(g.to_index(&"c"), None);
    assert!(NodeIndexable::contains_node(&g, &"b"));
    assert!(!NodeIndexable::contains_node(&g, &"c"));
    assert_ne!(Direction::Outgoing, Direction::Incoming);
}

#[test]
fn index_sets_compare_and_keep_contents_when_resized() {
    let mut a: IndexSet<NodeIndex> = IndexSet::with_capacity(64);
    assert!(a.is_empty());
    assert!(a.capacity() >= 64);
    a.insert(NodeIndex(1));
    a.insert(NodeIndex(40));
    let mut b: IndexSet<NodeIndex> = IndexSet::default();
    b.insert(NodeIndex(1));
    assert!(b.is_subset(&a));
    assert!(a.is_superset(&b));
    assert!(!a.is_subset(&b));
    assert!(!a.is_disjoint(&b));
    let mut c: IndexSet<NodeIndex> = IndexSet::new();
    c.insert(NodeIndex(2));
    assert!(a.is_disjoint(&c));
    a.reserve_len(1000);
    a.reserve_len_exact(2000);
    a.shrink_to_fit();
    assert_eq!(a.len(), 2);
    assert!(a.contains(&NodeIndex(40)));
    assert!(!a.is_empty());
}
